use vstd::prelude::*;
use core::cmp::Ordering;
use rayon::iter::{IntoParallelRefIterator, IndexedParallelIterator, ParallelIterator};
use rayon::slice::ParallelSliceMut;
use crate::word::{Word, WORD_LEN};
use crate::stats::{LetterStatistics, corpus_wf};
use crate::game::{GameView, WordleGame};
use crate::evaluate::{Score, Verdict, score_of, verdict_of, verdict_count};

verus! {

broadcast use vstd::seq_lib::group_to_multiset_ensures;

/// A candidate that survived filtering: the word, where it stands in the
/// corpus, and its score.
#[derive(Clone, Copy, Debug)]
pub struct Ranked {
    pub word: Word,
    pub index: usize,
    pub score: Score,
}

/// `a` ranks strictly before `b`: more green positions, then more yellow,
/// then more local information, then more global information, then the
/// later place in the corpus.
pub open spec fn ranks_before(a: Ranked, b: Ranked) -> bool {
    let (x, y) = (a.score, b.score);
    x.green_count > y.green_count || (x.green_count == y.green_count && (x.yellow_count > y.yellow_count || (
    x.yellow_count == y.yellow_count && (x.local_information > y.local_information || (x.local_information
        == y.local_information && (x.global_information > y.global_information || (x.global_information
        == y.global_information && a.index > b.index)))))))
}

/// No entry of `r` ranks before an entry ahead of it.
pub open spec fn in_rank_order(r: Seq<Ranked>) -> bool {
    forall|i: int, j: int| 0 <= i < j < r.len() ==> !ranks_before(#[trigger] r[j], #[trigger] r[i])
}

/// The survivors of `corpus`, in corpus order: each word not played yet
/// whose score has no grey position.
pub open spec fn survivors(v: GameView, st: LetterStatistics, corpus: Seq<Word>) -> Seq<Ranked>
    decreases corpus.len(),
{
    if corpus.len() == 0 {
        Seq::empty()
    } else {
        let k = corpus.len() - 1;
        let rest = survivors(v, st, corpus.drop_last());
        match score_of(v, st, corpus[k]@) {
            Some(s) => if s.grey_count == 0 {
                rest.push(Ranked { word: corpus[k], index: k as usize, score: s })
            } else {
                rest
            },
            None => rest,
        }
    }
}

/// `ranks_before` is a strict order, and total on entries with distinct
/// corpus places.
pub proof fn lemma_ranking_is_strict_total(a: Ranked, b: Ranked, c: Ranked)
    ensures
        !ranks_before(a, a),
        ranks_before(a, b) && ranks_before(b, c) ==> ranks_before(a, c),
        a.index != b.index ==> ranks_before(a, b) || ranks_before(b, a),
        !(ranks_before(a, b) && ranks_before(b, a)),
{
}

/// Compares two entries by rank: `Less` where `a` ranks before `b`.
pub fn compare_ranked(a: &Ranked, b: &Ranked) -> (r: Ordering)
    ensures
        (r == Ordering::Less) == ranks_before(*a, *b),
        (r == Ordering::Greater) == ranks_before(*b, *a),
{
    let (x, y) = (a.score, b.score);
    if x.green_count != y.green_count {
        if x.green_count > y.green_count { Ordering::Less } else { Ordering::Greater }
    } else if x.yellow_count != y.yellow_count {
        if x.yellow_count > y.yellow_count { Ordering::Less } else { Ordering::Greater }
    } else if x.local_information != y.local_information {
        if x.local_information > y.local_information { Ordering::Less } else { Ordering::Greater }
    } else if x.global_information != y.global_information {
        if x.global_information > y.global_information { Ordering::Less } else { Ordering::Greater }
    } else if a.index != b.index {
        if a.index > b.index { Ordering::Less } else { Ordering::Greater }
    } else {
        Ordering::Equal
    }
}

/// Relies on rayon's `par_iter`, `map` and `collect_into_vec`: an indexed
/// parallel map collects its results in the order of the input. Each result
/// is what `consider_guess` returns for that word.
#[verifier::external_body]
fn score_all(game: &WordleGame, stats: &LetterStatistics, corpus: &Vec<Word>) -> (r: Vec<Option<Score>>)
    requires
        game.wf(),
        stats.wf(),
        corpus_wf(corpus@),
    ensures
        r@.len() == corpus@.len(),
        forall|k: int| 0 <= k < corpus@.len() ==> #[trigger] r@[k] == score_of(game@, *stats, corpus@[k]@),
{
    let mut r = Vec::new();
    corpus.par_iter().map(|w| game.consider_guess(stats, w)).collect_into_vec(&mut r);
    r
}

/// Relies on rayon's `par_sort_by` with `compare_ranked`, a total order: the
/// entries are permuted so that none ranks before an entry ahead of it.
#[verifier::external_body]
fn sort_ranked(v: &mut Vec<Ranked>)
    ensures
        final(v)@.to_multiset() == old(v)@.to_multiset(),
        in_rank_order(final(v)@),
{
    v.par_sort_by(|a, b| compare_ranked(a, b));
}

/// Among ranked entries with equal green and yellow counts and equal local
/// information, the one with more global information comes first.
pub proof fn lemma_global_information_breaks_ties(r: Seq<Ranked>, i: int, j: int)
    requires
        in_rank_order(r),
        0 <= i < r.len(),
        0 <= j < r.len(),
        r[i].score.green_count == r[j].score.green_count,
        r[i].score.yellow_count == r[j].score.yellow_count,
        r[i].score.local_information == r[j].score.local_information,
        r[i].score.global_information > r[j].score.global_information,
    ensures
        i < j,
{
    if j <= i {
        assert(ranks_before(r[i], r[j]));
        if j < i {
            assert(!ranks_before(r[i], r[j]));
        }
    }
}

/// The ranking's keys in order of precedence: of two ranked entries, the
/// earlier has at least as many green positions; with as many, at least as
/// many yellow; then at least as much local information; then at least as
/// much global information.
pub proof fn lemma_rank_precedence(r: Seq<Ranked>, i: int, j: int)
    requires
        in_rank_order(r),
        0 <= i < j < r.len(),
    ensures
        r[i].score.green_count >= r[j].score.green_count,
        r[i].score.green_count == r[j].score.green_count ==> r[i].score.yellow_count >= r[j].score.yellow_count,
        r[i].score.green_count == r[j].score.green_count && r[i].score.yellow_count == r[j].score.yellow_count
            ==> r[i].score.local_information >= r[j].score.local_information,
        r[i].score.green_count == r[j].score.green_count && r[i].score.yellow_count == r[j].score.yellow_count
            && r[i].score.local_information == r[j].score.local_information
            ==> r[i].score.global_information >= r[j].score.global_information,
{
    assert(!ranks_before(r[j], r[i]));
}

proof fn lemma_grey_verdict_counted(v: GameView, c: Seq<u8>, p: int, n: int)
    requires
        0 <= p < n,
        verdict_of(v, c, p) == Verdict::Grey,
    ensures
        verdict_count(v, c, Verdict::Grey, n) > 0,
    decreases n,
{
    if p < n - 1 {
        lemma_grey_verdict_counted(v, c, p, n - 1);
    }
}

/// Every survivor is a word of the corpus at its place, not played yet,
/// scored by `score_of` with no grey position, and holds no grey letter.
pub proof fn lemma_survivor(v: GameView, st: LetterStatistics, corpus: Seq<Word>, x: Ranked)
    requires
        v.consistent(),
        corpus_wf(corpus),
        corpus.len() <= usize::MAX,
        survivors(v, st, corpus).contains(x),
    ensures
        x.index < corpus.len(),
        x.word == corpus[x.index as int],
        score_of(v, st, x.word@) == Some(x.score),
        x.score.grey_count == 0,
        !v.guesses.contains(x.word@),
        forall|p: int| 0 <= p < WORD_LEN ==> !v.grey.contains(#[trigger] x.word@[p]),
    decreases corpus.len(),
{
    let k = corpus.len() - 1;
    let rest = survivors(v, st, corpus.drop_last());
    if rest.contains(x) {
        lemma_survivor(v, st, corpus.drop_last(), x);
    } else {
        match score_of(v, st, corpus[k]@) {
            Some(s) => {
                if s.grey_count == 0 {
                    assert(survivors(v, st, corpus) == rest.push(Ranked { word: corpus[k], index: k as usize, score: s }));
                    let y = Ranked { word: corpus[k], index: k as usize, score: s };
                    assert(rest.push(y).contains(x));
                    let q = choose|q: int| 0 <= q < rest.push(y).len() && rest.push(y)[q] == x;
                    if q < rest.len() {
                        assert(rest[q] == x);
                    }
                    assert(x == y);
                }
            },
            None => {},
        }
    }
    let c = x.word@;
    assert(corpus[x.index as int].wf());
    assert forall|p: int| 0 <= p < WORD_LEN implies !v.grey.contains(#[trigger] c[p]) by {
        if v.grey.contains(c[p]) {
            if v.green[p] == Some(c[p]) {
                assert(v.answer[p] == c[p]);
                assert(v.answer.contains(c[p]));
            }
            assert(verdict_of(v, c, p) == Verdict::Grey);
            lemma_grey_verdict_counted(v, c, p, WORD_LEN as int);
            lemma_verdict_bound(v, c, WORD_LEN as int);
        }
    }
}

proof fn lemma_verdict_bound(v: GameView, c: Seq<u8>, n: int)
    requires
        n >= 0,
    ensures
        verdict_count(v, c, Verdict::Grey, n) <= n,
    decreases n,
{
    if n > 0 {
        lemma_verdict_bound(v, c, n - 1);
    }
}

/// Ranks the corpus as next guesses: scores every word in parallel, drops
/// the words already played and those with a grey position, and orders the
/// rest best first.
pub fn rank(game: &WordleGame, stats: &LetterStatistics, corpus: &Vec<Word>) -> (r: Vec<Ranked>)
    requires
        game.wf(),
        stats.wf(),
        corpus_wf(corpus@),
    ensures
        r@.to_multiset() == survivors(game@, *stats, corpus@).to_multiset(),
        in_rank_order(r@),
        forall|k: int| 0 <= k < r@.len() ==> !game@.guesses.contains(#[trigger] r@[k].word@),
        forall|k: int, p: int| 0 <= k < r@.len() && 0 <= p < WORD_LEN ==> !game@.grey.contains(
            #[trigger] r@[k].word@[p],
        ),
{
    let scores = score_all(game, stats, corpus);
    let mut out: Vec<Ranked> = Vec::new();
    let n = corpus.len();
    let mut k: usize = 0;
    while k < n
        invariant
            n == corpus@.len(),
            scores@.len() == n,
            forall|q: int| 0 <= q < n ==> #[trigger] scores@[q] == score_of(game@, *stats, corpus@[q]@),
            k <= n,
            out@ == survivors(game@, *stats, corpus@.take(k as int)),
        decreases n - k,
    {
        assert(corpus@.take(k as int + 1).drop_last() =~= corpus@.take(k as int));
        match scores[k] {
            Some(s) => {
                if s.grey_count == 0 {
                    out.push(Ranked { word: corpus[k], index: k, score: s });
                }
            },
            None => {},
        }
        k = k + 1;
    }
    assert(corpus@.take(n as int) =~= corpus@);
    sort_ranked(&mut out);
    proof {
        game.lemma_consistent();
        assert forall|k: int| 0 <= k < out@.len() implies !game@.guesses.contains(#[trigger] out@[k].word@)
            && forall|p: int| 0 <= p < WORD_LEN ==> !game@.grey.contains(#[trigger] out@[k].word@[p]) by {
            assert(out@.to_multiset().count(out@[k]) > 0);
            lemma_survivor(game@, *stats, corpus@, out@[k]);
        }
    }
    out
}

} // verus!
