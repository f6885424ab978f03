use vstd::prelude::*;
use crate::word::{Word, WORD_LEN, ALPHABET_SIZE, is_word_seq};

verus! {

/// Occurrences of `l` among the first `n` letters of `w`.
pub open spec fn count_in_word(w: Seq<u8>, l: u8, n: int) -> nat
    decreases n,
{
    if n <= 0 {
        0
    } else {
        count_in_word(w, l, n - 1) + if w[n - 1] == l { 1nat } else { 0nat }
    }
}

/// Occurrences of `l` at position `pos` over the words of `corpus`.
pub open spec fn local_occurrences(corpus: Seq<Word>, l: u8, pos: int) -> nat
    decreases corpus.len(),
{
    if corpus.len() == 0 {
        0
    } else {
        local_occurrences(corpus.drop_last(), l, pos) + if corpus.last()@[pos] == l {
            1nat
        } else {
            0nat
        }
    }
}

/// Occurrences of `l` at any position over the words of `corpus`.
pub open spec fn global_occurrences(corpus: Seq<Word>, l: u8) -> nat
    decreases corpus.len(),
{
    if corpus.len() == 0 {
        0
    } else {
        global_occurrences(corpus.drop_last(), l) + count_in_word(corpus.last()@, l, WORD_LEN as int)
    }
}

/// Every entry of the corpus is a word.
pub open spec fn corpus_wf(corpus: Seq<Word>) -> bool {
    forall|k: int| 0 <= k < corpus.len() ==> (#[trigger] corpus[k]).wf()
}

proof fn lemma_count_in_word_bound(w: Seq<u8>, l: u8, n: int)
    requires
        n >= 0,
    ensures
        count_in_word(w, l, n) <= n,
    decreases n,
{
    if n > 0 {
        lemma_count_in_word_bound(w, l, n - 1);
    }
}

proof fn lemma_occurrence_bounds(corpus: Seq<Word>, l: u8, pos: int)
    ensures
        local_occurrences(corpus, l, pos) <= corpus.len(),
        global_occurrences(corpus, l) <= WORD_LEN * corpus.len(),
    decreases corpus.len(),
{
    if corpus.len() > 0 {
        lemma_occurrence_bounds(corpus.drop_last(), l, pos);
        lemma_count_in_word_bound(corpus.last()@, l, WORD_LEN as int);
    }
}

/// The counts of one letter, with the totals that turn them into frequencies.
#[derive(Clone, Copy, Debug)]
pub struct LetterStats {
    /// Occurrences of the letter over the whole corpus.
    pub global_count: usize,
    /// Letters in the corpus: five per word.
    pub global_total: usize,
    /// Occurrences of the letter at each position.
    pub local_count: [usize; 5],
    /// Words in the corpus.
    pub local_total: usize,
}

impl LetterStats {
    /// Counts and totals all zero.
    pub fn new() -> (r: LetterStats)
        ensures
            r.global_count == 0,
            r.global_total == 0,
            r.local_count@ == seq![0usize, 0, 0, 0, 0],
            r.local_total == 0,
    {
        let r = LetterStats { global_count: 0, global_total: 0, local_count: [0usize; 5], local_total: 0 };
        assert(r.local_count@ =~= seq![0usize, 0, 0, 0, 0]);
        r
    }

    /// Sets the totals for a corpus of `global_total` letters, that is of
    /// `global_total / 5` words. The counts are kept.
    pub fn calculate_freqs(&mut self, global_total: usize)
        ensures
            final(self).global_total == global_total,
            final(self).local_total == global_total / 5,
            final(self).global_count == old(self).global_count,
            final(self).local_count == old(self).local_count,
    {
        self.global_total = global_total;
        self.local_total = global_total / 5;
    }

    /// The global frequency as a fraction: `(global_count, global_total)`.
    pub fn global_freq(&self) -> (r: (usize, usize))
        ensures
            r == (self.global_count, self.global_total),
    {
        (self.global_count, self.global_total)
    }

    /// The frequency at `pos` as a fraction: `(local_count[pos], local_total)`.
    pub fn local_freq(&self, pos: usize) -> (r: (usize, usize))
        requires
            pos < WORD_LEN,
        ensures
            r == (self.local_count@[pos as int], self.local_total),
    {
        (self.local_count[pos], self.local_total)
    }
}

/// Why letter statistics could not be built.
#[derive(Clone, Copy, Debug, PartialEq, Eq)]
pub enum StatsError {
    /// The answer corpus holds no word, so no frequency is defined.
    EmptyCorpus,
}

/// Letter counts over an answer corpus, global and per position.
#[derive(Clone, Debug)]
pub struct LetterStatistics {
    corpus_size: usize,
    global_count: Vec<usize>,
    local_count: Vec<usize>,
}

impl LetterStatistics {
    /// Words in the corpus.
    pub closed spec fn size(&self) -> nat {
        self.corpus_size as nat
    }

    /// Occurrences of letter `l` over the corpus.
    pub closed spec fn global(&self, l: int) -> nat {
        self.global_count@[l] as nat
    }

    /// Occurrences of letter `l` at position `pos` over the corpus.
    pub closed spec fn local(&self, l: int, pos: int) -> nat {
        self.local_count@[pos * ALPHABET_SIZE + l] as nat
    }

    /// The tables have their sizes and every count is bounded by the corpus.
    pub closed spec fn wf(&self) -> bool {
        &&& self.global_count@.len() == ALPHABET_SIZE
        &&& self.local_count@.len() == WORD_LEN * ALPHABET_SIZE
        &&& 0 < self.corpus_size
        &&& WORD_LEN * self.corpus_size <= usize::MAX
        &&& forall|l: int| 0 <= l < ALPHABET_SIZE ==> #[trigger] self.global_count@[l] <= WORD_LEN * self.corpus_size
        &&& forall|i: int| 0 <= i < WORD_LEN * ALPHABET_SIZE ==> #[trigger] self.local_count@[i] <= self.corpus_size
    }

    /// What the statistics of `corpus` are.
    pub open spec fn counts(&self, corpus: Seq<Word>) -> bool {
        &&& self.size() == corpus.len()
        &&& forall|l: u8| l < ALPHABET_SIZE ==> #[trigger] self.global(l as int) == global_occurrences(corpus, l)
        &&& forall|l: u8, pos: int| l < ALPHABET_SIZE && 0 <= pos < WORD_LEN
            ==> #[trigger] self.local(l as int, pos) == local_occurrences(corpus, l, pos)
    }

    /// Counts every letter of every word of the answer corpus, in one pass.
    /// An empty corpus is refused.
    pub fn build(corpus: &Vec<Word>) -> (r: Result<LetterStatistics, StatsError>)
        requires
            corpus_wf(corpus@),
            WORD_LEN * corpus@.len() <= usize::MAX,
        ensures
            r is Err <==> corpus@.len() == 0,
            r matches Ok(st) ==> st.wf() && st.counts(corpus@),
    {
        let n = corpus.len();
        if n == 0 {
            return Err(StatsError::EmptyCorpus);
        }
        let mut global: Vec<usize> = Vec::new();
        let mut j: usize = 0;
        while j < ALPHABET_SIZE
            invariant
                j <= ALPHABET_SIZE,
                global@.len() == j,
                forall|i: int| 0 <= i < j ==> global@[i] == 0,
            decreases ALPHABET_SIZE - j,
        {
            global.push(0);
            j = j + 1;
        }
        let mut local: Vec<usize> = Vec::new();
        let mut j: usize = 0;
        while j < WORD_LEN * ALPHABET_SIZE
            invariant
                j <= WORD_LEN * ALPHABET_SIZE,
                local@.len() == j,
                forall|i: int| 0 <= i < j ==> local@[i] == 0,
            decreases WORD_LEN * ALPHABET_SIZE - j,
        {
            local.push(0);
            j = j + 1;
        }
        let mut k: usize = 0;
        while k < n
            invariant
                n == corpus@.len(),
                0 < n,
                WORD_LEN * n <= usize::MAX,
                corpus_wf(corpus@),
                k <= n,
                global@.len() == ALPHABET_SIZE,
                local@.len() == WORD_LEN * ALPHABET_SIZE,
                forall|l: u8| l < ALPHABET_SIZE ==> #[trigger] global@[l as int]
                    == global_occurrences(corpus@.take(k as int), l),
                forall|l: u8, pos: int| l < ALPHABET_SIZE && 0 <= pos < WORD_LEN
                    ==> #[trigger] local@[pos * ALPHABET_SIZE + l]
                    == local_occurrences(corpus@.take(k as int), l, pos),
            decreases n - k,
        {
            let w = corpus[k];
            let ghost done = corpus@.take(k as int);
            assert(corpus@.take(k as int + 1).drop_last() =~= done);
            assert(corpus@.take(k as int + 1).last() == w);
            assert(w.wf());
            let mut p: usize = 0;
            while p < WORD_LEN
                invariant
                    n == corpus@.len(),
                    WORD_LEN * n <= usize::MAX,
                    k < n,
                    p <= WORD_LEN,
                    done == corpus@.take(k as int),
                    is_word_seq(w@),
                    global@.len() == ALPHABET_SIZE,
                    local@.len() == WORD_LEN * ALPHABET_SIZE,
                    forall|l: u8| l < ALPHABET_SIZE ==> #[trigger] global@[l as int]
                        == global_occurrences(done, l) + count_in_word(w@, l, p as int),
                    forall|l: u8, pos: int| l < ALPHABET_SIZE && 0 <= pos < WORD_LEN
                        ==> #[trigger] local@[pos * ALPHABET_SIZE + l]
                        == local_occurrences(done, l, pos) + if pos < p && w@[pos] == l {
                            1nat
                        } else {
                            0nat
                        },
                decreases WORD_LEN - p,
            {
                let l = w.letter(p);
                proof {
                    lemma_occurrence_bounds(done, l, p as int);
                    lemma_count_in_word_bound(w@, l, p as int);
                }
                let li = l as usize;
                let ghost g0 = global@;
                let ghost c0 = local@;
                let g = global[li];
                global.set(li, g + 1);
                let idx = p * ALPHABET_SIZE + li;
                let c = local[idx];
                local.set(idx, c + 1);
                proof {
                    assert forall|m: u8| m < ALPHABET_SIZE implies #[trigger] global@[m as int]
                        == global_occurrences(done, m) + count_in_word(w@, m, p as int + 1) by {
                        if m != l {
                            assert(global@[m as int] == g0[m as int]);
                        }
                    }
                    assert forall|m: u8, pos: int| m < ALPHABET_SIZE && 0 <= pos < WORD_LEN
                        implies #[trigger] local@[pos * ALPHABET_SIZE + m]
                        == local_occurrences(done, m, pos) + if pos < p + 1 && w@[pos] == m {
                            1nat
                        } else {
                            0nat
                        } by {
                        if pos * ALPHABET_SIZE + m != idx {
                            assert(local@[pos * ALPHABET_SIZE + m] == c0[pos * ALPHABET_SIZE + m]);
                        }
                    }
                }
                p = p + 1;
            }
            k = k + 1;
        }
        assert(corpus@.take(n as int) =~= corpus@);
        let st = LetterStatistics { corpus_size: n, global_count: global, local_count: local };
        proof {
            assert forall|l: int| 0 <= l < ALPHABET_SIZE implies #[trigger] st.global_count@[l] <= WORD_LEN * n by {
                lemma_occurrence_bounds(corpus@, l as u8, 0);
                assert(st.global_count@[(l as u8) as int] == global_occurrences(corpus@, l as u8));
            }
            assert forall|i: int| 0 <= i < WORD_LEN * ALPHABET_SIZE implies #[trigger] st.local_count@[i] <= n by {
                let pos = i / 26;
                let l = i % 26;
                lemma_occurrence_bounds(corpus@, l as u8, pos);
                assert(i == pos * ALPHABET_SIZE + (l as u8) as int);
            }
        }
        Ok(st)
    }

    /// Words in the corpus.
    pub fn corpus_size(&self) -> (r: usize)
        ensures
            r == self.size(),
    {
        self.corpus_size
    }

    /// The counts and totals of letter `l`.
    pub fn letter_stats(&self, l: u8) -> (r: LetterStats)
        requires
            self.wf(),
            l < ALPHABET_SIZE,
        ensures
            r.global_count == self.global(l as int),
            r.global_total == WORD_LEN * self.size(),
            forall|pos: int| 0 <= pos < WORD_LEN ==> #[trigger] r.local_count@[pos] == self.local(l as int, pos),
            r.local_total == self.size(),
    {
        let li = l as usize;
        let mut r = LetterStats::new();
        r.global_count = self.global_count[li];
        r.local_count = [
            self.local_count[li],
            self.local_count[ALPHABET_SIZE + li],
            self.local_count[2 * ALPHABET_SIZE + li],
            self.local_count[3 * ALPHABET_SIZE + li],
            self.local_count[4 * ALPHABET_SIZE + li],
        ];
        r.calculate_freqs(WORD_LEN * self.corpus_size);
        r
    }

    /// Occurrences of letter `l` over the corpus.
    pub fn global_count(&self, l: u8) -> (r: usize)
        requires
            self.wf(),
            l < ALPHABET_SIZE,
        ensures
            r == self.global(l as int),
            r <= WORD_LEN * self.size(),
    {
        self.global_count[l as usize]
    }

    /// Occurrences of letter `l` at position `pos` over the corpus.
    pub fn local_count(&self, l: u8, pos: usize) -> (r: usize)
        requires
            self.wf(),
            l < ALPHABET_SIZE,
            pos < WORD_LEN,
        ensures
            r == self.local(l as int, pos as int),
            r <= self.size(),
    {
        self.local_count[pos * ALPHABET_SIZE + l as usize]
    }
}

} // verus!
