use vstd::prelude::*;
use crate::word::{Word, WORD_LEN, ALPHABET_SIZE};
use crate::stats::LetterStatistics;
use crate::game::{GameView, WordleGame};

verus! {

/// How a candidate's letter at one position is scored.
#[derive(Clone, Copy, Debug, PartialEq, Eq)]
pub enum Verdict {
    /// The position's confirmed letter.
    Green,
    /// A letter known elsewhere in the answer.
    Yellow,
    /// A letter known absent, or known wrong at exactly this position.
    Grey,
    /// A letter no guess has classified yet.
    Unseen,
}

/// Some yellow set before position `j` holds `l`.
pub open spec fn yellow_before(v: GameView, l: u8, j: int) -> bool {
    exists|q: int| 0 <= q < j && #[trigger] v.yellow[q].contains(l)
}

/// How position `i` of candidate `c` is scored in state `v`. The first rule
/// that applies wins: the green letter there; a grey letter; a yellow letter,
/// grey where the first yellow set holding it is this position's; else unseen.
pub open spec fn verdict_of(v: GameView, c: Seq<u8>, i: int) -> Verdict {
    if v.green[i] == Some(c[i]) {
        Verdict::Green
    } else if v.grey.contains(c[i]) {
        Verdict::Grey
    } else if yellow_before(v, c[i], WORD_LEN as int) {
        if !yellow_before(v, c[i], i) && v.yellow[i].contains(c[i]) {
            Verdict::Grey
        } else {
            Verdict::Yellow
        }
    } else {
        Verdict::Unseen
    }
}

/// Positions before `n` whose verdict is `k`.
pub open spec fn verdict_count(v: GameView, c: Seq<u8>, k: Verdict, n: int) -> nat
    decreases n,
{
    if n <= 0 {
        0
    } else {
        verdict_count(v, c, k, n - 1) + if verdict_of(v, c, n - 1) == k { 1nat } else { 0nat }
    }
}

/// Letters with an unseen verdict at some position before `n`.
pub open spec fn revealed_before(v: GameView, c: Seq<u8>, n: int) -> Set<u8> {
    Set::new(|l: u8| exists|q: int| 0 <= q < n && #[trigger] c[q] == l && verdict_of(v, c, q) == Verdict::Unseen)
}

/// Position `i` is the first unseen occurrence of its letter.
pub open spec fn reveals(v: GameView, c: Seq<u8>, i: int) -> bool {
    verdict_of(v, c, i) == Verdict::Unseen && !revealed_before(v, c, i).contains(c[i])
}

/// Global counts of the letters first revealed before position `n`.
pub open spec fn global_gain(v: GameView, st: LetterStatistics, c: Seq<u8>, n: int) -> nat
    decreases n,
{
    if n <= 0 {
        0
    } else {
        global_gain(v, st, c, n - 1) + if reveals(v, c, n - 1) { st.global(c[n - 1] as int) } else { 0 }
    }
}

/// Counts at their own positions of the letters first revealed before
/// position `n`.
pub open spec fn local_gain(v: GameView, st: LetterStatistics, c: Seq<u8>, n: int) -> nat
    decreases n,
{
    if n <= 0 {
        0
    } else {
        local_gain(v, st, c, n - 1) + if reveals(v, c, n - 1) { st.local(c[n - 1] as int, n - 1) } else { 0 }
    }
}

/// The score of a candidate: its counts of green, yellow and grey positions,
/// and what its unseen letters would reveal. The information measures are in
/// letter occurrences: `global_information` over the corpus's letter total is
/// the sum of the global frequencies of the distinct unseen letters, and
/// `local_information` over the corpus size the sum of their frequencies at
/// their positions.
#[derive(Clone, Copy, Debug, PartialEq, Eq, Structural)]
pub struct Score {
    pub green_count: usize,
    pub yellow_count: usize,
    pub grey_count: usize,
    pub global_information: u128,
    pub local_information: u128,
}

/// What `consider_guess` returns: nothing for a word already played, else
/// its score over all five positions.
pub open spec fn score_of(v: GameView, st: LetterStatistics, c: Seq<u8>) -> Option<Score> {
    if v.guesses.contains(c) {
        None
    } else {
        let n = WORD_LEN as int;
        Some(
            Score {
                green_count: verdict_count(v, c, Verdict::Green, n) as usize,
                yellow_count: verdict_count(v, c, Verdict::Yellow, n) as usize,
                grey_count: verdict_count(v, c, Verdict::Grey, n) as usize,
                global_information: global_gain(v, st, c, n) as u128,
                local_information: local_gain(v, st, c, n) as u128,
            },
        )
    }
}

proof fn lemma_verdict_counts(v: GameView, c: Seq<u8>, n: int)
    requires
        n >= 0,
    ensures
        verdict_count(v, c, Verdict::Green, n) + verdict_count(v, c, Verdict::Yellow, n)
            + verdict_count(v, c, Verdict::Grey, n) + verdict_count(v, c, Verdict::Unseen, n) == n,
    decreases n,
{
    if n > 0 {
        lemma_verdict_counts(v, c, n - 1);
    }
}

/// A score's colour counts add up to at most five.
pub proof fn lemma_colours_bounded(v: GameView, st: LetterStatistics, c: Seq<u8>)
    requires
        score_of(v, st, c) is Some,
    ensures
        ({
            let s = score_of(v, st, c)->0;
            s.green_count + s.yellow_count + s.grey_count <= WORD_LEN
        }),
{
    lemma_verdict_counts(v, c, WORD_LEN as int);
}

impl WordleGame {
    /// Scores `candidate` as a next guess; `None` where it was played already.
    pub fn consider_guess(&self, stats: &LetterStatistics, candidate: &Word) -> (r: Option<Score>)
        requires
            self.wf(),
            stats.wf(),
            candidate.wf(),
        ensures
            r == score_of(self@, *stats, candidate@),
            r matches Some(s) ==> s.green_count + s.yellow_count + s.grey_count <= WORD_LEN,
    {
        if self.has_guessed(candidate) {
            return None;
        }
        proof {
            self.lemma_consistent();
        }
        let ghost v = self@;
        let ghost c = candidate@;
        let mut green: usize = 0;
        let mut yellow: usize = 0;
        let mut grey: usize = 0;
        let mut global_revealed: u128 = 0;
        let mut local_revealed: u128 = 0;
        let mut revealed: Vec<bool> = Vec::new();
        let mut j: usize = 0;
        while j < ALPHABET_SIZE
            invariant
                j <= ALPHABET_SIZE,
                revealed@.len() == j,
                forall|q: int| 0 <= q < j ==> !revealed@[q],
            decreases ALPHABET_SIZE - j,
        {
            revealed.push(false);
            j = j + 1;
        }
        let mut i: usize = 0;
        while i < WORD_LEN
            invariant
                self.wf(),
                stats.wf(),
                candidate.wf(),
                v == self@,
                c == candidate@,
                v.consistent(),
                i <= WORD_LEN,
                revealed@.len() == ALPHABET_SIZE,
                green == verdict_count(v, c, Verdict::Green, i as int),
                yellow == verdict_count(v, c, Verdict::Yellow, i as int),
                grey == verdict_count(v, c, Verdict::Grey, i as int),
                global_revealed == global_gain(v, *stats, c, i as int),
                local_revealed == local_gain(v, *stats, c, i as int),
                global_revealed <= i * usize::MAX,
                local_revealed <= i * usize::MAX,
                green + yellow + grey <= i,
                forall|l: u8| l < ALPHABET_SIZE ==> #[trigger] revealed@[l as int] == revealed_before(v, c, i as int).contains(l),
            decreases WORD_LEN - i,
        {
            proof {
                lemma_verdict_counts(v, c, i as int);
            }
            let l = candidate.letter(i);
            let ghost seen = revealed_before(v, c, i as int);
            let ghost seen1 = revealed_before(v, c, i as int + 1);
            let verdict = self.position_verdict(l, i);
            assert(verdict == verdict_of(v, c, i as int));
            match verdict {
                Verdict::Green => {
                    green = green + 1;
                },
                Verdict::Yellow => {
                    yellow = yellow + 1;
                },
                Verdict::Grey => {
                    grey = grey + 1;
                },
                Verdict::Unseen => {
                    if !revealed[l as usize] {
                        revealed.set(l as usize, true);
                        global_revealed = global_revealed + stats.global_count(l) as u128;
                        local_revealed = local_revealed + stats.local_count(l, i) as u128;
                    }
                },
            }
            proof {
                assert forall|m: u8| m < ALPHABET_SIZE implies #[trigger] revealed@[m as int] == seen1.contains(m) by {
                    if seen.contains(m) {
                        let q = choose|q: int| 0 <= q < i && #[trigger] c[q] == m && verdict_of(v, c, q) == Verdict::Unseen;
                        assert(0 <= q < i + 1 && c[q] == m && verdict_of(v, c, q) == Verdict::Unseen);
                    }
                    if seen1.contains(m) && !seen.contains(m) {
                        let q = choose|q: int| 0 <= q < i + 1 && #[trigger] c[q] == m && verdict_of(v, c, q) == Verdict::Unseen;
                        assert(q == i);
                    }
                    if m == l && verdict == Verdict::Unseen {
                        assert(seen1.contains(m));
                    }
                }
            }
            i = i + 1;
        }
        proof {
            lemma_verdict_counts(v, c, WORD_LEN as int);
        }
        Some(
            Score {
                green_count: green,
                yellow_count: yellow,
                grey_count: grey,
                global_information: global_revealed,
                local_information: local_revealed,
            },
        )
    }

    /// The verdict on letter `l` at position `pos` of a candidate.
    fn position_verdict(&self, l: u8, pos: usize) -> (r: Verdict)
        requires
            self.wf(),
            pos < WORD_LEN,
        ensures
            forall|c: Seq<u8>| c.len() == WORD_LEN && c[pos as int] == l ==> r == verdict_of(self@, c, pos as int),
    {
        proof {
            self.lemma_consistent();
        }
        if self.green_at(pos) == Some(l) {
            return Verdict::Green;
        }
        if self.is_grey(l) {
            return Verdict::Grey;
        }
        let mut j: usize = 0;
        while j < WORD_LEN
            invariant
                self.wf(),
                j <= WORD_LEN,
                pos < WORD_LEN,
                self@.yellow.len() == WORD_LEN,
                !yellow_before(self@, l, j as int),
                self@.green[pos as int] != Some(l),
                !self@.grey.contains(l),
            decreases WORD_LEN - j,
        {
            if self.is_yellow(j, l) {
                assert(yellow_before(self@, l, WORD_LEN as int));
                if j == pos {
                    return Verdict::Grey;
                } else {
                    if j > pos {
                        assert(!yellow_before(self@, l, pos as int)) by {
                            if yellow_before(self@, l, pos as int) {
                                let q = choose|q: int| 0 <= q < pos && #[trigger] self@.yellow[q].contains(l);
                                assert(0 <= q < j && self@.yellow[q].contains(l));
                            }
                        }
                        assert(!self@.yellow[pos as int].contains(l));
                    } else {
                        assert(yellow_before(self@, l, pos as int)) by {
                            assert(0 <= j < pos && self@.yellow[j as int].contains(l));
                        }
                    }
                    return Verdict::Yellow;
                }
            }
            assert(!yellow_before(self@, l, j as int + 1)) by {
                if yellow_before(self@, l, j as int + 1) {
                    let q = choose|q: int| 0 <= q < j + 1 && #[trigger] self@.yellow[q].contains(l);
                    assert(q == j);
                }
            }
            j = j + 1;
        }
        Verdict::Unseen
    }
}

} // verus!
