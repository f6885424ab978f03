use vstd::prelude::*;
use crate::word::{Word, WORD_LEN, ALPHABET_SIZE, is_word_seq};

verus! {

/// Guesses a game allows before it is lost.
pub const GUESS_BUDGET: usize = 6;

/// The colour a guessed letter earns at its position.
#[derive(Clone, Copy, Debug, PartialEq, Eq)]
pub enum Feedback {
    /// The answer holds this letter at this position.
    Green,
    /// The answer holds this letter, at another position.
    Yellow,
    /// The answer does not hold this letter.
    Grey,
}

/// The colour of position `i` of guess `w` against `answer`: green where the
/// letters agree, else yellow where the answer holds the letter, else grey.
pub open spec fn feedback_of(answer: Seq<u8>, w: Seq<u8>, i: int) -> Feedback {
    if w[i] == answer[i] {
        Feedback::Green
    } else if answer.contains(w[i]) {
        Feedback::Yellow
    } else {
        Feedback::Grey
    }
}

/// The colour of position `pos` of `guess` against `answer`.
pub fn feedback(answer: &Word, guess: &Word, pos: usize) -> (r: Feedback)
    requires
        pos < WORD_LEN,
    ensures
        r == feedback_of(answer@, guess@, pos as int),
{
    let l = guess.letter(pos);
    if l == answer.letter(pos) {
        Feedback::Green
    } else if answer.contains_letter(l) {
        Feedback::Yellow
    } else {
        Feedback::Grey
    }
}

/// What a game is: the answer, the guesses so far, and the constraints
/// they revealed.
pub struct GameView {
    pub answer: Seq<u8>,
    pub guesses: Seq<Seq<u8>>,
    /// For each position, the letter confirmed there, if any.
    pub green: Seq<Option<u8>>,
    /// For each position, letters in the answer but known wrong there.
    pub yellow: Seq<Set<u8>>,
    /// Letters known to be absent from the answer.
    pub grey: Set<u8>,
}

impl GameView {
    /// The state of a new game with the given answer.
    pub open spec fn initial(answer: Seq<u8>) -> GameView {
        GameView {
            answer,
            guesses: Seq::empty(),
            green: Seq::new(WORD_LEN as nat, |i: int| None),
            yellow: Seq::new(WORD_LEN as nat, |i: int| Set::empty()),
            grey: Set::empty(),
        }
    }

    /// The state after guessing `w`: each position is classified by
    /// `feedback_of` and recorded in the matching constraint.
    pub open spec fn after_guess(self, w: Seq<u8>) -> GameView {
        GameView {
            answer: self.answer,
            guesses: self.guesses.push(w),
            green: Seq::new(
                WORD_LEN as nat,
                |i: int|
                    if feedback_of(self.answer, w, i) == Feedback::Green {
                        Some(w[i])
                    } else {
                        self.green[i]
                    },
            ),
            yellow: Seq::new(
                WORD_LEN as nat,
                |i: int|
                    if feedback_of(self.answer, w, i) == Feedback::Yellow {
                        self.yellow[i].insert(w[i])
                    } else {
                        self.yellow[i]
                    },
            ),
            grey: self.grey.union(
                Set::new(
                    |l: u8|
                        exists|i: int|
                            0 <= i < WORD_LEN && #[trigger] w[i] == l && feedback_of(self.answer, w, i)
                                == Feedback::Grey,
                ),
            ),
        }
    }

    /// The game is won: the latest guess is the answer.
    pub open spec fn won(self) -> bool {
        self.guesses.len() > 0 && self.guesses.last() == self.answer
    }

    /// The constraints agree with the answer: a green letter is the answer's
    /// letter there, a yellow letter is in the answer elsewhere, and a grey
    /// letter is nowhere in it.
    pub open spec fn consistent(self) -> bool {
        &&& is_word_seq(self.answer)
        &&& forall|k: int| 0 <= k < self.guesses.len() ==> is_word_seq(#[trigger] self.guesses[k])
        &&& self.green.len() == WORD_LEN
        &&& self.yellow.len() == WORD_LEN
        &&& forall|i: int| 0 <= i < WORD_LEN && (#[trigger] self.green[i]) is Some ==> self.answer[i] == self.green[i]->0
        &&& forall|i: int, l: u8|
            0 <= i < WORD_LEN && #[trigger] self.yellow[i].contains(l) ==> l < ALPHABET_SIZE
                && self.answer.contains(l) && self.answer[i] != l
        &&& forall|l: u8| #[trigger] self.grey.contains(l) ==> l < ALPHABET_SIZE && !self.answer.contains(l)
    }
}

/// Whether a game is still running or how it ended.
#[derive(Clone, Copy, Debug, PartialEq, Eq)]
pub enum GameStatus {
    InProgress,
    Won,
    Lost,
}

/// A game of Wordle against a hidden answer.
#[derive(Clone, Debug)]
pub struct WordleGame {
    word: Word,
    guesses: Vec<Word>,
    green: Vec<Option<u8>>,
    yellow: Vec<bool>,
    grey: Vec<bool>,
}

impl View for WordleGame {
    type V = GameView;

    closed spec fn view(&self) -> GameView {
        GameView {
            answer: self.word@,
            guesses: self.guesses@.map_values(|w: Word| w@),
            green: self.green@,
            yellow: Seq::new(
                WORD_LEN as nat,
                |i: int| Set::new(|l: u8| l < ALPHABET_SIZE && self.yellow@[i * ALPHABET_SIZE + l]),
            ),
            grey: Set::new(|l: u8| l < ALPHABET_SIZE && self.grey@[l as int]),
        }
    }
}

impl WordleGame {
    /// The tables have their sizes and the constraints agree with the answer.
    pub closed spec fn wf(&self) -> bool {
        &&& self.green@.len() == WORD_LEN
        &&& self.yellow@.len() == WORD_LEN * ALPHABET_SIZE
        &&& self.grey@.len() == ALPHABET_SIZE
        &&& self@.consistent()
    }

    /// A new game with the given answer: no guesses, no constraints.
    pub fn new(word: Word) -> (r: WordleGame)
        requires
            word.wf(),
        ensures
            r.wf(),
            r@ == GameView::initial(word@),
    {
        let mut green: Vec<Option<u8>> = Vec::new();
        let mut j: usize = 0;
        while j < WORD_LEN
            invariant
                j <= WORD_LEN,
                green@.len() == j,
                forall|i: int| 0 <= i < j ==> green@[i] == None::<u8>,
            decreases WORD_LEN - j,
        {
            green.push(None);
            j = j + 1;
        }
        let mut yellow: Vec<bool> = Vec::new();
        let mut j: usize = 0;
        while j < WORD_LEN * ALPHABET_SIZE
            invariant
                j <= WORD_LEN * ALPHABET_SIZE,
                yellow@.len() == j,
                forall|i: int| 0 <= i < j ==> !yellow@[i],
            decreases WORD_LEN * ALPHABET_SIZE - j,
        {
            yellow.push(false);
            j = j + 1;
        }
        let mut grey: Vec<bool> = Vec::new();
        let mut j: usize = 0;
        while j < ALPHABET_SIZE
            invariant
                j <= ALPHABET_SIZE,
                grey@.len() == j,
                forall|i: int| 0 <= i < j ==> !grey@[i],
            decreases ALPHABET_SIZE - j,
        {
            grey.push(false);
            j = j + 1;
        }
        let r = WordleGame { word, guesses: Vec::new(), green, yellow, grey };
        let ghost init = GameView::initial(word@);
        assert(r@.guesses =~= init.guesses);
        assert(r@.green =~= init.green);
        assert forall|i: int| 0 <= i < WORD_LEN implies #[trigger] r@.yellow[i] =~= init.yellow[i] by {}
        assert(r@.yellow =~= init.yellow);
        assert(r@.grey =~= init.grey);
        r
    }

    /// Plays `word` as the next guess: records it, then classifies each
    /// position into the green, yellow or grey constraints.
    pub fn guess(&mut self, word: Word)
        requires
            old(self).wf(),
            word.wf(),
        ensures
            final(self).wf(),
            final(self)@ == old(self)@.after_guess(word@),
    {
        let ghost v0 = self@;
        let ghost g0 = self.green@;
        let ghost y0 = self.yellow@;
        let ghost e0 = self.grey@;
        self.guesses.push(word);
        let mut i: usize = 0;
        while i < WORD_LEN
            invariant
                0 <= i <= WORD_LEN,
                word.wf(),
                self.word == old(self).word,
                self.guesses@ == old(self).guesses@.push(word),
                self.green@.len() == WORD_LEN,
                self.yellow@.len() == WORD_LEN * ALPHABET_SIZE,
                self.grey@.len() == ALPHABET_SIZE,
                v0 == old(self)@,
                g0 == old(self).green@,
                y0 == old(self).yellow@,
                e0 == old(self).grey@,
                forall|q: int| 0 <= q < WORD_LEN ==> #[trigger] self.green@[q] == if q < i
                    && feedback_of(self.word@, word@, q) == Feedback::Green {
                    Some(word@[q])
                } else {
                    g0[q]
                },
                forall|q: int, l: u8| 0 <= q < WORD_LEN && l < ALPHABET_SIZE ==>
                    #[trigger] self.yellow@[q * ALPHABET_SIZE + l] == (y0[q * ALPHABET_SIZE + l] || (q < i
                    && word@[q] == l && feedback_of(self.word@, word@, q) == Feedback::Yellow)),
                forall|l: u8| l < ALPHABET_SIZE ==> #[trigger] self.grey@[l as int] == (e0[l as int]
                    || exists|q: int| 0 <= q < i && #[trigger] word@[q] == l
                    && feedback_of(self.word@, word@, q) == Feedback::Grey),
            decreases WORD_LEN - i,
        {
            let l = word.letter(i);
            let f = feedback(&self.word, &word, i);
            let ghost gr1 = self.grey@;
            let ghost ye1 = self.yellow@;
            match f {
                Feedback::Green => {
                    self.green.set(i, Some(l));
                },
                Feedback::Yellow => {
                    self.yellow.set(i * ALPHABET_SIZE + l as usize, true);
                },
                Feedback::Grey => {
                    self.grey.set(l as usize, true);
                },
            }
            proof {
                assert forall|q: int, m: u8| 0 <= q < WORD_LEN && m < ALPHABET_SIZE implies
                    #[trigger] self.yellow@[q * ALPHABET_SIZE + m] == (y0[q * ALPHABET_SIZE + m] || (q < i + 1
                    && word@[q] == m && feedback_of(self.word@, word@, q) == Feedback::Yellow)) by {
                    if q * ALPHABET_SIZE + m != i * ALPHABET_SIZE + l {
                        assert(self.yellow@[q * ALPHABET_SIZE + m] == ye1[q * ALPHABET_SIZE + m]);
                    }
                }
                assert forall|m: u8| m < ALPHABET_SIZE implies #[trigger] self.grey@[m as int] == (e0[m as int]
                    || exists|q: int| 0 <= q < i + 1 && #[trigger] word@[q] == m
                    && feedback_of(self.word@, word@, q) == Feedback::Grey) by {
                    if m != l {
                        assert(self.grey@[m as int] == gr1[m as int]);
                        if exists|q: int| 0 <= q < i + 1 && #[trigger] word@[q] == m
                            && feedback_of(self.word@, word@, q) == Feedback::Grey {
                            let q = choose|q: int| 0 <= q < i + 1 && #[trigger] word@[q] == m
                                && feedback_of(self.word@, word@, q) == Feedback::Grey;
                            assert(q != i);
                        }
                    } else if f == Feedback::Grey {
                        assert(word@[i as int] == m);
                    }
                }
            }
            i = i + 1;
        }
        proof {
            let ghost v1 = v0.after_guess(word@);
            assert(self@.guesses =~= v1.guesses);
            assert(self@.green =~= v1.green);
            assert forall|q: int| 0 <= q < WORD_LEN implies #[trigger] self@.yellow[q] =~= v1.yellow[q] by {
                assert forall|m: u8| #[trigger] self@.yellow[q].contains(m) == v1.yellow[q].contains(m) by {
                    if m < ALPHABET_SIZE {
                        assert(self.yellow@[q * ALPHABET_SIZE + m] == (y0[q * ALPHABET_SIZE + m] || (
                        word@[q] == m && feedback_of(self.word@, word@, q) == Feedback::Yellow)));
                        assert(v0.yellow[q].contains(m) == y0[q * ALPHABET_SIZE + m]);
                    } else {
                        assert(!v0.yellow[q].contains(m));
                    }
                }
            }
            assert(self@.yellow =~= v1.yellow);
            assert forall|m: u8| #[trigger] self@.grey.contains(m) == v1.grey.contains(m) by {
                if m < ALPHABET_SIZE {
                    assert(self.grey@[m as int] == (e0[m as int]
                        || exists|q: int| 0 <= q < WORD_LEN && #[trigger] word@[q] == m
                        && feedback_of(self.word@, word@, q) == Feedback::Grey));
                } else {
                    assert(!v0.grey.contains(m));
                    if exists|q: int| 0 <= q < WORD_LEN && #[trigger] word@[q] == m {
                        let q = choose|q: int| 0 <= q < WORD_LEN && #[trigger] word@[q] == m;
                        assert(word@[q] < ALPHABET_SIZE);
                    }
                }
            }
            assert(self@.grey =~= v1.grey);
            assert(self@ == v1);
            assert forall|k: int| 0 <= k < self@.guesses.len() implies is_word_seq(#[trigger] self@.guesses[k]) by {
                if k < v0.guesses.len() {
                    assert(self@.guesses[k] == v0.guesses[k]);
                }
            }
            assert forall|l: u8| #[trigger] self@.grey.contains(l) implies l < ALPHABET_SIZE && !self@.answer.contains(l) by {
                if !v0.grey.contains(l) {
                    let q = choose|q: int| 0 <= q < WORD_LEN && #[trigger] word@[q] == l
                        && feedback_of(v0.answer, word@, q) == Feedback::Grey;
                }
            }
        }
    }

    /// Whether the latest guess is the answer. False before any guess.
    pub fn has_won(&self) -> (r: bool)
        requires
            self.wf(),
        ensures
            r == self@.won(),
    {
        let n = self.guesses.len();
        if n > 0 {
            let last = self.guesses[n - 1];
            last.same_as(&self.word)
        } else {
            false
        }
    }
}

impl WordleGame {
    /// A well-formed game's constraints agree with its answer.
    pub proof fn lemma_consistent(&self)
        requires
            self.wf(),
        ensures
            self@.consistent(),
            self@.green.len() == WORD_LEN,
            self@.yellow.len() == WORD_LEN,
    {
    }

    /// The hidden answer.
    pub fn answer(&self) -> (r: Word)
        ensures
            r@ == self@.answer,
    {
        self.word
    }

    /// How many guesses have been played.
    pub fn guess_count(&self) -> (r: usize)
        ensures
            r == self@.guesses.len(),
    {
        self.guesses.len()
    }

    /// The guess played at turn `k`, counting from 0.
    pub fn guess_at(&self, k: usize) -> (r: Word)
        requires
            k < self@.guesses.len(),
        ensures
            r@ == self@.guesses[k as int],
    {
        self.guesses[k]
    }

    /// Whether `w` has been played already.
    pub fn has_guessed(&self, w: &Word) -> (r: bool)
        ensures
            r == self@.guesses.contains(w@),
    {
        let mut k: usize = 0;
        while k < self.guesses.len()
            invariant
                k <= self.guesses@.len(),
                forall|j: int| 0 <= j < k ==> self@.guesses[j] != w@,
            decreases self.guesses@.len() - k,
        {
            if self.guesses[k].same_as(w) {
                assert(self@.guesses[k as int] == w@);
                return true;
            }
            k = k + 1;
        }
        false
    }

    /// The letter confirmed at `pos`, if any.
    pub fn green_at(&self, pos: usize) -> (r: Option<u8>)
        requires
            self.wf(),
            pos < WORD_LEN,
        ensures
            r == self@.green[pos as int],
    {
        self.green[pos]
    }

    /// Whether letter `l` is known to be in the answer but not at `pos`.
    pub fn is_yellow(&self, pos: usize, l: u8) -> (r: bool)
        requires
            self.wf(),
            pos < WORD_LEN,
        ensures
            r == self@.yellow[pos as int].contains(l),
    {
        if l < ALPHABET_SIZE as u8 {
            self.yellow[pos * ALPHABET_SIZE + l as usize]
        } else {
            false
        }
    }

    /// Whether letter `l` is known to be absent from the answer.
    pub fn is_grey(&self, l: u8) -> (r: bool)
        requires
            self.wf(),
        ensures
            r == self@.grey.contains(l),
    {
        if l < ALPHABET_SIZE as u8 {
            self.grey[l as usize]
        } else {
            false
        }
    }

    /// Whether the game goes on, was won, or ran out of guesses.
    pub fn status(&self) -> (r: GameStatus)
        requires
            self.wf(),
        ensures
            r == GameStatus::Won <==> self@.won(),
            r == GameStatus::Lost <==> !self@.won() && self@.guesses.len() >= GUESS_BUDGET,
            r == GameStatus::InProgress <==> !self@.won() && self@.guesses.len() < GUESS_BUDGET,
    {
        if self.has_won() {
            GameStatus::Won
        } else if self.guesses.len() >= GUESS_BUDGET {
            GameStatus::Lost
        } else {
            GameStatus::InProgress
        }
    }
}

/// The state after playing each word of `ws` in turn.
pub open spec fn after_guesses(v: GameView, ws: Seq<Seq<u8>>) -> GameView
    decreases ws.len(),
{
    if ws.len() == 0 {
        v
    } else {
        after_guesses(v, ws.drop_last()).after_guess(ws.last())
    }
}

/// Guessing the answer wins the game, with every position green.
pub proof fn lemma_guessing_answer_wins(v: GameView)
    requires
        v.consistent(),
    ensures
        v.after_guess(v.answer).won(),
        forall|i: int| 0 <= i < WORD_LEN ==> #[trigger] v.after_guess(v.answer).green[i] == Some(v.answer[i]),
{
}

/// One guess keeps the constraints consistent and loses none: grey letters
/// stay grey, yellow letters stay yellow at their positions, and a green
/// position keeps its letter.
pub proof fn lemma_guess_keeps_constraints(v: GameView, w: Seq<u8>)
    requires
        v.consistent(),
        is_word_seq(w),
    ensures
        v.after_guess(w).consistent(),
        v.grey.subset_of(v.after_guess(w).grey),
        forall|i: int| 0 <= i < WORD_LEN ==> v.yellow[i].subset_of(#[trigger] v.after_guess(w).yellow[i]),
        forall|i: int| 0 <= i < WORD_LEN && (#[trigger] v.green[i]) is Some ==> v.after_guess(w).green[i] == v.green[i],
{
    let u = v.after_guess(w);
    assert forall|k: int| 0 <= k < u.guesses.len() implies is_word_seq(#[trigger] u.guesses[k]) by {
        if k < v.guesses.len() {
            assert(u.guesses[k] == v.guesses[k]);
        }
    }
    assert forall|l: u8| #[trigger] u.grey.contains(l) implies l < ALPHABET_SIZE && !u.answer.contains(l) by {
        if !v.grey.contains(l) {
            let q = choose|q: int| 0 <= q < WORD_LEN && #[trigger] w[q] == l && feedback_of(v.answer, w, q) == Feedback::Grey;
        }
    }
    assert forall|i: int| 0 <= i < WORD_LEN && (#[trigger] v.green[i]) is Some implies u.green[i] == v.green[i] by {
        if feedback_of(v.answer, w, i) == Feedback::Green {
            assert(v.answer[i] == v.green[i]->0);
        }
    }
}

/// Over any run of guesses the constraints only grow: what is grey stays
/// grey, what is yellow at a position stays so, and a green position keeps
/// its letter, for the rest of the game.
pub proof fn lemma_constraints_only_grow(v: GameView, ws: Seq<Seq<u8>>)
    requires
        v.consistent(),
        forall|k: int| 0 <= k < ws.len() ==> is_word_seq(#[trigger] ws[k]),
    ensures
        after_guesses(v, ws).consistent(),
        v.grey.subset_of(after_guesses(v, ws).grey),
        forall|i: int| 0 <= i < WORD_LEN ==> v.yellow[i].subset_of(#[trigger] after_guesses(v, ws).yellow[i]),
        forall|i: int| 0 <= i < WORD_LEN && (#[trigger] v.green[i]) is Some ==> after_guesses(v, ws).green[i] == v.green[i],
    decreases ws.len(),
{
    if ws.len() > 0 {
        let ws0 = ws.drop_last();
        assert forall|k: int| 0 <= k < ws0.len() implies is_word_seq(#[trigger] ws0[k]) by {
            assert(ws0[k] == ws[k]);
        }
        lemma_constraints_only_grow(v, ws0);
        let u = after_guesses(v, ws0);
        assert(is_word_seq(ws[ws.len() - 1]));
        lemma_guess_keeps_constraints(u, ws.last());
        assert forall|i: int| 0 <= i < WORD_LEN implies v.yellow[i].subset_of(#[trigger] after_guesses(v, ws).yellow[i]) by {
            assert(v.yellow[i].subset_of(u.yellow[i]));
            assert(u.yellow[i].subset_of(u.after_guess(ws.last()).yellow[i]));
        }
        assert forall|i: int| 0 <= i < WORD_LEN && (#[trigger] v.green[i]) is Some implies after_guesses(v, ws).green[i] == v.green[i] by {
            assert(u.green[i] == v.green[i]);
        }
    }
}

} // verus!
