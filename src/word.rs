use vstd::prelude::*;

verus! {

broadcast use vstd::string::group_string_axioms;

/// Number of letters in every word.
pub const WORD_LEN: usize = 5;

/// Number of letters in the alphabet.
pub const ALPHABET_SIZE: usize = 26;

/// Whether `c` is an ASCII letter, in either case.
pub open spec fn is_letter_char(c: char) -> bool {
    ('a' <= c && c <= 'z') || ('A' <= c && c <= 'Z')
}

/// The alphabet index of an ASCII letter, ignoring case (`a` and `A` are 0).
pub open spec fn letter_index_of(c: char) -> u8 {
    if 'a' <= c && c <= 'z' {
        (c as u32 - 97) as u8
    } else {
        (c as u32 - 65) as u8
    }
}

/// Whether the text spells a word: exactly five ASCII letters.
pub open spec fn is_word_text(s: Seq<char>) -> bool {
    s.len() == WORD_LEN && forall|i: int| 0 <= i < s.len() ==> is_letter_char(#[trigger] s[i])
}

/// The letters of a word text, as alphabet indices.
pub open spec fn letters_of(s: Seq<char>) -> Seq<u8> {
    Seq::new(s.len(), |i: int| letter_index_of(s[i]))
}

/// Whether a letter sequence is a word: five alphabet indices.
pub open spec fn is_word_seq(w: Seq<u8>) -> bool {
    w.len() == WORD_LEN && forall|i: int| 0 <= i < w.len() ==> #[trigger] w[i] < ALPHABET_SIZE
}

/// The alphabet index of `c`, or `None` where `c` is not an ASCII letter.
pub fn letter_index(c: char) -> (r: Option<u8>)
    ensures
        r is Some <==> is_letter_char(c),
        r matches Some(l) ==> l == letter_index_of(c) && l < ALPHABET_SIZE,
{
    if 'a' <= c && c <= 'z' {
        Some((c as u32 - 97) as u8)
    } else if 'A' <= c && c <= 'Z' {
        Some((c as u32 - 65) as u8)
    } else {
        None
    }
}

/// A five-letter word, case-insensitive. Each letter is held as its index in
/// the alphabet: `a` is 0 and `z` is 25.
#[derive(Clone, Copy, Debug)]
pub struct Word {
    pub letters: [u8; 5],
}

impl View for Word {
    type V = Seq<u8>;

    open spec fn view(&self) -> Seq<u8> {
        self.letters@
    }
}

impl Word {
    /// Every letter is an alphabet index.
    pub open spec fn wf(&self) -> bool {
        is_word_seq(self@)
    }

    /// Reads a word from text: five ASCII letters, in either case. Any other
    /// text gives `None`.
    pub fn parse(s: &str) -> (r: Option<Word>)
        ensures
            r is Some <==> is_word_text(s@),
            r matches Some(w) ==> w.wf() && w@ == letters_of(s@),
    {
        if !s.is_ascii() {
            proof {
                if is_word_text(s@) {
                    assert forall|i: int| 0 <= i < s@.len() implies '\0' <= #[trigger] s@[i] <= '\u{7f}' by {
                        assert(is_letter_char(s@[i]));
                    assert(s@[i] <= '\u{7f}');
                    assert('\0' <= s@[i]);
                    }
                }
            }
            return None;
        }
        let b = s.as_bytes();
        proof {
            vstd::string::is_ascii_spec_bytes(s);
        }
        if b.len() != WORD_LEN {
            return None;
        }
        let mut letters: [u8; 5] = [0u8; 5];
        let mut i: usize = 0;
        while i < WORD_LEN
            invariant
                b@.len() == WORD_LEN,
                s@.len() == WORD_LEN,
                vstd::string::is_ascii(s),
                b@ == Seq::new(s@.len(), |j: int| s@[j] as u8),
                0 <= i <= WORD_LEN,
                forall|j: int| 0 <= j < i ==> is_letter_char(#[trigger] s@[j]),
                forall|j: int| 0 <= j < i ==> #[trigger] letters@[j] == letter_index_of(s@[j]),
                forall|j: int| 0 <= j < i ==> #[trigger] letters@[j] < ALPHABET_SIZE,
            decreases WORD_LEN - i,
        {
            let c = b[i];
            assert(s@[i as int] <= '\u{7f}');
            assert(c as u32 == s@[i as int] as u32);
            if 97 <= c && c <= 122 {
                letters[i] = c - 97;
            } else if 65 <= c && c <= 90 {
                letters[i] = c - 65;
            } else {
                assert(!is_letter_char(s@[i as int]));
                return None;
            }
            i = i + 1;
        }
        let w = Word { letters };
        assert(w@ =~= letters_of(s@));
        Some(w)
    }

    /// The letter at `pos`, as an alphabet index.
    pub fn letter(&self, pos: usize) -> (r: u8)
        requires
            pos < WORD_LEN,
        ensures
            r == self@[pos as int],
    {
        self.letters[pos]
    }

    /// The letter at `pos`, as a lower-case character.
    pub fn letter_char(&self, pos: usize) -> (r: char)
        requires
            self.wf(),
            pos < WORD_LEN,
        ensures
            r as u32 == 97 + self@[pos as int],
    {
        let l = self.letters[pos];
        (97 + l) as char
    }

    /// Whether two words spell the same letters.
    pub fn same_as(&self, other: &Word) -> (r: bool)
        ensures
            r == (self@ == other@),
    {
        let mut i: usize = 0;
        while i < WORD_LEN
            invariant
                0 <= i <= WORD_LEN,
                self@.len() == WORD_LEN,
                other@.len() == WORD_LEN,
                forall|j: int| 0 <= j < i ==> self@[j] == other@[j],
            decreases WORD_LEN - i,
        {
            if self.letters[i] != other.letters[i] {
                return false;
            }
            i = i + 1;
        }
        assert(self@ =~= other@);
        true
    }

    /// Whether the word holds `letter` at any position.
    pub fn contains_letter(&self, letter: u8) -> (r: bool)
        ensures
            r == self@.contains(letter),
    {
        let mut i: usize = 0;
        while i < WORD_LEN
            invariant
                0 <= i <= WORD_LEN,
                self@.len() == WORD_LEN,
                forall|j: int| 0 <= j < i ==> self@[j] != letter,
            decreases WORD_LEN - i,
        {
            if self.letters[i] == letter {
                return true;
            }
            i = i + 1;
        }
        false
    }
}

} // verus!
