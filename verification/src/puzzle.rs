//! One puzzle: a hidden word, and the scoring of guesses against it.
//!
//! A guess is case-folded, then each of its positions is scored on its own:
//! an exact match, a character present elsewhere in the hidden word, or a
//! character absent from it. The per-position scoring is deliberately
//! independent: it does not cap how often a repeated guess character may be
//! reported present.
use vstd::prelude::*;

verus! {

use crate::dictionary::Dictionary;
use crate::text::lower_of;
use crate::text::lowercased;

#[derive(Debug, PartialEq, Eq, Structural)]
pub enum PuzzleError {
    NoWordsForLen(usize),
}

#[derive(Debug, PartialEq, Eq, Structural)]
pub enum CheckWordError {
    InvalidLength,
    WordNotGuessed,
}

#[derive(Clone, Copy, Debug, PartialEq, Eq, Structural)]
pub enum CharCheck {
    GuessedExact,
    GuessedWrongPlace,
    NotGuessed,
}

/// The status of one position of a guess scored against a hidden word: an
/// exact match there, a character the hidden word holds elsewhere, or a
/// character it does not hold at all.
pub open spec fn char_score(hidden: Seq<char>, c: char, i: int) -> CharCheck {
    if 0 <= i < hidden.len() && hidden[i] == c {
        CharCheck::GuessedExact
    } else if hidden.contains(c) {
        CharCheck::GuessedWrongPlace
    } else {
        CharCheck::NotGuessed
    }
}

/// The full feedback for a guess: one `(character, status)` pair per guess
/// position, each position scored independently.
pub open spec fn score(hidden: Seq<char>, guess: Seq<char>) -> Seq<(char, CharCheck)> {
    Seq::new(guess.len(), |i: int| (guess[i], char_score(hidden, guess[i], i)))
}

/// Whether a feedback sequence reports an exact match at every position.
pub open spec fn solved_spec(pairs: Seq<(char, CharCheck)>) -> bool {
    forall|i: int| 0 <= i < pairs.len() ==> (#[trigger] pairs[i]).1 is GuessedExact
}

/// The feedback for one guess: the case-folded guess and one status per
/// position.
#[derive(Debug)]
pub struct WordCheck {
    word: String,
    pairs: Vec<(char, CharCheck)>,
}

impl View for WordCheck {
    type V = Seq<(char, CharCheck)>;

    closed spec fn view(&self) -> Seq<(char, CharCheck)> {
        self.pairs@
    }
}

impl WordCheck {
    /// The stored word agrees character by character with the feedback pairs.
    pub closed spec fn wf(&self) -> bool {
        self.word@ == self@.map_values(|p: (char, CharCheck)| p.0)
    }

    /// The guessed word the feedback was produced for, in its case-folded
    /// form.
    pub fn word(&self) -> (r: String)
        requires
            self.wf(),
        ensures
            r@ == self@.map_values(|p: (char, CharCheck)| p.0),
    {
        self.word.clone()
    }

    /// Whether every position of the feedback is an exact match.
    pub fn is_solved(&self) -> (r: bool)
        ensures
            r == solved_spec(self@),
    {
        let n = self.pairs.len();
        let mut i: usize = 0;
        while i < n
            invariant
                n == self@.len(),
                0 <= i <= n,
                forall|j: int| 0 <= j < i ==> (#[trigger] self@[j]).1 is GuessedExact,
            decreases n - i,
        {
            let (_, ty) = self.pairs[i];
            if !matches!(ty, CharCheck::GuessedExact) {
                return false;
            }
            i += 1;
        }
        true
    }

    /// The number of scored positions.
    pub fn len(&self) -> (r: usize)
        ensures
            r == self@.len(),
    {
        self.pairs.len()
    }

    /// The pair at one position: the guessed character and its status.
    pub fn get(&self, i: usize) -> (r: (char, CharCheck))
        requires
            i < self@.len(),
        ensures
            r == self@[i as int],
    {
        self.pairs[i]
    }
}

/// One game: a single hidden word, fixed at construction.
#[derive(Debug)]
pub struct Puzzle {
    word: String,
}

impl Puzzle {
    /// The hidden word.
    pub closed spec fn hidden(&self) -> Seq<char> {
        self.word@
    }

    /// A puzzle whose hidden word is given directly, for callers that manage
    /// word selection themselves.
    pub fn from_word(word: String) -> (p: Puzzle)
        ensures
            p.hidden() == word@,
    {
        Puzzle { word }
    }

    /// Creates a puzzle whose hidden word is drawn at random from the
    /// dictionary's words of the requested length; fails when the
    /// dictionary holds none of that length.
    pub fn new(length: usize, dic: &Dictionary) -> (r: Result<Puzzle, PuzzleError>)
        requires
            dic.wf(),
        ensures
            r is Ok <==> dic.has_len(length as nat),
            (r matches Ok(p) ==> dic.word_set(length as nat).contains(p.hidden())
                && p.hidden().len() == length),
            (r matches Err(e) ==> e == PuzzleError::NoWordsForLen(length)),
    {
        let words = match dic.get(length) {
            None => {
                return Err(PuzzleError::NoWordsForLen(length));
            },
            Some(w) => w,
        };
        let list = words.get_words();
        let mut rng = crate::randomness::new_rng();
        let i = crate::randomness::pick_index(&mut rng, list.len());
        let word = list[i].clone();
        proof {
            assert(word@ == words.word_seq()[i as int]);
            assert(words.word_seq().contains(word@));
        }
        Ok(Puzzle { word })
    }

    /// The character count of the hidden word.
    pub fn len(&self) -> (r: usize)
        ensures
            r == self.hidden().len(),
    {
        vstd::string::StrSliceExecFns::unicode_len(self.word.as_str())
    }

    /// Scores a guess against the hidden word. The guess is case-folded
    /// first; a folded guess of the wrong character count is rejected, and
    /// any other is scored position by position.
    pub fn check_word(&self, word: &str) -> (r: Result<WordCheck, CheckWordError>)
        ensures
            r is Ok <==> lower_of(word@).len() == self.hidden().len(),
            (r matches Ok(c) ==> c.wf() && c@ == score(self.hidden(), lower_of(word@))
                && c@.len() == self.hidden().len()),
            (r matches Err(e) ==> e == CheckWordError::InvalidLength),
    {
        let folded = lowercased(word);
        let n = vstd::string::StrSliceExecFns::unicode_len(folded.as_str());
        if n != vstd::string::StrSliceExecFns::unicode_len(self.word.as_str()) {
            return Err(CheckWordError::InvalidLength);
        }
        let mut pairs: Vec<(char, CharCheck)> = Vec::new();
        let mut i: usize = 0;
        while i < n
            invariant
                n == folded@.len(),
                n == self.hidden().len(),
                folded@ == lower_of(word@),
                0 <= i <= n,
                pairs@ =~= score(self.hidden(), folded@).take(i as int),
            decreases n - i,
        {
            let w = vstd::string::StrSliceExecFns::get_char(folded.as_str(), i);
            let cw = vstd::string::StrSliceExecFns::get_char(self.word.as_str(), i);
            let ty = if cw == w {
                CharCheck::GuessedExact
            } else {
                if str_contains_char(self.word.as_str(), w) {
                    CharCheck::GuessedWrongPlace
                } else {
                    CharCheck::NotGuessed
                }
            };
            pairs.push((w, ty));
            i += 1;
        }
        proof {
            assert(pairs@ =~= score(self.hidden(), folded@));
            assert(folded@ =~= pairs@.map_values(|p: (char, CharCheck)| p.0));
        }
        Ok(WordCheck { word: folded, pairs })
    }
}

/// Whether `s` holds the character `c` anywhere.
pub(crate) fn str_contains_char(s: &str, c: char) -> (r: bool)
    ensures
        r == s@.contains(c),
{
    let n = vstd::string::StrSliceExecFns::unicode_len(s);
    let mut i: usize = 0;
    while i < n
        invariant
            n == s@.len(),
            0 <= i <= n,
            forall|j: int| 0 <= j < i ==> s@[j] != c,
        decreases n - i,
    {
        if vstd::string::StrSliceExecFns::get_char(s, i) == c {
            assert(s@.contains(c));
            return true;
        }
        i += 1;
    }
    false
}

/// A guess equal to the hidden word is reported an exact match at every
/// position, and such feedback counts as solved.
pub proof fn lemma_check_own_word(hidden: Seq<char>)
    ensures
        solved_spec(score(hidden, hidden)),
        score(hidden, hidden).len() == hidden.len(),
{
}

/// Feedback holds exactly one pair per position of the scored guess.
pub proof fn lemma_feedback_length(hidden: Seq<char>, guess: Seq<char>)
    ensures
        score(hidden, guess).len() == guess.len(),
{
}

/// Scoring is case-insensitive: two guesses with the same case-folded form
/// receive the same feedback.
pub proof fn lemma_check_case_insensitive(hidden: Seq<char>, a: Seq<char>, b: Seq<char>)
    ensures
        lower_of(a) == lower_of(b) ==> score(hidden, lower_of(a)) == score(hidden, lower_of(b)),
{
}

/// Feedback that is solved can only have come from the hidden word itself:
/// an exact match at every position pins every character.
pub proof fn lemma_solved_is_hidden(hidden: Seq<char>, guess: Seq<char>)
    requires
        guess.len() == hidden.len(),
        solved_spec(score(hidden, guess)),
    ensures
        guess == hidden,
{
    assert forall|i: int| 0 <= i < guess.len() implies guess[i] == hidden[i] by {
        assert((score(hidden, guess)[i]).1 is GuessedExact);
    }
    assert(guess =~= hidden);
}

} // verus!
