//! The constraint-solving loop: a chooser that accumulates per-position and
//! per-character constraints from feedback, and a solver that guesses,
//! folds feedback into the chooser, and filters the candidate set.
use vstd::prelude::*;

verus! {

use crate::dictionary::Dictionary;
use crate::puzzle::char_score;
use crate::puzzle::lemma_check_own_word;
use crate::puzzle::lemma_solved_is_hidden;
use crate::puzzle::solved_spec;
use crate::puzzle::score;
use crate::puzzle::CharCheck;
use crate::puzzle::CheckWordError;
use crate::puzzle::Puzzle;
use crate::text::lower_of;

#[derive(Debug, PartialEq, Eq, Structural)]
pub enum SolveError {
    EmptyDictionary,
    SolutionNotFound,
    CheckWordError(CheckWordError),
}

impl From<CheckWordError> for SolveError {
    fn from(e: CheckWordError) -> (r: SolveError) {
        SolveError::CheckWordError(e)
    }
}

impl vstd::std_specs::convert::FromSpecImpl<CheckWordError> for SolveError {
    open spec fn obeys_from_spec() -> bool {
        true
    }

    open spec fn from_spec(e: CheckWordError) -> SolveError {
        SolveError::CheckWordError(e)
    }
}

/// The partial map from position to character represented by a vector of
/// optional slots.
pub open spec fn pos_map(s: Seq<Option<char>>) -> Map<nat, char> {
    Map::new(|p: nat| p < s.len() && s[p as int] is Some, |p: nat| s[p as int]->0)
}

/// The constraint accumulator: positions whose character is known exactly,
/// positions a character is known not to occupy, and characters known to be
/// absent from the hidden word.
pub struct WordsChooser {
    wanted_at_pos: Vec<Option<char>>,
    wanted_not_at_pos: Vec<Option<char>>,
    except: Vec<char>,
}

impl WordsChooser {
    /// Position to required character, from exact matches.
    pub closed spec fn at_map(&self) -> Map<nat, char> {
        pos_map(self.wanted_at_pos@)
    }

    /// Position to a character known wrong there, from wrong-place matches.
    pub closed spec fn not_at_map(&self) -> Map<nat, char> {
        pos_map(self.wanted_not_at_pos@)
    }

    /// Characters confirmed absent from the hidden word.
    pub closed spec fn except_set(&self) -> Set<char> {
        self.except@.to_set()
    }

    pub closed spec fn wf(&self) -> bool {
        self.except@.no_duplicates()
    }

    /// Every constrained position lies below `n`.
    pub open spec fn pos_bound(&self, n: nat) -> bool {
        &&& (forall|p: nat| #[trigger] self.at_map().dom().contains(p) ==> p < n)
        &&& (forall|p: nat| #[trigger] self.not_at_map().dom().contains(p) ==> p < n)
    }

    /// The filter predicate: a word passes when it matches every required
    /// position, avoids every excluded position, and holds no absent
    /// character.
    pub open spec fn passes(&self, w: Seq<char>) -> bool {
        &&& (forall|p: nat|
            #[trigger] self.at_map().dom().contains(p) ==> p < w.len() && w[p as int]
                == self.at_map()[p])
        &&& (forall|p: nat|
            #[trigger] self.not_at_map().dom().contains(p) ==> p < w.len() && w[p as int]
                != self.not_at_map()[p])
        &&& (forall|c: char| self.except_set().contains(c) ==> !w.contains(c))
    }

    /// Every accumulated constraint is true of `hidden`: required characters
    /// stand where required, excluded characters stand elsewhere, and absent
    /// characters occur nowhere in it.
    pub open spec fn consistent_with(&self, hidden: Seq<char>) -> bool {
        &&& (forall|p: nat|
            #[trigger] self.at_map().dom().contains(p) ==> p < hidden.len() && hidden[p as int]
                == self.at_map()[p])
        &&& (forall|p: nat|
            #[trigger] self.not_at_map().dom().contains(p) ==> p < hidden.len() && hidden[p as int]
                != self.not_at_map()[p])
        &&& (forall|c: char| self.except_set().contains(c) ==> !hidden.contains(c))
    }

    pub fn new() -> (c: WordsChooser)
        ensures
            c.wf(),
            c.at_map() == Map::<nat, char>::empty(),
            c.not_at_map() == Map::<nat, char>::empty(),
            c.except_set() == Set::<char>::empty(),
    {
        let c = WordsChooser {
            wanted_at_pos: Vec::new(),
            wanted_not_at_pos: Vec::new(),
            except: Vec::new(),
        };
        proof {
            assert(c.at_map() =~= Map::<nat, char>::empty());
            assert(c.not_at_map() =~= Map::<nat, char>::empty());
            assert(c.except_set() =~= Set::<char>::empty());
        }
        c
    }

    /// Records that position `pos` holds exactly `ch`, withdrawing any
    /// earlier claim that `ch` is absent. A constraint that was true of a
    /// hidden word stays true of it.
    pub fn add_wanted_at_pos(&mut self, pos: usize, ch: char)
        requires
            old(self).wf(),
        ensures
            final(self).wf(),
            final(self).at_map() == old(self).at_map().insert(pos as nat, ch),
            final(self).not_at_map() == old(self).not_at_map(),
            final(self).except_set() == old(self).except_set().remove(ch),
            (forall|h: Seq<char>|
                old(self).consistent_with(h) && pos < h.len() && h[pos as int] == ch
                    ==> final(self).consistent_with(h)),
    {
        grow_and_set(&mut self.wanted_at_pos, pos, ch);
        remove_char(&mut self.except, ch);
        proof {
            assert forall|h: Seq<char>|
                old(self).consistent_with(h) && pos < h.len() && h[pos as int]
                    == ch implies self.consistent_with(h) by {
                assert forall|p: nat| #[trigger] self.at_map().dom().contains(p) implies p
                    < h.len() && h[p as int] == self.at_map()[p] by {
                    if p != pos as nat {
                        assert(old(self).at_map().dom().contains(p));
                    }
                }
                assert forall|p: nat| #[trigger] self.not_at_map().dom().contains(p) implies p
                    < h.len() && h[p as int] != self.not_at_map()[p] by {
                    assert(old(self).not_at_map().dom().contains(p));
                }
                assert forall|c2: char| self.except_set().contains(c2) implies !h.contains(c2) by {
                    assert(old(self).except_set().contains(c2));
                }
            }
        }
    }

    /// Records that position `pos` does not hold `ch` (though `ch` appears
    /// somewhere), withdrawing any earlier claim that `ch` is absent.
    pub fn add_wanted_not_at_pos(&mut self, pos: usize, ch: char)
        requires
            old(self).wf(),
        ensures
            final(self).wf(),
            final(self).not_at_map() == old(self).not_at_map().insert(pos as nat, ch),
            final(self).at_map() == old(self).at_map(),
            final(self).except_set() == old(self).except_set().remove(ch),
            (forall|h: Seq<char>|
                old(self).consistent_with(h) && pos < h.len() && h[pos as int] != ch
                    ==> final(self).consistent_with(h)),
    {
        grow_and_set(&mut self.wanted_not_at_pos, pos, ch);
        remove_char(&mut self.except, ch);
        proof {
            assert forall|h: Seq<char>|
                old(self).consistent_with(h) && pos < h.len() && h[pos as int]
                    != ch implies self.consistent_with(h) by {
                assert forall|p: nat| #[trigger] self.at_map().dom().contains(p) implies p
                    < h.len() && h[p as int] == self.at_map()[p] by {
                    assert(old(self).at_map().dom().contains(p));
                }
                assert forall|p: nat| #[trigger] self.not_at_map().dom().contains(p) implies p
                    < h.len() && h[p as int] != self.not_at_map()[p] by {
                    if p != pos as nat {
                        assert(old(self).not_at_map().dom().contains(p));
                    }
                }
                assert forall|c2: char| self.except_set().contains(c2) implies !h.contains(c2) by {
                    assert(old(self).except_set().contains(c2));
                }
            }
        }
    }

    /// Records that `ch` is absent from the hidden word, retracting any
    /// fixed-position requirement of that very character.
    pub fn add_except(&mut self, ch: char)
        requires
            old(self).wf(),
        ensures
            final(self).wf(),
            final(self).at_map() == (Map::new(
                |p: nat| old(self).at_map().dom().contains(p) && old(self).at_map()[p] != ch,
                |p: nat| old(self).at_map()[p],
            )),
            final(self).not_at_map() == old(self).not_at_map(),
            final(self).except_set() == old(self).except_set().insert(ch),
            (forall|h: Seq<char>|
                old(self).consistent_with(h) && !h.contains(ch) ==> final(self).consistent_with(h)),
    {
        let n = self.wanted_at_pos.len();
        let mut i: usize = 0;
        while i < n
            invariant
                n == self.wanted_at_pos@.len(),
                self.wanted_at_pos@.len() == old(self).wanted_at_pos@.len(),
                0 <= i <= n,
                self.wanted_not_at_pos == old(self).wanted_not_at_pos,
                self.except == old(self).except,
                (forall|p: int|
                    i <= p < n ==> self.wanted_at_pos@[p] == old(self).wanted_at_pos@[p]),
                (forall|p: int|
                    0 <= p < i ==> self.wanted_at_pos@[p] == (
                    if old(self).wanted_at_pos@[p] == Some(ch) {
                        None
                    } else {
                        old(self).wanted_at_pos@[p]
                    })),
            decreases n - i,
        {
            let slot = self.wanted_at_pos[i];
            if slot == Some(ch) {
                set_slot(&mut self.wanted_at_pos, i, None);
            }
            i += 1;
        }
        push_unique_char(&mut self.except, ch);
        proof {
            assert(self.at_map() =~= (Map::new(
                |p: nat| old(self).at_map().dom().contains(p) && old(self).at_map()[p] != ch,
                |p: nat| old(self).at_map()[p],
            )));
            assert forall|h: Seq<char>|
                old(self).consistent_with(h) && !h.contains(ch) implies self.consistent_with(
                h,
            ) by {
                assert forall|p: nat| #[trigger] self.at_map().dom().contains(p) implies p
                    < h.len() && h[p as int] == self.at_map()[p] by {
                    assert(old(self).at_map().dom().contains(p));
                }
                assert forall|p: nat| #[trigger] self.not_at_map().dom().contains(p) implies p
                    < h.len() && h[p as int] != self.not_at_map()[p] by {
                    assert(old(self).not_at_map().dom().contains(p));
                }
                assert forall|c2: char| self.except_set().contains(c2) implies !h.contains(c2) by {
                    if c2 != ch {
                        assert(old(self).except_set().contains(c2));
                    }
                }
            }
        }
    }

    /// Keeps exactly the words that satisfy every accumulated constraint,
    /// in their original order.
    pub fn filter(&self, words: &Vec<String>) -> (r: Vec<String>)
        requires
            self.wf(),
            (forall|i: int|
                0 <= i < words.deep_view().len() ==> self.pos_bound(
                    (#[trigger] words.deep_view()[i]).len(),
                )),
        ensures
            r.deep_view() == words.deep_view().filter(passes_pred(*self)),
    {
        let ghost pred = passes_pred(*self);
        let mut out: Vec<String> = Vec::new();
        let n = words.len();
        let mut i: usize = 0;
        while i < n
            invariant
                n == words@.len(),
                0 <= i <= n,
                self.wf(),
                (forall|k: int|
                    0 <= k < words.deep_view().len() ==> self.pos_bound(
                        (#[trigger] words.deep_view()[k]).len(),
                    )),
                pred == passes_pred(*self),
                out.deep_view() =~= words.deep_view().take(i as int).filter(pred),
            decreases n - i,
        {
            proof {
                assert(words.deep_view().take(i + 1).drop_last() =~= words.deep_view().take(
                    i as int,
                ));
                assert(words.deep_view().take(i + 1).last() == words.deep_view()[i as int]);
                reveal(Seq::filter);
            }
            let keep = self.word_passes(&words[i]);
            if keep {
                let w = words[i].clone();
                assert(w.deep_view() == words.deep_view()[i as int]);
                out.push(w);
            }
            i += 1;
        }
        proof {
            assert(words.deep_view().take(n as int) =~= words.deep_view());
        }
        out
    }

    /// Whether one word satisfies every accumulated constraint.
    fn word_passes(&self, w: &String) -> (r: bool)
        requires
            self.wf(),
            self.pos_bound(w@.len()),
        ensures
            r == self.passes(w@),
    {
        let n = self.wanted_at_pos.len();
        let mut i: usize = 0;
        while i < n
            invariant
                n == self.wanted_at_pos@.len(),
                0 <= i <= n,
                self.pos_bound(w@.len()),
                (forall|p: nat|
                    p < i && self.at_map().dom().contains(p) ==> p < w@.len() && w@[p as int]
                        == self.at_map()[p]),
            decreases n - i,
        {
            if let Some(c) = self.wanted_at_pos[i] {
                assert(self.at_map().dom().contains(i as nat));
                let wc = vstd::string::StrSliceExecFns::get_char(w.as_str(), i);
                if wc != c {
                    return false;
                }
            }
            i += 1;
        }
        assert forall|p: nat| self.at_map().dom().contains(p) implies p < w@.len() && w@[p as int]
            == self.at_map()[p] by {
            assert(p < n);
        }
        let m = self.wanted_not_at_pos.len();
        let mut j: usize = 0;
        while j < m
            invariant
                m == self.wanted_not_at_pos@.len(),
                0 <= j <= m,
                self.pos_bound(w@.len()),
                (forall|p: nat|
                    self.at_map().dom().contains(p) ==> p < w@.len() && w@[p as int]
                        == self.at_map()[p]),
                (forall|p: nat|
                    p < j && self.not_at_map().dom().contains(p) ==> p < w@.len() && w@[p as int]
                        != self.not_at_map()[p]),
            decreases m - j,
        {
            if let Some(c) = self.wanted_not_at_pos[j] {
                assert(self.not_at_map().dom().contains(j as nat));
                let wc = vstd::string::StrSliceExecFns::get_char(w.as_str(), j);
                if wc == c {
                    return false;
                }
            }
            j += 1;
        }
        assert forall|p: nat| self.not_at_map().dom().contains(p) implies p < w@.len() && w@[
            p as int
        ] != self.not_at_map()[p] by {
            assert(p < m);
        }
        let e = self.except.len();
        let mut k: usize = 0;
        while k < e
            invariant
                e == self.except@.len(),
                0 <= k <= e,
                (forall|p: nat|
                    self.at_map().dom().contains(p) ==> p < w@.len() && w@[p as int]
                        == self.at_map()[p]),
                (forall|p: nat|
                    self.not_at_map().dom().contains(p) ==> p < w@.len() && w@[p as int]
                        != self.not_at_map()[p]),
                (forall|x: int| 0 <= x < k ==> !w@.contains(self.except@[x])),
            decreases e - k,
        {
            if crate::puzzle::str_contains_char(w.as_str(), self.except[k]) {
                assert(self.except_set().contains(self.except@[k as int]));
                return false;
            }
            k += 1;
        }
        assert forall|c: char| self.except_set().contains(c) implies !w@.contains(c) by {
            let x = choose|x: int| 0 <= x < self.except@.len() && self.except@[x] == c;
        }
        true
    }
}

/// The inputs on which a solve attempt is owed success: the puzzle's
/// hidden word stands in the dictionary's group for its length, and
/// case-folding leaves every word of that group unchanged. A group built
/// by [`Dictionary::new`] holds only already-folded words; that folding
/// such a word again changes nothing is a property of the fold itself,
/// taken here as a hypothesis rather than assumed of `str::to_lowercase`.
pub open spec fn solve_succeeds_on(dict: &Dictionary, puzzle: &Puzzle) -> bool {
    &&& dict.word_set(puzzle.hidden().len()).contains(puzzle.hidden())
    &&& (forall|w: Seq<char>|
        #[trigger] dict.word_set(puzzle.hidden().len()).contains(w) ==> crate::text::lower_of(w)
            == w)
}

/// A solver that guesses uniformly at random among the remaining
/// candidate words.
pub struct NaiveSolver;

impl NaiveSolver {
    pub fn new() -> Self {
        NaiveSolver
    }

    /// Runs the guess/feedback/filter loop against one puzzle: draw a
    /// candidate at random, score it, stop when it solved the puzzle, and
    /// otherwise fold the feedback into the chooser and filter the
    /// remaining candidates. A word returned as solved is the hidden word
    /// itself. The candidate set shrinks every round, so the loop runs at
    /// most one round per initial candidate.
    pub fn solve(&mut self, puzzle: &Puzzle, dict: &Dictionary) -> (r: Result<String, SolveError>)
        requires
            dict.wf(),
        ensures
            (r matches Ok(w) ==> w@ == puzzle.hidden()),
            (r matches Err(e) ==> e == SolveError::EmptyDictionary
                || e == SolveError::SolutionNotFound || e == SolveError::CheckWordError(
                CheckWordError::InvalidLength,
            )),
            (r == Err::<String, SolveError>(SolveError::EmptyDictionary) <==> !dict.has_len(
                puzzle.hidden().len(),
            )),
            (solve_succeeds_on(dict, puzzle) ==> r is Ok),
    {
        let len = puzzle.len();
        let words = match dict.get(len) {
            None => {
                proof {
                    assert(!solve_succeeds_on(dict, puzzle));
                }
                return Err(SolveError::EmptyDictionary);
            },
            Some(w) => w,
        };
        let mut rng = crate::randomness::new_rng();
        let mut remained: Vec<String> = clone_words(words.get_words());
        let ghost hidden = puzzle.hidden();
        proof {
            assert forall|x: int|
                0 <= x < remained.deep_view().len() implies dict.word_set(hidden.len()).contains(
                (#[trigger] remained.deep_view()[x]),
            ) by {
                assert(words.word_seq().contains(words.word_seq()[x]));
            }
            if solve_succeeds_on(dict, puzzle) {
                assert(words.word_set().contains(hidden));
                let k = choose|k: int|
                    0 <= k < words.word_seq().len() && words.word_seq()[k] == hidden;
                assert(remained.deep_view()[k] == hidden);
            }
        }
        let mut chooser = WordsChooser::new();
        let ghost total0 = remained.deep_view().len() as int;
        let ghost mut rounds: int = 0;
        while remained.len() > 0
            invariant
                chooser.wf(),
                hidden == puzzle.hidden(),
                hidden.len() == len,
                dict.has_len(hidden.len()),
                (forall|x: int|
                    0 <= x < remained.deep_view().len() ==> (
                    #[trigger] remained.deep_view()[x]).len() == len),
                (forall|x: int|
                    0 <= x < remained.deep_view().len() ==> dict.word_set(hidden.len()).contains(
                        #[trigger] remained.deep_view()[x],
                    )),
                (solve_succeeds_on(dict, puzzle) ==> remained.deep_view().contains(hidden)),
                chooser.pos_bound(len as nat),
                chooser.consistent_with(hidden),
                rounds >= 0,
                rounds + remained.deep_view().len() <= total0,
            decreases remained.len(),
        {
            let ghost before = remained.deep_view();
            let idx = crate::randomness::pick_index(&mut rng, remained.len());
            let guess = remained.swap_remove(idx);
            proof {
                rounds = rounds + 1;
                assert forall|x: int| 0 <= x < remained.deep_view().len() implies (
                #[trigger] remained.deep_view()[x]).len() == len && dict.word_set(
                    hidden.len(),
                ).contains(remained.deep_view()[x]) by {
                    if x == idx {
                        assert(remained.deep_view()[x] == before[before.len() - 1]);
                    } else {
                        assert(remained.deep_view()[x] == before[x]);
                    }
                }
                assert(guess@ == before[idx as int]);
                assert(dict.word_set(hidden.len()).contains(guess@));
            }
            let check = match puzzle.check_word(guess.as_str()) {
                Err(e) => {
                    proof {
                        if solve_succeeds_on(dict, puzzle) {
                            assert(lower_of(guess@) == guess@);
                            assert(false);
                        }
                    }
                    return Err(SolveError::CheckWordError(e));
                },
                Ok(c) => c,
            };
            let ghost gfold = lower_of(guess@);
            if check.is_solved() {
                let w = check.word();
                proof {
                    lemma_solved_is_hidden(hidden, gfold);
                    assert(w@ =~= gfold);
                }
                return Ok(w);
            }
            proof {
                if solve_succeeds_on(dict, puzzle) {
                    assert(lower_of(guess@) == guess@);
                    if guess@ == hidden {
                        lemma_check_own_word(hidden);
                        assert(solved_spec(check@));
                        assert(false);
                    }
                    let k = choose|k: int| 0 <= k < before.len() && before[k] == hidden;
                    if k == idx {
                        assert(false);
                    } else if k == before.len() - 1 {
                        assert(remained.deep_view()[idx as int] == hidden);
                    } else {
                        assert(remained.deep_view()[k] == hidden);
                    }
                    assert(remained.deep_view().contains(hidden));
                }
            }
            let m = check.len();
            let mut i: usize = 0;
            while i < m
                invariant
                    chooser.wf(),
                    hidden.len() == len,
                    m == check@.len(),
                    m == len,
                    check@ == score(hidden, gfold),
                    gfold.len() == hidden.len(),
                    0 <= i <= m,
                    chooser.pos_bound(len as nat),
                    chooser.consistent_with(hidden),
                decreases m - i,
            {
                let (ch, ty) = check.get(i);
                proof {
                    assert(check@[i as int] == (gfold[i as int], char_score(
                        hidden,
                        gfold[i as int],
                        i as int,
                    )));
                    assert(ch == gfold[i as int]);
                    assert(ty == char_score(hidden, ch, i as int));
                }
                let ghost prev = chooser;
                match ty {
                    CharCheck::GuessedExact => {
                        proof {
                            assert(hidden[i as int] == ch);
                        }
                        chooser.add_wanted_at_pos(i, ch);
                        proof {
                            assert forall|p: nat|
                                #[trigger] chooser.at_map().dom().contains(p) implies p < len by {
                                if p != i as nat {
                                    assert(prev.at_map().dom().contains(p));
                                }
                            }
                        }
                    },
                    CharCheck::GuessedWrongPlace => {
                        proof {
                            assert(hidden[i as int] != ch);
                        }
                        chooser.add_wanted_not_at_pos(i, ch);
                        proof {
                            assert forall|p: nat|
                                #[trigger] chooser.not_at_map().dom().contains(
                                    p,
                                ) implies p < len by {
                                if p != i as nat {
                                    assert(prev.not_at_map().dom().contains(p));
                                }
                            }
                        }
                    },
                    CharCheck::NotGuessed => {
                        proof {
                            assert(!hidden.contains(ch));
                        }
                        chooser.add_except(ch);
                        proof {
                            assert forall|p: nat|
                                #[trigger] chooser.at_map().dom().contains(p) implies p < len by {
                                assert(prev.at_map().dom().contains(p));
                            }
                        }
                    },
                }
                i += 1;
            }
            proof {
                assert forall|x: int|
                    0 <= x < remained.deep_view().len() implies chooser.pos_bound(
                    (#[trigger] remained.deep_view()[x]).len(),
                ) by {}
            }
            let filtered = chooser.filter(&remained);
            proof {
                let pred = passes_pred(chooser);
                lemma_filter_subset(remained.deep_view(), pred);
                Seq::lemma_filter_len(remained.deep_view(), pred);
                assert forall|x: int|
                    0 <= x < filtered.deep_view().len() implies (
                #[trigger] filtered.deep_view()[x]).len() == len && dict.word_set(
                    hidden.len(),
                ).contains(filtered.deep_view()[x]) by {
                    assert(filtered.deep_view().contains(filtered.deep_view()[x]));
                    assert(remained.deep_view().contains(filtered.deep_view()[x]));
                    let y = choose|y: int|
                        0 <= y < remained.deep_view().len() && remained.deep_view()[y]
                            == filtered.deep_view()[x];
                    assert(remained.deep_view()[y].len() == len);
                }
                if solve_succeeds_on(dict, puzzle) {
                    lemma_filter_keeps_hidden(&chooser, hidden, remained.deep_view());
                    assert(filtered.deep_view().contains(hidden));
                }
            }
            remained = filtered;
        }
        proof {
            if solve_succeeds_on(dict, puzzle) {
                assert(remained.deep_view().contains(hidden));
                assert(false);
            }
        }
        Err(SolveError::SolutionNotFound)
    }
}

/// Copies a list of words.
fn clone_words(v: &Vec<String>) -> (r: Vec<String>)
    ensures
        r.deep_view() == v.deep_view(),
{
    let n = v.len();
    let mut r: Vec<String> = Vec::new();
    let mut i: usize = 0;
    while i < n
        invariant
            n == v@.len(),
            0 <= i <= n,
            r.deep_view().len() == i,
            forall|j: int| 0 <= j < i ==> (#[trigger] r.deep_view()[j]) == v.deep_view()[j],
        decreases n - i,
    {
        let w = v[i].clone();
        let ghost r0 = r.deep_view();
        r.push(w);
        proof {
            assert(r.deep_view() =~= r0.push(w@));
        }
        i += 1;
    }
    proof {
        assert(r.deep_view() =~= v.deep_view());
    }
    r
}

/// The chooser's filter predicate as a function value, for stating what
/// `filter` keeps.
pub open spec fn passes_pred(ch: WordsChooser) -> spec_fn(Seq<char>) -> bool {
    |w: Seq<char>| ch.passes(w)
}

/// Writes `val` into slot `i`.
fn set_slot(v: &mut Vec<Option<char>>, i: usize, val: Option<char>)
    requires
        i < old(v).len(),
    ensures
        final(v)@ == old(v)@.update(i as int, val),
{
    v.remove(i);
    v.insert(i, val);
    proof {
        assert(final(v)@ =~= old(v)@.update(i as int, val));
    }
}

/// Extends `v` with empty slots until `pos` is in range, then writes `ch`
/// there.
fn grow_and_set(v: &mut Vec<Option<char>>, pos: usize, ch: char)
    ensures
        pos_map(final(v)@) == pos_map(old(v)@).insert(pos as nat, ch),
{
    while v.len() <= pos
        invariant
            (forall|p: int| 0 <= p < old(v)@.len() ==> v@[p] == old(v)@[p]),
            (forall|p: int| old(v)@.len() <= p < v@.len() ==> v@[p] is None),
            v@.len() >= old(v)@.len(),
        decreases pos + 1 - v.len(),
    {
        v.push(None);
    }
    set_slot(v, pos, Some(ch));
    proof {
        assert(pos_map(final(v)@) =~= pos_map(old(v)@).insert(pos as nat, ch));
    }
}

/// Removes the character `c` from a duplicate-free vector, if present.
fn remove_char(v: &mut Vec<char>, c: char)
    requires
        old(v)@.no_duplicates(),
    ensures
        final(v)@.no_duplicates(),
        final(v)@.to_set() == old(v)@.to_set().remove(c),
{
    let n = v.len();
    let mut i: usize = 0;
    while i < n
        invariant
            n == v@.len(),
            0 <= i <= n,
            v@ == old(v)@,
            old(v)@.no_duplicates(),
            (forall|j: int| 0 <= j < i ==> v@[j] != c),
        decreases n - i,
    {
        if v[i] == c {
            let ghost before = v@;
            v.remove(i);
            proof {
                assert forall|j1: int, j2: int|
                    0 <= j1 < v@.len() && 0 <= j2 < v@.len() && j1 != j2 implies v@[j1]
                    != v@[j2] by {
                    let m1: int = if j1 < i { j1 } else { j1 + 1 };
                    let m2: int = if j2 < i { j2 } else { j2 + 1 };
                    assert(v@[j1] == before[m1]);
                    assert(v@[j2] == before[m2]);
                }
                assert forall|x: char| v@.to_set().contains(x) implies before.to_set().contains(x)
                    && x != c by {
                    let j = choose|j: int| 0 <= j < v@.len() && v@[j] == x;
                    let m: int = if j < i { j } else { j + 1 };
                    assert(before[m] == x);
                    if x == c {
                        assert(before[m] == before[i as int]);
                    }
                }
                assert forall|x: char|
                    before.to_set().contains(x) && x != c implies v@.to_set().contains(x) by {
                    let j = choose|j: int| 0 <= j < before.len() && before[j] == x;
                    if j < i {
                        assert(v@[j] == x);
                    } else {
                        assert(j != i);
                        assert(v@[j - 1] == x);
                    }
                }
                assert(v@.to_set() =~= old(v)@.to_set().remove(c));
            }
            return;
        }
        i += 1;
    }
    proof {
        assert(!v@.contains(c));
        assert(v@.to_set() =~= old(v)@.to_set().remove(c));
    }
}

/// Appends the character `c` to a duplicate-free vector unless it is
/// already there.
fn push_unique_char(v: &mut Vec<char>, c: char)
    requires
        old(v)@.no_duplicates(),
    ensures
        final(v)@.no_duplicates(),
        final(v)@.to_set() == old(v)@.to_set().insert(c),
{
    let n = v.len();
    let mut i: usize = 0;
    while i < n
        invariant
            n == v@.len(),
            0 <= i <= n,
            v@ == old(v)@,
            old(v)@.no_duplicates(),
            (forall|j: int| 0 <= j < i ==> v@[j] != c),
        decreases n - i,
    {
        if v[i] == c {
            proof {
                assert(v@.contains(c));
                assert(v@.to_set() =~= old(v)@.to_set().insert(c));
            }
            return;
        }
        i += 1;
    }
    let ghost before = v@;
    v.push(c);
    proof {
        assert forall|j1: int, j2: int|
            0 <= j1 < v@.len() && 0 <= j2 < v@.len() && j1 != j2 implies v@[j1] != v@[j2] by {
            if j1 < before.len() && j2 < before.len() {
                assert(before[j1] != before[j2]);
            }
        }
        assert forall|x: char| v@.to_set().contains(x) implies old(v)@.to_set().insert(c).contains(
            x,
        ) by {
            let j = choose|j: int| 0 <= j < v@.len() && v@[j] == x;
            if j < before.len() {
                assert(before[j] == x);
            }
        }
        assert forall|x: char| old(v)@.to_set().insert(c).contains(x) implies v@.to_set().contains(
            x,
        ) by {
            if x == c {
                assert(v@[v@.len() - 1] == c);
            } else {
                let j = choose|j: int| 0 <= j < before.len() && before[j] == x;
                assert(v@[j] == x);
            }
        }
        assert(v@.to_set() =~= old(v)@.to_set().insert(c));
    }
}

/// Nothing that the filter keeps is new: every kept word stood in the
/// filtered set already.
pub proof fn lemma_filter_subset<A>(s: Seq<A>, pred: spec_fn(A) -> bool)
    ensures
        forall|x: A| #[trigger] s.filter(pred).contains(x) ==> s.contains(x),
    decreases s.len(),
{
    reveal(Seq::filter);
    if s.len() > 0 {
        lemma_filter_subset(s.drop_last(), pred);
        assert forall|x: A| #[trigger] s.filter(pred).contains(x) implies s.contains(x) by {
            if s.drop_last().filter(pred).contains(x) {
                assert(s.drop_last().contains(x));
                let j = choose|j: int| 0 <= j < s.drop_last().len() && s.drop_last()[j] == x;
                assert(s[j] == x);
            } else {
                assert(pred(s.last()) && x == s.last());
                assert(s[s.len() - 1] == x);
            }
        }
    }
}

/// A chooser whose constraints all hold of a word never rejects that word.
pub proof fn lemma_consistent_word_passes(ch: &WordsChooser, hidden: Seq<char>)
    requires
        ch.consistent_with(hidden),
    ensures
        ch.passes(hidden),
{
    assert forall|p: nat| ch.at_map().dom().contains(p) implies p < hidden.len() && hidden[p as int]
        == ch.at_map()[p] by {}
    assert forall|p: nat| ch.not_at_map().dom().contains(p) implies p < hidden.len() && hidden[
        p as int
    ] != ch.not_at_map()[p] by {}
    assert forall|c: char| ch.except_set().contains(c) implies !hidden.contains(c) by {}
}

/// Filtering monotonically prunes: the result is no larger than the input
/// and holds nothing new; and a hidden word of which every accumulated
/// constraint is true survives the filtering.
pub proof fn lemma_filter_keeps_hidden(ch: &WordsChooser, hidden: Seq<char>, words: Seq<Seq<char>>)
    requires
        ch.consistent_with(hidden),
        words.contains(hidden),
    ensures
        words.filter(passes_pred(*ch)).contains(hidden),
        words.filter(passes_pred(*ch)).len() <= words.len(),
        forall|w: Seq<char>| #[trigger] words.filter(passes_pred(*ch)).contains(w) ==> words.contains(
            w,
        ),
{
    let pred = passes_pred(*ch);
    let j = choose|j: int| 0 <= j < words.len() && words[j] == hidden;
    lemma_consistent_word_passes(ch, hidden);
    assert(pred(words[j]));
    Seq::lemma_filter_contains(words, pred, j);
    Seq::lemma_filter_len(words, pred);
    lemma_filter_subset(words, pred);
}

} // verus!
