//! The dictionary: raw words are trimmed, case-folded and grouped by
//! character count, and each group carries a character-frequency table.
use vstd::prelude::*;

verus! {

use crate::text::lower_of;
use crate::text::lowercased;
use crate::text::trim_of;
use crate::text::trimmed;

/// How many times the character `c` occurs in `s`.
pub open spec fn count_in(s: Seq<char>, c: char) -> nat
    decreases s.len(),
{
    if s.len() == 0 {
        0
    } else {
        count_in(s.drop_last(), c) + (if s.last() == c {
            1nat
        } else {
            0nat
        })
    }
}

/// How many times the character `c` occurs in all of the words `ws`
/// together.
pub open spec fn char_total(ws: Seq<Seq<char>>, c: char) -> nat
    decreases ws.len(),
{
    if ws.len() == 0 {
        0
    } else {
        char_total(ws.drop_last(), c) + count_in(ws.last(), c)
    }
}

/// The summed character count of the words `ws`.
pub open spec fn total_len(ws: Seq<Seq<char>>) -> nat
    decreases ws.len(),
{
    if ws.len() == 0 {
        0
    } else {
        total_len(ws.drop_last()) + ws.last().len()
    }
}

/// Whether the frequency table holds an entry for `c`.
pub open spec fn has_key(s: Seq<(char, usize)>, c: char) -> bool {
    exists|j: int| 0 <= j < s.len() && (#[trigger] s[j]).0 == c
}

/// The count the frequency table gives for `c`: the value of its latest
/// entry for `c`, or zero without one.
pub open spec fn count_of(s: Seq<(char, usize)>, c: char) -> nat
    decreases s.len(),
{
    if s.len() == 0 {
        0
    } else if s.last().0 == c {
        s.last().1 as nat
    } else {
        count_of(s.drop_last(), c)
    }
}

/// The keys of the frequency table, in entry order.
pub open spec fn keys_of(s: Seq<(char, usize)>) -> Seq<char> {
    s.map_values(|p: (char, usize)| p.0)
}

/// The summed frequency of the characters of `s`, counted with
/// multiplicity.
pub open spec fn freq_sum(ws: Seq<Seq<char>>, s: Seq<char>) -> nat
    decreases s.len(),
{
    if s.len() == 0 {
        0
    } else {
        freq_sum(ws, s.drop_last()) + char_total(ws, s.last())
    }
}

/// The summed frequency of the characters of `s`, each distinct character
/// counted once.
pub open spec fn uniq_freq_sum(ws: Seq<Seq<char>>, s: Seq<char>) -> nat
    decreases s.len(),
{
    if s.len() == 0 {
        0
    } else {
        uniq_freq_sum(ws, s.drop_last()) + (if s.drop_last().contains(s.last()) {
            0nat
        } else {
            char_total(ws, s.last())
        })
    }
}

proof fn lemma_count_in_le_len(s: Seq<char>, c: char)
    ensures
        count_in(s, c) <= s.len(),
    decreases s.len(),
{
    if s.len() > 0 {
        lemma_count_in_le_len(s.drop_last(), c);
    }
}

proof fn lemma_count_in_pos(s: Seq<char>, c: char)
    ensures
        s.contains(c) <==> count_in(s, c) > 0,
    decreases s.len(),
{
    if s.len() > 0 {
        lemma_count_in_pos(s.drop_last(), c);
        if s.contains(c) {
            let j = choose|j: int| 0 <= j < s.len() && s[j] == c;
            if j < s.len() - 1 {
                assert(s.drop_last()[j] == c);
                assert(s.drop_last().contains(c));
            }
        }
        if s.drop_last().contains(c) {
            let j = choose|j: int| 0 <= j < s.drop_last().len() && s.drop_last()[j] == c;
            assert(s[j] == c);
        }
    }
}

proof fn lemma_char_total_le_total_len(ws: Seq<Seq<char>>, c: char)
    ensures
        char_total(ws, c) <= total_len(ws),
    decreases ws.len(),
{
    if ws.len() > 0 {
        lemma_char_total_le_total_len(ws.drop_last(), c);
        lemma_count_in_le_len(ws.last(), c);
    }
}

proof fn lemma_total_len_take_le(ws: Seq<Seq<char>>, i: int)
    requires
        0 <= i <= ws.len(),
    ensures
        total_len(ws.take(i)) <= total_len(ws),
    decreases ws.len() - i,
{
    if i < ws.len() {
        lemma_total_len_take_le(ws, i + 1);
        assert(ws.take(i + 1).drop_last() =~= ws.take(i));
        assert(total_len(ws.take(i + 1)) == total_len(ws.take(i)) + ws[i].len());
    } else {
        assert(ws.take(i) =~= ws);
    }
}

/// One word's occurrences never exceed the total over all words.
proof fn lemma_char_total_lower(ws: Seq<Seq<char>>, k: int, c: char)
    requires
        0 <= k < ws.len(),
    ensures
        count_in(ws[k], c) <= char_total(ws, c),
    decreases ws.len(),
{
    if k == ws.len() - 1 {
        assert(ws.last() == ws[k]);
    } else {
        lemma_char_total_lower(ws.drop_last(), k, c);
        assert(ws.drop_last()[k] == ws[k]);
    }
}

/// A character occurs somewhere in `ws` exactly when its total is positive.
proof fn lemma_char_total_pos(ws: Seq<Seq<char>>, c: char)
    ensures
        char_total(ws, c) > 0 <==> exists|k: int| 0 <= k < ws.len() && (#[trigger] ws[k]).contains(
            c,
        ),
    decreases ws.len(),
{
    if ws.len() > 0 {
        lemma_char_total_pos(ws.drop_last(), c);
        lemma_count_in_pos(ws.last(), c);
        if char_total(ws, c) > 0 {
            if count_in(ws.last(), c) > 0 {
                assert((ws[ws.len() - 1]).contains(c));
            } else {
                let k = choose|k: int|
                    0 <= k < ws.drop_last().len() && (#[trigger] ws.drop_last()[k]).contains(c);
                assert((ws[k]).contains(c));
            }
        }
        if exists|k: int| 0 <= k < ws.len() && (#[trigger] ws[k]).contains(c) {
            let k = choose|k: int| 0 <= k < ws.len() && (#[trigger] ws[k]).contains(c);
            if k < ws.len() - 1 {
                assert(ws.drop_last()[k].contains(c));
            } else {
                assert(ws.last().contains(c));
            }
        }
    }
}

/// In a table with distinct keys, the entry at `j` decides the count of its
/// key.
proof fn lemma_count_of_at(s: Seq<(char, usize)>, j: int)
    requires
        keys_of(s).no_duplicates(),
        0 <= j < s.len(),
    ensures
        count_of(s, s[j].0) == s[j].1,
    decreases s.len(),
{
    if j == s.len() - 1 {
    } else {
        assert(keys_of(s)[j] == s[j].0);
        assert(keys_of(s)[s.len() - 1] == s.last().0);
        assert(keys_of(s.drop_last()) =~= keys_of(s).drop_last());
        lemma_count_of_at(s.drop_last(), j);
        assert(s.drop_last()[j] == s[j]);
    }
}

/// A key without an entry counts zero.
proof fn lemma_count_of_absent(s: Seq<(char, usize)>, c: char)
    requires
        !has_key(s, c),
    ensures
        count_of(s, c) == 0,
    decreases s.len(),
{
    if s.len() > 0 {
        assert(s[s.len() - 1].0 != c);
        assert forall|j: int| 0 <= j < s.drop_last().len() implies (#[trigger] s.drop_last()[
            j
        ]).0 != c by {
            assert(s.drop_last()[j] == s[j]);
        }
        lemma_count_of_absent(s.drop_last(), c);
    }
}

/// One group of words of a common length, with how often each character
/// occurs over the whole group.
pub struct Words {
    words: Vec<String>,
    freqs: Vec<(char, usize)>,
}

impl Words {
    /// The stored words, in order.
    pub closed spec fn word_seq(&self) -> Seq<Seq<char>> {
        self.words.deep_view()
    }

    /// The stored words, as a set.
    pub open spec fn word_set(&self) -> Set<Seq<char>> {
        self.word_seq().to_set()
    }

    /// The frequency of one character over the stored words.
    pub open spec fn freq_of(&self, c: char) -> nat {
        char_total(self.word_seq(), c)
    }

    /// The summed character count of the stored words.
    pub open spec fn total(&self) -> nat {
        total_len(self.word_seq())
    }

    /// The words are distinct, their total character count fits the
    /// machine, and the frequency table holds exactly the characters that
    /// occur, each with its exact count.
    pub closed spec fn wf(&self) -> bool {
        &&& self.word_seq().no_duplicates()
        &&& self.total() <= usize::MAX
        &&& keys_of(self.freqs@).no_duplicates()
        &&& (forall|c: char| #[trigger] count_of(self.freqs@, c) == self.freq_of(c))
        &&& (forall|j: int| 0 <= j < self.freqs@.len() ==> (#[trigger] self.freqs@[j]).1 > 0)
        &&& (forall|c: char| #[trigger] has_key(self.freqs@, c) <==> self.freq_of(c) > 0)
    }

    /// Builds the group and counts every character's occurrences over it.
    pub fn new(words: Vec<String>) -> (w: Words)
        requires
            words.deep_view().no_duplicates(),
            total_len(words.deep_view()) <= usize::MAX,
        ensures
            w.wf(),
            w.word_seq() == words.deep_view(),
    {
        let ghost dv = words.deep_view();
        let mut freqs: Vec<(char, usize)> = Vec::new();
        let n = words.len();
        let mut wi: usize = 0;
        while wi < n
            invariant
                n == words@.len(),
                dv == words.deep_view(),
                total_len(dv) <= usize::MAX,
                0 <= wi <= n,
                keys_of(freqs@).no_duplicates(),
                (forall|j: int|
                    0 <= j < freqs@.len() ==> (#[trigger] freqs@[j]).1 as nat == char_total(
                        dv,
                        freqs@[j].0,
                    ) && freqs@[j].1 > 0),
                (forall|c: char|
                    #[trigger] has_key(freqs@, c) <==> exists|k: int|
                        0 <= k < wi && (#[trigger] dv[k]).contains(c)),
            decreases n - wi,
        {
            let m = vstd::string::StrSliceExecFns::unicode_len(words[wi].as_str());
            assert(words@[wi as int]@ == dv[wi as int]);
            let mut ci: usize = 0;
            while ci < m
                invariant
                    n == words@.len(),
                    dv == words.deep_view(),
                    total_len(dv) <= usize::MAX,
                    0 <= wi < n,
                    0 <= ci <= m,
                    m == dv[wi as int].len(),
                    keys_of(freqs@).no_duplicates(),
                    (forall|j: int|
                        0 <= j < freqs@.len() ==> (#[trigger] freqs@[j]).1 as nat == char_total(
                            dv,
                            freqs@[j].0,
                        ) && freqs@[j].1 > 0),
                    (forall|c: char|
                        #[trigger] has_key(freqs@, c) <==> (exists|k: int|
                            0 <= k < wi && (#[trigger] dv[k]).contains(c)) || dv[
                            wi as int
                        ].take(ci as int).contains(c)),
                decreases m - ci,
            {
                let c = vstd::string::StrSliceExecFns::get_char(words[wi].as_str(), ci);
                assert(c == dv[wi as int][ci as int]);
                let ghost before = freqs@;
                if !freqs_has(&freqs, c) {
                    let total = count_char_total(&words, c);
                    proof {
                        lemma_char_total_lower(dv, wi as int, c);
                        lemma_count_in_pos(dv[wi as int], c);
                        assert(dv[wi as int].contains(c)) by {
                            assert(dv[wi as int][ci as int] == c);
                        }
                    }
                    freqs.push((c, total));
                    proof {
                        let now = freqs@;
                        assert(now =~= before.push((c, total)));
                        assert(keys_of(now) =~= keys_of(before).push(c));
                        assert forall|x1: int, x2: int|
                            0 <= x1 < keys_of(now).len() && 0 <= x2 < keys_of(now).len() && x1
                                != x2 implies keys_of(now)[x1] != keys_of(now)[x2] by {
                            if x1 < before.len() && x2 < before.len() {
                                assert(keys_of(before)[x1] != keys_of(before)[x2]);
                            } else if x1 < before.len() {
                                assert(keys_of(now)[x2] == c);
                                assert(before[x1].0 != c) by {
                                    if before[x1].0 == c {
                                        assert(has_key(before, c));
                                    }
                                }
                            } else {
                                assert(keys_of(now)[x1] == c);
                                assert(x2 < before.len());
                                assert(before[x2].0 != c) by {
                                    if before[x2].0 == c {
                                        assert(has_key(before, c));
                                    }
                                }
                            }
                        }
                        assert forall|c2: char| #[trigger] has_key(now, c2) implies (exists|k: int|
                            0 <= k < wi && (#[trigger] dv[k]).contains(c2)) || dv[wi as int].take(
                            ci + 1,
                        ).contains(c2) by {
                            let j = choose|j: int| 0 <= j < now.len() && (#[trigger] now[j]).0 == c2;
                            if j < before.len() {
                                assert(before[j].0 == c2);
                                assert(has_key(before, c2));
                                if dv[wi as int].take(ci as int).contains(c2) {
                                    let x = choose|x: int|
                                        0 <= x < ci && (#[trigger] dv[wi as int].take(ci as int)[x]) == c2;
                                    assert(dv[wi as int].take(ci + 1)[x] == c2);
                                }
                            } else {
                                assert(c2 == c);
                                assert(dv[wi as int].take(ci + 1)[ci as int] == c);
                            }
                        }
                        assert forall|c2: char|
                            (exists|k: int| 0 <= k < wi && (#[trigger] dv[k]).contains(c2)) || dv[
                                wi as int
                            ].take(ci + 1).contains(c2) implies #[trigger] has_key(now, c2) by {
                            if c2 == c {
                                assert(now[before.len() as int].0 == c);
                            } else {
                                if dv[wi as int].take(ci + 1).contains(c2) {
                                    let x = choose|x: int|
                                        0 <= x < ci + 1 && (#[trigger] dv[wi as int].take(ci + 1)[x]) == c2;
                                    assert(x < ci);
                                    assert(dv[wi as int].take(ci as int)[x] == c2);
                                }
                                assert(has_key(before, c2));
                                let j2 = choose|j2: int|
                                    0 <= j2 < before.len() && (#[trigger] before[j2]).0 == c2;
                                assert(now[j2].0 == c2);
                            }
                        }
                    }
                } else {
                    proof {
                        assert(dv[wi as int].take(ci + 1) =~= dv[wi as int].take(ci as int).push(
                            dv[wi as int][ci as int],
                        ));
                        assert forall|c2: char| #[trigger] has_key(freqs@, c2) implies (exists|
                            k: int,
                        |
                            0 <= k < wi && (#[trigger] dv[k]).contains(c2)) || dv[wi as int].take(
                            ci + 1,
                        ).contains(c2) by {
                            if dv[wi as int].take(ci as int).contains(c2) {
                                let x = choose|x: int|
                                    0 <= x < ci && (#[trigger] dv[wi as int].take(ci as int)[x]) == c2;
                                assert(dv[wi as int].take(ci + 1)[x] == c2);
                            }
                        }
                        assert forall|c2: char|
                            (exists|k: int| 0 <= k < wi && (#[trigger] dv[k]).contains(c2)) || dv[
                                wi as int
                            ].take(ci + 1).contains(c2) implies #[trigger] has_key(freqs@, c2) by {
                            if dv[wi as int].take(ci + 1).contains(c2) {
                                let x = choose|x: int|
                                    0 <= x < ci + 1 && (#[trigger] dv[wi as int].take(ci + 1)[x]) == c2;
                                if x < ci {
                                    assert(dv[wi as int].take(ci as int)[x] == c2);
                                } else {
                                    assert(c2 == dv[wi as int][ci as int]);
                                    assert(c2 == c);
                                }
                            }
                        }
                    }
                }
                ci += 1;
            }
            proof {
                assert(dv[wi as int].take(m as int) =~= dv[wi as int]);
                assert forall|c2: char| #[trigger] has_key(freqs@, c2) implies exists|k: int|
                    0 <= k < wi + 1 && (#[trigger] dv[k]).contains(c2) by {
                    if exists|k: int| 0 <= k < wi && (#[trigger] dv[k]).contains(c2) {
                        let k = choose|k: int| 0 <= k < wi && (#[trigger] dv[k]).contains(c2);
                        assert(0 <= k < wi + 1 && dv[k].contains(c2));
                    } else {
                        assert(dv[wi as int].contains(c2));
                    }
                }
                assert forall|c2: char|
                    (exists|k: int| 0 <= k < wi + 1 && (#[trigger] dv[k]).contains(
                        c2,
                    )) implies #[trigger] has_key(freqs@, c2) by {
                    let k = choose|k: int| 0 <= k < wi + 1 && (#[trigger] dv[k]).contains(c2);
                    if k < wi {
                    } else {
                        assert(dv[wi as int].take(m as int).contains(c2));
                    }
                }
            }
            wi += 1;
        }
        proof {
            assert forall|c: char| count_of(freqs@, c) == char_total(dv, c) by {
                if has_key(freqs@, c) {
                    let j = choose|j: int| 0 <= j < freqs@.len() && (#[trigger] freqs@[j]).0 == c;
                    lemma_count_of_at(freqs@, j);
                } else {
                    lemma_count_of_absent(freqs@, c);
                    lemma_char_total_pos(dv, c);
                }
            }
            assert forall|c: char| #[trigger] has_key(freqs@, c) implies char_total(dv, c) > 0 by {
                let j = choose|j: int| 0 <= j < freqs@.len() && (#[trigger] freqs@[j]).0 == c;
                lemma_count_of_at(freqs@, j);
            }
            assert forall|c: char| char_total(dv, c) > 0 implies #[trigger] has_key(freqs@, c) by {
                lemma_char_total_pos(dv, c);
            }
        }
        Words { words, freqs }
    }

    /// The summed frequency of the characters of `word`, with multiplicity:
    /// a character of the group counts its full frequency at each of its
    /// occurrences in `word`; one the group never saw counts zero.
    pub fn freq(&self, word: &str) -> (r: usize)
        requires
            self.wf(),
            word@.len() * self.total() <= usize::MAX,
        ensures
            r as nat == freq_sum(self.word_seq(), word@),
    {
        let n = vstd::string::StrSliceExecFns::unicode_len(word);
        let mut r: usize = 0;
        let mut i: usize = 0;
        while i < n
            invariant
                self.wf(),
                n == word@.len(),
                word@.len() * self.total() <= usize::MAX,
                0 <= i <= n,
                r as nat == freq_sum(self.word_seq(), word@.take(i as int)),
                r as nat <= i * self.total(),
            decreases n - i,
        {
            let c = vstd::string::StrSliceExecFns::get_char(word, i);
            let f = lookup_count(&self.freqs, c);
            proof {
                lemma_char_total_le_total_len(self.word_seq(), c);
                assert(f as nat == char_total(self.word_seq(), c));
                lemma_step_bound(r as nat, f as nat, i as nat, n as nat, self.total());
                assert(freq_sum(self.word_seq(), word@.take(i + 1)) == freq_sum(
                    self.word_seq(),
                    word@.take(i as int),
                ) + char_total(self.word_seq(), word@[i as int])) by {
                    assert(word@.take(i + 1).drop_last() =~= word@.take(i as int));
                    assert(word@.take(i + 1).last() == word@[i as int]);
                }
            }
            r += f;
            i += 1;
        }
        proof {
            assert(word@.take(n as int) =~= word@);
        }
        r
    }

    /// The summed frequency of the distinct characters of `word`: each
    /// character counts once, however often it repeats in `word`.
    pub fn unique_freq(&self, word: &str) -> (r: usize)
        requires
            self.wf(),
            word@.len() * self.total() <= usize::MAX,
        ensures
            r as nat == uniq_freq_sum(self.word_seq(), word@),
    {
        let n = vstd::string::StrSliceExecFns::unicode_len(word);
        let mut seen: Vec<char> = Vec::new();
        let mut r: usize = 0;
        let mut i: usize = 0;
        while i < n
            invariant
                self.wf(),
                n == word@.len(),
                word@.len() * self.total() <= usize::MAX,
                0 <= i <= n,
                r as nat == uniq_freq_sum(self.word_seq(), word@.take(i as int)),
                r as nat <= i * self.total(),
                (forall|c: char|
                    seen@.contains(c) <==> word@.take(i as int).contains(c)),
            decreases n - i,
        {
            let c = vstd::string::StrSliceExecFns::get_char(word, i);
            proof {
                lemma_take_plus_one(word@, i as int);
                assert(word@.take(i + 1).drop_last() =~= word@.take(i as int));
                assert(word@.take(i + 1).last() == word@[i as int]);
            }
            let ghost seen0 = seen@;
            if !vec_contains_char(&seen, c) {
                let f = lookup_count(&self.freqs, c);
                proof {
                    lemma_char_total_le_total_len(self.word_seq(), c);
                    assert(f as nat == char_total(self.word_seq(), c));
                    lemma_step_bound(r as nat, f as nat, i as nat, n as nat, self.total());
                    assert(uniq_freq_sum(self.word_seq(), word@.take(i + 1)) == uniq_freq_sum(
                        self.word_seq(),
                        word@.take(i as int),
                    ) + char_total(self.word_seq(), word@[i as int]));
                }
                r += f;
                seen.push(c);
                proof {
                    assert(seen@ =~= seen0.push(c));
                    assert forall|c2: char|
                        seen@.contains(c2) <==> word@.take(i + 1).contains(c2) by {
                        if seen@.contains(c2) {
                            let j = choose|j: int| 0 <= j < seen@.len() && seen@[j] == c2;
                            if j < seen0.len() {
                                assert(seen0[j] == c2);
                                assert(seen0.contains(c2));
                            } else {
                                assert(c2 == c);
                            }
                        }
                        if seen0.contains(c2) {
                            let j = choose|j: int| 0 <= j < seen0.len() && seen0[j] == c2;
                            assert(seen@[j] == c2);
                        }
                        if c2 == c {
                            assert(seen@[seen@.len() - 1] == c2);
                        }
                    }
                }
            } else {
                proof {
                    assert(word@.take(i as int).contains(c));
                    assert(uniq_freq_sum(self.word_seq(), word@.take(i + 1)) == uniq_freq_sum(
                        self.word_seq(),
                        word@.take(i as int),
                    ));
                    assert((i + 1) * self.total() >= i * self.total()) by (nonlinear_arith);
                }
            }
            i += 1;
        }
        proof {
            assert(word@.take(n as int) =~= word@);
        }
        r
    }

    /// The stored words.
    pub fn get_words(&self) -> (r: &Vec<String>)
        ensures
            r.deep_view() == self.word_seq(),
            self.wf() ==> r.deep_view().no_duplicates(),
    {
        &self.words
    }

    /// The frequency table: one entry per occurring character, with its
    /// exact count over the stored words.
    pub fn get_freqs(&self) -> (r: &Vec<(char, usize)>)
        requires
            self.wf(),
        ensures
            keys_of(r@).no_duplicates(),
            forall|j: int|
                0 <= j < r@.len() ==> (#[trigger] r@[j]).1 as nat == self.freq_of(r@[j].0)
                    && r@[j].1 > 0,
            forall|c: char| has_key(r@, c) <==> self.freq_of(c) > 0,
    {
        proof {
            assert forall|j: int| 0 <= j < self.freqs@.len() implies (#[trigger] self.freqs@[
                j
            ]).1 as nat == self.freq_of(self.freqs@[j].0) by {
                lemma_count_of_at(self.freqs@, j);
            }
        }
        &self.freqs
    }
}

/// Taking one more character appends exactly that character.
proof fn lemma_take_plus_one(s: Seq<char>, i: int)
    requires
        0 <= i < s.len(),
    ensures
        s.take(i + 1) =~= s.take(i).push(s[i]),
        forall|c: char| s.take(i + 1).contains(c) <==> s.take(i).contains(c) || c == s[i],
{
    assert(s.take(i + 1) =~= s.take(i).push(s[i]));
    assert forall|c: char| s.take(i + 1).contains(c) <==> s.take(i).contains(c) || c == s[i] by {
        if s.take(i + 1).contains(c) {
            let x = choose|x: int| 0 <= x < i + 1 && (#[trigger] s.take(i + 1)[x]) == c;
            if x < i {
                assert(s.take(i)[x] == c);
            }
        }
        if s.take(i).contains(c) {
            let x = choose|x: int| 0 <= x < i && (#[trigger] s.take(i)[x]) == c;
            assert(s.take(i + 1)[x] == c);
        }
        if c == s[i] {
            assert(s.take(i + 1)[i] == c);
        }
    }
}

/// One summation step stays within the machine bound.
proof fn lemma_step_bound(r: nat, f: nat, i: nat, n: nat, t: nat)
    requires
        r <= i * t,
        f <= t,
        i + 1 <= n,
        n * t <= usize::MAX,
    ensures
        r + f <= usize::MAX,
        r + f <= (i + 1) * t,
{
    assert((i + 1) * t == i * t + t) by (nonlinear_arith);
    assert((i + 1) * t <= n * t) by (nonlinear_arith)
        requires
            i + 1 <= n,
    ;
}

/// Whether the vector holds the character `c`.
fn vec_contains_char(v: &Vec<char>, c: char) -> (r: bool)
    ensures
        r == v@.contains(c),
{
    let n = v.len();
    let mut i: usize = 0;
    while i < n
        invariant
            n == v@.len(),
            0 <= i <= n,
            forall|j: int| 0 <= j < i ==> v@[j] != c,
        decreases n - i,
    {
        if v[i] == c {
            assert(v@.contains(c));
            return true;
        }
        i += 1;
    }
    false
}

/// Looks the character `c` up in a duplicate-free frequency table.
fn lookup_count(freqs: &Vec<(char, usize)>, c: char) -> (r: usize)
    requires
        keys_of(freqs@).no_duplicates(),
    ensures
        r as nat == count_of(freqs@, c),
{
    let n = freqs.len();
    let mut i: usize = 0;
    while i < n
        invariant
            n == freqs@.len(),
            keys_of(freqs@).no_duplicates(),
            0 <= i <= n,
            forall|j: int| 0 <= j < i ==> (#[trigger] freqs@[j]).0 != c,
        decreases n - i,
    {
        let (k, v) = freqs[i];
        if k == c {
            proof {
                lemma_count_of_at(freqs@, i as int);
            }
            return v;
        }
        i += 1;
    }
    proof {
        assert(!has_key(freqs@, c));
        lemma_count_of_absent(freqs@, c);
    }
    0
}

/// The processed form of one raw word: trimmed, then case-folded.
pub open spec fn processed(s: Seq<char>) -> Seq<char> {
    lower_of(trim_of(s))
}

/// The summed character count of the processed forms of the raw words.
pub open spec fn total_processed_len(raws: Seq<Seq<char>>) -> nat
    decreases raws.len(),
{
    if raws.len() == 0 {
        0
    } else {
        total_processed_len(raws.drop_last()) + processed(raws.last()).len()
    }
}

/// The processed words of one length that a sequence of raw words yields.
pub open spec fn bucket_model(raws: Seq<Seq<char>>, len: nat) -> Set<Seq<char>> {
    Set::new(
        |w: Seq<char>|
            w.len() == len && exists|i: int|
                0 <= i < raws.len() && processed(#[trigger] raws[i]) == w,
    )
}

proof fn lemma_total_processed_take_le(raws: Seq<Seq<char>>, i: int)
    requires
        0 <= i <= raws.len(),
    ensures
        total_processed_len(raws.take(i)) <= total_processed_len(raws),
    decreases raws.len() - i,
{
    if i < raws.len() {
        lemma_total_processed_take_le(raws, i + 1);
        assert(raws.take(i + 1).drop_last() =~= raws.take(i));
        assert(total_processed_len(raws.take(i + 1)) == total_processed_len(raws.take(i))
            + processed(raws[i]).len());
    } else {
        assert(raws.take(i) =~= raws);
    }
}

/// Membership in a prefix carries over to any longer prefix.
proof fn lemma_take_contains_mono(pv: Seq<Seq<char>>, i: int, i2: int, w: Seq<char>)
    requires
        0 <= i <= i2 <= pv.len(),
        pv.take(i).contains(w),
    ensures
        pv.take(i2).contains(w),
{
    let x = choose|x: int| 0 <= x < i && (#[trigger] pv.take(i)[x]) == w;
    assert(pv.take(i2)[x] == w);
}

/// What holds of one bucket while the first `i` processed words have been
/// grouped: its words are distinct, it is not empty, every word has the
/// bucket's length and came from the prefix, and its character count stays
/// below the prefix's.
spec fn bucket_ok(b: (usize, Vec<String>), pv: Seq<Seq<char>>, i: int) -> bool {
    &&& b.1.deep_view().no_duplicates()
    &&& b.1.deep_view().len() > 0
    &&& (forall|k: int|
        0 <= k < b.1.deep_view().len() ==> (#[trigger] b.1.deep_view()[k]).len() == b.0
            && pv.take(i).contains(b.1.deep_view()[k]))
    &&& total_len(b.1.deep_view()) <= total_len(pv.take(i))
}

/// A word of the prefix sits in some bucket of its own length.
spec fn in_some_bucket(bs: Seq<(usize, Vec<String>)>, w: Seq<char>) -> bool {
    exists|j: int|
        0 <= j < bs.len() && (#[trigger] bs[j]).0 == w.len() && bs[j].1.deep_view().contains(w)
}

/// A bucket that is in order after `i` processed words stays in order after
/// one more.
proof fn lemma_bucket_ok_step(b: (usize, Vec<String>), pv: Seq<Seq<char>>, i: int)
    requires
        bucket_ok(b, pv, i),
        0 <= i < pv.len(),
    ensures
        bucket_ok(b, pv, i + 1),
{
    assert(pv.take(i + 1).drop_last() =~= pv.take(i));
    assert(total_len(pv.take(i + 1)) == total_len(pv.take(i)) + pv.take(i + 1).last().len());
    assert forall|k: int| 0 <= k < b.1.deep_view().len() implies (#[trigger] b.1.deep_view()[
        k
    ]).len() == b.0 && pv.take(i + 1).contains(b.1.deep_view()[k]) by {
        lemma_take_contains_mono(pv, i, i + 1, b.1.deep_view()[k]);
    }
}

/// Finds the bucket that groups words of length `len`, if one exists yet.
fn find_bucket(buckets: &Vec<(usize, Vec<String>)>, len: usize) -> (r: Option<usize>)
    ensures
        (r matches Some(j) ==> j < buckets@.len() && buckets@[j as int].0 == len),
        (r is None ==> forall|j: int| 0 <= j < buckets@.len() ==> (#[trigger] buckets@[j]).0
            != len),
{
    let n = buckets.len();
    let mut i: usize = 0;
    while i < n
        invariant
            n == buckets@.len(),
            0 <= i <= n,
            forall|j: int| 0 <= j < i ==> (#[trigger] buckets@[j]).0 != len,
        decreases n - i,
    {
        if buckets[i].0 == len {
            return Some(i);
        }
        i += 1;
    }
    None
}

/// Whether the vector holds a word equal to `w`.
fn vec_contains_string(v: &Vec<String>, w: &String) -> (r: bool)
    ensures
        r == v.deep_view().contains(w@),
{
    let n = v.len();
    let mut i: usize = 0;
    while i < n
        invariant
            n == v@.len(),
            0 <= i <= n,
            forall|j: int| 0 <= j < i ==> (#[trigger] v.deep_view()[j]) != w@,
        decreases n - i,
    {
        if v[i].eq(w) {
            assert(v.deep_view()[i as int] == w@);
            return true;
        }
        i += 1;
    }
    false
}

/// Looks up the character `c` in the frequency table.
fn freqs_has(freqs: &Vec<(char, usize)>, c: char) -> (r: bool)
    ensures
        r == has_key(freqs@, c),
{
    let n = freqs.len();
    let mut i: usize = 0;
    while i < n
        invariant
            n == freqs@.len(),
            0 <= i <= n,
            forall|j: int| 0 <= j < i ==> (#[trigger] freqs@[j]).0 != c,
        decreases n - i,
    {
        let (k, _) = freqs[i];
        if k == c {
            assert(freqs@[i as int].0 == c);
            return true;
        }
        i += 1;
    }
    false
}

/// Counts how often `c` occurs in one word.
fn count_char_in(s: &str, c: char) -> (r: usize)
    ensures
        r as nat == count_in(s@, c),
        r <= s@.len(),
{
    let n = vstd::string::StrSliceExecFns::unicode_len(s);
    let mut r: usize = 0;
    let mut i: usize = 0;
    while i < n
        invariant
            n == s@.len(),
            0 <= i <= n,
            r as nat == count_in(s@.take(i as int), c),
            r <= i,
        decreases n - i,
    {
        proof {
            assert(s@.take(i + 1).drop_last() =~= s@.take(i as int));
            assert(s@.take(i + 1).last() == s@[i as int]);
        }
        if vstd::string::StrSliceExecFns::get_char(s, i) == c {
            r += 1;
        }
        i += 1;
    }
    proof {
        assert(s@.take(n as int) =~= s@);
    }
    r
}

/// Trims and case-folds every raw word, totalling the processed lengths;
/// yields nothing when that total leaves the machine's range.
fn process_all(words: &Vec<String>) -> (r: Option<Vec<String>>)
    ensures
        r is Some <==> total_processed_len(words.deep_view()) <= usize::MAX,
        (r matches Some(v) ==> {
            &&& v.deep_view().len() == words.deep_view().len()
            &&& (forall|i: int|
                0 <= i < v.deep_view().len() ==> (#[trigger] v.deep_view()[i]) == processed(
                    words.deep_view()[i],
                ))
            &&& total_len(v.deep_view()) == total_processed_len(words.deep_view())
        }),
{
    let ghost rv = words.deep_view();
    let mut out: Vec<String> = Vec::new();
    let mut total: usize = 0;
    let n = words.len();
    let mut i: usize = 0;
    while i < n
        invariant
            n == words@.len(),
            rv == words.deep_view(),
            0 <= i <= n,
            out.deep_view().len() == i,
            (forall|k: int|
                0 <= k < i ==> (#[trigger] out.deep_view()[k]) == processed(rv[k])),
            total as nat == total_len(out.deep_view()),
            total as nat == total_processed_len(rv.take(i as int)),
        decreases n - i,
    {
        let t = trimmed(words[i].as_str());
        let w = lowercased(t);
        let len = vstd::string::StrSliceExecFns::unicode_len(w.as_str());
        proof {
            assert(words@[i as int]@ == rv[i as int]);
            assert(w@ == processed(rv[i as int]));
            assert(rv.take(i + 1).drop_last() =~= rv.take(i as int));
            assert(rv.take(i + 1).last() == rv[i as int]);
        }
        total = match total.checked_add(len) {
            Some(t2) => t2,
            None => {
                proof {
                    lemma_total_processed_take_le(rv, i + 1);
                }
                return None;
            },
        };
        let ghost out0 = out.deep_view();
        out.push(w);
        proof {
            assert(out.deep_view() =~= out0.push(w@));
            assert(out.deep_view().drop_last() =~= out0);
            assert(total_len(out.deep_view()) == total_len(out0) + w@.len());
        }
        i += 1;
    }
    proof {
        assert(rv.take(n as int) =~= rv);
    }
    Some(out)
}

/// Counts how often `c` occurs over all the words together.
fn count_char_total(words: &Vec<String>, c: char) -> (r: usize)
    requires
        total_len(words.deep_view()) <= usize::MAX,
    ensures
        r as nat == char_total(words.deep_view(), c),
{
    let ghost dv = words.deep_view();
    let n = words.len();
    let mut r: usize = 0;
    let mut i: usize = 0;
    while i < n
        invariant
            n == words@.len(),
            dv == words.deep_view(),
            total_len(dv) <= usize::MAX,
            0 <= i <= n,
            r as nat == char_total(dv.take(i as int), c),
        decreases n - i,
    {
        let cnt = count_char_in(words[i].as_str(), c);
        proof {
            assert(words@[i as int]@ == dv[i as int]);
            assert(dv.take(i + 1).drop_last() =~= dv.take(i as int));
            assert(dv.take(i + 1).last() == dv[i as int]);
            lemma_char_total_le_total_len(dv.take(i + 1), c);
            lemma_total_len_take_le(dv, i + 1);
        }
        r += cnt;
        i += 1;
    }
    proof {
        assert(dv.take(n as int) =~= dv);
    }
    r
}

/// The dictionary: for each occurring character count, the group of
/// processed words of that count. Immutable once built.
pub struct Dictionary {
    words_by_len: Vec<(usize, Words)>,
}

/// A placeholder for wiring up dictionary loading; construction itself
/// happens through [`Dictionary::new`].
pub struct DictionaryBuilder;

impl Dictionary {
    /// Whether some stored group is keyed by `len`.
    pub closed spec fn has_len(&self, len: nat) -> bool {
        exists|j: int|
            0 <= j < self.words_by_len@.len() && (#[trigger] self.words_by_len@[j]).0 == len
    }

    /// The index of the group keyed by `len`.
    pub closed spec fn bucket_at(&self, len: nat) -> int {
        choose|j: int|
            0 <= j < self.words_by_len@.len() && (#[trigger] self.words_by_len@[j]).0 == len
    }

    /// The set of stored words of length `len`.
    pub closed spec fn word_set(&self, len: nat) -> Set<Seq<char>> {
        if self.has_len(len) {
            self.words_by_len@[self.bucket_at(len)].1.word_set()
        } else {
            Set::empty()
        }
    }

    /// The number of distinct word lengths stored.
    pub closed spec fn num_lens(&self) -> nat {
        self.words_by_len@.len()
    }

    /// Group keys are distinct, and every group is well-formed, holds at
    /// least one word, and holds only words of its key's length.
    pub closed spec fn wf(&self) -> bool {
        &&& (forall|a: int, b: int|
            0 <= a < self.words_by_len@.len() && 0 <= b < self.words_by_len@.len() && a != b
                ==> (#[trigger] self.words_by_len@[a]).0 != (#[trigger] self.words_by_len@[b]).0)
        &&& (forall|j: int|
            0 <= j < self.words_by_len@.len() ==> (#[trigger] self.words_by_len@[j]).1.wf())
        &&& (forall|j: int|
            0 <= j < self.words_by_len@.len() ==> (#[trigger] self.words_by_len@[
                j
            ]).1.word_seq().len() > 0)
        &&& (forall|j: int, k: int|
            0 <= j < self.words_by_len@.len() && 0 <= k < self.words_by_len@[j].1.word_seq().len()
                ==> (#[trigger] self.words_by_len@[j].1.word_seq()[k]).len()
                == self.words_by_len@[j].0)
    }

    /// Groups already-processed words by character count and builds each
    /// group's frequency table.
    fn build_from(pw: Vec<String>) -> (d: Dictionary)
        requires
            total_len(pw.deep_view()) <= usize::MAX,
        ensures
            d.wf(),
            (forall|len: nat|
                #[trigger] d.has_len(len) <==> exists|k: int|
                    0 <= k < pw.deep_view().len() && (#[trigger] pw.deep_view()[k]).len() == len),
            (forall|w: Seq<char>, len: nat|
                #[trigger] d.word_set(len).contains(w) <==> pw.deep_view().contains(w) && w.len()
                    == len),
    {
        let ghost pv = pw.deep_view();
        let mut buckets: Vec<(usize, Vec<String>)> = Vec::new();
        let n = pw.len();
        let mut i: usize = 0;
        while i < n
            invariant
                n == pw@.len(),
                pv == pw.deep_view(),
                total_len(pv) <= usize::MAX,
                0 <= i <= n,
                (forall|a: int, b: int|
                    0 <= a < buckets@.len() && 0 <= b < buckets@.len() && a != b ==> (
                    #[trigger] buckets@[a]).0 != (#[trigger] buckets@[b]).0),
                (forall|j: int|
                    0 <= j < buckets@.len() ==> bucket_ok(#[trigger] buckets@[j], pv, i as int)),
                (forall|k: int| 0 <= k < i ==> in_some_bucket(buckets@, #[trigger] pv[k])),
            decreases n - i,
        {
            let w = pw[i].clone();
            assert(w@ == pv[i as int]);
            let len = vstd::string::StrSliceExecFns::unicode_len(w.as_str());
            let ghost bs0 = buckets@;
            proof {
                assert(pv.take(i + 1).drop_last() =~= pv.take(i as int));
                assert(pv.take(i + 1).last() == pv[i as int]);
                assert(pv.take(i + 1)[i as int] == pv[i as int]);
                assert(total_len(pv.take(i + 1)) == total_len(pv.take(i as int)) + pv[
                    i as int
                ].len());
            }
            match find_bucket(&buckets, len) {
                Some(j) => {
                    let mut pair = buckets.remove(j);
                    let ghost bdv0 = pair.1.deep_view();
                    let dup = vec_contains_string(&pair.1, &w);
                    if !dup {
                        pair.1.push(w);
                        proof {
                            assert(pair.1.deep_view() =~= bdv0.push(pv[i as int]));
                        }
                    }
                    let ghost newdv = pair.1.deep_view();
                    buckets.insert(j, pair);
                    proof {
                        assert(buckets@ =~= bs0.update(j as int, buckets@[j as int]));
                        assert(buckets@[j as int].0 == len);
                        assert(buckets@[j as int].1.deep_view() == newdv);
                        // the updated group keeps the grouping in order
                        assert(bucket_ok(buckets@[j as int], pv, i + 1)) by {
                            if dup {
                                assert(newdv == bdv0);
                                lemma_bucket_ok_step(bs0[j as int], pv, i as int);
                            } else {
                                assert(newdv =~= bdv0.push(pv[i as int]));
                                assert(newdv.drop_last() =~= bdv0);
                                assert(total_len(newdv) == total_len(bdv0) + pv[i as int].len());
                                assert forall|k1: int, k2: int|
                                    0 <= k1 < newdv.len() && 0 <= k2 < newdv.len() && k1
                                        != k2 implies newdv[k1] != newdv[k2] by {
                                    if k1 < bdv0.len() && k2 < bdv0.len() {
                                        assert(bdv0[k1] != bdv0[k2]);
                                    } else if k1 < bdv0.len() {
                                        assert(newdv[k2] == pv[i as int]);
                                        assert(!bdv0.contains(pv[i as int]));
                                        assert(bdv0[k1] == newdv[k1]);
                                    } else {
                                        assert(newdv[k1] == pv[i as int]);
                                        assert(!bdv0.contains(pv[i as int]));
                                        assert(bdv0[k2] == newdv[k2]);
                                    }
                                }
                                assert forall|k: int| 0 <= k < newdv.len() implies (
                                #[trigger] newdv[k]).len() == len && pv.take(i + 1).contains(
                                    newdv[k],
                                ) by {
                                    if k < bdv0.len() {
                                        assert(bdv0[k].len() == bs0[j as int].0);
                                        lemma_take_contains_mono(pv, i as int, i + 1, bdv0[k]);
                                    } else {
                                        assert(newdv[k] == pv[i as int]);
                                        assert(pv.take(i + 1)[i as int] == pv[i as int]);
                                    }
                                }
                            }
                        }
                        assert forall|j2: int|
                            0 <= j2 < buckets@.len() implies bucket_ok(
                            #[trigger] buckets@[j2],
                            pv,
                            i + 1,
                        ) by {
                            if j2 != j {
                                assert(buckets@[j2] == bs0[j2]);
                                lemma_bucket_ok_step(bs0[j2], pv, i as int);
                            }
                        }
                        assert forall|k: int| 0 <= k < i + 1 implies in_some_bucket(
                            buckets@,
                            #[trigger] pv[k],
                        ) by {
                            if k < i {
                                let j2 = choose|j2: int|
                                    0 <= j2 < bs0.len() && (#[trigger] bs0[j2]).0 == pv[k].len()
                                        && bs0[j2].1.deep_view().contains(pv[k]);
                                if j2 != j {
                                    assert(buckets@[j2] == bs0[j2]);
                                } else {
                                    if !dup {
                                        let x = choose|x: int|
                                            0 <= x < bdv0.len() && bdv0[x] == pv[k];
                                        assert(newdv[x] == pv[k]);
                                    }
                                    assert(buckets@[j as int].1.deep_view().contains(pv[k]));
                                }
                            } else {
                                assert(pv[i as int].len() == len);
                                if dup {
                                    assert(bdv0.contains(pv[i as int]));
                                } else {
                                    assert(newdv[newdv.len() - 1] == pv[i as int]);
                                }
                                assert(buckets@[j as int].1.deep_view().contains(pv[i as int]));
                            }
                        }
                    }
                },
                None => {
                    let mut nv: Vec<String> = Vec::new();
                    nv.push(w);
                    let ghost sdv = nv.deep_view();
                    buckets.push((len, nv));
                    proof {
                        assert(sdv =~= Seq::<Seq<char>>::empty().push(pv[i as int]));
                        assert(sdv.len() == 1);
                        assert(sdv[0] == pv[i as int]);
                        assert(buckets@ =~= bs0.push((len, buckets@[bs0.len() as int].1)));
                        assert(buckets@.len() == bs0.len() + 1);
                        assert forall|a: int, b: int|
                            0 <= a < buckets@.len() && 0 <= b < buckets@.len() && a != b implies (
                        #[trigger] buckets@[a]).0 != (#[trigger] buckets@[b]).0 by {
                            if a < bs0.len() && b < bs0.len() {
                                assert(bs0[a].0 != bs0[b].0);
                            } else if a < bs0.len() {
                                assert(buckets@[b].0 == len);
                                assert(bs0[a].0 != len);
                            } else {
                                assert(buckets@[a].0 == len);
                                assert(b < bs0.len());
                                assert(bs0[b].0 != len);
                            }
                        }
                        assert(bucket_ok(buckets@[bs0.len() as int], pv, i + 1)) by {
                            assert(total_len(sdv) == total_len(sdv.drop_last()) + sdv.last().len());
                            assert(sdv.drop_last() =~= Seq::<Seq<char>>::empty());
                            assert(total_len(sdv) == pv[i as int].len());
                            assert forall|k: int| 0 <= k < sdv.len() implies (#[trigger] sdv[
                            k]).len() == len && pv.take(i + 1).contains(sdv[k]) by {
                                assert(sdv[k] == pv[i as int]);
                                assert(pv.take(i + 1)[i as int] == pv[i as int]);
                            }
                        }
                        assert forall|j2: int|
                            0 <= j2 < buckets@.len() implies bucket_ok(
                            #[trigger] buckets@[j2],
                            pv,
                            i + 1,
                        ) by {
                            if j2 < bs0.len() {
                                assert(buckets@[j2] == bs0[j2]);
                                lemma_bucket_ok_step(bs0[j2], pv, i as int);
                            }
                        }
                        assert forall|k: int| 0 <= k < i + 1 implies in_some_bucket(
                            buckets@,
                            #[trigger] pv[k],
                        ) by {
                            if k < i {
                                let j2 = choose|j2: int|
                                    0 <= j2 < bs0.len() && (#[trigger] bs0[j2]).0 == pv[k].len()
                                        && bs0[j2].1.deep_view().contains(pv[k]);
                                assert(buckets@[j2] == bs0[j2]);
                            } else {
                                assert(pv[i as int].len() == len);
                                assert(buckets@[bs0.len() as int].1.deep_view().contains(
                                    pv[i as int],
                                ));
                            }
                        }
                    }
                },
            }
            i += 1;
        }
        proof {
            assert(pv.take(n as int) =~= pv);
        }
        // second phase: turn each raw group into a frequency-counted group
        let ghost bsn = buckets@;
        let mut groups: Vec<(usize, Words)> = Vec::new();
        while buckets.len() > 0
            invariant
                pv == pw.deep_view(),
                total_len(pv) <= usize::MAX,
                groups@.len() + buckets@.len() == bsn.len(),
                (forall|j: int|
                    0 <= j < buckets@.len() ==> (#[trigger] buckets@[j]) == bsn[groups@.len() + j]),
                (forall|j: int|
                    0 <= j < bsn.len() ==> bucket_ok(#[trigger] bsn[j], pv, pv.len() as int)),
                (forall|j: int|
                    0 <= j < groups@.len() ==> (#[trigger] groups@[j]).0 == bsn[j].0 && groups@[
                        j
                    ].1.wf() && groups@[j].1.word_seq() == bsn[j].1.deep_view()),
            decreases buckets.len(),
        {
            let ghost done = groups@.len() as int;
            let pair = buckets.remove(0);
            proof {
                assert(pair == bsn[done]);
                assert(pv.take(pv.len() as int) =~= pv);
                assert(bucket_ok(bsn[done], pv, pv.len() as int));
                lemma_total_len_take_le(pv, pv.len() as int);
            }
            let grp = Words::new(pair.1);
            groups.push((pair.0, grp));
        }
        let d = Dictionary { words_by_len: groups };
        proof {
            assert(pv.take(pv.len() as int) =~= pv);
            let gs = d.words_by_len@;
            assert(gs.len() == bsn.len());
            // the finished dictionary is well-formed
            assert forall|j: int, k: int|
                0 <= j < gs.len() && 0 <= k < gs[j].1.word_seq().len() implies (#[trigger] gs[
            j].1.word_seq()[k]).len() == gs[j].0 by {
                assert(gs[j].1.word_seq() == bsn[j].1.deep_view());
                assert(bucket_ok(bsn[j], pv, pv.len() as int));
            }
            assert(d.wf());
            // which lengths exist
            assert forall|len: nat| #[trigger] d.has_len(len) <==> (exists|k: int|
                0 <= k < pv.len() && (#[trigger] pv[k]).len() == len) by {
                if d.has_len(len) {
                    let j = choose|j: int| 0 <= j < gs.len() && (#[trigger] gs[j]).0 == len;
                    assert(bucket_ok(bsn[j], pv, pv.len() as int));
                    let w0 = bsn[j].1.deep_view()[0];
                    assert(w0.len() == len);
                    assert(pv.take(pv.len() as int).contains(w0));
                    let k = choose|k: int| 0 <= k < pv.len() && pv.take(pv.len() as int)[k] == w0;
                    assert(pv[k].len() == len);
                }
                if exists|k: int| 0 <= k < pv.len() && (#[trigger] pv[k]).len() == len {
                    let k = choose|k: int| 0 <= k < pv.len() && (#[trigger] pv[k]).len() == len;
                    assert(in_some_bucket(bsn, pv[k]));
                    let j = choose|j: int|
                        0 <= j < bsn.len() && (#[trigger] bsn[j]).0 == pv[k].len() && bsn[
                            j
                        ].1.deep_view().contains(pv[k]);
                    assert(gs[j].0 == len);
                }
            }
            // which words each length's set holds
            assert forall|w: Seq<char>, len: nat|
                #[trigger] d.word_set(len).contains(w) <==> pv.contains(w) && w.len()
                    == len by {
                if d.has_len(len) {
                    let js = d.bucket_at(len);
                    assert(0 <= js < gs.len() && gs[js].0 == len);
                    assert(bucket_ok(bsn[js], pv, pv.len() as int));
                    if d.word_set(len).contains(w) {
                        assert(gs[js].1.word_seq().contains(w));
                        let x = choose|x: int|
                            0 <= x < bsn[js].1.deep_view().len() && bsn[js].1.deep_view()[x] == w;
                        assert(w.len() == len);
                        assert(pv.take(pv.len() as int).contains(w));
                        let k = choose|k: int|
                            0 <= k < pv.len() && pv.take(pv.len() as int)[k] == w;
                        assert(pv[k] == w);
                        assert(pv.contains(w));
                    }
                    if pv.contains(w) && w.len() == len {
                        let k = choose|k: int| 0 <= k < pv.len() && pv[k] == w;
                        assert(in_some_bucket(bsn, pv[k]));
                        let j2 = choose|j2: int|
                            0 <= j2 < bsn.len() && (#[trigger] bsn[j2]).0 == pv[k].len() && bsn[
                                j2
                            ].1.deep_view().contains(pv[k]);
                        assert(gs[j2].0 == len);
                        assert(j2 == js);
                        assert(gs[js].1.word_seq().contains(w));
                        assert(gs[js].1.word_set().contains(w));
                    }
                } else {
                    assert(d.word_set(len) == Set::<Seq<char>>::empty());
                    if pv.contains(w) && w.len() == len {
                        let k = choose|k: int| 0 <= k < pv.len() && pv[k] == w;
                        assert(in_some_bucket(bsn, pv[k]));
                        let j2 = choose|j2: int|
                            0 <= j2 < bsn.len() && (#[trigger] bsn[j2]).0 == pv[k].len() && bsn[
                                j2
                            ].1.deep_view().contains(pv[k]);
                        assert(gs[j2].0 == len);
                        assert(d.has_len(len));
                    }
                }
            }
        }
        d
    }

    /// Builds the dictionary: every raw word is trimmed, case-folded and
    /// grouped under its character count, duplicates collapsed. The summed
    /// length of the processed words must fit the machine's range; see
    /// [`Dictionary::try_new`] for the checked form.
    pub fn new(words: Vec<String>) -> (d: Dictionary)
        requires
            total_processed_len(words.deep_view()) <= usize::MAX,
        ensures
            d.wf(),
            (forall|len: nat| #[trigger] d.word_set(len) == bucket_model(
                words.deep_view(),
                len,
            )),
            (forall|len: nat|
                #[trigger] d.has_len(len) <==> exists|i: int|
                    0 <= i < words.deep_view().len() && processed(
                        #[trigger] words.deep_view()[i],
                    ).len() == len),
    {
        let ghost rv = words.deep_view();
        match process_all(&words) {
            Some(p) => {
                let ghost pvv = p.deep_view();
                let d = Dictionary::build_from(p);
                proof {
                    lemma_model_from_processed(rv, pvv, &d);
                }
                d
            },
            None => {
                proof {
                    assert(false);
                }
                vstd::pervasive::unreached()
            },
        }
    }

    /// Builds the dictionary after checking at run time that the summed
    /// length of the processed words fits the machine's range; yields
    /// nothing when it does not.
    pub fn try_new(words: Vec<String>) -> (r: Option<Dictionary>)
        ensures
            r is Some <==> total_processed_len(words.deep_view()) <= usize::MAX,
            (r matches Some(d) ==> {
                &&& d.wf()
                &&& (forall|len: nat| #[trigger] d.word_set(len) == bucket_model(
                    words.deep_view(),
                    len,
                ))
                &&& (forall|len: nat|
                    #[trigger] d.has_len(len) <==> exists|i: int|
                        0 <= i < words.deep_view().len() && processed(
                            #[trigger] words.deep_view()[i],
                        ).len() == len)
            }),
    {
        let ghost rv = words.deep_view();
        match process_all(&words) {
            Some(p) => {
                let ghost pvv = p.deep_view();
                let d = Dictionary::build_from(p);
                proof {
                    lemma_model_from_processed(rv, pvv, &d);
                }
                Some(d)
            },
            None => None,
        }
    }

    /// The group of stored words of length `length`, or nothing when no
    /// word of that length was supplied. Every word of the returned group
    /// has exactly `length` characters.
    pub fn get(&self, length: usize) -> (r: Option<&Words>)
        requires
            self.wf(),
        ensures
            r is Some <==> self.has_len(length as nat),
            (r matches Some(w) ==> {
                &&& w.wf()
                &&& w.word_set() == self.word_set(length as nat)
                &&& w.word_seq().no_duplicates()
                &&& w.word_seq().len() > 0
                &&& (forall|k: int|
                    0 <= k < w.word_seq().len() ==> (#[trigger] w.word_seq()[k]).len() == length)
            }),
            (r is None ==> self.word_set(length as nat) == Set::<Seq<char>>::empty()),
    {
        let n = self.words_by_len.len();
        let mut j: usize = 0;
        while j < n
            invariant
                n == self.words_by_len@.len(),
                0 <= j <= n,
                self.wf(),
                forall|x: int| 0 <= x < j ==> (#[trigger] self.words_by_len@[x]).0 != length,
            decreases n - j,
        {
            if self.words_by_len[j].0 == length {
                proof {
                    assert(self.has_len(length as nat));
                    let j2 = self.bucket_at(length as nat);
                    assert(0 <= j2 < self.words_by_len@.len() && self.words_by_len@[j2].0
                        == length);
                    assert(j2 == j as int);
                }
                return Some(&self.words_by_len[j].1);
            }
            j += 1;
        }
        proof {
            assert(self.word_set(length as nat) =~= Set::<Seq<char>>::empty());
        }
        None
    }

    /// How many distinct word lengths the dictionary holds.
    pub fn bucket_count(&self) -> (r: usize)
        ensures
            r as nat == self.num_lens(),
    {
        self.words_by_len.len()
    }
}

/// `num_lens` counts exactly the lengths for which the dictionary holds a
/// group: the set of lengths with `has_len` is finite and of that size.
pub proof fn lemma_num_lens_counts_lengths(d: &Dictionary)
    requires
        d.wf(),
    ensures
        (Set::new(|len: nat| d.has_len(len))).finite(),
        (Set::new(|len: nat| d.has_len(len))).len() == d.num_lens(),
{
    broadcast use vstd::seq_lib::seq_to_set_is_finite;

    let bs = d.words_by_len@;
    let ks = bs.map_values(|p: (usize, Words)| p.0 as nat);
    assert(ks.no_duplicates());
    ks.unique_seq_to_set();
    assert forall|len: nat| #[trigger] d.has_len(len) implies ks.to_set().contains(len) by {
        let j = choose|j: int| 0 <= j < bs.len() && (#[trigger] bs[j]).0 == len;
        assert(ks[j] == len);
    }
    assert forall|len: nat| ks.to_set().contains(len) implies #[trigger] d.has_len(len) by {
        let j = choose|j: int| 0 <= j < ks.len() && ks[j] == len;
        assert(bs[j].0 == len);
    }
    assert((Set::new(|len: nat| d.has_len(len))) =~= ks.to_set());
}

/// Carries the grouping seen on the processed words back to the raw words
/// they came from.
proof fn lemma_model_from_processed(raws: Seq<Seq<char>>, pv: Seq<Seq<char>>, d: &Dictionary)
    requires
        pv.len() == raws.len(),
        forall|i: int| 0 <= i < pv.len() ==> (#[trigger] pv[i]) == processed(raws[i]),
        forall|len: nat|
            #[trigger] d.has_len(len) <==> exists|k: int|
                0 <= k < pv.len() && (#[trigger] pv[k]).len() == len,
        forall|w: Seq<char>, len: nat|
            #[trigger] d.word_set(len).contains(w) <==> pv.contains(w) && w.len() == len,
    ensures
        forall|len: nat| #[trigger] d.word_set(len) == bucket_model(raws, len),
        forall|len: nat|
            #[trigger] d.has_len(len) <==> exists|i: int|
                0 <= i < raws.len() && processed(#[trigger] raws[i]).len() == len,
{
    assert forall|len: nat| #[trigger] d.word_set(len) == bucket_model(raws, len) by {
        assert forall|w: Seq<char>|
            d.word_set(len).contains(w) <==> bucket_model(raws, len).contains(w) by {
            if d.word_set(len).contains(w) {
                let k = choose|k: int| 0 <= k < pv.len() && pv[k] == w;
                assert(processed(raws[k]) == w);
            }
            if bucket_model(raws, len).contains(w) {
                let i = choose|i: int| 0 <= i < raws.len() && processed(#[trigger] raws[i]) == w;
                assert(pv[i] == w);
                assert(pv.contains(w));
            }
        }
        assert(d.word_set(len) =~= bucket_model(raws, len));
    }
    assert forall|len: nat|
        #[trigger] d.has_len(len) <==> exists|i: int|
            0 <= i < raws.len() && processed(#[trigger] raws[i]).len() == len by {
        if d.has_len(len) {
            let k = choose|k: int| 0 <= k < pv.len() && (#[trigger] pv[k]).len() == len;
            assert(processed(raws[k]).len() == len);
        }
        if exists|i: int| 0 <= i < raws.len() && processed(#[trigger] raws[i]).len() == len {
            let i = choose|i: int|
                0 <= i < raws.len() && processed(#[trigger] raws[i]).len() == len;
            assert(pv[i].len() == len);
        }
    }
}

} // verus!
