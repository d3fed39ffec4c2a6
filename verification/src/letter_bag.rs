//! Bags of letters: how many tiles of each letter a player holds.
//!
//! A bag is modelled as a sequence of pairs, a letter and how many of it
//! are left, in which no letter occurs twice. Taking a tile out never
//! changes the bag it is taken from: [`VecLetterBag::decremented`] hands
//! back a new bag, so that the branches of a search cannot disturb each other.

use crate::util::text_bytes;
use crate::util::Letter;
use std::collections::HashMap;
use vstd::std_specs::iter::IteratorSpec;
use vstd::prelude::*;

verus! {

/// The bag that the solver works with.
pub type LetterBag = VecLetterBag;

/// Whether the bag `m` has an entry for the letter `l`.
pub open spec fn bag_has(m: Seq<(Letter, nat)>, l: Letter) -> bool {
    exists|i: int| 0 <= i < m.len() && (#[trigger] m[i]).0 == l
}

/// The position of the entry for `l` in `m`, where there is one.
pub open spec fn bag_index(m: Seq<(Letter, nat)>, l: Letter) -> int {
    choose|i: int| 0 <= i < m.len() && (#[trigger] m[i]).0 == l
}

/// How many tiles of the letter `l` the bag `m` holds.
pub open spec fn bag_count(m: Seq<(Letter, nat)>, l: Letter) -> nat {
    if bag_has(m, l) {
        m[bag_index(m, l)].1
    } else {
        0
    }
}

/// Whether no letter has two entries in `m`.
pub open spec fn bag_distinct(m: Seq<(Letter, nat)>) -> bool {
    forall|i: int, j: int| 0 <= i < j < m.len() ==> (#[trigger] m[i]).0 != (#[trigger] m[j]).0
}

/// How many tiles the bag `m` holds in all.
pub open spec fn bag_total(m: Seq<(Letter, nat)>) -> nat
    decreases m.len(),
{
    if m.len() == 0 {
        0
    } else {
        bag_total(m.drop_last()) + m.last().1
    }
}

/// The bag `m` with one tile of `l` fewer; `m` itself where it holds none.
pub open spec fn bag_decrement(m: Seq<(Letter, nat)>, l: Letter) -> Seq<(Letter, nat)> {
    if bag_count(m, l) > 0 {
        m.update(bag_index(m, l), (l, (bag_count(m, l) - 1) as nat))
    } else {
        m
    }
}

/// The letters of which `m` holds at least one tile, in the order of
/// their entries.
pub open spec fn bag_keys(m: Seq<(Letter, nat)>) -> Seq<Letter>
    decreases m.len(),
{
    if m.len() == 0 {
        Seq::empty()
    } else if m.last().1 > 0 {
        bag_keys(m.drop_last()).push(m.last().0)
    } else {
        bag_keys(m.drop_last())
    }
}

/// The bag `m` with one more tile of `l`. A letter that is new to the bag
/// gets its entry at the end.
pub open spec fn bag_tally(m: Seq<(Letter, nat)>, l: Letter) -> Seq<(Letter, nat)> {
    if bag_has(m, l) {
        m.update(bag_index(m, l), (l, m[bag_index(m, l)].1 + 1))
    } else {
        m.push((l, 1))
    }
}

/// The bag that holds one tile for each byte of `text`, the letters in the
/// order in which they first occur.
pub open spec fn letter_counts(text: Seq<Letter>) -> Seq<(Letter, nat)>
    decreases text.len(),
{
    if text.len() == 0 {
        Seq::empty()
    } else {
        bag_tally(letter_counts(text.drop_last()), text.last())
    }
}

/// In a bag without double entries, the entry at `i` is the one that counts
/// for its letter.
pub proof fn lemma_bag_entry(m: Seq<(Letter, nat)>, i: int)
    requires
        bag_distinct(m),
        0 <= i < m.len(),
    ensures
        bag_has(m, m[i].0),
        bag_index(m, m[i].0) == i,
        bag_count(m, m[i].0) == m[i].1,
{
    let l = m[i].0;
    let j = bag_index(m, l);
    assert(0 <= j < m.len() && m[j].0 == l);
    if j < i {
        assert(m[j].0 != m[i].0);
    } else if i < j {
        assert(m[i].0 != m[j].0);
    }
}

/// Changing the count of one entry changes the total by as much.
pub proof fn lemma_bag_total_update(m: Seq<(Letter, nat)>, i: int, count: nat)
    requires
        0 <= i < m.len(),
    ensures
        bag_total(m.update(i, (m[i].0, count))) + m[i].1 == bag_total(m) + count,
    decreases m.len(),
{
    let u = m.update(i, (m[i].0, count));
    if i == m.len() - 1 {
        assert(u.drop_last() =~= m.drop_last());
    } else {
        lemma_bag_total_update(m.drop_last(), i, count);
        assert(u.drop_last() =~= m.drop_last().update(i, (m[i].0, count)));
    }
}

/// Every entry counts towards the total.
pub proof fn lemma_bag_total_bounds_entry(m: Seq<(Letter, nat)>, i: int)
    requires
        0 <= i < m.len(),
    ensures
        m[i].1 <= bag_total(m),
    decreases m.len(),
{
    if i < m.len() - 1 {
        lemma_bag_total_bounds_entry(m.drop_last(), i);
    }
}

/// Taking a tile of `l` out of a bag lowers the count of `l` by one and the
/// total by one, where the bag holds `l`, and changes nothing where it does
/// not. The count of every other letter stays as it is.
pub proof fn lemma_bag_decrement(m: Seq<(Letter, nat)>, l: Letter)
    requires
        bag_distinct(m),
    ensures
        bag_distinct(bag_decrement(m, l)),
        bag_decrement(m, l).len() == m.len(),
        bag_count(m, l) == 0 ==> bag_decrement(m, l) == m,
        bag_count(m, l) > 0 ==> bag_count(bag_decrement(m, l), l) == bag_count(m, l) - 1,
        bag_count(m, l) > 0 ==> bag_total(bag_decrement(m, l)) == bag_total(m) - 1,
        bag_count(bag_decrement(m, l), l) <= bag_count(m, l),
        forall|k: Letter| k != l ==> bag_count(bag_decrement(m, l), k) == bag_count(m, k),
{
    let d = bag_decrement(m, l);
    if bag_count(m, l) > 0 {
        let i = bag_index(m, l);
        assert(0 <= i < m.len() && m[i].0 == l);
        lemma_bag_entry(m, i);
        assert forall|a: int, b: int| 0 <= a < b < d.len() implies (#[trigger] d[a]).0 != (
        #[trigger] d[b]).0 by {
            assert(d[a].0 == m[a].0);
            assert(d[b].0 == m[b].0);
        }
        lemma_bag_entry(d, i);
        lemma_bag_total_update(m, i, (bag_count(m, l) - 1) as nat);
        assert forall|k: Letter| k != l implies bag_count(d, k) == bag_count(m, k) by {
            if bag_has(m, k) {
                let j = bag_index(m, k);
                assert(0 <= j < m.len() && m[j].0 == k);
                lemma_bag_entry(m, j);
                assert(d[j] == m[j]);
                lemma_bag_entry(d, j);
            } else if bag_has(d, k) {
                let j = bag_index(d, k);
                assert(0 <= j < d.len() && d[j].0 == k);
                assert(m[j].0 == k);
            }
        }
    }
}

/// The keys of a bag are the letters of which it holds a tile, each once.
pub proof fn lemma_bag_keys(m: Seq<(Letter, nat)>)
    requires
        bag_distinct(m),
    ensures
        bag_keys(m).no_duplicates(),
        forall|l: Letter| bag_keys(m).contains(l) <==> bag_count(m, l) > 0,
    decreases m.len(),
{
    if m.len() == 0 {
        assert forall|l: Letter| bag_keys(m).contains(l) <==> bag_count(m, l) > 0 by {
            assert(!bag_has(m, l));
        }
    } else {
        let rest = m.drop_last();
        let last = m.last();
        assert forall|i: int, j: int| 0 <= i < j < rest.len() implies (#[trigger] rest[i]).0 != (
        #[trigger] rest[j]).0 by {
            assert(rest[i] == m[i]);
            assert(rest[j] == m[j]);
        }
        lemma_bag_keys(rest);
        lemma_bag_entry(m, m.len() - 1);
        assert forall|l: Letter| l != last.0 implies (bag_count(m, l) == bag_count(rest, l)) by {
            if bag_has(m, l) {
                let j = bag_index(m, l);
                assert(0 <= j < m.len() && m[j].0 == l);
                assert(rest[j] == m[j]);
                lemma_bag_entry(m, j);
                lemma_bag_entry(rest, j);
            } else if bag_has(rest, l) {
                let j = bag_index(rest, l);
                assert(0 <= j < rest.len() && rest[j].0 == l);
                assert(m[j].0 == l);
            }
        }
        assert(!bag_has(rest, last.0)) by {
            if bag_has(rest, last.0) {
                let j = bag_index(rest, last.0);
                assert(0 <= j < rest.len() && rest[j].0 == last.0);
                assert(m[j].0 != m[m.len() - 1].0);
            }
        }
        assert(!bag_keys(rest).contains(last.0));
        let keys = bag_keys(m);
        if last.1 > 0 {
            assert(keys == bag_keys(rest).push(last.0));
            assert(keys[keys.len() - 1] == last.0);
            assert forall|l: Letter| keys.contains(l) <==> bag_count(m, l) > 0 by {
                if keys.contains(l) {
                    let i = choose|i: int| 0 <= i < keys.len() && keys[i] == l;
                    if i < keys.len() - 1 {
                        assert(bag_keys(rest)[i] == l);
                        assert(bag_keys(rest).contains(l));
                    }
                }
                if bag_count(m, l) > 0 && l != last.0 {
                    assert(bag_keys(rest).contains(l));
                    let i = choose|i: int| 0 <= i < bag_keys(rest).len() && bag_keys(rest)[i] == l;
                    assert(keys[i] == l);
                }
            }
            assert forall|i: int, j: int| 0 <= i < j < keys.len() implies keys[i] != keys[j] by {
                if j == keys.len() - 1 {
                    assert(bag_keys(rest)[i] == keys[i]);
                    assert(bag_keys(rest).contains(keys[i]));
                } else {
                    assert(bag_keys(rest)[i] == keys[i]);
                    assert(bag_keys(rest)[j] == keys[j]);
                }
            }
        } else {
            assert forall|l: Letter| keys.contains(l) <==> bag_count(m, l) > 0 by {}
        }
    }
}

/// Adding a tile of `l` to a bag raises the count of `l` by one and the
/// total by one; the count of every other letter stays as it is.
pub proof fn lemma_bag_tally(m: Seq<(Letter, nat)>, l: Letter)
    requires
        bag_distinct(m),
    ensures
        bag_distinct(bag_tally(m, l)),
        bag_count(bag_tally(m, l), l) == bag_count(m, l) + 1,
        bag_total(bag_tally(m, l)) == bag_total(m) + 1,
        forall|k: Letter| k != l ==> bag_count(bag_tally(m, l), k) == bag_count(m, k),
{
    let t = bag_tally(m, l);
    if bag_has(m, l) {
        let i = bag_index(m, l);
        assert(0 <= i < m.len() && m[i].0 == l);
        lemma_bag_entry(m, i);
        assert forall|a: int, b: int| 0 <= a < b < t.len() implies (#[trigger] t[a]).0 != (
        #[trigger] t[b]).0 by {
            assert(t[a].0 == m[a].0);
            assert(t[b].0 == m[b].0);
        }
        lemma_bag_entry(t, i);
        lemma_bag_total_update(m, i, m[i].1 + 1);
        assert forall|k: Letter| k != l implies bag_count(t, k) == bag_count(m, k) by {
            if bag_has(m, k) {
                let j = bag_index(m, k);
                assert(0 <= j < m.len() && m[j].0 == k);
                lemma_bag_entry(m, j);
                assert(t[j] == m[j]);
                lemma_bag_entry(t, j);
            } else if bag_has(t, k) {
                let j = bag_index(t, k);
                assert(0 <= j < t.len() && t[j].0 == k);
                assert(m[j].0 == k);
            }
        }
    } else {
        assert(t.drop_last() =~= m);
        assert forall|a: int, b: int| 0 <= a < b < t.len() implies (#[trigger] t[a]).0 != (
        #[trigger] t[b]).0 by {
            if b == t.len() - 1 {
                assert(m[a].0 != l);
            } else {
                assert(t[a] == m[a]);
                assert(t[b] == m[b]);
            }
        }
        lemma_bag_entry(t, t.len() - 1);
        assert forall|k: Letter| k != l implies bag_count(t, k) == bag_count(m, k) by {
            if bag_has(m, k) {
                let j = bag_index(m, k);
                assert(0 <= j < m.len() && m[j].0 == k);
                lemma_bag_entry(m, j);
                assert(t[j] == m[j]);
                lemma_bag_entry(t, j);
            } else if bag_has(t, k) {
                let j = bag_index(t, k);
                assert(0 <= j < t.len() && t[j].0 == k);
                assert(m[j].0 == k);
            }
        }
    }
}

/// The bag counted from a text holds each byte as often as the text does,
/// and as many tiles in all as the text has bytes.
pub proof fn lemma_letter_counts(text: Seq<Letter>)
    ensures
        bag_distinct(letter_counts(text)),
        bag_total(letter_counts(text)) == text.len(),
        forall|l: Letter| bag_count(letter_counts(text), l) == text.to_multiset().count(l),
    decreases text.len(),
{
    broadcast use vstd::seq_lib::group_to_multiset_ensures;

    if text.len() == 0 {
        assert forall|l: Letter| bag_count(letter_counts(text), l) == text.to_multiset().count(
            l,
        ) by {
            assert(!bag_has(letter_counts(text), l));
        }
    } else {
        let rest = text.drop_last();
        lemma_letter_counts(rest);
        lemma_bag_tally(letter_counts(rest), text.last());
        assert(rest.push(text.last()) =~= text);
        assert(text.to_multiset() =~= rest.to_multiset().insert(text.last()));
    }
}

/// A bag of letters kept as a list of letters with their counts.
pub struct VecLetterBag {
    bag: Vec<(Letter, u32)>,
}

impl View for VecLetterBag {
    type V = Seq<(Letter, nat)>;

    /// The entries of the bag, in order: each letter with its count.
    closed spec fn view(&self) -> Seq<(Letter, nat)> {
        Seq::new(self.bag@.len(), |i: int| (self.bag@[i].0, self.bag@[i].1 as nat))
    }
}

impl Clone for VecLetterBag {
    fn clone(&self) -> (r: Self)
        ensures
            r@ == self@,
    {
        let mut bag: Vec<(Letter, u32)> = Vec::new();
        let mut i: usize = 0;
        while i < self.bag.len()
            invariant
                i <= self.bag@.len(),
                bag@.len() == i,
                forall|k: int| 0 <= k < i ==> bag@[k] == self.bag@[k],
            decreases self.bag@.len() - i,
        {
            let entry = self.bag[i];
            bag.push(entry);
            i += 1;
        }
        let r = VecLetterBag { bag };
        assert(r@ =~= self@);
        r
    }
}

impl VecLetterBag {
    /// No letter has two entries.
    pub open spec fn wf(&self) -> bool {
        bag_distinct(self@)
    }

    /// How many tiles of `l` the bag holds.
    pub open spec fn count(&self, l: Letter) -> nat {
        bag_count(self@, l)
    }

    /// How many tiles the bag holds in all.
    pub open spec fn total(&self) -> nat {
        bag_total(self@)
    }

    fn find_entry(&self, key: Letter) -> (r: Option<usize>)
        ensures
            match r {
                Some(i) => i < self@.len() && self@[i as int].0 == key,
                None => !bag_has(self@, key),
            },
    {
        let mut i: usize = 0;
        while i < self.bag.len()
            invariant
                i <= self.bag@.len(),
                self@.len() == self.bag@.len(),
                forall|k: int| 0 <= k < i ==> (#[trigger] self@[k]).0 != key,
            decreases self.bag@.len() - i,
        {
            if self.bag[i].0 == key {
                return Some(i);
            }
            i += 1;
        }
        None
    }

    fn decrement(&mut self, key: Letter)
        requires
            old(self).wf(),
        ensures
            final(self).wf(),
            final(self)@ == bag_decrement(old(self)@, key),
    {
        proof {
            lemma_bag_decrement(self@, key);
        }
        match self.find_entry(key) {
            None => {},
            Some(i) => {
                let (letter, value) = self.bag[i];
                proof {
                    lemma_bag_entry(self@, i as int);
                }
                if value > 0 {
                    let ghost before = self@;
                    self.bag.set(i, (letter, value - 1));
                    assert(self@ =~= bag_decrement(before, key));
                }
            },
        }
    }

    /// A new bag with one tile of `key` fewer. Where this bag holds no tile
    /// of `key`, the new bag equals this one. This bag is not changed.
    pub fn decremented(&self, key: Letter) -> (r: VecLetterBag)
        requires
            self.wf(),
        ensures
            r.wf(),
            r@ == bag_decrement(self@, key),
            r.count(key) <= self.count(key),
            self.count(key) > 0 ==> r.count(key) == self.count(key) - 1,
            self.count(key) == 0 ==> r@ == self@,
            forall|other: Letter| other != key ==> r.count(other) == self.count(other),
    {
        let mut bag = self.clone();
        bag.decrement(key);
        proof {
            lemma_bag_decrement(self@, key);
        }
        bag
    }

    /// The bag with one tile for each byte of `s`.
    pub fn from_string(s: &str) -> (r: VecLetterBag)
        requires
            text_bytes(s@).len() <= u32::MAX,
        ensures
            r.wf(),
            r@ == letter_counts(text_bytes(s@)),
            r.total() == text_bytes(s@).len(),
            forall|l: Letter| r.count(l) == text_bytes(s@).to_multiset().count(l),
    {
        VecLetterBag::from_bytes(s.as_bytes())
    }

    /// The bag with one tile for each of the given bytes.
    pub fn from_bytes(bytes: &[u8]) -> (r: VecLetterBag)
        requires
            bytes@.len() <= u32::MAX,
        ensures
            r.wf(),
            r@ == letter_counts(bytes@),
            r.total() == bytes@.len(),
            forall|l: Letter| r.count(l) == bytes@.to_multiset().count(l),
    {
        let ghost text = bytes@;
        let mut r = VecLetterBag { bag: Vec::new() };
        let mut i: usize = 0;
        proof {
            assert(text.take(0) =~= Seq::<Letter>::empty());
            assert(r@ =~= letter_counts(text.take(0)));
        }
        while i < bytes.len()
            invariant
                text == bytes@,
                text.len() <= u32::MAX,
                i <= text.len(),
                r@ == letter_counts(text.take(i as int)),
            decreases text.len() - i,
        {
            let b = bytes[i];
            let ghost before = r@;
            proof {
                lemma_letter_counts(text.take(i as int));
                assert(text.take(i + 1).drop_last() =~= text.take(i as int));
                assert(text.take(i + 1).last() == b);
            }
            match r.find_entry(b) {
                Some(k) => {
                    let (letter, value) = r.bag[k];
                    proof {
                        lemma_bag_entry(before, k as int);
                        lemma_bag_total_bounds_entry(before, k as int);
                    }
                    r.bag.set(k, (letter, value + 1));
                    assert(r@ =~= bag_tally(before, b));
                },
                None => {
                    r.bag.push((b, 1));
                    assert(r@ =~= bag_tally(before, b));
                },
            }
            i += 1;
        }
        proof {
            assert(text.take(text.len() as int) =~= text);
            lemma_letter_counts(text);
        }
        r
    }

    /// The letters of which the bag holds at least one tile, each once, in
    /// the order of the bag's entries.
    pub fn keys(&self) -> (r: Vec<Letter>)
        ensures
            r@ == bag_keys(self@),
    {
        let mut r: Vec<Letter> = Vec::new();
        let mut i: usize = 0;
        proof {
            assert(self@.take(0) =~= Seq::<(Letter, nat)>::empty());
        }
        while i < self.bag.len()
            invariant
                i <= self.bag@.len(),
                self@.len() == self.bag@.len(),
                r@ == bag_keys(self@.take(i as int)),
            decreases self.bag@.len() - i,
        {
            proof {
                assert(self@.take(i + 1).drop_last() =~= self@.take(i as int));
                assert(self@.take(i + 1).last() == self@[i as int]);
            }
            let (letter, value) = self.bag[i];
            if value > 0 {
                r.push(letter);
            }
            i += 1;
        }
        proof {
            assert(self@.take(self@.len() as int) =~= self@);
        }
        r
    }

    /// True exactly when `accept` holds of every letter of which the bag
    /// holds a tile, where `accept` is "an ASCII letter or the wildcard".
    pub fn is_playable(&self) -> (b: bool)
        ensures
            b == (forall|i: int|
                0 <= i < self@.len() && (#[trigger] self@[i]).1 > 0 ==> crate::util::is_alpha(
                    self@[i].0,
                ) || self@[i].0 == crate::util::WILDCARD_LETTER),
    {
        let mut i: usize = 0;
        while i < self.bag.len()
            invariant
                i <= self.bag@.len(),
                self@.len() == self.bag@.len(),
                forall|k: int|
                    0 <= k < i && (#[trigger] self@[k]).1 > 0 ==> crate::util::is_alpha(self@[k].0)
                        || self@[k].0 == crate::util::WILDCARD_LETTER,
            decreases self.bag@.len() - i,
        {
            let (letter, value) = self.bag[i];
            if value > 0 && !crate::util::is_letter(letter) && letter
                != crate::util::WILDCARD_LETTER {
                assert(self@[i as int].1 > 0);
                return false;
            }
            i += 1;
        }
        true
    }

    /// The number of tiles in the bag, or `limit` where it holds more than
    /// `limit` tiles.
    pub fn total_up_to(&self, limit: u32) -> (n: u32)
        ensures
            n == if self.total() <= limit {
                self.total()
            } else {
                limit as nat
            },
    {
        let mut sum: u32 = 0;
        let mut i: usize = 0;
        proof {
            assert(self@.take(0) =~= Seq::<(Letter, nat)>::empty());
        }
        while i < self.bag.len()
            invariant
                i <= self.bag@.len(),
                self@.len() == self.bag@.len(),
                sum == bag_total(self@.take(i as int)),
                sum <= limit,
            decreases self.bag@.len() - i,
        {
            proof {
                assert(self@.take(i + 1).drop_last() =~= self@.take(i as int));
                assert(self@.take(i + 1).last() == self@[i as int]);
            }
            let value = self.bag[i].1;
            if value > limit - sum {
                proof {
                    lemma_bag_total_prefix(self@, i + 1);
                }
                return limit;
            }
            sum = sum + value;
            i += 1;
        }
        proof {
            assert(self@.take(self@.len() as int) =~= self@);
        }
        sum
    }
}

/// How many tiles of `l` a bag holds that maps each of its letters to the
/// number of its tiles.
pub open spec fn map_count(m: Map<Letter, nat>, l: Letter) -> nat {
    if m.contains_key(l) {
        m[l]
    } else {
        0
    }
}

/// One more byte at the end of a text raises the count of that byte by one
/// and no other; no byte occurs more often than the text is long.
proof fn lemma_count_after_push(seen: Seq<Letter>, c: Letter)
    ensures
        seen.push(c).to_multiset().count(c) == seen.to_multiset().count(c) + 1,
        forall|l: Letter| l != c ==> seen.push(c).to_multiset().count(l) == seen.to_multiset().count(l),
        seen.to_multiset().count(c) <= seen.len(),
{
    broadcast use vstd::seq_lib::group_to_multiset_ensures;

    assert(seen.push(c).to_multiset() =~= seen.to_multiset().insert(c));
    assert(seen.to_multiset().len() == seen.len());
    vstd::multiset::axiom_count_le_len(seen.to_multiset(), c);
}

/// A bag of letters kept as a hash map from each letter it holds to the
/// number of its tiles. Its letters come in no particular order.
pub struct HashLetterBag {
    bag: HashMap<Letter, u32>,
}

impl View for HashLetterBag {
    type V = Map<Letter, nat>;

    /// For each letter that the bag holds, the number of its tiles.
    closed spec fn view(&self) -> Map<Letter, nat> {
        Map::new(|l: Letter| self.bag@.contains_key(l), |l: Letter| self.bag@[l] as nat)
    }
}

impl Clone for HashLetterBag {
    fn clone(&self) -> (r: Self)
        ensures
            r@ == self@,
    {
        let r = HashLetterBag { bag: self.bag.clone() };
        assert(r@ =~= self@);
        r
    }
}

impl HashLetterBag {
    /// Every letter in the map has at least one tile.
    pub open spec fn wf(&self) -> bool {
        forall|l: Letter| self@.contains_key(l) ==> #[trigger] self@[l] > 0
    }

    /// How many tiles of `l` the bag holds.
    pub open spec fn count(&self, l: Letter) -> nat {
        map_count(self@, l)
    }

    fn decrement(&mut self, key: Letter)
        requires
            old(self).wf(),
        ensures
            final(self).wf(),
            final(self).count(key) == if old(self).count(key) > 0 {
                (old(self).count(key) - 1) as nat
            } else {
                0nat
            },
            forall|other: Letter| other != key ==> final(self).count(other) == old(self).count(other),
    {
        broadcast use vstd::std_specs::hash::group_hash_axioms;

        let ghost before = self@;
        let found = match self.bag.get(&key) {
            None => None,
            Some(i) => Some(*i),
        };
        match found {
            None => {},
            Some(i) => {
                assert(before.contains_key(key) && before[key] == i);
                if i > 1 {
                    self.bag.insert(key, i - 1);
                } else {
                    self.bag.remove(&key);
                }
                assert forall|other: Letter| other != key implies self.count(other) == map_count(
                    before,
                    other,
                ) by {}
                assert forall|l: Letter| self@.contains_key(l) implies #[trigger] self@[l] > 0 by {
                    if l != key {
                        assert(before.contains_key(l));
                        assert(before[l] > 0);
                    }
                }
            },
        }
    }

    /// A new bag with one tile of `key` fewer. Where this bag holds no tile
    /// of `key`, the new bag holds what this one holds. This bag is not
    /// changed.
    pub fn decremented(&self, key: Letter) -> (r: HashLetterBag)
        requires
            self.wf(),
        ensures
            r.wf(),
            r.count(key) <= self.count(key),
            self.count(key) > 0 ==> r.count(key) == self.count(key) - 1,
            self.count(key) == 0 ==> r.count(key) == 0,
            forall|other: Letter| other != key ==> r.count(other) == self.count(other),
    {
        let mut bag = self.clone();
        bag.decrement(key);
        bag
    }

    /// The empty bag.
    pub fn new() -> (r: HashLetterBag)
        ensures
            r.wf(),
            r@ == Map::<Letter, nat>::empty(),
    {
        let r = HashLetterBag { bag: HashMap::new() };
        assert(r@ =~= Map::<Letter, nat>::empty());
        r
    }

    /// The bag with one tile for each byte of `s`.
    pub fn from_string(s: &str) -> (r: HashLetterBag)
        requires
            text_bytes(s@).len() <= u32::MAX,
        ensures
            r.wf(),
            forall|l: Letter| r.count(l) == text_bytes(s@).to_multiset().count(l),
    {
        broadcast use vstd::std_specs::hash::group_hash_axioms;

        let bytes = s.as_bytes();
        let ghost text = bytes@;
        let mut lb = HashLetterBag::new();
        let mut i: usize = 0;
        proof {
            assert(text.take(0) =~= Seq::<Letter>::empty());
            assert forall|l: Letter| #[trigger]
                map_count(lb@, l) == text.take(0).to_multiset().count(l) by {
                broadcast use vstd::seq_lib::group_to_multiset_ensures;

            }
        }
        while i < bytes.len()
            invariant
                text == bytes@,
                text.len() <= u32::MAX,
                i <= text.len(),
                lb.wf(),
                forall|l: Letter|
                    #[trigger] map_count(lb@, l) == text.take(i as int).to_multiset().count(l),
            decreases text.len() - i,
        {
            let c = bytes[i];
            let ghost before = lb@;
            proof {
                let seen = text.take(i as int);
                assert(seen.push(c) =~= text.take(i + 1));
                lemma_count_after_push(seen, c);
                assert(map_count(before, c) == seen.to_multiset().count(c));
            }
            let found = match lb.bag.get(&c) {
                None => None,
                Some(n) => Some(*n),
            };
            match found {
                None => {
                    lb.bag.insert(c, 1);
                },
                Some(n) => {
                    assert(before.contains_key(c) && before[c] == n);
                    lb.bag.insert(c, n + 1);
                },
            }
            proof {
                assert forall|l: Letter| #[trigger]
                    map_count(lb@, l) == text.take(i + 1).to_multiset().count(l) by {
                    assert(map_count(before, l) == text.take(i as int).to_multiset().count(l));
                    if l != c {
                        assert(map_count(lb@, l) == map_count(before, l));
                    }
                }
                assert forall|l: Letter| lb@.contains_key(l) implies #[trigger] lb@[l] > 0 by {
                    if l != c {
                        assert(before.contains_key(l));
                        assert(before[l] > 0);
                    }
                }
            }
            i += 1;
        }
        proof {
            assert(text.take(text.len() as int) =~= text);
        }
        lb
    }

    /// The letters that the bag holds, each once, in no particular order.
    pub fn keys(&self) -> (r: Vec<Letter>)
        ensures
            r@.no_duplicates(),
            r@.to_set() == self@.dom(),
    {
        broadcast use vstd::std_specs::hash::group_hash_axioms;

        let mut r: Vec<Letter> = Vec::new();
        let it = self.bag.keys();
        let ghost all = it.remaining().unref();
        proof {
            assert(all.to_set() == self.bag@.dom());
            assert(it.remaining().no_duplicates());
        }
        for key in iter: it
            invariant
                r@.len() == iter.index(),
                forall|k: int| 0 <= k < r@.len() ==> r@[k] == *iter.seq()[k],
        {
            r.push(*key);
        }
        proof {
            assert(r@ =~= all);
            assert(self@.dom() =~= self.bag@.dom());
        }
        r
    }
}

/// The tiles of the first entries of a bag are no more than all its tiles.
pub proof fn lemma_bag_total_prefix(m: Seq<(Letter, nat)>, k: int)
    requires
        0 <= k <= m.len(),
    ensures
        bag_total(m.take(k)) <= bag_total(m),
    decreases m.len(),
{
    if k == m.len() {
        assert(m.take(k) =~= m);
    } else {
        lemma_bag_total_prefix(m.drop_last(), k);
        assert(m.drop_last().take(k) =~= m.take(k));
    }
}

} // verus!
