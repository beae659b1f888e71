//! An ordered set of strings: the domains and reserved-literal sets of a
//! structure. Elements are kept strictly sorted, so iteration order is
//! the sorted order and is reproducible.

use vstd::prelude::*;

use crate::chars::str_eq;
use crate::token::{chars_lt, lemma_chars_lt_trichotomy, str_lt};

verus! {

/// Strictly ascending under the character order: sorted, no duplicates.
pub open spec fn sorted_strict(s: Seq<Seq<char>>) -> bool {
    forall|i: int, j: int| 0 <= i < j < s.len() ==> chars_lt(s[i], s[j])
}

/// Whether `x` occurs in `s`.
pub open spec fn seq_has(s: Seq<Seq<char>>, x: Seq<char>) -> bool {
    exists|i: int| 0 <= i < s.len() && s[i] == x
}

/// Where a new element lands in a sorted sequence: before the first
/// element it does not exceed, swallowed if that element equals it.
pub open spec fn set_insert(s: Seq<Seq<char>>, x: Seq<char>) -> Seq<Seq<char>>
    decreases s.len(),
{
    if s.len() == 0 {
        seq![x]
    } else if chars_lt(s[0], x) {
        seq![s[0]] + set_insert(s.drop_first(), x)
    } else if s[0] == x {
        s
    } else {
        seq![x] + s
    }
}

/// Inserting one element of `b` after another into `a`, left to right.
pub open spec fn seq_union(a: Seq<Seq<char>>, b: Seq<Seq<char>>) -> Seq<Seq<char>>
    decreases b.len(),
{
    if b.len() == 0 {
        a
    } else {
        seq_union(set_insert(a, b[0]), b.drop_first())
    }
}

/// What `set_insert` holds: the old elements and the new one.
pub proof fn lemma_set_insert_has(s: Seq<Seq<char>>, x: Seq<char>, y: Seq<char>)
    ensures
        seq_has(set_insert(s, x), y) <==> (seq_has(s, y) || y == x),
    decreases s.len(),
{
    if s.len() == 0 {
        assert(set_insert(s, x)[0] == x);
    } else if chars_lt(s[0], x) {
        lemma_set_insert_has(s.drop_first(), x, y);
        let r = seq![s[0]] + set_insert(s.drop_first(), x);
        if seq_has(r, y) {
            let i = choose|i: int| 0 <= i < r.len() && r[i] == y;
            if i == 0 {
                assert(s[0] == y);
            } else {
                assert(set_insert(s.drop_first(), x)[i - 1] == y);
            }
            if seq_has(s.drop_first(), y) {
                let j = choose|j: int| 0 <= j < s.drop_first().len() && s.drop_first()[j] == y;
                assert(s[j + 1] == y);
            }
        }
        if seq_has(s, y) {
            let i = choose|i: int| 0 <= i < s.len() && s[i] == y;
            if i == 0 {
                assert(r[0] == y);
            } else {
                assert(s.drop_first()[i - 1] == y);
                assert(seq_has(set_insert(s.drop_first(), x), y));
                let j = choose|j: int|
                    0 <= j < set_insert(s.drop_first(), x).len() && set_insert(
                        s.drop_first(),
                        x,
                    )[j] == y;
                assert(r[j + 1] == y);
            }
        }
        if y == x {
            assert(seq_has(set_insert(s.drop_first(), x), y));
            let j = choose|j: int|
                0 <= j < set_insert(s.drop_first(), x).len() && set_insert(s.drop_first(), x)[j]
                    == y;
            assert(r[j + 1] == y);
        }
    } else if s[0] == x {
    } else {
        let r = seq![x] + s;
        assert(r[0] == x);
        if seq_has(s, y) {
            let i = choose|i: int| 0 <= i < s.len() && s[i] == y;
            assert(r[i + 1] == y);
        }
        if seq_has(r, y) && y != x {
            let i = choose|i: int| 0 <= i < r.len() && r[i] == y;
            assert(i > 0);
            assert(s[i - 1] == y);
        }
    }
}

/// `set_insert` keeps the sequence strictly sorted.
pub proof fn lemma_set_insert_sorted(s: Seq<Seq<char>>, x: Seq<char>)
    requires
        sorted_strict(s),
    ensures
        sorted_strict(set_insert(s, x)),
    decreases s.len(),
{
    if s.len() == 0 {
    } else if chars_lt(s[0], x) {
        assert(sorted_strict(s.drop_first())) by {
            assert(forall|i: int|
                0 <= i < s.drop_first().len() ==> s.drop_first()[i] == s[i + 1]);
        }
        lemma_set_insert_sorted(s.drop_first(), x);
        let rest = set_insert(s.drop_first(), x);
        let r = seq![s[0]] + rest;
        assert forall|i: int, j: int| 0 <= i < j < r.len() implies chars_lt(r[i], r[j]) by {
            if i == 0 {
                assert(r[j] == rest[j - 1]);
                lemma_set_insert_has(s.drop_first(), x, rest[j - 1]);
                if rest[j - 1] == x {
                } else {
                    let k = choose|k: int|
                        0 <= k < s.drop_first().len() && s.drop_first()[k] == rest[j - 1];
                    assert(s[k + 1] == rest[j - 1]);
                    assert(chars_lt(s[0], s[k + 1]));
                }
            } else {
                assert(r[i] == rest[i - 1] && r[j] == rest[j - 1]);
            }
        }
    } else if s[0] == x {
    } else {
        lemma_chars_lt_trichotomy(s[0], x);
        assert(chars_lt(x, s[0]));
        let r = seq![x] + s;
        assert forall|i: int, j: int| 0 <= i < j < r.len() implies chars_lt(r[i], r[j]) by {
            if i == 0 {
                assert(r[j] == s[j - 1]);
                if j > 1 {
                    crate::token::lemma_chars_lt_trans(x, s[0], s[j - 1]);
                }
            } else {
                assert(r[i] == s[i - 1] && r[j] == s[j - 1]);
            }
        }
    }
}

/// What a union holds: the elements of both sides.
pub proof fn lemma_seq_union_has(a: Seq<Seq<char>>, b: Seq<Seq<char>>, y: Seq<char>)
    ensures
        seq_has(seq_union(a, b), y) <==> (seq_has(a, y) || seq_has(b, y)),
    decreases b.len(),
{
    if b.len() == 0 {
    } else {
        lemma_seq_union_has(set_insert(a, b[0]), b.drop_first(), y);
        lemma_set_insert_has(a, b[0], y);
        if seq_has(b, y) {
            let i = choose|i: int| 0 <= i < b.len() && b[i] == y;
            if i > 0 {
                assert(b.drop_first()[i - 1] == y);
            }
        }
        if seq_has(b.drop_first(), y) {
            let i = choose|i: int| 0 <= i < b.drop_first().len() && b.drop_first()[i] == y;
            assert(b[i + 1] == y);
        }
        if y == b[0] {
            assert(seq_has(b, y)) by {
                assert(b[0] == y);
            }
        }
    }
}

/// A union of sorted sequences is sorted.
pub proof fn lemma_seq_union_sorted(a: Seq<Seq<char>>, b: Seq<Seq<char>>)
    requires
        sorted_strict(a),
    ensures
        sorted_strict(seq_union(a, b)),
    decreases b.len(),
{
    if b.len() == 0 {
    } else {
        lemma_set_insert_sorted(a, b[0]);
        lemma_seq_union_sorted(set_insert(a, b[0]), b.drop_first());
    }
}

/// An ordered set of strings.
pub struct StrSet {
    items: Vec<String>,
}

impl View for StrSet {
    type V = Seq<Seq<char>>;

    closed spec fn view(&self) -> Seq<Seq<char>> {
        self.items.deep_view()
    }
}

impl Clone for StrSet {
    fn clone(&self) -> (r: Self)
        ensures
            r@ == self@,
    {
        let items = self.items.clone();
        proof {
            assert(items.deep_view() =~= self.items.deep_view());
        }
        StrSet { items }
    }
}

impl StrSet {
    /// Elements stand in strictly ascending order.
    pub open spec fn wf(&self) -> bool {
        sorted_strict(self@)
    }

    /// Whether the set holds `x`.
    pub open spec fn spec_has(&self, x: Seq<char>) -> bool {
        seq_has(self@, x)
    }

    pub fn new() -> (r: Self)
        ensures
            r.wf(),
            r@ == Seq::<Seq<char>>::empty(),
    {
        StrSet { items: Vec::new() }
    }

    /// Wraps a vector whose elements already stand in ascending order.
    pub fn from_sorted(items: Vec<String>) -> (r: Self)
        requires
            sorted_strict(items.deep_view()),
        ensures
            r.wf(),
            r@ == items.deep_view(),
    {
        StrSet { items }
    }

    pub fn len(&self) -> (r: usize)
        ensures
            r == self@.len(),
    {
        self.items.len()
    }

    /// The element at a position of the sorted order.
    pub fn get(&self, i: usize) -> (r: &String)
        requires
            i < self@.len(),
        ensures
            r@ == self@[i as int],
    {
        &self.items[i]
    }

    /// Whether the set holds the string.
    pub fn contains(&self, x: &String) -> (r: bool)
        ensures
            r == self.spec_has(x@),
    {
        let mut i: usize = 0;
        while i < self.items.len()
            invariant
                i <= self@.len(),
                forall|j: int| 0 <= j < i ==> self@[j] != x@,
            decreases self@.len() - i,
        {
            if str_eq(&self.items[i], x) {
                proof {
                    assert(self@[i as int] == x@);
                }
                return true;
            }
            i = i + 1;
        }
        false
    }

    /// Puts a string into the set, keeping the order; nothing changes when
    /// it is already there.
    pub fn insert(&mut self, x: String)
        requires
            old(self).wf(),
        ensures
            final(self).wf(),
            final(self)@ == set_insert(old(self)@, x@),
    {
        let ghost orig = old(self)@;
        let mut i: usize = 0;
        proof {
            assert(orig.skip(0) =~= orig);
            assert(orig.take(0) + set_insert(orig.skip(0), x@) =~= set_insert(orig, x@));
        }
        while i < self.items.len()
            invariant
                orig == old(self)@,
                self@ == orig,
                self.wf(),
                i <= self@.len(),
                forall|j: int| 0 <= j < i ==> chars_lt(self@[j], x@),
                set_insert(orig, x@) == orig.take(i as int) + set_insert(
                    orig.skip(i as int),
                    x@,
                ),
            decreases self@.len() - i,
        {
            let ghost rest = orig.skip(i as int);
            proof {
                assert(rest[0] == orig[i as int]);
                assert(rest.drop_first() =~= orig.skip(i + 1));
            }
            if str_eq(&self.items[i], &x) {
                proof {
                    lemma_chars_lt_trichotomy(rest[0], x@);
                    assert(set_insert(rest, x@) == rest);
                    assert(orig.take(i as int) + orig.skip(i as int) =~= orig);
                    assert(set_insert(orig, x@) == orig);
                    lemma_set_insert_sorted(orig, x@);
                }
                return ;
            }
            if !str_lt(&self.items[i], &x) {
                proof {
                    lemma_chars_lt_trichotomy(orig[i as int], x@);
                    assert(set_insert(rest, x@) == seq![x@] + rest);
                }
                self.items.insert(i, x);
                proof {
                    assert(self.items.deep_view() =~= orig.take(i as int) + (seq![x@]
                        + orig.skip(i as int)));
                    assert(orig.take(i as int) + (seq![x@] + orig.skip(i as int)) =~= orig.take(
                        i as int,
                    ) + set_insert(orig.skip(i as int), x@));
                    lemma_set_insert_sorted(orig, x@);
                }
                return ;
            }
            proof {
                assert(chars_lt(orig[i as int], x@));
                assert(set_insert(rest, x@) == seq![rest[0]] + set_insert(rest.drop_first(), x@));
                assert(orig.take(i + 1) =~= orig.take(i as int) + seq![orig[i as int]]);
                assert(orig.take(i as int) + (seq![rest[0]] + set_insert(rest.drop_first(), x@))
                    =~= orig.take(i + 1) + set_insert(orig.skip(i + 1), x@));
            }
            i = i + 1;
        }
        proof {
            assert(orig.skip(i as int).len() == 0);
            assert(set_insert(orig.skip(i as int), x@) == seq![x@]);
            lemma_set_insert_sorted(orig, x@);
        }
        self.items.push(x);
        proof {
            assert(self.items.deep_view() =~= orig.take(orig.len() as int) + seq![x@]);
            assert(orig.take(orig.len() as int) =~= orig);
        }
    }

    /// Adds every element of `other`, in its order.
    pub fn add_all(&mut self, other: &StrSet)
        requires
            old(self).wf(),
        ensures
            final(self).wf(),
            final(self)@ == seq_union(old(self)@, other@),
    {
        let ghost a0 = self@;
        let ghost b = other@;
        let mut i: usize = 0;
        proof {
            assert(b.skip(0) =~= b);
        }
        while i < other.len()
            invariant
                self.wf(),
                i <= b.len(),
                b == other@,
                seq_union(a0, b) == seq_union(self@, b.skip(i as int)),
            decreases b.len() - i,
        {
            let ghost rest = b.skip(i as int);
            proof {
                assert(rest[0] == b[i as int]);
                assert(rest.drop_first() =~= b.skip(i + 1));
            }
            let s = other.get(i).clone();
            self.insert(s);
            i = i + 1;
        }
        proof {
            assert(b.skip(b.len() as int).len() == 0);
        }
    }
}

} // verus!
