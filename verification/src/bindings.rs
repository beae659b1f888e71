//! Variable bindings produced by matching: an association list with a
//! mathematical map view, supporting the matcher's bind / unbind discipline.

use vstd::prelude::*;

verus! {

/// An association list from variable names to values, with unique keys.
/// The matcher pushes a tentative binding, and pops it again when the
/// branch it explored fails.
pub struct AssocVec<V> {
    pub entries: Vec<(String, V)>,
}

/// The map described by an entry sequence; later entries shadow earlier
/// ones, though well-formed lists never repeat a key.
pub open spec fn map_of<V: DeepView>(s: Seq<(String, V)>) -> Map<Seq<char>, V::V>
    decreases s.len(),
{
    if s.len() == 0 {
        Map::empty()
    } else {
        map_of(s.drop_last()).insert(s.last().0@, s.last().1.deep_view())
    }
}

/// No key occurs twice.
pub open spec fn unique_keys<V>(s: Seq<(String, V)>) -> bool {
    forall|i: int, j: int| 0 <= i < j < s.len() ==> s[i].0@ != s[j].0@
}

pub proof fn lemma_map_of_contains<V: DeepView>(s: Seq<(String, V)>, k: Seq<char>)
    ensures
        map_of(s).contains_key(k) <==> exists|i: int| 0 <= i < s.len() && s[i].0@ == k,
    decreases s.len(),
{
    if s.len() > 0 {
        lemma_map_of_contains(s.drop_last(), k);
        if map_of(s).contains_key(k) {
            if s.last().0@ != k {
                let i = choose|i: int| 0 <= i < s.drop_last().len() && s.drop_last()[i].0@ == k;
                assert(s[i].0@ == k);
            }
        } else {
            assert(forall|i: int|
                0 <= i < s.len() - 1 ==> s.drop_last()[i] == s[i]);
        }
    }
}

pub proof fn lemma_map_of_value<V: DeepView>(s: Seq<(String, V)>, i: int)
    requires
        unique_keys(s),
        0 <= i < s.len(),
    ensures
        map_of(s).contains_key(s[i].0@),
        map_of(s)[s[i].0@] == s[i].1.deep_view(),
    decreases s.len(),
{
    if i == s.len() - 1 {
    } else {
        assert(forall|j: int| 0 <= j < s.len() - 1 ==> s.drop_last()[j] == s[j]);
        lemma_map_of_value(s.drop_last(), i);
        assert(s[i].0@ != s.last().0@);
    }
}

pub proof fn lemma_map_of_push<V: DeepView>(s: Seq<(String, V)>, k: String, v: V)
    ensures
        map_of(s.push((k, v))) == map_of(s).insert(k@, v.deep_view()),
{
    assert(s.push((k, v)).drop_last() =~= s);
}

pub proof fn lemma_map_of_pop<V: DeepView>(s: Seq<(String, V)>)
    requires
        unique_keys(s),
        s.len() > 0,
    ensures
        map_of(s.drop_last()) == map_of(s).remove(s.last().0@),
        !map_of(s.drop_last()).contains_key(s.last().0@),
{
    lemma_map_of_contains(s.drop_last(), s.last().0@);
    if map_of(s.drop_last()).contains_key(s.last().0@) {
        let i = choose|i: int|
            0 <= i < s.drop_last().len() && s.drop_last()[i].0@ == s.last().0@;
        assert(s[i].0@ == s.last().0@);
        assert(false);
    }
    assert(map_of(s).remove(s.last().0@) =~= map_of(s.drop_last()));
}

impl<V: DeepView> View for AssocVec<V> {
    type V = Map<Seq<char>, <V as DeepView>::V>;

    open spec fn view(&self) -> Map<Seq<char>, <V as DeepView>::V> {
        map_of(self.entries@)
    }
}

impl<V: DeepView> AssocVec<V> {
    /// Keys are pairwise distinct.
    pub open spec fn wf(&self) -> bool {
        unique_keys(self.entries@)
    }

    pub fn new() -> (r: Self)
        ensures
            r.wf(),
            r@ == Map::<Seq<char>, <V as DeepView>::V>::empty(),
            r.entries@.len() == 0,
    {
        AssocVec { entries: Vec::new() }
    }

    /// Looks a name up.
    pub fn get(&self, k: &String) -> (r: Option<&V>)
        requires
            self.wf(),
        ensures
            match r {
                Some(v) => self@.contains_key(k@) && v.deep_view() == self@[k@],
                None => !self@.contains_key(k@),
            },
    {
        let mut i: usize = 0;
        while i < self.entries.len()
            invariant
                self.wf(),
                i <= self.entries.len(),
                forall|j: int| 0 <= j < i ==> self.entries@[j].0@ != k@,
            decreases self.entries.len() - i,
        {
            if crate::chars::str_eq(&self.entries[i].0, k) {
                proof {
                    lemma_map_of_value(self.entries@, i as int);
                }
                return Some(&self.entries[i].1);
            }
            i = i + 1;
        }
        proof {
            lemma_map_of_contains(self.entries@, k@);
        }
        None
    }

    /// Binds a name that is not yet bound.
    pub fn push(&mut self, k: String, v: V)
        requires
            old(self).wf(),
            !old(self)@.contains_key(k@),
        ensures
            final(self).wf(),
            final(self)@ == old(self)@.insert(k@, v.deep_view()),
            final(self).entries@ == old(self).entries@.push((k, v)),
    {
        proof {
            lemma_map_of_contains(self.entries@, k@);
            lemma_map_of_push(self.entries@, k, v);
        }
        self.entries.push((k, v));
    }

    /// Takes the most recent binding back out.
    pub fn pop(&mut self)
        requires
            old(self).wf(),
            old(self).entries@.len() > 0,
        ensures
            final(self).wf(),
            final(self).entries@ == old(self).entries@.drop_last(),
            final(self)@ == old(self)@.remove(old(self).entries@.last().0@),
    {
        proof {
            lemma_map_of_pop(self.entries@);
        }
        let _ = self.entries.pop();
    }

    /// How many bindings are held.
    pub fn len(&self) -> (r: usize)
        ensures
            r == self.entries@.len(),
    {
        self.entries.len()
    }
}

} // verus!
