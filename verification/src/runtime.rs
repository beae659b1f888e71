//! The runtime: a mapping from structure names to structures, kept in
//! ascending name order, always holding at least the intrinsic structure.
//! Its views for parsing and evaluation are the union of all domains, the
//! union of all reserved sets, and the concatenation of all definitions
//! in name order.

use vstd::prelude::*;

use crate::definition::{Definition, DefinitionView};
use crate::eval::{
    expr_in, lemma_closed_holds_reachable, lemma_search_state_stationary, no_dups, reachable,
    search_state, smallest_of, Search,
};
use crate::token::{expr_le, Expression, TokenView};
use crate::strset::{
    lemma_seq_union_sorted, seq_union, sorted_strict, StrSet,
};
use crate::structure::{Structure, StructureView};
use crate::token::chars_lt;

verus! {

/// Names of an entry sequence, in order.
pub open spec fn entry_names(s: Seq<(Seq<char>, StructureView)>) -> Seq<Seq<char>> {
    Seq::new(s.len(), |i: int| s[i].0)
}

/// A name occurs among the entries.
pub open spec fn entries_have(s: Seq<(Seq<char>, StructureView)>, n: Seq<char>) -> bool {
    exists|i: int| 0 <= i < s.len() && s[i].0 == n
}

/// The structure an entry sequence maps a name to.
pub open spec fn entries_get(s: Seq<(Seq<char>, StructureView)>, n: Seq<char>) -> StructureView {
    s[choose|i: int| 0 <= i < s.len() && s[i].0 == n].1
}

/// Where a named structure lands among sorted entries: before the first
/// name it does not exceed, replacing it when the names are equal.
pub open spec fn entries_insert(
    s: Seq<(Seq<char>, StructureView)>,
    n: Seq<char>,
    v: StructureView,
) -> Seq<(Seq<char>, StructureView)>
    decreases s.len(),
{
    if s.len() == 0 {
        seq![(n, v)]
    } else if chars_lt(s[0].0, n) {
        seq![s[0]] + entries_insert(s.drop_first(), n, v)
    } else if s[0].0 == n {
        seq![(n, v)] + s.drop_first()
    } else {
        seq![(n, v)] + s
    }
}

/// The union of all domains of the entries, accumulated in name order.
pub open spec fn entries_domain(s: Seq<(Seq<char>, StructureView)>) -> Seq<Seq<char>>
    decreases s.len(),
{
    if s.len() == 0 {
        Seq::empty()
    } else {
        seq_union(entries_domain(s.drop_last()), s.last().1.domain)
    }
}

/// The union of all reserved sets of the entries, in name order.
pub open spec fn entries_reserved(s: Seq<(Seq<char>, StructureView)>) -> Seq<Seq<char>>
    decreases s.len(),
{
    if s.len() == 0 {
        Seq::empty()
    } else {
        seq_union(entries_reserved(s.drop_last()), s.last().1.reserved)
    }
}

/// All definitions of the entries, concatenated in name order.
pub open spec fn entries_definitions(s: Seq<(Seq<char>, StructureView)>) -> Seq<DefinitionView>
    decreases s.len(),
{
    if s.len() == 0 {
        Seq::empty()
    } else {
        entries_definitions(s.drop_last()) + s.last().1.definitions
    }
}

/// The named collection of structures a program was loaded into.
pub struct Runtime {
    entries: Vec<(String, Structure)>,
}

impl View for Runtime {
    type V = Seq<(Seq<char>, StructureView)>;

    closed spec fn view(&self) -> Seq<(Seq<char>, StructureView)> {
        self.entries.deep_view()
    }
}

impl Clone for Runtime {
    fn clone(&self) -> (r: Self)
        ensures
            r@ == self@,
    {
        let mut entries: Vec<(String, Structure)> = Vec::new();
        let mut i: usize = 0;
        while i < self.entries.len()
            invariant
                i <= self@.len(),
                entries.deep_view() =~= self@.take(i as int),
            decreases self@.len() - i,
        {
            let ghost before = entries.deep_view();
            let name = self.entries[i].0.clone();
            let structure = self.entries[i].1.clone();
            entries.push((name, structure));
            proof {
                assert(entries.deep_view() =~= before.push(self@[i as int]));
                assert(self@.take(i + 1) =~= self@.take(i as int).push(self@[i as int]));
            }
            i = i + 1;
        }
        proof {
            assert(self@.take(self@.len() as int) =~= self@);
            assert(entries.deep_view() =~= self@);
        }
        Runtime { entries }
    }
}

impl Runtime {
    /// Entry names stand in strictly ascending order and every structure
    /// keeps its invariant.
    pub open spec fn wf(&self) -> bool {
        &&& sorted_strict(entry_names(self@))
        &&& forall|i: int| 0 <= i < self@.len() ==> (#[trigger] self@[i].1).wf()
    }

    /// A runtime with no structures at all.
    pub fn new() -> (r: Self)
        ensures
            r.wf(),
            r@ == Seq::<(Seq<char>, StructureView)>::empty(),
    {
        Runtime { entries: Vec::new() }
    }

    /// How many structures are held.
    pub fn len(&self) -> (r: usize)
        ensures
            r == self@.len(),
    {
        self.entries.len()
    }

    /// The entry at a position of the name order.
    pub fn get_at(&self, i: usize) -> (r: (&String, &Structure))
        requires
            i < self@.len(),
        ensures
            r.0@ == self@[i as int].0,
            r.1@ == self@[i as int].1,
    {
        let entry = &self.entries[i];
        (&entry.0, &entry.1)
    }

    /// Whether a structure of this name is held.
    pub fn contains(&self, name: &String) -> (r: bool)
        ensures
            r == entries_have(self@, name@),
    {
        let mut i: usize = 0;
        while i < self.entries.len()
            invariant
                i <= self@.len(),
                forall|j: int| 0 <= j < i ==> self@[j].0 != name@,
            decreases self@.len() - i,
        {
            if crate::chars::str_eq(&self.entries[i].0, name) {
                proof {
                    assert(self@[i as int].0 == name@);
                }
                return true;
            }
            i = i + 1;
        }
        false
    }

    /// The structure of this name, if one is held.
    pub fn get(&self, name: &String) -> (r: Option<&Structure>)
        requires
            self.wf(),
        ensures
            match r {
                Some(s) => entries_have(self@, name@) && s@ == entries_get(self@, name@),
                None => !entries_have(self@, name@),
            },
    {
        let mut i: usize = 0;
        while i < self.entries.len()
            invariant
                self.wf(),
                i <= self@.len(),
                forall|j: int| 0 <= j < i ==> self@[j].0 != name@,
            decreases self@.len() - i,
        {
            if crate::chars::str_eq(&self.entries[i].0, name) {
                proof {
                    assert(self@[i as int].0 == name@);
                    let w = choose|w: int| 0 <= w < self@.len() && self@[w].0 == name@;
                    if w != i {
                        assert(sorted_strict(entry_names(self@)) ==> false) by {
                            if sorted_strict(entry_names(self@)) {
                                assert(entry_names(self@)[w] == self@[w].0);
                                assert(entry_names(self@)[i as int] == self@[i as int].0);
                                if w < i {
                                    assert(chars_lt(entry_names(self@)[w], entry_names(
                                        self@,
                                    )[i as int]));
                                } else {
                                    assert(chars_lt(entry_names(self@)[i as int], entry_names(
                                        self@,
                                    )[w]));
                                }
                                crate::token::lemma_chars_lt_trichotomy(self@[w].0, name@);
                            }
                        }
                    }
                }
                return Some(&self.entries[i].1);
            }
            i = i + 1;
        }
        None
    }

    /// Puts a structure in under a name, keeping the name order; hands
    /// back the structure that name held before, if any.
    pub fn insert(&mut self, name: String, structure: Structure) -> (r: Option<Structure>)
        requires
            old(self).wf(),
            structure@.wf(),
        ensures
            final(self).wf(),
            final(self)@ == entries_insert(old(self)@, name@, structure@),
            match r {
                Some(prev) => entries_have(old(self)@, name@) && prev@ == entries_get(
                    old(self)@,
                    name@,
                ),
                None => !entries_have(old(self)@, name@),
            },
    {
        proof {
            lemma_entries_insert_wf(old(self)@, name@, structure@);
        }
        let ghost orig = old(self)@;
        let mut i: usize = 0;
        proof {
            assert(orig.skip(0) =~= orig);
            assert(orig.take(0) + entries_insert(orig.skip(0), name@, structure@)
                =~= entries_insert(orig, name@, structure@));
        }
        while i < self.entries.len()
            invariant
                old(self).wf(),
                structure@.wf(),
                orig == old(self)@,
                self@ == orig,
                i <= orig.len(),
                forall|j: int| 0 <= j < i ==> chars_lt(orig[j].0, name@),
                entries_insert(orig, name@, structure@) == orig.take(i as int) + entries_insert(
                    orig.skip(i as int),
                    name@,
                    structure@,
                ),
            decreases orig.len() - i,
        {
            let ghost rest = orig.skip(i as int);
            proof {
                assert(rest[0] == orig[i as int]);
                assert(rest.drop_first() =~= orig.skip(i + 1));
            }
            if crate::chars::str_eq(&self.entries[i].0, &name) {
                proof {
                    lemma_entries_insert_wf(orig, name@, structure@);
                    crate::token::lemma_chars_lt_trichotomy(rest[0].0, name@);
                    assert(entries_insert(rest, name@, structure@) == seq![(name@, structure@)]
                        + rest.drop_first());
                }
                let mut entry = (name, structure);
                core::mem::swap(&mut self.entries[i], &mut entry);
                proof {
                    assert(self@ =~= orig.take(i as int) + (seq![(name@, structure@)]
                        + orig.skip(i + 1)));
                    assert(orig.take(i as int) + (seq![(name@, structure@)] + orig.skip(i + 1))
                        =~= orig.take(i as int) + entries_insert(rest, name@, structure@));
                    assert(entry.1@ == entries_get(orig, name@)) by {
                        let w = choose|w: int| 0 <= w < orig.len() && orig[w].0 == name@;
                        entries_distinct_names(orig, w, i as int);
                    }
                }
                return Some(entry.1);
            }
            if !crate::token::str_lt(&self.entries[i].0, &name) {
                proof {
                    lemma_entries_insert_wf(orig, name@, structure@);
                    crate::token::lemma_chars_lt_trichotomy(rest[0].0, name@);
                    assert(entries_insert(rest, name@, structure@) == seq![(name@, structure@)]
                        + rest);
                }
                self.entries.insert(i, (name, structure));
                proof {
                    assert(self@ =~= orig.take(i as int) + (seq![(name@, structure@)]
                        + orig.skip(i as int)));
                    assert(orig.take(i as int) + (seq![(name@, structure@)] + orig.skip(i as int))
                        =~= orig.take(i as int) + entries_insert(rest, name@, structure@));
                    entries_no_match(orig, i as int, name@);
                }
                return None;
            }
            proof {
                assert(chars_lt(orig[i as int].0, name@));
                assert(entries_insert(rest, name@, structure@) == seq![rest[0]] + entries_insert(
                    rest.drop_first(),
                    name@,
                    structure@,
                ));
                assert(orig.take(i + 1) =~= orig.take(i as int) + seq![orig[i as int]]);
                assert(orig.take(i as int) + (seq![rest[0]] + entries_insert(
                    rest.drop_first(),
                    name@,
                    structure@,
                )) =~= orig.take(i + 1) + entries_insert(orig.skip(i + 1), name@, structure@));
            }
            i = i + 1;
        }
        proof {
            assert(orig.skip(i as int).len() == 0);
            assert(entries_insert(orig.skip(i as int), name@, structure@) == seq![
                (name@, structure@),
            ]);
            assert(!entries_have(orig, name@)) by {
                if entries_have(orig, name@) {
                    let w = choose|w: int| 0 <= w < orig.len() && orig[w].0 == name@;
                    crate::token::lemma_chars_lt_trichotomy(orig[w].0, name@);
                }
            }
        }
        self.entries.push((name, structure));
        proof {
            assert(self@ =~= orig.take(orig.len() as int) + seq![(name@, structure@)]);
            assert(orig.take(orig.len() as int) =~= orig);
        }
        None
    }

    /// The union of every structure's domain, in name order.
    pub fn domain(&self) -> (r: StrSet)
        requires
            self.wf(),
        ensures
            r.wf(),
            r@ == entries_domain(self@),
    {
        let mut acc = StrSet::new();
        let mut i: usize = 0;
        while i < self.entries.len()
            invariant
                self.wf(),
                i <= self@.len(),
                acc.wf(),
                acc@ == entries_domain(self@.take(i as int)),
            decreases self@.len() - i,
        {
            proof {
                assert(self@.take(i + 1).drop_last() =~= self@.take(i as int));
                assert(self@.take(i + 1).last() == self@[i as int]);
            }
            acc.add_all(self.entries[i].1.get_domain());
            proof {
                assert(self.entries[i as int].1@ == self@[i as int].1);
            }
            i = i + 1;
        }
        proof {
            assert(self@.take(self@.len() as int) =~= self@);
        }
        acc
    }

    /// The union of every structure's reserved set, in name order.
    pub fn reserved(&self) -> (r: StrSet)
        requires
            self.wf(),
        ensures
            r.wf(),
            r@ == entries_reserved(self@),
    {
        let mut acc = StrSet::new();
        let mut i: usize = 0;
        while i < self.entries.len()
            invariant
                self.wf(),
                i <= self@.len(),
                acc.wf(),
                acc@ == entries_reserved(self@.take(i as int)),
            decreases self@.len() - i,
        {
            proof {
                assert(self@.take(i + 1).drop_last() =~= self@.take(i as int));
                assert(self@.take(i + 1).last() == self@[i as int]);
            }
            acc.add_all(self.entries[i].1.get_reserved());
            proof {
                assert(self.entries[i as int].1@ == self@[i as int].1);
            }
            i = i + 1;
        }
        proof {
            assert(self@.take(self@.len() as int) =~= self@);
        }
        acc
    }

    /// Every structure's definitions, concatenated in name order.
    pub fn definitions(&self) -> (r: Vec<Definition>)
        ensures
            r.deep_view() == entries_definitions(self@),
    {
        let mut acc: Vec<Definition> = Vec::new();
        let mut i: usize = 0;
        while i < self.entries.len()
            invariant
                i <= self@.len(),
                acc.deep_view() =~= entries_definitions(self@.take(i as int)),
            decreases self@.len() - i,
        {
            proof {
                assert(self@.take(i + 1).drop_last() =~= self@.take(i as int));
                assert(self@.take(i + 1).last() == self@[i as int]);
            }
            let defs = self.entries[i].1.get_definitions();
            let mut j: usize = 0;
            let ghost before = acc.deep_view();
            while j < defs.len()
                invariant
                    j <= defs@.len(),
                    acc.deep_view() =~= before + defs.deep_view().take(j as int),
                decreases defs@.len() - j,
            {
                let ghost step = acc.deep_view();
                acc.push(defs[j].clone());
                proof {
                    assert(acc.deep_view() =~= step.push(defs.deep_view()[j as int]));
                    assert(defs.deep_view().take(j + 1) =~= defs.deep_view().take(j as int).push(
                        defs.deep_view()[j as int],
                    ));
                }
                j = j + 1;
            }
            proof {
                assert(defs.deep_view().take(defs@.len() as int) =~= defs.deep_view());
                assert(self.entries[i as int].1@ == self@[i as int].1);
            }
            i = i + 1;
        }
        proof {
            assert(self@.take(self@.len() as int) =~= self@);
        }
        acc
    }
}

impl Runtime {
    /// Runs the rewrite search from an expression until the frontier is
    /// exhausted, within a step budget: the result holds exactly the
    /// distinct expressions reachable from the input, the input among
    /// them, in discovery order. Nothing comes back exactly when the
    /// frontier of the search is still non-empty after `max_steps`
    /// steps: the budget ran out first.
    pub fn evaluations(&self, expression: Expression, max_steps: usize) -> (r: Option<
        Vec<Expression>,
    >)
        requires
            self.wf(),
        ensures
            (r is Some) == (search_state(
                entries_definitions(self@),
                expression@,
                max_steps as nat,
            ).1.len() == 0),
            match r {
                Some(v) => {
                    &&& v.deep_view() == search_state(
                        entries_definitions(self@),
                        expression@,
                        max_steps as nat,
                    ).0
                    &&& no_dups(v.deep_view())
                    &&& forall|x: Seq<TokenView>|
                        expr_in(v.deep_view(), x) <==> reachable(
                            entries_definitions(self@),
                            expression@,
                            x,
                        )
                    &&& expr_in(v.deep_view(), expression@)
                },
                None => true,
            },
    {
        let defs = self.definitions();
        let ghost dv = defs.deep_view();
        let ghost root = expression@;
        let mut search = Search::new(&defs, expression);
        proof {
            assert(search.visited_view() == search_state(dv, root, 0).0);
            assert(search.queue_view() == search_state(dv, root, 0).1);
        }
        let mut steps: usize = 0;
        let mut finished = false;
        while steps < max_steps && !finished
            invariant
                steps <= max_steps,
                dv == defs.deep_view(),
                dv == entries_definitions(self@),
                search.inv(),
                search.defs_view() == dv,
                search.root_view() == root,
                search.visited_view() == search_state(dv, root, steps as nat).0,
                search.queue_view() == search_state(dv, root, steps as nat).1,
                finished ==> search.queue_view().len() == 0,
            decreases (max_steps - steps) * 2 + (if finished {
                0int
            } else {
                1int
            }),
        {
            if !search.step(&defs) {
                finished = true;
            } else {
                proof {
                    assert(search.visited_view() == search_state(dv, root, (steps + 1) as nat).0);
                    assert(search.queue_view() == search_state(dv, root, (steps + 1) as nat).1);
                }
                steps = steps + 1;
            }
        }
        proof {
            if search.queue_view().len() == 0 {
                lemma_search_state_stationary(dv, root, steps as nat, max_steps as nat);
            } else {
                assert(!finished);
                assert(steps == max_steps);
            }
        }
        if search.done() {
            proof {
                assert(expr_in(search.visited_view(), root));
                assert forall|x: Seq<TokenView>| reachable(dv, root, x) implies expr_in(
                    search.visited_view(),
                    x,
                ) by {
                    lemma_closed_holds_reachable(dv, root, search.visited_view(), x);
                }
            }
            let list = search.visited_list();
            let mut out: Vec<Expression> = Vec::new();
            let mut i: usize = 0;
            while i < list.len()
                invariant
                    i <= list@.len(),
                    out.deep_view() =~= list.deep_view().take(i as int),
                decreases list@.len() - i,
            {
                let ghost step = out.deep_view();
                out.push(list[i].clone());
                proof {
                    assert(out.deep_view() =~= step.push(list.deep_view()[i as int]));
                    assert(list.deep_view().take(i + 1) =~= list.deep_view().take(i as int).push(
                        list.deep_view()[i as int],
                    ));
                }
                i = i + 1;
            }
            proof {
                assert(list.deep_view().take(list@.len() as int) =~= list.deep_view());
                assert(out.deep_view() == search.visited_view());
            }
            Some(out)
        } else {
            None
        }
    }

    /// The canonical result: the least reachable expression under the
    /// expression order, within a step budget. Nothing comes back
    /// exactly when the frontier of the search is still non-empty after
    /// `max_steps` steps.
    pub fn eval(&self, expression: Expression, max_steps: usize) -> (r: Option<Expression>)
        requires
            self.wf(),
        ensures
            (r is Some) == (search_state(
                entries_definitions(self@),
                expression@,
                max_steps as nat,
            ).1.len() == 0),
            match r {
                Some(m) => {
                    &&& reachable(entries_definitions(self@), expression@, m@)
                    &&& forall|x: Seq<TokenView>|
                        reachable(entries_definitions(self@), expression@, x) ==> expr_le(m@, x)
                },
                None => true,
            },
    {
        let ghost e0 = expression@;
        match self.evaluations(expression, max_steps) {
            Some(v) => {
                let m = smallest_of(&v);
                proof {
                    assert(v.deep_view().len() > 0) by {
                        assert(expr_in(v.deep_view(), e0));
                    }
                }
                match m {
                    Some(m) => {
                        proof {
                            assert forall|x: Seq<TokenView>|
                                reachable(entries_definitions(self@), e0, x) implies expr_le(
                                m@,
                                x,
                            ) by {
                                assert(expr_in(v.deep_view(), x));
                                let w = choose|w: int|
                                    0 <= w < v.deep_view().len() && v.deep_view()[w] == x;
                            }
                        }
                        Some(m)
                    },
                    None => None,
                }
            },
            None => None,
        }
    }
}

/// Two sorted entries with the same name stand at the same index.
pub proof fn entries_distinct_names(s: Seq<(Seq<char>, StructureView)>, w: int, i: int)
    requires
        sorted_strict(entry_names(s)),
        0 <= w < s.len(),
        0 <= i < s.len(),
        s[w].0 == s[i].0,
    ensures
        w == i,
        entries_get(s, s[i].0) == s[i].1,
{
    if w != i {
        assert(entry_names(s)[w] == s[w].0);
        assert(entry_names(s)[i] == s[i].0);
        if w < i {
            assert(chars_lt(entry_names(s)[w], entry_names(s)[i]));
        } else {
            assert(chars_lt(entry_names(s)[i], entry_names(s)[w]));
        }
        crate::token::lemma_chars_lt_trichotomy(s[w].0, s[i].0);
    }
    let c = choose|c: int| 0 <= c < s.len() && s[c].0 == s[i].0;
    if c != i {
        assert(entry_names(s)[c] == s[c].0);
        assert(entry_names(s)[i] == s[i].0);
        if c < i {
            assert(chars_lt(entry_names(s)[c], entry_names(s)[i]));
        } else {
            assert(chars_lt(entry_names(s)[i], entry_names(s)[c]));
        }
        crate::token::lemma_chars_lt_trichotomy(s[c].0, s[i].0);
    }
}

/// When the names before `i` are all smaller than `n` and the name at
/// `i` is larger, no entry holds `n`.
proof fn entries_no_match(s: Seq<(Seq<char>, StructureView)>, i: int, n: Seq<char>)
    requires
        sorted_strict(entry_names(s)),
        0 <= i < s.len(),
        s[i].0 != n,
        !chars_lt(s[i].0, n),
        forall|j: int| 0 <= j < i ==> chars_lt(#[trigger] s[j].0, n),
    ensures
        !entries_have(s, n),
{
    crate::token::lemma_chars_lt_trichotomy(s[i].0, n);
    assert(chars_lt(n, s[i].0));
    assert forall|w: int| 0 <= w < s.len() implies s[w].0 != n by {
        if w < i {
            assert(chars_lt(s[w].0, n));
            crate::token::lemma_chars_lt_trichotomy(s[w].0, n);
        } else if w == i {
        } else {
            assert(entry_names(s)[i] == s[i].0);
            assert(entry_names(s)[w] == s[w].0);
            assert(chars_lt(entry_names(s)[i], entry_names(s)[w]));
            crate::token::lemma_chars_lt_trans(n, s[i].0, s[w].0);
            crate::token::lemma_chars_lt_trichotomy(s[w].0, n);
        }
    }
}

/// Inserting keeps the names sorted and the structures well-formed.
pub proof fn lemma_entries_insert_wf(
    s: Seq<(Seq<char>, StructureView)>,
    n: Seq<char>,
    v: StructureView,
)
    requires
        sorted_strict(entry_names(s)),
        forall|i: int| 0 <= i < s.len() ==> (#[trigger] s[i].1).wf(),
        v.wf(),
    ensures
        sorted_strict(entry_names(entries_insert(s, n, v))),
        forall|i: int|
            0 <= i < entries_insert(s, n, v).len() ==> (#[trigger] entries_insert(s, n, v)[i].1).wf(),
    decreases s.len(),
{
    let r = entries_insert(s, n, v);
    if s.len() == 0 {
        assert(entry_names(r) =~= seq![n]);
    } else if chars_lt(s[0].0, n) {
        assert(sorted_strict(entry_names(s.drop_first()))) by {
            assert(forall|i: int|
                0 <= i < s.drop_first().len() ==> entry_names(s.drop_first())[i] == entry_names(
                    s,
                )[i + 1]);
        }
        assert(forall|i: int|
            0 <= i < s.drop_first().len() ==> (#[trigger] s.drop_first()[i].1).wf()) by {
            assert(forall|i: int|
                0 <= i < s.drop_first().len() ==> s.drop_first()[i] == s[i + 1]);
        }
        lemma_entries_insert_wf(s.drop_first(), n, v);
        let rest = entries_insert(s.drop_first(), n, v);
        assert forall|i: int, j: int|
            0 <= i < j < entry_names(r).len() implies chars_lt(entry_names(r)[i], entry_names(
            r,
        )[j]) by {
            assert(entry_names(r)[i] == r[i].0);
            assert(entry_names(r)[j] == r[j].0);
            if i == 0 {
                assert(r[j].0 == rest[j - 1].0);
                lemma_entries_insert_has(s.drop_first(), n, v, j - 1);
                if rest[j - 1].0 == n {
                } else {
                    let k = choose|k: int|
                        0 <= k < s.drop_first().len() && s.drop_first()[k].0 == rest[j - 1].0;
                    assert(s[k + 1].0 == rest[j - 1].0);
                    assert(entry_names(s)[0] == s[0].0);
                    assert(entry_names(s)[k + 1] == s[k + 1].0);
                    assert(chars_lt(entry_names(s)[0], entry_names(s)[k + 1]));
                }
            } else {
                assert(r[i].0 == rest[i - 1].0);
                assert(r[j].0 == rest[j - 1].0);
                assert(entry_names(rest)[i - 1] == rest[i - 1].0);
                assert(entry_names(rest)[j - 1] == rest[j - 1].0);
                assert(chars_lt(entry_names(rest)[i - 1], entry_names(rest)[j - 1]));
            }
        }
    } else if s[0].0 == n {
        assert(entry_names(r) =~= entry_names(s));
        assert(forall|i: int|
            1 <= i < r.len() ==> r[i] == s[i]);
    } else {
        crate::token::lemma_chars_lt_trichotomy(s[0].0, n);
        assert(chars_lt(n, s[0].0));
        assert forall|i: int, j: int|
            0 <= i < j < entry_names(r).len() implies chars_lt(entry_names(r)[i], entry_names(
            r,
        )[j]) by {
            assert(entry_names(r)[i] == r[i].0);
            assert(entry_names(r)[j] == r[j].0);
            if i == 0 {
                assert(r[j].0 == s[j - 1].0);
                if j > 1 {
                    assert(entry_names(s)[0] == s[0].0);
                    assert(entry_names(s)[j - 1] == s[j - 1].0);
                    assert(chars_lt(entry_names(s)[0], entry_names(s)[j - 1]));
                    crate::token::lemma_chars_lt_trans(n, s[0].0, s[j - 1].0);
                }
            } else {
                assert(r[i].0 == s[i - 1].0);
                assert(r[j].0 == s[j - 1].0);
                assert(entry_names(s)[i - 1] == s[i - 1].0);
                assert(entry_names(s)[j - 1] == s[j - 1].0);
                assert(chars_lt(entry_names(s)[i - 1], entry_names(s)[j - 1]));
            }
        }
    }
}

/// The inserted pair itself stands somewhere in the result.
pub proof fn lemma_insert_places(
    s: Seq<(Seq<char>, StructureView)>,
    n: Seq<char>,
    v: StructureView,
)
    ensures
        exists|w: int|
            0 <= w < entries_insert(s, n, v).len() && entries_insert(s, n, v)[w] == (n, v),
    decreases s.len(),
{
    let r = entries_insert(s, n, v);
    if s.len() == 0 {
        assert(r[0] == (n, v));
    } else if chars_lt(s[0].0, n) {
        lemma_insert_places(s.drop_first(), n, v);
        let w = choose|w: int|
            0 <= w < entries_insert(s.drop_first(), n, v).len() && entries_insert(
                s.drop_first(),
                n,
                v,
            )[w] == (n, v);
        assert(r[w + 1] == (n, v));
    } else {
        assert(r[0] == (n, v));
    }
}

/// The value just inserted is what its name maps to.
pub proof fn lemma_insert_get_value(
    s: Seq<(Seq<char>, StructureView)>,
    n: Seq<char>,
    v: StructureView,
)
    requires
        sorted_strict(entry_names(s)),
        forall|i: int| 0 <= i < s.len() ==> (#[trigger] s[i].1).wf(),
        v.wf(),
    ensures
        entries_get(entries_insert(s, n, v), n) == v,
    decreases s.len(),
{
    let r = entries_insert(s, n, v);
    lemma_entries_insert_wf(s, n, v);
    lemma_insert_places(s, n, v);
    let w = choose|w: int| 0 <= w < r.len() && r[w] == (n, v);
    entries_distinct_names(r, w, w);
}

/// A pair whose name the insertion does not touch stands unchanged in
/// the result.
proof fn lemma_insert_keeps_pair(
    s: Seq<(Seq<char>, StructureView)>,
    n: Seq<char>,
    v: StructureView,
    w: int,
)
    requires
        0 <= w < s.len(),
        s[w].0 != n,
    ensures
        exists|j: int|
            0 <= j < entries_insert(s, n, v).len() && entries_insert(s, n, v)[j] == s[w],
    decreases s.len(),
{
    let r = entries_insert(s, n, v);
    if chars_lt(s[0].0, n) {
        if w == 0 {
            assert(r[0] == s[0]);
        } else {
            assert(s.drop_first()[w - 1] == s[w]);
            lemma_insert_keeps_pair(s.drop_first(), n, v, w - 1);
            let j = choose|j: int|
                0 <= j < entries_insert(s.drop_first(), n, v).len() && entries_insert(
                    s.drop_first(),
                    n,
                    v,
                )[j] == s[w];
            assert(r[j + 1] == s[w]);
        }
    } else if s[0].0 == n {
        assert(w != 0);
        assert(s.drop_first()[w - 1] == s[w]);
        assert(r[w] == s[w]);
    } else {
        assert(r[w + 1] == s[w]);
    }
}

/// What a name other than the inserted one maps to does not change.
pub proof fn lemma_insert_preserves_other(
    s: Seq<(Seq<char>, StructureView)>,
    n: Seq<char>,
    v: StructureView,
    k: Seq<char>,
)
    requires
        sorted_strict(entry_names(s)),
        forall|i: int| 0 <= i < s.len() ==> (#[trigger] s[i].1).wf(),
        v.wf(),
        entries_have(s, k),
        k != n,
    ensures
        entries_have(entries_insert(s, n, v), k),
        entries_get(entries_insert(s, n, v), k) == entries_get(s, k),
{
    let r = entries_insert(s, n, v);
    lemma_entries_insert_wf(s, n, v);
    let ws = choose|w: int| 0 <= w < s.len() && s[w].0 == k;
    entries_distinct_names(s, ws, ws);
    lemma_insert_keeps_pair(s, n, v, ws);
    let j = choose|j: int| 0 <= j < r.len() && r[j] == s[ws];
    assert(r[j].0 == k);
    entries_distinct_names(r, j, j);
}

/// What stands at a position of an inserted entry sequence: the new name
/// or one of the old entries.
proof fn lemma_entries_insert_has(
    s: Seq<(Seq<char>, StructureView)>,
    n: Seq<char>,
    v: StructureView,
    j: int,
)
    requires
        0 <= j < entries_insert(s, n, v).len(),
    ensures
        entries_insert(s, n, v)[j].0 == n || exists|k: int|
            0 <= k < s.len() && s[k].0 == entries_insert(s, n, v)[j].0,
    decreases s.len(),
{
    let r = entries_insert(s, n, v);
    if s.len() == 0 {
    } else if chars_lt(s[0].0, n) {
        if j == 0 {
            assert(s[0].0 == r[0].0);
        } else {
            lemma_entries_insert_has(s.drop_first(), n, v, j - 1);
            if entries_insert(s.drop_first(), n, v)[j - 1].0 != n {
                let k = choose|k: int|
                    0 <= k < s.drop_first().len() && s.drop_first()[k].0 == entries_insert(
                        s.drop_first(),
                        n,
                        v,
                    )[j - 1].0;
                assert(s[k + 1].0 == r[j].0);
            }
        }
    } else if s[0].0 == n {
        if j > 0 {
            assert(r[j] == s.drop_first()[j - 1]);
            assert(s[j].0 == r[j].0);
        }
    } else {
        if j > 0 {
            assert(s[j - 1].0 == r[j].0);
        }
    }
}

} // verus!
