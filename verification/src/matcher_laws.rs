//! Laws of the matcher: the empty match, concrete round-trips, failure on
//! leftover tokens, non-emptiness of spread bindings, and the rebuild
//! property — substituting the bindings of a successful match back into
//! the pattern reproduces the matched tokens exactly.

use vstd::prelude::*;

use crate::matcher::{
    spec_match, spec_match_at, spec_match_spread, SingleMap, SpreadMap,
};
use crate::token::{PatternTokenView, TokenView};

verus! {

/// Every unit of the pattern is a concrete token.
pub open spec fn all_concrete(p: Seq<PatternTokenView>) -> bool {
    forall|i: int| 0 <= i < p.len() ==> p[i] is Concrete
}

/// The tokens of a concrete-only pattern, in order.
pub open spec fn concretes(p: Seq<PatternTokenView>) -> Seq<TokenView> {
    Seq::new(p.len(), |i: int| p[i]->Concrete_0)
}

/// Some unit of the pattern is a spread variable.
pub open spec fn has_spread(p: Seq<PatternTokenView>) -> bool {
    exists|i: int| 0 <= i < p.len() && p[i] is SpreadVariable
}

/// Every run bound in the spread map is non-empty.
pub open spec fn spreads_nonempty(sp: SpreadMap) -> bool {
    forall|k: Seq<char>| sp.contains_key(k) ==> #[trigger] sp[k].len() > 0
}

/// Substituting bindings into a pattern: concretes stand for themselves,
/// a variable for its bound token, a spread variable for its bound run.
/// Nothing comes out when a variable is unbound.
pub open spec fn spec_subst(
    p: Seq<PatternTokenView>,
    s: SingleMap,
    sp: SpreadMap,
) -> Option<Seq<TokenView>>
    decreases p.len(),
{
    if p.len() == 0 {
        Some(Seq::empty())
    } else {
        let rest = spec_subst(p.drop_first(), s, sp);
        if rest is None {
            None
        } else {
            match p[0] {
                PatternTokenView::Concrete(c) => Some(seq![c] + rest->Some_0),
                PatternTokenView::Variable { name } => if s.contains_key(name) {
                    Some(seq![s[name]] + rest->Some_0)
                } else {
                    None
                },
                PatternTokenView::SpreadVariable { name } => if sp.contains_key(name) {
                    Some(sp[name] + rest->Some_0)
                } else {
                    None
                },
            }
        }
    }
}

/// An empty pattern matches an empty token sequence, with empty bindings.
pub proof fn lemma_match_empty()
    ensures
        spec_match(Seq::empty(), Seq::empty()) == Some(
            (Map::<Seq<char>, TokenView>::empty(), Map::<Seq<char>, Seq<TokenView>>::empty()),
        ),
{
}

/// A concrete-only pattern matches exactly the token sequence that equals
/// it positionally, and binds nothing beyond what was already bound.
pub proof fn lemma_match_concretes_at(
    p: Seq<PatternTokenView>,
    t: Seq<TokenView>,
    s: SingleMap,
    sp: SpreadMap,
)
    requires
        all_concrete(p),
    ensures
        (spec_match_at(p, t, s, sp) is Some) <==> t == concretes(p),
        spec_match_at(p, t, s, sp) is Some ==> spec_match_at(p, t, s, sp) == Some((s, sp)),
    decreases p.len(),
{
    if p.len() == 0 {
        if t.len() == 0 {
            assert(t =~= concretes(p));
        } else {
            assert(t.len() != concretes(p).len());
        }
    } else if t.len() == 0 {
        assert(t.len() != concretes(p).len());
    } else {
        assert(p[0] is Concrete);
        let c = p[0]->Concrete_0;
        assert(all_concrete(p.drop_first())) by {
            assert(forall|i: int|
                0 <= i < p.drop_first().len() ==> p.drop_first()[i] == p[i + 1]);
        }
        lemma_match_concretes_at(p.drop_first(), t.drop_first(), s, sp);
        assert(concretes(p.drop_first()) =~= concretes(p).drop_first());
        if t[0] == c {
            if t.drop_first() == concretes(p.drop_first()) {
                assert forall|i: int| 0 <= i < t.len() implies t[i] == concretes(p)[i] by {
                    if i > 0 {
                        assert(t.drop_first()[i - 1] == t[i]);
                        assert(concretes(p).drop_first()[i - 1] == concretes(p)[i]);
                    }
                }
                assert(t =~= concretes(p));
            } else {
                if t == concretes(p) {
                    assert(t.drop_first() =~= concretes(p).drop_first());
                }
            }
        } else {
            assert(concretes(p)[0] == c);
            if t == concretes(p) {
                assert(t[0] == c);
            }
        }
    }
}

/// The concrete round-trip, from no bindings.
pub proof fn lemma_match_concretes(p: Seq<PatternTokenView>, t: Seq<TokenView>)
    requires
        all_concrete(p),
    ensures
        (spec_match(p, t) is Some) <==> t == concretes(p),
        spec_match(p, t) is Some ==> spec_match(p, t) == Some(
            (Map::<Seq<char>, TokenView>::empty(), Map::<Seq<char>, Seq<TokenView>>::empty()),
        ),
{
    lemma_match_concretes_at(
        p,
        t,
        Map::<Seq<char>, TokenView>::empty(),
        Map::<Seq<char>, Seq<TokenView>>::empty(),
    );
}

/// A pattern without spread variables consumes exactly one token for each
/// of its units: against a strictly longer token sequence it fails.
pub proof fn lemma_match_leftovers(
    p: Seq<PatternTokenView>,
    t: Seq<TokenView>,
    s: SingleMap,
    sp: SpreadMap,
)
    requires
        !has_spread(p),
        p.len() < t.len(),
    ensures
        spec_match_at(p, t, s, sp) is None,
    decreases p.len(),
{
    if p.len() == 0 {
    } else {
        assert(!(p[0] is SpreadVariable));
        assert(!has_spread(p.drop_first())) by {
            assert(forall|i: int|
                0 <= i < p.drop_first().len() ==> p.drop_first()[i] == p[i + 1]);
        }
        match p[0] {
            PatternTokenView::Concrete(c) => {
                lemma_match_leftovers(p.drop_first(), t.drop_first(), s, sp);
            },
            PatternTokenView::Variable { name } => {
                lemma_match_leftovers(p.drop_first(), t.drop_first(), s, sp);
                lemma_match_leftovers(
                    p.drop_first(),
                    t.drop_first(),
                    s.insert(name, t[0]),
                    sp,
                );
            },
            PatternTokenView::SpreadVariable { .. } => {
                assert(false);
            },
        }
    }
}

/// A successful match never binds a spread variable to an empty run.
pub proof fn lemma_match_spreads_nonempty(
    p: Seq<PatternTokenView>,
    t: Seq<TokenView>,
    s: SingleMap,
    sp: SpreadMap,
)
    requires
        spreads_nonempty(sp),
        spec_match_at(p, t, s, sp) is Some,
    ensures
        spreads_nonempty(spec_match_at(p, t, s, sp)->Some_0.1),
    decreases p.len(), 1int, 0int,
{
    if p.len() == 0 {
    } else {
        match p[0] {
            PatternTokenView::Concrete(c) => {
                lemma_match_spreads_nonempty(p.drop_first(), t.drop_first(), s, sp);
            },
            PatternTokenView::Variable { name } => {
                if s.contains_key(name) {
                    lemma_match_spreads_nonempty(p.drop_first(), t.drop_first(), s, sp);
                } else {
                    lemma_match_spreads_nonempty(
                        p.drop_first(),
                        t.drop_first(),
                        s.insert(name, t[0]),
                        sp,
                    );
                }
            },
            PatternTokenView::SpreadVariable { name } => {
                if sp.contains_key(name) {
                    lemma_match_spreads_nonempty(
                        p.drop_first(),
                        t.skip(sp[name].len() as int),
                        s,
                        sp,
                    );
                } else {
                    lemma_spread_spreads_nonempty(p, t, s, sp, name, 1);
                }
            },
        }
    }
}

proof fn lemma_spread_spreads_nonempty(
    p: Seq<PatternTokenView>,
    t: Seq<TokenView>,
    s: SingleMap,
    sp: SpreadMap,
    name: Seq<char>,
    i: int,
)
    requires
        spreads_nonempty(sp),
        spec_match_spread(p, t, s, sp, name, i) is Some,
    ensures
        spreads_nonempty(spec_match_spread(p, t, s, sp, name, i)->Some_0.1),
    decreases p.len(), 0int, t.len() - i + 1,
{
    if i < 1 || i > t.len() || p.len() == 0 {
    } else {
        let sp1 = sp.insert(name, t.take(i));
        if spec_match_at(p.drop_first(), t.skip(i), s, sp1) is Some {
            assert(spreads_nonempty(sp1)) by {
                assert(t.take(i).len() == i);
            }
            lemma_match_spreads_nonempty(p.drop_first(), t.skip(i), s, sp1);
        } else {
            lemma_spread_spreads_nonempty(p, t, s, sp, name, i + 1);
        }
    }
}

/// One map extends another.
pub open spec fn map_extends<Val>(m1: Map<Seq<char>, Val>, m2: Map<Seq<char>, Val>) -> bool {
    forall|k: Seq<char>| #[trigger]
        m1.dom().contains(k) ==> m2.dom().contains(k) && m2[k] == m1[k]
}

proof fn lemma_extends_insert<Val>(m: Map<Seq<char>, Val>, k: Seq<char>, v: Val)
    requires
        !m.contains_key(k),
    ensures
        map_extends(m, m.insert(k, v)),
{
    assert forall|j: Seq<char>| #[trigger] m.dom().contains(j) implies m.insert(
        k,
        v,
    ).dom().contains(j) && m[j] == m.insert(k, v)[j] by {
        assert(j != k);
    }
}

proof fn lemma_extends_trans<Val>(
    a: Map<Seq<char>, Val>,
    b: Map<Seq<char>, Val>,
    c: Map<Seq<char>, Val>,
)
    requires
        map_extends(a, b),
        map_extends(b, c),
    ensures
        map_extends(a, c),
{
    assert forall|j: Seq<char>| #[trigger] a.dom().contains(j) implies c.dom().contains(j) && a[j]
        == c[j] by {
        assert(b.dom().contains(j) && a[j] == b[j]);
        assert(c.dom().contains(j) && b[j] == c[j]);
    }
}

/// The rebuild property: a successful match only ever extends the binding
/// maps, and substituting the final bindings into the pattern rebuilds the
/// matched token sequence exactly.
pub proof fn lemma_match_rebuild(
    p: Seq<PatternTokenView>,
    t: Seq<TokenView>,
    s: SingleMap,
    sp: SpreadMap,
)
    requires
        spec_match_at(p, t, s, sp) is Some,
    ensures
        ({
            let (s1, sp1) = spec_match_at(p, t, s, sp)->Some_0;
            map_extends(s, s1) && map_extends(sp, sp1) && spec_subst(p, s1, sp1) == Some(t)
        }),
    decreases p.len(), 1int, 0int,
{
    if p.len() == 0 {
        assert(t =~= Seq::<TokenView>::empty());
    } else {
        let (s1, sp1) = spec_match_at(p, t, s, sp)->Some_0;
        match p[0] {
            PatternTokenView::Concrete(c) => {
                lemma_match_rebuild(p.drop_first(), t.drop_first(), s, sp);
                assert(t =~= seq![t[0]] + t.drop_first());
            },
            PatternTokenView::Variable { name } => {
                if s.contains_key(name) {
                    lemma_match_rebuild(p.drop_first(), t.drop_first(), s, sp);
                    assert(s[name] == t[0]);
                    assert(s1.contains_key(name) && s1[name] == t[0]);
                } else {
                    let si = s.insert(name, t[0]);
                    lemma_match_rebuild(p.drop_first(), t.drop_first(), si, sp);
                    lemma_extends_insert(s, name, t[0]);
                    lemma_extends_trans(s, si, s1);
                    assert(si.dom().contains(name) && si[name] == t[0]);
                    assert(s1.contains_key(name) && s1[name] == t[0]);
                }
                assert(t =~= seq![t[0]] + t.drop_first());
            },
            PatternTokenView::SpreadVariable { name } => {
                if sp.contains_key(name) {
                    let b = sp[name];
                    lemma_match_rebuild(p.drop_first(), t.skip(b.len() as int), s, sp);
                    assert(sp[name] == b);
                    assert(sp1.contains_key(name) && sp1[name] == b);
                    assert(t =~= t.take(b.len() as int) + t.skip(b.len() as int));
                } else {
                    lemma_spread_rebuild(p, t, s, sp, name, 1);
                }
            },
        }
    }
}

proof fn lemma_spread_rebuild(
    p: Seq<PatternTokenView>,
    t: Seq<TokenView>,
    s: SingleMap,
    sp: SpreadMap,
    name: Seq<char>,
    i: int,
)
    requires
        spec_match_spread(p, t, s, sp, name, i) is Some,
        p.len() > 0,
        p[0] == (PatternTokenView::SpreadVariable { name }),
        !sp.contains_key(name),
    ensures
        ({
            let (s1, sp1) = spec_match_spread(p, t, s, sp, name, i)->Some_0;
            map_extends(s, s1) && map_extends(sp, sp1) && spec_subst(p, s1, sp1) == Some(t)
        }),
    decreases p.len(), 0int, t.len() - i + 1,
{
    if i < 1 || i > t.len() {
    } else {
        let spi = sp.insert(name, t.take(i));
        if spec_match_at(p.drop_first(), t.skip(i), s, spi) is Some {
            lemma_match_rebuild(p.drop_first(), t.skip(i), s, spi);
            let (s1, sp1) = spec_match_at(p.drop_first(), t.skip(i), s, spi)->Some_0;
            assert(spi.dom().contains(name) && spi[name] == t.take(i));
            assert(sp1.contains_key(name) && sp1[name] == t.take(i));
            lemma_extends_insert(sp, name, t.take(i));
            lemma_extends_trans(sp, spi, sp1);
            assert(t =~= t.take(i) + t.skip(i));
        } else {
            lemma_spread_rebuild(p, t, s, sp, name, i + 1);
        }
    }
}

/// A substitution that goes through has every variable of the pattern
/// bound.
pub proof fn lemma_subst_binds(p: Seq<PatternTokenView>, s: SingleMap, sp: SpreadMap)
    requires
        spec_subst(p, s, sp) is Some,
    ensures
        forall|i: int|
            0 <= i < p.len() ==> match #[trigger] p[i] {
                PatternTokenView::Concrete(_) => true,
                PatternTokenView::Variable { name } => s.contains_key(name),
                PatternTokenView::SpreadVariable { name } => sp.contains_key(name),
            },
    decreases p.len(),
{
    if p.len() > 0 {
        lemma_subst_binds(p.drop_first(), s, sp);
        assert forall|i: int|
            0 <= i < p.len() implies match #[trigger] p[i] {
            PatternTokenView::Concrete(_) => true,
            PatternTokenView::Variable { name } => s.contains_key(name),
            PatternTokenView::SpreadVariable { name } => sp.contains_key(name),
        } by {
            if i > 0 {
                assert(p.drop_first()[i - 1] == p[i]);
            }
        }
    }
}

/// A successful match binds every variable that occurs in the pattern:
/// single variables to a token, spread variables to a non-empty run.
pub proof fn lemma_match_binds_all(p: Seq<PatternTokenView>, t: Seq<TokenView>)
    requires
        spec_match(p, t) is Some,
    ensures
        ({
            let (s1, sp1) = spec_match(p, t)->Some_0;
            forall|i: int|
                0 <= i < p.len() ==> match #[trigger] p[i] {
                    PatternTokenView::Concrete(_) => true,
                    PatternTokenView::Variable { name } => s1.contains_key(name),
                    PatternTokenView::SpreadVariable { name } => sp1.contains_key(name)
                        && sp1[name].len() > 0,
                }
        }),
{
    lemma_match_rebuild(p, t, Map::empty(), Map::empty());
    lemma_match_spreads_nonempty(p, t, Map::empty(), Map::empty());
    let (s1, sp1) = spec_match(p, t)->Some_0;
    lemma_subst_binds(p, s1, sp1);
}

/// The rebuild property from no bindings, as the matcher is used.
pub proof fn lemma_match_rebuilds_input(p: Seq<PatternTokenView>, t: Seq<TokenView>)
    requires
        spec_match(p, t) is Some,
    ensures
        spec_subst(p, spec_match(p, t)->Some_0.0, spec_match(p, t)->Some_0.1) == Some(t),
        spreads_nonempty(spec_match(p, t)->Some_0.1),
{
    lemma_match_rebuild(p, t, Map::empty(), Map::empty());
    lemma_match_spreads_nonempty(p, t, Map::empty(), Map::empty());
}

} // verus!
