//! The pattern matcher: matches a pattern against a token sequence with
//! backtracking over spread widths, producing consistent variable bindings.
//!
//! The executable matcher is pinned to [`spec_match`], which mirrors the
//! matching rules exactly: a concrete matches an equal head token, a
//! variable binds exactly one token (and every later occurrence must equal
//! it), and a spread variable binds the shortest non-empty run of tokens
//! that lets the rest of the pattern match.

use vstd::prelude::*;

use crate::bindings::AssocVec;
use crate::token::{PatternToken, PatternTokenView, Token, TokenView};

verus! {

/// Maps from variable names to the content they are bound to.
pub type SingleMap = Map<Seq<char>, TokenView>;

/// Maps from spread-variable names to the runs they are bound to.
pub type SpreadMap = Map<Seq<char>, Seq<TokenView>>;

/// What matching `p` against `t` yields, starting from bindings already
/// accumulated: `None` when no consistent continuation exists, or the
/// bindings as they stand when both sequences are exhausted.
pub open spec fn spec_match_at(
    p: Seq<PatternTokenView>,
    t: Seq<TokenView>,
    s: SingleMap,
    sp: SpreadMap,
) -> Option<(SingleMap, SpreadMap)>
    decreases p.len(), 1int, 0int,
{
    if p.len() == 0 {
        if t.len() == 0 {
            Some((s, sp))
        } else {
            None
        }
    } else if t.len() == 0 {
        None
    } else {
        match p[0] {
            PatternTokenView::Concrete(c) => {
                if t[0] == c {
                    spec_match_at(p.drop_first(), t.drop_first(), s, sp)
                } else {
                    None
                }
            },
            PatternTokenView::Variable { name } => {
                if s.contains_key(name) {
                    if s[name] == t[0] {
                        spec_match_at(p.drop_first(), t.drop_first(), s, sp)
                    } else {
                        None
                    }
                } else {
                    spec_match_at(p.drop_first(), t.drop_first(), s.insert(name, t[0]), sp)
                }
            },
            PatternTokenView::SpreadVariable { name } => {
                if sp.contains_key(name) {
                    let b = sp[name];
                    if b.len() <= t.len() && t.take(b.len() as int) == b {
                        spec_match_at(p.drop_first(), t.skip(b.len() as int), s, sp)
                    } else {
                        None
                    }
                } else {
                    spec_match_spread(p, t, s, sp, name, 1)
                }
            },
        }
    }
}

/// Tries spread widths `i, i + 1, ..` in order for the spread variable at
/// the head of `p`, and keeps the first width under which the rest of the
/// pattern matches.
pub open spec fn spec_match_spread(
    p: Seq<PatternTokenView>,
    t: Seq<TokenView>,
    s: SingleMap,
    sp: SpreadMap,
    name: Seq<char>,
    i: int,
) -> Option<(SingleMap, SpreadMap)>
    decreases p.len(), 0int, t.len() - i + 1,
{
    if i < 1 || i > t.len() || p.len() == 0 {
        None
    } else {
        let attempt = spec_match_at(
            p.drop_first(),
            t.skip(i),
            s,
            sp.insert(name, t.take(i)),
        );
        if attempt is Some {
            attempt
        } else {
            spec_match_spread(p, t, s, sp, name, i + 1)
        }
    }
}

/// What matching `p` against `t` yields, starting from no bindings.
pub open spec fn spec_match(p: Seq<PatternTokenView>, t: Seq<TokenView>) -> Option<
    (SingleMap, SpreadMap),
> {
    spec_match_at(p, t, Map::empty(), Map::empty())
}

/// The bindings reported by a successful match: variables to single
/// tokens, spread variables to non-empty runs of tokens.
pub struct Bindings {
    pub singles: AssocVec<Token>,
    pub spreads: AssocVec<Vec<Token>>,
}

impl Bindings {
    pub open spec fn wf(&self) -> bool {
        self.singles.wf() && self.spreads.wf()
    }

    /// The token a variable is bound to, if any.
    pub fn get_single(&self, name: &String) -> (r: Option<&Token>)
        requires
            self.wf(),
        ensures
            match r {
                Some(v) => self.singles@.contains_key(name@) && v@ == self.singles@[name@],
                None => !self.singles@.contains_key(name@),
            },
    {
        self.singles.get(name)
    }

    /// The run of tokens a spread variable is bound to, if any.
    pub fn get_spread(&self, name: &String) -> (r: Option<&Vec<Token>>)
        requires
            self.wf(),
        ensures
            match r {
                Some(v) => self.spreads@.contains_key(name@) && v.deep_view()
                    == self.spreads@[name@],
                None => !self.spreads@.contains_key(name@),
            },
    {
        self.spreads.get(name)
    }
}

/// The tokens `t[from..to]`, copied out.
pub fn subvec(t: &Vec<Token>, from: usize, to: usize) -> (r: Vec<Token>)
    requires
        from <= to <= t@.len(),
    ensures
        r.deep_view() == t.deep_view().subrange(from as int, to as int),
        r@.len() == to - from,
{
    let mut out: Vec<Token> = Vec::new();
    let mut i: usize = from;
    while i < to
        invariant
            from <= i <= to <= t@.len(),
            out.deep_view() =~= t.deep_view().subrange(from as int, i as int),
            out@.len() == i - from,
        decreases to - i,
    {
        out.push(t[i].clone());
        proof {
            assert(out.deep_view() =~= t.deep_view().subrange(from as int, i + 1));
        }
        i = i + 1;
    }
    out
}

/// Whether `t[ti..ti + b.len()]` equals `b`.
fn tokens_eq_at(t: &Vec<Token>, ti: usize, b: &Vec<Token>) -> (r: bool)
    requires
        ti + b@.len() <= t@.len(),
    ensures
        r == (t.deep_view().subrange(ti as int, ti + b@.len()) == b.deep_view()),
{
    let n = t.len();
    let mut i: usize = 0;
    while i < b.len()
        invariant
            i <= b@.len(),
            ti + b@.len() <= t@.len(),
            n == t@.len(),
            t.deep_view().subrange(ti as int, ti + i) =~= b.deep_view().take(i as int),
        decreases b@.len() - i,
    {
        if !t[ti + i].same_as(&b[i]) {
            proof {
                assert(t.deep_view().subrange(ti as int, ti + b@.len())[i as int] == t
                    .deep_view()[ti + i]);
                assert(b.deep_view()[i as int] == b@[i as int].deep_view());
            }
            return false;
        }
        proof {
            assert(t.deep_view().subrange(ti as int, ti + i + 1) =~= t.deep_view().subrange(
                ti as int,
                ti + i,
            ).push(t.deep_view()[ti + i]));
            assert(b.deep_view().take(i + 1) =~= b.deep_view().take(i as int).push(
                b.deep_view()[i as int],
            ));
        }
        i = i + 1;
    }
    proof {
        assert(b.deep_view().take(b@.len() as int) =~= b.deep_view());
    }
    true
}

/// The recursive matcher. `pi` and `ti` are the positions reached in the
/// pattern and the token sequence; the binding maps carry what earlier
/// steps bound, and are handed back untouched when this branch fails.
fn match_rec(
    p: &Vec<PatternToken>,
    pi: usize,
    t: &Vec<Token>,
    ti: usize,
    s: &mut AssocVec<Token>,
    sp: &mut AssocVec<Vec<Token>>,
) -> (r: bool)
    requires
        pi <= p@.len(),
        ti <= t@.len(),
        old(s).wf(),
        old(sp).wf(),
    ensures
        final(s).wf(),
        final(sp).wf(),
        r == (spec_match_at(
            p.deep_view().skip(pi as int),
            t.deep_view().skip(ti as int),
            old(s)@,
            old(sp)@,
        ) is Some),
        r ==> Some((final(s)@, final(sp)@)) == spec_match_at(
            p.deep_view().skip(pi as int),
            t.deep_view().skip(ti as int),
            old(s)@,
            old(sp)@,
        ),
        !r ==> final(s).entries@ == old(s).entries@ && final(sp).entries@ == old(sp).entries@,
    decreases p@.len() - pi,
{
    let ghost pv = p.deep_view();
    let ghost tv = t.deep_view();
    let ghost pp = pv.skip(pi as int);
    let ghost tt = tv.skip(ti as int);
    if pi == p.len() {
        return ti == t.len();
    }
    proof {
        assert(pp[0] == pv[pi as int]);
        assert(pp.drop_first() =~= pv.skip(pi + 1));
        if ti < t@.len() {
            assert(tt[0] == tv[ti as int]);
            assert(tt.drop_first() =~= tv.skip(ti + 1));
        }
    }
    match &p[pi] {
        PatternToken::Concrete(c) => {
            if ti < t.len() && c.same_as(&t[ti]) {
                match_rec(p, pi + 1, t, ti + 1, s, sp)
            } else {
                false
            }
        },
        PatternToken::Variable(name) => {
            if ti == t.len() {
                return false;
            }
            let existing = match s.get(name) {
                Some(tok) => Some(tok.clone()),
                None => None,
            };
            match existing {
                Some(tok) => {
                    if tok.same_as(&t[ti]) {
                        match_rec(p, pi + 1, t, ti + 1, s, sp)
                    } else {
                        false
                    }
                },
                None => {
                    s.push(name.clone(), t[ti].clone());
                    let r = match_rec(p, pi + 1, t, ti + 1, s, sp);
                    if !r {
                        s.pop();
                    }
                    r
                },
            }
        },
        PatternToken::SpreadVariable(name) => {
            if ti == t.len() {
                return false;
            }
            let existing = match sp.get(name) {
                Some(run) => Some(subvec(run, 0, run.len())),
                None => None,
            };
            match existing {
                Some(run) => {
                    proof {
                        assert(run.deep_view() =~= old(sp)@[name@]);
                    }
                    if run.len() <= t.len() - ti && tokens_eq_at(t, ti, &run) {
                        proof {
                            assert(tt.take(run.deep_view().len() as int) =~= tv.subrange(
                                ti as int,
                                ti + run@.len(),
                            ));
                            assert(tt.skip(run.deep_view().len() as int) =~= tv.skip(
                                ti + run@.len(),
                            ));
                        }
                        match_rec(p, pi + 1, t, ti + run.len(), s, sp)
                    } else {
                        proof {
                            if run.deep_view().len() <= tt.len() {
                                assert(tt.take(run.deep_view().len() as int) =~= tv.subrange(
                                    ti as int,
                                    ti + run@.len(),
                                ));
                            }
                        }
                        false
                    }
                },
                None => {
                    let mut i: usize = 1;
                    loop
                        invariant
                            1 <= i <= t@.len() - ti,
                            pi < p@.len(),
                            ti < t@.len(),
                            s.wf(),
                            sp.wf(),
                            s.entries@ == old(s).entries@,
                            sp.entries@ == old(sp).entries@,
                            pv == p.deep_view(),
                            tv == t.deep_view(),
                            pp == pv.skip(pi as int),
                            tt == tv.skip(ti as int),
                            t@.len() <= usize::MAX,
                            p@.len() <= usize::MAX,
                            pp[0] == pv[pi as int],
                            pp.drop_first() == pv.skip(pi + 1),
                            tt.len() == tv.len() - ti,
                            pv[pi as int] == p@[pi as int]@,
                            p@[pi as int] is SpreadVariable,
                            (pv[pi as int]->SpreadVariable_name) == name@,
                            !old(sp)@.contains_key(name@),
                            spec_match_spread(pp, tt, old(s)@, old(sp)@, name@, 1)
                                == spec_match_spread(pp, tt, old(s)@, old(sp)@, name@, i as int),
                        decreases t@.len() - ti - i,
                    {
                        let run = subvec(t, ti, ti + i);
                        sp.push(name.clone(), run);
                        proof {
                            assert(tt.take(i as int) =~= tv.subrange(ti as int, ti + i));
                            assert(tt.skip(i as int) =~= tv.skip(ti + i));
                        }
                        let r = match_rec(p, pi + 1, t, ti + i, s, sp);
                        if r {
                            proof {
                                assert(spec_match_spread(
                                    pp,
                                    tt,
                                    old(s)@,
                                    old(sp)@,
                                    name@,
                                    i as int,
                                ) == spec_match_at(
                                    pp.drop_first(),
                                    tt.skip(i as int),
                                    old(s)@,
                                    old(sp)@.insert(name@, tt.take(i as int)),
                                ));
                            }
                            return true;
                        }
                        sp.pop();
                        proof {
                            assert(sp.entries@ == old(sp).entries@);
                            assert(spec_match_spread(
                                pp,
                                tt,
                                old(s)@,
                                old(sp)@,
                                name@,
                                i as int,
                            ) == spec_match_spread(
                                pp,
                                tt,
                                old(s)@,
                                old(sp)@,
                                name@,
                                i + 1,
                            ));
                        }
                        if i == t.len() - ti {
                            proof {
                                assert(spec_match_spread(
                                    pp,
                                    tt,
                                    old(s)@,
                                    old(sp)@,
                                    name@,
                                    i + 1,
                                ) is None);
                            }
                            return false;
                        }
                        i = i + 1;
                    }
                },
            }
        },
    }
}

/// Matches `pattern` against `expression`. Returns the bindings exactly
/// when the match relation holds, and nothing otherwise.
pub fn get_match_bindings(pattern: &Vec<PatternToken>, expression: &Vec<Token>) -> (r: Option<
    Bindings,
>)
    ensures
        (r is Some) == (spec_match(pattern.deep_view(), expression.deep_view()) is Some),
        match r {
            Some(b) => {
                &&& b.wf()
                &&& Some((b.singles@, b.spreads@)) == spec_match(
                    pattern.deep_view(),
                    expression.deep_view(),
                )
            },
            None => spec_match(pattern.deep_view(), expression.deep_view()) is None,
        },
{
    let mut s: AssocVec<Token> = AssocVec::new();
    let mut sp: AssocVec<Vec<Token>> = AssocVec::new();
    proof {
        assert(pattern.deep_view().skip(0) =~= pattern.deep_view());
        assert(expression.deep_view().skip(0) =~= expression.deep_view());
    }
    let matched = match_rec(pattern, 0, expression, 0, &mut s, &mut sp);
    if matched {
        Some(Bindings { singles: s, spreads: sp })
    } else {
        None
    }
}

} // verus!
