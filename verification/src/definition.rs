//! Definitions: directed rewrite rules with a "high" and a "low" side.
//! Lowering rewrites a window matching the high side into the shape of
//! the low side, substituting the bindings the matcher reported.

use vstd::prelude::*;

use crate::matcher::{get_match_bindings, spec_match, Bindings};
use crate::matcher_laws::{lemma_match_rebuilds_input, spec_subst};
use crate::token::{Expression, PatternToken, PatternTokenView, Token, TokenView};

verus! {

/// Mathematical value of a [`Definition`].
pub struct DefinitionView {
    pub high: Seq<PatternTokenView>,
    pub low: Seq<PatternTokenView>,
}

/// A rewrite rule `high => low`. Evaluation moves expressions from the
/// high shape towards the low shape.
pub struct Definition {
    high: Vec<PatternToken>,
    low: Vec<PatternToken>,
}

impl View for Definition {
    type V = DefinitionView;

    closed spec fn view(&self) -> DefinitionView {
        DefinitionView { high: self.high.deep_view(), low: self.low.deep_view() }
    }
}

impl DeepView for Definition {
    type V = DefinitionView;

    open spec fn deep_view(&self) -> DefinitionView {
        self@
    }
}

impl Clone for Definition {
    fn clone(&self) -> (r: Self)
        ensures
            r@ == self@,
    {
        let high = self.high.clone();
        let low = self.low.clone();
        proof {
            assert(high.deep_view() =~= self.high.deep_view());
            assert(low.deep_view() =~= self.low.deep_view());
        }
        Definition { high, low }
    }
}

/// What one directed rewrite of a whole window yields: nothing when the
/// `from` side does not match the window or the `to` side names a
/// variable the `from` side did not bind; otherwise the `to` side with
/// the match's bindings substituted in.
pub open spec fn spec_transform(
    from: Seq<PatternTokenView>,
    to: Seq<PatternTokenView>,
    w: Seq<TokenView>,
) -> Option<Seq<TokenView>> {
    match spec_match(from, w) {
        Option::None => None,
        Option::Some((s, sp)) => spec_subst(to, s, sp),
    }
}

/// When a rewrite applies, its output is the `to` side under the match's
/// bindings, and those same bindings substituted into the `from` side
/// rebuild the window itself: the rewrite is faithful to the rule.
pub proof fn lemma_transform_faithful(
    from: Seq<PatternTokenView>,
    to: Seq<PatternTokenView>,
    w: Seq<TokenView>,
)
    requires
        spec_transform(from, to, w) is Some,
    ensures
        ({
            let (s, sp) = spec_match(from, w)->Some_0;
            &&& spec_subst(to, s, sp) == Some(spec_transform(from, to, w)->Some_0)
            &&& spec_subst(from, s, sp) == Some(w)
        }),
{
    lemma_match_rebuilds_input(from, w);
}

/// Substitutes bindings into `to`, walking it left to right.
fn apply_bindings(to: &Vec<PatternToken>, b: &Bindings) -> (r: Option<Vec<Token>>)
    requires
        b.wf(),
    ensures
        match r {
            Some(out) => spec_subst(to.deep_view(), b.singles@, b.spreads@) == Some(
                out.deep_view(),
            ),
            None => spec_subst(to.deep_view(), b.singles@, b.spreads@) is None,
        },
{
    let ghost tov = to.deep_view();
    let ghost s1 = b.singles@;
    let ghost sp1 = b.spreads@;
    let mut out: Vec<Token> = Vec::new();
    let mut i: usize = 0;
    proof {
        assert(tov.skip(0) =~= tov);
    }
    while i < to.len()
        invariant
            i <= to@.len(),
            b.wf(),
            tov == to.deep_view(),
            s1 == b.singles@,
            sp1 == b.spreads@,
            spec_subst(tov, s1, sp1) == (if spec_subst(tov.skip(i as int), s1, sp1) is Some {
                Some(out.deep_view() + spec_subst(tov.skip(i as int), s1, sp1)->Some_0)
            } else {
                Option::<Seq<TokenView>>::None
            }),
        decreases to@.len() - i,
    {
        let ghost rest = tov.skip(i as int);
        proof {
            assert(rest[0] == tov[i as int]);
            assert(rest.drop_first() =~= tov.skip(i + 1));
        }
        match &to[i] {
            PatternToken::Concrete(tok) => {
                out.push(tok.clone());
            },
            PatternToken::Variable(name) => {
                match b.get_single(name) {
                    Some(tok) => {
                        let copy = tok.clone();
                        out.push(copy);
                    },
                    None => {
                        return None;
                    },
                }
            },
            PatternToken::SpreadVariable(name) => {
                match b.get_spread(name) {
                    Some(run) => {
                        let ghost out_before = out.deep_view();
                        let mut j: usize = 0;
                        while j < run.len()
                            invariant
                                j <= run@.len(),
                                out.deep_view() =~= out_before + run.deep_view().take(j as int),
                            decreases run@.len() - j,
                        {
                            let ghost out_step = out.deep_view();
                            out.push(run[j].clone());
                            proof {
                                assert(out.deep_view() =~= out_step.push(
                                    run.deep_view()[j as int],
                                ));
                                assert(run.deep_view().take(j + 1) =~= run.deep_view().take(
                                    j as int,
                                ).push(run.deep_view()[j as int]));
                            }
                            j = j + 1;
                        }
                        proof {
                            assert(run.deep_view().take(run@.len() as int) =~= run.deep_view());
                        }
                    },
                    None => {
                        return None;
                    },
                }
            },
        }
        i = i + 1;
    }
    proof {
        assert(tov.skip(to@.len() as int).len() == 0);
        assert(spec_subst(tov, s1, sp1) == Some(out.deep_view() + Seq::<TokenView>::empty()));
        assert(out.deep_view() + Seq::<TokenView>::empty() =~= out.deep_view());
    }
    Some(out)
}

impl Definition {
    /// Definitions are written `high => low`, so the left side is the
    /// high one and the right side the low one.
    pub fn new(lhs: Vec<PatternToken>, rhs: Vec<PatternToken>) -> (r: Self)
        ensures
            r@.high == lhs.deep_view(),
            r@.low == rhs.deep_view(),
    {
        Definition { high: lhs, low: rhs }
    }

    /// Rewrites a whole window from one pattern into another.
    fn transform(from: &Vec<PatternToken>, to: &Vec<PatternToken>, expression: &Vec<Token>) -> (r:
        Option<Expression>)
        ensures
            match r {
                Some(out) => spec_transform(from.deep_view(), to.deep_view(), expression.deep_view())
                    == Some(out@),
                None => spec_transform(from.deep_view(), to.deep_view(), expression.deep_view())
                    is None,
            },
    {
        let bindings = match get_match_bindings(from, expression) {
            Some(b) => b,
            None => {
                return None;
            },
        };
        match apply_bindings(to, &bindings) {
            Some(tokens) => Some(Expression::new(tokens)),
            None => None,
        }
    }

    /// The pattern on the high side.
    pub fn get_high(&self) -> (r: &Vec<PatternToken>)
        ensures
            r.deep_view() == self@.high,
    {
        &self.high
    }

    /// The pattern on the low side.
    pub fn get_low(&self) -> (r: &Vec<PatternToken>)
        ensures
            r.deep_view() == self@.low,
    {
        &self.low
    }

    /// Applies the rule in its declared direction, `high` to `low`.
    pub fn lower(&self, expression: &Vec<Token>) -> (r: Option<Expression>)
        ensures
            match r {
                Some(out) => spec_transform(self@.high, self@.low, expression.deep_view()) == Some(
                    out@,
                ),
                None => spec_transform(self@.high, self@.low, expression.deep_view()) is None,
            },
    {
        Self::transform(&self.high, &self.low, expression)
    }

    /// Applies the rule against its declared direction, `low` to `high`.
    pub fn raise(&self, expression: &Vec<Token>) -> (r: Option<Expression>)
        ensures
            match r {
                Some(out) => spec_transform(self@.low, self@.high, expression.deep_view()) == Some(
                    out@,
                ),
                None => spec_transform(self@.low, self@.high, expression.deep_view()) is None,
            },
    {
        Self::transform(&self.low, &self.high, expression)
    }

    /// Applies the rule towards its preferred side — the same direction
    /// as lowering.
    pub fn into_preferred(&self, expression: &Vec<Token>) -> (r: Option<Expression>)
        ensures
            match r {
                Some(out) => spec_transform(self@.high, self@.low, expression.deep_view()) == Some(
                    out@,
                ),
                None => spec_transform(self@.high, self@.low, expression.deep_view()) is None,
            },
    {
        self.lower(expression)
    }

    /// Applies the rule away from its preferred side — the same direction
    /// as raising.
    pub fn out_of_preferred(&self, expression: &Vec<Token>) -> (r: Option<Expression>)
        ensures
            match r {
                Some(out) => spec_transform(self@.low, self@.high, expression.deep_view()) == Some(
                    out@,
                ),
                None => spec_transform(self@.low, self@.high, expression.deep_view()) is None,
            },
    {
        self.raise(expression)
    }

    /// Every way this rule rewrites the whole window: lowered first, then
    /// raised.
    pub fn get_transformations(&self, expression: &Vec<Token>) -> (r: Vec<Expression>)
        ensures
            r.deep_view() == ({
                let down = spec_transform(self@.high, self@.low, expression.deep_view());
                let up = spec_transform(self@.low, self@.high, expression.deep_view());
                let lowered: Seq<Seq<TokenView>> = if down is Some {
                    seq![down->Some_0]
                } else {
                    Seq::empty()
                };
                let raised: Seq<Seq<TokenView>> = if up is Some {
                    seq![up->Some_0]
                } else {
                    Seq::empty()
                };
                lowered + raised
            }),
    {
        let mut out: Vec<Expression> = Vec::new();
        if let Some(e) = self.lower(expression) {
            out.push(e);
        }
        if let Some(e) = self.raise(expression) {
            out.push(e);
        }
        proof {
            let down = spec_transform(self@.high, self@.low, expression.deep_view());
            let up = spec_transform(self@.low, self@.high, expression.deep_view());
            let lowered: Seq<Seq<TokenView>> = if down is Some {
                seq![down->Some_0]
            } else {
                Seq::empty()
            };
            let raised: Seq<Seq<TokenView>> = if up is Some {
                seq![up->Some_0]
            } else {
                Seq::empty()
            };
            assert(out.deep_view() =~= lowered + raised);
        }
        out
    }
}

} // verus!
