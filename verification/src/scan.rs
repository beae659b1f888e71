//! The scanner: turns source text into tokens by greedy prefix matching.
//! Reserved literals are tried first, then domain atoms, then a run of
//! word characters as a variable name; a name followed by `...` is a
//! spread variable, and a single character is consumed when nothing else
//! applies. Within each category the set's own order decides which
//! element is tried first.

use vstd::prelude::*;

use crate::chars::{is_space, is_word_char, string_of_range, word_char};
use crate::strset::StrSet;
use crate::token::{PatternToken, PatternTokenView, Token, TokenView};

verus! {

/// One sequence is an initial segment of another.
pub open spec fn chars_prefix(p: Seq<char>, t: Seq<char>) -> bool {
    p.len() <= t.len() && t.take(p.len() as int) == p
}

/// The text with its leading whitespace dropped.
pub open spec fn skip_space(s: Seq<char>) -> Seq<char>
    decreases s.len(),
{
    if s.len() > 0 && is_space(s[0]) {
        skip_space(s.drop_first())
    } else {
        s
    }
}

/// The first element, in set order, that is a prefix of the text.
pub open spec fn first_prefix(sets: Seq<Seq<char>>, t: Seq<char>) -> Option<Seq<char>>
    decreases sets.len(),
{
    if sets.len() == 0 {
        None
    } else if chars_prefix(sets[0], t) {
        Some(sets[0])
    } else {
        first_prefix(sets.drop_first(), t)
    }
}

/// How many word characters the text begins with.
pub open spec fn word_run(t: Seq<char>) -> int
    decreases t.len(),
{
    if t.len() > 0 && is_word_char(t[0]) {
        1 + word_run(t.drop_first())
    } else {
        0
    }
}

/// No element of the set is the empty string.
pub open spec fn all_nonempty(sets: Seq<Seq<char>>) -> bool {
    forall|i: int| 0 <= i < sets.len() ==> #[trigger] sets[i].len() > 0
}

/// The dots that mark a spread variable.
pub open spec fn spread_mark() -> Seq<char> {
    seq!['.', '.', '.']
}

/// What scanning pattern text yields, token by token.
pub open spec fn scan_pattern(
    rsv: Seq<Seq<char>>,
    dom: Seq<Seq<char>>,
    s: Seq<char>,
) -> Seq<PatternTokenView>
    decreases s.len(),
    via scan_pattern_decreases
{
    let t = skip_space(s);
    if t.len() == 0 || !all_nonempty(rsv) || !all_nonempty(dom) {
        Seq::empty()
    } else if first_prefix(rsv, t) is Some {
        let lit = first_prefix(rsv, t)->Some_0;
        seq![PatternTokenView::Concrete(TokenView::Literal { name: lit })] + scan_pattern(
            rsv,
            dom,
            t.skip(lit.len() as int),
        )
    } else if first_prefix(dom, t) is Some {
        let atom = first_prefix(dom, t)->Some_0;
        seq![PatternTokenView::Concrete(TokenView::Element { name: atom })] + scan_pattern(
            rsv,
            dom,
            t.skip(atom.len() as int),
        )
    } else {
        let w = word_run(t);
        let k = if w > 0 {
            w
        } else {
            1
        };
        let name = t.take(k);
        let rest = t.skip(k);
        if chars_prefix(spread_mark(), rest) {
            seq![PatternTokenView::SpreadVariable { name }] + scan_pattern(
                rsv,
                dom,
                rest.skip(3),
            )
        } else {
            seq![PatternTokenView::Variable { name }] + scan_pattern(rsv, dom, rest)
        }
    }
}

/// What scanning expression text yields: the tokens, or the text at
/// which no reserved literal and no domain atom applies.
pub open spec fn scan_expression(
    rsv: Seq<Seq<char>>,
    dom: Seq<Seq<char>>,
    s: Seq<char>,
) -> Result<Seq<TokenView>, Seq<char>>
    decreases s.len(),
    via scan_expression_decreases
{
    let t = skip_space(s);
    if t.len() == 0 || !all_nonempty(rsv) || !all_nonempty(dom) {
        Ok(Seq::empty())
    } else if first_prefix(rsv, t) is Some {
        let lit = first_prefix(rsv, t)->Some_0;
        match scan_expression(rsv, dom, t.skip(lit.len() as int)) {
            Ok(rest) => Ok(seq![TokenView::Literal { name: lit }] + rest),
            Err(e) => Err(e),
        }
    } else if first_prefix(dom, t) is Some {
        let atom = first_prefix(dom, t)->Some_0;
        match scan_expression(rsv, dom, t.skip(atom.len() as int)) {
            Ok(rest) => Ok(seq![TokenView::Element { name: atom }] + rest),
            Err(e) => Err(e),
        }
    } else {
        Err(t)
    }
}

/// Skipping whitespace never lengthens the text.
pub proof fn lemma_skip_space_len(s: Seq<char>)
    ensures
        skip_space(s).len() <= s.len(),
        s.skip(s.len() - skip_space(s).len()) == skip_space(s),
    decreases s.len(),
{
    if s.len() > 0 && is_space(s[0]) {
        lemma_skip_space_len(s.drop_first());
        assert(s.drop_first().skip(s.drop_first().len() - skip_space(s.drop_first()).len())
            =~= s.skip(s.len() - skip_space(s).len()));
    } else {
        assert(s.skip(0) =~= s);
    }
}

/// A matched prefix is an element of the set.
pub proof fn lemma_first_prefix_member(sets: Seq<Seq<char>>, t: Seq<char>)
    ensures
        first_prefix(sets, t) is Some ==> {
            let e = first_prefix(sets, t)->Some_0;
            exists|i: int| 0 <= i < sets.len() && sets[i] == e && chars_prefix(e, t)
        },
        (first_prefix(sets, t) is None) <==> (forall|i: int|
            0 <= i < sets.len() ==> !chars_prefix(#[trigger] sets[i], t)),
    decreases sets.len(),
{
    if sets.len() > 0 {
        lemma_first_prefix_member(sets.drop_first(), t);
        if chars_prefix(sets[0], t) {
        } else {
            if first_prefix(sets, t) is Some {
                let e = first_prefix(sets, t)->Some_0;
                let i = choose|i: int|
                    0 <= i < sets.drop_first().len() && sets.drop_first()[i] == e && chars_prefix(
                        e,
                        t,
                    );
                assert(sets[i + 1] == e);
            } else {
                assert forall|i: int|
                    0 <= i < sets.len() implies !chars_prefix(#[trigger] sets[i], t) by {
                    if i > 0 {
                        assert(sets.drop_first()[i - 1] == sets[i]);
                    }
                }
            }
        }
    }
}

/// A word run never reaches past the end of the text.
pub proof fn lemma_word_run_bound(t: Seq<char>)
    ensures
        0 <= word_run(t) <= t.len(),
    decreases t.len(),
{
    if t.len() > 0 && is_word_char(t[0]) {
        lemma_word_run_bound(t.drop_first());
    }
}

#[via_fn]
proof fn scan_pattern_decreases(rsv: Seq<Seq<char>>, dom: Seq<Seq<char>>, s: Seq<char>) {
    lemma_skip_space_len(s);
    let t = skip_space(s);
    if t.len() > 0 && all_nonempty(rsv) && all_nonempty(dom) {
        lemma_first_prefix_member(rsv, t);
        lemma_first_prefix_member(dom, t);
        lemma_word_run_bound(t);
    }
}

#[via_fn]
proof fn scan_expression_decreases(rsv: Seq<Seq<char>>, dom: Seq<Seq<char>>, s: Seq<char>) {
    lemma_skip_space_len(s);
    let t = skip_space(s);
    if t.len() > 0 && all_nonempty(rsv) && all_nonempty(dom) {
        lemma_first_prefix_member(rsv, t);
        lemma_first_prefix_member(dom, t);
    }
}

/// Precedence of scanning: when any reserved literal stands at the head
/// of the (trimmed) text, the first token scanned is that of a reserved
/// literal — never a domain atom and never a variable — even when a
/// domain atom also stands there.
pub proof fn lemma_reserved_takes_precedence(
    rsv: Seq<Seq<char>>,
    dom: Seq<Seq<char>>,
    s: Seq<char>,
)
    requires
        all_nonempty(rsv),
        all_nonempty(dom),
        exists|i: int| 0 <= i < rsv.len() && chars_prefix(#[trigger] rsv[i], skip_space(s)),
    ensures
        scan_pattern(rsv, dom, s).len() > 0,
        scan_pattern(rsv, dom, s)[0] matches PatternTokenView::Concrete(
            TokenView::Literal { .. },
        ),
        scan_expression(rsv, dom, s) is Ok ==> {
            let toks = scan_expression(rsv, dom, s)->Ok_0;
            toks.len() > 0 && toks[0] is Literal
        },
{
    let t = skip_space(s);
    let i = choose|i: int| 0 <= i < rsv.len() && chars_prefix(#[trigger] rsv[i], t);
    assert(rsv[i].len() > 0);
    assert(t.len() > 0);
    lemma_first_prefix_member(rsv, t);
    assert(first_prefix(rsv, t) is Some);
}

/// The position after the run of whitespace at `pos`.
pub fn skip_space_at(cs: &Vec<char>, pos: usize) -> (r: usize)
    requires
        pos <= cs@.len(),
    ensures
        pos <= r <= cs@.len(),
        cs@.skip(r as int) == skip_space(cs@.skip(pos as int)),
{
    let mut r = pos;
    while r < cs.len() && cs[r].is_whitespace()
        invariant
            pos <= r <= cs@.len(),
            skip_space(cs@.skip(pos as int)) == skip_space(cs@.skip(r as int)),
        decreases cs@.len() - r,
    {
        proof {
            assert(cs@.skip(r as int)[0] == cs@[r as int]);
            assert(cs@.skip(r as int).drop_first() =~= cs@.skip(r + 1));
        }
        r = r + 1;
    }
    proof {
        if r < cs@.len() {
            assert(cs@.skip(r as int)[0] == cs@[r as int]);
        }
        assert(skip_space(cs@.skip(r as int)) == cs@.skip(r as int));
    }
    r
}

/// Whether the string stands at `pos` of the text.
pub fn prefix_at(cs: &Vec<char>, pos: usize, p: &String) -> (r: bool)
    requires
        pos <= cs@.len(),
    ensures
        r == chars_prefix(p@, cs@.skip(pos as int)),
{
    let pv = crate::chars::chars_of(p.as_str());
    let ghost rest = cs@.skip(pos as int);
    if pv.len() > cs.len() - pos {
        proof {
            assert(p@.len() > rest.len());
        }
        return false;
    }
    let mut i: usize = 0;
    while i < pv.len()
        invariant
            i <= pv@.len(),
            pv@ == p@,
            cs@.len() <= usize::MAX,
            pos + pv@.len() <= cs@.len(),
            rest == cs@.skip(pos as int),
            rest.take(p@.len() as int).take(i as int) =~= p@.take(i as int),
        decreases pv@.len() - i,
    {
        proof {
            assert(rest[i as int] == cs@[pos + i]);
        }
        if cs[pos + i] != pv[i] {
            proof {
                assert(rest.take(p@.len() as int)[i as int] == rest[i as int]);
                assert(p@[i as int] != rest[i as int]);
            }
            return false;
        }
        proof {
            assert(rest.take(p@.len() as int).take(i + 1) =~= rest.take(p@.len() as int).take(
                i as int,
            ).push(rest[i as int]));
            assert(p@.take(i + 1) =~= p@.take(i as int).push(p@[i as int]));
        }
        i = i + 1;
    }
    proof {
        assert(rest.take(p@.len() as int).take(p@.len() as int) =~= rest.take(p@.len() as int));
        assert(p@.take(p@.len() as int) =~= p@);
    }
    true
}

/// The first element of the set, in set order, standing at `pos`.
fn first_prefix_at(set: &StrSet, cs: &Vec<char>, pos: usize) -> (r: Option<String>)
    requires
        pos <= cs@.len(),
    ensures
        match r {
            Some(e) => first_prefix(set@, cs@.skip(pos as int)) == Some(e@),
            None => first_prefix(set@, cs@.skip(pos as int)) is None,
        },
{
    let ghost rest = cs@.skip(pos as int);
    let ghost sv = set@;
    let mut i: usize = 0;
    proof {
        assert(sv.skip(0) =~= sv);
    }
    while i < set.len()
        invariant
            i <= sv.len(),
            pos <= cs@.len(),
            sv == set@,
            rest == cs@.skip(pos as int),
            first_prefix(sv, rest) == first_prefix(sv.skip(i as int), rest),
        decreases sv.len() - i,
    {
        let ghost tail = sv.skip(i as int);
        proof {
            assert(tail[0] == sv[i as int]);
            assert(tail.drop_first() =~= sv.skip(i + 1));
        }
        if prefix_at(cs, pos, set.get(i)) {
            return Some(set.get(i).clone());
        }
        i = i + 1;
    }
    proof {
        assert(sv.skip(sv.len() as int).len() == 0);
    }
    None
}

/// How many word characters stand at `pos`.
fn word_run_at(cs: &Vec<char>, pos: usize) -> (r: usize)
    requires
        pos <= cs@.len(),
    ensures
        r == word_run(cs@.skip(pos as int)),
        pos + r <= cs@.len(),
{
    let n = cs.len();
    let mut r: usize = 0;
    while pos + r < n && word_char(cs[pos + r])
        invariant
            n == cs@.len(),
            pos + r <= cs@.len(),
            word_run(cs@.skip(pos as int)) == r + word_run(cs@.skip(pos + r)),
        decreases cs@.len() - pos - r,
    {
        proof {
            assert(cs@.skip(pos + r)[0] == cs@[pos + r]);
            assert(cs@.skip(pos + r).drop_first() =~= cs@.skip(pos + r + 1));
        }
        r = r + 1;
    }
    proof {
        if pos + r < cs@.len() {
            assert(cs@.skip(pos + r)[0] == cs@[pos + r]);
        }
        assert(word_run(cs@.skip(pos + r)) == 0);
    }
    r
}

/// Scans pattern text into pattern tokens.
pub fn scan_pattern_text(rsv: &StrSet, dom: &StrSet, cs: &Vec<char>) -> (r: Vec<PatternToken>)
    requires
        all_nonempty(rsv@),
        all_nonempty(dom@),
    ensures
        r.deep_view() == scan_pattern(rsv@, dom@, cs@),
{
    let mut out: Vec<PatternToken> = Vec::new();
    let mut pos: usize = 0;
    proof {
        assert(cs@.skip(0) =~= cs@);
        assert(out.deep_view() + scan_pattern(rsv@, dom@, cs@) =~= scan_pattern(rsv@, dom@, cs@));
    }
    while pos < cs.len()
        invariant
            pos <= cs@.len(),
            all_nonempty(rsv@),
            all_nonempty(dom@),
            scan_pattern(rsv@, dom@, cs@) == out.deep_view() + scan_pattern(
                rsv@,
                dom@,
                cs@.skip(pos as int),
            ),
        decreases cs@.len() - pos,
    {
        let ghost pending = scan_pattern(rsv@, dom@, cs@.skip(pos as int));
        let p2 = skip_space_at(cs, pos);
        let ghost t = cs@.skip(p2 as int);
        if p2 == cs.len() {
            proof {
                assert(t.len() == 0);
                assert(pending =~= Seq::<PatternTokenView>::empty());
                assert(out.deep_view() + pending =~= out.deep_view());
            }
            return out;
        }
        match first_prefix_at(rsv, cs, p2) {
            Some(lit) => {
                let litc = crate::chars::chars_of(lit.as_str());
                proof {
                    lemma_first_prefix_member(rsv@, t);
                    assert(t.skip(lit@.len() as int) =~= cs@.skip(p2 + litc@.len()));
                }
                let ghost before = out.deep_view();
                let next = p2 + litc.len();
                out.push(PatternToken::Concrete(Token::Literal(lit)));
                proof {
                    assert(out.deep_view() =~= before.push(
                        PatternTokenView::Concrete(TokenView::Literal { name: litc@ }),
                    ));
                    assert(out.deep_view() + scan_pattern(rsv@, dom@, cs@.skip(next as int))
                        =~= before + pending);
                }
                pos = next;
            },
            None => {
                match first_prefix_at(dom, cs, p2) {
                    Some(atom) => {
                        let atomc = crate::chars::chars_of(atom.as_str());
                        proof {
                            lemma_first_prefix_member(dom@, t);
                            assert(t.skip(atom@.len() as int) =~= cs@.skip(p2 + atomc@.len()));
                        }
                        let ghost before = out.deep_view();
                        let next = p2 + atomc.len();
                        out.push(PatternToken::Concrete(Token::Element(atom)));
                        proof {
                            assert(out.deep_view() =~= before.push(
                                PatternTokenView::Concrete(
                                    TokenView::Element { name: atomc@ },
                                ),
                            ));
                            assert(out.deep_view() + scan_pattern(
                                rsv@,
                                dom@,
                                cs@.skip(next as int),
                            ) =~= before + pending);
                        }
                        pos = next;
                    },
                    None => {
                        let w = word_run_at(cs, p2);
                        let k = if w > 0 {
                            w
                        } else {
                            1
                        };
                        proof {
                            assert(t.take(k as int) =~= cs@.subrange(p2 as int, p2 + k));
                            assert(t.skip(k as int) =~= cs@.skip(p2 + k));
                        }
                        let name = string_of_range(cs, p2, p2 + k);
                        let next = p2 + k;
                        let spread = cs.len() - next >= 3 && cs[next] == '.' && cs[next + 1]
                            == '.' && cs[next + 2] == '.';
                        proof {
                            let rest = t.skip(k as int);
                            if spread {
                                assert(rest.take(3)[0] == cs@[next as int]);
                                assert(rest.take(3)[1] == cs@[next + 1]);
                                assert(rest.take(3)[2] == cs@[next + 2]);
                                assert(rest.take(3) =~= spread_mark());
                                assert(chars_prefix(spread_mark(), rest));
                                assert(rest.skip(3) =~= cs@.skip(next + 3));
                            } else {
                                if chars_prefix(spread_mark(), rest) {
                                    assert(rest.len() >= 3);
                                    assert(rest.take(3)[0] == cs@[next as int]);
                                    assert(rest.take(3)[1] == cs@[next + 1]);
                                    assert(rest.take(3)[2] == cs@[next + 2]);
                                    assert(spread_mark()[0] == '.');
                                    assert(spread_mark()[1] == '.');
                                    assert(spread_mark()[2] == '.');
                                }
                            }
                        }
                        let ghost before = out.deep_view();
                        if spread {
                            out.push(PatternToken::SpreadVariable(name));
                            proof {
                                assert(out.deep_view() =~= before.push(
                                    PatternTokenView::SpreadVariable { name: t.take(k as int) },
                                ));
                                assert(out.deep_view() + scan_pattern(
                                    rsv@,
                                    dom@,
                                    cs@.skip(next + 3),
                                ) =~= before + pending);
                            }
                            pos = next + 3;
                        } else {
                            out.push(PatternToken::Variable(name));
                            proof {
                                assert(out.deep_view() =~= before.push(
                                    PatternTokenView::Variable { name: t.take(k as int) },
                                ));
                                assert(out.deep_view() + scan_pattern(
                                    rsv@,
                                    dom@,
                                    cs@.skip(next as int),
                                ) =~= before + pending);
                            }
                            pos = next;
                        }
                    },
                }
            },
        }
    }
    proof {
        assert(cs@.skip(cs@.len() as int).len() == 0);
        assert(skip_space(cs@.skip(pos as int)).len() == 0);
        assert(scan_pattern(rsv@, dom@, cs@.skip(pos as int)) =~= Seq::<
            PatternTokenView,
        >::empty());
        assert(out.deep_view() + scan_pattern(rsv@, dom@, cs@.skip(pos as int)) =~= out
            .deep_view());
    }
    out
}

/// Scans expression text into tokens; fails at the first text where no
/// reserved literal and no domain atom stands.
pub fn scan_expression_text(rsv: &StrSet, dom: &StrSet, cs: &Vec<char>) -> (r: Result<
    Vec<Token>,
    crate::errors::ParseError,
>)
    requires
        all_nonempty(rsv@),
        all_nonempty(dom@),
    ensures
        match r {
            Ok(v) => scan_expression(rsv@, dom@, cs@) == Ok::<Seq<TokenView>, Seq<char>>(
                v.deep_view(),
            ),
            Err(e) => {
                &&& scan_expression(rsv@, dom@, cs@) is Err
                &&& e@ == (crate::errors::ParseErrorView::UnknownToken {
                    text: scan_expression(rsv@, dom@, cs@)->Err_0,
                })
            },
        },
{
    let mut out: Vec<Token> = Vec::new();
    let mut pos: usize = 0;
    proof {
        assert(cs@.skip(0) =~= cs@);
    }
    while pos < cs.len()
        invariant
            pos <= cs@.len(),
            all_nonempty(rsv@),
            all_nonempty(dom@),
            scan_expression(rsv@, dom@, cs@) == (match scan_expression(
                rsv@,
                dom@,
                cs@.skip(pos as int),
            ) {
                Ok(rest) => Ok::<Seq<TokenView>, Seq<char>>(out.deep_view() + rest),
                Err(e) => Err(e),
            }),
        decreases cs@.len() - pos,
    {
        let p2 = skip_space_at(cs, pos);
        let ghost t = cs@.skip(p2 as int);
        if p2 == cs.len() {
            proof {
                assert(t.len() == 0);
                assert(out.deep_view() + Seq::<TokenView>::empty() =~= out.deep_view());
            }
            return Ok(out);
        }
        match first_prefix_at(rsv, cs, p2) {
            Some(lit) => {
                let litc = crate::chars::chars_of(lit.as_str());
                proof {
                    lemma_first_prefix_member(rsv@, t);
                    assert(t.skip(lit@.len() as int) =~= cs@.skip(p2 + litc@.len()));
                }
                let ghost before = out.deep_view();
                let next = p2 + litc.len();
                out.push(Token::Literal(lit));
                proof {
                    assert(out.deep_view() =~= before.push(TokenView::Literal { name: litc@ }));
                    if scan_expression(rsv@, dom@, cs@.skip(next as int)) is Ok {
                        assert(out.deep_view() + scan_expression(
                            rsv@,
                            dom@,
                            cs@.skip(next as int),
                        )->Ok_0 =~= before + (seq![TokenView::Literal { name: litc@ }]
                            + scan_expression(rsv@, dom@, cs@.skip(next as int))->Ok_0));
                    }
                }
                pos = next;
            },
            None => {
                match first_prefix_at(dom, cs, p2) {
                    Some(atom) => {
                        let atomc = crate::chars::chars_of(atom.as_str());
                        proof {
                            lemma_first_prefix_member(dom@, t);
                            assert(t.skip(atom@.len() as int) =~= cs@.skip(p2 + atomc@.len()));
                        }
                        let ghost before = out.deep_view();
                        let next = p2 + atomc.len();
                        out.push(Token::Element(atom));
                        proof {
                            assert(out.deep_view() =~= before.push(
                                TokenView::Element { name: atomc@ },
                            ));
                            if scan_expression(rsv@, dom@, cs@.skip(next as int)) is Ok {
                                assert(out.deep_view() + scan_expression(
                                    rsv@,
                                    dom@,
                                    cs@.skip(next as int),
                                )->Ok_0 =~= before + (seq![TokenView::Element { name: atomc@ }]
                                    + scan_expression(rsv@, dom@, cs@.skip(next as int))->Ok_0));
                            }
                        }
                        pos = next;
                    },
                    None => {
                        let text = string_of_range(cs, p2, cs.len());
                        proof {
                            assert(cs@.subrange(p2 as int, cs@.len() as int) =~= t);
                        }
                        return Err(crate::errors::ParseError::UnknownToken(text));
                    },
                }
            },
        }
    }
    proof {
        assert(cs@.skip(pos as int).len() == 0);
        assert(skip_space(cs@.skip(pos as int)).len() == 0);
        assert(out.deep_view() + Seq::<TokenView>::empty() =~= out.deep_view());
    }
    Ok(out)
}

} // verus!
