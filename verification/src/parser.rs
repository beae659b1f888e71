//! Parsing of module source text: comment stripping, the `domain`,
//! `reserve` and `use` clauses, and definitions of the form
//! `LHS => RHS ;` or `LHS <=> RHS ;`.

use vstd::prelude::*;

use crate::chars::{is_space, string_of_range};
use crate::definition::{Definition, DefinitionView};
use crate::errors::{ParseError, ParseErrorView};
use crate::scan::{
    all_nonempty, chars_prefix, scan_pattern, scan_pattern_text, skip_space,
};
use crate::strset::{
    lemma_set_insert_has, lemma_set_insert_sorted, set_insert, sorted_strict, StrSet,
};
use crate::token::PatternToken;

verus! {

/// Where a character first occurs, or the length when it does not.
pub open spec fn find_char(s: Seq<char>, c: char) -> int
    decreases s.len(),
{
    if s.len() == 0 {
        0
    } else if s[0] == c {
        0
    } else {
        1 + find_char(s.drop_first(), c)
    }
}

pub proof fn lemma_find_char(s: Seq<char>, c: char)
    ensures
        0 <= find_char(s, c) <= s.len(),
        find_char(s, c) < s.len() ==> s[find_char(s, c)] == c,
        forall|j: int| 0 <= j < find_char(s, c) ==> s[j] != c,
    decreases s.len(),
{
    if s.len() > 0 && s[0] != c {
        lemma_find_char(s.drop_first(), c);
        let r = find_char(s, c);
        assert forall|j: int| 0 <= j < r implies s[j] != c by {
            if j > 0 {
                assert(s.drop_first()[j - 1] == s[j]);
            }
        }
        if r < s.len() {
            assert(s.drop_first()[r - 1] == s[r]);
        }
    }
}

/// Where a sub-sequence first stands, or the length when it does not.
pub open spec fn find_sub(s: Seq<char>, p: Seq<char>) -> int
    decreases s.len(),
{
    if chars_prefix(p, s) {
        0
    } else if s.len() == 0 {
        0
    } else {
        1 + find_sub(s.drop_first(), p)
    }
}

pub proof fn lemma_find_sub(s: Seq<char>, p: Seq<char>)
    requires
        p.len() > 0,
    ensures
        0 <= find_sub(s, p) <= s.len(),
        find_sub(s, p) < s.len() ==> chars_prefix(p, s.skip(find_sub(s, p))),
        forall|j: int| 0 <= j < find_sub(s, p) ==> !chars_prefix(p, s.skip(j)),
        find_sub(s, p) == s.len() ==> forall|j: int|
            0 <= j < s.len() ==> !chars_prefix(p, #[trigger] s.skip(j)),
    decreases s.len(),
{
    if chars_prefix(p, s) {
        assert(s.skip(0) =~= s);
    } else if s.len() == 0 {
    } else {
        lemma_find_sub(s.drop_first(), p);
        let r = find_sub(s, p);
        assert(s.skip(0) =~= s);
        assert(forall|j: int|
            1 <= j <= s.len() ==> s.drop_first().skip(j - 1) =~= #[trigger] s.skip(j));
        if r < s.len() {
            assert(chars_prefix(p, s.drop_first().skip(r - 1)));
        }
        assert forall|j: int| 0 <= j < r implies !chars_prefix(p, s.skip(j)) by {
            if j > 0 {
                assert(s.drop_first().skip(j - 1) =~= s.skip(j));
            }
        }
    }
}

/// The text with trailing whitespace dropped.
pub open spec fn drop_trailing(s: Seq<char>) -> Seq<char>
    decreases s.len(),
{
    if s.len() > 0 && is_space(s.last()) {
        drop_trailing(s.drop_last())
    } else {
        s
    }
}

/// The text with whitespace dropped at both ends.
pub open spec fn trim(s: Seq<char>) -> Seq<char> {
    skip_space(drop_trailing(s))
}

/// The comma-separated pieces of the text.
pub open spec fn split_commas(s: Seq<char>) -> Seq<Seq<char>>
    decreases s.len(),
    via split_commas_decreases
{
    let i = find_char(s, ',');
    if i == s.len() {
        seq![s]
    } else {
        seq![s.take(i)] + split_commas(s.skip(i + 1))
    }
}

#[via_fn]
proof fn split_commas_decreases(s: Seq<char>) {
    lemma_find_char(s, ',');
}

/// The ordered set of the trimmed, non-empty pieces.
pub open spec fn set_of_names(parts: Seq<Seq<char>>) -> Seq<Seq<char>>
    decreases parts.len(),
{
    if parts.len() == 0 {
        Seq::empty()
    } else {
        let prev = set_of_names(parts.drop_last());
        let t = trim(parts.last());
        if t.len() == 0 {
            prev
        } else {
            set_insert(prev, t)
        }
    }
}

/// A name set is sorted and holds no empty name.
pub proof fn lemma_set_of_names_wf(parts: Seq<Seq<char>>)
    ensures
        sorted_strict(set_of_names(parts)),
        all_nonempty(set_of_names(parts)),
    decreases parts.len(),
{
    if parts.len() > 0 {
        lemma_set_of_names_wf(parts.drop_last());
        let prev = set_of_names(parts.drop_last());
        let t = trim(parts.last());
        if t.len() > 0 {
            lemma_set_insert_sorted(prev, t);
            assert forall|i: int|
                0 <= i < set_insert(prev, t).len() implies #[trigger] set_insert(
                prev,
                t,
            )[i].len() > 0 by {
                let y = set_insert(prev, t)[i];
                assert(crate::strset::seq_has(set_insert(prev, t), y));
                lemma_set_insert_has(prev, t, y);
                if y != t {
                    let j = choose|j: int| 0 <= j < prev.len() && prev[j] == y;
                    assert(prev[j].len() > 0);
                }
            }
        }
    }
}

/// What parsing `<keyword> { a, b, .. }` yields: the rest of the text
/// and the ordered set of names, or what was expected and found.
pub open spec fn parse_keyword_set(kw: Seq<char>, s: Seq<char>) -> Result<
    (Seq<char>, Seq<Seq<char>>),
    ParseErrorView,
> {
    let s0 = skip_space(s);
    if !chars_prefix(kw, s0) {
        Err(
            ParseErrorView::Expected {
                expected: kw,
                found: s0.take(if kw.len() <= s0.len() {
                    kw.len() as int
                } else {
                    s0.len() as int
                }),
            },
        )
    } else {
        let s1 = skip_space(s0.skip(kw.len() as int));
        if !chars_prefix(seq!['{'], s1) {
            Err(
                ParseErrorView::Expected {
                    expected: seq!['{'],
                    found: s1.take(if s1.len() >= 1 {
                        1int
                    } else {
                        0int
                    }),
                },
            )
        } else {
            let s2 = skip_space(s1.skip(1));
            let i = find_char(s2, '}');
            if i == s2.len() {
                Err(ParseErrorView::Expected { expected: seq!['}'], found: s2 })
            } else {
                Ok((s2.skip(i + 1), set_of_names(split_commas(s2.take(i)))))
            }
        }
    }
}

/// What parsing one definition yields: the rest after the semicolon and
/// one directed definition — two for a bidirectional one.
pub open spec fn parse_definition_spec(
    rsv: Seq<Seq<char>>,
    dom: Seq<Seq<char>>,
    s: Seq<char>,
) -> Result<(Seq<char>, Seq<DefinitionView>), ParseErrorView> {
    let i = find_char(s, ';');
    if i == s.len() {
        Err(ParseErrorView::Expected { expected: seq![';'], found: s })
    } else {
        let body = s.take(i);
        let rest = s.skip(i + 1);
        let j = find_sub(body, seq!['=', '>']);
        if j == body.len() {
            Err(
                ParseErrorView::Expected {
                    expected: "something after => or <=>"@,
                    found: rest,
                },
            )
        } else {
            let lhs_raw = body.take(j);
            let rhs_full = body.skip(j + 2);
            if find_sub(rhs_full, seq!['=', '>']) != rhs_full.len() {
                Err(
                    ParseErrorView::Expected {
                        expected: "a single => or <=> in a definition"@,
                        found: rest,
                    },
                )
            } else {
                let double = lhs_raw.len() > 0 && lhs_raw.last() == '<';
                let lhs_t = if double {
                    lhs_raw.drop_last()
                } else {
                    lhs_raw
                };
                let lp = scan_pattern(rsv, dom, lhs_t);
                let rp = scan_pattern(rsv, dom, rhs_full);
                if double {
                    Ok(
                        (
                            rest,
                            seq![
                                DefinitionView { high: lp, low: rp },
                                DefinitionView { high: rp, low: lp },
                            ],
                        ),
                    )
                } else {
                    Ok((rest, seq![DefinitionView { high: lp, low: rp }]))
                }
            }
        }
    }
}

/// Every definition at the front of the text, one after another: the
/// parse stops at the first text that is not a definition, as the loader
/// does.
pub open spec fn definitions_spec(
    rsv: Seq<Seq<char>>,
    dom: Seq<Seq<char>>,
    s: Seq<char>,
) -> Seq<DefinitionView>
    decreases s.len(),
    via definitions_spec_decreases
{
    match parse_definition_spec(rsv, dom, s) {
        Result::Ok((rest, defs)) => defs + definitions_spec(rsv, dom, rest),
        Result::Err(_) => Seq::empty(),
    }
}

#[via_fn]
proof fn definitions_spec_decreases(rsv: Seq<Seq<char>>, dom: Seq<Seq<char>>, s: Seq<char>) {
    lemma_find_char(s, ';');
}

/// What parsing a module header yields: the text after comments are
/// stripped must open with the `domain`, `reserve` and `use` clauses, in
/// that order; the rest of the text holds the definitions.
pub open spec fn header_spec(s: Seq<char>) -> Result<
    (Seq<Seq<char>>, Seq<Seq<char>>, Seq<Seq<char>>, Seq<char>),
    ParseErrorView,
> {
    let t = strip_comments_spec(s);
    match parse_keyword_set("domain"@, t) {
        Result::Err(e) => Err(e),
        Result::Ok((r1, dom)) => match parse_keyword_set("reserve"@, r1) {
            Result::Err(e) => Err(e),
            Result::Ok((r2, rsv)) => match parse_keyword_set("use"@, r2) {
                Result::Err(e) => Err(e),
                Result::Ok((r3, uses)) => Ok((dom, rsv, uses, r3)),
            },
        },
    }
}

/// The text with every comment — a `#` through the end of its line —
/// removed.
pub open spec fn strip_comments_spec(s: Seq<char>) -> Seq<char>
    decreases s.len(),
    via strip_comments_decreases
{
    if s.len() == 0 {
        Seq::empty()
    } else if s[0] == '#' {
        strip_comments_spec(s.skip(find_char(s, '\n')))
    } else {
        seq![s[0]] + strip_comments_spec(s.drop_first())
    }
}

#[via_fn]
proof fn strip_comments_decreases(s: Seq<char>) {
    if s.len() > 0 && s[0] == '#' {
        lemma_find_char(s, '\n');
        assert(find_char(s, '\n') > 0);
    }
}

/// Strips comments from source text.
pub fn strip_comments(cs: &Vec<char>) -> (r: Vec<char>)
    ensures
        r@ == strip_comments_spec(cs@),
{
    let n = cs.len();
    let mut out: Vec<char> = Vec::new();
    let mut pos: usize = 0;
    proof {
        assert(cs@.skip(0) =~= cs@);
        assert(out@ + strip_comments_spec(cs@) =~= strip_comments_spec(cs@));
    }
    while pos < n
        invariant
            pos <= n,
            n == cs@.len(),
            strip_comments_spec(cs@) == out@ + strip_comments_spec(cs@.skip(pos as int)),
        decreases n - pos,
    {
        let ghost rem = cs@.skip(pos as int);
        proof {
            assert(rem[0] == cs@[pos as int]);
            assert(rem.drop_first() =~= cs@.skip(pos + 1));
        }
        if cs[pos] == '#' {
            let j = find_char_at(cs, pos, '\n');
            proof {
                lemma_find_char(rem, '\n');
                assert(rem.skip(find_char(rem, '\n')) =~= cs@.skip(j as int));
                assert(find_char(rem, '\n') > 0);
            }
            pos = j;
        } else {
            let ghost before = out@;
            out.push(cs[pos]);
            proof {
                assert(out@ =~= before.push(rem[0]));
                assert(out@ + strip_comments_spec(cs@.skip(pos + 1)) =~= before + (seq![rem[0]]
                    + strip_comments_spec(rem.drop_first())));
            }
            pos = pos + 1;
        }
    }
    proof {
        assert(cs@.skip(pos as int).len() == 0);
        assert(out@ + Seq::<char>::empty() =~= out@);
    }
    out
}

/// The position of the first occurrence of `c` at or after `pos`, or the
/// text's end.
pub fn find_char_at(cs: &Vec<char>, pos: usize, c: char) -> (r: usize)
    requires
        pos <= cs@.len(),
    ensures
        pos <= r <= cs@.len(),
        r - pos == find_char(cs@.skip(pos as int), c),
{
    let n = cs.len();
    let mut r = pos;
    while r < n && cs[r] != c
        invariant
            pos <= r <= n,
            n == cs@.len(),
            find_char(cs@.skip(pos as int), c) == (r - pos) + find_char(cs@.skip(r as int), c),
        decreases n - r,
    {
        proof {
            assert(cs@.skip(r as int)[0] == cs@[r as int]);
            assert(cs@.skip(r as int).drop_first() =~= cs@.skip(r + 1));
        }
        r = r + 1;
    }
    proof {
        if r < n {
            assert(cs@.skip(r as int)[0] == cs@[r as int]);
            assert(find_char(cs@.skip(r as int), c) == 0);
        } else {
            assert(cs@.skip(r as int).len() == 0);
        }
    }
    r
}

/// The characters `cs[from..to]`, copied out.
pub fn subchars(cs: &Vec<char>, from: usize, to: usize) -> (r: Vec<char>)
    requires
        from <= to <= cs@.len(),
    ensures
        r@ == cs@.subrange(from as int, to as int),
{
    let mut out: Vec<char> = Vec::new();
    let mut i = from;
    while i < to
        invariant
            from <= i <= to <= cs@.len(),
            out@ =~= cs@.subrange(from as int, i as int),
        decreases to - i,
    {
        out.push(cs[i]);
        proof {
            assert(cs@.subrange(from as int, i + 1) =~= cs@.subrange(from as int, i as int).push(
                cs@[i as int],
            ));
        }
        i = i + 1;
    }
    out
}

/// The position where `=>` first stands at or after `pos`, or the end.
fn find_arrow_at(cs: &Vec<char>, pos: usize) -> (r: usize)
    requires
        pos <= cs@.len(),
    ensures
        pos <= r <= cs@.len(),
        r - pos == find_sub(cs@.skip(pos as int), seq!['=', '>']),
{
    let n = cs.len();
    let mut r = pos;
    while r < n && !(cs[r] == '=' && r + 1 < n && cs[r + 1] == '>')
        invariant
            pos <= r <= n,
            n == cs@.len(),
            find_sub(cs@.skip(pos as int), seq!['=', '>']) == (r - pos) + find_sub(
                cs@.skip(r as int),
                seq!['=', '>'],
            ),
        decreases n - r,
    {
        proof {
            let rem = cs@.skip(r as int);
            assert(rem[0] == cs@[r as int]);
            assert(rem.drop_first() =~= cs@.skip(r + 1));
            if chars_prefix(seq!['=', '>'], rem) {
                assert(rem.take(2)[0] == rem[0]);
                assert(rem.take(2)[1] == rem[1]);
                assert(rem[1] == cs@[r + 1]);
            }
        }
        r = r + 1;
    }
    proof {
        let rem = cs@.skip(r as int);
        if r < n {
            assert(rem[0] == cs@[r as int]);
            if r + 1 < n {
                assert(rem[1] == cs@[r + 1]);
            }
            assert(rem.take(2)[0] == rem[0]);
            if rem.len() >= 2 {
                assert(rem.take(2)[1] == rem[1]);
            }
            assert(rem.take(2) =~= seq!['=', '>']);
            assert(chars_prefix(seq!['=', '>'], rem));
            assert(find_sub(rem, seq!['=', '>']) == 0);
        } else {
            assert(rem.len() == 0);
            assert(!chars_prefix(seq!['=', '>'], rem));
            assert(find_sub(rem, seq!['=', '>']) == 0);
        }
    }
    r
}

/// Trims whitespace from both ends of `cs[a..b]`, as positions.
fn trim_range(cs: &Vec<char>, a: usize, b: usize) -> (r: (usize, usize))
    requires
        a <= b <= cs@.len(),
    ensures
        a <= r.0 <= r.1 <= b,
        cs@.subrange(r.0 as int, r.1 as int) == trim(cs@.subrange(a as int, b as int)),
{
    let mut hi = b;
    while hi > a && cs[hi - 1].is_whitespace()
        invariant
            a <= hi <= b <= cs@.len(),
            drop_trailing(cs@.subrange(a as int, b as int)) == drop_trailing(
                cs@.subrange(a as int, hi as int),
            ),
        decreases hi,
    {
        proof {
            let cur = cs@.subrange(a as int, hi as int);
            assert(cur.last() == cs@[hi - 1]);
            assert(cur.drop_last() =~= cs@.subrange(a as int, hi - 1));
        }
        hi = hi - 1;
    }
    proof {
        let cur = cs@.subrange(a as int, hi as int);
        if hi > a {
            assert(cur.last() == cs@[hi - 1]);
        }
        assert(drop_trailing(cur) == cur);
    }
    let mut lo = a;
    while lo < hi && cs[lo].is_whitespace()
        invariant
            a <= lo <= hi <= cs@.len(),
            drop_trailing(cs@.subrange(a as int, b as int)) == cs@.subrange(
                a as int,
                hi as int,
            ),
            skip_space(cs@.subrange(a as int, hi as int)) == skip_space(
                cs@.subrange(lo as int, hi as int),
            ),
        decreases hi - lo,
    {
        proof {
            let cur = cs@.subrange(lo as int, hi as int);
            assert(cur[0] == cs@[lo as int]);
            assert(cur.drop_first() =~= cs@.subrange(lo + 1, hi as int));
        }
        lo = lo + 1;
    }
    proof {
        let cur = cs@.subrange(lo as int, hi as int);
        if lo < hi {
            assert(cur[0] == cs@[lo as int]);
        }
        assert(skip_space(cur) == cur);
    }
    (lo, hi)
}

/// Parses `<keyword> { a, b, .. }` at `pos`: hands back the position
/// after the closing brace and the ordered set of names.
pub fn keyword_set(cs: &Vec<char>, pos: usize, kw: &String) -> (r: Result<
    (usize, StrSet),
    ParseError,
>)
    requires
        pos <= cs@.len(),
    ensures
        match r {
            Ok((p, set)) => {
                &&& pos <= p <= cs@.len()
                &&& parse_keyword_set(kw@, cs@.skip(pos as int)) == Ok::<
                    (Seq<char>, Seq<Seq<char>>),
                    ParseErrorView,
                >((cs@.skip(p as int), set@))
                &&& set.wf()
                &&& all_nonempty(set@)
            },
            Err(e) => {
                &&& parse_keyword_set(kw@, cs@.skip(pos as int)) is Err
                &&& e@ == parse_keyword_set(kw@, cs@.skip(pos as int))->Err_0
            },
        },
{
    let ghost s = cs@.skip(pos as int);
    let p0 = crate::scan::skip_space_at(cs, pos);
    let ghost s0 = skip_space(s);
    let kwc = crate::chars::chars_of(kw.as_str());
    if !crate::scan::prefix_at(cs, p0, kw) {
        let hi = if kwc.len() <= cs.len() - p0 {
            p0 + kwc.len()
        } else {
            cs.len()
        };
        proof {
            assert(s0 == cs@.skip(p0 as int));
            assert(s0.take(if kw@.len() <= s0.len() {
                kw@.len() as int
            } else {
                s0.len() as int
            }) =~= cs@.subrange(p0 as int, hi as int));
        }
        return Err(
            ParseError::Expected {
                expected: kw.clone(),
                found: string_of_range(cs, p0, hi),
            },
        );
    }
    let p1 = p0 + kwc.len();
    proof {
        assert(s0.skip(kw@.len() as int) =~= cs@.skip(p1 as int));
    }
    let p2 = crate::scan::skip_space_at(cs, p1);
    let ghost s1 = skip_space(cs@.skip(p1 as int));
    proof {
        assert(s1 == cs@.skip(p2 as int));
    }
    if p2 == cs.len() || !(cs[p2] == '{') {
        let hi = if p2 < cs.len() {
            p2 + 1
        } else {
            p2
        };
        proof {
            if p2 < cs@.len() {
                assert(s1[0] == cs@[p2 as int]);
                if chars_prefix(seq!['{'], s1) {
                    assert(s1.take(1)[0] == s1[0]);
                }
                assert(!chars_prefix(seq!['{'], s1));
                assert(s1.take(1) =~= cs@.subrange(p2 as int, hi as int));
            } else {
                assert(s1.len() == 0);
                assert(!chars_prefix(seq!['{'], s1));
                assert(s1.take(0) =~= cs@.subrange(p2 as int, hi as int));
            }
        }
        proof {
            reveal_strlit("{");
            assert("{"@ =~= seq!['{']);
        }
        return Err(
            ParseError::Expected {
                expected: "{".to_owned(),
                found: string_of_range(cs, p2, hi),
            },
        );
    }
    proof {
        assert(s1[0] == cs@[p2 as int]);
        assert(s1.take(1)[0] == s1[0]);
        assert(s1.take(1) =~= seq!['{']);
        assert(chars_prefix(seq!['{'], s1));
        assert(s1.skip(1) =~= cs@.skip(p2 + 1));
    }
    let p3 = crate::scan::skip_space_at(cs, p2 + 1);
    let ghost s2 = skip_space(cs@.skip(p2 + 1));
    proof {
        assert(s2 == cs@.skip(p3 as int));
    }
    let close = find_char_at(cs, p3, '}');
    proof {
        lemma_find_char(s2, '}');
    }
    if close == cs.len() {
        proof {
            assert(find_char(s2, '}') == s2.len());
        }
        proof {
            reveal_strlit("}");
            assert("}"@ =~= seq!['}']);
        }
        return Err(
            ParseError::Expected {
                expected: "}".to_owned(),
                found: string_of_range(cs, p3, cs.len()),
            },
        );
    }
    proof {
        assert(find_char(s2, '}') < s2.len());
        assert(s2.take(find_char(s2, '}')) =~= cs@.subrange(p3 as int, close as int));
        assert(s2.skip(find_char(s2, '}') + 1) =~= cs@.skip(close + 1));
    }
    let set = names_in_range(cs, p3, close);
    Ok((close + 1, set))
}

/// Splits `cs[a..b]` on commas, trims each piece, and collects the
/// non-empty names into an ordered set.
fn names_in_range(cs: &Vec<char>, a: usize, b: usize) -> (r: StrSet)
    requires
        a <= b <= cs@.len(),
    ensures
        r.wf(),
        all_nonempty(r@),
        r@ == set_of_names(split_commas(cs@.subrange(a as int, b as int))),
{
    let ghost body = cs@.subrange(a as int, b as int);
    let ghost parts = split_commas(body);
    let mut set = StrSet::new();
    let mut seg = a;
    let ghost mut k: int = 0;
    proof {
        lemma_split_commas_from(body);
    }
    let mut done = false;
    while !done
        invariant
            a <= seg <= b <= cs@.len(),
            body == cs@.subrange(a as int, b as int),
            parts == split_commas(body),
            set.wf(),
            all_nonempty(set@),
            0 <= k <= parts.len(),
            !done ==> k < parts.len() && split_commas(cs@.subrange(seg as int, b as int))
                =~= parts.skip(k),
            !done ==> set@ == set_of_names(parts.take(k)),
            done ==> k == parts.len() && set@ == set_of_names(parts),
        decreases b - seg + 1 + (if done {
            0int
        } else {
            1int
        }),
    {
        let ghost remparts = parts.skip(k);
        let comma = find_char_at(cs, seg, ',');
        let end = if comma < b {
            comma
        } else {
            b
        };
        let ghost remtext = cs@.subrange(seg as int, b as int);
        proof {
            lemma_find_char(remtext, ',');
            assert(remtext =~= cs@.skip(seg as int).take(b - seg));
            lemma_find_char_take(cs@.skip(seg as int), b - seg, ',');
            assert(parts[k] == remparts[0]);
            if find_char(remtext, ',') == remtext.len() {
                assert(remparts =~= seq![remtext]);
                assert(remtext.take(find_char(remtext, ',')) =~= remtext);
            } else {
                assert(remparts[0] == remtext.take(find_char(remtext, ',')));
            }
            assert(remtext.take(find_char(remtext, ',')) =~= cs@.subrange(
                seg as int,
                end as int,
            ));
        }
        let (lo, hi) = trim_range(cs, seg, end);
        let ghost piece = trim(cs@.subrange(seg as int, end as int));
        proof {
            assert(parts.take(k + 1).drop_last() =~= parts.take(k));
            assert(parts.take(k + 1).last() == parts[k]);
            assert(parts[k] == cs@.subrange(seg as int, end as int)) by {
                if find_char(remtext, ',') == remtext.len() {
                    assert(remparts =~= seq![remtext]);
                } else {
                }
            }
        }
        if hi > lo {
            let name = string_of_range(cs, lo, hi);
            proof {
                assert(name@ == piece);
                assert(piece.len() > 0);
                lemma_set_insert_sorted(set@, piece);
                lemma_nonempty_insert(set@, piece);
            }
            set.insert(name);
        } else {
            proof {
                assert(piece.len() == 0);
            }
        }
        proof {
            assert(set@ == set_of_names(parts.take(k + 1)));
        }
        if comma < b {
            proof {
                assert(find_char(remtext, ',') < remtext.len());
                assert(split_commas(remtext) == seq![remtext.take(find_char(remtext, ','))]
                    + split_commas(remtext.skip(find_char(remtext, ',') + 1)));
                assert(remtext.skip(find_char(remtext, ',') + 1) =~= cs@.subrange(
                    comma + 1,
                    b as int,
                ));
                assert(parts.skip(k + 1) =~= parts.skip(k).drop_first());
                assert((seq![remtext.take(find_char(remtext, ','))] + split_commas(
                    remtext.skip(find_char(remtext, ',') + 1),
                )).drop_first() =~= split_commas(remtext.skip(find_char(remtext, ',') + 1)));
                assert(parts.skip(k + 1) =~= split_commas(cs@.subrange(comma + 1, b as int)));
            }
            seg = comma + 1;
            proof {
                k = k + 1;
            }
        } else {
            proof {
                assert(find_char(remtext, ',') == remtext.len());
                assert(split_commas(remtext) =~= seq![remtext]);
                assert(parts.skip(k).len() == 1);
                assert(k + 1 == parts.len());
                assert(parts.take(parts.len() as int) =~= parts);
                k = k + 1;
            }
            done = true;
        }
    }
    set
}

/// `set_insert` of a non-empty name into a set of non-empty names.
proof fn lemma_nonempty_insert(s: Seq<Seq<char>>, x: Seq<char>)
    requires
        all_nonempty(s),
        x.len() > 0,
    ensures
        all_nonempty(set_insert(s, x)),
{
    assert forall|i: int|
        0 <= i < set_insert(s, x).len() implies #[trigger] set_insert(s, x)[i].len() > 0 by {
        let y = set_insert(s, x)[i];
        assert(crate::strset::seq_has(set_insert(s, x), y));
        lemma_set_insert_has(s, x, y);
        if y != x {
            let j = choose|j: int| 0 <= j < s.len() && s[j] == y;
            assert(s[j].len() > 0);
        }
    }
}

/// Splitting a suffix is a tail of splitting the whole: trivially true
/// of the whole text itself.
proof fn lemma_split_commas_from(body: Seq<char>)
    ensures
        split_commas(body) =~= split_commas(body).skip(0),
{
}

/// `find_char` in a prefix-restricted text agrees with the full text
/// when the hit falls inside the prefix.
proof fn lemma_find_char_take(s: Seq<char>, n: int, c: char)
    requires
        0 <= n <= s.len(),
    ensures
        find_char(s.take(n), c) == (if find_char(s, c) <= n {
            find_char(s, c)
        } else {
            n
        }),
    decreases s.len(),
{
    lemma_find_char(s, c);
    lemma_find_char(s.take(n), c);
    if n == 0 {
        assert(s.take(0).len() == 0);
    } else if s.len() == 0 {
    } else {
        if s[0] == c {
            assert(s.take(n)[0] == c);
            assert(find_char(s.take(n), c) == 0);
        } else {
            assert(s.take(n)[0] == s[0]);
            lemma_find_char_take(s.drop_first(), n - 1, c);
            assert(s.take(n).drop_first() =~= s.drop_first().take(n - 1));
            assert(s.take(n).len() > 0);
            assert(find_char(s.take(n), c) == 1 + find_char(s.take(n).drop_first(), c));
            assert(find_char(s, c) == 1 + find_char(s.drop_first(), c));
        }
    }
}

/// Parses the `domain { .. }` clause at `pos`.
pub fn domain(cs: &Vec<char>, pos: usize) -> (r: Result<(usize, StrSet), ParseError>)
    requires
        pos <= cs@.len(),
    ensures
        match r {
            Ok((p, set)) => {
                &&& pos <= p <= cs@.len()
                &&& parse_keyword_set("domain"@, cs@.skip(pos as int)) == Ok::<
                    (Seq<char>, Seq<Seq<char>>),
                    ParseErrorView,
                >((cs@.skip(p as int), set@))
                &&& set.wf()
                &&& all_nonempty(set@)
            },
            Err(e) => {
                &&& parse_keyword_set("domain"@, cs@.skip(pos as int)) is Err
                &&& e@ == parse_keyword_set("domain"@, cs@.skip(pos as int))->Err_0
            },
        },
{
    let kw = "domain".to_owned();
    keyword_set(cs, pos, &kw)
}

/// Parses the `reserve { .. }` clause at `pos`.
pub fn reserve(cs: &Vec<char>, pos: usize) -> (r: Result<(usize, StrSet), ParseError>)
    requires
        pos <= cs@.len(),
    ensures
        match r {
            Ok((p, set)) => {
                &&& pos <= p <= cs@.len()
                &&& parse_keyword_set("reserve"@, cs@.skip(pos as int)) == Ok::<
                    (Seq<char>, Seq<Seq<char>>),
                    ParseErrorView,
                >((cs@.skip(p as int), set@))
                &&& set.wf()
                &&& all_nonempty(set@)
            },
            Err(e) => {
                &&& parse_keyword_set("reserve"@, cs@.skip(pos as int)) is Err
                &&& e@ == parse_keyword_set("reserve"@, cs@.skip(pos as int))->Err_0
            },
        },
{
    let kw = "reserve".to_owned();
    keyword_set(cs, pos, &kw)
}

/// Parses the `use { .. }` clause at `pos`.
pub fn parse_use(cs: &Vec<char>, pos: usize) -> (r: Result<(usize, StrSet), ParseError>)
    requires
        pos <= cs@.len(),
    ensures
        match r {
            Ok((p, set)) => {
                &&& pos <= p <= cs@.len()
                &&& parse_keyword_set("use"@, cs@.skip(pos as int)) == Ok::<
                    (Seq<char>, Seq<Seq<char>>),
                    ParseErrorView,
                >((cs@.skip(p as int), set@))
                &&& set.wf()
                &&& all_nonempty(set@)
            },
            Err(e) => {
                &&& parse_keyword_set("use"@, cs@.skip(pos as int)) is Err
                &&& e@ == parse_keyword_set("use"@, cs@.skip(pos as int))->Err_0
            },
        },
{
    let kw = "use".to_owned();
    keyword_set(cs, pos, &kw)
}

/// Parses one definition ending in `;` at `pos`.
pub fn parse_definition(cs: &Vec<char>, pos: usize, dom: &StrSet, rsv: &StrSet) -> (r: Result<
    (usize, Vec<Definition>),
    ParseError,
>)
    requires
        pos <= cs@.len(),
        all_nonempty(rsv@),
        all_nonempty(dom@),
    ensures
        match r {
            Ok((p, defs)) => {
                &&& pos < p <= cs@.len()
                &&& parse_definition_spec(rsv@, dom@, cs@.skip(pos as int)) == Ok::<
                    (Seq<char>, Seq<DefinitionView>),
                    ParseErrorView,
                >((cs@.skip(p as int), defs.deep_view()))
            },
            Err(e) => {
                &&& parse_definition_spec(rsv@, dom@, cs@.skip(pos as int)) is Err
                &&& e@ == parse_definition_spec(rsv@, dom@, cs@.skip(pos as int))->Err_0
            },
        },
{
    let ghost s = cs@.skip(pos as int);
    let semi = find_char_at(cs, pos, ';');
    proof {
        lemma_find_char(s, ';');
    }
    if semi == cs.len() {
        proof {
            assert(find_char(s, ';') == s.len());
            assert(s =~= cs@.subrange(pos as int, cs@.len() as int));
        }
        proof {
            reveal_strlit(";");
            assert(";"@ =~= seq![';']);
        }
        return Err(
            ParseError::Expected {
                expected: ";".to_owned(),
                found: string_of_range(cs, pos, cs.len()),
            },
        );
    }
    proof {
        assert(find_char(s, ';') < s.len());
        assert(s.take(find_char(s, ';')) =~= cs@.subrange(pos as int, semi as int));
        assert(s.skip(find_char(s, ';') + 1) =~= cs@.skip(semi + 1));
    }
    let body = subchars(cs, pos, semi);
    let rest_pos = semi + 1;
    let arrow = find_arrow_at(&body, 0);
    proof {
        assert(body@.skip(0) =~= body@);
        lemma_find_sub(body@, seq!['=', '>']);
    }
    if arrow == body.len() {
        return Err(
            ParseError::Expected {
                expected: "something after => or <=>".to_owned(),
                found: string_of_range(cs, rest_pos, cs.len()),
            },
        );
    }
    proof {
        assert(cs@.skip(rest_pos as int) =~= cs@.subrange(rest_pos as int, cs@.len() as int));
    }
    let rhs_full = subchars(&body, arrow + 2, body.len());
    proof {
        assert(rhs_full@ =~= body@.skip(arrow + 2));
    }
    let arrow2 = find_arrow_at(&rhs_full, 0);
    proof {
        assert(rhs_full@.skip(0) =~= rhs_full@);
    }
    if arrow2 != rhs_full.len() {
        return Err(
            ParseError::Expected {
                expected: "a single => or <=> in a definition".to_owned(),
                found: string_of_range(cs, rest_pos, cs.len()),
            },
        );
    }
    let double = arrow > 0 && body[arrow - 1] == '<';
    let lhs_end = if double {
        arrow - 1
    } else {
        arrow
    };
    let lhs = subchars(&body, 0, lhs_end);
    proof {
        let lhs_raw = body@.take(arrow as int);
        if double {
            assert(lhs_raw.last() == body@[arrow - 1]);
            assert(lhs_raw.len() > 0 && lhs_raw.last() == '<');
            assert(lhs@ =~= lhs_raw.drop_last());
        } else {
            if lhs_raw.len() > 0 {
                assert(lhs_raw.last() == body@[arrow - 1]);
            }
            assert(!(lhs_raw.len() > 0 && lhs_raw.last() == '<'));
            assert(lhs@ =~= lhs_raw);
        }
    }
    let lp = scan_pattern_text(rsv, dom, &lhs);
    let rp = scan_pattern_text(rsv, dom, &rhs_full);
    let mut defs: Vec<Definition> = Vec::new();
    if double {
        let lp2 = clone_pattern(&lp);
        let rp2 = clone_pattern(&rp);
        defs.push(Definition::new(lp, rp));
        defs.push(Definition::new(rp2, lp2));
        proof {
            assert(defs.deep_view() =~= seq![
                DefinitionView {
                    high: scan_pattern(rsv@, dom@, lhs@),
                    low: scan_pattern(rsv@, dom@, rhs_full@),
                },
                DefinitionView {
                    high: scan_pattern(rsv@, dom@, rhs_full@),
                    low: scan_pattern(rsv@, dom@, lhs@),
                },
            ]);
        }
    } else {
        defs.push(Definition::new(lp, rp));
        proof {
            assert(defs.deep_view() =~= seq![
                DefinitionView {
                    high: scan_pattern(rsv@, dom@, lhs@),
                    low: scan_pattern(rsv@, dom@, rhs_full@),
                },
            ]);
        }
    }
    Ok((rest_pos, defs))
}

/// A copy of a pattern, token for token.
fn clone_pattern(p: &Vec<PatternToken>) -> (r: Vec<PatternToken>)
    ensures
        r.deep_view() == p.deep_view(),
{
    let r = p.clone();
    proof {
        assert(r.deep_view() =~= p.deep_view());
    }
    r
}

} // verus!
