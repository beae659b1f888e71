//! Loading a program: resolving a module name to source, walking its
//! `use` dependencies depth-first, and assembling every parsed structure
//! into a runtime. A module being loaded is marked before its
//! dependencies are followed, so a circular `use` graph is caught and
//! reported as the path it runs through. The work on each module is done
//! by three contracted steps — [`parse_header`], [`next_dep_action`] and
//! [`assemble_module`] — and [`parse`] orchestrates them over whatever
//! the resolver hands back.

use vstd::prelude::*;

use crate::definition::Definition;
use crate::errors::{ParseError, ParseErrorView};
use crate::parser::{
    definitions_spec, header_spec, keyword_set, parse_definition, strip_comments,
};
use crate::resolve::Resolver;
use crate::runtime::{
    entries_domain, entries_have, entries_get, entries_insert, entries_reserved,
    lemma_insert_get_value, lemma_insert_preserves_other, Runtime,
};
use crate::scan::{all_nonempty, scan_expression, scan_expression_text};
use crate::strset::StrSet;
use crate::structure::{
    first_common, intrinsic_view, lemma_union_nonempty, Structure, StructureError, StructureView,
};
use crate::token::Expression;

verus! {

/// The loading state part-way through: the structures already loaded, and
/// the names whose loading has begun but not finished. A name still
/// marked when it is reached again closes a cycle.
pub struct PartialRuntime {
    pub loaded: Runtime,
    pub pending: StrSet,
}

/// A module's parsed header: its comment-stripped text, the position
/// where its definitions start, and its three leading clauses.
pub struct ModuleHeader {
    pub text: Vec<char>,
    pub pos: usize,
    pub domain: StrSet,
    pub reserved: StrSet,
    pub uses: StrSet,
}

impl ModuleHeader {
    pub open spec fn wf(&self) -> bool {
        &&& self.domain.wf()
        &&& self.reserved.wf()
        &&& self.uses.wf()
        &&& all_nonempty(self.domain@)
        &&& all_nonempty(self.reserved@)
        &&& all_nonempty(self.uses@)
        &&& self.pos <= self.text@.len()
    }
}

/// Resolves one module name to source text; a resolver failure surfaces
/// as `FileNotFound` carrying that name, never as a panic.
pub fn resolve_source<R: Resolver>(name: &String, resolver: &mut R) -> (r: Result<
    String,
    ParseError,
>)
    ensures
        match r {
            Ok(_) => true,
            Err(e) => e@ == (ParseErrorView::FileNotFound { name: name@ }),
        },
{
    match resolver.resolve(name) {
        Ok(source) => Ok(source),
        Err(_) => Err(ParseError::FileNotFound(name.clone())),
    }
}

/// Parses a module header out of source text: strips comments, then the
/// `domain`, `reserve` and `use` clauses in that order, exactly as
/// [`header_spec`] describes.
pub fn parse_header(source: &String) -> (r: Result<ModuleHeader, ParseError>)
    ensures
        match r {
            Ok(h) => {
                &&& h.wf()
                &&& h.text@ == crate::parser::strip_comments_spec(source@)
                &&& header_spec(source@) == Ok::<
                    (Seq<Seq<char>>, Seq<Seq<char>>, Seq<Seq<char>>, Seq<char>),
                    ParseErrorView,
                >((h.domain@, h.reserved@, h.uses@, h.text@.skip(h.pos as int)))
            },
            Err(e) => {
                &&& header_spec(source@) is Err
                &&& e@ == header_spec(source@)->Err_0
            },
        },
{
    let raw = crate::chars::chars_of(source.as_str());
    let cs = strip_comments(&raw);
    proof {
        assert(cs@.skip(0) =~= cs@);
    }
    let kw_domain = "domain".to_owned();
    let (p1, domain) = match keyword_set(&cs, 0, &kw_domain) {
        Ok(ok) => ok,
        Err(e) => {
            return Err(e);
        },
    };
    let kw_reserve = "reserve".to_owned();
    let (p2, reserved) = match keyword_set(&cs, p1, &kw_reserve) {
        Ok(ok) => ok,
        Err(e) => {
            return Err(e);
        },
    };
    let kw_use = "use".to_owned();
    let (p3, uses) = match keyword_set(&cs, p2, &kw_use) {
        Ok(ok) => ok,
        Err(e) => {
            return Err(e);
        },
    };
    Ok(ModuleHeader { text: cs, pos: p3, domain, reserved, uses })
}

/// What the loader decides for one dependency name.
pub enum DepAction {
    /// The structure is already loaded; nothing to do.
    AlreadyLoaded,
    /// The name is still marked as loading: the `use` graph runs in a
    /// circle through it.
    InProgress,
    /// Neither loaded nor marked: descend into it.
    Fresh,
}

/// The loader's decision for one dependency: loaded names are skipped,
/// a name whose loading is still in progress closes a cycle, and any
/// other name is descended into.
pub fn next_dep_action(loaded: &Runtime, pending: &StrSet, dep: &String) -> (r: DepAction)
    ensures
        r == (if entries_have(loaded@, dep@) {
            DepAction::AlreadyLoaded
        } else if pending.spec_has(dep@) {
            DepAction::InProgress
        } else {
            DepAction::Fresh
        }),
{
    if loaded.contains(dep) {
        DepAction::AlreadyLoaded
    } else if pending.contains(dep) {
        DepAction::InProgress
    } else {
        DepAction::Fresh
    }
}

/// Parses a module's definitions against the ambient sets and builds its
/// structure: the definitions are every definition at the front of the
/// remaining text, and the one possible error is an overlap between the
/// module's own domain and reserved set, carrying the first culprit.
pub fn assemble_module(
    text: &Vec<char>,
    pos: usize,
    domain: StrSet,
    reserved: StrSet,
    full_domain: &StrSet,
    full_reserved: &StrSet,
) -> (r: Result<Structure, ParseError>)
    requires
        pos <= text@.len(),
        domain.wf(),
        reserved.wf(),
        all_nonempty(domain@),
        all_nonempty(reserved@),
        full_domain.wf(),
        full_reserved.wf(),
        all_nonempty(full_domain@),
        all_nonempty(full_reserved@),
    ensures
        match r {
            Ok(st) => {
                &&& first_common(domain@, reserved@) is None
                &&& st@.wf()
                &&& st@.domain == domain@
                &&& st@.reserved == reserved@
                &&& st@.definitions == definitions_spec(
                    full_reserved@,
                    full_domain@,
                    text@.skip(pos as int),
                )
            },
            Err(e) => match e {
                ParseError::DomainAndReservedOverlap { culprit } => first_common(
                    domain@,
                    reserved@,
                ) == Some(culprit@),
                _ => false,
            },
        },
{
    let ghost fr = full_reserved@;
    let ghost fd = full_domain@;
    let ghost start = pos as int;
    let mut defs: Vec<Definition> = Vec::new();
    let mut at = pos;
    let mut more = true;
    while more
        invariant
            at <= text@.len(),
            start <= at,
            full_domain.wf(),
            full_reserved.wf(),
            all_nonempty(fd),
            all_nonempty(fr),
            fd == full_domain@,
            fr == full_reserved@,
            definitions_spec(fr, fd, text@.skip(start)) == defs.deep_view() + definitions_spec(
                fr,
                fd,
                text@.skip(at as int),
            ),
            !more ==> definitions_spec(fr, fd, text@.skip(at as int)) == Seq::<
                crate::definition::DefinitionView,
            >::empty(),
        decreases text@.len() - at + (if more {
            1int
        } else {
            0int
        }),
    {
        match parse_definition(text, at, full_domain, full_reserved) {
            Ok((p, ds)) => {
                proof {
                    assert(definitions_spec(fr, fd, text@.skip(at as int)) == ds.deep_view()
                        + definitions_spec(fr, fd, text@.skip(p as int)));
                }
                let ghost before = defs.deep_view();
                let mut di: usize = 0;
                while di < ds.len()
                    invariant
                        di <= ds@.len(),
                        defs.deep_view() =~= before + ds.deep_view().take(di as int),
                    decreases ds@.len() - di,
                {
                    let ghost step = defs.deep_view();
                    defs.push(ds[di].clone());
                    proof {
                        assert(defs.deep_view() =~= step.push(ds.deep_view()[di as int]));
                        assert(ds.deep_view().take(di + 1) =~= ds.deep_view().take(
                            di as int,
                        ).push(ds.deep_view()[di as int]));
                    }
                    di = di + 1;
                }
                proof {
                    assert(ds.deep_view().take(ds@.len() as int) =~= ds.deep_view());
                    assert(defs.deep_view() =~= before + ds.deep_view());
                    assert((before + ds.deep_view()) + definitions_spec(
                        fr,
                        fd,
                        text@.skip(p as int),
                    ) =~= before + (ds.deep_view() + definitions_spec(
                        fr,
                        fd,
                        text@.skip(p as int),
                    )));
                }
                at = p;
            },
            Err(_) => {
                more = false;
            },
        }
    }
    proof {
        assert(defs.deep_view() + Seq::<crate::definition::DefinitionView>::empty() =~= defs
            .deep_view());
    }
    match Structure::create(domain, reserved, defs) {
        Ok(structure) => Ok(structure),
        Err(StructureError::DomainAndReservedOverlap { culprit }) => {
            Err(ParseError::DomainAndReservedOverlap { culprit })
        },
    }
}

/// One module whose dependencies are being walked.
struct Frame {
    name: String,
    header: ModuleHeader,
    deps: Vec<String>,
    next_dep: usize,
}

impl Frame {
    spec fn wf(&self) -> bool {
        &&& self.header.wf()
        &&& self.next_dep <= self.deps@.len()
    }
}

/// The union of the sets of well-formed structures holds no empty name.
proof fn lemma_runtime_sets_nonempty(s: Seq<(Seq<char>, StructureView)>)
    requires
        forall|i: int| 0 <= i < s.len() ==> (#[trigger] s[i].1).wf(),
    ensures
        all_nonempty(entries_domain(s)),
        all_nonempty(entries_reserved(s)),
    decreases s.len(),
{
    if s.len() == 0 {
    } else {
        assert(forall|i: int| 0 <= i < s.len() - 1 ==> s.drop_last()[i] == s[i]);
        lemma_runtime_sets_nonempty(s.drop_last());
        assert(s.last().1.wf());
        lemma_union_nonempty(entries_domain(s.drop_last()), s.last().1.domain);
        lemma_union_nonempty(entries_reserved(s.drop_last()), s.last().1.reserved);
    }
}

/// The name just inserted is among the entries.
proof fn lemma_insert_has_key(
    s: Seq<(Seq<char>, StructureView)>,
    n: Seq<char>,
    v: StructureView,
)
    ensures
        entries_have(entries_insert(s, n, v), n),
    decreases s.len(),
{
    let r = entries_insert(s, n, v);
    if s.len() == 0 {
        assert(r[0].0 == n);
    } else if crate::token::chars_lt(s[0].0, n) {
        lemma_insert_has_key(s.drop_first(), n, v);
        let i = choose|i: int|
            0 <= i < entries_insert(s.drop_first(), n, v).len() && entries_insert(
                s.drop_first(),
                n,
                v,
            )[i].0 == n;
        assert(r[i + 1].0 == n);
    } else {
        assert(r[0].0 == n);
    }
}

/// Names already present stay present across an insertion.
proof fn lemma_insert_keeps_key(
    s: Seq<(Seq<char>, StructureView)>,
    n: Seq<char>,
    v: StructureView,
    k: Seq<char>,
)
    requires
        entries_have(s, k),
    ensures
        entries_have(entries_insert(s, n, v), k),
    decreases s.len(),
{
    let r = entries_insert(s, n, v);
    if k == n {
        lemma_insert_has_key(s, n, v);
    } else if s.len() == 0 {
    } else if crate::token::chars_lt(s[0].0, n) {
        let w = choose|w: int| 0 <= w < s.len() && s[w].0 == k;
        if w == 0 {
            assert(r[0].0 == k);
        } else {
            assert(s.drop_first()[w - 1].0 == k);
            lemma_insert_keeps_key(s.drop_first(), n, v, k);
            let i = choose|i: int|
                0 <= i < entries_insert(s.drop_first(), n, v).len() && entries_insert(
                    s.drop_first(),
                    n,
                    v,
                )[i].0 == k;
            assert(r[i + 1].0 == k);
        }
    } else if s[0].0 == n {
        let w = choose|w: int| 0 <= w < s.len() && s[w].0 == k;
        assert(w != 0);
        assert(s.drop_first()[w - 1].0 == k);
        assert(r[w].0 == k);
    } else {
        let w = choose|w: int| 0 <= w < s.len() && s[w].0 == k;
        assert(r[w + 1].0 == k);
    }
}

/// Loads the named module and its transitive dependencies into a
/// runtime, within a budget of loading steps. The runtime always holds
/// the intrinsic structure — with its intrinsic content, unless the root
/// module itself is named "intrinsic" and overwrites it — and on success
/// holds the named module too. A reported cycle is a path of at least
/// two module names; which error arises for one module is stated at
/// [`resolve_source`], [`parse_header`], [`next_dep_action`] and
/// [`assemble_module`], whose contracts this loop composes.
pub fn parse<R: Resolver>(name: &String, resolver: &mut R, fuel: usize) -> (r: Result<
    Runtime,
    ParseError,
>)
    ensures
        match r {
            Ok(rt) => {
                &&& rt.wf()
                &&& entries_have(rt@, "intrinsic"@)
                &&& entries_have(rt@, name@)
                &&& name@ != "intrinsic"@ ==> entries_get(rt@, "intrinsic"@) == intrinsic_view()
            },
            Err(e) => match e {
                ParseError::CircularDependency { cycle } => cycle@.len() >= 2,
                _ => true,
            },
        },
        fuel == 0 ==> r is Err,
{
    let mut partial = PartialRuntime { loaded: Runtime::new(), pending: StrSet::new() };
    let intrinsic = Structure::intrinsic();
    let ghost iv = intrinsic@;
    let ghost empty_entries = partial.loaded@;
    let _ = partial.loaded.insert("intrinsic".to_owned(), intrinsic);
    proof {
        lemma_insert_has_key(empty_entries, "intrinsic"@, iv);
        lemma_insert_get_value(empty_entries, "intrinsic"@, iv);
    }
    let source = match resolve_source(name, resolver) {
        Ok(source) => source,
        Err(e) => {
            return Err(e);
        },
    };
    let header = match parse_header(&source) {
        Ok(header) => header,
        Err(e) => {
            return Err(e);
        },
    };
    let root = Frame { name: name.clone(), deps: set_to_names(&header.uses), header, next_dep: 0 };
    partial.pending.insert(name.clone());
    let mut stack: Vec<Frame> = Vec::new();
    stack.push(root);
    let mut remaining = fuel;
    loop
        invariant
            partial.loaded.wf(),
            partial.pending.wf(),
            entries_have(partial.loaded@, "intrinsic"@),
            name@ != "intrinsic"@ ==> entries_get(partial.loaded@, "intrinsic"@)
                == intrinsic_view(),
            forall|i: int| 0 <= i < stack@.len() ==> (#[trigger] stack@[i]).wf(),
            stack@.len() > 0 ==> stack@[0].name@ == name@,
            forall|i: int| 1 <= i < stack@.len() ==> (#[trigger] stack@[i]).name@ != "intrinsic"@,
            stack@.len() == 0 ==> entries_have(partial.loaded@, name@),
            fuel == 0 ==> remaining == 0 && stack@.len() > 0,
        decreases remaining,
    {
        if stack.len() == 0 {
            let rt = Runtime::from_partial(&partial);
            proof {
                assert(rt@ == partial.loaded@);
            }
            return Ok(rt);
        }
        if remaining == 0 {
            return Err(ParseError::LoadLimit);
        }
        remaining = remaining - 1;
        let ghost pre_stack = stack@;
        let mut frame = match stack.pop() {
            Some(frame) => frame,
            None => {
                return Err(ParseError::LoadLimit);
            },
        };
        proof {
            assert(frame == pre_stack.last());
            assert(pre_stack.last() == pre_stack[pre_stack.len() - 1]);
        }
        let ghost was_root = pre_stack.len() == 1;
        if frame.next_dep < frame.deps.len() {
            let dep = frame.deps[frame.next_dep].clone();
            frame.next_dep = frame.next_dep + 1;
            match next_dep_action(&partial.loaded, &partial.pending, &dep) {
                DepAction::AlreadyLoaded => {
                    stack.push(frame);
                    proof {
                        assert(stack@ =~= pre_stack.drop_last().push(frame));
                        assert(forall|i: int|
                            0 <= i < pre_stack.len() - 1 ==> stack@[i] == pre_stack[i]);
                    }
                },
                DepAction::InProgress => {
                    let mut cycle: Vec<String> = Vec::new();
                    cycle.push(dep);
                    cycle.push(frame.name);
                    let mut j = stack.len();
                    while j > 0
                        invariant
                            j <= stack@.len(),
                            cycle@.len() >= 2,
                            forall|i: int| 0 <= i < stack@.len() ==> (#[trigger] stack@[i]).wf(),
                        decreases j,
                    {
                        j = j - 1;
                        let below = &stack[j];
                        if below.next_dep > 0 {
                            cycle.push(below.deps[below.next_dep - 1].clone());
                        }
                    }
                    return Err(ParseError::CircularDependency { cycle });
                },
                DepAction::Fresh => {
                    proof {
                        assert(!entries_have(partial.loaded@, dep@));
                        assert(dep@ != "intrinsic"@);
                    }
                    partial.pending.insert(dep.clone());
                    let dep_source = match resolve_source(&dep, resolver) {
                        Ok(source) => source,
                        Err(e) => {
                            return Err(e);
                        },
                    };
                    let dep_header = match parse_header(&dep_source) {
                        Ok(header) => header,
                        Err(e) => {
                            return Err(e);
                        },
                    };
                    let newframe = Frame {
                        name: dep,
                        deps: set_to_names(&dep_header.uses),
                        header: dep_header,
                        next_dep: 0,
                    };
                    stack.push(frame);
                    proof {
                        assert(stack@ =~= pre_stack.drop_last().push(frame));
                        assert(forall|i: int|
                            0 <= i < pre_stack.len() - 1 ==> stack@[i] == pre_stack[i]);
                    }
                    stack.push(newframe);
                },
            }
        } else {
            let mut full_domain = partial.loaded.domain();
            let mut full_reserved = partial.loaded.reserved();
            proof {
                lemma_runtime_sets_nonempty(partial.loaded@);
                crate::strset::lemma_seq_union_sorted(full_domain@, frame.header.domain@);
                crate::strset::lemma_seq_union_sorted(full_reserved@, frame.header.reserved@);
            }
            full_domain.add_all(&frame.header.domain);
            full_reserved.add_all(&frame.header.reserved);
            proof {
                lemma_union_nonempty(entries_domain(partial.loaded@), frame.header.domain@);
                lemma_union_nonempty(entries_reserved(partial.loaded@), frame.header.reserved@);
            }
            let ghost fname = frame.name@;
            let ghost pre_loaded = partial.loaded@;
            let Frame { name: frame_name, header, deps, next_dep } = frame;
            let structure = match assemble_module(
                &header.text,
                header.pos,
                header.domain,
                header.reserved,
                &full_domain,
                &full_reserved,
            ) {
                Ok(structure) => structure,
                Err(e) => {
                    return Err(e);
                },
            };
            let ghost sv = structure@;
            let _ = partial.loaded.insert(frame_name, structure);
            proof {
                lemma_insert_has_key(pre_loaded, fname, sv);
                lemma_insert_keeps_key(pre_loaded, fname, sv, "intrinsic"@);
                if was_root {
                    assert(fname == name@);
                }
                if name@ != "intrinsic"@ {
                    assert(fname != "intrinsic"@) by {
                        if was_root {
                        } else {
                            assert(pre_stack[pre_stack.len() - 1].name@ != "intrinsic"@);
                        }
                    }
                    lemma_insert_preserves_other(pre_loaded, fname, sv, "intrinsic"@);
                }
            }
        }
    }
}

/// The elements of an ordered set, as a vector in set order.
fn set_to_names(set: &StrSet) -> (r: Vec<String>)
    ensures
        r@.len() == set@.len(),
        forall|i: int| 0 <= i < r@.len() ==> r@[i]@ == set@[i],
{
    let mut out: Vec<String> = Vec::new();
    let mut i: usize = 0;
    while i < set.len()
        invariant
            i <= set@.len(),
            out@.len() == i,
            forall|j: int| 0 <= j < i ==> out@[j]@ == set@[j],
        decreases set@.len() - i,
    {
        out.push(set.get(i).clone());
        i = i + 1;
    }
    out
}

impl Runtime {
    /// Collapses a partial runtime: what was fully loaded, with the
    /// in-progress markers discarded.
    pub fn from_partial(partial: &PartialRuntime) -> (r: Runtime)
        ensures
            r@ == partial.loaded@,
    {
        partial.loaded.clone()
    }

    /// Parses expression text against this runtime's reserved literals
    /// and domain atoms.
    pub fn parse_expression(&self, expression: &String) -> (r: Result<Expression, ParseError>)
        requires
            self.wf(),
        ensures
            match r {
                Ok(e) => scan_expression(
                    entries_reserved(self@),
                    entries_domain(self@),
                    expression@,
                ) == Ok::<Seq<crate::token::TokenView>, Seq<char>>(e@),
                Err(pe) => {
                    &&& scan_expression(
                        entries_reserved(self@),
                        entries_domain(self@),
                        expression@,
                    ) is Err
                    &&& pe@ == (crate::errors::ParseErrorView::UnknownToken {
                        text: scan_expression(
                            entries_reserved(self@),
                            entries_domain(self@),
                            expression@,
                        )->Err_0,
                    })
                },
            },
    {
        let rsv = self.reserved();
        let dom = self.domain();
        proof {
            lemma_runtime_sets_nonempty(self@);
        }
        let cs = crate::chars::chars_of(expression.as_str());
        match scan_expression_text(&rsv, &dom, &cs) {
            Ok(tokens) => Ok(Expression::new(tokens)),
            Err(e) => Err(e),
        }
    }
}

} // verus!
