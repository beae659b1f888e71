//! Resolvers: how a module name becomes source text. A resolver is a
//! value with one operation; chains try a primary and fall back to a
//! secondary, and lookup precedence is the composition order.

use vstd::prelude::*;

use crate::bindings::{lemma_map_of_contains, lemma_map_of_push, map_of};
use crate::chars::str_eq;

verus! {

/// Turns module names into source text.
pub trait Resolver {
    type Error;

    /// The source text of the named module, or why there is none.
    fn resolve(&mut self, name: &String) -> Result<String, Self::Error>;
}

/// Tries `resolver1` first and `resolver2` on any failure; the error
/// surfaced is the secondary's.
pub struct Chain<R1: Resolver, R2: Resolver> {
    pub resolver1: R1,
    pub resolver2: R2,
}

impl<R1: Resolver, R2: Resolver> Chain<R1, R2> {
    pub fn new(resolver1: R1, resolver2: R2) -> (r: Self)
        ensures
            r == (Chain { resolver1, resolver2 }),
    {
        Chain { resolver1, resolver2 }
    }
}

impl<R1: Resolver, R2: Resolver> Resolver for Chain<R1, R2> {
    type Error = R2::Error;

    // The trait promises nothing of `resolve`, so nothing can be stated
    // here of what the two wrapped resolvers return; the composition
    // order alone decides which answer wins.
    fn resolve(&mut self, name: &String) -> Result<String, Self::Error> {
        match self.resolver1.resolve(name) {
            Ok(source) => Ok(source),
            Err(_) => self.resolver2.resolve(name),
        }
    }
}

/// The failure of a map resolver.
pub enum MapResolverError {
    /// The map holds nothing under this name.
    NotFound(String),
}

/// An in-memory name-to-source store for host-embedded programs.
pub struct MapResolver {
    entries: Vec<(String, String)>,
}

impl View for MapResolver {
    type V = Map<Seq<char>, Seq<char>>;

    closed spec fn view(&self) -> Map<Seq<char>, Seq<char>> {
        map_of(self.entries@)
    }
}

impl MapResolver {
    pub fn new() -> (r: Self)
        ensures
            r@ == Map::<Seq<char>, Seq<char>>::empty(),
    {
        MapResolver { entries: Vec::new() }
    }

    /// Stores source text under a name, shadowing what was there.
    pub fn insert(&mut self, name: String, program: String)
        ensures
            final(self)@ == old(self)@.insert(name@, program@),
    {
        proof {
            lemma_map_of_push(self.entries@, name, program);
        }
        self.entries.push((name, program));
    }

    /// The most recently stored text under the name, if any.
    pub fn lookup(&self, name: &String) -> (r: Result<String, MapResolverError>)
        ensures
            match r {
                Ok(text) => self@.contains_key(name@) && text@ == self@[name@],
                Err(MapResolverError::NotFound(n)) => !self@.contains_key(name@) && n@ == name@,
            },
    {
        let n = self.entries.len();
        let mut i: usize = n;
        while i > 0
            invariant
                i <= n,
                n == self.entries@.len(),
                forall|j: int| i <= j < n ==> self.entries@[j].0@ != name@,
            decreases i,
        {
            i = i - 1;
            if str_eq(&self.entries[i].0, name) {
                proof {
                    lemma_map_of_last(self.entries@, i as int);
                }
                let text = self.entries[i].1.clone();
                return Ok(text);
            }
        }
        proof {
            lemma_map_of_contains(self.entries@, name@);
        }
        Err(MapResolverError::NotFound(name.clone()))
    }
}

impl Resolver for MapResolver {
    type Error = MapResolverError;

    fn resolve(&mut self, name: &String) -> (r: Result<String, Self::Error>)
        ensures
            final(self)@ == old(self)@,
            match r {
                Ok(text) => old(self)@.contains_key(name@) && text@ == old(self)@[name@],
                Err(MapResolverError::NotFound(n)) => !old(self)@.contains_key(name@) && n@
                    == name@,
            },
    {
        self.lookup(name)
    }
}

/// An entry whose key is not shadowed later gives the map's value.
proof fn lemma_map_of_last(s: Seq<(String, String)>, i: int)
    requires
        0 <= i < s.len(),
        forall|j: int| i < j < s.len() ==> s[j].0@ != s[i].0@,
    ensures
        map_of(s).contains_key(s[i].0@),
        map_of(s)[s[i].0@] == s[i].1@,
    decreases s.len(),
{
    if i == s.len() - 1 {
    } else {
        assert(forall|j: int| 0 <= j < s.len() - 1 ==> s.drop_last()[j] == s[j]);
        lemma_map_of_last(s.drop_last(), i);
        assert(s.last().0@ != s[i].0@);
    }
}

/// Wraps a host-supplied function as a resolver.
#[verifier::reject_recursive_types(E)]
pub struct FunctionResolver<E, F: Fn(&String) -> Result<String, E>> {
    function: F,
}

impl<E, F: Fn(&String) -> Result<String, E>> FunctionResolver<E, F> {
    /// The stored function can be called on any name.
    #[verifier::type_invariant]
    spec fn callable(&self) -> bool {
        forall|n: &String| self.function.requires((n,))
    }

    pub fn new(function: F) -> (r: Self)
        requires
            forall|n: &String| function.requires((n,)),
    {
        FunctionResolver { function }
    }
}

impl<E, F: Fn(&String) -> Result<String, E>> Resolver for FunctionResolver<E, F> {
    type Error = E;

    // An arbitrary host function promises nothing, so no ensures can be
    // stated of its result.
    fn resolve(&mut self, name: &String) -> Result<String, Self::Error> {
        proof {
            use_type_invariant(&*self);
        }
        (self.function)(name)
    }
}

/// The failure of the standard-library resolver.
pub enum StdResolverError {
    /// The name does not begin with the `std/` prefix.
    NotValidPrefix(Option<String>),
    /// The name begins with `std/` but no such module is embedded.
    NotAnStdModule(String),
}

/// Serves the embedded standard-library modules, keyed `std/<module>`.
pub struct StdResolver {}

/// The embedded source text a name reaches: the names must begin with
/// `std/`, and what follows the prefix must be an embedded module name.
pub open spec fn std_lookup(n: Seq<char>) -> Option<Seq<char>> {
    if !crate::scan::chars_prefix("std/"@, n) {
        None
    } else {
        let rest = n.skip(4);
        if rest == "core"@ {
            Some("domain { } reserve { -> } use { }"@)
        } else if rest == "function calls"@ {
            Some("domain { } reserve { apply } use { }"@)
        } else if rest == "peano"@ {
            Some(
                "domain { 0 } reserve { s, + } use { } s ( x... ) + y... => s ( x... + y... ); 0 + x... => x...;"@,
            )
        } else if rest == "propositional logic"@ {
            Some(
                "domain { true, false } reserve { and, or, not } use { } not true => false; not false => true;"@,
            )
        } else if rest == "sets"@ {
            Some("domain { } reserve { union } use { }"@)
        } else {
            None
        }
    }
}

/// The embedded module names, in the order they are tried.
pub fn std_module_names() -> (r: Vec<String>)
    ensures
        r.deep_view() == seq![
            "core"@,
            "function calls"@,
            "peano"@,
            "propositional logic"@,
            "sets"@,
        ],
{
    let mut names: Vec<String> = Vec::new();
    names.push("core".to_owned());
    names.push("function calls".to_owned());
    names.push("peano".to_owned());
    names.push("propositional logic".to_owned());
    names.push("sets".to_owned());
    proof {
        assert(names.deep_view() =~= seq![
            "core"@,
            "function calls"@,
            "peano"@,
            "propositional logic"@,
            "sets"@,
        ]);
    }
    names
}

/// The source text of an embedded module, by its position in
/// [`std_module_names`].
pub fn std_module_source(index: usize) -> (r: String)
    requires
        index < 5,
    ensures
        r@ == (if index == 0 {
            "domain { } reserve { -> } use { }"@
        } else if index == 1 {
            "domain { } reserve { apply } use { }"@
        } else if index == 2 {
            "domain { 0 } reserve { s, + } use { } s ( x... ) + y... => s ( x... + y... ); 0 + x... => x...;"@
        } else if index == 3 {
            "domain { true, false } reserve { and, or, not } use { } not true => false; not false => true;"@
        } else {
            "domain { } reserve { union } use { }"@
        }),
{
    if index == 0 {
        "domain { } reserve { -> } use { }".to_owned()
    } else if index == 1 {
        "domain { } reserve { apply } use { }".to_owned()
    } else if index == 2 {
        "domain { 0 } reserve { s, + } use { } s ( x... ) + y... => s ( x... + y... ); 0 + x... => x...;".to_owned()
    } else if index == 3 {
        "domain { true, false } reserve { and, or, not } use { } not true => false; not false => true;".to_owned()
    } else {
        "domain { } reserve { union } use { }".to_owned()
    }
}

impl StdResolver {
    pub fn new() -> (r: Self) {
        StdResolver {  }
    }

    /// Looks a `std/<module>` name up among the embedded modules.
    pub fn lookup(&self, name: &String) -> (r: Result<String, StdResolverError>)
        ensures
            (r is Ok) == (std_lookup(name@) is Some),
            r is Ok ==> r->Ok_0@ == std_lookup(name@)->Some_0,
            r is Err ==> (r->Err_0 is NotValidPrefix) == !crate::scan::chars_prefix(
                "std/"@,
                name@,
            ),
            match r {
                Err(StdResolverError::NotAnStdModule(rest)) => rest@ == name@.skip(4),
                Err(StdResolverError::NotValidPrefix(head)) => head == (if name@.len() == 0 {
                    Option::<String>::None
                } else {
                    head
                }) && (name@.len() == 0 ==> head is None) && (name@.len() > 0 ==> head is Some
                    && head->0@ == (if crate::parser::find_char(name@, '/') < name@.len() {
                    name@.take(crate::parser::find_char(name@, '/'))
                } else {
                    name@
                })),
                _ => true,
            },
    {
        let cs = crate::chars::chars_of(name.as_str());
        proof {
            assert(cs@.skip(0) =~= cs@);
        }
        let prefix = "std/".to_owned();
        if !crate::scan::prefix_at(&cs, 0, &prefix) {
            let slash = crate::parser::find_char_at(&cs, 0, '/');
            let head = if slash < cs.len() {
                proof {
                    assert(cs@.subrange(0, slash as int) =~= name@.take(
                        crate::parser::find_char(name@, '/'),
                    ));
                }
                Some(crate::chars::string_of_range(&cs, 0, slash))
            } else if cs.len() > 0 {
                proof {
                    assert(cs@.subrange(0, cs@.len() as int) =~= name@);
                }
                Some(crate::chars::string_of_range(&cs, 0, cs.len()))
            } else {
                None
            };
            return Err(StdResolverError::NotValidPrefix(head));
        }
        proof {
            reveal_strlit("std/");
            assert(cs@.len() >= 4);
        }
        let rest = crate::chars::string_of_range(&cs, 4, cs.len());
        proof {
            assert(rest@ == name@.skip(4)) by {
                assert(cs@.subrange(4, cs@.len() as int) =~= name@.skip(4));
            }
        }
        let names = std_module_names();
        let ghost nv = names.deep_view();
        proof {
            assert(names@.len() == names.deep_view().len());
        }
        let mut i: usize = 0;
        while i < names.len()
            invariant
                i <= names@.len(),
                names@.len() == 5,
                nv == names.deep_view(),
                nv == seq!["core"@, "function calls"@, "peano"@, "propositional logic"@, "sets"@],
                rest@ == name@.skip(4),
                crate::scan::chars_prefix("std/"@, name@),
                forall|j: int| 0 <= j < i ==> nv[j] != rest@,
            decreases names@.len() - i,
        {
            if str_eq(&names[i], &rest) {
                proof {
                    assert(names@[i as int]@ == nv[i as int]);
                    assert(nv[i as int] == rest@);
                }
                return Ok(std_module_source(i));
            }
            proof {
                assert(names@[i as int]@ == nv[i as int]);
            }
            i = i + 1;
        }
        proof {
            assert(nv[0] != rest@);
            assert(nv[1] != rest@);
            assert(nv[2] != rest@);
            assert(nv[3] != rest@);
            assert(nv[4] != rest@);
        }
        Err(StdResolverError::NotAnStdModule(rest))
    }
}

impl Resolver for StdResolver {
    type Error = StdResolverError;

    fn resolve(&mut self, name: &String) -> (r: Result<String, Self::Error>)
        ensures
            (r is Ok) == (std_lookup(name@) is Some),
            r is Ok ==> r->Ok_0@ == std_lookup(name@)->Some_0,
            r is Err ==> (r->Err_0 is NotValidPrefix) == !crate::scan::chars_prefix(
                "std/"@,
                name@,
            ),
            match r {
                Err(StdResolverError::NotAnStdModule(rest)) => rest@ == name@.skip(4),
                Err(StdResolverError::NotValidPrefix(head)) => (name@.len() == 0 ==> head
                    is None) && (name@.len() > 0 ==> head is Some && head->0@ == (
                if crate::parser::find_char(name@, '/') < name@.len() {
                    name@.take(crate::parser::find_char(name@, '/'))
                } else {
                    name@
                })),
                _ => true,
            },
    {
        self.lookup(name)
    }
}

/// The failure of the embedded resolver.
pub enum EmbeddedResolverError {
    /// No module of this name is embedded in the program.
    NotFound(String),
}

/// The variant of the standard-library resolver that answers from the
/// modules embedded in the program itself.
pub struct EmbeddedStdResolver {}

impl EmbeddedStdResolver {
    pub fn new() -> (r: Self) {
        EmbeddedStdResolver {  }
    }
}

impl Resolver for EmbeddedStdResolver {
    type Error = EmbeddedResolverError;

    fn resolve(&mut self, name: &String) -> (r: Result<String, Self::Error>)
        ensures
            (r is Ok) == (std_lookup(name@) is Some),
            r is Ok ==> r->Ok_0@ == std_lookup(name@)->Some_0,
            match r {
                Err(EmbeddedResolverError::NotFound(n)) => n@ == name@ && std_lookup(name@)
                    is None,
                _ => true,
            },
    {
        let fresh = StdResolver {  };
        match fresh.lookup(name) {
            Ok(text) => Ok(text),
            Err(_) => Err(EmbeddedResolverError::NotFound(name.clone())),
        }
    }
}

} // verus!
