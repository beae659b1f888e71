//! Structures: a named bundle of a domain, a set of reserved literals and
//! an ordered list of definitions. The invariant of every structure is
//! that its domain and its reserved set share no name.

use vstd::prelude::*;

use crate::definition::{Definition, DefinitionView};
use crate::token::chars_lt;
use crate::scan::all_nonempty;
use crate::strset::{
    lemma_seq_union_has, lemma_seq_union_sorted, seq_has, seq_union, sorted_strict, StrSet,
};

verus! {

/// The first domain element, in domain order, that also stands in the
/// reserved set; nothing when the two sets are disjoint.
pub open spec fn first_common(d: Seq<Seq<char>>, rs: Seq<Seq<char>>) -> Option<Seq<char>>
    decreases d.len(),
{
    if d.len() == 0 {
        None
    } else if seq_has(rs, d[0]) {
        Some(d[0])
    } else {
        first_common(d.drop_first(), rs)
    }
}

/// Disjointness means no first common element.
pub proof fn lemma_first_common_none(d: Seq<Seq<char>>, rs: Seq<Seq<char>>)
    ensures
        (first_common(d, rs) is None) <==> (forall|x: Seq<char>|
            seq_has(d, x) ==> !seq_has(rs, x)),
    decreases d.len(),
{
    if d.len() == 0 {
        assert(forall|x: Seq<char>| !seq_has(d, x));
    } else {
        lemma_first_common_none(d.drop_first(), rs);
        if first_common(d, rs) is None {
            assert forall|x: Seq<char>| seq_has(d, x) implies !seq_has(rs, x) by {
                let i = choose|i: int| 0 <= i < d.len() && d[i] == x;
                if i > 0 {
                    assert(d.drop_first()[i - 1] == x);
                }
            }
        } else {
            if seq_has(rs, d[0]) {
                assert(seq_has(d, d[0])) by {
                    assert(d[0] == d[0]);
                }
            } else {
                assert(exists|x: Seq<char>| seq_has(d.drop_first(), x) && seq_has(rs, x));
                let x = choose|x: Seq<char>| seq_has(d.drop_first(), x) && seq_has(rs, x);
                let i = choose|i: int| 0 <= i < d.drop_first().len() && d.drop_first()[i] == x;
                assert(d.drop_first()[i] == d[i + 1]);
                assert(seq_has(d, x)) by {
                    assert(d[i + 1] == x);
                }
            }
        }
    }
}

/// The one way a structure can be refused.
pub enum StructureError {
    /// A name stands in the domain and in the reserved set at once.
    DomainAndReservedOverlap { culprit: String },
}

/// Mathematical value of a [`Structure`].
pub struct StructureView {
    pub domain: Seq<Seq<char>>,
    pub reserved: Seq<Seq<char>>,
    pub definitions: Seq<DefinitionView>,
}

impl StructureView {
    /// The sets are ordered, hold no empty name, and share no name.
    pub open spec fn wf(&self) -> bool {
        &&& sorted_strict(self.domain)
        &&& sorted_strict(self.reserved)
        &&& all_nonempty(self.domain)
        &&& all_nonempty(self.reserved)
        &&& first_common(self.domain, self.reserved) is None
    }
}

/// The value of the intrinsic structure: no domain, no definitions, and
/// the braces, parentheses, comma and equals sign reserved.
pub open spec fn intrinsic_view() -> StructureView {
    StructureView {
        domain: Seq::empty(),
        reserved: seq!["("@, ")"@, ","@, "="@, "{"@, "}"@],
        definitions: Seq::empty(),
    }
}

/// A named bundle of domain atoms, reserved literals and definitions.
pub struct Structure {
    domain: StrSet,
    reserved: StrSet,
    definitions: Vec<Definition>,
}

impl View for Structure {
    type V = StructureView;

    closed spec fn view(&self) -> StructureView {
        StructureView {
            domain: self.domain@,
            reserved: self.reserved@,
            definitions: self.definitions.deep_view(),
        }
    }
}

impl DeepView for Structure {
    type V = StructureView;

    open spec fn deep_view(&self) -> StructureView {
        self@
    }
}

impl Clone for Structure {
    fn clone(&self) -> (r: Self)
        ensures
            r@ == self@,
    {
        let definitions = self.definitions.clone();
        proof {
            assert(definitions.deep_view() =~= self.definitions.deep_view());
        }
        Structure {
            domain: self.domain.clone(),
            reserved: self.reserved.clone(),
            definitions,
        }
    }
}

impl Structure {

    /// Builds a structure, refusing a domain that overlaps the reserved
    /// set; the reported culprit is the first overlapping domain element
    /// in domain order.
    pub fn create(domain: StrSet, reserved: StrSet, definitions: Vec<Definition>) -> (r: Result<
        Self,
        StructureError,
    >)
        requires
            domain.wf(),
            reserved.wf(),
            all_nonempty(domain@),
            all_nonempty(reserved@),
        ensures
            match r {
                Ok(s) => {
                    &&& first_common(domain@, reserved@) is None
                    &&& s@.wf()
                    &&& s@.domain == domain@
                    &&& s@.reserved == reserved@
                    &&& s@.definitions == definitions.deep_view()
                },
                Err(StructureError::DomainAndReservedOverlap { culprit }) => {
                    &&& first_common(domain@, reserved@) == Some(culprit@)
                },
            },
    {
        let ghost dv = domain@;
        let mut i: usize = 0;
        proof {
            assert(dv.skip(0) =~= dv);
        }
        while i < domain.len()
            invariant
                dv == domain@,
                i <= dv.len(),
                first_common(dv, reserved@) == first_common(dv.skip(i as int), reserved@),
            decreases dv.len() - i,
        {
            let ghost rest = dv.skip(i as int);
            proof {
                assert(rest[0] == dv[i as int]);
                assert(rest.drop_first() =~= dv.skip(i + 1));
            }
            if reserved.contains(domain.get(i)) {
                let culprit = domain.get(i).clone();
                return Err(StructureError::DomainAndReservedOverlap { culprit });
            }
            i = i + 1;
        }
        proof {
            assert(dv.skip(dv.len() as int).len() == 0);
        }
        Ok(Structure { domain, reserved, definitions })
    }

    /// The structure the language itself defines: no domain, no
    /// definitions, and the braces, parentheses, comma and equals sign
    /// reserved.
    pub fn intrinsic() -> (r: Self)
        ensures
            r@.wf(),
            r@ == intrinsic_view(),
    {
        let mut items: Vec<String> = Vec::new();
        items.push("(".to_owned());
        items.push(")".to_owned());
        items.push(",".to_owned());
        items.push("=".to_owned());
        items.push("{".to_owned());
        items.push("}".to_owned());
        proof {
            reveal_strlit("(");
            reveal_strlit(")");
            reveal_strlit(",");
            reveal_strlit("=");
            reveal_strlit("{");
            reveal_strlit("}");
            assert(items.deep_view() =~= seq!["("@, ")"@, ","@, "="@, "{"@, "}"@]);
            assert(crate::strset::sorted_strict(items.deep_view())) by {
                let v = items.deep_view();
                assert(chars_lt("("@, ")"@));
                assert(chars_lt(")"@, ","@));
                assert(chars_lt(","@, "="@));
                assert(chars_lt("="@, "{"@));
                assert(chars_lt("{"@, "}"@));
                assert(chars_lt("("@, ","@));
                assert(chars_lt("("@, "="@));
                assert(chars_lt("("@, "{"@));
                assert(chars_lt("("@, "}"@));
                assert(chars_lt(")"@, "="@));
                assert(chars_lt(")"@, "{"@));
                assert(chars_lt(")"@, "}"@));
                assert(chars_lt(","@, "{"@));
                assert(chars_lt(","@, "}"@));
                assert(chars_lt("="@, "}"@));
            }
        }
        let reserved = StrSet::from_sorted(items);
        let domain = StrSet::new();
        let definitions: Vec<Definition> = Vec::new();
        proof {
            assert(definitions.deep_view() =~= Seq::<DefinitionView>::empty());
        }
        let r = Structure { domain, reserved, definitions };
        proof {
            assert(r@.domain =~= intrinsic_view().domain);
            assert(r@.reserved =~= intrinsic_view().reserved);
            assert(r@.definitions =~= intrinsic_view().definitions);
            assert(r@ == intrinsic_view());
        }
        r
    }

    /// A structure with nothing in it.
    pub fn empty() -> (r: Self)
        ensures
            r@.wf(),
            r@.domain == Seq::<Seq<char>>::empty(),
            r@.reserved == Seq::<Seq<char>>::empty(),
            r@.definitions == Seq::<DefinitionView>::empty(),
    {
        let definitions: Vec<Definition> = Vec::new();
        proof {
            assert(definitions.deep_view() =~= Seq::<DefinitionView>::empty());
        }
        Structure { domain: StrSet::new(), reserved: StrSet::new(), definitions }
    }

    pub fn get_reserved(&self) -> (r: &StrSet)
        ensures
            r@ == self@.reserved,
            self@.wf() ==> r.wf(),
    {
        &self.reserved
    }

    pub fn get_domain(&self) -> (r: &StrSet)
        ensures
            r@ == self@.domain,
            self@.wf() ==> r.wf(),
    {
        &self.domain
    }

    /// The definitions, in declaration order.
    pub fn get_definitions(&self) -> (r: &Vec<Definition>)
        ensures
            r.deep_view() == self@.definitions,
    {
        &self.definitions
    }

    /// Merges another structure into this one: unions the two domains and
    /// the two reserved sets and concatenates the definitions, refusing a
    /// merge whose domain and reserved set overlap.
    pub fn merge(self, other: Structure) -> (r: Result<Self, StructureError>)
        requires
            self@.wf(),
            sorted_strict(other@.domain),
            sorted_strict(other@.reserved),
            all_nonempty(other@.domain),
            all_nonempty(other@.reserved),
        ensures
            ({
                let md = seq_union(self@.domain, other@.domain);
                let mr = seq_union(self@.reserved, other@.reserved);
                match r {
                    Ok(s) => {
                        &&& first_common(md, mr) is None
                        &&& s@.wf()
                        &&& s@.domain == md
                        &&& s@.reserved == mr
                        &&& s@.definitions == self@.definitions + other@.definitions
                    },
                    Err(StructureError::DomainAndReservedOverlap { culprit }) => {
                        first_common(md, mr) == Some(culprit@)
                    },
                }
            }),
    {
        let Structure { mut domain, mut reserved, mut definitions } = self;
        proof {
            lemma_seq_union_sorted(domain@, other@.domain);
            lemma_seq_union_sorted(reserved@, other@.reserved);
            lemma_union_nonempty(domain@, other@.domain);
            lemma_union_nonempty(reserved@, other@.reserved);
        }
        domain.add_all(other.get_domain());
        reserved.add_all(other.get_reserved());
        let ghost defs0 = definitions.deep_view();
        let other_defs = other.get_definitions();
        let mut j: usize = 0;
        while j < other_defs.len()
            invariant
                j <= other_defs@.len(),
                definitions.deep_view() =~= defs0 + other_defs.deep_view().take(j as int),
            decreases other_defs@.len() - j,
        {
            let ghost before = definitions.deep_view();
            definitions.push(other_defs[j].clone());
            proof {
                assert(definitions.deep_view() =~= before.push(
                    other_defs.deep_view()[j as int],
                ));
                assert(other_defs.deep_view().take(j + 1) =~= other_defs.deep_view().take(
                    j as int,
                ).push(other_defs.deep_view()[j as int]));
            }
            j = j + 1;
        }
        proof {
            assert(other_defs.deep_view().take(other_defs@.len() as int) =~= other_defs
                .deep_view());
        }
        Structure::create(domain, reserved, definitions)
    }
}

/// A union of sets of non-empty names holds only non-empty names.
pub proof fn lemma_union_nonempty(a: Seq<Seq<char>>, b: Seq<Seq<char>>)
    requires
        all_nonempty(a),
        all_nonempty(b),
    ensures
        all_nonempty(seq_union(a, b)),
{
    assert forall|i: int|
        0 <= i < seq_union(a, b).len() implies #[trigger] seq_union(a, b)[i].len() > 0 by {
        let y = seq_union(a, b)[i];
        assert(seq_has(seq_union(a, b), y));
        lemma_seq_union_has(a, b, y);
        if seq_has(a, y) {
            let j = choose|j: int| 0 <= j < a.len() && a[j] == y;
            assert(a[j].len() > 0);
        } else {
            let j = choose|j: int| 0 <= j < b.len() && b[j] == y;
            assert(b[j].len() > 0);
        }
    }
}

} // verus!
