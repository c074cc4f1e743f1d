//! The compiled schema: an immutable arena of nodes describing the
//! expected shape, with per-object field lookup and key matcher.

use vstd::prelude::*;
use crate::structural::matcher::KeyMatcher;
use crate::utils::bytes::bytes_eq;

verus! {

/// Field counts below this threshold use the linear `Small` storage;
/// wider objects fall back to `Large`.
pub const SMALL_MAP_THRESHOLD: usize = 16;

/// Field storage of an object schema: ordered (name, child handle)
/// pairs. `Small` is the storage for narrow objects, `Large` the
/// fallback for wide ones; lookup semantics (exact byte-for-byte name
/// match, first declaration wins) are identical in both — the choice is
/// a compile-time detail that is provably never observable.
pub enum FieldLookup {
    Small(Vec<(Vec<u8>, usize)>),
    Large(Vec<(Vec<u8>, usize)>),
}

/// The child handle the first pair of `pairs` whose name equals `key`
/// holds, if any.
pub open spec fn lookup_pairs(pairs: Seq<(Vec<u8>, usize)>, key: Seq<u8>) -> Option<usize>
    decreases pairs.len(),
{
    if pairs.len() == 0 {
        Option::None
    } else if pairs[0].0@ == key {
        Option::Some(pairs[0].1)
    } else {
        lookup_pairs(pairs.drop_first(), key)
    }
}

/// The declared field names of `pairs`, in declaration order.
pub open spec fn names_of(pairs: Seq<(Vec<u8>, usize)>) -> Seq<Vec<u8>> {
    pairs.map_values(|p: (Vec<u8>, usize)| p.0)
}

/// `lookup_pairs` finds a child exactly when some pair holds the key.
pub proof fn lemma_lookup_exists(pairs: Seq<(Vec<u8>, usize)>, key: Seq<u8>)
    ensures
        lookup_pairs(pairs, key) is Some <==> exists|j: int|
            0 <= j < pairs.len() && (#[trigger] pairs[j].0@) == key,
    decreases pairs.len(),
{
    if pairs.len() > 0 && pairs[0].0@ != key {
        lemma_lookup_exists(pairs.drop_first(), key);
        if lookup_pairs(pairs, key) is Some {
            let j = choose|j: int|
                0 <= j < pairs.drop_first().len() && (#[trigger] pairs.drop_first()[j].0@) == key;
            assert(pairs[j + 1].0@ == key);
        }
        if exists|j: int| 0 <= j < pairs.len() && (#[trigger] pairs[j].0@) == key {
            let j = choose|j: int| 0 <= j < pairs.len() && (#[trigger] pairs[j].0@) == key;
            assert(pairs.drop_first()[j - 1].0@ == key);
        }
    }
}

/// A successful lookup returns the handle of some pair holding the key.
pub proof fn lemma_lookup_result(pairs: Seq<(Vec<u8>, usize)>, key: Seq<u8>)
    requires
        lookup_pairs(pairs, key) is Some,
    ensures
        exists|j: int|
            0 <= j < pairs.len() && (#[trigger] pairs[j]).0@ == key && pairs[j].1 == lookup_pairs(
                pairs,
                key,
            ).unwrap(),
    decreases pairs.len(),
{
    if pairs.len() > 0 {
        if pairs[0].0@ == key {
            assert(pairs[0].0@ == key && pairs[0].1 == lookup_pairs(pairs, key).unwrap());
        } else {
            lemma_lookup_result(pairs.drop_first(), key);
            let j = choose|j: int|
                0 <= j < pairs.drop_first().len() && (#[trigger] pairs.drop_first()[j]).0@ == key
                    && pairs.drop_first()[j].1 == lookup_pairs(pairs.drop_first(), key).unwrap();
            assert(pairs[j + 1].0@ == key && pairs[j + 1].1 == lookup_pairs(pairs, key).unwrap());
        }
    }
}

impl FieldLookup {
    /// The stored pairs, whichever representation holds them.
    pub open spec fn pairs(&self) -> Seq<(Vec<u8>, usize)> {
        match self {
            FieldLookup::Small(v) => v@,
            FieldLookup::Large(v) => v@,
        }
    }

    /// Looks the field name up, byte for byte; the first declared pair
    /// with that name wins, in either representation.
    pub fn get(&self, key: &[u8]) -> (r: Option<usize>)
        ensures
            r == lookup_pairs(self.pairs(), key@),
    {
        let v = match self {
            FieldLookup::Small(v) => v,
            FieldLookup::Large(v) => v,
        };
        proof {
            assert(self.pairs().skip(0) =~= self.pairs());
        }
        let mut j: usize = 0;
        while j < v.len()
            invariant
                j <= v@.len(),
                v@ == self.pairs(),
                lookup_pairs(self.pairs(), key@) == lookup_pairs(
                    self.pairs().skip(j as int),
                    key@,
                ),
            decreases v@.len() - j,
        {
            let ghost suffix = self.pairs().skip(j as int);
            if bytes_eq(v[j].0.as_slice(), key) {
                proof {
                    assert(suffix[0] == self.pairs()[j as int]);
                }
                return Some(v[j].1);
            }
            proof {
                assert(suffix[0] == self.pairs()[j as int]);
                assert(suffix.drop_first() =~= self.pairs().skip(j + 1));
            }
            j = j + 1;
        }
        proof {
            assert(self.pairs().skip(j as int).len() == 0);
        }
        None
    }
}

/// The two field storages are interchangeable: a `Small` and a `Large`
/// lookup holding the same pairs return the same child for every key —
/// the representation chosen at compile time is never observable.
pub proof fn lemma_small_large_agree(a: FieldLookup, b: FieldLookup, key: Seq<u8>)
    requires
        a matches FieldLookup::Small(_),
        b matches FieldLookup::Large(_),
        a.pairs() == b.pairs(),
    ensures
        lookup_pairs(a.pairs(), key) == lookup_pairs(b.pairs(), key),
{
}

/// One node of a compiled schema. `Array` and the object fields hold
/// handles (indices) into the arena the node lives in; a well-formed
/// arena keeps every handle strictly below the node's own index, so the
/// tree is acyclic by construction.
pub enum SchemaNode {
    PrimitiveString,
    PrimitiveNumber,
    PrimitiveBool,
    Array(usize),
    Object { fields: FieldLookup, required: Vec<Vec<u8>>, matcher: KeyMatcher },
    Any,
}

/// Every handle of node `i` points strictly below `i`, and an object's
/// matcher holds exactly the quote-enclosed variants of its field names.
pub open spec fn wf_node(n: SchemaNode, i: int) -> bool {
    match n {
        SchemaNode::Array(c) => c < i,
        SchemaNode::Object { fields, required, matcher } => {
            &&& forall|j: int|
                0 <= j < fields.pairs().len() ==> (#[trigger] fields.pairs()[j]).1 < i
            &&& matcher.pats_of(names_of(fields.pairs()))
        },
        _ => true,
    }
}

/// The whole arena is well-formed.
pub open spec fn wf_nodes(nodes: Seq<SchemaNode>) -> bool {
    forall|i: int| 0 <= i < nodes.len() ==> wf_node(#[trigger] nodes[i], i)
}

/// An immutable compiled schema: an arena of nodes built bottom-up, the
/// last node being the root. Never mutated after compilation, so it may
/// be shared freely across extraction calls.
pub struct Schema {
    nodes: Vec<SchemaNode>,
}

impl Schema {
    /// The arena's nodes.
    pub closed spec fn nodes_view(&self) -> Seq<SchemaNode> {
        self.nodes@
    }

    /// A compiled schema is nonempty and well-formed.
    pub open spec fn wf(&self) -> bool {
        self.nodes_view().len() > 0 && wf_nodes(self.nodes_view())
    }

    /// The root handle: the last node of the arena.
    pub open spec fn root_spec(&self) -> int {
        self.nodes_view().len() - 1
    }

    pub(crate) fn from_nodes(nodes: Vec<SchemaNode>) -> (r: Self)
        ensures
            r.nodes_view() == nodes@,
    {
        Schema { nodes }
    }

    pub fn len(&self) -> (r: usize)
        ensures
            r == self.nodes_view().len(),
    {
        self.nodes.len()
    }

    /// The root handle of a compiled schema.
    pub fn root(&self) -> (r: usize)
        requires
            self.nodes_view().len() > 0,
        ensures
            r == self.root_spec(),
    {
        self.nodes.len() - 1
    }

    /// The node a handle points at.
    pub fn node(&self, i: usize) -> (r: &SchemaNode)
        requires
            i < self.nodes_view().len(),
        ensures
            *r == self.nodes_view()[i as int],
    {
        &self.nodes[i]
    }
}

} // verus!

verus! {

/// `lookup_pairs` depends only on the names' bytes and the handles.
pub proof fn lemma_lookup_congr(
    p1: Seq<(Vec<u8>, usize)>,
    p2: Seq<(Vec<u8>, usize)>,
    key: Seq<u8>,
)
    requires
        p1.len() == p2.len(),
        forall|j: int|
            0 <= j < p1.len() ==> (#[trigger] p1[j]).0@ == p2[j].0@ && p1[j].1 == p2[j].1,
    ensures
        lookup_pairs(p1, key) == lookup_pairs(p2, key),
    decreases p1.len(),
{
    if p1.len() > 0 {
        assert(p1[0].0@ == p2[0].0@ && p1[0].1 == p2[0].1);
        if p1[0].0@ != key {
            assert(forall|j: int|
                0 <= j < p1.drop_first().len() ==> (#[trigger] p1.drop_first()[j]).0@
                    == p2.drop_first()[j].0@ && p1.drop_first()[j].1 == p2.drop_first()[j].1);
            lemma_lookup_congr(p1.drop_first(), p2.drop_first(), key);
        }
    }
}

} // verus!
