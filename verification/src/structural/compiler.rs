//! The schema compiler: translates a schema description into the
//! compiled, immutable schema arena, building each object's field
//! storage and multi-pattern key matcher.

use vstd::prelude::*;
use vstd::slice::slice_to_vec;
use crate::structural::matcher::{quoted, KeyMatcher};
use crate::structural::schema::{
    names_of, wf_node, wf_nodes, FieldLookup, Schema, SchemaNode, SMALL_MAP_THRESHOLD,
};

verus! {

/// A schema description: the compiler's input. Nodes form an arena
/// built bottom-up; every handle a node holds points strictly below the
/// node's own index, and the last node is the root of the description.
pub struct SchemaDesc {
    pub nodes: Vec<DescNode>,
}

/// One node of a schema description: a "type" tag if the description
/// carried one, the "items" sub-description of an array, the
/// "properties" (name, sub-description) pairs and the "required" names
/// of an object. A description that is no mapping, or has no "type",
/// leaves `type_tag` empty and compiles to the untyped wildcard.
pub struct DescNode {
    pub type_tag: Option<Vec<u8>>,
    pub items: Option<usize>,
    pub properties: Vec<(Vec<u8>, usize)>,
    pub required: Vec<Vec<u8>>,
}

impl SchemaDesc {
    /// Handles point strictly below their node, and there is a root.
    pub open spec fn wf(&self) -> bool {
        &&& self.nodes@.len() > 0
        &&& forall|i: int|
            0 <= i < self.nodes@.len() ==> wf_desc_node(#[trigger] self.nodes@[i], i)
    }
}

/// Every handle of description node `d` at index `i` points strictly
/// below `i`.
pub open spec fn wf_desc_node(d: DescNode, i: int) -> bool {
    &&& (d.items is Some ==> d.items.unwrap() < i)
    &&& forall|j: int| 0 <= j < d.properties@.len() ==> (#[trigger] d.properties@[j]).1 < i
}

/// Compilation failures: fatal, reported once at compile time.
#[derive(Debug, PartialEq, Eq)]
pub enum SchemaError {
    /// An "array" description without an "items" sub-description.
    MissingItems,
}

/// The bytes of the type tag "string".
pub open spec fn tag_string() -> Seq<u8> {
    seq![115u8, 116u8, 114u8, 105u8, 110u8, 103u8]
}

/// The bytes of the type tag "integer".
pub open spec fn tag_integer() -> Seq<u8> {
    seq![105u8, 110u8, 116u8, 101u8, 103u8, 101u8, 114u8]
}

/// The bytes of the type tag "number".
pub open spec fn tag_number() -> Seq<u8> {
    seq![110u8, 117u8, 109u8, 98u8, 101u8, 114u8]
}

/// The bytes of the type tag "boolean".
pub open spec fn tag_boolean() -> Seq<u8> {
    seq![98u8, 111u8, 111u8, 108u8, 101u8, 97u8, 110u8]
}

/// The bytes of the type tag "array".
pub open spec fn tag_array() -> Seq<u8> {
    seq![97u8, 114u8, 114u8, 97u8, 121u8]
}

/// The bytes of the type tag "object".
pub open spec fn tag_object() -> Seq<u8> {
    seq![111u8, 98u8, 106u8, 101u8, 99u8, 116u8]
}

fn is_tag_string(t: &[u8]) -> (r: bool)
    ensures
        r == (t@ == tag_string()),
{
    let r = t.len() == 6 && t[0] == 115 && t[1] == 116 && t[2] == 114 && t[3] == 105 && t[4]
        == 110 && t[5] == 103;
    proof {
        if r {
            assert(t@ =~= tag_string());
        }
    }
    r
}

fn is_tag_integer(t: &[u8]) -> (r: bool)
    ensures
        r == (t@ == tag_integer()),
{
    let r = t.len() == 7 && t[0] == 105 && t[1] == 110 && t[2] == 116 && t[3] == 101 && t[4]
        == 103 && t[5] == 101 && t[6] == 114;
    proof {
        if r {
            assert(t@ =~= tag_integer());
        }
    }
    r
}

fn is_tag_number(t: &[u8]) -> (r: bool)
    ensures
        r == (t@ == tag_number()),
{
    let r = t.len() == 6 && t[0] == 110 && t[1] == 117 && t[2] == 109 && t[3] == 98 && t[4] == 101
        && t[5] == 114;
    proof {
        if r {
            assert(t@ =~= tag_number());
        }
    }
    r
}

fn is_tag_boolean(t: &[u8]) -> (r: bool)
    ensures
        r == (t@ == tag_boolean()),
{
    let r = t.len() == 7 && t[0] == 98 && t[1] == 111 && t[2] == 111 && t[3] == 108 && t[4] == 101
        && t[5] == 97 && t[6] == 110;
    proof {
        if r {
            assert(t@ =~= tag_boolean());
        }
    }
    r
}

fn is_tag_array(t: &[u8]) -> (r: bool)
    ensures
        r == (t@ == tag_array()),
{
    let r = t.len() == 5 && t[0] == 97 && t[1] == 114 && t[2] == 114 && t[3] == 97 && t[4] == 121;
    proof {
        if r {
            assert(t@ =~= tag_array());
        }
    }
    r
}

fn is_tag_object(t: &[u8]) -> (r: bool)
    ensures
        r == (t@ == tag_object()),
{
    let r = t.len() == 6 && t[0] == 111 && t[1] == 98 && t[2] == 106 && t[3] == 101 && t[4] == 99
        && t[5] == 116;
    proof {
        if r {
            assert(t@ =~= tag_object());
        }
    }
    r
}

/// Whether a description node can compile at all: only an "array"
/// without "items" cannot.
pub open spec fn desc_node_ok(d: DescNode) -> bool {
    match d.type_tag {
        Option::Some(t) => t@ == tag_array() ==> d.items is Some,
        Option::None => true,
    }
}

/// What description node `d` compiles to.
pub open spec fn compiled_node(d: DescNode, n: SchemaNode) -> bool {
    match d.type_tag {
        Option::None => n == SchemaNode::Any,
        Option::Some(t) => {
            if t@ == tag_string() {
                n == SchemaNode::PrimitiveString
            } else if t@ == tag_integer() || t@ == tag_number() {
                n == SchemaNode::PrimitiveNumber
            } else if t@ == tag_boolean() {
                n == SchemaNode::PrimitiveBool
            } else if t@ == tag_array() {
                d.items is Some && n == SchemaNode::Array(d.items.unwrap())
            } else if t@ == tag_object() {
                compiled_object(d, n)
            } else {
                n == SchemaNode::Any
            }
        },
    }
}

/// What an "object" description compiles to: field pairs mirroring the
/// declared properties in order, the required names as given, the
/// matcher built over the field names, and the storage representation
/// chosen by the property count alone.
pub open spec fn compiled_object(d: DescNode, n: SchemaNode) -> bool {
    match n {
        SchemaNode::Object { fields, required, matcher } => {
            &&& fields.pairs().len() == d.properties@.len()
            &&& forall|j: int|
                0 <= j < d.properties@.len() ==> (#[trigger] fields.pairs()[j]).0@
                    == d.properties@[j].0@ && fields.pairs()[j].1 == d.properties@[j].1
            &&& (fields matches FieldLookup::Small(_) <==> 1 <= d.properties@.len()
                < SMALL_MAP_THRESHOLD)
            &&& required@.len() == d.required@.len()
            &&& forall|j: int|
                0 <= j < d.required@.len() ==> (#[trigger] required@[j])@ == d.required@[j]@
            &&& matcher.pats_of(names_of(fields.pairs()))
        },
        _ => false,
    }
}

/// What `compile` returns: on success, an arena of the same length as
/// the description with each node compiled from its description node;
/// `MissingItems` exactly when some "array" description lacks "items".
pub open spec fn compile_post(desc: SchemaDesc, r: Result<Schema, SchemaError>) -> bool {
    match r {
        Result::Ok(s) => {
            &&& s.nodes_view().len() == desc.nodes@.len()
            &&& forall|i: int|
                0 <= i < desc.nodes@.len() ==> compiled_node(
                    #[trigger] desc.nodes@[i],
                    s.nodes_view()[i],
                )
        },
        Result::Err(e) => {
            &&& e == SchemaError::MissingItems
            &&& exists|i: int| 0 <= i < desc.nodes@.len() && !desc_node_ok(#[trigger] desc.nodes@[i])
        },
    }
}

/// Two compiled nodes carry the same observable content: same kind,
/// same child handles, byte-equal field names, required names and
/// matcher patterns.
pub open spec fn nodes_equiv(n1: SchemaNode, n2: SchemaNode) -> bool {
    match (n1, n2) {
        (SchemaNode::PrimitiveString, SchemaNode::PrimitiveString) => true,
        (SchemaNode::PrimitiveNumber, SchemaNode::PrimitiveNumber) => true,
        (SchemaNode::PrimitiveBool, SchemaNode::PrimitiveBool) => true,
        (SchemaNode::Any, SchemaNode::Any) => true,
        (SchemaNode::Array(c1), SchemaNode::Array(c2)) => c1 == c2,
        (
            SchemaNode::Object { fields: f1, required: r1, matcher: m1 },
            SchemaNode::Object { fields: f2, required: r2, matcher: m2 },
        ) => {
            &&& f1.pairs().len() == f2.pairs().len()
            &&& forall|j: int|
                0 <= j < f1.pairs().len() ==> (#[trigger] f1.pairs()[j]).0@ == f2.pairs()[j].0@
                    && f1.pairs()[j].1 == f2.pairs()[j].1
            &&& r1@.len() == r2@.len()
            &&& forall|j: int| 0 <= j < r1@.len() ==> (#[trigger] r1@[j])@ == r2@[j]@
            &&& m1.pats().len() == m2.pats().len()
            &&& forall|j: int| 0 <= j < m1.pats().len() ==> (#[trigger] m1.pats()[j])@ == m2.pats()[j]@
        },
        _ => false,
    }
}

/// Compiling one schema description twice yields equivalent schemas:
/// node for node the same kind, handles, field names and — decisive for
/// key discovery — byte-equal matcher patterns. With
/// `lemma_equiv_matchers_agree` this says the two compilations' matchers
/// have identical matching behavior for all inputs.
pub proof fn lemma_compile_deterministic(desc: SchemaDesc, s1: Schema, s2: Schema)
    requires
        compile_post(desc, Result::Ok(s1)),
        compile_post(desc, Result::Ok(s2)),
    ensures
        s1.nodes_view().len() == s2.nodes_view().len(),
        forall|i: int|
            0 <= i < s1.nodes_view().len() ==> nodes_equiv(
                #[trigger] s1.nodes_view()[i],
                s2.nodes_view()[i],
            ),
{
    assert forall|i: int|
        0 <= i < s1.nodes_view().len() implies nodes_equiv(
        #[trigger] s1.nodes_view()[i],
        s2.nodes_view()[i],
    ) by {
        let d = desc.nodes@[i];
        let n1 = s1.nodes_view()[i];
        let n2 = s2.nodes_view()[i];
        assert(compiled_node(d, n1));
        assert(compiled_node(d, n2));
        match d.type_tag {
            Option::Some(t) => {
                if t@ == tag_object() {
                    match (n1, n2) {
                        (
                            SchemaNode::Object { fields: f1, required: r1, matcher: m1 },
                            SchemaNode::Object { fields: f2, required: r2, matcher: m2 },
                        ) => {
                            let ns1 = names_of(f1.pairs());
                            let ns2 = names_of(f2.pairs());
                            assert forall|j: int|
                                0 <= j < f1.pairs().len() implies (#[trigger] f1.pairs()[j]).0@
                                == f2.pairs()[j].0@ && f1.pairs()[j].1 == f2.pairs()[j].1 by {
                                assert(f1.pairs()[j].0@ == d.properties@[j].0@);
                                assert(f2.pairs()[j].0@ == d.properties@[j].0@);
                            }
                            assert forall|j: int|
                                0 <= j < m1.pats().len() implies (#[trigger] m1.pats()[j])@
                                == m2.pats()[j]@ by {
                                crate::structural::matcher::lemma_pat_of_name(&m1, ns1, j);
                                crate::structural::matcher::lemma_pat_of_name(&m2, ns2, j);
                                assert(ns1[j / 2] == f1.pairs()[j / 2].0);
                                assert(ns2[j / 2] == f2.pairs()[j / 2].0);
                            }
                        },
                        _ => {},
                    }
                }
            },
            Option::None => {},
        }
    }
}

/// Matchers of corresponding object nodes of two compilations of one
/// description return the same search result for every haystack and
/// start offset: compiling twice yields matchers with identical
/// matching behavior for all inputs.
pub proof fn lemma_equiv_matchers_agree(
    n1: SchemaNode,
    n2: SchemaNode,
    hay: Seq<u8>,
    from: int,
    r1: Option<(usize, usize)>,
    r2: Option<(usize, usize)>,
)
    requires
        nodes_equiv(n1, n2),
        match n1 {
            SchemaNode::Object { matcher, .. } => crate::structural::matcher::find_post(
                matcher.pats(),
                hay,
                from,
                r1,
            ),
            _ => false,
        },
        match n2 {
            SchemaNode::Object { matcher, .. } => crate::structural::matcher::find_post(
                matcher.pats(),
                hay,
                from,
                r2,
            ),
            _ => false,
        },
    ensures
        r1 == r2,
{
    match (n1, n2) {
        (
            SchemaNode::Object { matcher: m1, .. },
            SchemaNode::Object { matcher: m2, .. },
        ) => {
            crate::structural::matcher::lemma_find_unique(
                m1.pats(),
                m2.pats(),
                hay,
                from,
                r1,
                r2,
            );
        },
        _ => {},
    }
}

/// Compiles a schema description into the immutable schema arena.
/// Succeeds exactly when every "array" description carries "items";
/// any unrecognized or missing "type" compiles to the untyped wildcard.
pub fn compile(desc: &SchemaDesc) -> (r: Result<Schema, SchemaError>)
    requires
        desc.wf(),
    ensures
        compile_post(*desc, r),
        r matches Result::Ok(s) ==> s.wf(),
        (r matches Result::Ok(_)) <==> forall|i: int|
            0 <= i < desc.nodes@.len() ==> desc_node_ok(#[trigger] desc.nodes@[i]),
{
    let mut nodes: Vec<SchemaNode> = Vec::new();
    let mut i: usize = 0;
    while i < desc.nodes.len()
        invariant
            desc.wf(),
            i <= desc.nodes@.len(),
            nodes@.len() == i,
            forall|j: int|
                0 <= j < i ==> compiled_node(#[trigger] desc.nodes@[j], nodes@[j]),
            forall|j: int| 0 <= j < i ==> desc_node_ok(#[trigger] desc.nodes@[j]),
            wf_nodes(nodes@),
        decreases desc.nodes@.len() - i,
    {
        let d = &desc.nodes[i];
        let n = match &d.type_tag {
            Option::None => SchemaNode::Any,
            Option::Some(t) => {
                let ts = t.as_slice();
                if is_tag_string(ts) {
                    SchemaNode::PrimitiveString
                } else if is_tag_integer(ts) || is_tag_number(ts) {
                    SchemaNode::PrimitiveNumber
                } else if is_tag_boolean(ts) {
                    SchemaNode::PrimitiveBool
                } else if is_tag_array(ts) {
                    match d.items {
                        Option::Some(c) => SchemaNode::Array(c),
                        Option::None => {
                            return Err(SchemaError::MissingItems);
                        },
                    }
                } else if is_tag_object(ts) {
                    compile_object_node(d, Ghost(i as int))
                } else {
                    SchemaNode::Any
                }
            },
        };
        proof {
            assert(compiled_node(desc.nodes@[i as int], n));
            assert(wf_node(n, i as int));
        }
        nodes.push(n);
        i = i + 1;
    }
    Ok(Schema::from_nodes(nodes))
}

/// Builds an object node: field storage chosen by the property count,
/// required names copied, matcher built from the field names.
fn compile_object_node(d: &DescNode, Ghost(i): Ghost<int>) -> (n: SchemaNode)
    requires
        wf_desc_node(*d, i),
    ensures
        compiled_object(*d, n),
        wf_node(n, i),
{
    let mut pairs: Vec<(Vec<u8>, usize)> = Vec::new();
    let mut names: Vec<Vec<u8>> = Vec::new();
    let mut j: usize = 0;
    while j < d.properties.len()
        invariant
            wf_desc_node(*d, i),
            j <= d.properties@.len(),
            pairs@.len() == j,
            names@.len() == j,
            forall|k: int|
                0 <= k < j ==> (#[trigger] pairs@[k]).0@ == d.properties@[k].0@ && pairs@[k].1
                    == d.properties@[k].1,
            forall|k: int| 0 <= k < j ==> (#[trigger] names@[k])@ == d.properties@[k].0@,
        decreases d.properties@.len() - j,
    {
        let name = slice_to_vec(d.properties[j].0.as_slice());
        let name2 = slice_to_vec(d.properties[j].0.as_slice());
        let child = d.properties[j].1;
        pairs.push((name, child));
        names.push(name2);
        j = j + 1;
    }
    let matcher = KeyMatcher::from_names(&names);
    let mut required: Vec<Vec<u8>> = Vec::new();
    let mut k: usize = 0;
    while k < d.required.len()
        invariant
            k <= d.required@.len(),
            required@.len() == k,
            forall|j2: int| 0 <= j2 < k ==> (#[trigger] required@[j2])@ == d.required@[j2]@,
        decreases d.required@.len() - k,
    {
        required.push(slice_to_vec(d.required[k].as_slice()));
        k = k + 1;
    }
    let count = pairs.len();
    let fields = if count >= 1 && count < SMALL_MAP_THRESHOLD {
        FieldLookup::Small(pairs)
    } else {
        FieldLookup::Large(pairs)
    };
    proof {
        let ns = names_of(fields.pairs());
        assert(ns.len() == names@.len());
        assert forall|k2: int| 0 <= k2 < ns.len() implies (#[trigger] ns[k2])@ == names@[k2]@ by {
            assert(ns[k2] == fields.pairs()[k2].0);
        }
        assert forall|k2: int| 0 <= k2 < ns.len() implies (#[trigger] matcher.pats()[2 * k2]@)
            == quoted(ns[k2]@, 34u8) && matcher.pats()[2 * k2 + 1]@ == quoted(ns[k2]@, 39u8) by {
            assert(matcher.pats()[2 * k2]@ == quoted(names@[k2]@, 34u8));
            assert(matcher.pats()[2 * k2 + 1]@ == quoted(names@[k2]@, 39u8));
        }
    }
    SchemaNode::Object { fields, required, matcher }
}

} // verus!

verus! {

/// Two compilations of one schema description parse every byte buffer
/// identically: `lemma_compile_deterministic` makes their nodes
/// pairwise equivalent, and the interpreter — which the executable
/// parser provably equals — returns the same outcome and final position
/// over equivalent arenas.
pub proof fn lemma_compile_twice_parses_alike(
    desc: SchemaDesc,
    s1: Schema,
    s2: Schema,
    buf: Seq<u8>,
    pos: int,
    depth: int,
)
    requires
        compile_post(desc, Result::Ok(s1)),
        compile_post(desc, Result::Ok(s2)),
    ensures
        crate::structural::parser::sp_node(s1.nodes_view(), s1.root_spec(), buf, pos, depth)
            == crate::structural::parser::sp_node(
            s2.nodes_view(),
            s2.root_spec(),
            buf,
            pos,
            depth,
        ),
{
    lemma_compile_deterministic(desc, s1, s2);
    assert(s1.root_spec() == s2.root_spec());
    crate::structural::parser::lemma_sp_node_congr(
        s1.nodes_view(),
        s2.nodes_view(),
        s1.root_spec(),
        buf,
        pos,
        depth,
    );
}

} // verus!
