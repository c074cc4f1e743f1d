//! The primary entry point: a compiled schema handle and the haystack
//! scanner that drives the speculative parser over surrounding text.

use vstd::prelude::*;
use crate::structural::compiler::{compile, compile_post, desc_node_ok, SchemaDesc, SchemaError};
use crate::structural::parser::{
    depth_ok, m_matches, never_fails, obj_keys_discoverable, parse_node, sp_node, value_fits,
    MOut, MVal,
};
use crate::structural::schema::{Schema, SchemaNode};
use crate::utils::cursor::Cursor;
use crate::value::Value;

verus! {

/// The haystack scanner found no candidate start offset that parses.
#[derive(Debug, PartialEq, Eq)]
pub struct NotFound;

/// Relies on memchr::memchr: returns the index of the first occurrence
/// of `needle` in `haystack`, or `None` when it does not occur.
#[verifier::external_body]
fn find_byte(needle: u8, haystack: &[u8]) -> (r: Option<usize>)
    ensures
        match r {
            Option::Some(i) => i < haystack@.len() && haystack@[i as int] == needle && forall|
                j: int,
            | 0 <= j < i ==> haystack@[j] != needle,
            Option::None => forall|j: int| 0 <= j < haystack@.len() ==> haystack@[j] != needle,
        },
{
    memchr::memchr(needle, haystack)
}

/// The first '{' in `text` at or after `start`, or -1 when none
/// remains.
pub open spec fn first_brace(text: Seq<u8>, start: int) -> int
    decreases text.len() - start,
{
    if !(0 <= start < text.len()) {
        -1
    } else if text[start] == 123u8 {
        start
    } else {
        first_brace(text, start + 1)
    }
}

/// What `first_brace` returns, characterized.
pub proof fn lemma_first_brace(text: Seq<u8>, start: int)
    requires
        0 <= start,
    ensures
        first_brace(text, start) >= 0 ==> {
            let b = first_brace(text, start);
            &&& start <= b < text.len()
            &&& text[b] == 123u8
            &&& forall|i: int| start <= i < b ==> text[i] != 123u8
        },
        first_brace(text, start) < 0 ==> forall|i: int|
            start <= i < text.len() ==> text[i] != 123u8,
    decreases text.len() - start,
{
    if 0 <= start < text.len() && text[start] != 123u8 {
        lemma_first_brace(text, start + 1);
    }
}

/// The haystack scan, modeled: a full parse is attempted at each '{'
/// in turn, in increasing offset order; the first success gives the
/// value, and exhaustion of candidates gives nothing.
pub open spec fn sp_extract(nodes: Seq<SchemaNode>, root: int, text: Seq<u8>, start: int) -> Option<
    MVal,
>
    decreases text.len() - start,
{
    if !(0 <= start <= text.len()) {
        Option::None
    } else {
        let b0 = first_brace(text, start);
        if b0 < 0 {
            Option::None
        } else {
            let b = if start <= b0 < text.len() {
                b0
            } else {
                start
            };
            let w = text.subrange(b, text.len() as int);
            let a = sp_node(nodes, root, w, 0, 0);
            match a.0 {
                MOut::MOk(m) => Option::Some(m),
                MOut::MFail(_) => if b + 1 <= text.len() {
                    sp_extract(nodes, root, text, b + 1)
                } else {
                    Option::None
                },
            }
        }
    }
}

/// A compiled, immutable schema handle, reused across extraction calls.
pub struct JsonExtractor {
    root: Schema,
}

impl JsonExtractor {
    /// The compiled schema the extractor drives.
    pub closed spec fn schema(&self) -> Schema {
        self.root
    }

    pub open spec fn wf(&self) -> bool {
        self.schema().wf()
    }

    /// Compiles the schema description once; the result is reused
    /// across many extraction calls.
    pub fn new(desc: &SchemaDesc) -> (r: Result<Self, SchemaError>)
        requires
            desc.wf(),
        ensures
            r matches Result::Ok(ex) ==> ex.wf() && compile_post(
                *desc,
                Result::Ok(ex.schema()),
            ),
            r matches Result::Err(e) ==> compile_post(*desc, Result::Err(e)),
            (r matches Result::Ok(_)) <==> forall|i: int|
                0 <= i < desc.nodes@.len() ==> desc_node_ok(#[trigger] desc.nodes@[i]),
    {
        match compile(desc) {
            Result::Ok(root) => Ok(JsonExtractor { root }),
            Result::Err(e) => Err(e),
        }
    }

    /// The haystack scan: tries a full parse at each '{' in turn and
    /// returns the first value that parses; when no candidate start
    /// offset remains, the whole extraction fails with `NotFound`.
    pub fn extract(&self, text: &[u8]) -> (r: Result<Value, NotFound>)
        requires
            self.wf(),
        ensures
            r matches Result::Ok(v) ==> value_fits(
                self.schema().nodes_view(),
                self.schema().root_spec(),
                v,
            ),
            r matches Result::Ok(v) ==> exists|i: int|
                0 <= i < text@.len() && #[trigger] text@[i] == 123u8 && obj_keys_discoverable(
                    v,
                    text@.subrange(i, text@.len() as int),
                ),
            (forall|i: int| 0 <= i < text@.len() ==> text@[i] != 123u8) ==> r matches Result::Err(
                _,
            ),
            depth_ok(self.schema().nodes_view(), self.schema().root_spec(), 0) && never_fails(
                self.schema().nodes_view(),
                self.schema().root_spec(),
            ) && (exists|i: int| 0 <= i < text@.len() && #[trigger] text@[i] == 123u8)
                ==> r matches Result::Ok(_),
            ({
                let sp = sp_extract(
                    self.schema().nodes_view(),
                    self.schema().root_spec(),
                    text@,
                    0,
                );
                match r {
                    Result::Ok(v) => sp matches Option::Some(m) && m_matches(v, m),
                    Result::Err(_) => sp is None,
                }
            }),
    {
        let ghost nodes = self.schema().nodes_view();
        let ghost root = self.schema().root_spec();
        let mut start: usize = 0;
        loop
            invariant
                start <= text@.len(),
                self.wf(),
                nodes == self.schema().nodes_view(),
                root == self.schema().root_spec(),
                depth_ok(nodes, root, 0) && never_fails(nodes, root) ==> start == 0,
                sp_extract(nodes, root, text@, 0) == sp_extract(nodes, root, text@, start as int),
            decreases text@.len() - start,
        {
            let window = &text[start..text.len()];
            match find_byte(123, window) {
                Option::None => {
                    proof {
                        if depth_ok(nodes, root, 0) && never_fails(nodes, root) {
                            assert(window@ =~= text@);
                        }
                        lemma_first_brace(text@, start as int);
                        if first_brace(text@, start as int) >= 0 {
                            let b = first_brace(text@, start as int);
                            assert(window@[b - start] == text@[b]);
                            assert(false);
                        }
                        assert(sp_extract(nodes, root, text@, start as int) is None);
                    }
                    return Err(NotFound);
                },
                Option::Some(i) => {
                    let abs = start + i;
                    proof {
                        assert(text@[abs as int] == 123u8);
                        lemma_first_brace(text@, start as int);
                        if first_brace(text@, start as int) < 0 {
                            assert(text@[abs as int] != 123u8);
                            assert(false);
                        }
                        let b = first_brace(text@, start as int);
                        if b < abs {
                            assert(window@[b - start] == text@[b]);
                            assert(window@[b - start] != 123u8);
                            assert(false);
                        }
                        if b > abs {
                            assert(text@[abs as int] != 123u8);
                            assert(false);
                        }
                        assert(b == abs);
                    }
                    let mut cursor = Cursor::new(&text[abs..text.len()]);
                    let ghost c0 = cursor;
                    let ghost spa = sp_node(
                        nodes,
                        root,
                        text@.subrange(abs as int, text@.len() as int),
                        0,
                        0,
                    );
                    proof {
                        assert(c0.buf() == text@.subrange(abs as int, text@.len() as int));
                    }
                    match parse_node(&mut cursor, &self.root, self.root.root(), 0) {
                        Result::Ok(v) => {
                            proof {
                                assert(c0.rem() =~= text@.subrange(
                                    abs as int,
                                    text@.len() as int,
                                ));
                                assert(obj_keys_discoverable(
                                    v,
                                    text@.subrange(abs as int, text@.len() as int),
                                ));
                                match spa.0 {
                                    MOut::MOk(m) => {
                                        assert(m_matches(v, m));
                                        assert(sp_extract(nodes, root, text@, start as int)
                                            == Option::Some(m));
                                    },
                                    MOut::MFail(_) => {
                                        assert(false);
                                    },
                                }
                            }
                            return Ok(v);
                        },
                        Result::Err(_) => {
                            proof {
                                match spa.0 {
                                    MOut::MFail(_) => {
                                        assert(sp_extract(nodes, root, text@, start as int)
                                            == sp_extract(nodes, root, text@, abs as int + 1));
                                    },
                                    MOut::MOk(_) => {
                                        assert(false);
                                    },
                                }
                            }
                            start = abs + 1;
                        },
                    }
                },
            }
        }
    }
}

} // verus!
