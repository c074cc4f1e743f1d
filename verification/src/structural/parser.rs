//! The speculative parser: consumes a cursor against a schema node,
//! producing a value, tolerating malformed input. Primitive parsing
//! never fails; structural failures abort only the current attempt.

use vstd::prelude::*;
use vstd::slice::slice_to_vec;
use crate::structural::matcher::{lemma_pat_of_name, lemma_quoted_content, quoted};
use crate::structural::schema::{
    lemma_lookup_exists, lemma_lookup_result, lookup_pairs, names_of, wf_node, Schema, SchemaNode,
};
use crate::utils::bytes::{
    ascii_ws_end, bytes_eq, is_ascii_ws, lemma_occurs_shift, lemma_skip_ws_end, occurs_in,
    skip_ws_end, starts_with,
};
use crate::utils::cursor::Cursor;
use crate::value::Value;

verus! {

/// A failure of one parse attempt. Primitive parsing never produces
/// one; only structural failures do. `InvalidUtf8` belongs to host
/// adapters that materialize text for a host runtime; the engine itself
/// never constructs it.
#[derive(Debug, PartialEq, Eq)]
pub enum ParseError {
    RecursionLimit,
    MissingField(Vec<u8>),
    InvalidUtf8,
    UnexpectedEof,
}

/// Recursion depths beyond this bound abort with `RecursionLimit`.
pub const MAX_DEPTH: usize = 128;

/// Strings longer than this are truncated rather than scanned further.
pub const MAX_STRING_LEN: usize = 1024 * 1024;

/// The character class a number greedily consumes: digits, sign, dot,
/// exponent letters, and the thousands-separator comma.
pub open spec fn is_num_byte(b: u8) -> bool {
    (48 <= b <= 57) || b == 46u8 || b == 45u8 || b == 43u8 || b == 101u8 || b == 69u8 || b == 44u8
}

fn num_byte(b: u8) -> (r: bool)
    ensures
        r == is_num_byte(b),
{
    (48 <= b && b <= 57) || b == 46 || b == 45 || b == 43 || b == 101 || b == 69 || b == 44
}

fn ascii_ws_byte(b: u8) -> (r: bool)
    ensures
        r == is_ascii_ws(b),
{
    b == 32 || b == 9 || b == 10 || b == 12 || b == 13
}

/// `s` with every comma removed.
pub open spec fn strip_commas(s: Seq<u8>) -> Seq<u8>
    decreases s.len(),
{
    if s.len() == 0 {
        Seq::empty()
    } else {
        let rest = strip_commas(s.drop_last());
        if s.last() == 44u8 {
            rest
        } else {
            rest.push(s.last())
        }
    }
}

/// Stripping commas keeps every remaining byte in the original class.
pub proof fn lemma_strip_commas_bytes(s: Seq<u8>)
    requires
        forall|j: int| 0 <= j < s.len() ==> is_num_byte(#[trigger] s[j]),
    ensures
        forall|j: int|
            0 <= j < strip_commas(s).len() ==> is_num_byte(#[trigger] strip_commas(s)[j])
                && strip_commas(s)[j] != 44u8,
    decreases s.len(),
{
    if s.len() > 0 {
        assert(forall|j: int| 0 <= j < s.drop_last().len() ==> is_num_byte(
            #[trigger] s.drop_last()[j],
        ));
        lemma_strip_commas_bytes(s.drop_last());
        let rest = strip_commas(s.drop_last());
        assert(is_num_byte(s[s.len() - 1]));
        if s.last() == 44u8 {
            assert(strip_commas(s) == rest);
        } else {
            assert(strip_commas(s) == rest.push(s.last()));
            assert forall|j: int| 0 <= j < strip_commas(s).len() implies is_num_byte(
                #[trigger] strip_commas(s)[j],
            ) && strip_commas(s)[j] != 44u8 by {
                if j < rest.len() {
                    assert(strip_commas(s)[j] == rest[j]);
                } else {
                    assert(strip_commas(s)[j] == s.last());
                }
            }
        }
    }
}

/// What number parsing does to the remainder `s`: it consumes the
/// longest prefix of number bytes (length `adv`) and yields its digits
/// with commas stripped. It never fails.
pub open spec fn number_post(s: Seq<u8>, r: Result<Value, ParseError>, adv: int) -> bool {
    &&& 0 <= adv <= s.len()
    &&& forall|j: int| 0 <= j < adv ==> is_num_byte(#[trigger] s[j])
    &&& (adv == s.len() || !is_num_byte(s[adv]))
    &&& (r matches Result::Ok(Value::Number(v)) && v@ == strip_commas(s.subrange(0, adv)))
}

/// Robust number parsing: greedy over the number class, commas
/// tolerated and stripped; unparsable text yields an empty digit
/// string, never a failure. Turning the digits into a machine float is
/// the host adapter's step.
pub fn parse_number_robust(cursor: &mut Cursor) -> (r: Result<Value, ParseError>)
    requires
        old(cursor).wf(),
    ensures
        final(cursor).buf() == old(cursor).buf(),
        final(cursor).wf(),
        old(cursor).pos <= final(cursor).pos,
        number_post(old(cursor).rem(), r, final(cursor).pos - old(cursor).pos),
{
    let rem = cursor.remaining();
    let mut end: usize = 0;
    while end < rem.len() && num_byte(rem[end])
        invariant
            end <= rem@.len(),
            forall|j: int| 0 <= j < end ==> is_num_byte(#[trigger] rem@[j]),
        decreases rem@.len() - end,
    {
        end = end + 1;
    }
    let mut out: Vec<u8> = Vec::new();
    let mut j: usize = 0;
    while j < end
        invariant
            j <= end <= rem@.len(),
            out@ == strip_commas(rem@.subrange(0, j as int)),
        decreases end - j,
    {
        let b = rem[j];
        proof {
            assert(rem@.subrange(0, j + 1).drop_last() =~= rem@.subrange(0, j as int));
            assert(rem@.subrange(0, j + 1).last() == rem@[j as int]);
        }
        if b != 44 {
            out.push(b);
        }
        j = j + 1;
    }
    cursor.advance(end);
    Ok(Value::Number(out))
}

/// The bytes of "true".
pub open spec fn lit_true() -> Seq<u8> {
    seq![116u8, 114u8, 117u8, 101u8]
}

/// The bytes of "false".
pub open spec fn lit_false() -> Seq<u8> {
    seq![102u8, 97u8, 108u8, 115u8, 101u8]
}

/// The bytes of "True".
pub open spec fn lit_cap_true() -> Seq<u8> {
    seq![84u8, 114u8, 117u8, 101u8]
}

/// The bytes of "False".
pub open spec fn lit_cap_false() -> Seq<u8> {
    seq![70u8, 97u8, 108u8, 115u8, 101u8]
}

/// The bytes of "null".
pub open spec fn lit_null() -> Seq<u8> {
    seq![110u8, 117u8, 108u8, 108u8]
}

/// What boolean parsing does to the remainder `s`: "true"/"false" and
/// the capitalized aliases are consumed; any other token yields a null
/// value and consumes nothing. It never fails.
pub open spec fn bool_post(s: Seq<u8>, r: Result<Value, ParseError>, adv: int) -> bool {
    if starts_with(s, lit_true()) {
        r == Result::<Value, ParseError>::Ok(Value::Bool(true)) && adv == 4
    } else if starts_with(s, lit_false()) {
        r == Result::<Value, ParseError>::Ok(Value::Bool(false)) && adv == 5
    } else if starts_with(s, lit_cap_true()) {
        r == Result::<Value, ParseError>::Ok(Value::Bool(true)) && adv == 4
    } else if starts_with(s, lit_cap_false()) {
        r == Result::<Value, ParseError>::Ok(Value::Bool(false)) && adv == 5
    } else {
        r == Result::<Value, ParseError>::Ok(Value::Null) && adv == 0
    }
}

/// Speculative boolean parsing: accepts "true", "false" and their
/// capitalized aliases; any other token yields null, never a failure.
pub fn parse_bool_speculative(cursor: &mut Cursor) -> (r: Result<Value, ParseError>)
    requires
        old(cursor).wf(),
    ensures
        final(cursor).buf() == old(cursor).buf(),
        final(cursor).wf(),
        old(cursor).pos <= final(cursor).pos,
        bool_post(old(cursor).rem(), r, final(cursor).pos - old(cursor).pos),
{
    let rem = cursor.remaining();
    if rem.len() >= 4 && rem[0] == 116 && rem[1] == 114 && rem[2] == 117 && rem[3] == 101 {
        proof {
            assert(rem@.subrange(0, 4) =~= lit_true());
        }
        cursor.advance(4);
        Ok(Value::Bool(true))
    } else if rem.len() >= 5 && rem[0] == 102 && rem[1] == 97 && rem[2] == 108 && rem[3] == 115
        && rem[4] == 101 {
        proof {
            assert(rem@.subrange(0, 5) =~= lit_false());
        }
        cursor.advance(5);
        Ok(Value::Bool(false))
    } else if rem.len() >= 4 && rem[0] == 84 && rem[1] == 114 && rem[2] == 117 && rem[3] == 101 {
        proof {
            assert(rem@.subrange(0, 4) =~= lit_cap_true());
        }
        cursor.advance(4);
        Ok(Value::Bool(true))
    } else if rem.len() >= 5 && rem[0] == 70 && rem[1] == 97 && rem[2] == 108 && rem[3] == 115
        && rem[4] == 101 {
        proof {
            assert(rem@.subrange(0, 5) =~= lit_cap_false());
        }
        cursor.advance(5);
        Ok(Value::Bool(false))
    } else {
        proof {
            if starts_with(rem@, lit_true()) {
                assert(rem@[0] == 116 && rem@[1] == 114 && rem@[2] == 117 && rem@[3] == 101);
            }
            if starts_with(rem@, lit_false()) {
                assert(rem@[0] == 102 && rem@[1] == 97 && rem@[2] == 108 && rem@[3] == 115
                    && rem@[4] == 101);
            }
            if starts_with(rem@, lit_cap_true()) {
                assert(rem@[0] == 84 && rem@[1] == 114 && rem@[2] == 117 && rem@[3] == 101);
            }
            if starts_with(rem@, lit_cap_false()) {
                assert(rem@[0] == 70 && rem@[1] == 97 && rem@[2] == 108 && rem@[3] == 115
                    && rem@[4] == 101);
            }
        }
        Ok(Value::Null)
    }
}

/// A prospective string-terminating delimiter counts only if what
/// follows it, after optional whitespace, confirms true termination: a
/// colon, closing brace or bracket, the fullwidth closing brace, a
/// comma leading into a key or closing token, or end of input.
pub open spec fn closure_from(s: Seq<u8>, from: int) -> bool {
    let i = ascii_ws_end(s, from);
    if i >= s.len() {
        true
    } else if s[i] == 58 || s[i] == 125 || s[i] == 93 {
        true
    } else if s[i] == 239 && i + 2 < s.len() && s[i + 1] == 188 && s[i + 2] == 157 {
        true
    } else if s[i] == 44 {
        comma_closure_from(s, i + 1)
    } else if s[i] == 239 && i + 2 < s.len() && s[i + 1] == 188 && s[i + 2] == 140 {
        comma_closure_from(s, i + 3)
    } else {
        false
    }
}

/// After a comma, termination is confirmed by an opening quote (ASCII
/// double or single, or fullwidth) or a closing brace (ASCII or
/// fullwidth) or end of input, after optional whitespace.
pub open spec fn comma_closure_from(s: Seq<u8>, from: int) -> bool {
    let j = ascii_ws_end(s, from);
    if j >= s.len() {
        true
    } else if s[j] == 34 || s[j] == 39 || s[j] == 125 {
        true
    } else if s[j] == 239 && j + 2 < s.len() && s[j + 1] == 188 && (s[j + 2] == 130 || s[j + 2]
        == 157) {
        true
    } else {
        false
    }
}

/// Whether the bytes of `s` from `p` on form a structural closure.
pub open spec fn closure_sub(s: Seq<u8>, p: int) -> bool {
    closure_from(s.subrange(p, s.len() as int), 0)
}

/// Whitespace-tolerant check that `input` begins with a structural
/// closure.
pub fn is_structural_closure(input: &[u8]) -> (r: bool)
    ensures
        r == closure_from(input@, 0),
{
    let mut idx: usize = 0;
    while idx < input.len() && ascii_ws_byte(input[idx])
        invariant
            idx <= input@.len(),
            ascii_ws_end(input@, 0) == ascii_ws_end(input@, idx as int),
        decreases input@.len() - idx,
    {
        idx = idx + 1;
    }
    if idx >= input.len() {
        return true;
    }
    let b = input[idx];
    if b == 58 || b == 125 || b == 93 {
        return true;
    }
    if b == 239 && input.len() - idx > 2 && input[idx + 1] == 188 && input[idx + 2] == 157 {
        return true;
    }
    let comma_from: usize;
    if b == 44 {
        comma_from = idx + 1;
    } else if b == 239 && input.len() - idx > 2 && input[idx + 1] == 188 && input[idx + 2] == 140 {
        comma_from = idx + 3;
    } else {
        return false;
    }
    let mut j: usize = comma_from;
    while j < input.len() && ascii_ws_byte(input[j])
        invariant
            j <= input@.len(),
            ascii_ws_end(input@, comma_from as int) == ascii_ws_end(input@, j as int),
        decreases input@.len() - j,
    {
        j = j + 1;
    }
    if j >= input.len() {
        return true;
    }
    let nb = input[j];
    if nb == 34 || nb == 39 || nb == 125 {
        return true;
    }
    if nb == 239 && input.len() - j > 2 && input[j + 1] == 188 && (input[j + 2] == 130 || input[j
        + 2] == 157) {
        return true;
    }
    false
}

/// Outcome of scanning a quoted string body.
pub enum QuotedScan {
    /// A validated closing delimiter was found: the content length and
    /// how far past the body the cursor moves.
    Closed { len: int, adv: int },
    /// The content cap was hit: the content length; the cursor stays at
    /// the body start.
    Truncated { len: int },
    /// No validated closing delimiter up to end of input.
    Eof,
}

/// The scan for a validated closing delimiter of a string opened with
/// quote kind `qt` (34 and 39 for the ASCII quotes, 130 for the
/// fullwidth double quote): forward over the body `s` from `i`,
/// tracking the backslash-escape state; an escaped byte never
/// terminates; a candidate delimiter counts only before a structural
/// closure; content beyond the cap truncates.
pub open spec fn q_scan(s: Seq<u8>, qt: u8, i: int, esc: bool) -> QuotedScan
    decreases s.len() - i,
{
    if i < 0 {
        QuotedScan::Eof
    } else if i >= s.len() {
        QuotedScan::Eof
    } else if i > MAX_STRING_LEN as int {
        QuotedScan::Truncated { len: i }
    } else {
        let b = s[i];
        if esc {
            q_scan(s, qt, i + 1, false)
        } else if b == 92 {
            q_scan(s, qt, i + 1, true)
        } else if (qt == 34 && b == 34) || (qt == 39 && b == 39) {
            if closure_sub(s, i + 1) {
                QuotedScan::Closed { len: i, adv: i + 1 }
            } else {
                q_scan(s, qt, i + 1, false)
            }
        } else if qt == 130 && b == 34 {
            if closure_sub(s, i + 1) {
                QuotedScan::Closed { len: i, adv: i + 1 }
            } else {
                q_scan(s, qt, i + 1, false)
            }
        } else if qt == 130 && b == 239 && i + 2 < s.len() && s[i + 1] == 188 && s[i + 2] == 130 {
            if closure_sub(s, i + 3) {
                QuotedScan::Closed { len: i, adv: i + 3 }
            } else {
                q_scan(s, qt, i + 1, false)
            }
        } else {
            q_scan(s, qt, i + 1, false)
        }
    }
}

/// The opening delimiter of a quoted string, if any: an ASCII double
/// or single quote, or the fullwidth double quote glyph; with how many
/// bytes it spans.
pub open spec fn open_quote(s: Seq<u8>) -> Option<(u8, int)> {
    if s.len() >= 1 && s[0] == 34 {
        Option::Some((34u8, 1int))
    } else if s.len() >= 1 && s[0] == 39 {
        Option::Some((39u8, 1int))
    } else if s.len() >= 3 && s[0] == 239 && s[1] == 188 && s[2] == 130 {
        Option::Some((130u8, 3int))
    } else {
        Option::None
    }
}

/// A byte of the unquoted mode's stop set at position `i`: a comma,
/// closing brace or bracket, whitespace, or a fullwidth comma or
/// closing brace.
pub open spec fn unq_stop(s: Seq<u8>, i: int) -> bool {
    let b = s[i];
    ||| b == 44
    ||| b == 125
    ||| b == 93
    ||| is_ascii_ws(b)
    ||| (b == 239 && i + 2 < s.len() && s[i + 1] == 188 && (s[i + 2] == 140 || s[i + 2] == 157))
}

/// Where the unquoted mode stops consuming, scanning from `i`: the
/// first stop byte, the content cap, or end of input.
pub open spec fn unq_end(s: Seq<u8>, i: int) -> int
    decreases s.len() - i,
{
    if i < 0 {
        i
    } else if i >= s.len() {
        i
    } else if i > MAX_STRING_LEN as int {
        i
    } else if unq_stop(s, i) {
        i
    } else {
        unq_end(s, i + 1)
    }
}

/// What string parsing does to the remainder `s`: quoted mode scans
/// for a validated closing delimiter; unquoted mode consumes up to the
/// first separator, collapsing the literal "null" to a null value.
/// Only a quoted string with no validated closing delimiter fails.
pub open spec fn string_post(s: Seq<u8>, r: Result<Value, ParseError>, adv: int) -> bool {
    match open_quote(s) {
        Option::Some((qt, olen)) => {
            let t = s.subrange(olen, s.len() as int);
            match q_scan(t, qt, 0, false) {
                QuotedScan::Eof => r == Result::<Value, ParseError>::Err(ParseError::UnexpectedEof)
                    && adv == olen,
                QuotedScan::Truncated { len } => (r matches Result::Ok(Value::Text(v)) && v@
                    == t.subrange(0, len)) && adv == olen,
                QuotedScan::Closed { len, adv: a } => (r matches Result::Ok(Value::Text(v)) && v@
                    == t.subrange(0, len)) && adv == olen + a,
            }
        },
        Option::None => {
            let n = unq_end(s, 0);
            &&& adv == n
            &&& if s.subrange(0, n) == lit_null() {
                r == Result::<Value, ParseError>::Ok(Value::Null)
            } else {
                r matches Result::Ok(Value::Text(v)) && v@ == s.subrange(0, n)
            }
        },
    }
}

/// Speculative string parsing: quoted or unquoted mode chosen by the
/// first byte; embedded unescaped quotes do not truncate the content,
/// because a delimiter only counts before a structural closure.
pub fn parse_string_speculative(cursor: &mut Cursor) -> (r: Result<Value, ParseError>)
    requires
        old(cursor).wf(),
    ensures
        final(cursor).buf() == old(cursor).buf(),
        final(cursor).wf(),
        old(cursor).pos <= final(cursor).pos,
        string_post(old(cursor).rem(), r, final(cursor).pos - old(cursor).pos),
{
    let rem0 = cursor.remaining();
    let mut qt: u8 = 0;
    let mut olen: usize = 0;
    if rem0.len() >= 1 && rem0[0] == 34 {
        qt = 34;
        olen = 1;
    } else if rem0.len() >= 1 && rem0[0] == 39 {
        qt = 39;
        olen = 1;
    } else if rem0.len() >= 3 && rem0[0] == 239 && rem0[1] == 188 && rem0[2] == 130 {
        qt = 130;
        olen = 3;
    }
    if olen > 0 {
        proof {
            assert(open_quote(rem0@) == Option::Some((qt, olen as int)));
        }
        cursor.advance(olen);
        let t = cursor.remaining();
        proof {
            assert(t@ =~= rem0@.subrange(olen as int, rem0@.len() as int));
        }
        let mut i: usize = 0;
        let mut esc: bool = false;
        while i < t.len()
            invariant
                i <= t@.len(),
                q_scan(t@, qt, 0, false) == q_scan(t@, qt, i as int, esc),
                cursor.buf() == old(cursor).buf(),
                cursor.wf(),
                cursor.pos == old(cursor).pos + olen,
                t@ == old(cursor).rem().subrange(olen as int, old(cursor).rem().len() as int),
                open_quote(old(cursor).rem()) == Option::Some((qt, olen as int)),
                olen <= old(cursor).rem().len(),
            decreases t@.len() - i,
        {
            if i > MAX_STRING_LEN {
                return Ok(Value::Text(slice_to_vec(&t[0..i])));
            }
            let b = t[i];
            if esc {
                esc = false;
            } else if b == 92 {
                esc = true;
            } else if (qt == 34 && b == 34) || (qt == 39 && b == 39) {
                if is_structural_closure(&t[(i + 1)..t.len()]) {
                    let content = slice_to_vec(&t[0..i]);
                    cursor.advance(i + 1);
                    return Ok(Value::Text(content));
                }
            } else if qt == 130 && b == 34 {
                if is_structural_closure(&t[(i + 1)..t.len()]) {
                    let content = slice_to_vec(&t[0..i]);
                    cursor.advance(i + 1);
                    return Ok(Value::Text(content));
                }
            } else if qt == 130 && b == 239 && t.len() - i > 2 && t[i + 1] == 188 && t[i + 2]
                == 130 {
                if is_structural_closure(&t[(i + 3)..t.len()]) {
                    let content = slice_to_vec(&t[0..i]);
                    cursor.advance(i + 3);
                    return Ok(Value::Text(content));
                }
            }
            i = i + 1;
        }
        Err(ParseError::UnexpectedEof)
    } else {
        let mut n: usize = 0;
        loop
            invariant
                n <= rem0@.len(),
                unq_end(rem0@, 0) == unq_end(rem0@, n as int),
                cursor.buf() == old(cursor).buf(),
                cursor.wf(),
                cursor.pos == old(cursor).pos,
                rem0@ == old(cursor).rem(),
                open_quote(rem0@) is None,
            ensures
                n == unq_end(rem0@, 0),
                cursor.buf() == old(cursor).buf(),
                cursor.wf(),
                cursor.pos == old(cursor).pos,
                rem0@ == old(cursor).rem(),
                open_quote(rem0@) is None,
                n <= rem0@.len(),
            decreases rem0@.len() - n,
        {
            if !(n < rem0.len()) {
                break;
            }
            if n > MAX_STRING_LEN {
                break;
            }
            let b = rem0[n];
            if b == 44 || b == 125 || b == 93 || ascii_ws_byte(b) {
                break;
            }
            if b == 239 && rem0.len() - n > 2 && rem0[n + 1] == 188 && (rem0[n + 2] == 140
                || rem0[n + 2] == 157) {
                break;
            }
            proof {
                assert(!unq_stop(rem0@, n as int));
            }
            n = n + 1;
        }
        let content = slice_to_vec(&rem0[0..n]);
        cursor.advance(n);
        if content.len() == 4 && content[0] == 110 && content[1] == 117 && content[2] == 108
            && content[3] == 108 {
            proof {
                assert(rem0@.subrange(0, n as int) =~= lit_null());
            }
            Ok(Value::Null)
        } else {
            proof {
                if rem0@.subrange(0, n as int) == lit_null() {
                    assert(content@[0] == 110 && content@[1] == 117 && content@[2] == 108
                        && content@[3] == 108);
                }
            }
            Ok(Value::Text(content))
        }
    }
}

/// No two entries of a pair sequence share a name.
pub open spec fn keys_distinct(pairs: Seq<(Vec<u8>, Value)>) -> bool {
    forall|k1: int, k2: int|
        0 <= k1 < k2 < pairs.len() ==> (#[trigger] pairs[k1]).0@ != (#[trigger] pairs[k2]).0@
}

/// A pair sequence holds an entry named `name`.
pub open spec fn has_key(pairs: Seq<(Vec<u8>, Value)>, name: Seq<u8>) -> bool {
    exists|j: int| 0 <= j < pairs.len() && (#[trigger] pairs[j]).0@ == name
}

/// `name`, in either quote style, stands somewhere in `s`.
pub open spec fn name_discoverable(s: Seq<u8>, name: Seq<u8>) -> bool {
    occurs_in(s, quoted(name, 34u8)) || occurs_in(s, quoted(name, 39u8))
}

/// Every key of `pairs` is discoverable in `s`.
pub open spec fn keys_discoverable(pairs: Seq<(Vec<u8>, Value)>, s: Seq<u8>) -> bool {
    forall|k: int| 0 <= k < pairs.len() ==> name_discoverable(s, (#[trigger] pairs[k]).0@)
}

/// If `v` is an object, all its keys are discoverable in `s`.
pub open spec fn obj_keys_discoverable(v: Value, s: Seq<u8>) -> bool {
    match v {
        Value::Object(pairs) => keys_discoverable(pairs@, s),
        _ => true,
    }
}

/// Schema node `n` declares `nm` as a required name.
pub open spec fn node_requires(n: SchemaNode, nm: Seq<u8>) -> bool {
    match n {
        SchemaNode::Object { required, .. } => exists|rq: int|
            0 <= rq < required@.len() && (#[trigger] required@[rq])@ == nm,
        _ => false,
    }
}

/// Some object node of the arena declares `nm` as required.
pub open spec fn some_required(nodes: Seq<SchemaNode>, nm: Seq<u8>) -> bool {
    exists|i: int| 0 <= i < nodes.len() && node_requires(#[trigger] nodes[i], nm)
}

/// Schema node `n` is an object with a required name that is not
/// discoverable in `s` — parsing `s` against it is bound to fail.
pub open spec fn missing_required_name(n: SchemaNode, s: Seq<u8>) -> bool {
    match n {
        SchemaNode::Object { required, .. } => exists|rq: int|
            0 <= rq < required@.len() && !name_discoverable(s, (#[trigger] required@[rq])@),
        _ => false,
    }
}

/// Whether the child handle `c` of node `i` could contribute an
/// unterminated-string failure when parsing `s`.
pub open spec fn child_eof_witness(nodes: Seq<SchemaNode>, i: int, c: int, s: Seq<u8>) -> bool
    decreases i, 0int,
{
    if 0 <= c < i {
        eof_witness(nodes, c, s)
    } else {
        true
    }
}

/// Whether parsing `s` against node `i` can fail with an unterminated
/// string at all: a string schema may; an array passes the question to
/// its element schema; an object can reach a string child only through
/// a field whose name is discoverable in `s`; numbers, booleans and
/// the wildcard never fail.
pub open spec fn eof_witness(nodes: Seq<SchemaNode>, i: int, s: Seq<u8>) -> bool
    decreases i, 1int,
{
    if !(0 <= i < nodes.len()) {
        true
    } else {
        match nodes[i] {
            SchemaNode::PrimitiveString => true,
            SchemaNode::Array(c) => if 0 <= c < i {
                eof_witness(nodes, c as int, s)
            } else {
                true
            },
            SchemaNode::Object { fields, .. } => exists|j: int|
                0 <= j < fields.pairs().len() && name_discoverable(
                    s,
                    (#[trigger] fields.pairs()[j]).0@,
                ) && child_eof_witness(nodes, i, fields.pairs()[j].1 as int, s),
            _ => false,
        }
    }
}

/// An Eof witness against a suffix of the buffer is one against any
/// longer suffix.
pub proof fn lemma_eof_witness_shift(nodes: Seq<SchemaNode>, i: int, buf: Seq<u8>, q1: int, q2: int)
    requires
        0 <= q1 <= q2 <= buf.len(),
        eof_witness(nodes, i, buf.subrange(q2, buf.len() as int)),
    ensures
        eof_witness(nodes, i, buf.subrange(q1, buf.len() as int)),
    decreases i, 1int,
{
    let s2 = buf.subrange(q2, buf.len() as int);
    let s1 = buf.subrange(q1, buf.len() as int);
    if 0 <= i < nodes.len() {
        match nodes[i] {
            SchemaNode::Array(c) => {
                if 0 <= c < i {
                    lemma_eof_witness_shift(nodes, c as int, buf, q1, q2);
                }
            },
            SchemaNode::Object { fields, .. } => {
                let j = choose|j: int|
                    0 <= j < fields.pairs().len() && name_discoverable(
                        s2,
                        (#[trigger] fields.pairs()[j]).0@,
                    ) && child_eof_witness(nodes, i, fields.pairs()[j].1 as int, s2);
                let nm = fields.pairs()[j].0@;
                if occurs_in(s2, quoted(nm, 34u8)) {
                    lemma_occurs_shift(buf, q1, q2, quoted(nm, 34u8));
                } else {
                    lemma_occurs_shift(buf, q1, q2, quoted(nm, 39u8));
                }
                assert(name_discoverable(s1, nm));
                let c = fields.pairs()[j].1 as int;
                if 0 <= c < i {
                    lemma_eof_witness_shift(nodes, c, buf, q1, q2);
                }
                assert(child_eof_witness(nodes, i, c, s1));
                assert(name_discoverable(s1, (fields.pairs()[j]).0@) && child_eof_witness(
                    nodes,
                    i,
                    fields.pairs()[j].1 as int,
                    s1,
                ));
            },
            _ => {},
        }
    }
}

/// A value of the named field fits the field's child schema.
pub open spec fn fits_child(
    nodes: Seq<SchemaNode>,
    i: int,
    fpairs: Seq<(Vec<u8>, usize)>,
    name: Seq<u8>,
    v: Value,
) -> bool
    decreases i, 0int,
{
    let c = lookup_pairs(fpairs, name);
    if c is Some && 0 <= c.unwrap() < i {
        value_fits(nodes, c.unwrap() as int, v)
    } else {
        true
    }
}

/// The shape a parsed value has for schema node `i`: numbers carry
/// comma-free number bytes, booleans may fall back to null, strings may
/// collapse to null, the wildcard is null, arrays hold fitting elements,
/// and objects hold declared fields only, every required one present.
pub open spec fn value_fits(nodes: Seq<SchemaNode>, i: int, v: Value) -> bool
    decreases i, 1int,
{
    if !(0 <= i < nodes.len()) {
        true
    } else {
        match nodes[i] {
            SchemaNode::PrimitiveString => v matches Value::Text(_) || v == Value::Null,
            SchemaNode::PrimitiveNumber => match v {
                Value::Number(m) => forall|j: int|
                    0 <= j < m@.len() ==> is_num_byte(#[trigger] m@[j]) && m@[j] != 44u8,
                _ => false,
            },
            SchemaNode::PrimitiveBool => v matches Value::Bool(_) || v == Value::Null,
            SchemaNode::Any => v == Value::Null,
            SchemaNode::Array(c) => match v {
                Value::Array(elems) => if 0 <= c < i {
                    forall|k: int|
                        0 <= k < elems@.len() ==> value_fits(nodes, c as int, #[trigger] elems@[k])
                } else {
                    true
                },
                _ => false,
            },
            SchemaNode::Object { fields, required, matcher } => match v {
                Value::Object(pairs) => {
                    &&& keys_distinct(pairs@)
                    &&& forall|k: int|
                        0 <= k < pairs@.len() ==> lookup_pairs(
                            fields.pairs(),
                            (#[trigger] pairs@[k]).0@,
                        ) is Some
                    &&& forall|k: int|
                        0 <= k < pairs@.len() ==> fits_child(
                            nodes,
                            i,
                            fields.pairs(),
                            (#[trigger] pairs@[k]).0@,
                            pairs@[k].1,
                        )
                    &&& forall|rq: int|
                        0 <= rq < required@.len() ==> has_key(pairs@, (#[trigger] required@[rq])@)
                },
                _ => false,
            },
        }
    }
}

/// The child handle `c` of node `i` can be parsed at the next depth
/// without hitting the recursion bound.
pub open spec fn child_depth_ok(nodes: Seq<SchemaNode>, i: int, c: int, depth: int) -> bool
    decreases i, 0int,
{
    if 0 <= c < i {
        depth_ok(nodes, c, depth + 1)
    } else {
        true
    }
}

/// Parsing node `i` at `depth` never hits the recursion bound.
pub open spec fn depth_ok(nodes: Seq<SchemaNode>, i: int, depth: int) -> bool
    decreases i, 1int,
{
    if !(0 <= i < nodes.len()) {
        true
    } else if depth > MAX_DEPTH as int {
        false
    } else {
        match nodes[i] {
            SchemaNode::Array(c) => if 0 <= c < i {
                depth_ok(nodes, c as int, depth + 1)
            } else {
                true
            },
            SchemaNode::Object { fields, .. } => forall|j: int|
                0 <= j < fields.pairs().len() ==> child_depth_ok(
                    nodes,
                    i,
                    (#[trigger] fields.pairs()[j]).1 as int,
                    depth,
                ),
            _ => true,
        }
    }
}

/// Whether parsing the child handle `c` of node `i` can fail at all
/// besides a missing required field.
pub open spec fn child_only_missing(nodes: Seq<SchemaNode>, i: int, c: int) -> bool
    decreases i, 0int,
{
    if 0 <= c < i {
        only_missing_failures(nodes, c)
    } else {
        true
    }
}

/// Parsing node `i` can fail only with a missing required field, never
/// with an unterminated string: the subtree holds no string schema.
pub open spec fn only_missing_failures(nodes: Seq<SchemaNode>, i: int) -> bool
    decreases i, 1int,
{
    if !(0 <= i < nodes.len()) {
        true
    } else {
        match nodes[i] {
            SchemaNode::PrimitiveString => false,
            SchemaNode::Array(c) => if 0 <= c < i {
                only_missing_failures(nodes, c as int)
            } else {
                true
            },
            SchemaNode::Object { fields, .. } => forall|j: int|
                0 <= j < fields.pairs().len() ==> child_only_missing(
                    nodes,
                    i,
                    (#[trigger] fields.pairs()[j]).1 as int,
                ),
            _ => true,
        }
    }
}

/// Whether the child handle `c` of node `i` can fail at all.
pub open spec fn child_never_fails(nodes: Seq<SchemaNode>, i: int, c: int) -> bool
    decreases i, 0int,
{
    if 0 <= c < i {
        never_fails(nodes, c)
    } else {
        true
    }
}

/// Parsing node `i` cannot fail on any input (given enough depth): no
/// string schema in the subtree and no required names anywhere.
pub open spec fn never_fails(nodes: Seq<SchemaNode>, i: int) -> bool
    decreases i, 1int,
{
    if !(0 <= i < nodes.len()) {
        true
    } else {
        match nodes[i] {
            SchemaNode::PrimitiveString => false,
            SchemaNode::Array(c) => if 0 <= c < i {
                never_fails(nodes, c as int)
            } else {
                true
            },
            SchemaNode::Object { fields, required, .. } => required@.len() == 0 && forall|j: int|
                0 <= j < fields.pairs().len() ==> child_never_fails(
                    nodes,
                    i,
                    (#[trigger] fields.pairs()[j]).1 as int,
                ),
            _ => true,
        }
    }
}

/// What the primitive and wildcard nodes do, stated over the buffer
/// after the leading whitespace skip; structural nodes are covered by
/// the shape, discovery and failure clauses instead.
pub open spec fn node_post(
    nodes: Seq<SchemaNode>,
    idx: int,
    buf: Seq<u8>,
    pos0: int,
    r: Result<Value, ParseError>,
    pos1: int,
) -> bool {
    let p = skip_ws_end(buf, pos0);
    let s1 = buf.subrange(p, buf.len() as int);
    match nodes[idx] {
        SchemaNode::PrimitiveNumber => number_post(s1, r, pos1 - p),
        SchemaNode::PrimitiveBool => bool_post(s1, r, pos1 - p),
        SchemaNode::PrimitiveString => string_post(s1, r, pos1 - p),
        SchemaNode::Any => r == Result::<Value, ParseError>::Ok(Value::Null) && pos1 == p,
        SchemaNode::Array(_) => arr_scan_post(buf, p, r, pos1),
        SchemaNode::Object { fields, required, matcher } => obj_scan_post(
            required@,
            matcher.pats(),
            buf,
            p,
            r,
            pos1,
        ),
    }
}

/// Inserts a field under its name: an existing entry with that name is
/// replaced in place, else the pair is appended — insertion order of
/// first appearance is preserved.
fn insert_pair(pairs: &mut Vec<(Vec<u8>, Value)>, key: Vec<u8>, val: Value)
    requires
        keys_distinct(old(pairs)@),
    ensures
        keys_distinct(final(pairs)@),
        forall|k: int|
            #![trigger final(pairs)@[k]]
            0 <= k < final(pairs)@.len() ==> (exists|j: int|
                0 <= j < old(pairs)@.len() && final(pairs)@[k] == #[trigger] old(pairs)@[j]) || (
            final(pairs)@[k].0 == key && final(pairs)@[k].1 == val),
        has_key(final(pairs)@, key@),
        forall|nm: Seq<u8>|
            #![trigger has_key(final(pairs)@, nm)]
            has_key(final(pairs)@, nm) <==> has_key(old(pairs)@, nm) || nm == key@,
        final(pairs)@.len() == old(pairs)@.len() || final(pairs)@.len() == old(pairs)@.len() + 1,
        forall|k: int|
            0 <= k < old(pairs)@.len() ==> (#[trigger] final(pairs)@[k]).0@ == old(pairs)@[k].0@,
        final(pairs)@.len() == old(pairs)@.len() + 1 ==> final(pairs)@[old(pairs)@.len() as int]
            == (key, val),
        final(pairs)@ == (if first_key_idx(old(pairs)@, key@) >= 0 {
            old(pairs)@.update(first_key_idx(old(pairs)@, key@), (key, val))
        } else {
            old(pairs)@.push((key, val))
        }),
{
    let ghost prev = pairs@;
    let mut j: usize = 0;
    while j < pairs.len()
        invariant
            j <= pairs@.len(),
            pairs@ == prev,
            prev == old(pairs)@,
            keys_distinct(prev),
            forall|k: int| 0 <= k < j ==> (#[trigger] prev[k]).0@ != key@,
        decreases pairs@.len() - j,
    {
        let hit = bytes_eq(pairs[j].0.as_slice(), key.as_slice());
        if hit {
            pairs.remove(j);
            pairs.insert(j, (key, val));
            proof {
                vstd::seq_lib::lemma_update_is_remove_insert(prev, j as int, (key, val));
                assert(pairs@ =~= prev.update(j as int, (key, val)));
                lemma_first_key_idx(prev, key@);
                let f = first_key_idx(prev, key@);
                if f < 0 {
                    assert(prev[j as int].0@ != key@);
                    assert(false);
                }
                if f < j {
                    assert(prev[f].0@ != key@);
                    assert(false);
                }
                if f > j {
                    assert(prev[j as int].0@ != key@);
                    assert(false);
                }
                assert(f == j);
                assert(pairs@[j as int].0 == key);
                assert forall|k: int|
                    0 <= k < pairs@.len() implies (exists|j2: int|
                    0 <= j2 < prev.len() && pairs@[k] == #[trigger] prev[j2]) || (pairs@[k].0
                    == key && pairs@[k].1 == val) by {
                    if k != j {
                        assert(pairs@[k] == prev[k]);
                    }
                }
                assert(prev[j as int].0@ == key@);
                assert forall|k: int|
                    0 <= k < prev.len() implies (#[trigger] pairs@[k]).0@ == prev[k].0@ by {
                    if k != j {
                        assert(pairs@[k] == prev[k]);
                    }
                }
                assert forall|k1: int, k2: int|
                    0 <= k1 < k2 < pairs@.len() implies (#[trigger] pairs@[k1]).0@ != (
                #[trigger] pairs@[k2]).0@ by {
                    if k1 != j && k2 != j {
                        assert(pairs@[k1] == prev[k1] && pairs@[k2] == prev[k2]);
                    } else if k1 == j {
                        assert(pairs@[k1].0@ == prev[j as int].0@);
                        assert(pairs@[k2] == prev[k2]);
                    } else {
                        assert(pairs@[k2].0@ == prev[j as int].0@);
                        assert(pairs@[k1] == prev[k1]);
                    }
                }
                assert forall|nm: Seq<u8>|
                    has_key(pairs@, nm) <==> has_key(prev, nm) || nm == key@ by {
                    if has_key(pairs@, nm) {
                        let k = choose|k: int| 0 <= k < pairs@.len() && (#[trigger] pairs@[k]).0@
                            == nm;
                        if k != j {
                            assert(prev[k].0@ == nm);
                        }
                    }
                    if has_key(prev, nm) {
                        let k = choose|k: int| 0 <= k < prev.len() && (#[trigger] prev[k]).0@
                            == nm;
                        if k != j {
                            assert(pairs@[k].0@ == nm);
                        } else {
                            assert(prev[j as int].0@ == key@);
                        }
                    }
                    if nm == key@ {
                        assert(pairs@[j as int].0@ == nm);
                    }
                }
            }
            return ;
        }
        j = j + 1;
    }
    pairs.push((key, val));
    proof {
        assert(pairs@[prev.len() as int].0 == key);
        lemma_first_key_idx(prev, key@);
        if first_key_idx(prev, key@) >= 0 {
            assert(prev[first_key_idx(prev, key@)].0@ != key@);
            assert(false);
        }
        assert forall|k1: int, k2: int|
            0 <= k1 < k2 < pairs@.len() implies (#[trigger] pairs@[k1]).0@ != (
        #[trigger] pairs@[k2]).0@ by {
            if k2 == prev.len() {
                assert(pairs@[k1] == prev[k1]);
                assert(pairs@[k2].0@ == key@);
            } else {
                assert(pairs@[k1] == prev[k1] && pairs@[k2] == prev[k2]);
            }
        }
        assert forall|nm: Seq<u8>| has_key(pairs@, nm) <==> has_key(prev, nm) || nm == key@ by {
            if has_key(pairs@, nm) {
                let k = choose|k: int| 0 <= k < pairs@.len() && (#[trigger] pairs@[k]).0@ == nm;
                if k < prev.len() {
                    assert(prev[k].0@ == nm);
                }
            }
            if has_key(prev, nm) {
                let k = choose|k: int| 0 <= k < prev.len() && (#[trigger] prev[k]).0@ == nm;
                assert(pairs@[k].0@ == nm);
            }
            if nm == key@ {
                assert(pairs@[prev.len() as int].0@ == nm);
            }
        }
    }
}

/// Where parsing stands after the optional opening byte `open`
/// ('[' or '{'): just past it when it is present, else unmoved.
pub open spec fn after_open(s: Seq<u8>, pos: int, open: u8) -> int {
    if 0 <= pos < s.len() && s[pos] == open {
        pos + 1
    } else {
        pos
    }
}

/// The clamped position one byte past `p` in a buffer of length `len`.
pub open spec fn step_past(p: int, len: int) -> int {
    if p + 1 <= len {
        p + 1
    } else {
        len
    }
}

/// The exactly-pinned cases of an array parse whose optional '[' is
/// tested at `p`: the result is empty exactly when the first window is
/// exhausted or already closing, and then the final position is fixed.
pub open spec fn arr_scan_post(
    buf: Seq<u8>,
    p: int,
    r: Result<Value, ParseError>,
    pos1: int,
) -> bool {
    let p1 = skip_ws_end(buf, after_open(buf, p, 91u8));
    let closed0 = p1 == buf.len() || buf[p1] == 93u8;
    &&& closed0 ==> (r matches Result::Ok(Value::Array(es)) && es@.len() == 0) && pos1
        == step_past(p1, buf.len() as int)
    &&& (r matches Result::Ok(Value::Array(es)) && es@.len() == 0) ==> closed0
}

/// Array parsing: optionally consumes '[', then elements with the
/// child schema until a closing bracket or exhaustion; a stuck element
/// parse forces one byte of progress, so the loop always terminates.
fn parse_array(cursor: &mut Cursor, schema: &Schema, idx: usize, depth: usize) -> (r: Result<
    Value,
    ParseError,
>)
    requires
        old(cursor).wf(),
        schema.wf(),
        idx < schema.nodes_view().len(),
        schema.nodes_view()[idx as int] matches SchemaNode::Array(_),
        depth <= MAX_DEPTH,
    ensures
        final(cursor).buf() == old(cursor).buf(),
        final(cursor).wf(),
        old(cursor).pos <= final(cursor).pos,
        r matches Result::Ok(v) ==> value_fits(schema.nodes_view(), idx as int, v),
        !(r matches Result::Err(ParseError::InvalidUtf8)),
        (r matches Result::Err(ParseError::MissingField(n)) ==> some_required(
            schema.nodes_view(),
            n@,
        )),
        depth_ok(schema.nodes_view(), idx as int, depth as int) && only_missing_failures(
            schema.nodes_view(),
            idx as int,
        ) ==> !(r matches Result::Err(ParseError::RecursionLimit)) && !(r matches Result::Err(
            ParseError::UnexpectedEof,
        )),
        depth_ok(schema.nodes_view(), idx as int, depth as int) && never_fails(
            schema.nodes_view(),
            idx as int,
        ) ==> r matches Result::Ok(_),
        depth_ok(schema.nodes_view(), idx as int, depth as int) ==> !(r matches Result::Err(
            ParseError::RecursionLimit,
        )),
        r matches Result::Err(ParseError::UnexpectedEof) ==> eof_witness(
            schema.nodes_view(),
            idx as int,
            old(cursor).rem(),
        ),
        arr_scan_post(old(cursor).buf(), old(cursor).pos as int, r, final(cursor).pos as int),
        ({
            let sp = sp_array(
                schema.nodes_view(),
                idx as int,
                old(cursor).buf(),
                old(cursor).pos as int,
                depth as int,
            );
            m_out_matches(r, sp.0) && final(cursor).pos == sp.1
        }),
    decreases MAX_DEPTH as int + 1 - depth, 0int,
{
    let ghost nodes = schema.nodes_view();
    // The caller guarantees an array node; the fallback arm is dead.
    let child: usize = match schema.node(idx) {
        SchemaNode::Array(c) => *c,
        _ => 0,
    };
    proof {
        assert(wf_node(nodes[idx as int], idx as int));
        assert(nodes[idx as int] == SchemaNode::Array(child));
        assert(child < idx);
    }
    let ghost pb = after_open(cursor.buf(), cursor.pos as int, 91u8);
    let ghost p1 = skip_ws_end(cursor.buf(), pb);
    let ghost closed0 = p1 == cursor.buf().len() || cursor.buf()[p1] == 93u8;
    let rem0 = cursor.remaining();
    if rem0.len() > 0 && rem0[0] == 91 {
        cursor.advance(1);
    }
    proof {
        assert(cursor.pos == pb);
        lemma_skip_ws_end(cursor.buf(), pb);
    }
    let mut elems: Vec<Value> = Vec::new();
    let ghost mut melems: Seq<MVal> = Seq::empty();
    loop
        invariant_except_break
            elems@.len() == 0 ==> cursor.pos == pb,
            sp_arr_elems(nodes, child as int, old(cursor).buf(), pb, depth as int, Seq::empty())
                == sp_arr_elems(
                nodes,
                child as int,
                old(cursor).buf(),
                cursor.pos as int,
                depth as int,
                melems,
            ),
        invariant
            melems.len() == elems@.len(),
            forall|k: int| 0 <= k < melems.len() ==> m_matches(elems@[k], #[trigger] melems[k]),
            cursor.wf(),
            cursor.buf() == old(cursor).buf(),
            old(cursor).pos <= cursor.pos,
            schema.wf(),
            nodes == schema.nodes_view(),
            idx < nodes.len(),
            depth <= MAX_DEPTH,
            nodes[idx as int] == SchemaNode::Array(child),
            child < idx,
            pb == after_open(old(cursor).buf(), old(cursor).pos as int, 91u8),
            p1 == skip_ws_end(old(cursor).buf(), pb),
            old(cursor).pos <= pb <= old(cursor).buf().len(),
            closed0 == (p1 == old(cursor).buf().len() || old(cursor).buf()[p1] == 93u8),
            closed0 ==> elems@.len() == 0,
            forall|k: int|
                0 <= k < elems@.len() ==> value_fits(nodes, child as int, #[trigger] elems@[k]),
        ensures
            cursor.wf(),
            cursor.buf() == old(cursor).buf(),
            old(cursor).pos <= cursor.pos,
            nodes == schema.nodes_view(),
            nodes[idx as int] == SchemaNode::Array(child),
            child < idx,
            forall|k: int|
                0 <= k < elems@.len() ==> value_fits(nodes, child as int, #[trigger] elems@[k]),
            melems.len() == elems@.len(),
            forall|k: int| 0 <= k < melems.len() ==> m_matches(elems@[k], #[trigger] melems[k]),
            sp_arr_elems(nodes, child as int, old(cursor).buf(), pb, depth as int, Seq::empty())
                == (MOut::MOk(MVal::MArr(melems)), cursor.pos as int),
            elems@.len() == 0 ==> closed0 && cursor.pos == step_past(
                p1,
                old(cursor).buf().len() as int,
            ),
            closed0 ==> elems@.len() == 0 && cursor.pos == step_past(
                p1,
                old(cursor).buf().len() as int,
            ),
            closed0 == (p1 == old(cursor).buf().len() || old(cursor).buf()[p1] == 93u8),
            p1 == skip_ws_end(old(cursor).buf(), after_open(
                old(cursor).buf(),
                old(cursor).pos as int,
                91u8,
            )),
        decreases cursor.buf().len() - cursor.pos,
    {
        let ghost head0 = cursor.pos as int;
        proof {
            lemma_skip_ws_end(cursor.buf(), head0);
        }
        cursor.skip_whitespace();
        let ghost ph = cursor.pos as int;
        let rem = cursor.remaining();
        if rem.len() == 0 || rem[0] == 93 {
            proof {
                if elems@.len() > 0 && closed0 {
                    assert(false);
                }
                assert(sp_arr_elems(nodes, child as int, cursor.buf(), head0, depth as int, melems)
                    == (MOut::MOk(MVal::MArr(melems)), step_past(ph, cursor.buf().len() as int)));
            }
            cursor.advance(1);
            break;
        }
        proof {
            if elems@.len() == 0 {
                assert(cursor.pos == p1);
                assert(!closed0);
            }
            if closed0 {
                assert(false);
            }
        }
        let start_pos = cursor.pos;
        let ghost cb = *cursor;
        let ghost spc = sp_node(nodes, child as int, cursor.buf(), ph, depth as int + 1);
        let val = match parse_node(cursor, schema, child, depth + 1) {
            Result::Ok(v) => v,
            Result::Err(err) => {
                proof {
                    if err == ParseError::UnexpectedEof {
                        assert(cb.rem() =~= old(cursor).buf().subrange(
                            cb.pos as int,
                            old(cursor).buf().len() as int,
                        ));
                        lemma_eof_witness_shift(
                            nodes,
                            child as int,
                            old(cursor).buf(),
                            old(cursor).pos as int,
                            cb.pos as int,
                        );
                        assert(eof_witness(nodes, child as int, old(cursor).rem()));
                        assert(eof_witness(nodes, idx as int, old(cursor).rem()));
                    }
                    if depth_ok(nodes, idx as int, depth as int) {
                        assert(depth_ok(nodes, child as int, depth as int + 1));
                        if only_missing_failures(nodes, idx as int) {
                            assert(only_missing_failures(nodes, child as int));
                        }
                    }
                    if depth_ok(nodes, idx as int, depth as int) && never_fails(
                        nodes,
                        idx as int,
                    ) {
                        assert(depth_ok(nodes, child as int, depth as int + 1));
                        assert(never_fails(nodes, child as int));
                        assert(false);
                    }
                    match spc.0 {
                        MOut::MFail(me) => {
                            assert(sp_arr_elems(
                                nodes,
                                child as int,
                                cursor.buf(),
                                head0,
                                depth as int,
                                melems,
                            ) == (MOut::MFail(me), spc.1));
                            assert(cursor.pos == spc.1);
                        },
                        MOut::MOk(_) => {
                            assert(false);
                        },
                    }
                }
                return Err(err);
            },
        };
        let ghost vm = match spc.0 {
            MOut::MOk(m) => m,
            _ => MVal::MNull,
        };
        proof {
            assert(spc.0 == MOut::MOk(vm));
            assert(m_matches(val, vm));
            assert(cursor.pos == spc.1);
        }
        let ghost melems0 = melems;
        elems.push(val);
        proof {
            melems = melems.push(vm);
        }
        if cursor.pos == start_pos {
            let remx = cursor.remaining();
            if remx.len() > 0 {
                cursor.advance(1);
            } else {
                proof {
                    assert(remx@ == rem@);
                    assert(false);
                }
                break;
            }
        }
        let ghost np0 = cursor.pos as int;
        proof {
            assert(np0 == if ph < spc.1 && spc.1 <= cursor.buf().len() {
                spc.1
            } else {
                ph + 1
            });
            lemma_skip_ws_end(cursor.buf(), np0);
        }
        cursor.skip_whitespace();
        let remc = cursor.remaining();
        if remc.len() > 0 && remc[0] == 44 {
            cursor.advance(1);
        }
        proof {
            let buf = cursor.buf();
            assert(skip_ws_end(buf, head0) == ph);
            assert(cursor.pos as int == obj_next_pos(buf, np0));
            assert(sp_arr_elems(nodes, child as int, buf, head0, depth as int, melems0)
                == sp_arr_elems(
                nodes,
                child as int,
                buf,
                cursor.pos as int,
                depth as int,
                melems,
            ));
        }
    }
    Ok(Value::Array(elems))
}

/// The candidate the object loop accepts in window `w`, scanning from
/// `from`: the leftmost-first pattern match that is followed, after
/// optional whitespace, by a colon; matches not followed by a colon
/// are skipped, and the scan resumes past them.
pub open spec fn accept_from(pats: Seq<Vec<u8>>, w: Seq<u8>, from: int) -> Option<(int, int)>
    decreases w.len() - from,
{
    if from < 0 {
        Option::None
    } else {
        match crate::structural::matcher::find_fn(pats, w, from) {
            Option::None => Option::None,
            Option::Some((k, s)) => {
                if !(0 <= k < pats.len()) {
                    Option::None
                } else {
                    let e = s + pats[k]@.len();
                    let ci = ascii_ws_end(w, e);
                    if ci < w.len() && w[ci] == 58 {
                        Option::Some((k, s))
                    } else if from < e <= w.len() {
                        accept_from(pats, w, e)
                    } else if from + 1 <= w.len() {
                        accept_from(pats, w, from + 1)
                    } else {
                        Option::None
                    }
                }
            },
        }
    }
}

/// The result when the object loop ends with no field accepted: an
/// empty object — unless a required name exists, in which case the
/// first required name is reported missing.
pub open spec fn obj_end_result(required: Seq<Vec<u8>>, r: Result<Value, ParseError>) -> bool {
    if required.len() == 0 {
        r matches Result::Ok(Value::Object(ps)) && ps@.len() == 0
    } else {
        r matches Result::Err(ParseError::MissingField(n)) && n@ == required[0]@
    }
}

/// The exactly-pinned cases of an object parse whose optional '{' is
/// tested at `p`: when the first window is already closed, or holds no
/// colon-confirmed candidate, the result and the final position are
/// fixed; and when a candidate is accepted, the first field of a
/// successful result carries the accepted pattern's name.
pub open spec fn obj_scan_post(
    required: Seq<Vec<u8>>,
    pats: Seq<Vec<u8>>,
    buf: Seq<u8>,
    p: int,
    r: Result<Value, ParseError>,
    pos1: int,
) -> bool {
    let pb = after_open(buf, p, 123u8);
    let p1 = skip_ws_end(buf, pb);
    let w1 = buf.subrange(p1, buf.len() as int);
    let closed0 = p1 == buf.len() || buf[p1] == 125u8;
    let acc0 = accept_from(pats, w1, 0);
    &&& closed0 ==> pos1 == step_past(p1, buf.len() as int) && obj_end_result(required, r)
    &&& (!closed0 && acc0 is None) ==> pos1 == p1 && obj_end_result(required, r)
    &&& !closed0 ==> match (acc0, r) {
        (Option::Some((k, s)), Result::Ok(Value::Object(ps))) => ps@.len() > 0 && ps@[0].0@
            == pats[k]@.subrange(1, pats[k]@.len() - 1),
        _ => true,
    }
}

/// Object parsing: optionally consumes '{', then repeatedly runs the
/// key matcher over the entire remaining buffer; the first match
/// followed (after optional whitespace) by a colon becomes the accepted
/// key — everything before it is silently discarded, which is what
/// tolerates junk, reordering and broken delimiters between fields.
/// When no discoverable field is left, every required name must have
/// been seen.
fn parse_object(cursor: &mut Cursor, schema: &Schema, idx: usize, depth: usize) -> (r: Result<
    Value,
    ParseError,
>)
    requires
        old(cursor).wf(),
        schema.wf(),
        idx < schema.nodes_view().len(),
        schema.nodes_view()[idx as int] matches SchemaNode::Object { .. },
        depth <= MAX_DEPTH,
    ensures
        final(cursor).buf() == old(cursor).buf(),
        final(cursor).wf(),
        old(cursor).pos <= final(cursor).pos,
        r matches Result::Ok(v) ==> value_fits(schema.nodes_view(), idx as int, v)
            && obj_keys_discoverable(v, old(cursor).rem()),
        !(r matches Result::Err(ParseError::InvalidUtf8)),
        (r matches Result::Err(ParseError::MissingField(n)) ==> some_required(
            schema.nodes_view(),
            n@,
        )),
        depth_ok(schema.nodes_view(), idx as int, depth as int) && only_missing_failures(
            schema.nodes_view(),
            idx as int,
        ) ==> !(r matches Result::Err(ParseError::RecursionLimit)) && !(r matches Result::Err(
            ParseError::UnexpectedEof,
        )),
        depth_ok(schema.nodes_view(), idx as int, depth as int) && never_fails(
            schema.nodes_view(),
            idx as int,
        ) ==> r matches Result::Ok(_),
        depth_ok(schema.nodes_view(), idx as int, depth as int) ==> !(r matches Result::Err(
            ParseError::RecursionLimit,
        )),
        depth_ok(schema.nodes_view(), idx as int, depth as int) && only_missing_failures(
            schema.nodes_view(),
            idx as int,
        ) && missing_required_name(schema.nodes_view()[idx as int], old(cursor).rem()) ==> (
        r matches Result::Err(ParseError::MissingField(_))),
        r matches Result::Err(ParseError::UnexpectedEof) ==> eof_witness(
            schema.nodes_view(),
            idx as int,
            old(cursor).rem(),
        ),
        depth_ok(schema.nodes_view(), idx as int, depth as int) && !eof_witness(
            schema.nodes_view(),
            idx as int,
            old(cursor).rem(),
        ) && missing_required_name(schema.nodes_view()[idx as int], old(cursor).rem()) ==> (
        r matches Result::Err(ParseError::MissingField(_))),
        match schema.nodes_view()[idx as int] {
            SchemaNode::Object { fields, required, matcher } => obj_scan_post(
                required@,
                matcher.pats(),
                old(cursor).buf(),
                old(cursor).pos as int,
                r,
                final(cursor).pos as int,
            ),
            _ => true,
        },
        ({
            let sp = sp_object(
                schema.nodes_view(),
                idx as int,
                old(cursor).buf(),
                old(cursor).pos as int,
                depth as int,
            );
            m_out_matches(r, sp.0) && final(cursor).pos == sp.1
        }),
    decreases MAX_DEPTH as int + 1 - depth, 0int,
{
    let ghost nodes = schema.nodes_view();
    let node = schema.node(idx);
    match node {
        SchemaNode::Object { fields, required, matcher } => {
            proof {
                assert(wf_node(nodes[idx as int], idx as int));
            }
            let ghost fp = fields.pairs();
            let ghost names = names_of(fp);
            let ghost patsg = matcher.pats();
            let ghost pb = after_open(cursor.buf(), cursor.pos as int, 123u8);
            let rem_open = cursor.remaining();
            if rem_open.len() > 0 && rem_open[0] == 123 {
                cursor.advance(1);
            }
            proof {
                assert(cursor.pos == pb);
                lemma_skip_ws_end(cursor.buf(), pb);
            }
            let ghost p1 = skip_ws_end(cursor.buf(), pb);
            let ghost w1 = cursor.buf().subrange(p1, cursor.buf().len() as int);
            let ghost closed0 = p1 == cursor.buf().len() || cursor.buf()[p1] == 125u8;
            let ghost acc0 = accept_from(patsg, w1, 0);
            let mut pairs: Vec<(Vec<u8>, Value)> = Vec::new();
            let ghost mut macc: Seq<(Seq<u8>, MVal)> = Seq::empty();
            loop
                invariant_except_break
                    pairs@.len() == 0 ==> cursor.pos == pb,
                    sp_obj_fields(nodes, idx as int, old(cursor).buf(), pb, depth as int, Seq::empty())
                        == sp_obj_fields(
                        nodes,
                        idx as int,
                        old(cursor).buf(),
                        cursor.pos as int,
                        depth as int,
                        macc,
                    ),
                invariant
                    pairs_match(pairs@, macc),
                    cursor.wf(),
                    cursor.buf() == old(cursor).buf(),
                    old(cursor).pos <= cursor.pos,
                    schema.wf(),
                    nodes == schema.nodes_view(),
                    idx < nodes.len(),
                    depth <= MAX_DEPTH,
                    nodes[idx as int] == (SchemaNode::Object {
                        fields: *fields,
                        required: *required,
                        matcher: *matcher,
                    }),
                    fp == fields.pairs(),
                    names == names_of(fp),
                    matcher.pats_of(names),
                    forall|j: int| 0 <= j < fp.len() ==> (#[trigger] fp[j]).1 < idx,
                    forall|k: int|
                        0 <= k < pairs@.len() ==> lookup_pairs(
                            fp,
                            (#[trigger] pairs@[k]).0@,
                        ) is Some,
                    forall|k: int|
                        0 <= k < pairs@.len() ==> fits_child(
                            nodes,
                            idx as int,
                            fp,
                            (#[trigger] pairs@[k]).0@,
                            pairs@[k].1,
                        ),
                    keys_distinct(pairs@),
                    keys_discoverable(pairs@, old(cursor).rem()),
patsg == matcher.pats(),
                    pb == after_open(old(cursor).buf(), old(cursor).pos as int, 123u8),
                    old(cursor).pos <= pb <= old(cursor).buf().len(),
                    p1 == skip_ws_end(old(cursor).buf(), pb),
                    pb <= p1 <= old(cursor).buf().len(),
                    w1 == old(cursor).buf().subrange(p1, old(cursor).buf().len() as int),
                    closed0 == (p1 == old(cursor).buf().len() || old(cursor).buf()[p1] == 125u8),
                    acc0 == accept_from(patsg, w1, 0),
                    closed0 ==> pairs@.len() == 0,
                    !closed0 && acc0 is None ==> pairs@.len() == 0,
                    pairs@.len() > 0 ==> !closed0 && match acc0 {
                        Option::Some((k0, s0)) => pairs@[0].0@ == patsg[k0]@.subrange(
                            1,
                            patsg[k0]@.len() - 1,
                        ),
                        Option::None => false,
                    },
                ensures
                    cursor.wf(),
                    cursor.buf() == old(cursor).buf(),
                    old(cursor).pos <= cursor.pos,
                    nodes == schema.nodes_view(),
                    nodes[idx as int] == (SchemaNode::Object {
                        fields: *fields,
                        required: *required,
                        matcher: *matcher,
                    }),
                    fp == fields.pairs(),
                    forall|k: int|
                        0 <= k < pairs@.len() ==> lookup_pairs(
                            fp,
                            (#[trigger] pairs@[k]).0@,
                        ) is Some,
                    forall|k: int|
                        0 <= k < pairs@.len() ==> fits_child(
                            nodes,
                            idx as int,
                            fp,
                            (#[trigger] pairs@[k]).0@,
                            pairs@[k].1,
                        ),
                    keys_distinct(pairs@),
                    keys_discoverable(pairs@, old(cursor).rem()),
patsg == matcher.pats(),
                    pb == after_open(old(cursor).buf(), old(cursor).pos as int, 123u8),
                    old(cursor).pos <= pb <= old(cursor).buf().len(),
                    p1 == skip_ws_end(old(cursor).buf(), pb),
                    pb <= p1 <= old(cursor).buf().len(),
                    w1 == old(cursor).buf().subrange(p1, old(cursor).buf().len() as int),
                    closed0 == (p1 == old(cursor).buf().len() || old(cursor).buf()[p1] == 125u8),
                    acc0 == accept_from(patsg, w1, 0),
                    closed0 ==> pairs@.len() == 0,
                    !closed0 && acc0 is None ==> pairs@.len() == 0,
                    pairs@.len() > 0 ==> !closed0 && match acc0 {
                        Option::Some((k0, s0)) => pairs@[0].0@ == patsg[k0]@.subrange(
                            1,
                            patsg[k0]@.len() - 1,
                        ),
                        Option::None => false,
                    },
                    pairs@.len() == 0 ==> (closed0 && cursor.pos == step_past(
                        p1,
                        old(cursor).buf().len() as int,
                    )) || (!closed0 && acc0 is None && cursor.pos == p1),
                    pairs_match(pairs@, macc),
                    sp_obj_fields(nodes, idx as int, old(cursor).buf(), pb, depth as int, Seq::empty())
                        == (MOut::MOk(MVal::MObj(macc)), cursor.pos as int),
                decreases cursor.buf().len() - cursor.pos,
            {
                let ghost head0 = cursor.pos as int;
                proof {
                    lemma_skip_ws_end(cursor.buf(), head0);
                }
                cursor.skip_whitespace();
                let ghost pos_head = cursor.pos as int;
                let rem = cursor.remaining();
                if rem.len() == 0 || rem[0] == 125 {
                    proof {
                        if pairs@.len() == 0 {
                            assert(cursor.pos == p1);
                            assert(closed0);
                        }
                        if pairs@.len() > 0 && closed0 {
                            assert(false);
                        }
                        assert(sp_obj_fields(nodes, idx as int, cursor.buf(), head0, depth as int, macc)
                            == (MOut::MOk(MVal::MObj(macc)), step_past(
                            pos_head,
                            cursor.buf().len() as int,
                        )));
                    }
                    cursor.advance(1);
                    break;
                }
                proof {
                    if pairs@.len() == 0 {
                        assert(cursor.pos == p1);
                        assert(rem@ =~= w1);
                        assert(!closed0);
                    }
                    if closed0 {
                        assert(false);
                    }
                }
                let ghost pairs_snap = pairs@;
                let ghost mut new_macc: Seq<(Seq<u8>, MVal)> = Seq::empty();
                let mut from: usize = 0;
                let mut accepted: bool = false;
                loop
                    invariant_except_break
                        !accepted,
                        cursor.pos == pos_head,
                        pairs@ == pairs_snap,
                        pairs_match(pairs@, macc),
                    invariant
                        head0 <= cursor.buf().len(),
                        pos_head == skip_ws_end(old(cursor).buf(), head0),
                        head0 <= pos_head,
                        sp_obj_fields(nodes, idx as int, old(cursor).buf(), pb, depth as int, Seq::empty())
                            == sp_obj_fields(
                            nodes,
                            idx as int,
                            old(cursor).buf(),
                            head0,
                            depth as int,
                            macc,
                        ),
                        old(cursor).buf()[pos_head] != 125u8,
                        cursor.wf(),
                        cursor.buf() == old(cursor).buf(),
                        old(cursor).pos <= pos_head,
                        pos_head <= cursor.pos,
                        pos_head < cursor.buf().len(),
                        rem@ == cursor.buf().subrange(pos_head, cursor.buf().len() as int),
                        from <= rem@.len(),
                        patsg == matcher.pats(),
                        pb == after_open(old(cursor).buf(), old(cursor).pos as int, 123u8),
                        old(cursor).pos <= pb <= old(cursor).buf().len(),
                        p1 == skip_ws_end(old(cursor).buf(), pb),
                        pb <= p1 <= old(cursor).buf().len(),
                        w1 == old(cursor).buf().subrange(p1, old(cursor).buf().len() as int),
                        closed0 == (p1 == old(cursor).buf().len() || old(cursor).buf()[p1]
                            == 125u8),
                        !closed0,
                        acc0 == accept_from(patsg, w1, 0),
                        pairs_snap.len() == 0 ==> rem@ == w1 && pos_head == p1,
                        pairs_snap.len() > 0 ==> (acc0 matches Option::Some(_)),
                        accept_from(patsg, rem@, 0) == accept_from(patsg, rem@, from as int),
                        schema.wf(),
                        nodes == schema.nodes_view(),
                        idx < nodes.len(),
                        depth <= MAX_DEPTH,
                        nodes[idx as int] == (SchemaNode::Object {
                            fields: *fields,
                            required: *required,
                            matcher: *matcher,
                        }),
                        fp == fields.pairs(),
                        names == names_of(fp),
                        matcher.pats_of(names),
                        forall|j: int| 0 <= j < fp.len() ==> (#[trigger] fp[j]).1 < idx,
                        forall|k: int|
                            0 <= k < pairs@.len() ==> lookup_pairs(
                                fp,
                                (#[trigger] pairs@[k]).0@,
                            ) is Some,
                        forall|k: int|
                            0 <= k < pairs@.len() ==> fits_child(
                                nodes,
                                idx as int,
                                fp,
                                (#[trigger] pairs@[k]).0@,
                                pairs@[k].1,
                            ),
                        keys_distinct(pairs@),
                    keys_discoverable(pairs@, old(cursor).rem()),
                    ensures
                        cursor.wf(),
                        cursor.buf() == old(cursor).buf(),
                        old(cursor).pos <= cursor.pos,
                        pos_head <= cursor.pos,
                        nodes == schema.nodes_view(),
                        nodes[idx as int] == (SchemaNode::Object {
                            fields: *fields,
                            required: *required,
                            matcher: *matcher,
                        }),
                        fp == fields.pairs(),
                        names == names_of(fp),
                        matcher.pats_of(names),
                        forall|j: int| 0 <= j < fp.len() ==> (#[trigger] fp[j]).1 < idx,
                        forall|k: int|
                            0 <= k < pairs@.len() ==> lookup_pairs(
                                fp,
                                (#[trigger] pairs@[k]).0@,
                            ) is Some,
                        forall|k: int|
                            0 <= k < pairs@.len() ==> fits_child(
                                nodes,
                                idx as int,
                                fp,
                                (#[trigger] pairs@[k]).0@,
                                pairs@[k].1,
                            ),
                        keys_distinct(pairs@),
                    keys_discoverable(pairs@, old(cursor).rem()),
                        accepted ==> cursor.pos > pos_head,
                        !accepted ==> accept_from(patsg, rem@, 0) is None && cursor.pos
                            == pos_head && pairs@ == pairs_snap,
                        !accepted ==> sp_obj_fields(
                            nodes,
                            idx as int,
                            old(cursor).buf(),
                            pb,
                            depth as int,
                            Seq::empty(),
                        ) == (MOut::MOk(MVal::MObj(macc)), cursor.pos as int),
                        accepted ==> pairs_match(pairs@, new_macc) && sp_obj_fields(
                            nodes,
                            idx as int,
                            old(cursor).buf(),
                            pb,
                            depth as int,
                            Seq::empty(),
                        ) == sp_obj_fields(
                            nodes,
                            idx as int,
                            old(cursor).buf(),
                            obj_next_pos(old(cursor).buf(), cursor.pos as int),
                            depth as int,
                            new_macc,
                        ),
                        accepted ==> pairs@.len() > 0,
                        accepted && pairs_snap.len() == 0 ==> match accept_from(
                            patsg,
                            rem@,
                            0,
                        ) {
                            Option::Some((k0, s0)) => pairs@[0].0@ == patsg[k0]@.subrange(
                                1,
                                patsg[k0]@.len() - 1,
                            ),
                            Option::None => false,
                        },
                        accepted && pairs_snap.len() > 0 ==> pairs@[0].0@ == pairs_snap[0].0@,
                    decreases rem@.len() - from,
                {
                    match matcher.find_from(rem, from) {
                        Option::None => {
                            proof {
                                crate::structural::matcher::lemma_find_post_fn(
                                    patsg,
                                    rem@,
                                    from as int,
                                    Option::<(usize, usize)>::None,
                                );
                                assert(accept_from(patsg, rem@, from as int) is None);
                                assert(sp_obj_fields(
                                    nodes,
                                    idx as int,
                                    cursor.buf(),
                                    head0,
                                    depth as int,
                                    macc,
                                ) == (MOut::MOk(MVal::MObj(macc)), pos_head));
                            }
                            break;
                        },
                        Option::Some((k, s)) => {
                            proof {
                                lemma_pat_of_name(matcher, names, k as int);
                            }
                            let plen = matcher.pattern_len(k);
                            proof {
                                assert(vstd::slice::spec_slice_len(rem) == rem@.len());
                                assert(s + plen <= rem@.len());
                            }
                            let e = s + plen;
                            let mut ci = e;
                            while ci < rem.len() && ascii_ws_byte(rem[ci])
                                invariant
                                    e <= ci <= rem@.len(),
                                    ascii_ws_end(rem@, e as int) == ascii_ws_end(rem@, ci as int),
                                decreases rem@.len() - ci,
                            {
                                ci = ci + 1;
                            }
                            proof {
                                assert(ci == ascii_ws_end(rem@, e as int));
                            }
                            if ci < rem.len() && rem[ci] == 58 {
                                proof {
                                    crate::structural::matcher::lemma_find_post_fn(
                                        patsg,
                                        rem@,
                                        from as int,
                                        Option::Some((k, s)),
                                    );
                                    assert(accept_from(patsg, rem@, from as int)
                                        == Option::Some((k as int, s as int)));
                                    assert(accept_from(patsg, rem@, 0) == Option::Some((
                                        k as int,
                                        s as int,
                                    )));
                                    if pairs_snap.len() == 0 {
                                        assert(acc0 == Option::Some((k as int, s as int)));
                                    }
                                    assert(acc0 matches Option::Some(_));
                                }
                                cursor.advance(ci + 1);
                                let key = slice_to_vec(&rem[(s + 1)..(e - 1)]);
                                let ghost m = (k as int) / 2;
                                let ghost q: u8 = if (k as int) % 2 == 0 {
                                    34u8
                                } else {
                                    39u8
                                };
                                let ghost pat = matcher.pats()[k as int]@;
                                proof {
                                    assert(rem@.subrange(s as int, s + plen) == pat);
                                    assert forall|w: int|
                                        0 <= w < plen - 2 implies key@[w] == pat[1 + w] by {
                                        assert(rem@.subrange(s as int, s + plen)[1 + w] == rem@[s
                                            + 1 + w]);
                                    }
                                    assert(key@ =~= pat.subrange(1, plen - 1));
                                    lemma_quoted_content(names[m]@, q);
                                    assert(pat == quoted(names[m]@, q));
                                    assert(key@ == names[m]@);
                                    assert(names[m] == fp[m].0);
                                    lemma_lookup_exists(fp, key@);
                                    assert(lookup_pairs(fp, key@) is Some);
                                }
                                match fields.get(key.as_slice()) {
                                    Option::Some(child) => {
                                        let ghost key_view = key@;
                                        let ghost cb = *cursor;
                                        let ghost spc = sp_node(
                                            nodes,
                                            child as int,
                                            cursor.buf(),
                                            cb.pos as int,
                                            depth as int + 1,
                                        );
                                        proof {
                                            lemma_lookup_result(fp, key_view);
                                            assert(occurs_in(rem@, quoted(key_view, q)));
                                            lemma_occurs_shift(
                                                cursor.buf(),
                                                old(cursor).pos as int,
                                                pos_head,
                                                quoted(key_view, q),
                                            );
                                            assert(name_discoverable(
                                                old(cursor).rem(),
                                                key_view,
                                            ));
                                        }
                                        match parse_node(cursor, schema, child, depth + 1) {
                                            Result::Ok(val) => {
                                                let ghost prev_pairs = pairs@;
                                                let ghost val_ghost = val;
                                                proof {
                                                    let j = choose|j: int|
                                                        0 <= j < fp.len() && (#[trigger] fp[j]).0@
                                                            == key_view && fp[j].1 == lookup_pairs(
                                                            fp,
                                                            key_view,
                                                        ).unwrap();
                                                    assert(child == fp[j].1);
                                                    assert(child < idx);
                                                }
                                                insert_pair(&mut pairs, key, val);
                                                proof {
                                                    assert forall|k2: int|
                                                        0 <= k2 < pairs@.len() implies lookup_pairs(
                                                        fp,
                                                        (#[trigger] pairs@[k2]).0@,
                                                    ) is Some && fits_child(
                                                        nodes,
                                                        idx as int,
                                                        fp,
                                                        pairs@[k2].0@,
                                                        pairs@[k2].1,
                                                    ) && name_discoverable(
                                                        old(cursor).rem(),
                                                        pairs@[k2].0@,
                                                    ) by {
                                                        if !(pairs@[k2].0 == key && pairs@[k2].1
                                                            == val_ghost) {
                                                            let j2 = choose|j2: int|
                                                                0 <= j2 < prev_pairs.len() && pairs@[k2]
                                                                    == #[trigger] prev_pairs[j2];
                                                            assert(lookup_pairs(
                                                                fp,
                                                                prev_pairs[j2].0@,
                                                            ) is Some);
                                                            assert(fits_child(
                                                                nodes,
                                                                idx as int,
                                                                fp,
                                                                prev_pairs[j2].0@,
                                                                prev_pairs[j2].1,
                                                            ));
                                                            assert(name_discoverable(
                                                                old(cursor).rem(),
                                                                prev_pairs[j2].0@,
                                                            ));
                                                        } else {
                                                            assert(pairs@[k2].0@ == key_view);
                                                            assert(value_fits(
                                                                nodes,
                                                                child as int,
                                                                val_ghost,
                                                            ));
                                                            assert(fits_child(
                                                                nodes,
                                                                idx as int,
                                                                fp,
                                                                key_view,
                                                                val_ghost,
                                                            ));
                                                        }
                                                    }
                                                }
                                                proof {
                                                    if pairs_snap.len() == 0 {
                                                        if pairs@.len() == pairs_snap.len() {
                                                            assert(has_key(pairs@, key_view));
                                                            let kk = choose|kk: int|
                                                                0 <= kk < pairs@.len() && (
                                                                #[trigger] pairs@[kk]).0@
                                                                    == key_view;
                                                            assert(false);
                                                        }
                                                        assert(pairs@.len() == pairs_snap.len()
                                                            + 1);
                                                        assert(pairs@[0].0@ == key_view);
                                                        assert(pairs@[0].0@ == patsg[
                                                            k as int
                                                        ]@.subrange(
                                                            1,
                                                            patsg[k as int]@.len() - 1,
                                                        ));
                                                    } else {
                                                        assert(pairs@.len() > 0);
                                                        assert(pairs@[0].0@
                                                            == pairs_snap[0].0@);
                                                    }
                                                }
                                                let ghost vm = match spc.0 {
                                                    MOut::MOk(m) => m,
                                                    _ => MVal::MNull,
                                                };
                                                proof {
                                                    assert(spc.0 == MOut::MOk(vm));
                                                    assert(m_matches(val_ghost, vm));
                                                    new_macc = m_upsert(macc, key_view, vm);
                                                    lemma_pairs_match_upsert(
                                                        prev_pairs,
                                                        macc,
                                                        key,
                                                        val_ghost,
                                                        vm,
                                                        pairs@,
                                                    );
                                                    assert(pairs_match(pairs@, new_macc));
                                                    assert(cb.pos == pos_head + ci + 1);
                                                    assert(cursor.pos == spc.1);
                                                    assert(cb.pos <= spc.1
                                                        <= cursor.buf().len());
                                                    assert(sp_obj_fields(
                                                        nodes,
                                                        idx as int,
                                                        cursor.buf(),
                                                        head0,
                                                        depth as int,
                                                        macc,
                                                    ) == sp_obj_fields(
                                                        nodes,
                                                        idx as int,
                                                        cursor.buf(),
                                                        obj_next_pos(
                                                            cursor.buf(),
                                                            cursor.pos as int,
                                                        ),
                                                        depth as int,
                                                        new_macc,
                                                    ));
                                                }
                                                accepted = true;
                                                break;
                                            },
                                            Result::Err(err) => {
                                                proof {
                                                    let j = choose|j: int|
                                                        0 <= j < fp.len() && (#[trigger] fp[j]).0@
                                                            == key_view && fp[j].1 == lookup_pairs(
                                                            fp,
                                                            key_view,
                                                        ).unwrap();
                                                    assert(child == fp[j].1);
                                                    if depth_ok(nodes, idx as int, depth as int) {
                                                        assert(child_depth_ok(
                                                            nodes,
                                                            idx as int,
                                                            fp[j].1 as int,
                                                            depth as int,
                                                        ));
                                                        assert(depth_ok(
                                                            nodes,
                                                            child as int,
                                                            depth as int + 1,
                                                        ));
                                                        if only_missing_failures(
                                                            nodes,
                                                            idx as int,
                                                        ) {
                                                            assert(child_only_missing(
                                                                nodes,
                                                                idx as int,
                                                                fp[j].1 as int,
                                                            ));
                                                            assert(only_missing_failures(
                                                                nodes,
                                                                child as int,
                                                            ));
                                                        }
                                                    }
                                                    if depth_ok(nodes, idx as int, depth as int)
                                                        && never_fails(nodes, idx as int) {
                                                        assert(child_never_fails(
                                                            nodes,
                                                            idx as int,
                                                            fp[j].1 as int,
                                                        ));
                                                        assert(child_depth_ok(
                                                            nodes,
                                                            idx as int,
                                                            fp[j].1 as int,
                                                            depth as int,
                                                        ));
                                                        assert(never_fails(nodes, child as int));
                                                        assert(depth_ok(
                                                            nodes,
                                                            child as int,
                                                            depth as int + 1,
                                                        ));
                                                        assert(false);
                                                    }
                                                    assert(!closed0);
                                                    assert(acc0 matches Option::Some(_));
                                                    assert(acc0 == accept_from(patsg, w1, 0));
                                                    assert(patsg == matcher.pats());
                                                    if err == ParseError::UnexpectedEof {
                                                        assert(cb.rem()
                                                            =~= old(cursor).buf().subrange(
                                                            cb.pos as int,
                                                            old(cursor).buf().len() as int,
                                                        ));
                                                        lemma_eof_witness_shift(
                                                            nodes,
                                                            child as int,
                                                            old(cursor).buf(),
                                                            old(cursor).pos as int,
                                                            cb.pos as int,
                                                        );
                                                        assert(eof_witness(
                                                            nodes,
                                                            child as int,
                                                            old(cursor).rem(),
                                                        ));
                                                        assert(child_eof_witness(
                                                            nodes,
                                                            idx as int,
                                                            fp[j].1 as int,
                                                            old(cursor).rem(),
                                                        ));
                                                        assert(name_discoverable(
                                                            old(cursor).rem(),
                                                            (fields.pairs()[j]).0@,
                                                        ) && child_eof_witness(
                                                            nodes,
                                                            idx as int,
                                                            fields.pairs()[j].1 as int,
                                                            old(cursor).rem(),
                                                        ));
                                                        assert(eof_witness(
                                                            nodes,
                                                            idx as int,
                                                            old(cursor).rem(),
                                                        ));
                                                    }
                                                    assert(cb.pos == pos_head + ci + 1);
                                                    match spc.0 {
                                                        MOut::MFail(me) => {
                                                            assert(cursor.pos == spc.1);
                                                            assert(sp_obj_fields(
                                                                nodes,
                                                                idx as int,
                                                                cursor.buf(),
                                                                head0,
                                                                depth as int,
                                                                macc,
                                                            ) == (MOut::MFail(me), spc.1));
                                                            assert(sp_object(
                                                                nodes,
                                                                idx as int,
                                                                cursor.buf(),
                                                                old(cursor).pos as int,
                                                                depth as int,
                                                            ) == (MOut::MFail(me), spc.1));
                                                            assert(m_err_matches(err, me));
                                                        },
                                                        MOut::MOk(_) => {
                                                            assert(false);
                                                        },
                                                    }
                                                }
                                                return Err(err);
                                            },
                                        }
                                    },
                                    Option::None => {
                                        // Every matcher pattern is a declared
                                        // field name in quotes, so the lookup
                                        // cannot miss.
                                        proof {
                                            assert(false);
                                        }
                                        from = e;
                                    },
                                }
                            } else {
                                proof {
                                    crate::structural::matcher::lemma_find_post_fn(
                                        patsg,
                                        rem@,
                                        from as int,
                                        Option::Some((k, s)),
                                    );
                                    assert(accept_from(patsg, rem@, from as int) == accept_from(
                                        patsg,
                                        rem@,
                                        e as int,
                                    ));
                                }
                                from = e;
                            }
                        },
                    }
                }
                let ghost exit_pos = cursor.pos as int;
                if !accepted {
                    proof {
                        if pairs@.len() == 0 {
                            assert(acc0 is None);
                        }
                    }
                    break;
                }
                proof {
                    assert(pairs@.len() > 0);
                    if pairs_snap.len() == 0 {
                        assert(rem@ == w1);
                        assert(acc0 == accept_from(patsg, rem@, 0));
                    }
                    lemma_skip_ws_end(cursor.buf(), exit_pos);
                }
                cursor.skip_whitespace();
                let remc = cursor.remaining();
                if remc.len() > 0 && remc[0] == 44 {
                    cursor.advance(1);
                }
                proof {
                    assert(cursor.pos as int == obj_next_pos(cursor.buf(), exit_pos));
                    macc = new_macc;
                }
            }
            let mut rq: usize = 0;
            while rq < required.len()
                invariant
                    cursor.wf(),
                    cursor.buf() == old(cursor).buf(),
                    old(cursor).pos <= cursor.pos,
                    nodes == schema.nodes_view(),
                    idx < nodes.len(),
                    nodes[idx as int] == (SchemaNode::Object {
                        fields: *fields,
                        required: *required,
                        matcher: *matcher,
                    }),
                    fp == fields.pairs(),
                    rq <= required@.len(),
                    forall|k: int|
                        0 <= k < pairs@.len() ==> lookup_pairs(
                            fp,
                            (#[trigger] pairs@[k]).0@,
                        ) is Some,
                    forall|k: int|
                        0 <= k < pairs@.len() ==> fits_child(
                            nodes,
                            idx as int,
                            fp,
                            (#[trigger] pairs@[k]).0@,
                            pairs@[k].1,
                        ),
                    keys_distinct(pairs@),
                    keys_discoverable(pairs@, old(cursor).rem()),
                    forall|q2: int| 0 <= q2 < rq ==> has_key(pairs@, (#[trigger] required@[q2])@),
                    patsg == matcher.pats(),
                    pb == after_open(old(cursor).buf(), old(cursor).pos as int, 123u8),
                    old(cursor).pos <= pb <= old(cursor).buf().len(),
                    p1 == skip_ws_end(old(cursor).buf(), pb),
                    pb <= p1 <= old(cursor).buf().len(),
                    w1 == old(cursor).buf().subrange(p1, old(cursor).buf().len() as int),
                    closed0 == (p1 == old(cursor).buf().len() || old(cursor).buf()[p1] == 125u8),
                    acc0 == accept_from(patsg, w1, 0),
                    closed0 ==> pairs@.len() == 0,
                    !closed0 && acc0 is None ==> pairs@.len() == 0,
                    pairs@.len() > 0 ==> !closed0 && match acc0 {
                        Option::Some((k0, s0)) => pairs@[0].0@ == patsg[k0]@.subrange(
                            1,
                            patsg[k0]@.len() - 1,
                        ),
                        Option::None => false,
                    },
                    pairs@.len() == 0 ==> (closed0 && cursor.pos == step_past(
                        p1,
                        old(cursor).buf().len() as int,
                    )) || (!closed0 && acc0 is None && cursor.pos == p1),
                    pairs_match(pairs@, macc),
                    sp_obj_fields(nodes, idx as int, old(cursor).buf(), pb, depth as int, Seq::empty())
                        == (MOut::MOk(MVal::MObj(macc)), cursor.pos as int),
                    m_first_missing(required@, macc, 0) == m_first_missing(
                        required@,
                        macc,
                        rq as int,
                    ),
                decreases required@.len() - rq,
            {
                let hit = pairs_has_key(&pairs, required[rq].as_slice());
                if !hit {
                    proof {
                        let nm = required@[rq as int]@;
                        match nodes[idx as int] {
                            SchemaNode::Object { required: r2, .. } => {
                                assert(r2 == *required);
                                assert((r2@[rq as int])@ == nm);
                                assert(exists|rq2: int|
                                    0 <= rq2 < r2@.len() && (#[trigger] r2@[rq2])@ == nm);
                            },
                            _ => {
                                assert(false);
                            },
                        }
                        assert(node_requires(nodes[idx as int], nm));
                        assert(some_required(nodes, nm));
                        if depth_ok(nodes, idx as int, depth as int) && never_fails(
                            nodes,
                            idx as int,
                        ) {
                            assert(required@.len() == 0);
                            assert(false);
                        }
                        if pairs@.len() == 0 {
                            if rq > 0 {
                                assert(has_key(pairs@, required@[0]@));
                                let kk = choose|kk: int|
                                    0 <= kk < pairs@.len() && (#[trigger] pairs@[kk]).0@
                                        == required@[0]@;
                                assert(false);
                            }
                            assert(rq == 0);
                        }
                        lemma_has_key_match(pairs@, macc, required@[rq as int]@);
                        assert(!m_has_key(macc, required@[rq as int]@));
                        assert(m_first_missing(required@, macc, rq as int) == Option::Some(
                            required@[rq as int]@,
                        ));
                        assert(sp_object(
                            nodes,
                            idx as int,
                            cursor.buf(),
                            old(cursor).pos as int,
                            depth as int,
                        ) == (MOut::MFail(MErr::MMissing(required@[rq as int]@)), cursor.pos as int));
                    }
                    return Err(ParseError::MissingField(slice_to_vec(required[rq].as_slice())));
                }
                proof {
                    lemma_has_key_match(pairs@, macc, required@[rq as int]@);
                    assert(m_has_key(macc, required@[rq as int]@));
                    assert(m_first_missing(required@, macc, rq as int) == m_first_missing(
                        required@,
                        macc,
                        rq as int + 1,
                    ));
                }
                rq = rq + 1;
            }
            proof {
                if missing_required_name(nodes[idx as int], old(cursor).rem()) {
                    let rq0 = choose|rq0: int|
                        0 <= rq0 < required@.len() && !name_discoverable(
                            old(cursor).rem(),
                            (#[trigger] required@[rq0])@,
                        );
                    assert(has_key(pairs@, required@[rq0]@));
                    let kk = choose|kk: int|
                        0 <= kk < pairs@.len() && (#[trigger] pairs@[kk]).0@ == required@[rq0]@;
                    assert(name_discoverable(old(cursor).rem(), pairs@[kk].0@));
                    assert(false);
                }
                if required@.len() > 0 && pairs@.len() == 0 {
                    assert(has_key(pairs@, required@[0]@));
                    let kk = choose|kk: int|
                        0 <= kk < pairs@.len() && (#[trigger] pairs@[kk]).0@ == required@[0]@;
                    assert(false);
                }
                assert(m_first_missing(required@, macc, required@.len() as int) is None);
                assert(m_first_missing(required@, macc, 0) is None);
                assert(sp_object(
                    nodes,
                    idx as int,
                    cursor.buf(),
                    old(cursor).pos as int,
                    depth as int,
                ) == (MOut::MOk(MVal::MObj(macc)), cursor.pos as int));
            }
            Ok(Value::Object(pairs))
        },
        // The caller guarantees an object node; this arm is dead.
        _ => Err(ParseError::UnexpectedEof),
    }
}

/// Parses one value for schema node `idx` at the given recursion depth:
/// the dispatch over the node's kind, after the depth guard and a
/// whitespace skip. The wildcard resolves to a null placeholder.
pub fn parse_node(cursor: &mut Cursor, schema: &Schema, idx: usize, depth: usize) -> (r: Result<
    Value,
    ParseError,
>)
    requires
        old(cursor).wf(),
        schema.wf(),
        idx < schema.nodes_view().len(),
    ensures
        final(cursor).buf() == old(cursor).buf(),
        final(cursor).wf(),
        old(cursor).pos <= final(cursor).pos,
        depth > MAX_DEPTH ==> r == Result::<Value, ParseError>::Err(ParseError::RecursionLimit)
            && final(cursor).pos == old(cursor).pos,
        r matches Result::Ok(v) ==> value_fits(schema.nodes_view(), idx as int, v),
        !(r matches Result::Err(ParseError::InvalidUtf8)),
        (r matches Result::Err(ParseError::MissingField(n)) ==> some_required(
            schema.nodes_view(),
            n@,
        )),
        depth <= MAX_DEPTH ==> node_post(
            schema.nodes_view(),
            idx as int,
            old(cursor).buf(),
            old(cursor).pos as int,
            r,
            final(cursor).pos as int,
        ),
        (r matches Result::Ok(v) ==> obj_keys_discoverable(v, old(cursor).rem())),
        depth_ok(schema.nodes_view(), idx as int, depth as int) && only_missing_failures(
            schema.nodes_view(),
            idx as int,
        ) ==> !(r matches Result::Err(ParseError::RecursionLimit)) && !(r matches Result::Err(
            ParseError::UnexpectedEof,
        )),
        depth_ok(schema.nodes_view(), idx as int, depth as int) && never_fails(
            schema.nodes_view(),
            idx as int,
        ) ==> r matches Result::Ok(_),
        depth_ok(schema.nodes_view(), idx as int, depth as int) ==> !(r matches Result::Err(
            ParseError::RecursionLimit,
        )),
        depth_ok(schema.nodes_view(), idx as int, depth as int) && only_missing_failures(
            schema.nodes_view(),
            idx as int,
        ) && missing_required_name(schema.nodes_view()[idx as int], old(cursor).rem()) ==> (
        r matches Result::Err(ParseError::MissingField(_))),
        r matches Result::Err(ParseError::UnexpectedEof) ==> eof_witness(
            schema.nodes_view(),
            idx as int,
            old(cursor).rem(),
        ),
        depth_ok(schema.nodes_view(), idx as int, depth as int) && !eof_witness(
            schema.nodes_view(),
            idx as int,
            old(cursor).rem(),
        ) && missing_required_name(schema.nodes_view()[idx as int], old(cursor).rem()) ==> (
        r matches Result::Err(ParseError::MissingField(_))),
        ({
            let sp = sp_node(
                schema.nodes_view(),
                idx as int,
                old(cursor).buf(),
                old(cursor).pos as int,
                depth as int,
            );
            m_out_matches(r, sp.0) && final(cursor).pos == sp.1
        }),
    decreases MAX_DEPTH as int + 1 - depth, 1int,
{
    if depth > MAX_DEPTH {
        return Err(ParseError::RecursionLimit);
    }
    proof {
        lemma_skip_ws_end(cursor.buf(), cursor.pos as int);
    }
    cursor.skip_whitespace();
    let ghost nodes = schema.nodes_view();
    let ghost p = cursor.pos as int;
    let ghost rem1 = cursor.rem();
    let ghost pos0 = old(cursor).pos as int;
    match schema.node(idx) {
        SchemaNode::PrimitiveString => {
            let r = parse_string_speculative(cursor);
            proof {
                let buf = old(cursor).buf();
                let s1 = buf.subrange(p, buf.len() as int);
                assert(rem1 == s1);
                assert(pos0 <= p <= buf.len());
                assert(sp_node(nodes, idx as int, buf, pos0, depth as int) == sp_string(buf, p));
                assert(string_post(s1, r, cursor.pos - p));
                match open_quote(s1) {
                    Option::Some((qt, olen)) => {
                        let t = s1.subrange(olen, s1.len() as int);
                        match q_scan(t, qt, 0, false) {
                            QuotedScan::Eof => {},
                            QuotedScan::Truncated { len } => {},
                            QuotedScan::Closed { len, adv } => {},
                        }
                    },
                    Option::None => {},
                }
            }
            r
        },
        SchemaNode::PrimitiveNumber => {
            let r = parse_number_robust(cursor);
            proof {
                let buf = old(cursor).buf();
                let s1 = buf.subrange(p, buf.len() as int);
                let adv = cursor.pos - p;
                assert(number_post(s1, r, adv));
                assert(forall|j: int| 0 <= j < adv ==> is_num_byte(#[trigger] s1[j]));
                assert(forall|j: int|
                    0 <= j < s1.subrange(0, adv).len() ==> is_num_byte(
                        #[trigger] s1.subrange(0, adv)[j],
                    ));
                lemma_strip_commas_bytes(s1.subrange(0, adv));
                assert forall|j: int| p <= j < p + adv implies is_num_byte(
                    #[trigger] buf[j],
                ) by {
                    assert(s1[j - p] == buf[j]);
                    assert(is_num_byte(s1[j - p]));
                }
                if p + adv < buf.len() {
                    assert(s1[adv] == buf[p + adv]);
                }
                lemma_num_end_unique(buf, p, p + adv);
                assert(buf.subrange(p, p + adv) =~= s1.subrange(0, adv));
                assert(pos0 <= p <= buf.len());
                assert(sp_node(nodes, idx as int, buf, pos0, depth as int) == (MOut::MOk(
                    MVal::MNum(strip_commas(buf.subrange(p, num_end(buf, p)))),
                ), num_end(buf, p)));
            }
            r
        },
        SchemaNode::PrimitiveBool => {
            let r = parse_bool_speculative(cursor);
            proof {
                let buf = old(cursor).buf();
                assert(rem1 == buf.subrange(p, buf.len() as int));
                assert(pos0 <= p <= buf.len());
                assert(sp_node(nodes, idx as int, buf, pos0, depth as int) == sp_bool(buf, p));
                assert(bool_post(rem1, r, cursor.pos - p));
            }
            r
        },
        SchemaNode::Object { .. } => {
            let r = parse_object(cursor, schema, idx, depth);
            proof {
                match &r {
                    Result::Ok(v) => match v {
                        Value::Object(ps) => {
                            assert forall|k: int|
                                0 <= k < ps@.len() implies name_discoverable(
                                old(cursor).rem(),
                                (#[trigger] ps@[k]).0@,
                            ) by {
                                assert(name_discoverable(rem1, ps@[k].0@));
                                if occurs_in(rem1, quoted(ps@[k].0@, 34u8)) {
                                    lemma_occurs_shift(
                                        old(cursor).buf(),
                                        pos0,
                                        p,
                                        quoted(ps@[k].0@, 34u8),
                                    );
                                } else {
                                    lemma_occurs_shift(
                                        old(cursor).buf(),
                                        pos0,
                                        p,
                                        quoted(ps@[k].0@, 39u8),
                                    );
                                }
                            }
                        },
                        _ => {},
                    },
                    _ => {},
                }
                match &r {
                    Result::Err(ParseError::UnexpectedEof) => {
                        lemma_eof_witness_shift(nodes, idx as int, old(cursor).buf(), pos0, p);
                    },
                    _ => {},
                }
                if !eof_witness(nodes, idx as int, old(cursor).rem()) && eof_witness(
                    nodes,
                    idx as int,
                    rem1,
                ) {
                    lemma_eof_witness_shift(nodes, idx as int, old(cursor).buf(), pos0, p);
                    assert(false);
                }
                if missing_required_name(nodes[idx as int], old(cursor).rem()) {
                    match nodes[idx as int] {
                        SchemaNode::Object { required, .. } => {
                            let rq0 = choose|rq0: int|
                                0 <= rq0 < required@.len() && !name_discoverable(
                                    old(cursor).rem(),
                                    (#[trigger] required@[rq0])@,
                                );
                            assert(!name_discoverable(rem1, required@[rq0]@)) by {
                                if occurs_in(rem1, quoted(required@[rq0]@, 34u8)) {
                                    lemma_occurs_shift(
                                        old(cursor).buf(),
                                        pos0,
                                        p,
                                        quoted(required@[rq0]@, 34u8),
                                    );
                                }
                                if occurs_in(rem1, quoted(required@[rq0]@, 39u8)) {
                                    lemma_occurs_shift(
                                        old(cursor).buf(),
                                        pos0,
                                        p,
                                        quoted(required@[rq0]@, 39u8),
                                    );
                                }
                            }
                            assert(missing_required_name(nodes[idx as int], rem1));
                        },
                        _ => {},
                    }
                }
                let buf = old(cursor).buf();
                assert(pos0 <= p <= buf.len());
                assert(sp_node(nodes, idx as int, buf, pos0, depth as int) == sp_object(
                    nodes,
                    idx as int,
                    buf,
                    p,
                    depth as int,
                ));
            }
            r
        },
        SchemaNode::Array(_) => {
            let r = parse_array(cursor, schema, idx, depth);
            proof {
                match &r {
                    Result::Err(ParseError::UnexpectedEof) => {
                        lemma_eof_witness_shift(nodes, idx as int, old(cursor).buf(), pos0, p);
                    },
                    _ => {},
                }
                let buf = old(cursor).buf();
                assert(pos0 <= p <= buf.len());
                assert(sp_node(nodes, idx as int, buf, pos0, depth as int) == sp_array(
                    nodes,
                    idx as int,
                    buf,
                    p,
                    depth as int,
                ));
            }
            r
        },
        SchemaNode::Any => {
            proof {
                let buf = old(cursor).buf();
                assert(pos0 <= p <= buf.len());
                assert(sp_node(nodes, idx as int, buf, pos0, depth as int) == (MOut::MOk(
                    MVal::MNull,
                ), p));
            }
            Ok(Value::Null)
        },
    }
}

/// Whether the built object already holds a field named `name`.
fn pairs_has_key(pairs: &Vec<(Vec<u8>, Value)>, name: &[u8]) -> (r: bool)
    ensures
        r == has_key(pairs@, name@),
{
    let mut j: usize = 0;
    while j < pairs.len()
        invariant
            j <= pairs@.len(),
            forall|k: int| 0 <= k < j ==> (#[trigger] pairs@[k]).0@ != name@,
        decreases pairs@.len() - j,
    {
        if bytes_eq(pairs[j].0.as_slice(), name) {
            return true;
        }
        j = j + 1;
    }
    false
}

} // verus!


verus! {

/// A ghost model of an output value: what the specification-level
/// interpreter of the parser produces, compared against the built
/// `Value` by `m_matches`.
pub enum MVal {
    MNull,
    MBool(bool),
    MNum(Seq<u8>),
    MText(Seq<u8>),
    MArr(Seq<MVal>),
    MObj(Seq<(Seq<u8>, MVal)>),
}

/// A ghost model of a parse failure.
pub enum MErr {
    MRecursion,
    MMissing(Seq<u8>),
    MEof,
}

/// A ghost model of a parse outcome.
pub enum MOut {
    MOk(MVal),
    MFail(MErr),
}

/// The built value carries exactly the modeled content.
pub open spec fn m_matches(v: Value, m: MVal) -> bool
    decreases m,
{
    match (v, m) {
        (Value::Null, MVal::MNull) => true,
        (Value::Bool(b), MVal::MBool(mb)) => b == mb,
        (Value::Number(d), MVal::MNum(s)) => d@ == s,
        (Value::Text(d), MVal::MText(s)) => d@ == s,
        (Value::Array(es), MVal::MArr(ms)) => es@.len() == ms.len() && forall|k: int|
            0 <= k < ms.len() ==> m_matches(es@[k], #[trigger] ms[k]),
        (Value::Object(ps), MVal::MObj(ams)) => ps@.len() == ams.len() && forall|k: int|
            0 <= k < ams.len() ==> (#[trigger] ps@[k]).0@ == ams[k].0 && m_matches(
                ps@[k].1,
                ams[k].1,
            ),
        _ => false,
    }
}

/// The built error carries exactly the modeled failure.
pub open spec fn m_err_matches(e: ParseError, m: MErr) -> bool {
    match (e, m) {
        (ParseError::RecursionLimit, MErr::MRecursion) => true,
        (ParseError::MissingField(n), MErr::MMissing(nm)) => n@ == nm,
        (ParseError::UnexpectedEof, MErr::MEof) => true,
        _ => false,
    }
}

/// The parse result carries exactly the modeled outcome.
pub open spec fn m_out_matches(r: Result<Value, ParseError>, o: MOut) -> bool {
    match (r, o) {
        (Result::Ok(v), MOut::MOk(m)) => m_matches(v, m),
        (Result::Err(e), MOut::MFail(me)) => m_err_matches(e, me),
        _ => false,
    }
}

/// Built object fields carry exactly the modeled fields, in order.
pub open spec fn pairs_match(pairs: Seq<(Vec<u8>, Value)>, acc: Seq<(Seq<u8>, MVal)>) -> bool {
    &&& pairs.len() == acc.len()
    &&& forall|k: int|
        0 <= k < acc.len() ==> (#[trigger] pairs[k]).0@ == acc[k].0 && m_matches(
            pairs[k].1,
            acc[k].1,
        )
}

/// The first position in `pairs` holding `nm`, or -1.
pub open spec fn first_key_idx(pairs: Seq<(Vec<u8>, Value)>, nm: Seq<u8>) -> int
    decreases pairs.len(),
{
    if pairs.len() == 0 {
        -1
    } else if pairs[0].0@ == nm {
        0
    } else {
        let rest = first_key_idx(pairs.drop_first(), nm);
        if rest < 0 {
            -1
        } else {
            rest + 1
        }
    }
}

/// `first_key_idx` is the first match, characterized.
pub proof fn lemma_first_key_idx(pairs: Seq<(Vec<u8>, Value)>, nm: Seq<u8>)
    ensures
        first_key_idx(pairs, nm) >= 0 ==> {
            let j = first_key_idx(pairs, nm);
            &&& 0 <= j < pairs.len()
            &&& pairs[j].0@ == nm
            &&& forall|k: int| 0 <= k < j ==> (#[trigger] pairs[k]).0@ != nm
        },
        first_key_idx(pairs, nm) < 0 ==> forall|k: int|
            0 <= k < pairs.len() ==> (#[trigger] pairs[k]).0@ != nm,
    decreases pairs.len(),
{
    if pairs.len() > 0 && pairs[0].0@ != nm {
        lemma_first_key_idx(pairs.drop_first(), nm);
        let rest = first_key_idx(pairs.drop_first(), nm);
        if rest >= 0 {
            assert forall|k: int|
                0 <= k < rest + 1 implies (#[trigger] pairs[k]).0@ != nm by {
                if k > 0 {
                    assert(pairs.drop_first()[k - 1].0@ != nm);
                }
            }
        } else {
            assert forall|k: int|
                0 <= k < pairs.len() implies (#[trigger] pairs[k]).0@ != nm by {
                if k > 0 {
                    assert(pairs.drop_first()[k - 1].0@ != nm);
                }
            }
        }
    }
}

/// The first position in the modeled fields holding `nm`, or -1.
pub open spec fn m_key_idx(acc: Seq<(Seq<u8>, MVal)>, nm: Seq<u8>) -> int
    decreases acc.len(),
{
    if acc.len() == 0 {
        -1
    } else if acc[0].0 == nm {
        0
    } else {
        let rest = m_key_idx(acc.drop_first(), nm);
        if rest < 0 {
            -1
        } else {
            rest + 1
        }
    }
}

/// Fields that match position for position agree on where a name first
/// stands.
pub proof fn lemma_key_idx_match(
    pairs: Seq<(Vec<u8>, Value)>,
    acc: Seq<(Seq<u8>, MVal)>,
    nm: Seq<u8>,
)
    requires
        pairs_match(pairs, acc),
    ensures
        first_key_idx(pairs, nm) == m_key_idx(acc, nm),
    decreases pairs.len(),
{
    if pairs.len() > 0 {
        assert(pairs[0].0@ == acc[0].0);
        if pairs[0].0@ != nm {
            assert(pairs_match(pairs.drop_first(), acc.drop_first())) by {
                assert forall|k: int|
                    0 <= k < acc.drop_first().len() implies (#[trigger] pairs.drop_first()[
                    k]).0@ == acc.drop_first()[k].0 && m_matches(
                    pairs.drop_first()[k].1,
                    acc.drop_first()[k].1,
                ) by {
                    assert(pairs[k + 1].0@ == acc[k + 1].0 && m_matches(
                        pairs[k + 1].1,
                        acc[k + 1].1,
                    ));
                }
            }
            lemma_key_idx_match(pairs.drop_first(), acc.drop_first(), nm);
        }
    }
}

/// Inserting a modeled field: replace the first entry with that name in
/// place, else append.
pub open spec fn m_upsert(acc: Seq<(Seq<u8>, MVal)>, nm: Seq<u8>, v: MVal) -> Seq<
    (Seq<u8>, MVal),
> {
    let i = m_key_idx(acc, nm);
    if i >= 0 {
        acc.update(i, (nm, v))
    } else {
        acc.push((nm, v))
    }
}

/// The modeled fields hold `nm`.
pub open spec fn m_has_key(acc: Seq<(Seq<u8>, MVal)>, nm: Seq<u8>) -> bool {
    exists|k: int| 0 <= k < acc.len() && (#[trigger] acc[k]).0 == nm
}

/// The first required name the modeled fields miss, scanning `required`
/// from `rq`.
pub open spec fn m_first_missing(
    required: Seq<Vec<u8>>,
    acc: Seq<(Seq<u8>, MVal)>,
    rq: int,
) -> Option<Seq<u8>>
    decreases required.len() - rq,
{
    if rq < 0 || rq >= required.len() {
        Option::None
    } else if !m_has_key(acc, required[rq]@) {
        Option::Some(required[rq]@)
    } else {
        m_first_missing(required, acc, rq + 1)
    }
}

/// Where the number class ends, scanning `buf` from `i`.
pub open spec fn num_end(buf: Seq<u8>, i: int) -> int
    decreases buf.len() - i,
{
    if 0 <= i < buf.len() && is_num_byte(buf[i]) {
        num_end(buf, i + 1)
    } else {
        i
    }
}

/// The greedy number prefix is unique: any bound with the same two
/// properties is `num_end`.
pub proof fn lemma_num_end_unique(buf: Seq<u8>, p: int, n: int)
    requires
        0 <= p <= n <= buf.len(),
        forall|j: int| p <= j < n ==> is_num_byte(#[trigger] buf[j]),
        n == buf.len() || !is_num_byte(buf[n]),
    ensures
        num_end(buf, p) == n,
    decreases n - p,
{
    if p < n {
        lemma_num_end_unique(buf, p + 1, n);
    }
}

} // verus!

verus! {

/// Where the next loop iteration starts after a parsed value ending at
/// `cpos`: optional whitespace, then an optional comma.
pub open spec fn obj_next_pos(buf: Seq<u8>, cpos: int) -> int {
    let qr = skip_ws_end(buf, cpos);
    let q = if cpos <= qr && qr <= buf.len() {
        qr
    } else {
        cpos
    };
    if q < buf.len() && buf[q] == 44 {
        q + 1
    } else {
        q
    }
}

/// The boolean parse of `buf` at `p`, modeled: the functional mirror of
/// `bool_post`.
pub open spec fn sp_bool(buf: Seq<u8>, p: int) -> (MOut, int) {
    let s = buf.subrange(p, buf.len() as int);
    if starts_with(s, lit_true()) {
        (MOut::MOk(MVal::MBool(true)), p + 4)
    } else if starts_with(s, lit_false()) {
        (MOut::MOk(MVal::MBool(false)), p + 5)
    } else if starts_with(s, lit_cap_true()) {
        (MOut::MOk(MVal::MBool(true)), p + 4)
    } else if starts_with(s, lit_cap_false()) {
        (MOut::MOk(MVal::MBool(false)), p + 5)
    } else {
        (MOut::MOk(MVal::MNull), p)
    }
}

/// The string parse of `buf` at `p`, modeled: the functional mirror of
/// `string_post`.
pub open spec fn sp_string(buf: Seq<u8>, p: int) -> (MOut, int) {
    let s = buf.subrange(p, buf.len() as int);
    match open_quote(s) {
        Option::Some((qt, olen)) => {
            let t = s.subrange(olen, s.len() as int);
            match q_scan(t, qt, 0, false) {
                QuotedScan::Eof => (MOut::MFail(MErr::MEof), p + olen),
                QuotedScan::Truncated { len } => (MOut::MOk(MVal::MText(t.subrange(0, len))), p
                    + olen),
                QuotedScan::Closed { len, adv } => (MOut::MOk(MVal::MText(t.subrange(0, len))), p
                    + olen + adv),
            }
        },
        Option::None => {
            let n = unq_end(s, 0);
            if s.subrange(0, n) == lit_null() {
                (MOut::MOk(MVal::MNull), p + n)
            } else {
                (MOut::MOk(MVal::MText(s.subrange(0, n))), p + n)
            }
        },
    }
}

/// The parse of schema node `idx` over `buf` at `pos` and `depth`,
/// modeled: the specification-level interpreter the executable parser
/// is proved against. The guards that clamp intermediate positions are
/// never taken on the positions the executable parser reaches; they
/// only make the function total.
pub open spec fn sp_node(nodes: Seq<SchemaNode>, idx: int, buf: Seq<u8>, pos: int, depth: int) -> (
    MOut,
    int,
)
    decreases MAX_DEPTH as int + 1 - depth, buf.len() - pos, 2int,
{
    if depth > MAX_DEPTH as int {
        (MOut::MFail(MErr::MRecursion), pos)
    } else if !(0 <= idx < nodes.len()) {
        (MOut::MFail(MErr::MRecursion), pos)
    } else {
        let pr = skip_ws_end(buf, pos);
        let p = if pos <= pr && pr <= buf.len() {
            pr
        } else {
            pos
        };
        match nodes[idx] {
            SchemaNode::PrimitiveNumber => {
                let n = num_end(buf, p);
                (MOut::MOk(MVal::MNum(strip_commas(buf.subrange(p, n)))), n)
            },
            SchemaNode::PrimitiveBool => sp_bool(buf, p),
            SchemaNode::PrimitiveString => sp_string(buf, p),
            SchemaNode::Any => (MOut::MOk(MVal::MNull), p),
            SchemaNode::Array(_) => sp_array(nodes, idx, buf, p, depth),
            SchemaNode::Object { .. } => sp_object(nodes, idx, buf, p, depth),
        }
    }
}

/// The object parse, modeled: the field-discovery loop over the buffer,
/// then the required audit.
pub open spec fn sp_object(nodes: Seq<SchemaNode>, idx: int, buf: Seq<u8>, p: int, depth: int) -> (
    MOut,
    int,
)
    decreases MAX_DEPTH as int + 1 - depth, buf.len() - p, 1int,
{
    if !(0 <= idx < nodes.len()) {
        (MOut::MFail(MErr::MRecursion), p)
    } else {
        match nodes[idx] {
            SchemaNode::Object { fields, required, matcher } => {
                let pb0 = after_open(buf, p, 123u8);
                let pb = if p <= pb0 && pb0 <= buf.len() {
                    pb0
                } else {
                    p
                };
                let lr = sp_obj_fields(nodes, idx, buf, pb, depth, Seq::empty());
                match lr {
                    (MOut::MOk(MVal::MObj(acc)), fin) => match m_first_missing(
                        required@,
                        acc,
                        0,
                    ) {
                        Option::Some(nm) => (MOut::MFail(MErr::MMissing(nm)), fin),
                        Option::None => (MOut::MOk(MVal::MObj(acc)), fin),
                    },
                    (other, fin) => (other, fin),
                }
            },
            _ => (MOut::MFail(MErr::MRecursion), p),
        }
    }
}

/// The object field-discovery loop, modeled: skip whitespace; stop at a
/// closing brace or exhaustion; otherwise accept the leftmost
/// colon-confirmed candidate, parse its child just past the colon,
/// insert the field, consume an optional comma, and continue.
pub open spec fn sp_obj_fields(
    nodes: Seq<SchemaNode>,
    idx: int,
    buf: Seq<u8>,
    pos: int,
    depth: int,
    acc: Seq<(Seq<u8>, MVal)>,
) -> (MOut, int)
    decreases MAX_DEPTH as int + 1 - depth, buf.len() - pos, 0int,
{
    if depth > MAX_DEPTH as int || !(0 <= idx < nodes.len()) {
        (MOut::MFail(MErr::MRecursion), pos)
    } else {
        match nodes[idx] {
            SchemaNode::Object { fields, required, matcher } => {
                let p1r = skip_ws_end(buf, pos);
                let p1 = if pos <= p1r && p1r <= buf.len() {
                    p1r
                } else {
                    pos
                };
                if p1 >= buf.len() || buf[p1] == 125 {
                    (MOut::MOk(MVal::MObj(acc)), step_past(p1, buf.len() as int))
                } else {
                    let w = buf.subrange(p1, buf.len() as int);
                    match accept_from(matcher.pats(), w, 0) {
                        Option::None => (MOut::MOk(MVal::MObj(acc)), p1),
                        Option::Some((k, s)) => {
                            if !(0 <= k < matcher.pats().len()) {
                                (MOut::MOk(MVal::MObj(acc)), p1)
                            } else {
                                let plen = matcher.pats()[k]@.len() as int;
                                let e = s + plen;
                                let ci = ascii_ws_end(w, e);
                                let ca0 = p1 + ci + 1;
                                let ca = if p1 < ca0 && ca0 <= buf.len() {
                                    ca0
                                } else {
                                    p1 + 1
                                };
                                let keynm = matcher.pats()[k]@.subrange(1, plen - 1);
                                match lookup_pairs(fields.pairs(), keynm) {
                                    Option::None => (MOut::MOk(MVal::MObj(acc)), ca),
                                    Option::Some(c) => {
                                        let cr = sp_node(nodes, c as int, buf, ca, depth + 1);
                                        match cr.0 {
                                            MOut::MFail(me) => (MOut::MFail(me), cr.1),
                                            MOut::MOk(vm) => {
                                                let acc2 = m_upsert(acc, keynm, vm);
                                                let np0 = if ca <= cr.1 && cr.1 <= buf.len() {
                                                    cr.1
                                                } else {
                                                    ca
                                                };
                                                sp_obj_fields(
                                                    nodes,
                                                    idx,
                                                    buf,
                                                    obj_next_pos(buf, np0),
                                                    depth,
                                                    acc2,
                                                )
                                            },
                                        }
                                    },
                                }
                            }
                        },
                    }
                }
            },
            _ => (MOut::MFail(MErr::MRecursion), pos),
        }
    }
}

/// The array parse, modeled.
pub open spec fn sp_array(nodes: Seq<SchemaNode>, idx: int, buf: Seq<u8>, p: int, depth: int) -> (
    MOut,
    int,
)
    decreases MAX_DEPTH as int + 1 - depth, buf.len() - p, 1int,
{
    if !(0 <= idx < nodes.len()) {
        (MOut::MFail(MErr::MRecursion), p)
    } else {
        match nodes[idx] {
            SchemaNode::Array(c) => {
                let pb0 = after_open(buf, p, 91u8);
                let pb = if p <= pb0 && pb0 <= buf.len() {
                    pb0
                } else {
                    p
                };
                sp_arr_elems(nodes, c as int, buf, pb, depth, Seq::empty())
            },
            _ => (MOut::MFail(MErr::MRecursion), p),
        }
    }
}

/// The array element loop, modeled: skip whitespace; stop at a closing
/// bracket or exhaustion; otherwise parse one element, force one byte
/// of progress if it consumed nothing, consume an optional comma, and
/// continue.
pub open spec fn sp_arr_elems(
    nodes: Seq<SchemaNode>,
    c: int,
    buf: Seq<u8>,
    pos: int,
    depth: int,
    elems: Seq<MVal>,
) -> (MOut, int)
    decreases MAX_DEPTH as int + 1 - depth, buf.len() - pos, 0int,
{
    if depth > MAX_DEPTH as int {
        (MOut::MFail(MErr::MRecursion), pos)
    } else {
        let p1r = skip_ws_end(buf, pos);
        let p1 = if pos <= p1r && p1r <= buf.len() {
            p1r
        } else {
            pos
        };
        if p1 >= buf.len() || buf[p1] == 93 {
            (MOut::MOk(MVal::MArr(elems)), step_past(p1, buf.len() as int))
        } else {
            let cr = sp_node(nodes, c, buf, p1, depth + 1);
            match cr.0 {
                MOut::MFail(me) => (MOut::MFail(me), cr.1),
                MOut::MOk(vm) => {
                    let np0 = if p1 < cr.1 && cr.1 <= buf.len() {
                        cr.1
                    } else {
                        p1 + 1
                    };
                    sp_arr_elems(nodes, c, buf, obj_next_pos(buf, np0), depth, elems.push(vm))
                },
            }
        }
    }
}

} // verus!

verus! {

/// Inserting matching values into matching fields keeps them matching.
pub proof fn lemma_pairs_match_upsert(
    prev: Seq<(Vec<u8>, Value)>,
    acc: Seq<(Seq<u8>, MVal)>,
    keyv: Vec<u8>,
    valv: Value,
    vm: MVal,
    newp: Seq<(Vec<u8>, Value)>,
)
    requires
        pairs_match(prev, acc),
        m_matches(valv, vm),
        newp == (if first_key_idx(prev, keyv@) >= 0 {
            prev.update(first_key_idx(prev, keyv@), (keyv, valv))
        } else {
            prev.push((keyv, valv))
        }),
    ensures
        pairs_match(newp, m_upsert(acc, keyv@, vm)),
{
    lemma_key_idx_match(prev, acc, keyv@);
    lemma_first_key_idx(prev, keyv@);
    let f = first_key_idx(prev, keyv@);
    let macc = m_upsert(acc, keyv@, vm);
    if f >= 0 {
        assert(macc == acc.update(f, (keyv@, vm)));
        assert forall|k: int|
            0 <= k < macc.len() implies (#[trigger] newp[k]).0@ == macc[k].0 && m_matches(
            newp[k].1,
            macc[k].1,
        ) by {
            if k != f {
                assert(newp[k] == prev[k]);
                assert(macc[k] == acc[k]);
            }
        }
    } else {
        assert(macc == acc.push((keyv@, vm)));
        assert forall|k: int|
            0 <= k < macc.len() implies (#[trigger] newp[k]).0@ == macc[k].0 && m_matches(
            newp[k].1,
            macc[k].1,
        ) by {
            if k < prev.len() {
                assert(newp[k] == prev[k]);
                assert(macc[k] == acc[k]);
            }
        }
    }
}

/// Matching fields hold the same names.
pub proof fn lemma_has_key_match(
    pairs: Seq<(Vec<u8>, Value)>,
    acc: Seq<(Seq<u8>, MVal)>,
    nm: Seq<u8>,
)
    requires
        pairs_match(pairs, acc),
    ensures
        has_key(pairs, nm) == m_has_key(acc, nm),
{
    if has_key(pairs, nm) {
        let k = choose|k: int| 0 <= k < pairs.len() && (#[trigger] pairs[k]).0@ == nm;
        assert(acc[k].0 == nm);
    }
    if m_has_key(acc, nm) {
        let k = choose|k: int| 0 <= k < acc.len() && (#[trigger] acc[k]).0 == nm;
        assert(pairs[k].0@ == nm);
    }
}

} // verus!

verus! {

/// `accept_from` depends only on the patterns' bytes.
pub proof fn lemma_accept_from_congr(p1: Seq<Vec<u8>>, p2: Seq<Vec<u8>>, w: Seq<u8>, from: int)
    requires
        p1.len() == p2.len(),
        forall|k: int| 0 <= k < p1.len() ==> (#[trigger] p1[k])@ == p2[k]@,
    ensures
        accept_from(p1, w, from) == accept_from(p2, w, from),
    decreases w.len() - from,
{
    if from >= 0 {
        crate::structural::matcher::lemma_find_fn_congr(p1, p2, w, from);
        match crate::structural::matcher::find_fn(p1, w, from) {
            Option::None => {},
            Option::Some((k, s)) => {
                if 0 <= k < p1.len() {
                    let e = s + p1[k]@.len();
                    let ci = ascii_ws_end(w, e);
                    if !(ci < w.len() && w[ci] == 58) {
                        if from < e <= w.len() {
                            lemma_accept_from_congr(p1, p2, w, e);
                        } else if from + 1 <= w.len() {
                            lemma_accept_from_congr(p1, p2, w, from + 1);
                        }
                    }
                }
            },
        }
    }
}

/// Two arenas whose nodes are pairwise equivalent drive the interpreter
/// to the same outcome and position on every buffer: parsing is a
/// function of the compiled content alone, not of its representation.
pub proof fn lemma_sp_node_congr(
    n1: Seq<SchemaNode>,
    n2: Seq<SchemaNode>,
    idx: int,
    buf: Seq<u8>,
    pos: int,
    depth: int,
)
    requires
        n1.len() == n2.len(),
        forall|i: int|
            0 <= i < n1.len() ==> crate::structural::compiler::nodes_equiv(
                #[trigger] n1[i],
                n2[i],
            ),
    ensures
        sp_node(n1, idx, buf, pos, depth) == sp_node(n2, idx, buf, pos, depth),
    decreases MAX_DEPTH as int + 1 - depth, buf.len() - pos, 2int,
{
    if depth <= MAX_DEPTH as int && 0 <= idx < n1.len() {
        let pr = skip_ws_end(buf, pos);
        let p = if pos <= pr && pr <= buf.len() {
            pr
        } else {
            pos
        };
        assert(crate::structural::compiler::nodes_equiv(n1[idx], n2[idx]));
        match (n1[idx], n2[idx]) {
            (SchemaNode::Array(c1), SchemaNode::Array(c2)) => {
                lemma_sp_array_congr(n1, n2, idx, buf, p, depth);
            },
            (SchemaNode::Object { .. }, SchemaNode::Object { .. }) => {
                lemma_sp_object_congr(n1, n2, idx, buf, p, depth);
            },
            _ => {},
        }
    }
}

/// The object case of `lemma_sp_node_congr`.
pub proof fn lemma_sp_object_congr(
    n1: Seq<SchemaNode>,
    n2: Seq<SchemaNode>,
    idx: int,
    buf: Seq<u8>,
    p: int,
    depth: int,
)
    requires
        n1.len() == n2.len(),
        forall|i: int|
            0 <= i < n1.len() ==> crate::structural::compiler::nodes_equiv(
                #[trigger] n1[i],
                n2[i],
            ),
    ensures
        sp_object(n1, idx, buf, p, depth) == sp_object(n2, idx, buf, p, depth),
    decreases MAX_DEPTH as int + 1 - depth, buf.len() - p, 1int,
{
    if 0 <= idx < n1.len() {
        assert(crate::structural::compiler::nodes_equiv(n1[idx], n2[idx]));
        match (n1[idx], n2[idx]) {
            (
                SchemaNode::Object { fields: f1, required: r1, matcher: m1 },
                SchemaNode::Object { fields: f2, required: r2, matcher: m2 },
            ) => {
                let pb0 = after_open(buf, p, 123u8);
                let pb = if p <= pb0 && pb0 <= buf.len() {
                    pb0
                } else {
                    p
                };
                lemma_sp_obj_fields_congr(n1, n2, idx, buf, pb, depth, Seq::empty());
                match sp_obj_fields(n1, idx, buf, pb, depth, Seq::empty()) {
                    (MOut::MOk(MVal::MObj(acc)), fin) => {
                        lemma_first_missing_congr(r1@, r2@, acc, 0);
                    },
                    _ => {},
                }
            },
            _ => {},
        }
    }
}

/// `m_first_missing` depends only on the required names' bytes.
pub proof fn lemma_first_missing_congr(
    r1: Seq<Vec<u8>>,
    r2: Seq<Vec<u8>>,
    acc: Seq<(Seq<u8>, MVal)>,
    rq: int,
)
    requires
        r1.len() == r2.len(),
        forall|j: int| 0 <= j < r1.len() ==> (#[trigger] r1[j])@ == r2[j]@,
    ensures
        m_first_missing(r1, acc, rq) == m_first_missing(r2, acc, rq),
    decreases r1.len() - rq,
{
    if 0 <= rq < r1.len() {
        assert(r1[rq]@ == r2[rq]@);
        if m_has_key(acc, r1[rq]@) {
            lemma_first_missing_congr(r1, r2, acc, rq + 1);
        }
    }
}

/// The field-discovery case of `lemma_sp_node_congr`.
pub proof fn lemma_sp_obj_fields_congr(
    n1: Seq<SchemaNode>,
    n2: Seq<SchemaNode>,
    idx: int,
    buf: Seq<u8>,
    pos: int,
    depth: int,
    acc: Seq<(Seq<u8>, MVal)>,
)
    requires
        n1.len() == n2.len(),
        forall|i: int|
            0 <= i < n1.len() ==> crate::structural::compiler::nodes_equiv(
                #[trigger] n1[i],
                n2[i],
            ),
    ensures
        sp_obj_fields(n1, idx, buf, pos, depth, acc) == sp_obj_fields(n2, idx, buf, pos, depth, acc),
    decreases MAX_DEPTH as int + 1 - depth, buf.len() - pos, 0int,
{
    if depth <= MAX_DEPTH as int && 0 <= idx < n1.len() {
        assert(crate::structural::compiler::nodes_equiv(n1[idx], n2[idx]));
        match (n1[idx], n2[idx]) {
            (
                SchemaNode::Object { fields: f1, required: r1, matcher: m1 },
                SchemaNode::Object { fields: f2, required: r2, matcher: m2 },
            ) => {
                let p1r = skip_ws_end(buf, pos);
                let p1 = if pos <= p1r && p1r <= buf.len() {
                    p1r
                } else {
                    pos
                };
                if !(p1 >= buf.len() || buf[p1] == 125) {
                    let w = buf.subrange(p1, buf.len() as int);
                    lemma_accept_from_congr(m1.pats(), m2.pats(), w, 0);
                    match accept_from(m1.pats(), w, 0) {
                        Option::None => {},
                        Option::Some((k, s)) => {
                            if 0 <= k < m1.pats().len() {
                                assert(m1.pats()[k]@ == m2.pats()[k]@);
                                let plen = m1.pats()[k]@.len() as int;
                                let e = s + plen;
                                let ci = ascii_ws_end(w, e);
                                let ca0 = p1 + ci + 1;
                                let ca = if p1 < ca0 && ca0 <= buf.len() {
                                    ca0
                                } else {
                                    p1 + 1
                                };
                                let keynm = m1.pats()[k]@.subrange(1, plen - 1);
                                crate::structural::schema::lemma_lookup_congr(
                                    f1.pairs(),
                                    f2.pairs(),
                                    keynm,
                                );
                                match lookup_pairs(f1.pairs(), keynm) {
                                    Option::None => {},
                                    Option::Some(c) => {
                                        lemma_sp_node_congr(
                                            n1,
                                            n2,
                                            c as int,
                                            buf,
                                            ca,
                                            depth + 1,
                                        );
                                        let cr = sp_node(n1, c as int, buf, ca, depth + 1);
                                        match cr.0 {
                                            MOut::MFail(_) => {},
                                            MOut::MOk(vm) => {
                                                let acc2 = m_upsert(acc, keynm, vm);
                                                let np0 = if ca <= cr.1 && cr.1 <= buf.len() {
                                                    cr.1
                                                } else {
                                                    ca
                                                };
                                                lemma_sp_obj_fields_congr(
                                                    n1,
                                                    n2,
                                                    idx,
                                                    buf,
                                                    obj_next_pos(buf, np0),
                                                    depth,
                                                    acc2,
                                                );
                                            },
                                        }
                                    },
                                }
                            }
                        },
                    }
                }
            },
            _ => {},
        }
    }
}

/// The array case of `lemma_sp_node_congr`.
pub proof fn lemma_sp_array_congr(
    n1: Seq<SchemaNode>,
    n2: Seq<SchemaNode>,
    idx: int,
    buf: Seq<u8>,
    p: int,
    depth: int,
)
    requires
        n1.len() == n2.len(),
        forall|i: int|
            0 <= i < n1.len() ==> crate::structural::compiler::nodes_equiv(
                #[trigger] n1[i],
                n2[i],
            ),
    ensures
        sp_array(n1, idx, buf, p, depth) == sp_array(n2, idx, buf, p, depth),
    decreases MAX_DEPTH as int + 1 - depth, buf.len() - p, 1int,
{
    if 0 <= idx < n1.len() {
        assert(crate::structural::compiler::nodes_equiv(n1[idx], n2[idx]));
        match (n1[idx], n2[idx]) {
            (SchemaNode::Array(c1), SchemaNode::Array(c2)) => {
                let pb0 = after_open(buf, p, 91u8);
                let pb = if p <= pb0 && pb0 <= buf.len() {
                    pb0
                } else {
                    p
                };
                lemma_sp_arr_elems_congr(n1, n2, c1 as int, buf, pb, depth, Seq::empty());
            },
            _ => {},
        }
    }
}

/// The element-loop case of `lemma_sp_node_congr`.
pub proof fn lemma_sp_arr_elems_congr(
    n1: Seq<SchemaNode>,
    n2: Seq<SchemaNode>,
    c: int,
    buf: Seq<u8>,
    pos: int,
    depth: int,
    elems: Seq<MVal>,
)
    requires
        n1.len() == n2.len(),
        forall|i: int|
            0 <= i < n1.len() ==> crate::structural::compiler::nodes_equiv(
                #[trigger] n1[i],
                n2[i],
            ),
    ensures
        sp_arr_elems(n1, c, buf, pos, depth, elems) == sp_arr_elems(n2, c, buf, pos, depth, elems),
    decreases MAX_DEPTH as int + 1 - depth, buf.len() - pos, 0int,
{
    if depth <= MAX_DEPTH as int {
        let p1r = skip_ws_end(buf, pos);
        let p1 = if pos <= p1r && p1r <= buf.len() {
            p1r
        } else {
            pos
        };
        if !(p1 >= buf.len() || buf[p1] == 93) {
            lemma_sp_node_congr(n1, n2, c, buf, p1, depth + 1);
            let cr = sp_node(n1, c, buf, p1, depth + 1);
            match cr.0 {
                MOut::MFail(_) => {},
                MOut::MOk(vm) => {
                    let np0 = if p1 < cr.1 && cr.1 <= buf.len() {
                        cr.1
                    } else {
                        p1 + 1
                    };
                    lemma_sp_arr_elems_congr(
                        n1,
                        n2,
                        c,
                        buf,
                        obj_next_pos(buf, np0),
                        depth,
                        elems.push(vm),
                    );
                },
            }
        }
    }
}

} // verus!
