//! Backend messages as bytes: a tag byte, a big-endian `i32` length that counts
//! itself and the body, then the body.

use vstd::prelude::*;

use crate::text::{
    chars_of, concat_chars, decimal, format_decimal, is_ascii_digit, lemma_decimal_digits,
    lemma_decimal_len_u64, string_from_chars,
};
use vstd::utf8::{is_ascii_chars, is_ascii_chars_encode_utf8};

verus! {

broadcast use vstd::string::group_string_axioms;

/// Big-endian bytes of a 16-bit two's-complement value.
pub open spec fn be16(v: int) -> Seq<u8> {
    let u = if v < 0 {
        v + 65536
    } else {
        v
    };
    seq![(u / 256) as u8, (u % 256) as u8]
}

/// Big-endian bytes of a 32-bit two's-complement value.
pub open spec fn be32(v: int) -> Seq<u8> {
    let u = if v < 0 {
        v + 4294967296
    } else {
        v
    };
    seq![(u / 16777216) as u8, ((u / 65536) % 256) as u8, ((u / 256) % 256) as u8, (u % 256) as u8]
}

/// A whole message: tag, length (body length plus the 4 length bytes), body.
pub open spec fn frame(tag: u8, body: Seq<u8>) -> Seq<u8> {
    seq![tag] + be32(body.len() + 4 as int) + body
}

/// The UTF-8 bytes of a text.
pub open spec fn utf8(s: Seq<char>) -> Seq<u8> {
    vstd::utf8::encode_utf8(s)
}

/// A text followed by a NUL byte.
pub open spec fn cstr(s: Seq<char>) -> Seq<u8> {
    utf8(s).push(0)
}

/// The largest body a frame can carry.
pub open spec fn body_fits(body: Seq<u8>) -> bool {
    body.len() + 4 <= i32::MAX
}

pub fn push_be16(out: &mut Vec<u8>, v: i16)
    ensures
        final(out)@ == old(out)@ + be16(v as int),
{
    let u: u32 = if v < 0 {
        (v as i32 + 65536) as u32
    } else {
        v as u32
    };
    out.push((u / 256) as u8);
    out.push((u % 256) as u8);
    assert(final(out)@ =~= old(out)@ + be16(v as int));
}

pub fn push_be32(out: &mut Vec<u8>, v: i32)
    ensures
        final(out)@ == old(out)@ + be32(v as int),
{
    let u: u64 = if v < 0 {
        (v as i64 + 4294967296) as u64
    } else {
        v as u64
    };
    out.push((u / 16777216) as u8);
    out.push(((u / 65536) % 256) as u8);
    out.push(((u / 256) % 256) as u8);
    out.push((u % 256) as u8);
    assert(final(out)@ =~= old(out)@ + be32(v as int));
}

pub fn push_bytes(out: &mut Vec<u8>, b: &[u8])
    ensures
        final(out)@ == old(out)@ + b@,
{
    let mut i: usize = 0;
    while i < b.len()
        invariant
            i <= b@.len(),
            out@ == old(out)@ + b@.take(i as int),
        decreases b.len() - i,
    {
        out.push(b[i]);
        i += 1;
        assert(out@ =~= old(out)@ + b@.take(i as int));
    }
    assert(b@.take(b@.len() as int) =~= b@);
}

/// Appends the UTF-8 bytes of `s`.
pub fn push_str(out: &mut Vec<u8>, s: &str)
    ensures
        final(out)@ == old(out)@ + utf8(s@),
{
    push_bytes(out, s.as_bytes());
}

/// Appends the UTF-8 bytes of `s` and a NUL byte.
pub fn push_cstr(out: &mut Vec<u8>, s: &str)
    ensures
        final(out)@ == old(out)@ + cstr(s@),
{
    push_str(out, s);
    out.push(0);
    assert(final(out)@ =~= old(out)@ + cstr(s@));
}

/// A whole message around `body`.
pub fn frame_message(tag: u8, body: &[u8]) -> (r: Vec<u8>)
    requires
        body_fits(body@),
    ensures
        r@ == frame(tag, body@),
{
    let mut out: Vec<u8> = Vec::new();
    out.push(tag);
    push_be32(&mut out, (body.len() as i32) + 4);
    push_bytes(&mut out, body);
    assert(out@ =~= frame(tag, body@));
    out
}

/// The error given for a message whose length does not fit the `i32` length field.
pub open spec fn too_large_message() -> Seq<char> {
    "message exceeds protocol length limit"@
}

/// A whole message around `body`, or an error when the body is too large to frame.
pub fn checked_frame(tag: u8, body: &[u8]) -> (r: Result<Vec<u8>, String>)
    ensures
        body_fits(body@) ==> (r matches Ok(v) && v@ == frame(tag, body@)),
        !body_fits(body@) ==> (r matches Err(m) && m@ == too_large_message()),
{
    if body.len() > 2147483643 {
        return Err("message exceeds protocol length limit".to_string());
    }
    Ok(frame_message(tag, body))
}

pub fn parse_complete() -> (r: Vec<u8>)
    ensures
        r@ == frame(0x31, seq![]),
{
    let body: Vec<u8> = Vec::new();
    frame_message(0x31, &body)
}

pub fn bind_complete() -> (r: Vec<u8>)
    ensures
        r@ == frame(0x32, seq![]),
{
    let body: Vec<u8> = Vec::new();
    frame_message(0x32, &body)
}

pub fn close_complete() -> (r: Vec<u8>)
    ensures
        r@ == frame(0x33, seq![]),
{
    let body: Vec<u8> = Vec::new();
    frame_message(0x33, &body)
}

/// `NoData` (`n`).
pub fn no_data() -> (r: Vec<u8>)
    ensures
        r@ == frame(0x6e, seq![]),
{
    let body: Vec<u8> = Vec::new();
    frame_message(0x6e, &body)
}

/// `PortalSuspended` (`s`).
pub fn portal_suspended() -> (r: Vec<u8>)
    ensures
        r@ == frame(0x73, seq![]),
{
    let body: Vec<u8> = Vec::new();
    frame_message(0x73, &body)
}

/// `ReadyForQuery` (`Z`) with transaction status idle (`I`).
pub fn ready_for_query() -> (r: Vec<u8>)
    ensures
        r@ == frame(0x5a, seq![0x49u8]),
{
    let mut body: Vec<u8> = Vec::new();
    body.push(0x49);
    frame_message(0x5a, &body)
}

/// `AuthenticationCleartextPassword` (`R`, code 3).
pub fn auth_request_cleartext() -> (r: Vec<u8>)
    ensures
        r@ == frame(0x52, be32(3)),
{
    let mut body: Vec<u8> = Vec::new();
    push_be32(&mut body, 3);
    frame_message(0x52, &body)
}

/// `AuthenticationOk` (`R`, code 0).
pub fn auth_ok() -> (r: Vec<u8>)
    ensures
        r@ == frame(0x52, be32(0)),
{
    let mut body: Vec<u8> = Vec::new();
    push_be32(&mut body, 0);
    frame_message(0x52, &body)
}

/// `BackendKeyData` (`K`).
pub fn backend_key_data(pid: i32, secret: i32) -> (r: Vec<u8>)
    ensures
        r@ == frame(0x4b, be32(pid as int) + be32(secret as int)),
{
    let mut body: Vec<u8> = Vec::new();
    push_be32(&mut body, pid);
    push_be32(&mut body, secret);
    frame_message(0x4b, &body)
}

/// `ParameterStatus` (`S`).
pub fn parameter_status(key: &str, value: &str) -> (r: Vec<u8>)
    requires
        body_fits(cstr(key@) + cstr(value@)),
    ensures
        r@ == frame(0x53, cstr(key@) + cstr(value@)),
{
    let mut body: Vec<u8> = Vec::new();
    push_cstr(&mut body, key);
    push_cstr(&mut body, value);
    assert(body@ =~= cstr(key@) + cstr(value@));
    frame_message(0x53, &body)
}

/// `CommandComplete` (`C`) with a command tag.
pub fn command_complete(tag: &str) -> (r: Vec<u8>)
    requires
        body_fits(cstr(tag@)),
    ensures
        r@ == frame(0x43, cstr(tag@)),
{
    let mut body: Vec<u8> = Vec::new();
    push_cstr(&mut body, tag);
    assert(body@ =~= cstr(tag@));
    frame_message(0x43, &body)
}

/// The body of an `ErrorResponse`: severity `ERROR`, SQLSTATE code and message fields.
pub open spec fn error_body(sql_state: Seq<char>, message: Seq<char>) -> Seq<u8> {
    seq![0x53u8] + cstr("ERROR"@) + seq![0x43u8] + cstr(sql_state) + seq![0x4du8] + cstr(message)
        + seq![0u8]
}

/// `ErrorResponse` (`E`).
pub fn error_response(sql_state: &str, message: &str) -> (r: Vec<u8>)
    requires
        body_fits(error_body(sql_state@, message@)),
    ensures
        r@ == frame(0x45, error_body(sql_state@, message@)),
{
    let mut body: Vec<u8> = Vec::new();
    body.push(0x53);
    push_cstr(&mut body, "ERROR");
    body.push(0x43);
    push_cstr(&mut body, sql_state);
    body.push(0x4d);
    push_cstr(&mut body, message);
    body.push(0);
    assert(body@ =~= error_body(sql_state@, message@));
    frame_message(0x45, &body)
}

/// `ErrorResponse` (`E`) for any message: `None` when the body is too long to frame.
pub fn error_frame(sql_state: &str, message: &str) -> (r: Option<Vec<u8>>)
    ensures
        body_fits(error_body(sql_state@, message@)) ==> (r matches Some(b) && b@ == frame(
            0x45,
            error_body(sql_state@, message@),
        )),
        !body_fits(error_body(sql_state@, message@)) ==> r is None,
{
    let mut body: Vec<u8> = Vec::new();
    body.push(0x53);
    push_cstr(&mut body, "ERROR");
    body.push(0x43);
    push_cstr(&mut body, sql_state);
    body.push(0x4d);
    push_cstr(&mut body, message);
    body.push(0);
    assert(body@ =~= error_body(sql_state@, message@));
    if body.len() > 2147483643 {
        None
    } else {
        Some(frame_message(0x45, &body))
    }
}

/// The body of a `ParameterDescription`: the count as `i16`, then each type OID.
pub open spec fn oids_bytes(oids: Seq<i32>) -> Seq<u8>
    decreases oids.len(),
{
    if oids.len() == 0 {
        seq![]
    } else {
        oids_bytes(oids.drop_last()) + be32(oids.last() as int)
    }
}

pub open spec fn parameter_description_body(oids: Seq<i32>) -> Seq<u8> {
    be16((oids.len() as i16) as int) + oids_bytes(oids)
}

/// `ParameterDescription` (`t`).
pub fn parameter_description(oids: &[i32]) -> (r: Vec<u8>)
    requires
        body_fits(parameter_description_body(oids@)),
    ensures
        r@ == frame(0x74, parameter_description_body(oids@)),
{
    let mut body: Vec<u8> = Vec::new();
    push_be16(&mut body, oids.len() as i16);
    let mut i: usize = 0;
    while i < oids.len()
        invariant
            i <= oids@.len(),
            body@ == be16((oids@.len() as i16) as int) + oids_bytes(oids@.take(i as int)),
        decreases oids.len() - i,
    {
        let ghost before = body@;
        push_be32(&mut body, oids[i]);
        proof {
            let t = oids@.take(i + 1);
            assert(t.drop_last() =~= oids@.take(i as int));
        }
        i += 1;
        assert(body@ =~= be16((oids@.len() as i16) as int) + oids_bytes(oids@.take(i as int)));
    }
    assert(oids@.take(oids@.len() as int) =~= oids@);
    frame_message(0x74, &body)
}

/// One column of a `RowDescription`: name, no table (0, 0), type OID, variable size
/// (-1), no type modifier (-1), text format (0).
pub open spec fn column_bytes(name: Seq<char>, oid: i32) -> Seq<u8> {
    cstr(name) + be32(0) + be16(0) + be32(oid as int) + be16(-1) + be32(-1) + be16(0)
}

pub open spec fn columns_bytes(cols: Seq<(Seq<char>, i32)>) -> Seq<u8>
    decreases cols.len(),
{
    if cols.len() == 0 {
        seq![]
    } else {
        columns_bytes(cols.drop_last()) + column_bytes(cols.last().0, cols.last().1)
    }
}

pub open spec fn row_description_body(cols: Seq<(Seq<char>, i32)>) -> Seq<u8> {
    be16((cols.len() as i16) as int) + columns_bytes(cols)
}

pub open spec fn cols_view(cols: Seq<(String, i32)>) -> Seq<(Seq<char>, i32)> {
    cols.map_values(|c: (String, i32)| (c.0@, c.1))
}

/// `RowDescription` (`T`).
pub fn row_description(cols: &[(String, i32)]) -> (r: Vec<u8>)
    requires
        body_fits(row_description_body(cols_view(cols@))),
    ensures
        r@ == frame(0x54, row_description_body(cols_view(cols@))),
{
    let ghost cv = cols_view(cols@);
    let mut body: Vec<u8> = Vec::new();
    push_be16(&mut body, cols.len() as i16);
    let mut i: usize = 0;
    while i < cols.len()
        invariant
            i <= cols@.len(),
            cv == cols_view(cols@),
            body@ == be16((cols@.len() as i16) as int) + columns_bytes(cv.take(i as int)),
        decreases cols.len() - i,
    {
        let ghost before = body@;
        push_cstr(&mut body, cols[i].0.as_str());
        push_be32(&mut body, 0);
        push_be16(&mut body, 0);
        push_be32(&mut body, cols[i].1);
        push_be16(&mut body, -1);
        push_be32(&mut body, -1);
        push_be16(&mut body, 0);
        proof {
            let t = cv.take(i + 1);
            assert(t.drop_last() =~= cv.take(i as int));
            assert(t.last() == (cols@[i as int].0@, cols@[i as int].1));
        }
        i += 1;
        assert(body@ =~= be16((cols@.len() as i16) as int) + columns_bytes(cv.take(i as int)));
    }
    assert(cv.take(cols@.len() as int) =~= cv);
    frame_message(0x54, &body)
}

/// The cells of a `DataRow`: each the byte length as `i32`, then the bytes.
pub open spec fn values_bytes(values: Seq<Seq<char>>) -> Seq<u8>
    decreases values.len(),
{
    if values.len() == 0 {
        seq![]
    } else {
        values_bytes(values.drop_last()) + be32((utf8(values.last()).len() as i32) as int) + utf8(
            values.last(),
        )
    }
}

pub open spec fn data_row_body(values: Seq<Seq<char>>) -> Seq<u8> {
    be16((values.len() as i16) as int) + values_bytes(values)
}

pub open spec fn texts_view(v: Seq<String>) -> Seq<Seq<char>> {
    v.map_values(|s: String| s@)
}

/// `DataRow` (`D`).
pub fn data_row(values: &[String]) -> (r: Vec<u8>)
    requires
        body_fits(data_row_body(texts_view(values@))),
    ensures
        r@ == frame(0x44, data_row_body(texts_view(values@))),
{
    let ghost tv = texts_view(values@);
    let mut body: Vec<u8> = Vec::new();
    push_be16(&mut body, values.len() as i16);
    let mut i: usize = 0;
    while i < values.len()
        invariant
            i <= values@.len(),
            tv == texts_view(values@),
            body@ == be16((values@.len() as i16) as int) + values_bytes(tv.take(i as int)),
        decreases values.len() - i,
    {
        let ghost before = body@;
        let bytes = values[i].as_str().as_bytes();
        push_be32(&mut body, bytes.len() as i32);
        push_bytes(&mut body, bytes);
        proof {
            let t = tv.take(i + 1);
            assert(t.drop_last() =~= tv.take(i as int));
            assert(t.last() == values@[i as int]@);
        }
        i += 1;
        assert(body@ =~= be16((values@.len() as i16) as int) + values_bytes(tv.take(i as int)));
    }
    assert(tv.take(values@.len() as int) =~= tv);
    frame_message(0x44, &body)
}

/// The command tag that reports a `SELECT` of `n` rows.
pub open spec fn select_tag(n: nat) -> Seq<char> {
    "SELECT "@ + decimal(n)
}

pub fn select_tag_text(n: usize) -> (r: String)
    ensures
        r@ == select_tag(n as nat),
{
    string_from_chars(&concat_chars(&chars_of("SELECT "), &format_decimal(n as u64)))
}

} // verus!

verus! {

/// A `SELECT n` tag always fits a frame.
pub proof fn lemma_select_tag_fits(n: nat)
    requires
        n <= u64::MAX,
    ensures
        body_fits(cstr(select_tag(n))),
        utf8(select_tag(n)).len() <= 27,
{
    reveal_strlit("SELECT ");
    lemma_decimal_digits(n);
    lemma_decimal_len_u64(n);
    let t = select_tag(n);
    assert forall|i: int| 0 <= i < t.len() implies '\0' <= #[trigger] t[i] <= '\u{7f}' by {
        if i >= 7 {
            assert(t[i] == decimal(n)[i - 7]);
            assert(is_ascii_digit(decimal(n)[i - 7]));
        }
    }
    assert(is_ascii_chars(t));
    is_ascii_chars_encode_utf8(t);
}

} // verus!
