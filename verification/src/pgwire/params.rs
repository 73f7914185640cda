//! Bind parameters (format codes and decoding), type OIDs advertised to clients,
//! and session-lifecycle statements that are answered without execution.

use vstd::prelude::*;
use vstd::utf8::{decode_utf8, valid_utf8};

use crate::pgwire::message::{be_i32, decode_text, i32_from_be};
use crate::text::{
    chars_of, concat_chars, format_signed_decimal, lower, lower_chars, signed_decimal,
    starts_with, starts_with_chars, string_from_chars, trim, trim_chars,
};
use crate::pgwire::message::chars_eq;

verus! {

broadcast use vstd::string::group_string_axioms;

/// Type OID for "unspecified" in a Parse message.
pub const UNSPECIFIED_OID: i32 = 0;

/// Type OID of `int4`.
pub const INT4_OID: i32 = 23;

/// Type OID of `text`.
pub const TEXT_OID: i32 = 25;

/// Type OID of `float8`.
pub const FLOAT8_OID: i32 = 701;

/// The format code that applies to parameter `idx`: none given means text (0), one
/// given applies to all, otherwise one per parameter.
pub open spec fn format_code_for(codes: Seq<i16>, idx: int) -> Option<i16> {
    if codes.len() == 0 {
        Some(0)
    } else if codes.len() == 1 {
        Some(codes[0])
    } else if 0 <= idx < codes.len() {
        Some(codes[idx])
    } else {
        None
    }
}

pub fn param_format_code(codes: &[i16], param_idx: usize) -> (r: Result<i16, String>)
    ensures
        match format_code_for(codes@, param_idx as int) {
            Some(c) => r == Ok::<i16, String>(c),
            None => r matches Err(m) && m@ == "missing parameter format code"@,
        },
{
    if codes.len() == 0 {
        Ok(0)
    } else if codes.len() == 1 {
        Ok(codes[0])
    } else if param_idx < codes.len() {
        Ok(codes[param_idx])
    } else {
        Err("missing parameter format code".to_string())
    }
}

/// The text a bound parameter stands for: text format (0) is UTF-8; binary format (1)
/// is a big-endian `int4` when it has 4 bytes, else UTF-8 text. `None` when the bytes
/// are not valid UTF-8 or the format code is unknown.
pub open spec fn decoded_param(fmt: i16, bytes: Seq<u8>) -> Option<Seq<char>> {
    if fmt == 1 && bytes.len() == 4 {
        Some(signed_decimal(be_i32(bytes[0], bytes[1], bytes[2], bytes[3])))
    } else if (fmt == 0 || fmt == 1) && valid_utf8(bytes) {
        Some(decode_utf8(bytes))
    } else {
        None
    }
}

pub open spec fn unsupported_format_message(fmt: i16) -> Seq<char> {
    "unsupported parameter format code "@ + signed_decimal(fmt as int)
}

pub fn decode_param(param_idx: usize, fmt: i16, bytes: &[u8]) -> (r: Result<String, String>)
    ensures
        match decoded_param(fmt, bytes@) {
            Some(s) => r matches Ok(v) && v@ == s,
            None => r is Err,
        },
        fmt != 0 && fmt != 1 ==> (r matches Err(m) && m@ == unsupported_format_message(fmt)),
{
    if fmt == 0 {
        decode_text(bytes)
    } else if fmt == 1 {
        if bytes.len() == 4 {
            let v = i32_from_be(bytes[0], bytes[1], bytes[2], bytes[3]);
            Ok(string_from_chars(&format_signed_decimal(v as i64)))
        } else {
            decode_text(bytes)
        }
    } else {
        let m = concat_chars(
            &chars_of("unsupported parameter format code "),
            &format_signed_decimal(fmt as i64),
        );
        Err(string_from_chars(&m))
    }
}

/// A statement prepared by a Parse message.
#[derive(Debug, Clone)]
pub struct PreparedStatement {
    pub query: String,
    /// Type OIDs from the Parse message (0 means unspecified, treated as text).
    pub param_type_oids: Vec<i32>,
}

/// The type OID advertised for parameter `i`: text when the client gave no types or
/// left this one unspecified, else the client's type.
pub open spec fn resolved_oid(oids: Seq<i32>, i: int) -> i32 {
    if oids.len() == 0 {
        TEXT_OID
    } else if 0 <= i < oids.len() && oids[i] != UNSPECIFIED_OID {
        oids[i]
    } else {
        TEXT_OID
    }
}

pub fn resolved_statement_param_oids(prep: &PreparedStatement, n_params: i16) -> (r: Vec<i32>)
    requires
        n_params >= 0,
    ensures
        r@.len() == n_params,
        forall|i: int| 0 <= i < n_params ==> r@[i] == resolved_oid(prep.param_type_oids@, i),
{
    let n = n_params as usize;
    let mut out: Vec<i32> = Vec::new();
    let mut i: usize = 0;
    while i < n
        invariant
            i <= n,
            n == n_params,
            out@.len() == i,
            forall|k: int| 0 <= k < i ==> out@[k] == resolved_oid(prep.param_type_oids@, k),
        decreases n - i,
    {
        let oid = if prep.param_type_oids.len() == 0 {
            TEXT_OID
        } else {
            let o = if i < prep.param_type_oids.len() {
                prep.param_type_oids[i]
            } else {
                UNSPECIFIED_OID
            };
            if o == UNSPECIFIED_OID {
                TEXT_OID
            } else {
                o
            }
        };
        out.push(oid);
        i += 1;
    }
    out
}

/// The type OID of a string cell: always `text`, since the compute layer renders
/// most scalars as strings.
pub fn cell_string_type_oid(s: &str) -> (r: i32)
    ensures
        r == TEXT_OID,
{
    TEXT_OID
}

/// `SET ...`, `SHOW ...`, `BEGIN`, `COMMIT` and `ROLLBACK` (any case, surrounding white
/// space ignored) are acknowledged without execution.
pub open spec fn session_sql(sql: Seq<char>) -> bool {
    let s = lower(trim(sql));
    ||| starts_with(s, "set "@)
    ||| s == "begin"@
    ||| s == "commit"@
    ||| s == "rollback"@
    ||| starts_with(s, "show "@)
}

/// The command tag that acknowledges a session-lifecycle statement.
pub open spec fn session_tag(sql: Seq<char>) -> Seq<char> {
    let s = lower(trim(sql));
    if starts_with(s, "set "@) {
        "SET"@
    } else if s == "begin"@ {
        "BEGIN"@
    } else if s == "commit"@ {
        "COMMIT"@
    } else if s == "rollback"@ {
        "ROLLBACK"@
    } else {
        "SHOW"@
    }
}

pub fn is_session_sql(sql: &str) -> (r: bool)
    ensures
        r == session_sql(sql@),
{
    let s = lower_chars(&trim_chars(&chars_of(sql)));
    starts_with_chars(&s, &chars_of("set ")) || chars_eq(&s, &chars_of("begin")) || chars_eq(
        &s,
        &chars_of("commit"),
    ) || chars_eq(&s, &chars_of("rollback")) || starts_with_chars(&s, &chars_of("show "))
}

pub fn command_tag_for_session_sql(sql: &str) -> (r: &'static str)
    ensures
        r@ == session_tag(sql@),
{
    let s = lower_chars(&trim_chars(&chars_of(sql)));
    if starts_with_chars(&s, &chars_of("set ")) {
        "SET"
    } else if chars_eq(&s, &chars_of("begin")) {
        "BEGIN"
    } else if chars_eq(&s, &chars_of("commit")) {
        "COMMIT"
    } else if chars_eq(&s, &chars_of("rollback")) {
        "ROLLBACK"
    } else {
        "SHOW"
    }
}

} // verus!
