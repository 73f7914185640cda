//! Reading frontend messages: big-endian integers, NUL-terminated strings and the
//! startup packet's key/value list.

use vstd::prelude::*;
use vstd::utf8::{decode_utf8, valid_utf8};

use crate::text::{chars_of, string_from_chars};

verus! {

broadcast use vstd::string::group_string_axioms;

/// The error of `std::str::from_utf8`.
#[verifier::external_type_specification]
#[verifier::external_body]
pub struct ExUtf8Error(std::str::Utf8Error);

/// `std::str::from_utf8`: succeeds exactly on valid UTF-8, and the text is then the
/// decoding of the bytes.
#[verifier::external_body]
fn str_from_utf8<'a>(bytes: &'a [u8]) -> (r: Result<&'a str, std::str::Utf8Error>)
    ensures
        r is Ok <==> valid_utf8(bytes@),
        r matches Ok(s) ==> s@ == decode_utf8(bytes@),
{
    std::str::from_utf8(bytes)
}

/// Valid UTF-8 bytes as an owned string.
fn utf8_to_string(bytes: &[u8]) -> (r: Result<String, std::str::Utf8Error>)
    ensures
        r is Ok <==> valid_utf8(bytes@),
        r matches Ok(s) ==> s@ == decode_utf8(bytes@),
{
    match str_from_utf8(bytes) {
        Ok(s) => Ok(s.to_string()),
        Err(e) => Err(e),
    }
}

/// UTF-8 bytes as a string; the error is the message of the UTF-8 error.
pub fn decode_text(bytes: &[u8]) -> (r: Result<String, String>)
    ensures
        r is Ok <==> valid_utf8(bytes@),
        r matches Ok(s) ==> s@ == decode_utf8(bytes@),
{
    match utf8_to_string(bytes) {
        Ok(s) => Ok(s),
        Err(e) => Err(e.to_string()),
    }
}

/// Big-endian two's-complement value of two bytes.
pub open spec fn be_i16(b0: u8, b1: u8) -> int {
    let u = b0 as int * 256 + b1 as int;
    if u >= 32768 {
        u - 65536
    } else {
        u
    }
}

/// Big-endian two's-complement value of four bytes.
pub open spec fn be_i32(b0: u8, b1: u8, b2: u8, b3: u8) -> int {
    let u = b0 as int * 16777216 + b1 as int * 65536 + b2 as int * 256 + b3 as int;
    if u >= 2147483648 {
        u - 4294967296
    } else {
        u
    }
}

/// `i16::from_be_bytes`.
pub fn i16_from_be(b0: u8, b1: u8) -> (v: i16)
    ensures
        v as int == be_i16(b0, b1),
{
    let u: i32 = (b0 as i32) * 256 + (b1 as i32);
    if u >= 32768 {
        (u - 65536) as i16
    } else {
        u as i16
    }
}

/// `i32::from_be_bytes`.
pub fn i32_from_be(b0: u8, b1: u8, b2: u8, b3: u8) -> (v: i32)
    ensures
        v as int == be_i32(b0, b1, b2, b3),
{
    let u: i64 = (b0 as i64) * 16777216 + (b1 as i64) * 65536 + (b2 as i64) * 256 + (b3 as i64);
    if u >= 2147483648 {
        (u - 4294967296) as i32
    } else {
        u as i32
    }
}

/// The first index at or after `i` that holds a NUL byte.
pub open spec fn first_nul(buf: Seq<u8>, i: int) -> Option<int>
    decreases buf.len() - i,
{
    if i < 0 || i >= buf.len() {
        None
    } else if buf[i] == 0 {
        Some(i)
    } else {
        first_nul(buf, i + 1)
    }
}

pub proof fn lemma_first_nul_bounds(buf: Seq<u8>, i: int)
    ensures
        first_nul(buf, i) matches Some(k) ==> 0 <= i <= k < buf.len() && buf[k] == 0,
    decreases buf.len() - i,
{
    if 0 <= i < buf.len() && buf[i] != 0 {
        lemma_first_nul_bounds(buf, i + 1);
    }
}

/// Position of the first NUL byte at or after `from`.
pub fn find_nul(buf: &[u8], from: usize) -> (r: Option<usize>)
    ensures
        r matches Some(k) ==> first_nul(buf@, from as int) == Some(k as int),
        r is None ==> first_nul(buf@, from as int) is None,
        r matches Some(k) ==> from <= k < buf@.len() && buf@[k as int] == 0,
{
    proof {
        lemma_first_nul_bounds(buf@, from as int);
    }
    let mut k = from;
    let n = buf.len();
    while k < n
        invariant
            n == buf@.len(),
            from <= k,
            first_nul(buf@, from as int) == first_nul(buf@, k as int),
        decreases n - k,
    {
        if buf[k] == 0 {
            return Some(k);
        }
        k += 1;
    }
    None
}

/// The NUL-terminated UTF-8 string at `pos`, and the position after its terminator.
pub open spec fn cstring_at(b: Seq<u8>, pos: int) -> Option<(Seq<char>, int)> {
    match first_nul(b, pos) {
        Some(k) => if valid_utf8(b.subrange(pos, k)) {
            Some((decode_utf8(b.subrange(pos, k)), k + 1))
        } else {
            None
        },
        None => None,
    }
}

/// The big-endian `i16` at `pos`.
pub open spec fn i16_at(b: Seq<u8>, pos: int) -> Option<int> {
    if 0 <= pos && pos + 2 <= b.len() {
        Some(be_i16(b[pos], b[pos + 1]))
    } else {
        None
    }
}

/// The big-endian `i32` at `pos`.
pub open spec fn i32_at(b: Seq<u8>, pos: int) -> Option<int> {
    if 0 <= pos && pos + 4 <= b.len() {
        Some(be_i32(b[pos], b[pos + 1], b[pos + 2], b[pos + 3]))
    } else {
        None
    }
}

/// A cursor over the payload of one frontend message.
pub struct MsgBuf<'a> {
    buf: &'a [u8],
    i: usize,
}

/// Why reading a field of a message failed.
pub open spec fn underflow_message() -> Seq<char> {
    "parse underflow"@
}

pub open spec fn missing_terminator_message() -> Seq<char> {
    "cstring terminator missing"@
}

impl<'a> MsgBuf<'a> {
    /// The payload bytes.
    pub closed spec fn bytes(&self) -> Seq<u8> {
        self.buf@
    }

    /// The read position.
    pub closed spec fn pos(&self) -> int {
        self.i as int
    }

    /// The read position never passes the end of the payload.
    pub closed spec fn wf(&self) -> bool {
        self.i <= self.buf@.len()
    }

    /// The read position lies within the payload.
    pub proof fn lemma_pos_bounds(&self)
        requires
            self.wf(),
        ensures
            0 <= self.pos() <= self.bytes().len(),
    {
    }

    pub fn new(buf: &'a [u8]) -> (r: Self)
        ensures
            r.wf(),
            r.bytes() == buf@,
            r.pos() == 0,
    {
        MsgBuf { buf, i: 0 }
    }

    /// Reads a big-endian `i16`; fails without moving when fewer than 2 bytes remain.
    pub fn read_i16(&mut self) -> (r: Result<i16, String>)
        requires
            old(self).wf(),
        ensures
            final(self).wf(),
            final(self).bytes() == old(self).bytes(),
            old(self).pos() + 2 <= old(self).bytes().len() ==> {
                &&& r matches Ok(v) && v as int == be_i16(
                    old(self).bytes()[old(self).pos()],
                    old(self).bytes()[old(self).pos() + 1],
                )
                &&& final(self).pos() == old(self).pos() + 2
            },
            old(self).pos() + 2 > old(self).bytes().len() ==> {
                &&& r matches Err(m) && m@ == underflow_message()
                &&& final(self).pos() == old(self).pos()
            },
            match i16_at(old(self).bytes(), old(self).pos()) {
                Some(v) => r matches Ok(x) && x as int == v && final(self).pos() == old(self).pos() + 2,
                None => r is Err && final(self).pos() == old(self).pos(),
            },
    {
        if self.buf.len() - self.i < 2 {
            return Err("parse underflow".to_string());
        }
        let v = i16_from_be(self.buf[self.i], self.buf[self.i + 1]);
        self.i = self.i + 2;
        Ok(v)
    }

    /// Reads a big-endian `i32`; fails without moving when fewer than 4 bytes remain.
    pub fn read_i32(&mut self) -> (r: Result<i32, String>)
        requires
            old(self).wf(),
        ensures
            final(self).wf(),
            final(self).bytes() == old(self).bytes(),
            old(self).pos() + 4 <= old(self).bytes().len() ==> {
                &&& r matches Ok(v) && v as int == be_i32(
                    old(self).bytes()[old(self).pos()],
                    old(self).bytes()[old(self).pos() + 1],
                    old(self).bytes()[old(self).pos() + 2],
                    old(self).bytes()[old(self).pos() + 3],
                )
                &&& final(self).pos() == old(self).pos() + 4
            },
            old(self).pos() + 4 > old(self).bytes().len() ==> {
                &&& r matches Err(m) && m@ == underflow_message()
                &&& final(self).pos() == old(self).pos()
            },
            match i32_at(old(self).bytes(), old(self).pos()) {
                Some(v) => r matches Ok(x) && x as int == v && final(self).pos() == old(self).pos() + 4,
                None => r is Err && final(self).pos() == old(self).pos(),
            },
    {
        if self.buf.len() - self.i < 4 {
            return Err("parse underflow".to_string());
        }
        let i = self.i;
        let v = i32_from_be(self.buf[i], self.buf[i + 1], self.buf[i + 2], self.buf[i + 3]);
        self.i = i + 4;
        Ok(v)
    }

    /// Reads a NUL-terminated UTF-8 string and steps past its terminator.
    pub fn read_cstring(&mut self) -> (r: Result<String, String>)
        requires
            old(self).wf(),
        ensures
            final(self).wf(),
            final(self).bytes() == old(self).bytes(),
            match first_nul(old(self).bytes(), old(self).pos()) {
                None => r matches Err(m) && m@ == missing_terminator_message() && final(self).pos()
                    == old(self).pos(),
                Some(k) => {
                    let field = old(self).bytes().subrange(old(self).pos(), k);
                    if valid_utf8(field) {
                        r matches Ok(s) && s@ == decode_utf8(field) && final(self).pos() == k + 1
                    } else {
                        r is Err && final(self).pos() == old(self).pos()
                    }
                },
            },
            match cstring_at(old(self).bytes(), old(self).pos()) {
                Some((v, next)) => r matches Ok(x) && x@ == v && final(self).pos() == next,
                None => r is Err && final(self).pos() == old(self).pos(),
            },
    {
        let start = self.i;
        let n = self.buf.len();
        match find_nul(self.buf, start) {
            None => Err("cstring terminator missing".to_string()),
            Some(k) => {
                let field = &self.buf[start..k];
                let s = decode_text(field)?;
                self.i = k + 1;
                Ok(s)
            },
        }
    }

    /// Reads the next `len` bytes; fails without moving when fewer remain.
    pub fn read_bytes(&mut self, len: usize) -> (r: Result<Vec<u8>, String>)
        requires
            old(self).wf(),
        ensures
            final(self).wf(),
            final(self).bytes() == old(self).bytes(),
            old(self).pos() + len <= old(self).bytes().len() ==> {
                &&& r matches Ok(v) && v@ == old(self).bytes().subrange(
                    old(self).pos(),
                    old(self).pos() + len,
                )
                &&& final(self).pos() == old(self).pos() + len
            },
            old(self).pos() + len > old(self).bytes().len() ==> {
                &&& r matches Err(m) && m@ == underflow_message()
                &&& final(self).pos() == old(self).pos()
            },
    {
        if self.buf.len() - self.i < len {
            return Err("parse underflow".to_string());
        }
        let end = self.i + len;
        let v = vstd::slice::slice_to_vec(&self.buf[self.i..end]);
        self.i = end;
        Ok(v)
    }
}

/// The NUL-terminated string at the start of a message payload.
pub open spec fn cstring_missing_message() -> Seq<char> {
    "cstring payload missing terminator"@
}

pub fn parse_cstring(payload: &[u8]) -> (r: Result<String, String>)
    ensures
        match first_nul(payload@, 0) {
            None => r matches Err(m) && m@ == cstring_missing_message(),
            Some(k) => if valid_utf8(payload@.subrange(0, k)) {
                r matches Ok(s) && s@ == decode_utf8(payload@.subrange(0, k))
            } else {
                r is Err
            },
        },
{
    match find_nul(payload, 0) {
        None => Err("cstring payload missing terminator".to_string()),
        Some(k) => decode_text(&payload[0..k]),
    }
}

/// What went wrong reading the startup packet's parameters.
#[derive(Debug, Clone, Copy, PartialEq, Eq, Structural)]
pub enum StartupFault {
    KeyUnterminated,
    ValueUnterminated,
    InvalidUtf8,
}

/// The key/value pairs of a startup packet read from index `i`: pairs of
/// NUL-terminated UTF-8 strings, ended by a NUL byte or the end of the packet.
pub open spec fn startup_params_from(raw: Seq<u8>, i: int) -> Result<Seq<(Seq<char>, Seq<char>)>, StartupFault>
    decreases raw.len() - i,
{
    if i < 0 || i >= raw.len() || raw[i] == 0 {
        Ok(seq![])
    } else {
        match first_nul(raw, i) {
            None => Err(StartupFault::KeyUnterminated),
            Some(ke) => if !valid_utf8(raw.subrange(i, ke)) {
                Err(StartupFault::InvalidUtf8)
            } else {
                match first_nul(raw, ke + 1) {
                    None => Err(StartupFault::ValueUnterminated),
                    Some(ve) => if !valid_utf8(raw.subrange(ke + 1, ve)) {
                        Err(StartupFault::InvalidUtf8)
                    } else {
                        proof {
                            lemma_first_nul_bounds(raw, i);
                            lemma_first_nul_bounds(raw, ke + 1);
                        }
                        match startup_params_from(raw, ve + 1) {
                            Ok(rest) => Ok(
                                seq![(decode_utf8(raw.subrange(i, ke)), decode_utf8(raw.subrange(ke + 1, ve)))]
                                    + rest,
                            ),
                            Err(e) => Err(e),
                        }
                    },
                }
            },
        }
    }
}

pub open spec fn pairs_view(v: Seq<(String, String)>) -> Seq<(Seq<char>, Seq<char>)> {
    v.map_values(|p: (String, String)| (p.0@, p.1@))
}

pub open spec fn startup_fault_message(f: StartupFault) -> Seq<char> {
    match f {
        StartupFault::KeyUnterminated => "startup key missing terminator"@,
        StartupFault::ValueUnterminated => "startup value missing terminator"@,
        StartupFault::InvalidUtf8 => Seq::empty(),
    }
}

/// The startup parameters in packet order (a later duplicate key wins on lookup).
pub fn parse_params(raw: &[u8]) -> (r: Result<Vec<(String, String)>, String>)
    ensures
        match startup_params_from(raw@, 0) {
            Ok(ps) => r matches Ok(v) && pairs_view(v@) == ps,
            Err(f) => r matches Err(m) && (f != StartupFault::InvalidUtf8 ==> m@
                == startup_fault_message(f)),
        },
{
    let mut out: Vec<(String, String)> = Vec::new();
    let n = raw.len();
    let mut i: usize = 0;
    while i < n && raw[i] != 0
        invariant
            n == raw@.len(),
            i <= n,
            startup_params_from(raw@, 0) == (match startup_params_from(raw@, i as int) {
                Ok(rest) => Ok(pairs_view(out@) + rest),
                Err(e) => Err(e),
            }),
        decreases n - i,
    {
        let ke = match find_nul(raw, i) {
            Some(k) => k,
            None => {
                return Err("startup key missing terminator".to_string());
            },
        };
        let key = match decode_text(&raw[i..ke]) {
            Ok(s) => s,
            Err(m) => {
                return Err(m);
            },
        };
        let ve = match find_nul(raw, ke + 1) {
            Some(k) => k,
            None => {
                return Err("startup value missing terminator".to_string());
            },
        };
        let val = match decode_text(&raw[ke + 1..ve]) {
            Ok(s) => s,
            Err(m) => {
                return Err(m);
            },
        };
        let ghost before = out@;
        assert(startup_params_from(raw@, i as int) == (match startup_params_from(raw@, ve + 1) {
            Ok(rest) => Ok(seq![(key@, val@)] + rest),
            Err(e) => Err(e),
        }));
        out.push((key, val));
        proof {
            assert(pairs_view(out@) =~= pairs_view(before) + seq![(key@, val@)]);
            match startup_params_from(raw@, ve + 1) {
                Ok(rest) => {
                    assert(pairs_view(out@) + rest =~= pairs_view(before) + (seq![(key@, val@)] + rest));
                },
                Err(_) => {},
            }
        }
        i = ve + 1;
    }
    proof {
        if i < n {
            assert(startup_params_from(raw@, i as int) == Ok::<Seq<(Seq<char>, Seq<char>)>, StartupFault>(seq![]));
        }
    }
    assert(pairs_view(out@) + Seq::<(Seq<char>, Seq<char>)>::empty() =~= pairs_view(out@));
    Ok(out)
}

/// The value given for `key`: the last pair with that key, as a map built in packet order.
pub open spec fn lookup_last(ps: Seq<(Seq<char>, Seq<char>)>, key: Seq<char>) -> Option<Seq<char>>
    decreases ps.len(),
{
    if ps.len() == 0 {
        None
    } else if ps.last().0 == key {
        Some(ps.last().1)
    } else {
        lookup_last(ps.drop_last(), key)
    }
}

/// The value of startup parameter `key`, if the client sent one.
pub fn startup_param(params: &[(String, String)], key: &str) -> (r: Option<String>)
    ensures
        r matches Some(s) ==> lookup_last(pairs_view(params@), key@) == Some(s@),
        r is None ==> lookup_last(pairs_view(params@), key@) is None,
{
    let kc = chars_of(key);
    let mut k: usize = params.len();
    assert(pairs_view(params@).take(k as int) =~= pairs_view(params@));
    while k > 0
        invariant
            k <= params@.len(),
            kc@ == key@,
            lookup_last(pairs_view(params@), key@) == lookup_last(pairs_view(params@).take(k as int), key@),
        decreases k,
    {
        proof {
            let t = pairs_view(params@).take(k as int);
            assert(t.drop_last() =~= pairs_view(params@).take(k - 1));
            assert(t.last() == (params@[k - 1].0@, params@[k - 1].1@));
        }
        let pk = chars_of(params[k - 1].0.as_str());
        if chars_eq(&pk, &kc) {
            return Some(string_from_chars(&chars_of(params[k - 1].1.as_str())));
        }
        k -= 1;
    }
    None
}

/// Whether two character sequences are equal.
pub fn chars_eq(a: &[char], b: &[char]) -> (r: bool)
    ensures
        r == (a@ == b@),
{
    if a.len() != b.len() {
        return false;
    }
    let mut i: usize = 0;
    while i < a.len()
        invariant
            a@.len() == b@.len(),
            i <= a@.len(),
            forall|k: int| 0 <= k < i ==> a@[k] == b@[k],
        decreases a.len() - i,
    {
        if a[i] != b[i] {
            return false;
        }
        i += 1;
    }
    assert(a@ =~= b@);
    true
}

} // verus!
