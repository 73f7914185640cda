//! `$n` bind placeholders in SQL text: where they are, and how bound values replace them.
//!
//! A placeholder is `$` followed by decimal digits, seen outside single-quoted
//! strings, double-quoted identifiers, `--` line comments and `/* */` block
//! comments. `$0` (and `$00`, ...) is not a placeholder.

use vstd::prelude::*;

use crate::pgwire::encode::utf8;
use vstd::utf8::{
    encode_scalar, last_continuation_byte, leading_byte_width_1, leading_byte_width_2,
    leading_byte_width_3, leading_byte_width_4, second_last_continuation_byte,
    third_last_continuation_byte,
};
use crate::text::{
    chars_of, concat_chars, decimal, digit_value, format_decimal, is_alphanumeric_char,
    is_ascii_alphanumeric, is_ascii_digit, is_digit_char, last_occurrence, lower, lower_chars,
    rfind_chars, slice_chars, starts_with, starts_with_chars, string_from_chars, trim, trim_chars,
};

verus! {

/// Lexical state of the placeholder scanner.
#[derive(Debug, Clone, Copy, PartialEq, Eq, Structural)]
pub enum ScanState {
    Normal,
    SingleQuote,
    DoubleQuote,
    LineComment,
    BlockComment,
}

/// A `$n` placeholder occupying positions `start..end` of the SQL text (byte offsets
/// from `find_placeholders`, character positions from `scan_placeholders`).
#[derive(Debug, Clone, Copy, PartialEq, Eq, Structural)]
pub struct Placeholder {
    pub start: usize,
    pub end: usize,
    /// 1-based index (`$1` is 1).
    pub n: usize,
}

/// A placeholder as plain integers: `(start, end, n)`.
pub open spec fn ph_view(p: Placeholder) -> (int, int, int) {
    (p.start as int, p.end as int, p.n as int)
}

pub open spec fn phs_view(v: Seq<Placeholder>) -> Seq<(int, int, int)> {
    v.map_values(|p: Placeholder| ph_view(p))
}

/// End of the run of decimal digits that starts at `j`.
pub open spec fn digit_run_end(s: Seq<char>, j: int) -> int
    decreases s.len() - j,
{
    if 0 <= j < s.len() && is_ascii_digit(s[j]) {
        digit_run_end(s, j + 1)
    } else {
        j
    }
}

/// Decimal value of the digits `s[from..to]`.
pub open spec fn run_value(s: Seq<char>, from: int, to: int) -> int
    decreases to - from,
{
    if to <= from {
        0
    } else {
        run_value(s, from, to - 1) * 10 + digit_value(s[to - 1])
    }
}

pub proof fn lemma_digit_run_end_bounds(s: Seq<char>, j: int)
    requires
        0 <= j <= s.len(),
    ensures
        j <= digit_run_end(s, j) <= s.len(),
        forall|k: int| j <= k < digit_run_end(s, j) ==> is_ascii_digit(#[trigger] s[k]),
        digit_run_end(s, j) == s.len() || !is_ascii_digit(s[digit_run_end(s, j)]),
    decreases s.len() - j,
{
    if j < s.len() && is_ascii_digit(s[j]) {
        lemma_digit_run_end_bounds(s, j + 1);
    }
}

/// The placeholders found scanning `s` from index `i` in state `st`, in order.
pub open spec fn scan(s: Seq<char>, i: int, st: ScanState) -> Seq<(int, int, int)>
    decreases s.len() - i,
{
    if i < 0 || i >= s.len() {
        seq![]
    } else {
        match st {
            ScanState::Normal => {
                if s[i] == '\'' {
                    scan(s, i + 1, ScanState::SingleQuote)
                } else if s[i] == '"' {
                    scan(s, i + 1, ScanState::DoubleQuote)
                } else if i + 1 < s.len() && s[i] == '-' && s[i + 1] == '-' {
                    scan(s, i + 2, ScanState::LineComment)
                } else if i + 1 < s.len() && s[i] == '/' && s[i + 1] == '*' {
                    scan(s, i + 2, ScanState::BlockComment)
                } else if s[i] == '$' && i + 1 < s.len() && is_ascii_digit(s[i + 1]) {
                    proof {
                        lemma_digit_run_end_bounds(s, i + 1);
                    }
                    let j = digit_run_end(s, i + 1);
                    let n = run_value(s, i + 1, j);
                    if n > 0 {
                        seq![(i, j, n)] + scan(s, j, ScanState::Normal)
                    } else {
                        scan(s, j, ScanState::Normal)
                    }
                } else {
                    scan(s, i + 1, ScanState::Normal)
                }
            },
            ScanState::SingleQuote => {
                if s[i] == '\'' {
                    if i + 1 < s.len() && s[i + 1] == '\'' {
                        scan(s, i + 2, ScanState::SingleQuote)
                    } else {
                        scan(s, i + 1, ScanState::Normal)
                    }
                } else {
                    scan(s, i + 1, ScanState::SingleQuote)
                }
            },
            ScanState::DoubleQuote => {
                if s[i] == '"' {
                    if i + 1 < s.len() && s[i + 1] == '"' {
                        scan(s, i + 2, ScanState::DoubleQuote)
                    } else {
                        scan(s, i + 1, ScanState::Normal)
                    }
                } else {
                    scan(s, i + 1, ScanState::DoubleQuote)
                }
            },
            ScanState::LineComment => {
                if s[i] == '\n' {
                    scan(s, i + 1, ScanState::Normal)
                } else {
                    scan(s, i + 1, ScanState::LineComment)
                }
            },
            ScanState::BlockComment => {
                if i + 1 < s.len() && s[i] == '*' && s[i + 1] == '/' {
                    scan(s, i + 2, ScanState::Normal)
                } else {
                    scan(s, i + 1, ScanState::BlockComment)
                }
            },
        }
    }
}

/// The placeholders of a SQL text, in order of position.
pub open spec fn placeholders(s: Seq<char>) -> Seq<(int, int, int)> {
    scan(s, 0, ScanState::Normal)
}

/// Every placeholder number of `s` fits in a `usize`.
pub open spec fn placeholders_fit(s: Seq<char>) -> bool {
    forall|k: int| 0 <= k < placeholders(s).len() ==> #[trigger] placeholders(s)[k].2 <= usize::MAX
}

/// The shape every scan result has: spans at or after `i`, in order and disjoint,
/// each a `$` followed by a maximal run of digits of positive value `n`.
pub open spec fn well_formed_from(s: Seq<char>, phs: Seq<(int, int, int)>, i: int) -> bool {
    &&& forall|k: int|
        0 <= k < phs.len() ==> {
            let p = #[trigger] phs[k];
            &&& i <= p.0 < p.1 <= s.len()
            &&& s[p.0] == '$'
            &&& p.1 == digit_run_end(s, p.0 + 1)
            &&& p.0 + 1 < p.1
            &&& p.2 == run_value(s, p.0 + 1, p.1)
            &&& p.2 > 0
        }
    &&& forall|k: int| 0 <= k < phs.len() - 1 ==> #[trigger] phs[k].1 <= phs[k + 1].0
}

pub proof fn lemma_scan_well_formed(s: Seq<char>, i: int, st: ScanState)
    requires
        0 <= i,
    ensures
        well_formed_from(s, scan(s, i, st), i),
    decreases s.len() - i,
{
    if i >= s.len() {
    } else {
        match st {
            ScanState::Normal => {
                if s[i] == '\'' {
                    lemma_scan_well_formed(s, i + 1, ScanState::SingleQuote);
                } else if s[i] == '"' {
                    lemma_scan_well_formed(s, i + 1, ScanState::DoubleQuote);
                } else if i + 1 < s.len() && s[i] == '-' && s[i + 1] == '-' {
                    lemma_scan_well_formed(s, i + 2, ScanState::LineComment);
                } else if i + 1 < s.len() && s[i] == '/' && s[i + 1] == '*' {
                    lemma_scan_well_formed(s, i + 2, ScanState::BlockComment);
                } else if s[i] == '$' && i + 1 < s.len() && is_ascii_digit(s[i + 1]) {
                    lemma_digit_run_end_bounds(s, i + 1);
                    let j = digit_run_end(s, i + 1);
                    lemma_scan_well_formed(s, j, ScanState::Normal);
                    let rest = scan(s, j, ScanState::Normal);
                    let n = run_value(s, i + 1, j);
                    if n > 0 {
                        let all = seq![(i, j, n)] + rest;
                        assert(scan(s, i, st) == all);
                        assert forall|k: int| 0 <= k < all.len() - 1 implies #[trigger] all[k].1
                            <= all[k + 1].0 by {
                            if k > 0 {
                                assert(all[k] == rest[k - 1]);
                                assert(all[k + 1] == rest[k]);
                            }
                        }
                        assert forall|k: int| 0 <= k < all.len() implies i <= (#[trigger] all[k]).0 by {
                            if k > 0 {
                                assert(all[k] == rest[k - 1]);
                            }
                        }
                    }
                } else {
                    lemma_scan_well_formed(s, i + 1, ScanState::Normal);
                }
            },
            ScanState::SingleQuote => {
                if s[i] == '\'' && i + 1 < s.len() && s[i + 1] == '\'' {
                    lemma_scan_well_formed(s, i + 2, ScanState::SingleQuote);
                } else if s[i] == '\'' {
                    lemma_scan_well_formed(s, i + 1, ScanState::Normal);
                } else {
                    lemma_scan_well_formed(s, i + 1, ScanState::SingleQuote);
                }
            },
            ScanState::DoubleQuote => {
                if s[i] == '"' && i + 1 < s.len() && s[i + 1] == '"' {
                    lemma_scan_well_formed(s, i + 2, ScanState::DoubleQuote);
                } else if s[i] == '"' {
                    lemma_scan_well_formed(s, i + 1, ScanState::Normal);
                } else {
                    lemma_scan_well_formed(s, i + 1, ScanState::DoubleQuote);
                }
            },
            ScanState::LineComment => {
                if s[i] == '\n' {
                    lemma_scan_well_formed(s, i + 1, ScanState::Normal);
                } else {
                    lemma_scan_well_formed(s, i + 1, ScanState::LineComment);
                }
            },
            ScanState::BlockComment => {
                if i + 1 < s.len() && s[i] == '*' && s[i + 1] == '/' {
                    lemma_scan_well_formed(s, i + 2, ScanState::Normal);
                } else {
                    lemma_scan_well_formed(s, i + 1, ScanState::BlockComment);
                }
            },
        }
    }
}

/// Within a run of digits the running value never decreases.
proof fn lemma_run_value_monotone(s: Seq<char>, from: int, j: int, k: int)
    requires
        from <= j <= k <= s.len(),
        0 <= from,
        forall|m: int| from <= m < k ==> is_ascii_digit(#[trigger] s[m]),
    ensures
        0 <= run_value(s, from, j) <= run_value(s, from, k),
    decreases k - j,
{
    if j < k {
        lemma_run_value_monotone(s, from, j, k - 1);
        assert(is_ascii_digit(s[k - 1]));
    } else {
        lemma_run_value_nonneg(s, from, k);
    }
}

proof fn lemma_run_value_nonneg(s: Seq<char>, from: int, k: int)
    requires
        0 <= from,
        k <= s.len(),
        forall|m: int| from <= m < k ==> is_ascii_digit(#[trigger] s[m]),
    ensures
        0 <= run_value(s, from, k),
    decreases k - from,
{
    if k > from {
        lemma_run_value_nonneg(s, from, k - 1);
        assert(is_ascii_digit(s[k - 1]));
    }
}

/// The placeholders of `sql` by character position, or `None` when some placeholder
/// number does not fit in a `usize`.
pub fn scan_placeholders(sql: &[char]) -> (r: Option<Vec<Placeholder>>)
    ensures
        r is None <==> !placeholders_fit(sql@),
        r matches Some(v) ==> phs_view(v@) == placeholders(sql@),
{
    let ghost s = sql@;
    let len = sql.len();
    let mut out: Vec<Placeholder> = Vec::new();
    let mut i: usize = 0;
    let mut state = ScanState::Normal;
    while i < len
        invariant
            len == s.len(),
            s == sql@,
            i <= len,
            placeholders(s) == phs_view(out@) + scan(s, i as int, state),
        decreases len - i,
    {
        let c = sql[i];
        match state {
            ScanState::Normal => {
                if c == '\'' {
                    state = ScanState::SingleQuote;
                    i += 1;
                } else if c == '"' {
                    state = ScanState::DoubleQuote;
                    i += 1;
                } else if i + 1 < len && c == '-' && sql[i + 1] == '-' {
                    state = ScanState::LineComment;
                    i += 2;
                } else if i + 1 < len && c == '/' && sql[i + 1] == '*' {
                    state = ScanState::BlockComment;
                    i += 2;
                } else if c == '$' && i + 1 < len && is_digit_char(sql[i + 1]) {
                    let start = i;
                    let mut j = i + 1;
                    let mut n: usize = 0;
                    proof {
                        lemma_digit_run_end_bounds(s, i + 1);
                    }
                    let ghost run_end = digit_run_end(s, i + 1);
                    let ghost rest_before = scan(s, i as int, state);
                    while j < len && is_digit_char(sql[j])
                        invariant
                            len == s.len(),
                            s == sql@,
                            start + 1 <= j <= run_end,
                            run_end == digit_run_end(s, start + 1),
                            start + 1 <= run_end <= s.len(),
                            forall|k: int| start + 1 <= k < run_end ==> is_ascii_digit(#[trigger] s[k]),
                            run_end == s.len() || !is_ascii_digit(s[run_end]),
                            n == run_value(s, start + 1, j as int),
                            start + 1 < len,
                            s[start as int] == '$',
                            is_ascii_digit(s[start + 1]),
                            placeholders(s) == phs_view(out@) + scan(s, start as int, ScanState::Normal),
                        decreases len - j,
                    {
                        let d: usize = (sql[j] as u32 - '0' as u32) as usize;
                        assert(d as int == digit_value(s[j as int]));
                        proof {
                            lemma_run_value_monotone(s, start + 1, j + 1, run_end);
                        }
                        if n > (usize::MAX - d) / 10 {
                            // The final value exceeds `usize::MAX`.
                            proof {
                                assert(n * 10 + d > usize::MAX) by (nonlinear_arith)
                                    requires n > (usize::MAX - d) / 10, d <= 9;
                                assert(run_value(s, start + 1, j + 1) == n * 10 + d);
                                lemma_scan_normal_dollar(s, start as int);
                                let k = phs_view(out@).len() as int;
                                assert(placeholders(s)[k] == (start as int, run_end, run_value(s, start + 1, run_end)));
                                assert(!(placeholders(s)[k].2 <= usize::MAX));
                            }
                            return None;
                        }
                        n = n * 10 + d;
                        j += 1;
                    }
                    proof {
                        lemma_scan_normal_dollar(s, start as int);
                    }
                    if n > 0 {
                        out.push(Placeholder { start, end: j, n });
                        proof {
                            assert(phs_view(out@) =~= phs_view(out@.drop_last()).push((start as int, j as int, n as int)));
                        }
                    }
                    i = j;
                } else {
                    i += 1;
                }
            },
            ScanState::SingleQuote => {
                if c == '\'' {
                    if i + 1 < len && sql[i + 1] == '\'' {
                        i += 2;
                    } else {
                        state = ScanState::Normal;
                        i += 1;
                    }
                } else {
                    i += 1;
                }
            },
            ScanState::DoubleQuote => {
                if c == '"' {
                    if i + 1 < len && sql[i + 1] == '"' {
                        i += 2;
                    } else {
                        state = ScanState::Normal;
                        i += 1;
                    }
                } else {
                    i += 1;
                }
            },
            ScanState::LineComment => {
                if c == '\n' {
                    state = ScanState::Normal;
                }
                i += 1;
            },
            ScanState::BlockComment => {
                if i + 1 < len && c == '*' && sql[i + 1] == '/' {
                    state = ScanState::Normal;
                    i += 2;
                } else {
                    i += 1;
                }
            },
        }
    }
    assert(phs_view(out@) =~= placeholders(s));
    proof {
        lemma_scan_well_formed(s, 0, ScanState::Normal);
        assert forall|k: int| 0 <= k < placeholders(s).len() implies #[trigger] placeholders(s)[k].2
            <= usize::MAX by {
            assert(placeholders(s)[k] == ph_view(out@[k]));
        }
    }
    Some(out)
}


// Placeholders by byte offset in the UTF-8 text, as `find_placeholders` reports them.
// The scan is the same as the one over characters, step for step, on bytes: every
// byte it looks for is ASCII.

/// An ASCII decimal digit byte.
pub open spec fn is_digit_byte(x: u8) -> bool {
    0x30 <= x <= 0x39
}

/// The value of an ASCII digit byte.
pub open spec fn byte_digit_value(x: u8) -> int {
    x - 0x30
}

fn is_digit_u8(x: u8) -> (r: bool)
    ensures
        r == is_digit_byte(x),
{
    0x30 <= x && x <= 0x39
}

/// End of the run of ASCII digit bytes that starts at `j`.
pub open spec fn byte_run_end(s: Seq<u8>, j: int) -> int
    decreases s.len() - j,
{
    if 0 <= j < s.len() && is_digit_byte(s[j]) {
        byte_run_end(s, j + 1)
    } else {
        j
    }
}

/// Decimal value of the digits `s[from..to]`.
pub open spec fn byte_run_value(s: Seq<u8>, from: int, to: int) -> int
    decreases to - from,
{
    if to <= from {
        0
    } else {
        byte_run_value(s, from, to - 1) * 10 + byte_digit_value(s[to - 1])
    }
}

pub proof fn lemma_byte_run_end_bounds(s: Seq<u8>, j: int)
    requires
        0 <= j <= s.len(),
    ensures
        j <= byte_run_end(s, j) <= s.len(),
        forall|k: int| j <= k < byte_run_end(s, j) ==> is_digit_byte(#[trigger] s[k]),
        byte_run_end(s, j) == s.len() || !is_digit_byte(s[byte_run_end(s, j)]),
    decreases s.len() - j,
{
    if j < s.len() && is_digit_byte(s[j]) {
        lemma_byte_run_end_bounds(s, j + 1);
    }
}

/// The placeholders found scanning the bytes `s` from byte `i` in state `st`, in order.
pub open spec fn byte_scan(s: Seq<u8>, i: int, st: ScanState) -> Seq<(int, int, int)>
    decreases s.len() - i,
{
    if i < 0 || i >= s.len() {
        seq![]
    } else {
        match st {
            ScanState::Normal => {
                if s[i] == 0x27u8 {
                    byte_scan(s, i + 1, ScanState::SingleQuote)
                } else if s[i] == 0x22u8 {
                    byte_scan(s, i + 1, ScanState::DoubleQuote)
                } else if i + 1 < s.len() && s[i] == 0x2du8 && s[i + 1] == 0x2du8 {
                    byte_scan(s, i + 2, ScanState::LineComment)
                } else if i + 1 < s.len() && s[i] == 0x2fu8 && s[i + 1] == 0x2au8 {
                    byte_scan(s, i + 2, ScanState::BlockComment)
                } else if s[i] == 0x24u8 && i + 1 < s.len() && is_digit_byte(s[i + 1]) {
                    proof {
                        lemma_byte_run_end_bounds(s, i + 1);
                    }
                    let j = byte_run_end(s, i + 1);
                    let n = byte_run_value(s, i + 1, j);
                    if n > 0 {
                        seq![(i, j, n)] + byte_scan(s, j, ScanState::Normal)
                    } else {
                        byte_scan(s, j, ScanState::Normal)
                    }
                } else {
                    byte_scan(s, i + 1, ScanState::Normal)
                }
            },
            ScanState::SingleQuote => {
                if s[i] == 0x27u8 {
                    if i + 1 < s.len() && s[i + 1] == 0x27u8 {
                        byte_scan(s, i + 2, ScanState::SingleQuote)
                    } else {
                        byte_scan(s, i + 1, ScanState::Normal)
                    }
                } else {
                    byte_scan(s, i + 1, ScanState::SingleQuote)
                }
            },
            ScanState::DoubleQuote => {
                if s[i] == 0x22u8 {
                    if i + 1 < s.len() && s[i + 1] == 0x22u8 {
                        byte_scan(s, i + 2, ScanState::DoubleQuote)
                    } else {
                        byte_scan(s, i + 1, ScanState::Normal)
                    }
                } else {
                    byte_scan(s, i + 1, ScanState::DoubleQuote)
                }
            },
            ScanState::LineComment => {
                if s[i] == 0x0au8 {
                    byte_scan(s, i + 1, ScanState::Normal)
                } else {
                    byte_scan(s, i + 1, ScanState::LineComment)
                }
            },
            ScanState::BlockComment => {
                if i + 1 < s.len() && s[i] == 0x2au8 && s[i + 1] == 0x2fu8 {
                    byte_scan(s, i + 2, ScanState::Normal)
                } else {
                    byte_scan(s, i + 1, ScanState::BlockComment)
                }
            },
        }
    }
}

/// The shape every byte scan result has: byte spans at or after `i`, in order and disjoint,
/// each a `$` followed by a maximal run of digits of positive value `n`.
pub open spec fn bytes_well_formed_from(s: Seq<u8>, phs: Seq<(int, int, int)>, i: int) -> bool {
    &&& forall|k: int|
        0 <= k < phs.len() ==> {
            let p = #[trigger] phs[k];
            &&& i <= p.0 < p.1 <= s.len()
            &&& s[p.0] == 0x24u8
            &&& p.1 == byte_run_end(s, p.0 + 1)
            &&& p.0 + 1 < p.1
            &&& p.2 == byte_run_value(s, p.0 + 1, p.1)
            &&& p.2 > 0
        }
    &&& forall|k: int| 0 <= k < phs.len() - 1 ==> #[trigger] phs[k].1 <= phs[k + 1].0
}

pub proof fn lemma_byte_scan_well_formed(s: Seq<u8>, i: int, st: ScanState)
    requires
        0 <= i,
    ensures
        bytes_well_formed_from(s, byte_scan(s, i, st), i),
    decreases s.len() - i,
{
    if i >= s.len() {
    } else {
        match st {
            ScanState::Normal => {
                if s[i] == 0x27u8 {
                    lemma_byte_scan_well_formed(s, i + 1, ScanState::SingleQuote);
                } else if s[i] == 0x22u8 {
                    lemma_byte_scan_well_formed(s, i + 1, ScanState::DoubleQuote);
                } else if i + 1 < s.len() && s[i] == 0x2du8 && s[i + 1] == 0x2du8 {
                    lemma_byte_scan_well_formed(s, i + 2, ScanState::LineComment);
                } else if i + 1 < s.len() && s[i] == 0x2fu8 && s[i + 1] == 0x2au8 {
                    lemma_byte_scan_well_formed(s, i + 2, ScanState::BlockComment);
                } else if s[i] == 0x24u8 && i + 1 < s.len() && is_digit_byte(s[i + 1]) {
                    lemma_byte_run_end_bounds(s, i + 1);
                    let j = byte_run_end(s, i + 1);
                    lemma_byte_scan_well_formed(s, j, ScanState::Normal);
                    let rest = byte_scan(s, j, ScanState::Normal);
                    let n = byte_run_value(s, i + 1, j);
                    if n > 0 {
                        let all = seq![(i, j, n)] + rest;
                        assert(byte_scan(s, i, st) == all);
                        assert forall|k: int| 0 <= k < all.len() - 1 implies #[trigger] all[k].1
                            <= all[k + 1].0 by {
                            if k > 0 {
                                assert(all[k] == rest[k - 1]);
                                assert(all[k + 1] == rest[k]);
                            }
                        }
                        assert forall|k: int| 0 <= k < all.len() implies i <= (#[trigger] all[k]).0 by {
                            if k > 0 {
                                assert(all[k] == rest[k - 1]);
                            }
                        }
                    }
                } else {
                    lemma_byte_scan_well_formed(s, i + 1, ScanState::Normal);
                }
            },
            ScanState::SingleQuote => {
                if s[i] == 0x27u8 && i + 1 < s.len() && s[i + 1] == 0x27u8 {
                    lemma_byte_scan_well_formed(s, i + 2, ScanState::SingleQuote);
                } else if s[i] == 0x27u8 {
                    lemma_byte_scan_well_formed(s, i + 1, ScanState::Normal);
                } else {
                    lemma_byte_scan_well_formed(s, i + 1, ScanState::SingleQuote);
                }
            },
            ScanState::DoubleQuote => {
                if s[i] == 0x22u8 && i + 1 < s.len() && s[i + 1] == 0x22u8 {
                    lemma_byte_scan_well_formed(s, i + 2, ScanState::DoubleQuote);
                } else if s[i] == 0x22u8 {
                    lemma_byte_scan_well_formed(s, i + 1, ScanState::Normal);
                } else {
                    lemma_byte_scan_well_formed(s, i + 1, ScanState::DoubleQuote);
                }
            },
            ScanState::LineComment => {
                if s[i] == 0x0au8 {
                    lemma_byte_scan_well_formed(s, i + 1, ScanState::Normal);
                } else {
                    lemma_byte_scan_well_formed(s, i + 1, ScanState::LineComment);
                }
            },
            ScanState::BlockComment => {
                if i + 1 < s.len() && s[i] == 0x2au8 && s[i + 1] == 0x2fu8 {
                    lemma_byte_scan_well_formed(s, i + 2, ScanState::Normal);
                } else {
                    lemma_byte_scan_well_formed(s, i + 1, ScanState::BlockComment);
                }
            },
        }
    }
}

/// Within a run of digits the running value never decreases.
proof fn lemma_byte_run_value_monotone(s: Seq<u8>, from: int, j: int, k: int)
    requires
        from <= j <= k <= s.len(),
        0 <= from,
        forall|m: int| from <= m < k ==> is_digit_byte(#[trigger] s[m]),
    ensures
        0 <= byte_run_value(s, from, j) <= byte_run_value(s, from, k),
    decreases k - j,
{
    if j < k {
        lemma_byte_run_value_monotone(s, from, j, k - 1);
        assert(is_digit_byte(s[k - 1]));
    } else {
        lemma_byte_run_value_nonneg(s, from, k);
    }
}

proof fn lemma_byte_run_value_nonneg(s: Seq<u8>, from: int, k: int)
    requires
        0 <= from,
        k <= s.len(),
        forall|m: int| from <= m < k ==> is_digit_byte(#[trigger] s[m]),
    ensures
        0 <= byte_run_value(s, from, k),
    decreases k - from,
{
    if k > from {
        lemma_byte_run_value_nonneg(s, from, k - 1);
        assert(is_digit_byte(s[k - 1]));
    }
}

/// The placeholders of the bytes `sql` (byte offsets), or `None` when some placeholder
/// number does not fit in a `usize`.
pub fn scan_placeholder_bytes(sql: &[u8]) -> (r: Option<Vec<Placeholder>>)
    ensures
        r is None <==> !byte_placeholders_fit(sql@),
        r matches Some(v) ==> phs_view(v@) == byte_placeholders(sql@),
{
    let ghost s = sql@;
    let len = sql.len();
    let mut out: Vec<Placeholder> = Vec::new();
    let mut i: usize = 0;
    let mut state = ScanState::Normal;
    while i < len
        invariant
            len == s.len(),
            s == sql@,
            i <= len,
            byte_placeholders(s) == phs_view(out@) + byte_scan(s, i as int, state),
        decreases len - i,
    {
        let c = sql[i];
        match state {
            ScanState::Normal => {
                if c == 0x27u8 {
                    state = ScanState::SingleQuote;
                    i += 1;
                } else if c == 0x22u8 {
                    state = ScanState::DoubleQuote;
                    i += 1;
                } else if i + 1 < len && c == 0x2du8 && sql[i + 1] == 0x2du8 {
                    state = ScanState::LineComment;
                    i += 2;
                } else if i + 1 < len && c == 0x2fu8 && sql[i + 1] == 0x2au8 {
                    state = ScanState::BlockComment;
                    i += 2;
                } else if c == 0x24u8 && i + 1 < len && is_digit_u8(sql[i + 1]) {
                    let start = i;
                    let mut j = i + 1;
                    let mut n: usize = 0;
                    proof {
                        lemma_byte_run_end_bounds(s, i + 1);
                    }
                    let ghost run_end = byte_run_end(s, i + 1);
                    let ghost rest_before = byte_scan(s, i as int, state);
                    while j < len && is_digit_u8(sql[j])
                        invariant
                            len == s.len(),
                            s == sql@,
                            start + 1 <= j <= run_end,
                            run_end == byte_run_end(s, start + 1),
                            start + 1 <= run_end <= s.len(),
                            forall|k: int| start + 1 <= k < run_end ==> is_digit_byte(#[trigger] s[k]),
                            run_end == s.len() || !is_digit_byte(s[run_end]),
                            n == byte_run_value(s, start + 1, j as int),
                            start + 1 < len,
                            s[start as int] == 0x24u8,
                            is_digit_byte(s[start + 1]),
                            byte_placeholders(s) == phs_view(out@) + byte_scan(s, start as int, ScanState::Normal),
                        decreases len - j,
                    {
                        let d: usize = (sql[j] - 0x30u8) as usize;
                        assert(d as int == byte_digit_value(s[j as int]));
                        proof {
                            lemma_byte_run_value_monotone(s, start + 1, j + 1, run_end);
                        }
                        if n > (usize::MAX - d) / 10 {
                            // The final value exceeds `usize::MAX`.
                            proof {
                                assert(n * 10 + d > usize::MAX) by (nonlinear_arith)
                                    requires n > (usize::MAX - d) / 10, d <= 9;
                                assert(byte_run_value(s, start + 1, j + 1) == n * 10 + d);
                                lemma_byte_scan_normal_dollar(s, start as int);
                                let k = phs_view(out@).len() as int;
                                assert(byte_placeholders(s)[k] == (start as int, run_end, byte_run_value(s, start + 1, run_end)));
                                assert(!(byte_placeholders(s)[k].2 <= usize::MAX));
                            }
                            return None;
                        }
                        n = n * 10 + d;
                        j += 1;
                    }
                    proof {
                        lemma_byte_scan_normal_dollar(s, start as int);
                    }
                    if n > 0 {
                        out.push(Placeholder { start, end: j, n });
                        proof {
                            assert(phs_view(out@) =~= phs_view(out@.drop_last()).push((start as int, j as int, n as int)));
                        }
                    }
                    i = j;
                } else {
                    i += 1;
                }
            },
            ScanState::SingleQuote => {
                if c == 0x27u8 {
                    if i + 1 < len && sql[i + 1] == 0x27u8 {
                        i += 2;
                    } else {
                        state = ScanState::Normal;
                        i += 1;
                    }
                } else {
                    i += 1;
                }
            },
            ScanState::DoubleQuote => {
                if c == 0x22u8 {
                    if i + 1 < len && sql[i + 1] == 0x22u8 {
                        i += 2;
                    } else {
                        state = ScanState::Normal;
                        i += 1;
                    }
                } else {
                    i += 1;
                }
            },
            ScanState::LineComment => {
                if c == 0x0au8 {
                    state = ScanState::Normal;
                }
                i += 1;
            },
            ScanState::BlockComment => {
                if i + 1 < len && c == 0x2au8 && sql[i + 1] == 0x2fu8 {
                    state = ScanState::Normal;
                    i += 2;
                } else {
                    i += 1;
                }
            },
        }
    }
    assert(phs_view(out@) =~= byte_placeholders(s));
    proof {
        lemma_byte_scan_well_formed(s, 0, ScanState::Normal);
        assert forall|k: int| 0 <= k < byte_placeholders(s).len() implies #[trigger] byte_placeholders(s)[k].2
            <= usize::MAX by {
            assert(byte_placeholders(s)[k] == ph_view(out@[k]));
        }
    }
    Some(out)
}

/// The scan step at a `$` followed by a digit in the normal state.
proof fn lemma_byte_scan_normal_dollar(s: Seq<u8>, i: int)
    requires
        0 <= i,
        i + 1 < s.len(),
        s[i] == 0x24u8,
        is_digit_byte(s[i + 1]),
    ensures
        byte_scan(s, i, ScanState::Normal) == (if byte_run_value(s, i + 1, byte_run_end(s, i + 1)) > 0 {
            seq![(i, byte_run_end(s, i + 1), byte_run_value(s, i + 1, byte_run_end(s, i + 1)))]
                + byte_scan(s, byte_run_end(s, i + 1), ScanState::Normal)
        } else {
            byte_scan(s, byte_run_end(s, i + 1), ScanState::Normal)
        }),
{
}


/// The placeholders of a byte text, in order of position.
pub open spec fn byte_placeholders(b: Seq<u8>) -> Seq<(int, int, int)> {
    byte_scan(b, 0, ScanState::Normal)
}

/// Every placeholder number of a byte text fits in a `usize`.
pub open spec fn byte_placeholders_fit(b: Seq<u8>) -> bool {
    forall|k: int| 0 <= k < byte_placeholders(b).len() ==> #[trigger] byte_placeholders(b)[k].2 <= usize::MAX
}

/// The placeholders of `sql`, in order of position, with `start` and `end` as byte
/// offsets into its UTF-8 text.
pub fn find_placeholders(sql: &str) -> (v: Vec<Placeholder>)
    requires
        byte_placeholders_fit(utf8(sql@)),
    ensures
        phs_view(v@) == byte_placeholders(utf8(sql@)),
        bytes_well_formed_from(utf8(sql@), phs_view(v@), 0),
{
    let bytes = sql.as_bytes();
    proof {
        lemma_byte_scan_well_formed(bytes@, 0, ScanState::Normal);
    }
    match scan_placeholder_bytes(bytes) {
        Some(v) => v,
        None => {
            proof {
                assert(false);
            }
            Vec::new()
        },
    }
}

/// The placeholders of `sql` by character position, for a statement whose numbers fit.
fn char_placeholders(sql: &str) -> (v: Vec<Placeholder>)
    requires
        placeholders_fit(sql@),
    ensures
        phs_view(v@) == placeholders(sql@),
        well_formed_from(sql@, phs_view(v@), 0),
{
    let chars = chars_of(sql);
    proof {
        lemma_scan_well_formed(sql@, 0, ScanState::Normal);
    }
    match scan_placeholders(&chars) {
        Some(v) => v,
        None => {
            proof {
                assert(false);
            }
            Vec::new()
        },
    }
}

/// The largest placeholder number, each truncated to `i16` first; 0 when there is none.
pub open spec fn max_index_i16(phs: Seq<(int, int, int)>) -> i16
    decreases phs.len(),
{
    if phs.len() == 0 {
        0
    } else if phs.len() == 1 {
        phs[0].2 as i16
    } else {
        let rest = max_index_i16(phs.drop_last());
        let last = phs.last().2 as i16;
        if last > rest {
            last
        } else {
            rest
        }
    }
}

/// The largest placeholder number (0 when there is none).
pub open spec fn max_index(phs: Seq<(int, int, int)>) -> int
    decreases phs.len(),
{
    if phs.len() == 0 {
        0
    } else {
        let rest = max_index(phs.drop_last());
        if phs.last().2 > rest {
            phs.last().2
        } else {
            rest
        }
    }
}

/// The highest `$n` of the statement, as the `i16` parameter count of the protocol.
pub fn max_param_index(sql: &str) -> (r: i16)
    requires
        placeholders_fit(sql@),
    ensures
        r == max_index_i16(placeholders(sql@)),
{
    let phs = char_placeholders(sql);
    let mut best: i16 = 0;
    let mut k: usize = 0;
    while k < phs.len()
        invariant
            k <= phs@.len(),
            phs_view(phs@) == placeholders(sql@),
            best == max_index_i16(phs_view(phs@).take(k as int)),
        decreases phs.len() - k,
    {
        let v = phs[k].n as i16;
        proof {
            let t = phs_view(phs@).take(k + 1);
            assert(t.drop_last() =~= phs_view(phs@).take(k as int));
            assert(t.last() == ph_view(phs@[k as int]));
        }
        if k == 0 || v > best {
            best = v;
        }
        k += 1;
    }
    assert(phs_view(phs@).take(phs@.len() as int) =~= phs_view(phs@));
    best
}

/// `s` with every `'` doubled, as inside a SQL string literal.
pub open spec fn escape_quotes(s: Seq<char>) -> Seq<char>
    decreases s.len(),
{
    if s.len() == 0 {
        seq![]
    } else {
        (if s[0] == '\'' {
            seq!['\'', '\'']
        } else {
            seq![s[0]]
        }) + escape_quotes(s.drop_first())
    }
}

/// The SQL text that stands for a bound value: a quoted literal, or `NULL`.
pub open spec fn replacement(p: Option<Seq<char>>) -> Seq<char> {
    match p {
        Some(v) => seq!['\''] + escape_quotes(v) + seq!['\''],
        None => seq!['N', 'U', 'L', 'L'],
    }
}

pub open spec fn param_view(p: Option<String>) -> Option<Seq<char>> {
    match p {
        Some(s) => Some(s@),
        None => None,
    }
}

pub open spec fn params_view(ps: Seq<Option<String>>) -> Seq<Option<Seq<char>>> {
    ps.map_values(|p: Option<String>| param_view(p))
}

/// `s` from `pos` on, with placeholders `phs[k..]` replaced by their bound values.
pub open spec fn spliced(
    s: Seq<char>,
    phs: Seq<(int, int, int)>,
    params: Seq<Option<Seq<char>>>,
    k: int,
    pos: int,
) -> Seq<char>
    decreases phs.len() - k,
{
    if k < 0 || k >= phs.len() {
        s.subrange(pos, s.len() as int)
    } else {
        s.subrange(pos, phs[k].0) + replacement(params[phs[k].2 - 1]) + spliced(
            s,
            phs,
            params,
            k + 1,
            phs[k].1,
        )
    }
}

/// The statement with every placeholder `$n` replaced by the `n`-th bound value.
pub open spec fn substituted(s: Seq<char>, params: Seq<Option<Seq<char>>>) -> Seq<char> {
    spliced(s, placeholders(s), params, 0, 0)
}

/// Placeholders, as `find_placeholders` reports them in the UTF-8 text of a statement,
/// are a `$` byte followed by a maximal run of ASCII digit bytes of positive value, in
/// order of position and without overlap; so are the placeholders by character.
pub proof fn law_placeholders_well_formed(sql: Seq<char>)
    ensures
        bytes_well_formed_from(utf8(sql), byte_placeholders(utf8(sql)), 0),
        well_formed_from(sql, placeholders(sql), 0),
{
    lemma_byte_scan_well_formed(utf8(sql), 0, ScanState::Normal);
    lemma_scan_well_formed(sql, 0, ScanState::Normal);
}

/// A statement without placeholders takes no values and is left as it is.
pub proof fn law_substitution_without_placeholders(sql: Seq<char>)
    requires
        placeholders(sql).len() == 0,
    ensures
        max_index(placeholders(sql)) == 0,
        substituted(sql, seq![]) == sql,
{
    assert(sql.subrange(0, sql.len() as int) =~= sql);
}

/// The message of a parameter count mismatch.
pub open spec fn count_mismatch_message(given: nat, expected: nat) -> Seq<char> {
    "bind parameter count "@ + decimal(given) + " does not match statement placeholders (expect "@
        + decimal(expected) + " for max index)"@
}

/// Appends `v` with every `'` doubled.
fn push_escaped(out: &mut Vec<char>, v: &[char])
    ensures
        final(out)@ == old(out)@ + escape_quotes(v@),
{
    let mut i: usize = 0;
    assert(v@.subrange(0, v@.len() as int) =~= v@);
    while i < v.len()
        invariant
            i <= v@.len(),
            out@ + escape_quotes(v@.subrange(i as int, v@.len() as int)) == old(out)@ + escape_quotes(v@),
        decreases v.len() - i,
    {
        let ghost rest = v@.subrange(i as int, v@.len() as int);
        assert(rest.drop_first() =~= v@.subrange(i + 1, v@.len() as int));
        if v[i] == '\'' {
            out.push('\'');
            out.push('\'');
            assert(out@ + escape_quotes(rest.drop_first()) =~= old(out)@ + escape_quotes(v@)) by {
                assert(escape_quotes(rest) == seq!['\'', '\''] + escape_quotes(rest.drop_first()));
            }
        } else {
            out.push(v[i]);
            assert(out@ + escape_quotes(rest.drop_first()) =~= old(out)@ + escape_quotes(v@)) by {
                assert(escape_quotes(rest) == seq![v@[i as int]] + escape_quotes(rest.drop_first()));
            }
        }
        i += 1;
    }
    assert(v@.subrange(v@.len() as int, v@.len() as int) =~= Seq::<char>::empty());
    assert(out@ =~= old(out)@ + escape_quotes(v@));
}

/// Appends `s[from..to]`.
fn push_range(out: &mut Vec<char>, s: &[char], from: usize, to: usize)
    requires
        from <= to <= s@.len(),
    ensures
        final(out)@ == old(out)@ + s@.subrange(from as int, to as int),
{
    let mut i = from;
    while i < to
        invariant
            from <= i <= to <= s@.len(),
            out@ == old(out)@ + s@.subrange(from as int, i as int),
        decreases to - i,
    {
        out.push(s[i]);
        i += 1;
        assert(out@ =~= old(out)@ + s@.subrange(from as int, i as int));
    }
}

proof fn lemma_max_index_bound(phs: Seq<(int, int, int)>, k: int)
    requires
        0 <= k < phs.len(),
    ensures
        phs[k].2 <= max_index(phs),
    decreases phs.len(),
{
    if k < phs.len() - 1 {
        lemma_max_index_bound(phs.drop_last(), k);
    }
}

/// Replaces each placeholder `$n` by the `n`-th bound value: a `NULL`, or the value as a
/// quoted string literal with `'` doubled. The highest `$n` must equal the number of values.
pub fn substitute_params(sql: &str, params: &[Option<String>]) -> (r: Result<String, String>)
    requires
        placeholders_fit(sql@),
    ensures
        max_index(placeholders(sql@)) != params@.len() <==> r is Err,
        max_index(byte_placeholders(utf8(sql@))) != params@.len() <==> r is Err,
        r matches Ok(out) ==> out@ == substituted(sql@, params_view(params@)),
        r matches Ok(out) ==> utf8(out@) == byte_substituted(utf8(sql@), params_view(params@)),
        r matches Ok(out) ==> placeholders(out@).len() == 0,
        r matches Ok(out) ==> byte_placeholders(utf8(out@)).len() == 0,
        r matches Err(msg) ==> msg@ == count_mismatch_message(
            params@.len(),
            max_index(placeholders(sql@)) as nat,
        ),
{
    proof {
        law_byte_and_char_scans_agree(sql@);
        law_substitution_by_byte_spans(sql@, params_view(params@));
    }
    let s = chars_of(sql);
    let phs = char_placeholders(sql);
    let ghost sv = phs_view(phs@);
    let mut max_n: usize = 0;
    let mut k: usize = 0;
    while k < phs.len()
        invariant
            k <= phs@.len(),
            sv == phs_view(phs@),
            max_n as int == max_index(sv.take(k as int)),
        decreases phs.len() - k,
    {
        proof {
            let t = sv.take(k + 1);
            assert(t.drop_last() =~= sv.take(k as int));
            assert(t.last() == ph_view(phs@[k as int]));
        }
        if phs[k].n > max_n {
            max_n = phs[k].n;
        }
        k += 1;
    }
    assert(sv.take(phs@.len() as int) =~= sv);
    if max_n != params.len() {
        let a = format_decimal(params.len() as u64);
        let b = format_decimal(max_n as u64);
        let m1 = concat_chars(&chars_of("bind parameter count "), &a);
        let m2 = concat_chars(&m1, &chars_of(" does not match statement placeholders (expect "));
        let m3 = concat_chars(&m2, &b);
        let m4 = concat_chars(&m3, &chars_of(" for max index)"));
        return Err(string_from_chars(&m4));
    }
    let ghost pv = params_view(params@);
    let mut out: Vec<char> = Vec::new();
    let mut pos: usize = 0;
    let mut k: usize = 0;
    while k < phs.len()
        invariant
            k <= phs@.len(),
            sv == phs_view(phs@),
            sv == placeholders(sql@),
            s@ == sql@,
            well_formed_from(sql@, sv, 0),
            pv == params_view(params@),
            max_n == params@.len(),
            max_n as int == max_index(sv),
            pos <= s@.len(),
            k < phs@.len() ==> pos <= phs@[k as int].start,
            out@ + spliced(s@, sv, pv, k as int, pos as int) == spliced(s@, sv, pv, 0, 0),
        decreases phs.len() - k,
    {
        let p = phs[k];
        assert(sv[k as int] == ph_view(p));
        proof {
            lemma_max_index_bound(sv, k as int);
        }
        let ghost before = out@;
        push_range(&mut out, &s, pos, p.start);
        match &params[p.n - 1] {
            Some(v) => {
                let vc = chars_of(v.as_str());
                out.push('\'');
                push_escaped(&mut out, &vc);
                out.push('\'');
            },
            None => {
                out.push('N');
                out.push('U');
                out.push('L');
                out.push('L');
            },
        }
        assert(out@ =~= before + s@.subrange(pos as int, p.start as int) + replacement(pv[p.n - 1]));
        pos = p.end;
        k += 1;
        if k < phs.len() {
            assert(sv[k - 1].1 <= sv[k as int].0);
            assert(sv[k as int] == ph_view(phs@[k as int]));
        }
    }
    push_range(&mut out, &s, pos, s.len());
    assert(out@ == spliced(s@, sv, pv, 0, 0));
    proof {
        law_substitution_leaves_no_placeholder(sql@, pv);
    }
    Ok(string_from_chars(&out))
}

pub open spec fn is_alias_char(c: char) -> bool {
    is_ascii_alphanumeric(c) || c == '_'
}

/// Length of the leading run of identifier characters (ASCII letters, digits, `_`).
pub open spec fn alias_len(s: Seq<char>) -> int
    decreases s.len(),
{
    if s.len() > 0 && is_alias_char(s[0]) {
        1 + alias_len(s.drop_first())
    } else {
        0
    }
}

/// The column name that a `SELECT ... AS name` statement with placeholders gives its
/// result, read after the last ` as ` without running the statement.
pub open spec fn select_aliases(sql: Seq<char>) -> Seq<Seq<char>> {
    let t = trim(sql);
    let low = lower(t);
    if max_index_i16(placeholders(sql)) == 0 || !starts_with(low, "select"@) {
        seq![]
    } else if exists|pos: int| last_occurrence(low, " as "@, pos) {
        let pos = choose|pos: int| last_occurrence(low, " as "@, pos);
        let after = trim(t.subrange(pos + 4, t.len() as int));
        let name = after.take(alias_len(after));
        if name.len() > 0 {
            seq![name]
        } else {
            seq![]
        }
    } else {
        seq![]
    }
}

pub open spec fn strings_view(v: Seq<String>) -> Seq<Seq<char>> {
    v.map_values(|s: String| s@)
}

proof fn lemma_alias_len_run(s: Seq<char>, i: int)
    requires
        0 <= i <= s.len(),
        forall|k: int| 0 <= k < i ==> is_alias_char(#[trigger] s[k]),
        i == s.len() || !is_alias_char(s[i]),
    ensures
        alias_len(s) == i,
    decreases i,
{
    if i > 0 {
        let t = s.drop_first();
        assert forall|k: int| 0 <= k < i - 1 implies is_alias_char(#[trigger] t[k]) by {
            assert(t[k] == s[k + 1]);
        }
        lemma_alias_len_run(t, i - 1);
    }
}

/// Column names for a `SELECT $1 AS n`-style statement, found without executing it.
pub fn placeholder_select_aliases(sql: &str) -> (r: Vec<String>)
    requires
        placeholders_fit(sql@),
    ensures
        strings_view(r@) == select_aliases(sql@),
{
    let none: Vec<String> = Vec::new();
    assert(strings_view(none@) =~= Seq::<Seq<char>>::empty());
    let chars = chars_of(sql);
    let t = trim_chars(&chars);
    let low = lower_chars(&t);
    if max_param_index(sql) == 0 || !starts_with_chars(&low, &chars_of("select")) {
        return none;
    }
    match rfind_chars(&low, &chars_of(" as ")) {
        Some(pos) => {
            proof {
                let p = choose|p: int| last_occurrence(low@, " as "@, p);
                assert(last_occurrence(low@, " as "@, p));
                if p < pos {
                } else if p > pos {
                }
                assert(p == pos);
                reveal_strlit(" as ");
            }
            assert(low@.len() == t@.len());
            let tl = t.len();
            assert(pos + 4 <= tl);
            let after = trim_chars(&slice_chars(&t, pos + 4, t.len()));
            let mut k: usize = 0;
            while k < after.len() && (is_alphanumeric_char(after[k]) || after[k] == '_')
                invariant
                    k <= after@.len(),
                    forall|m: int| 0 <= m < k ==> is_alias_char(#[trigger] after@[m]),
                decreases after.len() - k,
            {
                k += 1;
            }
            proof {
                lemma_alias_len_run(after@, k as int);
            }
            let name = slice_chars(&after, 0, k);
            assert(name@ =~= after@.take(k as int));
            if name.len() > 0 {
                let mut r: Vec<String> = Vec::new();
                r.push(string_from_chars(&name));
                assert(strings_view(r@) =~= seq![name@]);
                r
            } else {
                none
            }
        },
        None => none,
    }
}

/// The scan step at a `$` followed by a digit in the normal state.
proof fn lemma_scan_normal_dollar(s: Seq<char>, i: int)
    requires
        0 <= i,
        i + 1 < s.len(),
        s[i] == '$',
        is_ascii_digit(s[i + 1]),
    ensures
        scan(s, i, ScanState::Normal) == (if run_value(s, i + 1, digit_run_end(s, i + 1)) > 0 {
            seq![(i, digit_run_end(s, i + 1), run_value(s, i + 1, digit_run_end(s, i + 1)))]
                + scan(s, digit_run_end(s, i + 1), ScanState::Normal)
        } else {
            scan(s, digit_run_end(s, i + 1), ScanState::Normal)
        }),
{
}


/// The placeholder numbers, in order.
pub open spec fn numbers(phs: Seq<(int, int, int)>) -> Seq<int> {
    phs.map_values(|p: (int, int, int)| p.2)
}

proof fn lemma_numbers_push_front(x: (int, int, int), rest: Seq<(int, int, int)>)
    ensures
        numbers(seq![x] + rest) == seq![x.2] + numbers(rest),
{
    assert(numbers(seq![x] + rest) =~= seq![x.2] + numbers(rest));
}

/// Spans moved `d` positions on.
pub open spec fn shifted(phs: Seq<(int, int, int)>, d: int) -> Seq<(int, int, int)> {
    phs.map_values(|p: (int, int, int)| (p.0 + d, p.1 + d, p.2))
}

proof fn lemma_shifted_push_front(x: (int, int, int), rest: Seq<(int, int, int)>, d: int)
    ensures
        shifted(seq![x] + rest, d) == seq![(x.0 + d, x.1 + d, x.2)] + shifted(rest, d),
{
    assert(shifted(seq![x] + rest, d) =~= seq![(x.0 + d, x.1 + d, x.2)] + shifted(rest, d));
}

/// The largest placeholder number depends on the numbers alone.
proof fn lemma_max_index_numbers(a: Seq<(int, int, int)>, b: Seq<(int, int, int)>)
    requires
        numbers(a) == numbers(b),
    ensures
        max_index(a) == max_index(b),
    decreases a.len(),
{
    assert(a.len() == numbers(a).len());
    assert(b.len() == numbers(b).len());
    if a.len() > 0 {
        assert(numbers(a.drop_last()) =~= numbers(a).drop_last());
        assert(numbers(b.drop_last()) =~= numbers(b).drop_last());
        assert(numbers(a)[a.len() - 1] == a.last().2);
        assert(numbers(b)[b.len() - 1] == b.last().2);
        lemma_max_index_numbers(a.drop_last(), b.drop_last());
    }
}

/// The digit run that starts at `p` ends at `q` when `p..q` are digits and `q` is not.
proof fn lemma_run_end_at(t: Seq<char>, p: int, q: int)
    requires
        0 <= p <= q <= t.len(),
        forall|k: int| p <= k < q ==> is_ascii_digit(#[trigger] t[k]),
        q == t.len() || !is_ascii_digit(t[q]),
    ensures
        digit_run_end(t, p) == q,
    decreases q - p,
{
    if p < q {
        lemma_run_end_at(t, p + 1, q);
    }
}

/// The value of a digit run depends only on its characters.
proof fn lemma_run_value_same(s: Seq<char>, a: int, t: Seq<char>, b: int, len: int)
    requires
        0 <= len,
        0 <= a,
        a + len <= s.len(),
        0 <= b,
        b + len <= t.len(),
        forall|k: int| a <= k < a + len ==> #[trigger] s[k] == t[k - a + b],
    ensures
        run_value(s, a, a + len) == run_value(t, b, b + len),
    decreases len,
{
    if len > 0 {
        lemma_run_value_same(s, a, t, b, len - 1);
        assert(s[a + len - 1] == t[(a + len - 1) - a + b]);
    }
}

/// Scanning from `i` finds as many placeholders in `s` as from `i - d` in `s.skip(d)`.
proof fn lemma_scan_skip(s: Seq<char>, d: int, i: int, st: ScanState)
    requires
        0 <= d <= i,
        d <= s.len(),
    ensures
        scan(s, i, st).len() == scan(s.skip(d), i - d, st).len(),
        numbers(scan(s, i, st)) == numbers(scan(s.skip(d), i - d, st)),
        scan(s, i, st) == shifted(scan(s.skip(d), i - d, st), d),
    decreases s.len() - i,
{
    let t = s.skip(d);
    if i < s.len() {
        assert(t[i - d] == s[i]);
        if i + 1 < s.len() {
            assert(t[i - d + 1] == s[i + 1]);
        }
        match st {
            ScanState::Normal => {
                if s[i] == '\'' {
                    lemma_scan_skip(s, d, i + 1, ScanState::SingleQuote);
                } else if s[i] == '"' {
                    lemma_scan_skip(s, d, i + 1, ScanState::DoubleQuote);
                } else if i + 1 < s.len() && s[i] == '-' && s[i + 1] == '-' {
                    lemma_scan_skip(s, d, i + 2, ScanState::LineComment);
                } else if i + 1 < s.len() && s[i] == '/' && s[i + 1] == '*' {
                    lemma_scan_skip(s, d, i + 2, ScanState::BlockComment);
                } else if s[i] == '$' && i + 1 < s.len() && is_ascii_digit(s[i + 1]) {
                    lemma_digit_run_end_bounds(s, i + 1);
                    let j = digit_run_end(s, i + 1);
                    lemma_digit_run_end_bounds(t, i + 1 - d);
                    assert forall|k: int| i + 1 - d <= k < j - d implies is_ascii_digit(
                        #[trigger] t[k],
                    ) by {
                        assert(t[k] == s[k + d]);
                    }
                    if j < s.len() {
                        assert(t[j - d] == s[j]);
                    }
                    lemma_run_end_at(t, i + 1 - d, j - d);
                    assert forall|k: int| i + 1 <= k < j implies #[trigger] s[k] == t[k - (i + 1)
                        + (i + 1 - d)] by {}
                    lemma_run_value_same(s, i + 1, t, i + 1 - d, j - (i + 1));
                    lemma_scan_normal_dollar(s, i);
                    lemma_scan_normal_dollar(t, i - d);
                    lemma_scan_skip(s, d, j, ScanState::Normal);
                    let n = run_value(s, i + 1, j);
                    lemma_numbers_push_front((i, j, n), scan(s, j, ScanState::Normal));
                    lemma_numbers_push_front((i - d, j - d, n), scan(t, j - d, ScanState::Normal));
                    lemma_shifted_push_front((i - d, j - d, n), scan(t, j - d, ScanState::Normal), d);
                } else {
                    lemma_scan_skip(s, d, i + 1, ScanState::Normal);
                }
            },
            ScanState::SingleQuote => {
                lemma_scan_skip(s, d, i + 1, ScanState::Normal);
                lemma_scan_skip(s, d, i + 1, ScanState::SingleQuote);
                if i + 2 <= s.len() {
                    lemma_scan_skip(s, d, i + 2, ScanState::SingleQuote);
                }
            },
            ScanState::DoubleQuote => {
                lemma_scan_skip(s, d, i + 1, ScanState::Normal);
                lemma_scan_skip(s, d, i + 1, ScanState::DoubleQuote);
                if i + 2 <= s.len() {
                    lemma_scan_skip(s, d, i + 2, ScanState::DoubleQuote);
                }
            },
            ScanState::LineComment => {
                lemma_scan_skip(s, d, i + 1, ScanState::Normal);
                lemma_scan_skip(s, d, i + 1, ScanState::LineComment);
            },
            ScanState::BlockComment => {
                lemma_scan_skip(s, d, i + 1, ScanState::BlockComment);
                if i + 2 <= s.len() {
                    lemma_scan_skip(s, d, i + 2, ScanState::Normal);
                }
            },
        }
    }
}

/// Where the scan meets placeholder `k`, it is in the normal state, and it goes on from
/// the placeholder's end, in the normal state, with the placeholders after it.
proof fn lemma_scan_at_placeholder(
    s: Seq<char>,
    phs: Seq<(int, int, int)>,
    k: int,
    st: ScanState,
)
    requires
        well_formed_from(s, phs, 0),
        0 <= k < phs.len(),
        scan(s, phs[k].0, st) == phs.skip(k),
    ensures
        st == ScanState::Normal,
        scan(s, phs[k].1, ScanState::Normal) == phs.skip(k + 1),
{
    let p = phs[k];
    let a = p.0;
    assert(phs.skip(k)[0] == p);
    lemma_digit_run_end_bounds(s, a + 1);
    assert(is_ascii_digit(s[a + 1]));
    if st != ScanState::Normal {
        assert(scan(s, a, st) == scan(s, a + 1, st));
        lemma_scan_well_formed(s, a + 1, st);
        assert(false);
    }
    lemma_scan_normal_dollar(s, a);
    assert(scan(s, a, st) == seq![(a, p.1, p.2)] + scan(s, p.1, ScanState::Normal));
    assert(phs.skip(k + 1) =~= phs.skip(k).skip(1));
    assert((seq![(a, p.1, p.2)] + scan(s, p.1, ScanState::Normal)).skip(1) =~= scan(
        s,
        p.1,
        ScanState::Normal,
    ));
}

/// Every placeholder number names a bound value.
pub open spec fn numbers_bound(phs: Seq<(int, int, int)>, count: int) -> bool {
    forall|q: int| 0 <= q < phs.len() ==> 1 <= #[trigger] phs[q].2 <= count
}

/// One scan step of `s` at `i` that finds nothing is taken alike at the start of the
/// substituted text from `i` on.
proof fn lemma_spliced_step(
    s: Seq<char>,
    phs: Seq<(int, int, int)>,
    params: Seq<Option<Seq<char>>>,
    k: int,
    i: int,
    st: ScanState,
    d: int,
    st2: ScanState,
)
    requires
        well_formed_from(s, phs, 0),
        numbers_bound(phs, params.len() as int),
        0 <= k < phs.len(),
        0 <= i,
        1 <= d,
        i + d <= phs[k].0,
        scan(s, i, st) == phs.skip(k),
        scan(s, i, st) == scan(s, i + d, st2),
        scan(spliced(s, phs, params, k, i), 0, st) == scan(spliced(s, phs, params, k, i), d, st2),
    ensures
        scan(spliced(s, phs, params, k, i), 0, st).len() == 0,
    decreases s.len() - i, 0int, 0int,
{
    let u = spliced(s, phs, params, k, i);
    let p = phs[k];
    lemma_scan_skip(u, d, d, st2);
    assert(u.skip(d) =~= spliced(s, phs, params, k, i + d));
    lemma_spliced_clean(s, phs, params, k, i + d, st2);
}

/// What the substituted text from position `i` of `s` on is made of, while placeholder
/// `k` is still ahead: the text up to it, its replacement, and the rest.
proof fn lemma_spliced_parts(
    s: Seq<char>,
    phs: Seq<(int, int, int)>,
    params: Seq<Option<Seq<char>>>,
    k: int,
    i: int,
)
    requires
        well_formed_from(s, phs, 0),
        numbers_bound(phs, params.len() as int),
        0 <= k < phs.len(),
        0 <= i <= phs[k].0,
    ensures
        spliced(s, phs, params, k, i) == s.subrange(i, phs[k].0) + replacement(
            params[phs[k].2 - 1],
        ) + spliced(s, phs, params, k + 1, phs[k].1),
        replacement(params[phs[k].2 - 1]).len() >= 1,
        replacement(params[phs[k].2 - 1])[0] == 'N' || replacement(params[phs[k].2 - 1])[0]
            == '\'',
        phs[k].0 + 1 < phs[k].1 <= s.len(),
        s[phs[k].0] == '$',
        k + 1 < phs.len() ==> phs[k].1 <= phs[k + 1].0,
{
    let p = phs[k];
    if k + 1 < phs.len() {
        assert(phs[k].1 <= phs[k + 1].0);
    }
    match params[p.2 - 1] {
        Some(v) => {},
        None => {},
    }
}

/// Scanning the substituted text from the place that stands for position `i` of `s`
/// finds no placeholder, when scanning `s` from `i` finds exactly the placeholders
/// `phs[k..]` that were replaced.
proof fn lemma_spliced_clean(
    s: Seq<char>,
    phs: Seq<(int, int, int)>,
    params: Seq<Option<Seq<char>>>,
    k: int,
    i: int,
    st: ScanState,
)
    requires
        well_formed_from(s, phs, 0),
        numbers_bound(phs, params.len() as int),
        0 <= k <= phs.len(),
        0 <= i <= s.len(),
        k < phs.len() ==> i <= phs[k].0,
        scan(s, i, st) == phs.skip(k),
    ensures
        scan(spliced(s, phs, params, k, i), 0, st).len() == 0,
    decreases s.len() - i, 0int, 3int,
{
    if k == phs.len() {
        lemma_scan_skip(s, i, i, st);
        assert(s.skip(i) =~= spliced(s, phs, params, k, i));
    } else if i == phs[k].0 {
        lemma_spliced_at_placeholder(s, phs, params, k, st);
    } else {
        lemma_spliced_before(s, phs, params, k, i, st);
    }
}

/// The substituted text from placeholder `k` on: its replacement and the rest.
proof fn lemma_spliced_at_placeholder(
    s: Seq<char>,
    phs: Seq<(int, int, int)>,
    params: Seq<Option<Seq<char>>>,
    k: int,
    st: ScanState,
)
    requires
        well_formed_from(s, phs, 0),
        numbers_bound(phs, params.len() as int),
        0 <= k < phs.len(),
        scan(s, phs[k].0, st) == phs.skip(k),
    ensures
        scan(spliced(s, phs, params, k, phs[k].0), 0, st).len() == 0,
    decreases s.len() - phs[k].0, 0int, 2int,
{
    let p = phs[k];
    let a = p.0;
    let j = p.1;
    let u = spliced(s, phs, params, k, a);
    let c = spliced(s, phs, params, k + 1, j);
    lemma_spliced_parts(s, phs, params, k, a);
    lemma_scan_at_placeholder(s, phs, k, st);
    assert(u =~= replacement(params[p.2 - 1]) + c);
    match params[p.2 - 1] {
        None => {
            assert(u[0] == 'N' && u[1] == 'U' && u[2] == 'L' && u[3] == 'L');
            assert(scan(u, 0, st) == scan(u, 1, st));
            assert(scan(u, 1, st) == scan(u, 2, st));
            assert(scan(u, 2, st) == scan(u, 3, st));
            assert(scan(u, 3, st) == scan(u, 4, st));
            lemma_scan_skip(u, 4, 4, st);
            assert(u.skip(4) =~= c);
            lemma_spliced_clean(s, phs, params, k + 1, j, st);
        },
        Some(v) => {
            assert(u[0] == '\'');
            assert(scan(u, 0, st) == scan(u, 1, ScanState::SingleQuote));
            lemma_scan_skip(u, 1, 1, ScanState::SingleQuote);
            assert(u.skip(1) =~= escape_quotes(v) + seq!['\''] + c);
            lemma_literal_clean(s, phs, params, k, v);
        },
    }
}

/// The substituted text from position `i` of `s`, before placeholder `k`.
#[verifier::rlimit(40)]
proof fn lemma_spliced_before(
    s: Seq<char>,
    phs: Seq<(int, int, int)>,
    params: Seq<Option<Seq<char>>>,
    k: int,
    i: int,
    st: ScanState,
)
    requires
        well_formed_from(s, phs, 0),
        numbers_bound(phs, params.len() as int),
        0 <= k < phs.len(),
        0 <= i < phs[k].0,
        scan(s, i, st) == phs.skip(k),
    ensures
        scan(spliced(s, phs, params, k, i), 0, st).len() == 0,
    decreases s.len() - i, 0int, 2int,
{
    let p = phs[k];
    let a = p.0;
    let r = replacement(params[p.2 - 1]);
    let c = spliced(s, phs, params, k + 1, p.1);
    let u = spliced(s, phs, params, k, i);
    lemma_spliced_parts(s, phs, params, k, i);
    assert(phs.skip(k)[0] == p);
    assert(u[0] == s[i]);
    if i + 1 < a {
        assert(u[1] == s[i + 1]);
    } else {
        assert(u[1] == r[0]);
    }
    match st {
        ScanState::Normal => {
            if s[i] == '\'' {
                lemma_spliced_step(s, phs, params, k, i, st, 1, ScanState::SingleQuote);
            } else if s[i] == '"' {
                lemma_spliced_step(s, phs, params, k, i, st, 1, ScanState::DoubleQuote);
            } else if i + 1 < s.len() && s[i] == '-' && s[i + 1] == '-' {
                lemma_spliced_step(s, phs, params, k, i, st, 2, ScanState::LineComment);
            } else if i + 1 < s.len() && s[i] == '/' && s[i + 1] == '*' {
                lemma_spliced_step(s, phs, params, k, i, st, 2, ScanState::BlockComment);
            } else if s[i] == '$' && i + 1 < s.len() && is_ascii_digit(s[i + 1]) {
                lemma_spliced_zero_run(s, phs, params, k, i);
            } else {
                lemma_spliced_step(s, phs, params, k, i, st, 1, ScanState::Normal);
            }
        },
        ScanState::SingleQuote => {
            if s[i] == '\'' {
                if i + 1 < s.len() && s[i + 1] == '\'' {
                    lemma_spliced_step(s, phs, params, k, i, st, 2, st);
                } else if i + 1 < a {
                    lemma_spliced_step(s, phs, params, k, i, st, 1, ScanState::Normal);
                } else {
                    match params[p.2 - 1] {
                        None => {
                            lemma_spliced_step(s, phs, params, k, i, st, 1, ScanState::Normal);
                        },
                        Some(v) => {
                            assert(scan(s, i, st) == scan(s, a, ScanState::Normal));
                            lemma_scan_at_placeholder(s, phs, k, ScanState::Normal);
                            assert(u =~= seq![s[i]] + r + c);
                            assert(scan(u, 0, st) == scan(u, 2, st));
                            lemma_scan_skip(u, 2, 2, st);
                            assert(u.skip(2) =~= escape_quotes(v) + seq!['\''] + c);
                            lemma_literal_clean(s, phs, params, k, v);
                        },
                    }
                }
            } else {
                lemma_spliced_step(s, phs, params, k, i, st, 1, st);
            }
        },
        ScanState::DoubleQuote => {
            if s[i] == '"' {
                if i + 1 < s.len() && s[i + 1] == '"' {
                    lemma_spliced_step(s, phs, params, k, i, st, 2, st);
                } else {
                    lemma_spliced_step(s, phs, params, k, i, st, 1, ScanState::Normal);
                }
            } else {
                lemma_spliced_step(s, phs, params, k, i, st, 1, st);
            }
        },
        ScanState::LineComment => {
            if s[i] == '\n' {
                lemma_spliced_step(s, phs, params, k, i, st, 1, ScanState::Normal);
            } else {
                lemma_spliced_step(s, phs, params, k, i, st, 1, st);
            }
        },
        ScanState::BlockComment => {
            if i + 1 < s.len() && s[i] == '*' && s[i + 1] == '/' {
                lemma_spliced_step(s, phs, params, k, i, st, 2, ScanState::Normal);
            } else {
                lemma_spliced_step(s, phs, params, k, i, st, 1, st);
            }
        },
    }
}

/// Before placeholder `k`, a `$` with digits of value 0 is passed over alike in `s` and
/// in the substituted text.
proof fn lemma_spliced_zero_run(
    s: Seq<char>,
    phs: Seq<(int, int, int)>,
    params: Seq<Option<Seq<char>>>,
    k: int,
    i: int,
)
    requires
        well_formed_from(s, phs, 0),
        numbers_bound(phs, params.len() as int),
        0 <= k < phs.len(),
        0 <= i < phs[k].0,
        scan(s, i, ScanState::Normal) == phs.skip(k),
        s[i] == '$',
        i + 1 < s.len(),
        is_ascii_digit(s[i + 1]),
    ensures
        scan(spliced(s, phs, params, k, i), 0, ScanState::Normal).len() == 0,
    decreases s.len() - i, 0int, 1int,
{
    let p = phs[k];
    let a = p.0;
    let r = replacement(params[p.2 - 1]);
    let u = spliced(s, phs, params, k, i);
    lemma_spliced_parts(s, phs, params, k, i);
    assert(phs.skip(k)[0] == p);
    lemma_digit_run_end_bounds(s, i + 1);
    let jr = digit_run_end(s, i + 1);
    if jr > a {
        assert(is_ascii_digit(s[a]));
    }
    lemma_scan_normal_dollar(s, i);
    if run_value(s, i + 1, jr) > 0 {
        assert(scan(s, i, ScanState::Normal)[0].0 == i);
    }
    assert forall|q: int| 1 <= q < jr - i implies is_ascii_digit(#[trigger] u[q]) by {
        assert(u[q] == s[q + i]);
    }
    if jr < a {
        assert(u[jr - i] == s[jr]);
    } else {
        assert(u[jr - i] == r[0]);
    }
    lemma_run_end_at(u, 1, jr - i);
    assert forall|q: int| i + 1 <= q < jr implies #[trigger] s[q] == u[q - (i + 1) + 1] by {}
    lemma_run_value_same(s, i + 1, u, 1, jr - (i + 1));
    assert(u[0] == '$');
    lemma_scan_normal_dollar(u, 0);
    lemma_spliced_step(s, phs, params, k, i, ScanState::Normal, jr - i, ScanState::Normal);
}

/// Scanning the inside of a quoted literal that replaced placeholder `k` (the rest `v` of
/// the value, its closing quote, then the text after it) finds no placeholder.
proof fn lemma_literal_clean(
    s: Seq<char>,
    phs: Seq<(int, int, int)>,
    params: Seq<Option<Seq<char>>>,
    k: int,
    v: Seq<char>,
)
    requires
        well_formed_from(s, phs, 0),
        numbers_bound(phs, params.len() as int),
        0 <= k < phs.len(),
        scan(s, phs[k].1, ScanState::Normal) == phs.skip(k + 1),
    ensures
        scan(
            escape_quotes(v) + seq!['\''] + spliced(s, phs, params, k + 1, phs[k].1),
            0,
            ScanState::SingleQuote,
        ).len() == 0,
    decreases s.len() - phs[k].1, 1int, v.len() as int,
{
    let p = phs[k];
    let j = p.1;
    let c = spliced(s, phs, params, k + 1, j);
    let e = escape_quotes(v) + seq!['\''] + c;
    if k + 1 < phs.len() {
        assert(phs[k].1 <= phs[k + 1].0);
    }
    if v.len() == 0 {
        assert(e =~= seq!['\''] + c);
        if c.len() > 0 && c[0] == '\'' {
            assert(scan(e, 0, ScanState::SingleQuote) == scan(e, 2, ScanState::SingleQuote));
            lemma_scan_skip(e, 2, 2, ScanState::SingleQuote);
            assert(e.skip(2) =~= c.skip(1));
            if k + 1 < phs.len() && j == phs[k + 1].0 {
                let p2 = phs[k + 1];
                let c2 = spliced(s, phs, params, k + 2, p2.1);
                assert(c =~= replacement(params[p2.2 - 1]) + c2);
                lemma_scan_at_placeholder(s, phs, k + 1, ScanState::Normal);
                match params[p2.2 - 1] {
                    None => {
                        assert(c[0] == 'N');
                    },
                    Some(v2) => {
                        assert(c.skip(1) =~= escape_quotes(v2) + seq!['\''] + c2);
                        lemma_literal_clean(s, phs, params, k + 1, v2);
                    },
                }
            } else {
                assert(j < s.len());
                assert(c[0] == s[j]);
                assert(scan(s, j, ScanState::Normal) == scan(s, j + 1, ScanState::SingleQuote));
                assert(c.skip(1) =~= spliced(s, phs, params, k + 1, j + 1));
                lemma_spliced_clean(s, phs, params, k + 1, j + 1, ScanState::SingleQuote);
            }
        } else {
            assert(scan(e, 0, ScanState::SingleQuote) == scan(e, 1, ScanState::Normal));
            lemma_scan_skip(e, 1, 1, ScanState::Normal);
            assert(e.skip(1) =~= c);
            lemma_spliced_clean(s, phs, params, k + 1, j, ScanState::Normal);
        }
    } else {
        let e1 = escape_quotes(v.drop_first()) + seq!['\''] + c;
        if v[0] == '\'' {
            assert(e =~= seq!['\'', '\''] + e1);
            assert(scan(e, 0, ScanState::SingleQuote) == scan(e, 2, ScanState::SingleQuote));
            lemma_scan_skip(e, 2, 2, ScanState::SingleQuote);
            assert(e.skip(2) =~= e1);
        } else {
            assert(e =~= seq![v[0]] + e1);
            assert(scan(e, 0, ScanState::SingleQuote) == scan(e, 1, ScanState::SingleQuote));
            lemma_scan_skip(e, 1, 1, ScanState::SingleQuote);
            assert(e.skip(1) =~= e1);
        }
        lemma_literal_clean(s, phs, params, k, v.drop_first());
    }
}

/// When every placeholder has a bound value, the substituted statement has no
/// placeholder left, by character or in its UTF-8 bytes: each value stands as `NULL` or
/// inside a quoted literal with its quotes doubled, so no value can end its literal early
/// or bring in a `$n`.
pub proof fn law_substitution_leaves_no_placeholder(
    sql: Seq<char>,
    params: Seq<Option<Seq<char>>>,
)
    requires
        max_index(placeholders(sql)) == params.len(),
    ensures
        placeholders(substituted(sql, params)).len() == 0,
        byte_placeholders(utf8(substituted(sql, params))).len() == 0,
{
    law_byte_and_char_scans_agree(substituted(sql, params));
    let phs = placeholders(sql);
    lemma_scan_well_formed(sql, 0, ScanState::Normal);
    assert forall|q: int| 0 <= q < phs.len() implies 1 <= #[trigger] phs[q].2 <= params.len() by {
        lemma_max_index_bound(phs, q);
    }
    assert(phs.skip(0) =~= phs);
    lemma_spliced_clean(sql, phs, params, 0, 0, ScanState::Normal);
}

// Placeholders by byte and by character are the same: every byte the scan looks for
// is ASCII, an ASCII character is one byte of the same value, and every byte of any
// other character lies outside ASCII.

/// The UTF-8 encoding of one character: the character itself as one byte when it is
/// ASCII, and otherwise bytes that all lie outside ASCII.
proof fn lemma_encode_char(c: char)
    ensures
        encode_scalar(c as u32).len() >= 1,
        (c as u32) < 0x80 ==> encode_scalar(c as u32) == seq![(c as u32) as u8],
        (c as u32) < 0x80 ==> ((c as u32) as u8) as int == c as int,
        (c as u32) >= 0x80 ==> forall|k: int|
            0 <= k < encode_scalar(c as u32).len() ==> #[trigger] encode_scalar(c as u32)[k]
                >= 0x80,
{
    let u = c as u32;
    if u < 0x80 {
        assert(leading_byte_width_1(u) == u as u8) by (bit_vector)
            requires
                u < 0x80,
        ;
    } else {
        assert(leading_byte_width_2(u) >= 0x80) by (bit_vector);
        assert(leading_byte_width_3(u) >= 0x80) by (bit_vector);
        assert(leading_byte_width_4(u) >= 0x80) by (bit_vector);
        assert(last_continuation_byte(u) >= 0x80) by (bit_vector);
        assert(second_last_continuation_byte(u) >= 0x80) by (bit_vector);
        assert(third_last_continuation_byte(u) >= 0x80) by (bit_vector);
    }
}

/// The encoding of characters that are all ASCII, followed by the rest.
proof fn lemma_utf8_ascii_prefix(t: Seq<char>, m: int)
    requires
        0 <= m <= t.len(),
        forall|k: int| 0 <= k < m ==> (#[trigger] t[k] as u32) < 0x80,
    ensures
        utf8(t).len() == m + utf8(t.skip(m)).len(),
        utf8(t).skip(m) == utf8(t.skip(m)),
        forall|k: int| 0 <= k < m ==> (#[trigger] utf8(t)[k]) as int == t[k] as int,
    decreases m,
{
    if m > 0 {
        let r = t.drop_first();
        assert((t[0] as u32) < 0x80);
        lemma_encode_char(t[0]);
        assert forall|k: int| 0 <= k < m - 1 implies (#[trigger] r[k] as u32) < 0x80 by {
            assert(r[k] == t[k + 1]);
        }
        lemma_utf8_ascii_prefix(r, m - 1);
        assert(utf8(t) == encode_scalar(t[0] as u32) + utf8(r));
        assert(r.skip(m - 1) =~= t.skip(m));
        assert forall|k: int| 0 <= k < m implies (#[trigger] utf8(t)[k]) as int == t[k] as int by {
            if k > 0 {
                assert(utf8(t)[k] == utf8(r)[k - 1]);
                assert(r[k - 1] == t[k]);
            }
        }
        assert(utf8(t).skip(m) =~= utf8(r).skip(m - 1));
    } else {
        assert(t.skip(0) =~= t);
        assert(utf8(t).skip(0) =~= utf8(t));
    }
}

/// The first byte of the encoding of a nonempty text: the first character itself when it
/// is ASCII, and a byte outside ASCII otherwise.
proof fn lemma_utf8_first(t: Seq<char>)
    requires
        t.len() > 0,
    ensures
        utf8(t).len() > 0,
        (t[0] as u32) < 0x80 ==> utf8(t)[0] as int == t[0] as int,
        (t[0] as u32) >= 0x80 ==> utf8(t)[0] >= 0x80,
{
    lemma_encode_char(t[0]);
    assert(utf8(t) == encode_scalar(t[0] as u32) + utf8(t.drop_first()));
    assert(utf8(t)[0] == encode_scalar(t[0] as u32)[0]);
}

/// The byte digit run that starts at `p` ends at `q` when `p..q` are digits and `q` is not.
proof fn lemma_byte_run_end_at(t: Seq<u8>, p: int, q: int)
    requires
        0 <= p <= q <= t.len(),
        forall|k: int| p <= k < q ==> is_digit_byte(#[trigger] t[k]),
        q == t.len() || !is_digit_byte(t[q]),
    ensures
        byte_run_end(t, p) == q,
    decreases q - p,
{
    if p < q {
        lemma_byte_run_end_at(t, p + 1, q);
    }
}

/// Digit bytes and digit characters of the same values give the same number.
proof fn lemma_run_values_agree(b: Seq<u8>, t: Seq<char>, from: int, to: int)
    requires
        0 <= from,
        to <= b.len(),
        to <= t.len(),
        forall|k: int| from <= k < to ==> (#[trigger] b[k]) as int == t[k] as int,
    ensures
        byte_run_value(b, from, to) == run_value(t, from, to),
    decreases to - from,
{
    if to > from {
        lemma_run_values_agree(b, t, from, to - 1);
        assert(b[to - 1] as int == t[to - 1] as int);
    }
}

/// Scanning from byte `i` finds as many placeholders in `s` as from `i - d` in `s.skip(d)`.
proof fn lemma_byte_scan_skip(s: Seq<u8>, d: int, i: int, st: ScanState)
    requires
        0 <= d <= i,
        d <= s.len(),
    ensures
        byte_scan(s, i, st).len() == byte_scan(s.skip(d), i - d, st).len(),
        numbers(byte_scan(s, i, st)) == numbers(byte_scan(s.skip(d), i - d, st)),
        byte_scan(s, i, st) == shifted(byte_scan(s.skip(d), i - d, st), d),
    decreases s.len() - i,
{
    let t = s.skip(d);
    if i < s.len() {
        assert(t[i - d] == s[i]);
        if i + 1 < s.len() {
            assert(t[i - d + 1] == s[i + 1]);
        }
        match st {
            ScanState::Normal => {
                if s[i] == 0x27u8 {
                    lemma_byte_scan_skip(s, d, i + 1, ScanState::SingleQuote);
                } else if s[i] == 0x22u8 {
                    lemma_byte_scan_skip(s, d, i + 1, ScanState::DoubleQuote);
                } else if i + 1 < s.len() && s[i] == 0x2du8 && s[i + 1] == 0x2du8 {
                    lemma_byte_scan_skip(s, d, i + 2, ScanState::LineComment);
                } else if i + 1 < s.len() && s[i] == 0x2fu8 && s[i + 1] == 0x2au8 {
                    lemma_byte_scan_skip(s, d, i + 2, ScanState::BlockComment);
                } else if s[i] == 0x24u8 && i + 1 < s.len() && is_digit_byte(s[i + 1]) {
                    lemma_byte_run_end_bounds(s, i + 1);
                    let j = byte_run_end(s, i + 1);
                    assert forall|k: int| i + 1 - d <= k < j - d implies is_digit_byte(
                        #[trigger] t[k],
                    ) by {
                        assert(t[k] == s[k + d]);
                    }
                    if j < s.len() {
                        assert(t[j - d] == s[j]);
                    }
                    lemma_byte_run_end_at(t, i + 1 - d, j - d);
                    lemma_byte_run_value_shift(s, d, i + 1, j);
                    lemma_byte_scan_skip(s, d, j, ScanState::Normal);
                    lemma_byte_scan_normal_dollar(s, i);
                    lemma_byte_scan_normal_dollar(t, i - d);
                    let n = byte_run_value(s, i + 1, j);
                    lemma_numbers_push_front((i, j, n), byte_scan(s, j, ScanState::Normal));
                    lemma_numbers_push_front((i - d, j - d, n), byte_scan(t, j - d, ScanState::Normal));
                    lemma_shifted_push_front((i - d, j - d, n), byte_scan(t, j - d, ScanState::Normal), d);
                } else {
                    lemma_byte_scan_skip(s, d, i + 1, ScanState::Normal);
                }
            },
            ScanState::SingleQuote => {
                lemma_byte_scan_skip(s, d, i + 1, ScanState::Normal);
                lemma_byte_scan_skip(s, d, i + 1, ScanState::SingleQuote);
                if i + 2 <= s.len() {
                    lemma_byte_scan_skip(s, d, i + 2, ScanState::SingleQuote);
                }
            },
            ScanState::DoubleQuote => {
                lemma_byte_scan_skip(s, d, i + 1, ScanState::Normal);
                lemma_byte_scan_skip(s, d, i + 1, ScanState::DoubleQuote);
                if i + 2 <= s.len() {
                    lemma_byte_scan_skip(s, d, i + 2, ScanState::DoubleQuote);
                }
            },
            ScanState::LineComment => {
                lemma_byte_scan_skip(s, d, i + 1, ScanState::Normal);
                lemma_byte_scan_skip(s, d, i + 1, ScanState::LineComment);
            },
            ScanState::BlockComment => {
                lemma_byte_scan_skip(s, d, i + 1, ScanState::BlockComment);
                if i + 2 <= s.len() {
                    lemma_byte_scan_skip(s, d, i + 2, ScanState::Normal);
                }
            },
        }
    }
}

proof fn lemma_byte_run_value_shift(s: Seq<u8>, d: int, from: int, to: int)
    requires
        0 <= d <= from,
        d <= s.len(),
        to <= s.len(),
    ensures
        byte_run_value(s, from, to) == byte_run_value(s.skip(d), from - d, to - d),
    decreases to - from,
{
    if to > from {
        lemma_byte_run_value_shift(s, d, from, to - 1);
        assert(s.skip(d)[to - 1 - d] == s[to - 1]);
    }
}

/// Bytes outside ASCII are passed over in every state.
proof fn lemma_byte_scan_high(s: Seq<u8>, i: int, w: int, st: ScanState)
    requires
        0 <= i,
        0 <= w,
        i + w <= s.len(),
        forall|k: int| i <= k < i + w ==> #[trigger] s[k] >= 0x80,
    ensures
        byte_scan(s, i, st) == byte_scan(s, i + w, st),
    decreases w,
{
    if w > 0 {
        assert(s[i] >= 0x80);
        assert(byte_scan(s, i, st) == byte_scan(s, i + 1, st));
        lemma_byte_scan_high(s, i + 1, w - 1, st);
    }
}

/// After `d` ASCII characters, the byte scan and the character scan go on alike.
proof fn lemma_scans_agree_after(t: Seq<char>, d: int, st: ScanState)
    requires
        1 <= d <= t.len(),
        forall|k: int| 0 <= k < d ==> (#[trigger] t[k] as u32) < 0x80,
    ensures
        byte_scan(utf8(t), d, st).len() == scan(t, d, st).len(),
        numbers(byte_scan(utf8(t), d, st)) == numbers(scan(t, d, st)),
    decreases t.len(), 0int,
{
    lemma_utf8_ascii_prefix(t, d);
    lemma_byte_scan_skip(utf8(t), d, d, st);
    lemma_scan_skip(t, d, d, st);
    lemma_scans_agree(t.skip(d), st);
}

/// Scanning the UTF-8 encoding of `t` by byte finds as many placeholders as scanning
/// `t` by character.
#[verifier::rlimit(40)]
proof fn lemma_scans_agree(t: Seq<char>, st: ScanState)
    ensures
        byte_scan(utf8(t), 0, st).len() == scan(t, 0, st).len(),
        numbers(byte_scan(utf8(t), 0, st)) == numbers(scan(t, 0, st)),
    decreases t.len(), 2int,
{
    let b = utf8(t);
    if t.len() == 0 {
        assert(b.len() == 0);
    } else {
        let c = t[0];
        lemma_encode_char(c);
        lemma_utf8_first(t);
        assert(b == encode_scalar(c as u32) + utf8(t.drop_first()));
        if (c as u32) >= 0x80 {
            let w = encode_scalar(c as u32).len() as int;
            lemma_byte_scan_high(b, 0, w, st);
            lemma_byte_scan_skip(b, w, w, st);
            assert(b.skip(w) =~= utf8(t.drop_first()));
            assert(scan(t, 0, st) == scan(t, 1, st));
            lemma_scan_skip(t, 1, 1, st);
            assert(t.skip(1) =~= t.drop_first());
            lemma_scans_agree(t.drop_first(), st);
        } else {
            lemma_utf8_ascii_prefix(t, 1);
            if t.len() > 1 {
                lemma_utf8_first(t.skip(1));
                assert(b[1] == utf8(t.skip(1))[0]);
                assert(t.skip(1)[0] == t[1]);
            }
            match st {
                ScanState::Normal => {
                    if c == '\'' {
                        lemma_scans_agree_after(t, 1, ScanState::SingleQuote);
                    } else if c == '"' {
                        lemma_scans_agree_after(t, 1, ScanState::DoubleQuote);
                    } else if t.len() > 1 && c == '-' && t[1] == '-' {
                        lemma_scans_agree_after(t, 2, ScanState::LineComment);
                    } else if t.len() > 1 && c == '/' && t[1] == '*' {
                        lemma_scans_agree_after(t, 2, ScanState::BlockComment);
                    } else if c == '$' && t.len() > 1 && is_ascii_digit(t[1]) {
                        lemma_scans_agree_run(t);
                    } else {
                        lemma_scans_agree_after(t, 1, ScanState::Normal);
                    }
                },
                ScanState::SingleQuote => {
                    if c == '\'' && t.len() > 1 && t[1] == '\'' {
                        lemma_scans_agree_after(t, 2, st);
                    } else if c == '\'' {
                        lemma_scans_agree_after(t, 1, ScanState::Normal);
                    } else {
                        lemma_scans_agree_after(t, 1, st);
                    }
                },
                ScanState::DoubleQuote => {
                    if c == '"' && t.len() > 1 && t[1] == '"' {
                        lemma_scans_agree_after(t, 2, st);
                    } else if c == '"' {
                        lemma_scans_agree_after(t, 1, ScanState::Normal);
                    } else {
                        lemma_scans_agree_after(t, 1, st);
                    }
                },
                ScanState::LineComment => {
                    if c == '\n' {
                        lemma_scans_agree_after(t, 1, ScanState::Normal);
                    } else {
                        lemma_scans_agree_after(t, 1, st);
                    }
                },
                ScanState::BlockComment => {
                    if t.len() > 1 && c == '*' && t[1] == '/' {
                        lemma_scans_agree_after(t, 2, ScanState::Normal);
                    } else {
                        lemma_scans_agree_after(t, 1, st);
                    }
                },
            }
        }
    }
}

/// A `$` and its digits are one placeholder, or none, alike by byte and by character.
proof fn lemma_scans_agree_run(t: Seq<char>)
    requires
        t.len() > 1,
        t[0] == '$',
        is_ascii_digit(t[1]),
    ensures
        byte_scan(utf8(t), 0, ScanState::Normal).len() == scan(t, 0, ScanState::Normal).len(),
        numbers(byte_scan(utf8(t), 0, ScanState::Normal)) == numbers(scan(t, 0, ScanState::Normal)),
    decreases t.len(), 1int,
{
    let b = utf8(t);
    lemma_digit_run_end_bounds(t, 1);
    let j = digit_run_end(t, 1);
    assert forall|k: int| 0 <= k < j implies (#[trigger] t[k] as u32) < 0x80 by {
        if k > 0 {
            assert(is_ascii_digit(t[k]));
        }
    }
    lemma_utf8_ascii_prefix(t, j);
    assert forall|k: int| 1 <= k < j implies is_digit_byte(#[trigger] b[k]) by {
        assert(is_ascii_digit(t[k]));
        assert(b[k] as int == t[k] as int);
    }
    if j < t.len() {
        lemma_utf8_first(t.skip(j));
        assert(b[j] == utf8(t.skip(j))[0]);
        assert(t.skip(j)[0] == t[j]);
    }
    lemma_byte_run_end_at(b, 1, j);
    lemma_run_values_agree(b, t, 1, j);
    assert(b[0] as int == t[0] as int);
    assert(b[1] as int == t[1] as int);
    lemma_scan_normal_dollar(t, 0);
    lemma_byte_scan_normal_dollar(b, 0);
    lemma_scans_agree_after(t, j, ScanState::Normal);
    let n = run_value(t, 1, j);
    lemma_numbers_push_front((0, j, n), scan(t, j, ScanState::Normal));
    lemma_numbers_push_front((0, j, n), byte_scan(b, j, ScanState::Normal));
}

/// Scanning a statement's UTF-8 bytes finds the same placeholder numbers, in the same
/// order, as scanning its characters; so the largest number is the same too.
pub proof fn law_byte_and_char_scans_agree(sql: Seq<char>)
    ensures
        byte_placeholders(utf8(sql)).len() == placeholders(sql).len(),
        numbers(byte_placeholders(utf8(sql))) == numbers(placeholders(sql)),
        max_index(byte_placeholders(utf8(sql))) == max_index(placeholders(sql)),
{
    lemma_scans_agree(sql, ScanState::Normal);
    lemma_max_index_numbers(byte_placeholders(utf8(sql)), placeholders(sql));
}

// Placeholder spans by byte are the spans by character, each end moved to its byte
// offset in the UTF-8 text.

/// The encoding of two texts one after the other.
proof fn lemma_utf8_concat(a: Seq<char>, b: Seq<char>)
    ensures
        utf8(a + b) == utf8(a) + utf8(b),
    decreases a.len(),
{
    if a.len() == 0 {
        assert(a + b =~= b);
        assert(utf8(a) =~= Seq::<u8>::empty());
        assert(utf8(a) + utf8(b) =~= utf8(b));
    } else {
        assert((a + b).drop_first() =~= a.drop_first() + b);
        lemma_utf8_concat(a.drop_first(), b);
        assert(utf8(a + b) =~= utf8(a) + utf8(b));
    }
}

/// The byte offset of character position `i` of `t`: the length of the encoding of
/// `t[..i]`.
pub open spec fn byte_offset(t: Seq<char>, i: int) -> int {
    utf8(t.take(i)).len() as int
}

/// Character spans of `t` as spans of its UTF-8 text.
pub open spec fn spans_in_bytes(t: Seq<char>, phs: Seq<(int, int, int)>) -> Seq<(int, int, int)> {
    phs.map_values(|p: (int, int, int)| (byte_offset(t, p.0), byte_offset(t, p.1), p.2))
}

/// Offsets past the first `d` characters: those of `t[d..]`, moved on.
proof fn lemma_byte_offset_split(t: Seq<char>, d: int, x: int)
    requires
        0 <= d <= t.len(),
        0 <= x <= t.len() - d,
    ensures
        byte_offset(t, d + x) == byte_offset(t, d) + byte_offset(t.skip(d), x),
{
    assert(t.take(d + x) =~= t.take(d) + t.skip(d).take(x));
    lemma_utf8_concat(t.take(d), t.skip(d).take(x));
}

/// The encoding of a piece of a text is the matching piece of its encoding.
proof fn lemma_utf8_subrange(s: Seq<char>, a: int, b: int)
    requires
        0 <= a <= b <= s.len(),
    ensures
        0 <= byte_offset(s, a) <= byte_offset(s, b) <= utf8(s).len(),
        utf8(s.subrange(a, b)) == utf8(s).subrange(byte_offset(s, a), byte_offset(s, b)),
        byte_offset(s, s.len() as int) == utf8(s).len(),
{
    let x = s.take(a);
    let y = s.subrange(a, b);
    let z = s.skip(b);
    assert(s =~= x + y + z);
    assert(s.take(b) =~= x + y);
    assert(s.take(s.len() as int) =~= s);
    lemma_utf8_concat(x, y);
    lemma_utf8_concat(x + y, z);
    assert(utf8(s).subrange(byte_offset(s, a), byte_offset(s, b)) =~= utf8(y));
}

/// Spans of `t[d..]` moved on by `d` characters, as bytes of `t`, are its spans as
/// bytes moved on by the byte offset of `d`.
proof fn lemma_spans_shift(t: Seq<char>, d: int, x: Seq<(int, int, int)>)
    requires
        0 <= d <= t.len(),
        forall|k: int| 0 <= k < x.len() ==> 0 <= (#[trigger] x[k]).0 && x[k].0 <= x[k].1 <= t.len() - d,
    ensures
        spans_in_bytes(t, shifted(x, d)) == shifted(spans_in_bytes(t.skip(d), x), byte_offset(t, d)),
{
    assert forall|k: int| 0 <= k < x.len() implies #[trigger] spans_in_bytes(t, shifted(x, d))[k]
        == shifted(spans_in_bytes(t.skip(d), x), byte_offset(t, d))[k] by {
        lemma_byte_offset_split(t, d, x[k].0);
        lemma_byte_offset_split(t, d, x[k].1);
    }
    assert(spans_in_bytes(t, shifted(x, d)) =~= shifted(spans_in_bytes(t.skip(d), x), byte_offset(t, d)));
}

/// From character `d` on, the byte scan of the encoding and the character scan find the
/// same spans, as bytes and as characters.
proof fn lemma_spans_agree_after(t: Seq<char>, d: int, st: ScanState)
    requires
        1 <= d <= t.len(),
    ensures
        byte_scan(utf8(t), byte_offset(t, d), st) == spans_in_bytes(t, scan(t, d, st)),
    decreases t.len(), 0int,
{
    let r = t.skip(d);
    assert(t =~= t.take(d) + r);
    lemma_utf8_concat(t.take(d), r);
    let o = byte_offset(t, d);
    assert(utf8(t).skip(o) =~= utf8(r));
    lemma_byte_scan_skip(utf8(t), o, o, st);
    lemma_scan_skip(t, d, d, st);
    lemma_spans_agree(r, st);
    lemma_scan_well_formed(r, 0, st);
    lemma_spans_shift(t, d, scan(r, 0, st));
}

/// The byte scan of the encoding of `t` finds the spans of the character scan of `t`,
/// as bytes.
#[verifier::rlimit(40)]
proof fn lemma_spans_agree(t: Seq<char>, st: ScanState)
    ensures
        byte_scan(utf8(t), 0, st) == spans_in_bytes(t, scan(t, 0, st)),
    decreases t.len(), 2int,
{
    let b = utf8(t);
    if t.len() == 0 {
        assert(b.len() == 0);
    } else {
        let c = t[0];
        lemma_encode_char(c);
        lemma_utf8_first(t);
        assert(b == encode_scalar(c as u32) + utf8(t.drop_first()));
        assert(t.take(1) =~= seq![c]);
        assert(utf8(seq![c]) == encode_scalar(c as u32) + utf8(seq![c].drop_first()));
        assert(seq![c].drop_first() =~= Seq::<char>::empty());
        if (c as u32) >= 0x80 {
            let w = encode_scalar(c as u32).len() as int;
            assert(byte_offset(t, 1) == w);
            lemma_byte_scan_high(b, 0, w, st);
            assert(scan(t, 0, st) == scan(t, 1, st));
            lemma_spans_agree_after(t, 1, st);
        } else {
            lemma_utf8_ascii_prefix(t, 1);
            assert(byte_offset(t, 1) == 1);
            if t.len() > 1 {
                lemma_utf8_first(t.skip(1));
                assert(b[1] == utf8(t.skip(1))[0]);
                assert(t.skip(1)[0] == t[1]);
                assert(t.take(2) =~= seq![c] + seq![t[1]]);
                lemma_utf8_concat(seq![c], seq![t[1]]);
                assert(seq![t[1]].drop_first() =~= Seq::<char>::empty());
                assert(utf8(seq![t[1]]) == encode_scalar(t[1] as u32) + utf8(seq![t[1]].drop_first()));
                lemma_encode_char(t[1]);
            }
            match st {
                ScanState::Normal => {
                    if c == '\'' {
                        lemma_spans_agree_after(t, 1, ScanState::SingleQuote);
                    } else if c == '"' {
                        lemma_spans_agree_after(t, 1, ScanState::DoubleQuote);
                    } else if t.len() > 1 && c == '-' && t[1] == '-' {
                        lemma_spans_agree_after(t, 2, ScanState::LineComment);
                    } else if t.len() > 1 && c == '/' && t[1] == '*' {
                        lemma_spans_agree_after(t, 2, ScanState::BlockComment);
                    } else if c == '$' && t.len() > 1 && is_ascii_digit(t[1]) {
                        lemma_spans_agree_run(t);
                    } else {
                        lemma_spans_agree_after(t, 1, ScanState::Normal);
                    }
                },
                ScanState::SingleQuote => {
                    if c == '\'' && t.len() > 1 && t[1] == '\'' {
                        lemma_spans_agree_after(t, 2, st);
                    } else if c == '\'' {
                        lemma_spans_agree_after(t, 1, ScanState::Normal);
                    } else {
                        lemma_spans_agree_after(t, 1, st);
                    }
                },
                ScanState::DoubleQuote => {
                    if c == '"' && t.len() > 1 && t[1] == '"' {
                        lemma_spans_agree_after(t, 2, st);
                    } else if c == '"' {
                        lemma_spans_agree_after(t, 1, ScanState::Normal);
                    } else {
                        lemma_spans_agree_after(t, 1, st);
                    }
                },
                ScanState::LineComment => {
                    if c == '\n' {
                        lemma_spans_agree_after(t, 1, ScanState::Normal);
                    } else {
                        lemma_spans_agree_after(t, 1, st);
                    }
                },
                ScanState::BlockComment => {
                    if t.len() > 1 && c == '*' && t[1] == '/' {
                        lemma_spans_agree_after(t, 2, ScanState::Normal);
                    } else {
                        lemma_spans_agree_after(t, 1, st);
                    }
                },
            }
        }
    }
}

/// A `$` and its digits are the same span, or none, by byte and by character.
proof fn lemma_spans_agree_run(t: Seq<char>)
    requires
        t.len() > 1,
        t[0] == '$',
        is_ascii_digit(t[1]),
    ensures
        byte_scan(utf8(t), 0, ScanState::Normal) == spans_in_bytes(t, scan(t, 0, ScanState::Normal)),
    decreases t.len(), 1int,
{
    let b = utf8(t);
    lemma_digit_run_end_bounds(t, 1);
    let j = digit_run_end(t, 1);
    assert forall|k: int| 0 <= k < j implies (#[trigger] t[k] as u32) < 0x80 by {
        if k > 0 {
            assert(is_ascii_digit(t[k]));
        }
    }
    lemma_utf8_ascii_prefix(t, j);
    assert forall|k: int| 1 <= k < j implies is_digit_byte(#[trigger] b[k]) by {
        assert(is_ascii_digit(t[k]));
        assert(b[k] as int == t[k] as int);
    }
    if j < t.len() {
        lemma_utf8_first(t.skip(j));
        assert(b[j] == utf8(t.skip(j))[0]);
        assert(t.skip(j)[0] == t[j]);
    }
    lemma_byte_run_end_at(b, 1, j);
    lemma_run_values_agree(b, t, 1, j);
    assert(b[0] as int == t[0] as int);
    assert(b[1] as int == t[1] as int);
    lemma_scan_normal_dollar(t, 0);
    lemma_byte_scan_normal_dollar(b, 0);
    assert(t =~= t.take(j) + t.skip(j));
    lemma_utf8_concat(t.take(j), t.skip(j));
    assert(byte_offset(t, j) == j);
    assert(t.take(0) =~= Seq::<char>::empty());
    assert(byte_offset(t, 0) == 0);
    lemma_spans_agree_after(t, j, ScanState::Normal);
    let n = run_value(t, 1, j);
    let rest = scan(t, j, ScanState::Normal);
    assert(spans_in_bytes(t, seq![(0, j, n)] + rest) =~= seq![(0, j, n)] + spans_in_bytes(t, rest));
}

/// The UTF-8 bytes `b` from `pos` on, with the byte spans `phs[k..]` replaced by the
/// UTF-8 text of their bound values.
pub open spec fn byte_spliced(
    b: Seq<u8>,
    phs: Seq<(int, int, int)>,
    params: Seq<Option<Seq<char>>>,
    k: int,
    pos: int,
) -> Seq<u8>
    decreases phs.len() - k,
{
    if k < 0 || k >= phs.len() {
        b.subrange(pos, b.len() as int)
    } else {
        b.subrange(pos, phs[k].0) + utf8(replacement(params[phs[k].2 - 1])) + byte_spliced(
            b,
            phs,
            params,
            k + 1,
            phs[k].1,
        )
    }
}

/// A UTF-8 statement with every placeholder span `find_placeholders` reports replaced by
/// the UTF-8 text of its bound value.
pub open spec fn byte_substituted(b: Seq<u8>, params: Seq<Option<Seq<char>>>) -> Seq<u8> {
    byte_spliced(b, byte_placeholders(b), params, 0, 0)
}

/// Splicing characters and then encoding gives the splice of the encoding at the
/// matching byte spans.
proof fn lemma_utf8_spliced(
    s: Seq<char>,
    phs: Seq<(int, int, int)>,
    params: Seq<Option<Seq<char>>>,
    k: int,
    pos: int,
)
    requires
        well_formed_from(s, phs, 0),
        0 <= k <= phs.len(),
        0 <= pos <= s.len(),
        k < phs.len() ==> pos <= phs[k].0,
    ensures
        utf8(spliced(s, phs, params, k, pos)) == byte_spliced(
            utf8(s),
            spans_in_bytes(s, phs),
            params,
            k,
            byte_offset(s, pos),
        ),
    decreases phs.len() - k,
{
    let bp = spans_in_bytes(s, phs);
    if k == phs.len() {
        lemma_utf8_subrange(s, pos, s.len() as int);
    } else {
        let p = phs[k];
        let r = replacement(params[p.2 - 1]);
        if k + 1 < phs.len() {
            assert(phs[k].1 <= phs[k + 1].0);
        }
        lemma_utf8_subrange(s, pos, p.0);
        lemma_utf8_spliced(s, phs, params, k + 1, p.1);
        let rest = spliced(s, phs, params, k + 1, p.1);
        lemma_utf8_concat(s.subrange(pos, p.0), r);
        lemma_utf8_concat(s.subrange(pos, p.0) + r, rest);
        assert(bp[k] == (byte_offset(s, p.0), byte_offset(s, p.1), p.2));
    }
}

/// The placeholders `find_placeholders` reports in the UTF-8 text of a statement are
/// its placeholders by character, with each end at its byte offset.
pub proof fn law_byte_spans_are_char_spans(sql: Seq<char>)
    ensures
        byte_placeholders(utf8(sql)) == spans_in_bytes(sql, placeholders(sql)),
{
    lemma_spans_agree(sql, ScanState::Normal);
}

/// By byte: the UTF-8 text of the substituted statement is the UTF-8 text of the
/// statement with each span `find_placeholders` reports replaced by the UTF-8 text of
/// its value (`NULL`, or the value quoted with `'` doubled).
pub proof fn law_substitution_by_byte_spans(sql: Seq<char>, params: Seq<Option<Seq<char>>>)
    ensures
        utf8(substituted(sql, params)) == byte_substituted(utf8(sql), params),
{
    law_byte_spans_are_char_spans(sql);
    lemma_scan_well_formed(sql, 0, ScanState::Normal);
    assert(sql.take(0) =~= Seq::<char>::empty());
    lemma_utf8_spliced(sql, placeholders(sql), params, 0, 0);
}

} // verus!
