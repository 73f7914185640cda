//! The statements of the REST API: submission under a fresh handle, completion with
//! the rows or error of the run, cancellation of a running statement, and what a poll
//! of a handle reports.

use vstd::prelude::*;

use crate::error::OpenSnowError;
use crate::pgwire::names::NameMap;
use crate::rest::Reply;
use crate::sql::{refusal_message, statement_valid, validate_statement};
use crate::text::trim;
use crate::text::{
    chars_of, concat_chars, decimal, digits_value, format_decimal, lemma_decimal_value,
    lemma_leading_zeros_value, string_from_chars, zeros,
};

verus! {

broadcast use vstd::string::group_string_axioms;

/// Where a statement's execution stands.
#[derive(Debug, Clone, Copy, PartialEq, Eq, Structural)]
pub enum StatementStatus {
    Running,
    Succeeded,
    Cancelled,
    Failed,
}

/// A submitted statement: its status, the rows or error of its run, and when it was
/// created and last updated (milliseconds since the Unix epoch). `D` is a result row.
pub struct StatementEntry<D> {
    pub status: StatementStatus,
    pub rows: Option<Vec<D>>,
    pub error: Option<String>,
    pub created_at_epoch_ms: u128,
    pub updated_at_epoch_ms: u128,
}

/// What a poll of a statement handle reports besides the rows themselves.
#[derive(Debug, Clone, PartialEq, Eq)]
pub struct StatementReport {
    pub status: String,
    pub sql_state: String,
    pub error_code: Option<String>,
    pub message: String,
    pub row_count: Option<usize>,
    pub created_at_epoch_ms: u128,
    pub updated_at_epoch_ms: u128,
}

/// The answer to a submission: the handle, the URL to poll, and the creation time.
#[derive(Debug, Clone, PartialEq, Eq)]
pub struct Accepted {
    pub statement_handle: String,
    pub poll_url: String,
    pub created_at_epoch_ms: u128,
}

/// `n` in decimal, padded on the left with zeros to at least `width` digits.
pub open spec fn zero_padded(n: nat, width: nat) -> Seq<char> {
    let d = decimal(n);
    if d.len() < width {
        zeros((width - d.len()) as nat) + d
    } else {
        d
    }
}

/// The handle of the `id`-th statement.
pub open spec fn handle_for(id: nat) -> Seq<char> {
    "stmt_mock_"@ + zero_padded(id, 4)
}

/// Zero padding keeps the value of a number.
proof fn lemma_padded_value(n: nat, width: nat)
    ensures
        digits_value(zero_padded(n, width)) == n,
{
    lemma_decimal_value(n);
    let d = decimal(n);
    if d.len() < width {
        lemma_leading_zeros_value((width - d.len()) as nat, d);
    }
}

/// Different statement numbers get different handles.
pub proof fn law_handles_distinct(a: nat, b: nat)
    requires
        a != b,
    ensures
        handle_for(a) != handle_for(b),
{
    if handle_for(a) == handle_for(b) {
        let p = "stmt_mock_"@;
        assert(handle_for(a).skip(p.len() as int) =~= zero_padded(a, 4));
        assert(handle_for(b).skip(p.len() as int) =~= zero_padded(b, 4));
        lemma_padded_value(a, 4);
        lemma_padded_value(b, 4);
    }
}

/// The URL that reports on a statement.
pub open spec fn poll_url_for(handle: Seq<char>) -> Seq<char> {
    "/api/v2/statements/"@ + handle
}

/// The report for an entry with status `s`, stored error `e` and row count `n`:
/// status text, SQLSTATE, error code and message.
pub open spec fn report_fields(s: StatementStatus, e: Option<Seq<char>>) -> (Seq<char>, Seq<char>, Option<Seq<char>>, Seq<char>) {
    match s {
        StatementStatus::Running => ("running"@, "00000"@, None, "Statement is still running"@),
        StatementStatus::Succeeded => ("succeeded"@, "00000"@, None, "Statement completed successfully"@),
        StatementStatus::Cancelled => ("canceled"@, "57014"@, Some("604"@), "Statement was canceled"@),
        StatementStatus::Failed => ("failed"@, "XX000"@, Some("1000"@), match e {
            Some(m) => m,
            None => "Statement failed during execution"@,
        }),
    }
}

/// Only a failed or cancelled statement carries an error: any other status reports
/// SQLSTATE `00000` and no error code, while a failed or cancelled one reports another
/// SQLSTATE and an error code; a failed statement's message is its stored error.
pub proof fn law_only_failures_carry_errors(s: StatementStatus, e: Option<Seq<char>>)
    ensures
        s != StatementStatus::Failed && s != StatementStatus::Cancelled ==> report_fields(s, e).2 is None
            && report_fields(s, e).1 == "00000"@,
        s == StatementStatus::Failed || s == StatementStatus::Cancelled ==> report_fields(s, e).2 is Some
            && report_fields(s, e).1 != "00000"@,
        s == StatementStatus::Failed && e is Some ==> report_fields(s, e).3 == e->0,
{
    reveal_strlit("00000");
    reveal_strlit("57014");
    reveal_strlit("XX000");
    assert("57014"@[0] != "00000"@[0]);
    assert("XX000"@[0] != "00000"@[0]);
}

pub open spec fn opt_text(o: Option<String>) -> Option<Seq<char>> {
    match o {
        Some(s) => Some(s@),
        None => None,
    }
}

/// The answer to a statement that is not accepted.
pub open spec fn invalid_statement_message(m: Seq<char>) -> Seq<char> {
    "invalid statement: "@ + m
}

pub open spec fn unknown_handle_message() -> Seq<char> {
    "Unknown statement handle"@
}

/// The numbered statements and their entries.
pub struct StatementRegistry<D> {
    entries: NameMap<StatementEntry<D>>,
    issued: u64,
}

/// The digits of `n` padded with zeros on the left to `width`.
fn pad_decimal(n: u64, width: usize) -> (r: Vec<char>)
    ensures
        r@ == zero_padded(n as nat, width as nat),
{
    let d = format_decimal(n);
    if d.len() >= width {
        return d;
    }
    let mut out: Vec<char> = Vec::new();
    let k = width - d.len();
    let mut i: usize = 0;
    while i < k
        invariant
            i <= k,
            out@ == zeros(i as nat),
        decreases k - i,
    {
        out.push('0');
        i += 1;
        assert(out@ =~= zeros(i as nat));
    }
    concat_chars(&out, &d)
}

impl<D> StatementRegistry<D> {
    pub closed spec fn wf(&self) -> bool {
        &&& self.entries.wf()
        &&& forall|k: Seq<char>|
            #[trigger] self.entries@.contains_key(k) ==> exists|i: nat| 1 <= i <= self.issued && k == #[trigger] handle_for(i)
    }

    /// The entries by handle.
    pub closed spec fn entries(&self) -> Map<Seq<char>, StatementEntry<D>> {
        self.entries@
    }

    /// How many statements were numbered so far.
    pub closed spec fn issued(&self) -> nat {
        self.issued as nat
    }

    pub fn new() -> (r: Self)
        ensures
            r.wf(),
            r.entries().is_empty(),
            r.issued() == 0,
    {
        StatementRegistry { entries: NameMap::new(), issued: 0 }
    }

    /// Whether another statement can still be numbered.
    pub fn has_capacity(&self) -> (r: bool)
        ensures
            r == (self.issued() < u64::MAX),
    {
        self.issued < u64::MAX
    }

    /// Accepts a statement (the `parquet_scan` shape or exactly one statement of the
    /// Snowflake dialect) under the next handle, as running since `now_ms`; any other
    /// text is answered `400 Bad Request` with the statement error and changes nothing.
    pub fn submit(&mut self, statement: &str, now_ms: u128) -> (r: Result<Accepted, Reply>)
        requires
            old(self).wf(),
            old(self).issued() < u64::MAX,
        ensures
            final(self).wf(),
            !statement_valid(statement@) ==> {
                &&& r matches Err(rep) && rep.status == 400 && exists|m: Seq<char>|
                    rep.message@ == #[trigger] invalid_statement_message(m)
                &&& refusal_message(statement@) matches Some(m0) ==> (r matches Err(rep)
                    && rep.message@ == invalid_statement_message(m0))
                &&& final(self).entries() == old(self).entries()
                &&& final(self).issued() == old(self).issued()
            },
            statement_valid(statement@) ==> {
                let id = old(self).issued() + 1;
                let h = handle_for(id);
                &&& r matches Ok(a) && a.statement_handle@ == h && a.poll_url@ == poll_url_for(h)
                    && a.created_at_epoch_ms == now_ms
                &&& final(self).issued() == id
                &&& !old(self).entries().contains_key(h)
                &&& final(self).entries().contains_key(h)
                &&& final(self).entries()[h].status == StatementStatus::Running
                &&& final(self).entries()[h].rows is None
                &&& final(self).entries()[h].error is None
                &&& final(self).entries()[h].created_at_epoch_ms == now_ms
                &&& final(self).entries()[h].updated_at_epoch_ms == now_ms
                &&& forall|k: Seq<char>| k != h ==> #[trigger] final(self).entries().contains_key(k)
                    == old(self).entries().contains_key(k)
                &&& forall|k: Seq<char>| k != h && old(self).entries().contains_key(k)
                    ==> #[trigger] final(self).entries()[k] == old(self).entries()[k]
            },
    {
        match validate_statement(statement) {
            Err(e) => {
                let text = e.to_string();
                proof {
                    if let OpenSnowError::InvalidStatement(m) = e {
                        assert(text@ == invalid_statement_message(m@));
                    }
                }
                return Err(Reply { status: 400, message: text });
            },
            Ok(_) => {},
        }
        self.issued = self.issued + 1;
        let handle = string_from_chars(&concat_chars(&chars_of("stmt_mock_"), &pad_decimal(self.issued, 4)));
        let url = string_from_chars(&concat_chars(&chars_of("/api/v2/statements/"), &chars_of(handle.as_str())));
        let entry = StatementEntry {
            status: StatementStatus::Running,
            rows: None,
            error: None,
            created_at_epoch_ms: now_ms,
            updated_at_epoch_ms: now_ms,
        };
        let ghost hv = handle@;
        let answer = Accepted { statement_handle: handle.clone(), poll_url: url, created_at_epoch_ms: now_ms };
        proof {
            assert(hv == handle_for(self.issued as nat));
            if old(self).entries@.contains_key(hv) {
                let i = choose|i: nat| 1 <= i <= old(self).issued && hv == #[trigger] handle_for(i);
                law_handles_distinct(i, self.issued as nat);
            }
        }
        self.entries.insert(handle, entry);
        proof {
            assert forall|k: Seq<char>| #[trigger] self.entries@.contains_key(k) implies exists|i: nat|
                1 <= i <= self.issued && k == #[trigger] handle_for(i) by {
                if k == hv {
                    assert(hv == handle_for(self.issued as nat));
                } else {
                    assert(old(self).entries@.contains_key(k));
                    let i = choose|i: nat| 1 <= i <= old(self).issued && k == #[trigger] handle_for(i);
                    assert(1 <= i <= self.issued);
                }
            }
        }
        Ok(answer)
    }

    /// Records the outcome of a statement's run at `now_ms`: its rows on success, its
    /// error on failure. An unknown handle changes nothing.
    pub fn complete(&mut self, handle: &str, outcome: Result<Vec<D>, String>, now_ms: u128)
        requires
            old(self).wf(),
        ensures
            final(self).wf(),
            final(self).issued() == old(self).issued(),
            !old(self).entries().contains_key(handle@) ==> final(self).entries() == old(self).entries(),
            old(self).entries().contains_key(handle@) ==> {
                let before = old(self).entries()[handle@];
                final(self).entries() == old(self).entries().insert(
                    handle@,
                    match outcome {
                        Ok(rows) => StatementEntry {
                            status: StatementStatus::Succeeded,
                            rows: Some(rows),
                            error: None,
                            created_at_epoch_ms: before.created_at_epoch_ms,
                            updated_at_epoch_ms: now_ms,
                        },
                        Err(e) => StatementEntry {
                            status: StatementStatus::Failed,
                            rows: None,
                            error: Some(e),
                            created_at_epoch_ms: before.created_at_epoch_ms,
                            updated_at_epoch_ms: now_ms,
                        },
                    },
                )
            },
    {
        let ghost hv = handle@;
        match self.entries.remove(handle) {
            None => {
                assert(self.entries@ =~= old(self).entries@);
            },
            Some(before) => {
                let created = before.created_at_epoch_ms;
                let entry = match outcome {
                    Ok(rows) => StatementEntry {
                        status: StatementStatus::Succeeded,
                        rows: Some(rows),
                        error: None,
                        created_at_epoch_ms: created,
                        updated_at_epoch_ms: now_ms,
                    },
                    Err(e) => StatementEntry {
                        status: StatementStatus::Failed,
                        rows: None,
                        error: Some(e),
                        created_at_epoch_ms: created,
                        updated_at_epoch_ms: now_ms,
                    },
                };
                self.entries.insert(owned_text(handle), entry);
                assert(self.entries@ =~= old(self).entries@.insert(hv, entry));
            },
        }
    }

    /// Cancels a running statement at `now_ms`. An unknown handle is answered
    /// `404 Not Found` and a finished statement `409 Conflict`, changing nothing.
    pub fn cancel(&mut self, handle: &str, now_ms: u128) -> (r: Reply)
        requires
            old(self).wf(),
        ensures
            final(self).wf(),
            final(self).issued() == old(self).issued(),
            !old(self).entries().contains_key(handle@) ==> r.status == 404 && r.message@ == unknown_handle_message()
                && final(self).entries() == old(self).entries(),
            old(self).entries().contains_key(handle@) && old(self).entries()[handle@].status != StatementStatus::Running
                ==> r.status == 409 && r.message@ == "Statement is already in a terminal state"@ && final(self).entries()
                == old(self).entries(),
            old(self).entries().contains_key(handle@) && old(self).entries()[handle@].status == StatementStatus::Running
                ==> {
                let before = old(self).entries()[handle@];
                &&& r.status == 200
                &&& r.message@ == "Cancel request accepted (mock response)"@
                &&& final(self).entries().contains_key(handle@)
                &&& final(self).entries()[handle@].status == StatementStatus::Cancelled
                &&& final(self).entries()[handle@].rows == before.rows
                &&& opt_text(final(self).entries()[handle@].error) == Some("Canceled by client"@)
                &&& final(self).entries()[handle@].created_at_epoch_ms == before.created_at_epoch_ms
                &&& final(self).entries()[handle@].updated_at_epoch_ms == now_ms
                &&& final(self).entries().remove(handle@) == old(self).entries().remove(handle@)
            },
    {
        let ghost hv = handle@;
        match self.entries.remove(handle) {
            None => {
                assert(self.entries@ =~= old(self).entries@);
                Reply { status: 404, message: "Unknown statement handle".to_string() }
            },
            Some(before) => {
                if before.status != StatementStatus::Running {
                    let ghost b = before;
                    self.entries.insert(owned_text(handle), before);
                    assert(self.entries@ =~= old(self).entries@);
                    return Reply { status: 409, message: "Statement is already in a terminal state".to_string() };
                }
                let entry = StatementEntry {
                    status: StatementStatus::Cancelled,
                    rows: before.rows,
                    error: Some("Canceled by client".to_string()),
                    created_at_epoch_ms: before.created_at_epoch_ms,
                    updated_at_epoch_ms: now_ms,
                };
                self.entries.insert(owned_text(handle), entry);
                assert(self.entries@.remove(hv) =~= old(self).entries@.remove(hv));
                Reply { status: 200, message: "Cancel request accepted (mock response)".to_string() }
            },
        }
    }

    /// The entry of a handle, if it was issued.
    pub fn lookup(&self, handle: &str) -> (r: Option<&StatementEntry<D>>)
        requires
            self.wf(),
        ensures
            match r {
                Some(e) => self.entries().contains_key(handle@) && *e == self.entries()[handle@],
                None => !self.entries().contains_key(handle@),
            },
    {
        self.entries.get(handle)
    }
}

/// A copy of a string slice.
fn owned_text(s: &str) -> (r: String)
    ensures
        r@ == s@,
{
    string_from_chars(&chars_of(s))
}

/// What a poll reports for an entry: status text, SQLSTATE, error code and message by
/// status (a failure reports its stored error), the number of rows when there are
/// rows, and the entry's times.
pub fn report_of<D>(entry: &StatementEntry<D>) -> (r: StatementReport)
    ensures
        ({
            let (st, state, code, msg) = report_fields(entry.status, opt_text(entry.error));
            &&& r.status@ == st
            &&& r.sql_state@ == state
            &&& opt_text(r.error_code) == code
            &&& r.message@ == msg
        }),
        r.row_count == (match entry.rows {
            Some(v) => Some(v@.len() as usize),
            None => None::<usize>,
        }),
        r.created_at_epoch_ms == entry.created_at_epoch_ms,
        r.updated_at_epoch_ms == entry.updated_at_epoch_ms,
{
    let (status, sql_state, error_code, message) = match entry.status {
        StatementStatus::Running => ("running", "00000", None, "Statement is still running".to_string()),
        StatementStatus::Succeeded => ("succeeded", "00000", None, "Statement completed successfully".to_string()),
        StatementStatus::Cancelled => ("canceled", "57014", Some("604"), "Statement was canceled".to_string()),
        StatementStatus::Failed => ("failed", "XX000", Some("1000"), match &entry.error {
            Some(m) => m.clone(),
            None => "Statement failed during execution".to_string(),
        }),
    };
    let row_count = match &entry.rows {
        Some(v) => Some(v.len()),
        None => None,
    };
    StatementReport {
        status: status.to_string(),
        sql_state: sql_state.to_string(),
        error_code: match error_code {
            Some(c) => Some(c.to_string()),
            None => None,
        },
        message,
        row_count,
        created_at_epoch_ms: entry.created_at_epoch_ms,
        updated_at_epoch_ms: entry.updated_at_epoch_ms,
    }
}

} // verus!
