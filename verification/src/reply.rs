//! Replies that the proxy gives in place of a transfer.

use vstd::prelude::*;
use vstd::string::*;

use crate::text;
use crate::text::push_integer;

verus! {

/// A reply with a status code and a plain text.
#[derive(Debug, PartialEq, Eq)]
pub struct Refusal {
    pub status: u16,
    pub body: String,
}

impl Refusal {
    /// Whether this reply has the given status code and text.
    pub open spec fn says(self, status: u16, body: Seq<char>) -> bool {
        self.status == status && self.body@ == body
    }
}

/// A reply with the given status code and text.
pub(crate) fn refuse(status: u16, body: &str) -> (result: Refusal)
    ensures
        result.says(status, body@),
{
    Refusal { status, body: body.to_owned() }
}

/// `prefix` with `detail` behind it.
pub(crate) fn prefixed(prefix: &str, detail: &str) -> (result: String)
    ensures
        result@ == prefix@ + detail@,
{
    let mut out = prefix.to_owned();
    out.append(detail);
    out
}

/// The text for a range that does not meet the file.
pub open spec fn bad_range_text(start: int, end: int, total: int) -> Seq<char> {
    "无效范围: "@ + text::decimal(start) + "-"@ + text::decimal(end) + "/"@ + text::decimal(total)
}

/// The text for a range that does not meet the file names the range and the total.
pub proof fn law_bad_range_is_named(start: int, end: int, total: int)
    ensures
        bad_range_text(start, end, total) == "无效范围: "@ + text::decimal(start) + "-"@
            + text::decimal(end) + "/"@ + text::decimal(total),
{
}

/// The reply to a request whose range does not meet the file.
pub fn bad_range(start: i64, end: i64, total: i64) -> (result: Refusal)
    ensures
        result.says(416, bad_range_text(start as int, end as int, total as int)),
{
    let mut body = "无效范围: ".to_owned();
    push_integer(&mut body, start);
    body.append("-");
    push_integer(&mut body, end);
    body.append("/");
    push_integer(&mut body, total);
    assert(body@ =~= bad_range_text(start as int, end as int, total as int));
    Refusal { status: 416, body }
}

/// The reply when a transfer cannot be set up.
pub fn internal_error(error: String) -> (result: Refusal)
    ensures
        result.says(500, error@),
{
    Refusal { status: 500, body: error }
}

} // verus!
