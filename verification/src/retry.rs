//! Fetching one byte range, with retries.

use vstd::prelude::*;
use vstd::string::*;

use crate::range;
use crate::range::range_value;
use crate::reply::prefixed;
use crate::text;
use crate::text::push_natural;

verus! {

/// How often a range is tried.
pub const CHUNK_RETRIES: u32 = 3;

/// How long one try may take.
pub const CHUNK_TIMEOUT_SECS: u64 = 60;

/// How much longer to wait before each further try.
pub const RETRY_STEP_MILLIS: u64 = 500;

/// What came of a try.
pub enum Outcome {
    /// The request failed, with this error.
    Unreachable(String),
    /// The origin answered with this status code.
    Status(u16),
    /// The body of the answer could not be read, with this error.
    Unreadable(String),
    /// The body of the answer is there.
    Complete,
}

/// What to do next.
#[derive(Debug, PartialEq, Eq)]
pub enum Next {
    /// Read the body of the answer.
    ReadBody,
    /// Wait this long and try again.
    Retry(u64),
    /// Give up, with this error.
    GiveUp(String),
    /// The range is fetched.
    Finish,
}

/// Whether an answer with this status code carries the range. Some origins answer 200
/// though they were asked for a range.
pub open spec fn is_accepted(status: u16) -> bool {
    status == 206 || status == 200
}

/// The error of an outcome, where it is a failure.
pub open spec fn failure_text(outcome: Outcome) -> Option<Seq<char>> {
    match outcome {
        Outcome::Unreachable(e) => Some(e@),
        Outcome::Status(status) => if is_accepted(status) {
            None
        } else {
            Some("状态码: "@ + text::decimal(status as int))
        },
        Outcome::Unreadable(e) => Some("读取响应体失败: "@ + e@),
        Outcome::Complete => None,
    }
}

/// The error after the last try.
pub open spec fn exhausted_text(last: Seq<char>) -> Seq<char> {
    "重试 "@ + text::decimal(CHUNK_RETRIES as int) + " 次失败: "@ + last
}

/// Whether `next` is what to do when `outcome` comes after `failures` failed tries.
pub open spec fn follows(failures: nat, outcome: Outcome, next: Next) -> bool {
    match failure_text(outcome) {
        Some(e) => if failures + 1 < CHUNK_RETRIES {
            next == Next::Retry((RETRY_STEP_MILLIS * (failures + 1)) as u64)
        } else {
            next matches Next::GiveUp(message) && message@ == exhausted_text(e)
        },
        None => if outcome is Complete {
            next == Next::Finish
        } else {
            next == Next::ReadBody
        },
    }
}

/// The download of the bytes from `start` to `end`.
pub struct Download {
    pub start: i64,
    pub end: i64,
    /// How many tries have failed.
    pub failures: u32,
}

impl Download {
    /// A download that has not been tried.
    pub fn new(start: i64, end: i64) -> (result: Download)
        ensures
            result.start == start,
            result.end == end,
            result.failures == 0,
    {
        Download { start, end, failures: 0 }
    }

    /// The value of the `Range` field to send with each try.
    pub fn range_field(&self) -> (result: String)
        ensures
            result@ == range::range_text(self.start as int, self.end as int),
    {
        range_value(self.start, self.end)
    }

    /// Takes in what came of a try and says what to do next.
    pub fn observe(&mut self, outcome: Outcome) -> (result: Next)
        requires
            old(self).failures < CHUNK_RETRIES,
        ensures
            final(self).start == old(self).start,
            final(self).end == old(self).end,
            final(self).failures == old(self).failures + if failure_text(outcome) is Some {
                1int
            } else {
                0int
            },
            follows(old(self).failures as nat, outcome, result),
    {
        let error: String = match outcome {
            Outcome::Complete => {
                return Next::Finish;
            },
            Outcome::Status(status) => {
                if status == 206 || status == 200 {
                    return Next::ReadBody;
                }
                let mut out = "状态码: ".to_owned();
                push_natural(&mut out, status as u64);
                out
            },
            Outcome::Unreachable(e) => e,
            Outcome::Unreadable(e) => prefixed("读取响应体失败: ", e.as_str()),
        };
        self.failures = self.failures + 1;
        if self.failures < CHUNK_RETRIES {
            Next::Retry(RETRY_STEP_MILLIS * self.failures as u64)
        } else {
            let mut message = "重试 ".to_owned();
            push_natural(&mut message, CHUNK_RETRIES as u64);
            message.append(" 次失败: ");
            message.append(error.as_str());
            Next::GiveUp(message)
        }
    }
}

/// The body of an answer is read exactly if the status code is 200 or 206. Every other
/// code counts as a failed try: the range is tried again after half a second or a second,
/// and given up at the third time, with an error that names the code.
pub proof fn law_only_two_codes_are_accepted(failures: nat, status: u16, next: Next)
    requires
        failures < 3,
        follows(failures, Outcome::Status(status), next),
    ensures
        next == Next::ReadBody <==> status == 200 || status == 206,
        failure_text(Outcome::Status(status)) is None <==> status == 200 || status == 206,
        status != 200 && status != 206 ==> if failures == 0 {
            next == Next::Retry(500)
        } else if failures == 1 {
            next == Next::Retry(1000)
        } else {
            next matches Next::GiveUp(message) && message@ == "重试 "@ + text::decimal(3)
                + " 次失败: "@ + ("状态码: "@ + text::decimal(status as int))
        },
{
}

/// A request that fails and a body that cannot be read are failed tries as well, at most
/// the third of which ends the download, with an error that carries the one that came.
pub proof fn law_errors_are_failed_tries(failures: nat, error: String, sent: Next, read: Next)
    requires
        failures < 3,
        follows(failures, Outcome::Unreachable(error), sent),
        follows(failures, Outcome::Unreadable(error), read),
    ensures
        failure_text(Outcome::Unreachable(error)) is Some,
        failure_text(Outcome::Unreadable(error)) is Some,
        failures < 2 ==> sent == Next::Retry((500 * (failures + 1)) as u64) && read == sent,
        failures == 2 ==> {
            &&& sent matches Next::GiveUp(message) && message@ == "重试 "@ + text::decimal(3)
                + " 次失败: "@ + error@
            &&& read matches Next::GiveUp(message) && message@ == "重试 "@ + text::decimal(3)
                + " 次失败: "@ + ("读取响应体失败: "@ + error@)
        },
{
}

/// One try may take a minute.
pub proof fn law_time_of_a_try()
    ensures
        CHUNK_TIMEOUT_SECS == 60,
{
}

/// A range is tried three times: after the first failure and after the second, whatever
/// they are, it is tried again, each time after a longer pause, and after the third it
/// is given up, with the error of the third.
pub proof fn law_three_tries(
    first: Outcome,
    second: Outcome,
    third: Outcome,
    after_first: Next,
    after_second: Next,
    after_third: Next,
)
    requires
        failure_text(first) is Some,
        failure_text(second) is Some,
        failure_text(third) is Some,
        follows(0, first, after_first),
        follows(1, second, after_second),
        follows(2, third, after_third),
    ensures
        after_first == Next::Retry(500),
        after_second == Next::Retry(1000),
        after_third matches Next::GiveUp(message) && message@ == exhausted_text(
            failure_text(third)->0,
        ),
{
}

/// A range that arrives is kept, however many tries failed before.
pub proof fn law_success_ends_the_download(failures: nat, next: Next)
    requires
        follows(failures, Outcome::Complete, next),
    ensures
        next == Next::Finish,
{
}

} // verus!
