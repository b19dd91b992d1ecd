//! One transfer: what is asked of the origin, and what is answered to the client.

use axum::http::{HeaderMap, HeaderValue};
use bytes::Bytes;
use reqwest::Client;
use vstd::prelude::*;
use vstd::string::*;

use crate::client;
use crate::client::{build_client, client_settings, error_text};
use crate::headers;
use crate::headers::{
    all_fields, first_value, name_from_bytes, no_headers, same_bytes, set_value, value_from_bytes,
    value_from_str, value_to_str,
};
use crate::pipeline;
use crate::pipeline::{Event, Plan, State};
use crate::query;
use crate::query::{extract_params, Params};
use crate::range;
use crate::range::{content_range_value, parse_range, parse_total};
use crate::reply;
use crate::reply::{bad_range, internal_error, prefixed, refuse, Refusal};
use crate::text;
use crate::text::to_decimal;

verus! {

/// How many bytes may be between the start of their download and the end of their being
/// written.
pub const MAX_INFLIGHT_BYTES: i64 = 64 * 1024 * 1024;

/// The fewest workers of a transfer.
pub const MIN_THREAD: usize = 1;

/// The most workers of a transfer.
pub const MAX_THREAD: usize = 32;

/// The smallest chunk, in units of 1024 bytes.
pub const MIN_CHUNK_KB: i64 = 16;

/// The largest chunk, in units of 1024 bytes.
pub const MAX_CHUNK_KB: i64 = 8 * 1024;

/// How many bytes are asked for first when the client gives no end.
pub const PROBE_BYTES: i64 = 100;

/// A run of bytes in memory.
#[verifier::external_type_specification]
#[verifier::external_body]
pub struct ExBytes(bytes::Bytes);

/// The bytes that a `Bytes` holds.
pub uninterp spec fn content(data: Bytes) -> Seq<u8>;

/// `Bytes::len`: the number of bytes.
pub assume_specification[ Bytes::len ](data: &Bytes) -> (result: usize)
    ensures
        result == content(*data).len(),
;

/// `Bytes::slice` from the start on: the first `n` bytes. The call panics if there are
/// fewer.
#[verifier::external_body]
fn first_bytes(data: &Bytes, n: usize) -> (result: Bytes)
    requires
        n <= content(*data).len(),
    ensures
        content(result) == content(*data).take(n as int),
{
    data.slice(0..n)
}

/// A request of a client, as far as the transfer depends on it.
pub struct Player {
    /// The HTTP client that fetches from the origin.
    pub client: Client,
    /// The header fields that go to the origin.
    pub header: HeaderMap<HeaderValue>,
    pub start: i64,
    /// The last byte that the client asks for, itself included. -1 stands for an open
    /// range, up to the end of the file, and so does anything else below zero.
    pub end: i64,
    pub thread: usize,
    pub chunk_size: i64,
    pub url: String,
}

/// Whether the field `name` of a request goes to the origin.
pub open spec fn is_forwarded(name: Seq<u8>) -> bool {
    ||| name == headers::ascii("user-agent"@)
    ||| name == headers::ascii("cookie"@)
    ||| name == headers::ascii("referer"@)
}

/// The fields that go to the origin: of each forwarded name the first value.
pub open spec fn forwarded(incoming: Map<Seq<u8>, Seq<Seq<u8>>>) -> Map<Seq<u8>, Seq<Seq<u8>>> {
    Map::new(
        |name: Seq<u8>|
            is_forwarded(name) && incoming.contains_key(name) && headers::is_value(
                incoming[name][0],
            ),
        |name: Seq<u8>| seq![incoming[name][0]],
    )
}

/// The text of the first `name` field, or nothing where there is none or where it is
/// not visible ASCII.
pub open spec fn field_text(
    fields: Map<Seq<u8>, Seq<Seq<u8>>>,
    name: Seq<u8>,
) -> Option<Seq<char>> {
    if fields.contains_key(name) && headers::is_visible(fields[name][0]) {
        Some(headers::ascii_text(fields[name][0]))
    } else {
        None
    }
}

/// The range that a request asks for.
pub open spec fn incoming_range(incoming: Map<Seq<u8>, Seq<Seq<u8>>>) -> (int, int) {
    match field_text(incoming, headers::ascii("range"@)) {
        Some(value) => range::requested_range(value),
        None => range::requested_range(Seq::empty()),
    }
}

/// `v`, moved into the interval from `lo` to `hi`.
pub open spec fn clamped(v: int, lo: int, hi: int) -> int {
    if v < lo {
        lo
    } else if v > hi {
        hi
    } else {
        v
    }
}

/// `thread`, halved until that many chunks fit the memory bound.
pub open spec fn fitting_threads(thread: nat, chunk_size: int) -> nat
    decreases thread,
{
    if thread > MIN_THREAD && thread * chunk_size > MAX_INFLIGHT_BYTES {
        fitting_threads(thread / 2, chunk_size)
    } else {
        thread
    }
}

/// Fitting keeps at least one worker and meets the memory bound.
proof fn lemma_fitting_threads(thread: nat, chunk_size: int)
    requires
        1 <= thread <= MAX_THREAD,
        MIN_CHUNK_KB * 1024 <= chunk_size <= MAX_CHUNK_KB * 1024,
    ensures
        1 <= fitting_threads(thread, chunk_size) <= thread,
        fitting_threads(thread, chunk_size) * chunk_size <= MAX_INFLIGHT_BYTES,
    decreases thread,
{
    if thread > MIN_THREAD && thread * chunk_size > MAX_INFLIGHT_BYTES {
        lemma_fitting_threads(thread / 2, chunk_size);
    } else if thread == 1 {
        assert(thread * chunk_size == chunk_size);
    }
}

/// The end, exclusive, of what is asked for first: the end that the client gives, or a
/// few bytes where it gives none, but no more than one chunk.
pub open spec fn first_end(start: int, end: int, chunk: int) -> int {
    let wanted = if end < 0 {
        start + PROBE_BYTES
    } else {
        end + 1
    };
    if wanted < start + chunk {
        wanted
    } else {
        start + chunk
    }
}

/// The end, exclusive, of what is asked for first.
pub fn first_end_excl(start: i64, end: i64, chunk: i64) -> (result: i64)
    requires
        i64::MIN <= start + chunk <= i64::MAX,
        end < 0 ==> start + PROBE_BYTES <= i64::MAX,
        end < i64::MAX,
    ensures
        result == first_end(start as int, end as int, chunk as int),
{
    let wanted: i64 = if end < 0 {
        start + PROBE_BYTES
    } else {
        end + 1
    };
    if wanted < start + chunk {
        wanted
    } else {
        start + chunk
    }
}

/// The last byte that is answered to a request that ends at `end`, of a file of `total`
/// bytes.
pub open spec fn last_byte(end: int, total: int) -> int {
    if end < 0 || end > total - 1 {
        total - 1
    } else {
        end
    }
}

/// The length of the file that the origin states, where it states one above zero.
pub open spec fn usable_total(fields: Map<Seq<u8>, Seq<Seq<u8>>>) -> Option<i64> {
    match field_text(fields, headers::ascii("content-range"@)) {
        Some(value) => match range::stated_total(value) {
            Some(total) if total > 0 => Some(total),
            _ => None,
        },
        None => None,
    }
}

/// Whether the field `name` of the origin's answer is kept from the client: length and
/// range are stated anew, and the others concern one connection only.
pub open spec fn is_withheld(name: Seq<u8>) -> bool {
    ||| name == headers::ascii("content-range"@)
    ||| name == headers::ascii("content-length"@)
    ||| name == headers::ascii("transfer-encoding"@)
    ||| name == headers::ascii("connection"@)
}

/// The last of `values` that is a field value.
pub open spec fn last_value(values: Seq<Seq<u8>>) -> Option<Seq<u8>>
    decreases values.len(),
{
    if values.len() == 0 {
        None
    } else if headers::is_value(values.last()) {
        Some(values.last())
    } else {
        last_value(values.drop_last())
    }
}

/// The fields of the origin's answer that the client gets: of each name the last value,
/// but for the withheld names.
pub open spec fn passed_on(origin: Map<Seq<u8>, Seq<Seq<u8>>>) -> Map<Seq<u8>, Seq<Seq<u8>>> {
    Map::new(
        |name: Seq<u8>|
            origin.contains_key(name) && headers::is_name(name) && !is_withheld(name)
                && last_value(origin[name]) is Some,
        |name: Seq<u8>| seq![last_value(origin[name])->0],
    )
}

/// The header fields of the answer to a request for the bytes from `start` to
/// `final_end` of `total`.
pub open spec fn answer_fields(
    origin: Map<Seq<u8>, Seq<Seq<u8>>>,
    start: int,
    final_end: int,
    total: int,
) -> Map<Seq<u8>, Seq<Seq<u8>>> {
    passed_on(origin).insert(
        headers::ascii("content-range"@),
        seq![headers::ascii(range::content_range_text(start, final_end, total))],
    ).insert(
        headers::ascii("content-length"@),
        seq![headers::ascii(text::decimal(final_end - start + 1))],
    ).insert(headers::ascii("accept-ranges"@), seq![headers::ascii("bytes"@)])
}

/// The status code of the answer: that of a whole file only where the origin answered
/// with one and the client asked for one.
pub open spec fn answer_status(origin: u16, start: int, end: int) -> u16 {
    if origin == 200 && end < 0 && start == 0 {
        200
    } else {
        206
    }
}

/// How many chunks may be outstanding in a transfer.
pub open spec fn window(chunk_size: int, thread: int) -> int {
    let by_memory = MAX_INFLIGHT_BYTES as int / chunk_size;
    let at_least = if thread > 2 {
        thread
    } else {
        2
    };
    if by_memory > at_least {
        by_memory
    } else {
        at_least
    }
}

/// What the origin answered to the first request.
pub struct Fetched {
    pub status: u16,
    pub headers: HeaderMap<HeaderValue>,
    pub body: Bytes,
}

/// An answer to the client: its head, its first bytes, and what is to be fetched for
/// the rest.
pub struct Playback {
    pub status: u16,
    pub headers: HeaderMap<HeaderValue>,
    pub first: Bytes,
    pub rest: Option<Plan>,
}

/// The literal `s`, of ASCII characters alone, has these bytes.
proof fn lemma_ascii_literal(s: &str)
    requires
        vstd::string::is_ascii(s),
    ensures
        s.spec_bytes() == headers::ascii(s@),
{
    is_ascii_spec_bytes(s);
    assert(s.spec_bytes() =~= headers::ascii(s@));
}

/// Copies the first value under `key` into `header`.
fn forward(header: &mut HeaderMap<HeaderValue>, incoming: &HeaderMap<HeaderValue>, key: &str)
    requires
        headers::is_name(key.spec_bytes()),
        headers::has_no_upper(key.spec_bytes()),
        !headers::is_crowded(headers::header_entries(*old(header))),
    ensures
        headers::header_entries(*final(header)) == ({
            let from = headers::header_entries(*incoming);
            let to = headers::header_entries(*old(header));
            let name = key.spec_bytes();
            if from.contains_key(name) && headers::is_value(from[name][0]) {
                to.insert(name, seq![from[name][0]])
            } else {
                to
            }
        }),
{
    if let Some(v) = first_value(incoming, key) {
        assert(headers::lower(key.spec_bytes()) =~= key.spec_bytes());
        match (name_from_bytes(key.as_bytes()), value_from_bytes(v.as_bytes())) {
            (Some(name), Some(value)) => {
                set_value(header, name, value);
            },
            _ => {},
        }
    }
}

/// Whether the field `name` of the origin's answer is kept from the client.
fn withheld(name: &[u8]) -> (result: bool)
    ensures
        result == is_withheld(name@),
{
    proof {
        reveal_strlit("content-range");
        reveal_strlit("content-length");
        reveal_strlit("transfer-encoding");
        reveal_strlit("connection");
        lemma_ascii_literal("content-range");
        lemma_ascii_literal("content-length");
        lemma_ascii_literal("transfer-encoding");
        lemma_ascii_literal("connection");
    }
    same_bytes(name, "content-range".as_bytes()) || same_bytes(name, "content-length".as_bytes())
        || same_bytes(name, "transfer-encoding".as_bytes()) || same_bytes(
        name,
        "connection".as_bytes(),
    )
}

/// The fields kept of `fields`, entered one after the other.
spec fn entered(fields: Seq<(Vec<u8>, Vec<u8>)>) -> Map<Seq<u8>, Seq<Seq<u8>>>
    decreases fields.len(),
{
    if fields.len() == 0 {
        headers::no_entries()
    } else {
        let before = entered(fields.drop_last());
        let (name, value) = (fields.last().0@, fields.last().1@);
        if is_withheld(name) || !headers::is_name(name) || !headers::is_value(value) {
            before
        } else {
            before.insert(name, seq![value])
        }
    }
}

/// Entering fields one after the other leaves the last value of each name.
proof fn lemma_entered(fields: Seq<(Vec<u8>, Vec<u8>)>, name: Seq<u8>)
    ensures
        ({
            let last = last_value(headers::values_under(fields, name));
            &&& entered(fields).contains_key(name) <==> headers::is_name(name) && !is_withheld(name)
                && last is Some
            &&& entered(fields).contains_key(name) ==> entered(fields)[name] == seq![last->0]
        }),
        entered(fields).dom().finite(),
    decreases fields.len(),
{
    if fields.len() > 0 {
        lemma_entered(fields.drop_last(), name);
        let values = headers::values_under(fields, name);
        if fields.last().0@ == name {
            assert(values.drop_last() =~= headers::values_under(fields.drop_last(), name));
        }
    }
}

/// What is under a name after some of the fields is not gone after all of them.
proof fn lemma_values_under_grow(fields: Seq<(Vec<u8>, Vec<u8>)>, k: int, name: Seq<u8>)
    requires
        0 <= k <= fields.len(),
    ensures
        headers::values_under(fields.take(k), name).len() <= headers::values_under(
            fields,
            name,
        ).len(),
    decreases fields.len(),
{
    if k == fields.len() {
        assert(fields.take(k) =~= fields);
    } else {
        assert(fields.drop_last().take(k) =~= fields.take(k));
        lemma_values_under_grow(fields.drop_last(), k, name);
    }
}

/// No more names are entered than the origin's answer has.
proof fn lemma_entered_bounded(
    fields: Seq<(Vec<u8>, Vec<u8>)>,
    k: int,
    origin: Map<Seq<u8>, Seq<Seq<u8>>>,
)
    requires
        0 <= k <= fields.len(),
        origin.dom().finite(),
        forall|name: Seq<u8>| #[trigger]
            headers::values_under(fields, name) == if origin.contains_key(name) {
                origin[name]
            } else {
                Seq::empty()
            },
    ensures
        entered(fields.take(k)).dom().finite(),
        entered(fields.take(k)).dom().len() <= origin.dom().len(),
{
    let entries = entered(fields.take(k));
    lemma_entered(fields.take(k), Seq::empty());
    assert forall|name: Seq<u8>| #[trigger] entries.dom().contains(name) implies origin.dom().contains(
        name,
    ) by {
        lemma_entered(fields.take(k), name);
        lemma_values_under_grow(fields, k, name);
    }
    vstd::set_lib::lemma_len_subset(entries.dom(), origin.dom());
}

/// The fields of the origin's answer that the client gets, where a header map takes
/// them.
fn pass_on(origin: &HeaderMap<HeaderValue>) -> (result: Option<HeaderMap<HeaderValue>>)
    ensures
        match result {
            Some(kept) => {
                let entries = headers::header_entries(kept);
                let from = headers::header_entries(*origin);
                &&& entries == passed_on(from)
                &&& entries.dom().finite()
                &&& from.dom().finite() ==> entries.dom().len() <= from.dom().len()
            },
            None => !headers::has_room(*origin, 1),
        },
{
    let mut kept = no_headers();
    let fields = all_fields(origin);
    let ghost from = headers::header_entries(*origin);
    let n: usize = fields.len();
    let mut i: usize = 0;
    while i < n
        invariant
            i <= n,
            n == fields@.len(),
            from == headers::header_entries(*origin),
            forall|name: Seq<u8>| #[trigger]
                headers::values_under(fields@, name) == if from.contains_key(name) {
                    from[name]
                } else {
                    Seq::empty()
                },
            forall|j: int|
                0 <= j < fields@.len() ==> headers::has_no_upper((#[trigger] fields@[j]).0@),
            headers::header_entries(kept) == entered(fields@.take(i as int)),
        decreases n - i,
    {
        proof {
            if from.dom().finite() {
                lemma_entered_bounded(fields@, i as int, from);
            }
            assert(fields@.take(i + 1).drop_last() =~= fields@.take(i as int));
            assert(headers::has_no_upper(fields@[i as int].0@));
            assert(headers::lower(fields@[i as int].0@) =~= fields@[i as int].0@);
        }
        if !withheld(fields[i].0.as_slice()) {
            match (
                name_from_bytes(fields[i].0.as_slice()),
                value_from_bytes(fields[i].1.as_slice()),
            ) {
                (Some(name), Some(value)) => {
                    if !set_value(&mut kept, name, value) {
                        return None;
                    }
                },
                _ => {},
            }
        }
        i = i + 1;
    }
    proof {
        assert(fields@.take(n as int) =~= fields@);
        lemma_entered(fields@, Seq::empty());
        if from.dom().finite() {
            lemma_entered_bounded(fields@, n as int, from);
        }
        assert forall|name: Seq<u8>|
            entered(fields@).contains_key(name) == #[trigger] passed_on(from).contains_key(name) && (
            entered(fields@).contains_key(name) ==> entered(fields@)[name] == passed_on(
                from,
            )[name]) by {
            lemma_entered(fields@, name);
            assert(headers::values_under(fields@, name) == if from.contains_key(name) {
                from[name]
            } else {
                Seq::empty()
            });
        }
        assert(entered(fields@) =~= passed_on(from));
    }
    Some(kept)
}

/// Whether `s` is printable ASCII.
spec fn is_printable(s: Seq<char>) -> bool {
    forall|i: int| 0 <= i < s.len() ==> ' ' <= #[trigger] s[i] <= '~'
}

/// Printable text is ASCII, and a field value.
proof fn lemma_printable(s: Seq<char>)
    requires
        is_printable(s),
    ensures
        vstd::utf8::is_ascii_chars(s),
        headers::is_value(headers::ascii(s)),
{
    assert forall|i: int| 0 <= i < s.len() implies 0x20 <= #[trigger] headers::ascii(s)[i]
        <= 0x7e by {
        assert(' ' <= s[i] <= '~');
    }
}

/// Printable texts in a row are printable.
proof fn lemma_printable_concat(a: Seq<char>, b: Seq<char>)
    requires
        is_printable(a),
        is_printable(b),
    ensures
        is_printable(a + b),
{
    assert forall|i: int| 0 <= i < (a + b).len() implies ' ' <= #[trigger] (a + b)[i]
        <= '~' by {
        if i < a.len() {
            assert((a + b)[i] == a[i]);
        } else {
            assert((a + b)[i] == b[i - a.len()]);
        }
    }
}

/// Decimal notation is printable.
proof fn lemma_decimal_printable(n: int)
    ensures
        is_printable(text::decimal(n)),
{
    text::lemma_decimal_chars(n);
}

/// A `Content-Range` value is printable.
proof fn lemma_content_range_printable(start: int, end: int, total: int)
    ensures
        is_printable(range::content_range_text(start, end, total)),
{
    reveal_strlit("bytes ");
    reveal_strlit("-");
    reveal_strlit("/");
    lemma_decimal_printable(start);
    lemma_decimal_printable(end);
    lemma_decimal_printable(total);
    let a = "bytes "@ + text::decimal(start);
    lemma_printable_concat("bytes "@, text::decimal(start));
    lemma_printable_concat(a, "-"@);
    lemma_printable_concat(a + "-"@, text::decimal(end));
    lemma_printable_concat(a + "-"@ + text::decimal(end), "/"@);
    lemma_printable_concat(a + "-"@ + text::decimal(end) + "/"@, text::decimal(total));
}

/// Enters an ASCII text under an ASCII name, where the header map takes it.
fn set_text(header: &mut HeaderMap<HeaderValue>, name: &str, value: &str) -> (result: bool)
    requires
        headers::is_name(headers::ascii(name@)),
        headers::has_no_upper(headers::ascii(name@)),
        vstd::string::is_ascii(name),
        vstd::string::is_ascii(value),
        headers::is_value(headers::ascii(value@)),
    ensures
        result ==> headers::header_entries(*final(header)) == headers::header_entries(
            *old(header),
        ).insert(headers::ascii(name@), seq![headers::ascii(value@)]),
        !result ==> headers::is_crowded(headers::header_entries(*old(header))),
{
    proof {
        lemma_ascii_literal(name);
        lemma_ascii_literal(value);
        assert(headers::lower(headers::ascii(name@)) =~= headers::ascii(name@));
    }
    match (name_from_bytes(name.as_bytes()), value_from_str(value)) {
        (Some(name), Some(value)) => set_value(header, name, value),
        _ => false,
    }
}

/// The header fields of the answer to a request for the bytes from `start` to
/// `final_end` of `total`, where a header map takes them. It takes them for sure as long
/// as the origin's answer has room for three further names.
pub fn answer_head(
    origin: &HeaderMap<HeaderValue>,
    start: i64,
    final_end: i64,
    total: i64,
) -> (result: Option<HeaderMap<HeaderValue>>)
    requires
        0 <= start <= final_end < i64::MAX,
    ensures
        match result {
            Some(head) => headers::header_entries(head) == answer_fields(
                headers::header_entries(*origin),
                start as int,
                final_end as int,
                total as int,
            ),
            None => !headers::has_room(*origin, 3),
        },
{
    let mut head = match pass_on(origin) {
        Some(kept) => kept,
        None => {
            return None;
        },
    };
    let content_range = content_range_value(start, final_end, total);
    let content_length = to_decimal(final_end - start + 1);
    proof {
        reveal_strlit("content-range");
        reveal_strlit("content-length");
        reveal_strlit("accept-ranges");
        reveal_strlit("bytes");
        lemma_content_range_printable(start as int, final_end as int, total as int);
        lemma_printable(content_range@);
        lemma_decimal_printable(final_end - start + 1);
        lemma_printable(content_length@);
        assert(is_printable("bytes"@));
        lemma_printable("bytes"@);
    }
    if set_text(&mut head, "content-range", content_range.as_str()) && set_text(
        &mut head,
        "content-length",
        content_length.as_str(),
    ) && set_text(&mut head, "accept-ranges", "bytes") {
        Some(head)
    } else {
        None
    }
}

impl Player {
    /// The bounds that every transfer keeps.
    pub open spec fn wf(self) -> bool {
        &&& self.start >= 0
        &&& MIN_THREAD <= self.thread <= MAX_THREAD
        &&& MIN_CHUNK_KB * 1024 <= self.chunk_size <= MAX_CHUNK_KB * 1024
        &&& self.thread * self.chunk_size <= MAX_INFLIGHT_BYTES
    }

    /// Whether this is how a request with these header fields and parameters is taken
    /// up: which fields go to the origin, which range is asked for, and how many workers
    /// fetch chunks of which size.
    pub open spec fn takes_up(
        self,
        incoming: Map<Seq<u8>, Seq<Seq<u8>>>,
        thread: usize,
        chunk_size_kb: i64,
        url: Seq<char>,
    ) -> bool {
        &&& self.wf()
        &&& headers::header_entries(self.header) == forwarded(incoming)
        &&& (self.start as int, self.end as int) == incoming_range(incoming)
        &&& self.chunk_size == clamped(
            chunk_size_kb as int,
            MIN_CHUNK_KB as int,
            MAX_CHUNK_KB as int,
        ) * 1024
        &&& self.thread == fitting_threads(
            clamped(thread as int, MIN_THREAD as int, MAX_THREAD as int) as nat,
            self.chunk_size as int,
        )
        &&& self.url@ == url
    }

    /// Takes up a request, with a new HTTP client for it. Only building that client can
    /// fail.
    pub fn new(
        incoming: &HeaderMap<HeaderValue>,
        thread: usize,
        chunk_size_kb: i64,
        url: String,
    ) -> (result: Result<Self, String>)
        ensures
            match result {
                Ok(player) => client::settings_of(player.client) == client::origin_settings()
                    && player.takes_up(
                    headers::header_entries(*incoming),
                    thread,
                    chunk_size_kb,
                    url@,
                ),
                Err(message) => exists|e: reqwest::Error|
                    message@ == "构建 HTTP client 失败: "@ + #[trigger] client::error_message(e),
            },
    {
        let built = match build_client(&client_settings()) {
            Ok(client) => Ok(client),
            Err(e) => Err(error_text(&e)),
        };
        Player::with_client(incoming, thread, chunk_size_kb, url, built)
    }

    /// Takes up a request, with what building an HTTP client gave: a client, or the text
    /// of an error.
    pub fn with_client(
        incoming: &HeaderMap<HeaderValue>,
        thread: usize,
        chunk_size_kb: i64,
        url: String,
        client: Result<Client, String>,
    ) -> (result: Result<Self, String>)
        ensures
            match (client, result) {
                (Ok(c), Ok(player)) => player.client == c && player.takes_up(
                    headers::header_entries(*incoming),
                    thread,
                    chunk_size_kb,
                    url@,
                ),
                (Err(e), Err(message)) => message@ == "构建 HTTP client 失败: "@ + e@,
                _ => false,
            },
    {
        let mut header = no_headers();
        let ghost fields = headers::header_entries(*incoming);
        proof {
            reveal_strlit("user-agent");
            reveal_strlit("cookie");
            reveal_strlit("referer");
            reveal_strlit("range");
            lemma_ascii_literal("user-agent");
            lemma_ascii_literal("cookie");
            lemma_ascii_literal("referer");
            lemma_ascii_literal("range");
        }
        forward(&mut header, incoming, "user-agent");
        forward(&mut header, incoming, "cookie");
        forward(&mut header, incoming, "referer");
        proof {
            assert("user-agent"@.len() == 10 && "cookie"@.len() == 6 && "referer"@.len() == 7);
            assert(headers::header_entries(header) =~= forwarded(fields));
        }
        let (start, end) = match first_value(incoming, "range") {
            Some(v) => match value_to_str(v) {
                Some(s) => parse_range(s),
                None => parse_range(""),
            },
            None => parse_range(""),
        };
        proof {
            reveal_strlit("");
            assert(""@ =~= Seq::empty());
        }
        let chunk_kb: i64 = if chunk_size_kb < MIN_CHUNK_KB {
            MIN_CHUNK_KB
        } else if chunk_size_kb > MAX_CHUNK_KB {
            MAX_CHUNK_KB
        } else {
            chunk_size_kb
        };
        let chunk_size: i64 = chunk_kb * 1024;
        let wanted: usize = if thread < MIN_THREAD {
            MIN_THREAD
        } else if thread > MAX_THREAD {
            MAX_THREAD
        } else {
            thread
        };
        let mut workers: usize = wanted;
        proof {
            lemma_fitting_threads(wanted as nat, chunk_size as int);
            assert(workers * chunk_size <= 32 * 8388608) by (nonlinear_arith)
                requires
                    workers <= 32,
                    0 <= chunk_size <= 8388608,
            ;
        }
        while workers > MIN_THREAD && (workers as i64) * chunk_size > MAX_INFLIGHT_BYTES
            invariant
                1 <= workers <= MAX_THREAD,
                MIN_CHUNK_KB * 1024 <= chunk_size <= MAX_CHUNK_KB * 1024,
                workers * chunk_size <= 32 * 8388608,
                fitting_threads(wanted as nat, chunk_size as int) == fitting_threads(
                    workers as nat,
                    chunk_size as int,
                ),
            decreases workers,
        {
            workers = workers / 2;
            assert(workers * chunk_size <= 32 * 8388608) by (nonlinear_arith)
                requires
                    workers <= 32,
                    0 <= chunk_size <= 8388608,
            ;
        }
        match client {
            Ok(client) => Ok(
                Player { client, header, start, end, thread: workers, chunk_size, url },
            ),
            Err(e) => Err(prefixed("构建 HTTP client 失败: ", e.as_str())),
        }
    }

    /// Whether the first request of this transfer can be computed.
    pub open spec fn fits(self) -> bool {
        self.start + self.chunk_size <= i64::MAX && self.end < i64::MAX
    }

    /// Whether the first request of this transfer can be computed: the bounds are not at
    /// the very end of the integers.
    pub fn in_bounds(&self) -> (result: bool)
        requires
            self.wf(),
        ensures
            result == self.fits(),
    {
        self.start <= i64::MAX - self.chunk_size && self.end < i64::MAX
    }

    /// The last byte to ask the origin for first.
    pub open spec fn first_last(self) -> int {
        let last = first_end(self.start as int, self.end as int, self.chunk_size as int) - 1;
        if last < self.start {
            self.start as int
        } else {
            last
        }
    }

    /// The bytes to ask the origin for first, both ends included.
    pub fn first_request(&self) -> (result: (i64, i64))
        requires
            self.wf(),
            self.fits(),
        ensures
            result.0 == self.start,
            result.1 == self.first_last(),
    {
        let last: i64 = first_end_excl(self.start, self.end, self.chunk_size) - 1;
        if last < self.start {
            (self.start, self.start)
        } else {
            (self.start, last)
        }
    }

    /// The last byte of the answer when the origin states a length of `total`.
    pub open spec fn final_end(self, total: int) -> int {
        last_byte(self.end as int, total)
    }

    /// What is left to be fetched once the answer has its first `first_len` bytes.
    pub open spec fn rest_of(self, final_end: int, first_len: int) -> Option<Plan> {
        if self.start + first_len > final_end {
            None
        } else {
            Some(
                Plan {
                    cursor: (self.start + first_len) as i64,
                    final_end: final_end as i64,
                    chunk_size: self.chunk_size,
                    slots: window(self.chunk_size as int, self.thread as int) as usize,
                    threads: self.thread,
                },
            )
        }
    }

    /// The bytes of `body` that belong to an answer that ends at `final_end`.
    pub open spec fn first_part(self, body: Seq<u8>, final_end: int) -> Seq<u8> {
        let wanted = final_end - self.start + 1;
        if body.len() > wanted {
            body.take(wanted)
        } else {
            body
        }
    }

    /// Whether the length that an origin's answer with these fields states is one that
    /// the client's range meets.
    pub open spec fn is_met_by(self, fields: Map<Seq<u8>, Seq<Seq<u8>>>) -> bool {
        usable_total(fields) matches Some(total) && self.start <= self.final_end(total as int)
    }

    /// Whether `result` is the answer once the first request to the origin has been
    /// `fetched`.
    pub open spec fn answers(
        self,
        fetched: Result<Fetched, String>,
        result: Result<Playback, Refusal>,
    ) -> bool {
        match fetched {
            Err(e) => result matches Err(refusal) && refusal.says(502, "首块下载失败: "@ + e@),
            Ok(f) => {
                let fields = headers::header_entries(f.headers);
                match usable_total(fields) {
                    None => result matches Err(refusal) && refusal.says(
                        502,
                        "未获取到文件总大小"@,
                    ),
                    Some(total) => {
                        let (start, end) = (self.start as int, self.end as int);
                        let final_end = self.final_end(total as int);
                        if start > final_end {
                            result matches Err(refusal) && refusal.says(
                                416,
                                reply::bad_range_text(start, final_end, total as int),
                            )
                        } else {
                            &&& result matches Ok(p)
                            &&& p.status == answer_status(f.status, start, end)
                            &&& headers::header_entries(p.headers) == answer_fields(
                                fields,
                                start,
                                final_end,
                                total as int,
                            )
                            &&& content(p.first) == self.first_part(content(f.body), final_end)
                            &&& p.rest == self.rest_of(final_end, content(p.first).len() as int)
                        }
                    },
                }
            },
        }
    }

    /// Opens an answer that ends at `final_end` with its `head`, where there is one: the
    /// origin answered the first request with `status` and `body`.
    pub fn opening(
        &self,
        status: u16,
        body: Bytes,
        final_end: i64,
        head: Option<HeaderMap<HeaderValue>>,
    ) -> (result: Option<Playback>)
        requires
            self.wf(),
            self.start <= final_end < i64::MAX,
        ensures
            match (head, result) {
                (Some(head), Some(p)) => {
                    &&& p.status == answer_status(status, self.start as int, self.end as int)
                    &&& p.headers == head
                    &&& content(p.first) == self.first_part(content(body), final_end as int)
                    &&& p.rest == self.rest_of(final_end as int, content(p.first).len() as int)
                    &&& p.rest matches Some(plan) ==> plan.wf()
                },
                (None, None) => true,
                _ => false,
            },
    {
        let headers = match head {
            Some(head) => head,
            None => {
                return None;
            },
        };
        let length: i64 = final_end - self.start + 1;
        let size: usize = body.len();
        let first = if size as u64 > length as u64 {
            first_bytes(&body, length as usize)
        } else {
            body
        };
        let first_len: usize = first.len();
        let cursor: i64 = self.start + first_len as i64;
        let rest = if cursor > final_end {
            None
        } else {
            let by_memory: i64 = MAX_INFLIGHT_BYTES / self.chunk_size;
            proof {
                vstd::arithmetic::div_mod::lemma_div_is_ordered_by_denominator(
                    MAX_INFLIGHT_BYTES as int,
                    1,
                    self.chunk_size as int,
                );
                vstd::arithmetic::div_mod::lemma_div_pos_is_pos(
                    MAX_INFLIGHT_BYTES as int,
                    self.chunk_size as int,
                );
            }
            let at_least: usize = if self.thread > 2 {
                self.thread
            } else {
                2
            };
            let slots: usize = if by_memory as usize > at_least {
                by_memory as usize
            } else {
                at_least
            };
            Some(
                Plan {
                    cursor,
                    final_end,
                    chunk_size: self.chunk_size,
                    slots,
                    threads: self.thread,
                },
            )
        };
        let status: u16 = if status == 200 && self.end < 0 && self.start == 0 {
            200
        } else {
            206
        };
        Some(Playback { status, headers, first, rest })
    }

    /// Answers the client once the first request to the origin has been `fetched`: with
    /// the head of the answer, its first bytes and the plan for the rest, or with a
    /// refusal. Nothing comes of it where the header map that is to be the head refuses
    /// a field, which takes thousands of them.
    pub fn play(&self, fetched: Result<Fetched, String>) -> (result: Option<
        Result<Playback, Refusal>,
    >)
        requires
            self.wf(),
        ensures
            match result {
                Some(answer) => self.answers(fetched, answer) && (answer matches Ok(p) ==> (
                p.rest matches Some(plan) ==> plan.wf())),
                None => fetched matches Ok(f) && self.is_met_by(
                    headers::header_entries(f.headers),
                ) && !headers::has_room(f.headers, 3),
            },
    {
        let fetched = match fetched {
            Ok(f) => f,
            Err(e) => {
                return Some(
                    Err(Refusal { status: 502, body: prefixed("首块下载失败: ", e.as_str()) }),
                );
            },
        };
        proof {
            reveal_strlit("content-range");
            lemma_ascii_literal("content-range");
        }
        let stated: Option<i64> = match first_value(&fetched.headers, "content-range") {
            Some(v) => match value_to_str(v) {
                Some(s) => parse_total(s),
                None => None,
            },
            None => None,
        };
        let total: i64 = match stated {
            Some(t) => t,
            None => {
                return Some(Err(refuse(502, "未获取到文件总大小")));
            },
        };
        if total <= 0 {
            return Some(Err(refuse(502, "未获取到文件总大小")));
        }
        let final_end: i64 = if self.end < 0 || self.end > total - 1 {
            total - 1
        } else {
            self.end
        };
        if self.start > final_end {
            return Some(Err(bad_range(self.start, final_end, total)));
        }
        let head = answer_head(&fetched.headers, self.start, final_end, total);
        match self.opening(fetched.status, fetched.body, final_end, head) {
            Some(playback) => Some(Ok(playback)),
            None => None,
        }
    }
}

/// Takes up a proxy request with these parameters and header fields, or refuses it:
/// where something is wrong with the parameters, or where no HTTP client can be built.
pub fn take_up(params: &Params, incoming: &HeaderMap<HeaderValue>) -> (result: Result<
    Player,
    Refusal,
>)
    ensures
        match query::complaint(params@) {
            Some(text) => result matches Err(refusal) && refusal.says(400, text),
            None => match result {
                Ok(player) => client::settings_of(player.client) == client::origin_settings()
                    && player.takes_up(
                    headers::header_entries(*incoming),
                    text::usize_value(params@["thread"@])->0,
                    text::i64_value(params@["chunkSize"@])->0,
                    params@["url"@],
                ),
                Err(refusal) => exists|e: reqwest::Error|
                    refusal.says(
                        500,
                        "构建 HTTP client 失败: "@ + #[trigger] client::error_message(e),
                    ),
            },
        },
{
    match extract_params(params) {
        Ok((thread, chunk_size_kb, url)) => match Player::new(
            incoming,
            thread,
            chunk_size_kb,
            url,
        ) {
            Ok(player) => Ok(player),
            Err(e) => Err(internal_error(e)),
        },
        Err(refusal) => Err(refusal),
    }
}

/// What goes to the origin: the first `User-Agent`, `Cookie` and `Referer` of the
/// request, and no other field. The range is the one that the `Range` field asks for,
/// and everything where there is no such field or it is not text. The address is the one
/// that was given.
pub proof fn law_request_is_taken_up(
    player: Player,
    incoming: Map<Seq<u8>, Seq<Seq<u8>>>,
    thread: usize,
    chunk_size_kb: i64,
    url: Seq<char>,
    name: Seq<u8>,
)
    requires
        player.takes_up(incoming, thread, chunk_size_kb, url),
    ensures
        ({
            let sent = headers::header_entries(player.header);
            let known = name == headers::ascii("user-agent"@) || name == headers::ascii("cookie"@)
                || name == headers::ascii("referer"@);
            &&& sent.contains_key(name) <==> known && incoming.contains_key(name)
                && headers::is_value(incoming[name][0])
            &&& sent.contains_key(name) ==> sent[name] == seq![incoming[name][0]]
        }),
        ({
            let field = headers::ascii("range"@);
            let asked = (player.start as int, player.end as int);
            if incoming.contains_key(field) && headers::is_visible(incoming[field][0]) {
                asked == range::requested_range(headers::ascii_text(incoming[field][0]))
            } else {
                asked == (0int, -1int)
            }
        }),
        player.url@ == url,
{
    let none = Seq::<char>::empty();
    assert(text::trimmed(none) == none);
    reveal_strlit("bytes=");
}

/// Chunks have the size that was asked for, from 16 KiB to 8 MiB. So many workers fetch
/// them as were asked for, from one to 32, but half as many, and half of that again, as
/// long as their chunks are together more than 64 MiB.
pub proof fn law_concurrency_is_bounded(
    player: Player,
    incoming: Map<Seq<u8>, Seq<Seq<u8>>>,
    thread: usize,
    chunk_size_kb: i64,
    url: Seq<char>,
)
    requires
        player.takes_up(incoming, thread, chunk_size_kb, url),
    ensures
        chunk_size_kb <= 16 ==> player.chunk_size == 16384,
        16 <= chunk_size_kb <= 8192 ==> player.chunk_size == chunk_size_kb * 1024,
        chunk_size_kb >= 8192 ==> player.chunk_size == 8388608,
        ({
            let asked = if thread < 1 {
                1int
            } else if thread > 32 {
                32int
            } else {
                thread as int
            };
            let c = player.chunk_size as int;
            &&& 1 <= player.thread <= 32
            &&& player.thread * c <= 67108864
            &&& {
                ||| player.thread == asked
                ||| player.thread == asked / 2 && asked * c > 67108864
                ||| player.thread == asked / 4 && (asked / 2) * c > 67108864
            }
        }),
{
    let asked = clamped(thread as int, MIN_THREAD as int, MAX_THREAD as int) as nat;
    let c = player.chunk_size as int;
    reveal_with_fuel(fitting_threads, 4);
    assert((asked / 4) * c <= 8 * 8388608) by (nonlinear_arith)
        requires
            asked <= 32,
            0 <= c <= 8388608,
    ;
    assert((asked / 2) / 2 == asked / 4);
}

/// A client for origins does not check certificates, keeps up to 20 idle connections per
/// host for a minute, gives up connecting after ten seconds, and probes connections every
/// half minute.
pub proof fn law_client_settings(settings: client::ClientSettings)
    requires
        settings == client::origin_settings(),
    ensures
        settings.accept_invalid_certs,
        settings.max_idle_per_host == 20,
        settings.idle_timeout_secs == 60,
        settings.connect_timeout_secs == 10,
        settings.keepalive_secs == 30,
{
}

/// The first request reaches from the start of the client's range to its end, but over no
/// more than a chunk. Where the client gives no end it asks for a hundred bytes, and
/// where the end is before the start, for one.
pub proof fn law_first_request_is_what_was_asked_for(player: Player)
    requires
        player.wf(),
    ensures
        player.end < 0 ==> player.first_last() == player.start + 99,
        0 <= player.end < player.start ==> player.first_last() == player.start,
        player.start <= player.end < player.start + player.chunk_size ==> player.first_last()
            == player.end,
        player.start + player.chunk_size <= player.end ==> player.first_last() == player.start
            + player.chunk_size - 1,
{
}

/// The end of the first request is the nearer of two ends, for chunks of any size.
pub proof fn law_first_end_is_the_nearer_one(start: int, end: int, chunk: int)
    ensures
        ({
            let wanted = if end < 0 {
                start + 100
            } else {
                end + 1
            };
            let r = first_end(start, end, chunk);
            &&& r <= wanted && r <= start + chunk
            &&& r == wanted || r == start + chunk
        }),
{
}

/// The answer reaches as far as the file does, and no further than the client asked.
pub proof fn law_answer_ends_with_the_range_or_the_file(player: Player, total: int, byte: int)
    requires
        0 < total,
    ensures
        byte <= player.final_end(total) <==> byte < total && (player.end < 0 || byte <= player.end),
{
}

/// The status is that of a whole file only if the origin answered with it and the client
/// asked for everything from the first byte on; in all other cases it is that of a part.
pub proof fn law_status_of_the_answer(origin: u16, start: int, end: int)
    ensures
        answer_status(origin, start, end) == 200 <==> origin == 200 && start == 0 && end < 0,
        answer_status(origin, start, end) == 200 || answer_status(origin, start, end) == 206,
{
}

/// The length of the file is the positive number that the first `Content-Range` field of
/// the origin's answer states.
pub proof fn law_length_of_the_file(fields: Map<Seq<u8>, Seq<Seq<u8>>>, total: i64)
    ensures
        usable_total(fields) == Some(total) <==> {
            let name = headers::ascii("content-range"@);
            &&& total > 0
            &&& fields.contains_key(name)
            &&& headers::is_visible(fields[name][0])
            &&& range::stated_total(headers::ascii_text(fields[name][0])) == Some(total)
        },
{
}

/// ASCII text survives being turned to bytes and back.
proof fn lemma_ascii_there_and_back(s: Seq<char>)
    requires
        is_printable(s),
    ensures
        headers::ascii_text(headers::ascii(s)) == s,
{
    let t = headers::ascii_text(headers::ascii(s));
    assert forall|i: int| 0 <= i < s.len() implies t[i] == #[trigger] s[i] by {
        assert(' ' <= s[i] <= '~');
    }
    assert(t =~= s);
}

/// The five names that the head of an answer treats apart are different ones.
proof fn lemma_names_differ()
    ensures
        headers::ascii("content-range"@) != headers::ascii("content-length"@),
        headers::ascii("content-range"@) != headers::ascii("accept-ranges"@),
        headers::ascii("content-length"@) != headers::ascii("accept-ranges"@),
        headers::ascii("transfer-encoding"@) != headers::ascii("content-range"@),
        headers::ascii("transfer-encoding"@) != headers::ascii("content-length"@),
        headers::ascii("transfer-encoding"@) != headers::ascii("accept-ranges"@),
        headers::ascii("connection"@) != headers::ascii("content-range"@),
        headers::ascii("connection"@) != headers::ascii("content-length"@),
        headers::ascii("connection"@) != headers::ascii("accept-ranges"@),
{
    reveal_strlit("content-range");
    reveal_strlit("content-length");
    reveal_strlit("accept-ranges");
    reveal_strlit("transfer-encoding");
    reveal_strlit("connection");
    assert(headers::ascii("content-range"@).len() == 13);
    assert(headers::ascii("content-length"@).len() == 14);
    assert(headers::ascii("accept-ranges"@).len() == 13);
    assert(headers::ascii("transfer-encoding"@).len() == 17);
    assert(headers::ascii("connection"@).len() == 10);
    assert(headers::ascii("content-range"@)[0] == 'c' as u8);
    assert(headers::ascii("accept-ranges"@)[0] == 'a' as u8);
}

/// Whatever fields the origin's answer has, the head of the answer has exactly one
/// `Content-Length`, which is the number of bytes from `start` to `final_end`, exactly one
/// `Content-Range`, which states that range and the total, and exactly one
/// `Accept-Ranges`. It has neither of the fields that concern one connection only.
pub proof fn law_head_states_the_range(
    origin: Map<Seq<u8>, Seq<Seq<u8>>>,
    start: i64,
    final_end: i64,
    total: i64,
)
    requires
        0 <= start <= final_end < i64::MAX,
    ensures
        ({
            let head = answer_fields(origin, start as int, final_end as int, total as int);
            let length = headers::ascii("content-length"@);
            let range = headers::ascii("content-range"@);
            &&& head.contains_key(length) && head[length].len() == 1
            &&& headers::ascii_text(head[length][0]) == text::decimal(final_end - start + 1)
            &&& text::i64_value(headers::ascii_text(head[length][0])) == Some(
                (final_end - start + 1) as i64,
            )
            &&& head.contains_key(range) && head[range].len() == 1
            &&& headers::ascii_text(head[range][0]) == "bytes "@ + text::decimal(start as int) + "-"@
                + text::decimal(final_end as int) + "/"@ + text::decimal(total as int)
            &&& range::stated_total(headers::ascii_text(head[range][0])) == Some(total)
            &&& head.contains_key(headers::ascii("accept-ranges"@))
            &&& head[headers::ascii("accept-ranges"@)] == seq![headers::ascii("bytes"@)]
            &&& !head.contains_key(headers::ascii("transfer-encoding"@))
            &&& !head.contains_key(headers::ascii("connection"@))
        }),
{
    lemma_names_differ();
    let n = (final_end - start + 1) as i64;
    lemma_decimal_printable(n as int);
    lemma_ascii_there_and_back(text::decimal(n as int));
    text::law_decimal_reads_back(n);
    let r = range::content_range_text(start as int, final_end as int, total as int);
    lemma_content_range_printable(start as int, final_end as int, total as int);
    lemma_ascii_there_and_back(r);
    range::law_total_reads_back(start, final_end, total);
}

/// The last of `values` that is a field value is one of them, and none behind it is a
/// field value.
proof fn lemma_last_value(values: Seq<Seq<u8>>)
    ensures
        match last_value(values) {
            Some(v) => exists|i: int|
                0 <= i < values.len() && #[trigger] values[i] == v && headers::is_value(v) && (
                forall|j: int| i < j < values.len() ==> !headers::is_value(#[trigger] values[j])),
            None => forall|j: int|
                0 <= j < values.len() ==> !headers::is_value(#[trigger] values[j]),
        },
    decreases values.len(),
{
    if values.len() > 0 {
        let n = values.len() - 1;
        let before = values.drop_last();
        if headers::is_value(values.last()) {
            assert(values[n] == values.last());
        } else {
            lemma_last_value(before);
            assert(!headers::is_value(values[n]));
            match last_value(before) {
                Some(v) => {
                    let i = choose|i: int|
                        0 <= i < before.len() && #[trigger] before[i] == v && headers::is_value(v)
                            && (forall|j: int|
                            i < j < before.len() ==> !headers::is_value(#[trigger] before[j]));
                    assert(values[i] == v);
                    assert forall|j: int| i < j < values.len() implies !headers::is_value(
                        #[trigger] values[j],
                    ) by {
                        if j < n {
                            assert(before[j] == values[j]);
                        }
                    }
                },
                None => {
                    assert forall|j: int| 0 <= j < values.len() implies !headers::is_value(
                        #[trigger] values[j],
                    ) by {
                        if j < n {
                            assert(before[j] == values[j]);
                        }
                    }
                },
            }
        }
    }
}

/// Every other field of the origin's answer is passed on, with the last of its values,
/// and no field comes from anywhere else. `name` is a field name, and its values are
/// field values, as they are in every answer that came over the wire.
pub proof fn law_other_fields_are_passed_on(
    origin: Map<Seq<u8>, Seq<Seq<u8>>>,
    start: int,
    final_end: int,
    total: int,
    name: Seq<u8>,
)
    requires
        name != headers::ascii("content-range"@),
        name != headers::ascii("content-length"@),
        name != headers::ascii("accept-ranges"@),
        name != headers::ascii("transfer-encoding"@),
        name != headers::ascii("connection"@),
        headers::is_name(name),
        origin.contains_key(name) ==> origin[name].len() > 0 && forall|i: int|
            0 <= i < origin[name].len() ==> headers::is_value(#[trigger] origin[name][i]),
    ensures
        ({
            let head = answer_fields(origin, start, final_end, total);
            &&& head.contains_key(name) <==> origin.contains_key(name)
            &&& head.contains_key(name) ==> head[name] == seq![origin[name].last()]
        }),
{
    if origin.contains_key(name) {
        let values = origin[name];
        lemma_last_value(values);
        assert(headers::is_value(values[values.len() - 1]));
    }
}

/// The bytes that came first are the beginning of the answer, as many of them as belong
/// to it.
pub proof fn law_first_bytes_begin_the_answer(player: Player, body: Seq<u8>, final_end: int)
    requires
        player.start <= final_end,
    ensures
        ({
            let first = player.first_part(body, final_end);
            &&& first.len() <= body.len()
            &&& first.len() <= final_end - player.start + 1
            &&& first.len() == body.len() || first.len() == final_end - player.start + 1
            &&& forall|i: int| 0 <= i < first.len() ==> #[trigger] first[i] == body[i]
        }),
{
}

/// The rest of the answer is fetched with the chunk size and the workers of the request,
/// from right behind the first bytes to the last byte, and with as many chunks
/// outstanding as have room in 64 MiB.
pub proof fn law_plan_for_the_rest(player: Player, final_end: int, first_len: int)
    requires
        player.wf(),
        0 <= first_len,
        final_end < i64::MAX,
    ensures
        player.rest_of(final_end, first_len) is None <==> player.start + first_len > final_end,
        player.rest_of(final_end, first_len) matches Some(plan) ==> {
            &&& plan.cursor == player.start + first_len
            &&& plan.final_end == final_end
            &&& plan.chunk_size == player.chunk_size
            &&& plan.threads == player.thread
            &&& plan.slots * plan.chunk_size <= 67108864
            &&& (plan.slots + 1) * plan.chunk_size > 67108864
            &&& plan.slots >= player.thread
        },
{
    let c = player.chunk_size as int;
    let m = MAX_INFLIGHT_BYTES as int;
    let q = m / c;
    let t = player.thread as int;
    vstd::arithmetic::div_mod::lemma_fundamental_div_mod(m, c);
    vstd::arithmetic::div_mod::lemma_div_pos_is_pos(m, c);
    vstd::arithmetic::div_mod::lemma_div_is_ordered_by_denominator(m, 1, c);
    vstd::arithmetic::mul::lemma_mul_is_commutative(q, c);
    assert(m == q * c + m % c && 0 <= m % c < c);
    assert(q >= 8) by (nonlinear_arith)
        requires
            m == q * c + m % c,
            0 <= m % c < c,
            c <= 8388608,
            m == 67108864,
    ;
    assert(t <= q) by (nonlinear_arith)
        requires
            t * c <= m,
            m == q * c + m % c,
            0 <= m % c < c,
    ;
    assert((q + 1) * c == q * c + c) by (nonlinear_arith);
    assert(window(c, t) == q);
}

/// A request that cannot be answered is refused: with 502 and the error, where the first
/// request to the origin failed; with 502, where the origin does not state the length of
/// the file; and with 416 and the bounds, where the range does not meet the file. In all
/// other cases it is answered.
pub proof fn law_refusals(
    player: Player,
    fetched: Result<Fetched, String>,
    result: Result<Playback, Refusal>,
)
    requires
        player.answers(fetched, result),
    ensures
        fetched matches Err(e) ==> (result matches Err(refusal) && refusal.status == 502
            && refusal.body@ == "首块下载失败: "@ + e@),
        fetched matches Ok(f) ==> match usable_total(headers::header_entries(f.headers)) {
            None => result matches Err(refusal) && refusal.status == 502 && refusal.body@
                == "未获取到文件总大小"@,
            Some(total) => {
                let last = if player.end < 0 || player.end >= total {
                    total - 1
                } else {
                    player.end as int
                };
                if player.start > last {
                    result matches Err(refusal) && refusal.status == 416 && refusal.body@
                        == "无效范围: "@ + text::decimal(player.start as int) + "-"@
                        + text::decimal(last) + "/"@ + text::decimal(total as int)
                } else {
                    result is Ok
                }
            },
        },
{
}

/// An answer is of one piece: the length that its head states is the number of bytes that
/// come first and of those that are left to be fetched, its first bytes begin what the
/// origin sent, its range begins where the client's does, and its status fits.
pub proof fn law_answer_is_of_one_piece(player: Player, fetched: Fetched, playback: Playback)
    requires
        player.wf(),
        player.answers(Ok(fetched), Ok(playback)),
    ensures
        ({
            let head = headers::header_entries(playback.headers);
            let length = headers::ascii("content-length"@);
            let range = headers::ascii("content-range"@);
            let first = content(playback.first);
            let left = match playback.rest {
                Some(plan) => plan.final_end - plan.cursor + 1,
                None => 0,
            };
            let total = usable_total(headers::header_entries(fetched.headers))->0;
            let last = player.start + first.len() + left - 1;
            &&& head.contains_key(length) && head[length].len() == 1
            &&& text::i64_value(headers::ascii_text(head[length][0])) == Some(
                (first.len() + left) as i64,
            )
            &&& head.contains_key(range) && head[range].len() == 1
            &&& headers::ascii_text(head[range][0]) == "bytes "@ + text::decimal(
                player.start as int,
            ) + "-"@ + text::decimal(last) + "/"@ + text::decimal(total as int)
            &&& last < total
            &&& player.end >= 0 ==> last <= player.end
            &&& last == total - 1 || last == player.end
            &&& playback.rest matches Some(plan) ==> plan.cursor == player.start + first.len()
            &&& forall|i: int| 0 <= i < first.len() ==> #[trigger] first[i] == content(fetched.body)[i]
            &&& first.len() <= content(fetched.body).len()
            &&& playback.status == 200 <==> fetched.status == 200 && player.start == 0 && player.end
                < 0
            &&& playback.status == 200 || playback.status == 206
        }),
{
    let fields = headers::header_entries(fetched.headers);
    let total = usable_total(fields)->0;
    let final_end = player.final_end(total as int);
    law_head_states_the_range(fields, player.start, final_end as i64, total);
    law_first_bytes_begin_the_answer(player, content(fetched.body), final_end);
    law_plan_for_the_rest(player, final_end, content(playback.first).len() as int);
}

/// The first request asks for at least one byte and for no more than a chunk. It does
/// not reach behind the end that the client gives, where that is not before the start.
pub proof fn law_first_request_bounds(player: Player)
    requires
        player.wf(),
    ensures
        player.start <= player.first_last() < player.start + player.chunk_size,
        player.end >= player.start ==> player.first_last() <= player.end,
{
}

/// What a transfer keeps in memory is bounded: in every state that its pipeline can be
/// in, the outstanding chunks have at most the bound's bytes.
pub proof fn law_memory_is_bounded<T>(
    player: Player,
    final_end: int,
    first_len: int,
    s: State<T>,
)
    requires
        player.wf(),
        s.wf(),
        player.rest_of(final_end, first_len) == Some(s.plan),
    ensures
        s.outstanding() * player.chunk_size <= 67108864,
{
    let c = player.chunk_size as int;
    let m = MAX_INFLIGHT_BYTES as int;
    let w = window(c, player.thread as int);
    assert((m / c) * c <= m && 0 <= m / c <= m) by {
        vstd::arithmetic::div_mod::lemma_fundamental_div_mod(m, c);
        vstd::arithmetic::div_mod::lemma_div_pos_is_pos(m, c);
        vstd::arithmetic::div_mod::lemma_div_is_ordered_by_denominator(m, 1, c);
        vstd::arithmetic::mul::lemma_mul_is_commutative(m / c, c);
    }
    assert(player.thread * c <= m);
    assert(w * c <= m) by {
        if w == m / c {
            assert(w * c == (m / c) * c);
        } else if w == player.thread {
            assert(w * c == player.thread * c);
        } else {
            assert(w == 2);
            assert(w * c == 2 * c);
        }
    }
    assert(s.outstanding() * c <= w * c) by (nonlinear_arith)
        requires
            0 <= s.outstanding() <= w,
            c > 0,
    ;
}

/// The answer has the length that it states, whatever fields the origin sent: its first
/// bytes and those of the plan for the rest are together as many as the one
/// `Content-Length` field of its head says, without a gap between them.
pub proof fn law_answer_has_stated_length(
    player: Player,
    origin: Map<Seq<u8>, Seq<Seq<u8>>>,
    body: Seq<u8>,
    total: i64,
)
    requires
        player.wf(),
        0 < total,
        player.start <= player.final_end(total as int),
    ensures
        ({
            let final_end = player.final_end(total as int);
            let head = answer_fields(origin, player.start as int, final_end, total as int);
            let name = headers::ascii("content-length"@);
            let length = text::i64_value(headers::ascii_text(head[name][0]))->0;
            let first = player.first_part(body, final_end);
            &&& head.contains_key(name) && head[name].len() == 1
            &&& text::i64_value(headers::ascii_text(head[name][0])) is Some
            &&& length == final_end - player.start + 1
            &&& first.len() <= length
            &&& match player.rest_of(final_end, first.len() as int) {
                Some(plan) => plan.cursor == player.start + first.len() && first.len() + (
                plan.final_end - plan.cursor + 1) == length,
                None => first.len() == length,
            }
        }),
{
    law_head_states_the_range(
        origin,
        player.start,
        player.final_end(total as int) as i64,
        total,
    );
}

/// The bytes of `parts`, one after the other.
pub open spec fn written(parts: Seq<Bytes>) -> Seq<u8>
    decreases parts.len(),
{
    if parts.len() == 0 {
        Seq::empty()
    } else {
        written(parts.drop_last()) + content(parts.last())
    }
}

/// Whether the origin served what it was asked for: whatever was handed in for a range
/// that a worker was told to fetch in the course of `events` are the bytes of `file` in
/// that range.
pub open spec fn serves(plan: Plan, events: Seq<Event<Bytes>>, file: Seq<u8>) -> bool {
    forall|k: int, data: Bytes|
        0 <= k < pipeline::handed_out(plan, events).len() && #[trigger] pipeline::was_delivered(
            events,
            pipeline::handed_out(plan, events)[k].seq,
            data,
        ) ==> content(data) == file.subrange(
            pipeline::handed_out(plan, events)[k].start as int,
            pipeline::handed_out(plan, events)[k].end + 1,
        )
}

/// Chunks in their order are the bytes of the file up to the end of the last of them.
proof fn lemma_written_is_contiguous(plan: Plan, parts: Seq<Bytes>, file: Seq<u8>)
    requires
        plan.wf(),
        plan.final_end < file.len(),
        parts.len() <= plan.chunks(),
        forall|k: int|
            0 <= k < parts.len() ==> content(#[trigger] parts[k]) == file.subrange(
                plan.chunk_start(k),
                plan.chunk_end(k) + 1,
            ),
    ensures
        written(parts) == file.subrange(
            plan.cursor as int,
            if parts.len() == 0 {
                plan.cursor as int
            } else {
                plan.chunk_end(parts.len() - 1) + 1
            },
        ),
    decreases parts.len(),
{
    if parts.len() == 0 {
        assert(written(parts) =~= file.subrange(plan.cursor as int, plan.cursor as int));
    } else {
        let k = parts.len() - 1;
        let before = parts.drop_last();
        assert forall|i: int| 0 <= i < before.len() implies content(#[trigger] before[i])
            == file.subrange(plan.chunk_start(i), plan.chunk_end(i) + 1) by {
            assert(before[i] == parts[i]);
        }
        lemma_written_is_contiguous(plan, before, file);
        plan.lemma_chunk_within(k);
        assert(plan.chunk_start(0) == plan.cursor);
        if k > 0 {
            plan.lemma_chunk_within(k - 1);
        }
        assert(content(parts[k]) == file.subrange(plan.chunk_start(k), plan.chunk_end(k) + 1));
        assert(written(parts) =~= file.subrange(plan.cursor as int, plan.chunk_end(k) + 1));
    }
}

/// The body of the answer to a request, where the file has `total` bytes, `body` came
/// first and `events` are what then happened to the pipeline.
pub open spec fn answer_body(
    player: Player,
    total: int,
    body: Seq<u8>,
    events: Seq<Event<Bytes>>,
) -> Seq<u8> {
    let first = player.first_part(body, player.final_end(total));
    match player.rest_of(player.final_end(total), first.len() as int) {
        Some(plan) => first + written(pipeline::given_to_writer(plan, events)),
        None => first,
    }
}

/// The client gets the bytes that it asked for. Where the origin serves the bytes of the
/// `file` in the ranges that workers are told to fetch, and the transfer ends without a failure,
/// the body of the answer is the range of the file that the head of the answer states,
/// whatever the order in which the chunks arrive.
pub proof fn law_answer_is_the_stated_range(
    player: Player,
    file: Seq<u8>,
    body: Seq<u8>,
    events: Seq<Event<Bytes>>,
)
    requires
        player.wf(),
        file.len() <= i64::MAX,
        player.start <= player.final_end(file.len() as int),
        player.start + body.len() <= file.len(),
        body == file.subrange(player.start as int, player.start + body.len()),
        ({
            let final_end = player.final_end(file.len() as int);
            let first = player.first_part(body, final_end);
            player.rest_of(final_end, first.len() as int) matches Some(plan) ==> {
                &&& serves(plan, events, file)
                &&& pipeline::state_after(plan, events).take().1 is Done
                &&& !pipeline::state_after(plan, events).stopped
            }
        }),
    ensures
        answer_body(player, file.len() as int, body, events) == file.subrange(
            player.start as int,
            player.final_end(file.len() as int) + 1,
        ),
{
    let final_end = player.final_end(file.len() as int);
    let first = player.first_part(body, final_end);
    match player.rest_of(final_end, first.len() as int) {
        Some(plan) => {
            let given = pipeline::given_to_writer(plan, events);
            assert(plan.wf());
            pipeline::law_writer_gets_every_chunk_once_in_order(plan, events);
            pipeline::law_end_means_complete(plan, events);
            pipeline::law_fetched_ranges_follow_each_other(plan, events);
            pipeline::law_fetched_ranges_tile(plan, events, plan.cursor as int);
            plan.lemma_chunk_within(0);
            assert forall|k: int| 0 <= k < given.len() implies content(#[trigger] given[k])
                == file.subrange(plan.chunk_start(k), plan.chunk_end(k) + 1) by {
                let asked = pipeline::handed_out(plan, events);
                assert(pipeline::was_delivered(events, k as u64, given[k]));
                assert(asked[k].seq == k);
                assert(pipeline::was_delivered(events, asked[k].seq, given[k]));
                plan.lemma_chunk_within(k);
                plan.lemma_chunk_within(k + 1);
                if k + 1 < asked.len() {
                    assert(asked[k + 1].start == asked[k].end + 1);
                }
            }
            lemma_written_is_contiguous(plan, given, file);
            plan.lemma_chunk_within(plan.chunks() - 1);
            plan.lemma_chunk_within(plan.chunks() as int);
            assert(plan.chunk_end(given.len() - 1) == final_end);
            assert(first + written(given) =~= file.subrange(player.start as int, final_end + 1));
        },
        None => {
            assert(first =~= file.subrange(player.start as int, final_end + 1));
        },
    }
}

} // verus!
