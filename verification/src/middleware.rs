//! The rules of the HTTP middleware: which key a request counts against, what
//! becomes of a request once its key was checked, and the headers that say so.

use axum::http::header::{HeaderMap, HeaderValue};
use vstd::prelude::*;

use crate::error::RateLimiterError;
use crate::headers::{get_header, insert_header, no_headers};
use crate::limiter::Decision;
use crate::text::{decimal_string, push_decimal};

verus! {

/// What a request is told apart by.
#[derive(Debug, Clone, Copy)]
pub enum KeySource {
    /// The client's IP address.
    Ip,
    /// The value of a header.
    Header(&'static str),
}

/// Configuration of the rate limit middleware.
#[derive(Debug, Clone, Copy)]
pub struct RateLimitConfig {
    pub limit: u64,
    pub window_ms: u64,
    pub key_source: KeySource,
    /// Whether requests pass while the backend cannot be asked.
    pub fail_open: bool,
}

/// The part of `s` before its first comma, or all of it.
pub open spec fn before_comma(s: Seq<char>) -> Seq<char>
    decreases s.len(),
{
    if s.len() == 0 || s[0] == ',' {
        Seq::empty()
    } else {
        seq![s[0]] + before_comma(s.drop_first())
    }
}

/// The white space that header text can hold.
pub open spec fn is_blank(c: char) -> bool {
    c == ' ' || c == '\t'
}

/// `s` without white space at its ends.
pub open spec fn trimmed(s: Seq<char>) -> Seq<char>
    decreases s.len(),
{
    if s.len() > 0 && is_blank(s[0]) {
        trimmed(s.drop_first())
    } else if s.len() > 0 && is_blank(s.last()) {
        trimmed(s.drop_last())
    } else {
        s
    }
}

/// The first value of a header that is there.
pub open spec fn header_value(contents: Map<Seq<u8>, Seq<Seq<u8>>>, name: Seq<char>) -> Seq<u8> {
    contents[crate::headers::filed_name(crate::headers::bytes_of(name))][0]
}

/// Whether there is a header `name` whose first value is text.
pub open spec fn has_text(contents: Map<Seq<u8>, Seq<Seq<u8>>>, name: Seq<char>) -> bool {
    crate::headers::has_header(contents, crate::headers::bytes_of(name))
        && crate::headers::is_header_text(header_value(contents, name))
}

/// The client that a request comes from: the first address that the proxies in
/// between report, else the address of the connection.
pub open spec fn client_of(
    contents: Map<Seq<u8>, Seq<Seq<u8>>>,
    peer_ip: Option<Seq<char>>,
) -> Seq<char> {
    if has_text(contents, "x-forwarded-for"@) {
        trimmed(
            before_comma(crate::headers::header_text(header_value(contents, "x-forwarded-for"@))),
        )
    } else {
        match peer_ip {
            Some(ip) => ip,
            None => "unknown"@,
        }
    }
}

/// The key of a request by its client.
pub open spec fn ip_key(
    contents: Map<Seq<u8>, Seq<Seq<u8>>>,
    peer_ip: Option<Seq<char>>,
) -> Seq<char> {
    "rl:"@ + client_of(contents, peer_ip)
}

/// The key of a request by the value of the header `name`.
pub open spec fn header_key(contents: Map<Seq<u8>, Seq<Seq<u8>>>, name: Seq<char>) -> Seq<char> {
    if has_text(contents, name) {
        "rl:"@ + name + ":"@ + crate::headers::header_text(header_value(contents, name))
    } else {
        "rl:anonymous"@
    }
}

/// The characters of some text that may not be there.
pub open spec fn chars_of(text: Option<&str>) -> Option<Seq<char>> {
    match text {
        Some(s) => Some(s@),
        None => None,
    }
}

impl RateLimitConfig {
    /// Rate limit by client IP address, and fail open.
    pub fn by_ip(limit: u64, window_ms: u64) -> (c: Self)
        ensures
            c == (RateLimitConfig {
                limit,
                window_ms,
                key_source: KeySource::Ip,
                fail_open: true,
            }),
    {
        Self { limit, window_ms, key_source: KeySource::Ip, fail_open: true }
    }

    /// Rate limit by a header value (e.g. `Authorization` or `X-API-Key`), and
    /// fail open.
    pub fn by_header(limit: u64, window_ms: u64, header: &'static str) -> (c: Self)
        ensures
            c == (RateLimitConfig {
                limit,
                window_ms,
                key_source: KeySource::Header(header),
                fail_open: true,
            }),
    {
        Self { limit, window_ms, key_source: KeySource::Header(header), fail_open: true }
    }

    /// Turn requests away, instead of letting them pass, while the backend
    /// cannot be asked.
    pub fn fail_closed(self) -> (c: Self)
        ensures
            c == (RateLimitConfig { fail_open: false, ..self }),
    {
        Self { fail_open: false, ..self }
    }

    /// The key that a request with these headers counts against, if it came
    /// over a connection from `peer_ip`.
    pub fn key(&self, headers: &HeaderMap<HeaderValue>, peer_ip: Option<&str>) -> (key: String)
        ensures
            key@ == match self.key_source {
                KeySource::Ip => ip_key(
                    crate::headers::header_contents(*headers),
                    chars_of(peer_ip),
                ),
                KeySource::Header(name) => header_key(
                    crate::headers::header_contents(*headers),
                    name@,
                ),
            },
            self.key_source is Ip && !crate::headers::has_header(
                crate::headers::header_contents(*headers),
                crate::headers::bytes_of("x-forwarded-for"@),
            ) ==> key@ == "rl:"@ + match peer_ip {
                Some(ip) => ip@,
                None => "unknown"@,
            },
    {
        match self.key_source {
            KeySource::Ip => key_by_ip(headers, peer_ip),
            KeySource::Header(name) => key_by_header(headers, name),
        }
    }
}

/// The key of a request by its client's address.
fn key_by_ip(headers: &HeaderMap<HeaderValue>, peer_ip: Option<&str>) -> (key: String)
    ensures
        key@ == ip_key(crate::headers::header_contents(*headers), chars_of(peer_ip)),
{
    let mut key = String::new();
    key.append("rl:");
    assert(key@ =~= "rl:"@);
    if let Some(value) = get_header(headers, "x-forwarded-for") {
        if let Ok(text) = value.to_str() {
            proof {
                assert forall|i: int| 0 <= i < text@.len() implies '\0' <= #[trigger] text@[i]
                    <= '\u{7f}' by {
                    assert(crate::headers::text_byte(crate::headers::value_bytes(*value)[i]));
                }
            }
            key.append(first_client(text));
            return key;
        }
    }
    match peer_ip {
        Some(ip) => {
            key.append(ip);
        },
        None => {
            key.append("unknown");
        },
    }
    key
}

/// The key of a request by the value of the header `name`.
fn key_by_header(headers: &HeaderMap<HeaderValue>, name: &str) -> (key: String)
    ensures
        key@ == header_key(crate::headers::header_contents(*headers), name@),
{
    let mut key = String::new();
    key.append("rl:");
    assert(key@ =~= "rl:"@);
    if let Some(value) = get_header(headers, name) {
        if let Ok(text) = value.to_str() {
            key.append(name);
            key.append(":");
            key.append(text);
            return key;
        }
    }
    key.append("anonymous");
    proof {
        reveal_strlit("rl:");
        reveal_strlit("anonymous");
        reveal_strlit("rl:anonymous");
        assert(key@ =~= "rl:anonymous"@);
    }
    key
}

/// Without a comma before `end`, and with one there if the text goes on, the
/// part before the comma ends at `end`.
proof fn lemma_before_comma(s: Seq<char>, end: int)
    requires
        0 <= end <= s.len(),
        forall|i: int| 0 <= i < end ==> s[i] != ',',
        end == s.len() || s[end] == ',',
    ensures
        before_comma(s) == s.take(end),
    decreases end,
{
    if end > 0 {
        let rest = s.drop_first();
        lemma_before_comma(rest, end - 1);
        assert(s.take(end) =~= seq![s[0]] + rest.take(end - 1));
    } else {
        assert(s.take(0) =~= Seq::<char>::empty());
    }
}

/// The client in a list of forwarding addresses: what stands before the first
/// comma, without the white space around it.
fn first_client(list: &str) -> (client: &str)
    requires
        list.is_ascii(),
    ensures
        client@ == trimmed(before_comma(list@)),
{
    proof {
        vstd::utf8::is_ascii_chars_encode_utf8(list@);
    }
    let len: usize = list.as_bytes().len();
    let mut end: usize = 0;
    while end < len && list.get_ascii(end) != 44
        invariant
            list.is_ascii(),
            len == list@.len(),
            end <= len,
            forall|i: int| 0 <= i < end ==> list@[i] != ',',
        decreases len - end,
    {
        end = end + 1;
    }
    proof {
        lemma_before_comma(list@, end as int);
    }
    let ghost segment = list@.take(end as int);
    let mut start: usize = 0;
    assert(list@.subrange(0, end as int) =~= segment);
    while start < end && is_blank_byte(list.get_ascii(start))
        invariant
            list.is_ascii(),
            start <= end <= list@.len(),
            trimmed(list@.subrange(start as int, end as int)) == trimmed(segment),
        decreases end - start,
    {
        proof {
            let s = list@.subrange(start as int, end as int);
            assert(s[0] == list@[start as int]);
            assert(s.drop_first() =~= list@.subrange(start + 1, end as int));
        }
        start = start + 1;
    }
    while start < end && is_blank_byte(list.get_ascii(end - 1))
        invariant
            list.is_ascii(),
            start <= end <= list@.len(),
            start < end ==> !is_blank(list@[start as int]),
            trimmed(list@.subrange(start as int, end as int)) == trimmed(segment),
        decreases end - start,
    {
        proof {
            let s = list@.subrange(start as int, end as int);
            assert(s[0] == list@[start as int]);
            assert(s.last() == list@[end - 1]);
            assert(s.drop_last() =~= list@.subrange(start as int, end - 1));
        }
        end = end - 1;
    }
    proof {
        let s = list@.subrange(start as int, end as int);
        assert(s.len() > 0 ==> s[0] == list@[start as int] && s.last() == list@[end - 1]);
    }
    list.substring_ascii(start, end)
}

/// Whether an ASCII character is white space that header text can hold.
fn is_blank_byte(b: u8) -> (r: bool)
    ensures
        r == (b == 32 || b == 9),
{
    b == 32 || b == 9
}

/// Status of a response to a request over the limit.
pub const TOO_MANY_REQUESTS: u16 = 429;

/// Status of a response to a request that could not be checked.
pub const SERVICE_UNAVAILABLE: u16 = 503;

/// What becomes of a request.
#[derive(Debug)]
pub enum Action {
    /// It goes on to the service; its response is stamped with the decision.
    Forward(Decision),
    /// It is turned away.
    Reject {
        /// Milliseconds until it is worth sending again.
        retry_after_ms: u64,
    },
    /// It goes on to the service unchecked, since the backend failed; its
    /// response is stamped as one of which nothing is known to be used.
    FailOpen(RateLimiterError),
    /// It is turned away unchecked, since the backend failed.
    FailClosed(RateLimiterError),
}

/// Whether a request goes on to the service.
pub open spec fn goes_on(a: Action) -> bool {
    a is Forward || a is FailOpen
}

/// What becomes of a request, from the outcome of the check of its key and from
/// whether it passes if the backend failed.
pub fn next_action(outcome: Result<Decision, RateLimiterError>, fail_open: bool) -> (a: Action)
    ensures
        goes_on(a) <==> match outcome {
            Ok(d) => d.allowed,
            Err(RateLimiterError::Limited { .. }) => false,
            Err(_) => fail_open,
        },
        a is Forward <==> outcome is Ok && outcome->Ok_0.allowed,
        a matches Action::Forward(d) ==> outcome == Ok::<Decision, RateLimiterError>(d),
        a matches Action::Reject { retry_after_ms } ==> match outcome {
            Ok(d) => !d.allowed && retry_after_ms == d.retry_after_ms,
            Err(RateLimiterError::Limited { retry_after_ms: wait }) => retry_after_ms == wait,
            Err(_) => false,
        },
        a matches Action::FailOpen(e) ==> fail_open && outcome == Err::<Decision, _>(e),
        a matches Action::FailClosed(e) ==> !fail_open && outcome == Err::<Decision, _>(e),
        a == match outcome {
            Ok(d) => if d.allowed {
                Action::Forward(d)
            } else {
                Action::Reject { retry_after_ms: d.retry_after_ms }
            },
            Err(RateLimiterError::Limited { retry_after_ms }) => Action::Reject { retry_after_ms },
            Err(e) => if fail_open {
                Action::FailOpen(e)
            } else {
                Action::FailClosed(e)
            },
        },
{
    match outcome {
        Ok(decision) => if decision.allowed {
            Action::Forward(decision)
        } else {
            Action::Reject { retry_after_ms: decision.retry_after_ms }
        },
        Err(e) => match e {
            RateLimiterError::Limited { retry_after_ms } => Action::Reject { retry_after_ms },
            failed => if fail_open {
                Action::FailOpen(failed)
            } else {
                Action::FailClosed(failed)
            },
        },
    }
}

/// `contents` with `text` as the only value of the header `name`.
pub open spec fn with_header(
    contents: Map<Seq<u8>, Seq<Seq<u8>>>,
    name: Seq<char>,
    text: Seq<char>,
) -> Map<Seq<u8>, Seq<Seq<u8>>> {
    contents.insert(crate::headers::bytes_of(name), seq![crate::headers::bytes_of(text)])
}

/// Unix time, in seconds, at which the window that starts now is over.
pub open spec fn reset_epoch(now_secs: u64, window_ms: u64) -> nat {
    (now_secs + window_ms / 1_000) as nat
}

/// `contents` with the first `n` of the four headers that report a rate limit.
pub open spec fn stamped_first(
    contents: Map<Seq<u8>, Seq<Seq<u8>>>,
    count: u64,
    limit: u64,
    remaining: u64,
    reset: nat,
    n: nat,
) -> Map<Seq<u8>, Seq<Seq<u8>>>
    decreases n,
{
    if n == 0 {
        contents
    } else {
        let c = stamped_first(contents, count, limit, remaining, reset, (n - 1) as nat);
        if n == 1 {
            with_header(c, "x-ratelimit-limit"@, crate::text::decimal(limit as nat))
        } else if n == 2 {
            with_header(c, "x-ratelimit-remaining"@, crate::text::decimal(remaining as nat))
        } else if n == 3 {
            with_header(c, "x-ratelimit-reset"@, crate::text::decimal(reset))
        } else {
            with_header(c, "x-ratelimit-used"@, crate::text::decimal(count as nat))
        }
    }
}

/// `contents` with the headers that report a rate limit.
pub open spec fn stamped(
    contents: Map<Seq<u8>, Seq<Seq<u8>>>,
    count: u64,
    limit: u64,
    remaining: u64,
    reset: nat,
) -> Map<Seq<u8>, Seq<Seq<u8>>> {
    stamped_first(contents, count, limit, remaining, reset, 4)
}

/// Whether `done` tells if `after` is `before` with the headers that report a
/// rate limit. They are all there if there was room for them; if the map was
/// full before the last of them, those before it are there.
pub open spec fn stamps(
    done: bool,
    before: Map<Seq<u8>, Seq<Seq<u8>>>,
    after: Map<Seq<u8>, Seq<Seq<u8>>>,
    count: u64,
    limit: u64,
    remaining: u64,
    reset: nat,
) -> bool {
    &&& done ==> after == stamped(before, count, limit, remaining, reset)
    &&& !done ==> !crate::headers::has_room(before, 4)
    &&& !done ==> exists|n: nat|
        n < 4 && after == #[trigger] stamped_first(before, count, limit, remaining, reset, n)
}

/// The names of the headers are filed as they are written.
proof fn lemma_names_are_plain()
    ensures
        crate::headers::is_plain_name(crate::headers::bytes_of("x-ratelimit-limit"@)),
        crate::headers::is_plain_name(crate::headers::bytes_of("x-ratelimit-remaining"@)),
        crate::headers::is_plain_name(crate::headers::bytes_of("x-ratelimit-reset"@)),
        crate::headers::is_plain_name(crate::headers::bytes_of("x-ratelimit-used"@)),
        crate::headers::is_plain_name(crate::headers::bytes_of("retry-after"@)),
        crate::headers::is_plain_name(crate::headers::bytes_of("content-type"@)),
{
    reveal_strlit("x-ratelimit-limit");
    reveal_strlit("x-ratelimit-remaining");
    reveal_strlit("x-ratelimit-reset");
    reveal_strlit("x-ratelimit-used");
    reveal_strlit("retry-after");
    reveal_strlit("content-type");
    lemma_plain_name("x-ratelimit-limit"@);
    lemma_plain_name("x-ratelimit-remaining"@);
    lemma_plain_name("x-ratelimit-reset"@);
    lemma_plain_name("x-ratelimit-used"@);
    lemma_plain_name("retry-after"@);
    lemma_plain_name("content-type"@);
}

/// A short name of lower-case letters and dashes is filed as it is written.
proof fn lemma_plain_name(name: Seq<char>)
    requires
        1 <= name.len() <= 64,
        forall|i: int| 0 <= i < name.len() ==> 'a' <= #[trigger] name[i] <= 'z' || name[i] == '-',
    ensures
        crate::headers::is_plain_name(crate::headers::bytes_of(name)),
{
    vstd::utf8::is_ascii_chars_encode_utf8(name);
    let bytes = crate::headers::bytes_of(name);
    assert forall|i: int| 0 <= i < bytes.len() implies crate::headers::filed_byte(
        #[trigger] bytes[i],
    ) == bytes[i] && bytes[i] != 0 by {
        assert('a' <= name[i] <= 'z' || name[i] == '-');
        assert(name[i] as u8 == bytes[i]);
    }
}

/// A header value may hold the bytes of a number.
proof fn lemma_number_is_value(n: nat)
    ensures
        forall|i: int|
            0 <= i < crate::headers::bytes_of(crate::text::decimal(n)).len()
                ==> crate::headers::value_byte(
                #[trigger] crate::headers::bytes_of(crate::text::decimal(n))[i],
            ),
{
    let text = crate::text::decimal(n);
    crate::text::lemma_decimal_digits(n);
    assert forall|i: int| 0 <= i < text.len() implies '\0' <= #[trigger] text[i] <= '\u{7f}' by {
        assert(crate::text::is_digit(text[i]));
    }
    vstd::utf8::is_ascii_chars_encode_utf8(text);
    let bytes = crate::headers::bytes_of(text);
    assert forall|i: int| 0 <= i < bytes.len() implies crate::headers::value_byte(
        #[trigger] bytes[i],
    ) by {
        assert(crate::text::is_digit(text[i]));
        assert(text[i] as u8 == bytes[i]);
    }
}

/// Sets the header `name` to the number `n`, and returns whether the map took
/// it.
fn set_number(headers: &mut HeaderMap<HeaderValue>, name: &'static str, n: u64) -> (done: bool)
    requires
        crate::headers::is_plain_name(crate::headers::bytes_of(name@)),
    ensures
        crate::headers::header_contents(*final(headers)) == if done {
            with_header(
                crate::headers::header_contents(*old(headers)),
                name@,
                crate::text::decimal(n as nat),
            )
        } else {
            crate::headers::header_contents(*old(headers))
        },
        crate::headers::has_room(crate::headers::header_contents(*old(headers)), 1) ==> done,
{
    proof {
        lemma_number_is_value(n as nat);
    }
    let text = decimal_string(n);
    let value = HeaderValue::from_str(text.as_str()).unwrap();
    insert_header(headers, name, value)
}

/// Stamps a response with the state of its rate limit, and returns whether the
/// map had room for all of it. The end of the window has to fit 64 bits.
pub fn set_headers(
    headers: &mut HeaderMap<HeaderValue>,
    count: u64,
    limit: u64,
    remaining: u64,
    window_ms: u64,
    now_secs: u64,
) -> (done: bool)
    requires
        reset_epoch(now_secs, window_ms) <= u64::MAX,
    ensures
        stamps(
            done,
            crate::headers::header_contents(*old(headers)),
            crate::headers::header_contents(*final(headers)),
            count,
            limit,
            remaining,
            reset_epoch(now_secs, window_ms),
        ),
        done ==> {
            let c = crate::headers::header_contents(*final(headers));
            &&& c.contains_key(crate::headers::bytes_of("x-ratelimit-limit"@))
            &&& c[crate::headers::bytes_of("x-ratelimit-limit"@)] == seq![
                crate::headers::bytes_of(crate::text::decimal(limit as nat)),
            ]
            &&& c.contains_key(crate::headers::bytes_of("x-ratelimit-remaining"@))
            &&& c[crate::headers::bytes_of("x-ratelimit-remaining"@)] == seq![
                crate::headers::bytes_of(crate::text::decimal(remaining as nat)),
            ]
            &&& c.contains_key(crate::headers::bytes_of("x-ratelimit-used"@))
            &&& c[crate::headers::bytes_of("x-ratelimit-used"@)] == seq![
                crate::headers::bytes_of(crate::text::decimal(count as nat)),
            ]
            &&& c.contains_key(crate::headers::bytes_of("x-ratelimit-reset"@))
            &&& exists|t: nat|
                now_secs * 1_000 + window_ms - 1_000 < t * 1_000 <= now_secs * 1_000 + window_ms
                    && c[crate::headers::bytes_of("x-ratelimit-reset"@)] == seq![
                    crate::headers::bytes_of(#[trigger] crate::text::decimal(t)),
                ]
        },
        crate::headers::has_room(crate::headers::header_contents(*old(headers)), 4) ==> done,
{
    proof {
        lemma_names_are_plain();
        lemma_stamped_values(
            crate::headers::header_contents(*headers),
            count,
            limit,
            remaining,
            now_secs,
            window_ms,
        );
        reveal_with_fuel(stamped_first, 5);
    }
    let ghost before = crate::headers::header_contents(*headers);
    let ghost reset = reset_epoch(now_secs, window_ms);
    let reset_epoch: u64 = now_secs + window_ms / 1_000;
    if !set_number(headers, "x-ratelimit-limit", limit) {
        assert(stamped_first(before, count, limit, remaining, reset, 0) == before);
        return false;
    }
    let ghost one = stamped_first(before, count, limit, remaining, reset, 1);
    if !set_number(headers, "x-ratelimit-remaining", remaining) {
        assert(crate::headers::header_contents(*headers) == one);
        return false;
    }
    let ghost two = stamped_first(before, count, limit, remaining, reset, 2);
    if !set_number(headers, "x-ratelimit-reset", reset_epoch) {
        assert(crate::headers::header_contents(*headers) == two);
        return false;
    }
    let ghost three = stamped_first(before, count, limit, remaining, reset, 3);
    if !set_number(headers, "x-ratelimit-used", count) {
        assert(crate::headers::header_contents(*headers) == three);
        return false;
    }
    true
}

/// Stamps the response to a request that went on to the service with the
/// decision that let it pass, and returns whether it did. It does unless the
/// map is full before the last header is in it. If the end of the window does
/// not fit 64 bits, nothing is stamped.
pub fn stamp_decision(
    headers: &mut HeaderMap<HeaderValue>,
    decision: &Decision,
    window_ms: u64,
    now_secs: u64,
) -> (done: bool)
    ensures
        reset_epoch(now_secs, window_ms) <= u64::MAX ==> stamps(
            done,
            crate::headers::header_contents(*old(headers)),
            crate::headers::header_contents(*final(headers)),
            decision.count,
            decision.limit,
            decision.remaining,
            reset_epoch(now_secs, window_ms),
        ),
        reset_epoch(now_secs, window_ms) > u64::MAX ==> !done && *final(headers) == *old(headers),
        done ==> {
            let c = crate::headers::header_contents(*final(headers));
            &&& c.contains_key(crate::headers::bytes_of("x-ratelimit-limit"@))
            &&& c[crate::headers::bytes_of("x-ratelimit-limit"@)] == seq![
                crate::headers::bytes_of(crate::text::decimal(decision.limit as nat)),
            ]
            &&& c.contains_key(crate::headers::bytes_of("x-ratelimit-remaining"@))
            &&& c[crate::headers::bytes_of("x-ratelimit-remaining"@)] == seq![
                crate::headers::bytes_of(crate::text::decimal(decision.remaining as nat)),
            ]
            &&& c.contains_key(crate::headers::bytes_of("x-ratelimit-used"@))
            &&& c[crate::headers::bytes_of("x-ratelimit-used"@)] == seq![
                crate::headers::bytes_of(crate::text::decimal(decision.count as nat)),
            ]
            &&& c.contains_key(crate::headers::bytes_of("x-ratelimit-reset"@))
            &&& exists|t: nat|
                now_secs * 1_000 + window_ms - 1_000 < t * 1_000 <= now_secs * 1_000 + window_ms
                    && c[crate::headers::bytes_of("x-ratelimit-reset"@)] == seq![
                    crate::headers::bytes_of(#[trigger] crate::text::decimal(t)),
                ]
        },
        crate::headers::has_room(crate::headers::header_contents(*old(headers)), 4) && now_secs
            * 1_000 + window_ms <= u64::MAX * 1_000 ==> done,
{
    if now_secs > u64::MAX - window_ms / 1_000 {
        return false;
    }
    set_headers(
        headers,
        decision.count,
        decision.limit,
        decision.remaining,
        window_ms,
        now_secs,
    )
}

/// Stamps the response to a request that went on to the service unchecked:
/// nothing of its limit is known to be used. Returns whether it did. It does
/// unless the map is full before the last header is in it. If the end of the
/// window does not fit 64 bits, nothing is stamped.
pub fn stamp_unchecked(
    headers: &mut HeaderMap<HeaderValue>,
    limit: u64,
    window_ms: u64,
    now_secs: u64,
) -> (done: bool)
    ensures
        reset_epoch(now_secs, window_ms) <= u64::MAX ==> stamps(
            done,
            crate::headers::header_contents(*old(headers)),
            crate::headers::header_contents(*final(headers)),
            0,
            limit,
            limit,
            reset_epoch(now_secs, window_ms),
        ),
        reset_epoch(now_secs, window_ms) > u64::MAX ==> !done && *final(headers) == *old(headers),
        done ==> {
            let c = crate::headers::header_contents(*final(headers));
            &&& c.contains_key(crate::headers::bytes_of("x-ratelimit-limit"@))
            &&& c[crate::headers::bytes_of("x-ratelimit-limit"@)] == seq![
                crate::headers::bytes_of(crate::text::decimal(limit as nat)),
            ]
            &&& c.contains_key(crate::headers::bytes_of("x-ratelimit-remaining"@))
            &&& c[crate::headers::bytes_of("x-ratelimit-remaining"@)] == seq![
                crate::headers::bytes_of(crate::text::decimal(limit as nat)),
            ]
            &&& c.contains_key(crate::headers::bytes_of("x-ratelimit-used"@))
            &&& c[crate::headers::bytes_of("x-ratelimit-used"@)] == seq![
                crate::headers::bytes_of(crate::text::decimal(0 as nat)),
            ]
            &&& c.contains_key(crate::headers::bytes_of("x-ratelimit-reset"@))
            &&& exists|t: nat|
                now_secs * 1_000 + window_ms - 1_000 < t * 1_000 <= now_secs * 1_000 + window_ms
                    && c[crate::headers::bytes_of("x-ratelimit-reset"@)] == seq![
                    crate::headers::bytes_of(#[trigger] crate::text::decimal(t)),
                ]
        },
        crate::headers::has_room(crate::headers::header_contents(*old(headers)), 4) && now_secs
            * 1_000 + window_ms <= u64::MAX * 1_000 ==> done,
{
    if now_secs > u64::MAX - window_ms / 1_000 {
        return false;
    }
    set_headers(headers, 0, limit, limit, window_ms, now_secs)
}

/// A response to a request that is turned away.
pub struct Rejection {
    pub status: u16,
    pub headers: HeaderMap<HeaderValue>,
    pub body: String,
}

/// The body of a response to a request over the limit.
pub open spec fn rejection_body(retry_after_ms: u64) -> Seq<char> {
    "{\"error\":\"rate_limit_exceeded\",\"retry_after_ms\":"@ + crate::text::decimal(
        retry_after_ms as nat,
    ) + "}"@
}

/// The headers of a response with a body in JSON.
pub open spec fn json_headers() -> Map<Seq<u8>, Seq<Seq<u8>>> {
    with_header(Map::empty(), "content-type"@, "application/json"@)
}

/// The headers of a response to a request over the limit.
pub open spec fn rejection_headers(limit: u64, retry_after_ms: u64, reset: nat) -> Map<
    Seq<u8>,
    Seq<Seq<u8>>,
> {
    with_header(
        stamped(json_headers(), limit, limit, 0, reset),
        "retry-after"@,
        crate::text::decimal((retry_after_ms / 1_000) as nat),
    )
}

/// The headers of a response with a body in JSON, stamped with the state of its
/// rate limit. The end of the window has to fit 64 bits.
fn stamped_json(count: u64, limit: u64, remaining: u64, window_ms: u64, now_secs: u64) -> (headers:
    HeaderMap<HeaderValue>)
    requires
        reset_epoch(now_secs, window_ms) <= u64::MAX,
    ensures
        crate::headers::header_contents(headers) == stamped(
            json_headers(),
            count,
            limit,
            remaining,
            reset_epoch(now_secs, window_ms),
        ),
        crate::headers::has_room(crate::headers::header_contents(headers), 1),
{
    let mut headers = no_headers();
    proof {
        lemma_names_are_plain();
        lemma_json_is_value();
        assert(crate::headers::header_contents(headers) =~= Map::<Seq<u8>, Seq<Seq<u8>>>::empty());
    }
    let json = HeaderValue::from_str("application/json").unwrap();
    insert_header(&mut headers, "content-type", json);
    set_headers(&mut headers, count, limit, remaining, window_ms, now_secs);
    proof {
        reveal_with_fuel(stamped_first, 5);
    }
    headers
}

/// The response to a request over the limit: its body gives the wait in
/// milliseconds, its headers in seconds. The end of the window has to fit 64
/// bits.
pub fn rejection(limit: u64, window_ms: u64, retry_after_ms: u64, now_secs: u64) -> (r: Rejection)
    requires
        reset_epoch(now_secs, window_ms) <= u64::MAX,
    ensures
        r.status == TOO_MANY_REQUESTS,
        r.status == 429,
        r.body@ == rejection_body(retry_after_ms),
        r.body@ == "{\"error\":\"rate_limit_exceeded\",\"retry_after_ms\":"@
            + crate::text::decimal(retry_after_ms as nat) + "}"@,
        crate::headers::header_contents(r.headers) == rejection_headers(
            limit,
            retry_after_ms,
            reset_epoch(now_secs, window_ms),
        ),
        ({
            let c = crate::headers::header_contents(r.headers);
            &&& c.contains_key(crate::headers::bytes_of("x-ratelimit-limit"@))
            &&& c[crate::headers::bytes_of("x-ratelimit-limit"@)] == seq![
                crate::headers::bytes_of(crate::text::decimal(limit as nat)),
            ]
            &&& c.contains_key(crate::headers::bytes_of("x-ratelimit-remaining"@))
            &&& c[crate::headers::bytes_of("x-ratelimit-remaining"@)] == seq![
                crate::headers::bytes_of(crate::text::decimal(0 as nat)),
            ]
            &&& c.contains_key(crate::headers::bytes_of("x-ratelimit-used"@))
            &&& c[crate::headers::bytes_of("x-ratelimit-used"@)] == seq![
                crate::headers::bytes_of(crate::text::decimal(limit as nat)),
            ]
            &&& c.contains_key(crate::headers::bytes_of("x-ratelimit-reset"@))
            &&& exists|t: nat|
                now_secs * 1_000 + window_ms - 1_000 < t * 1_000 <= now_secs * 1_000 + window_ms
                    && c[crate::headers::bytes_of("x-ratelimit-reset"@)] == seq![
                    crate::headers::bytes_of(#[trigger] crate::text::decimal(t)),
                ]
        }),
        crate::headers::header_contents(r.headers).contains_key(
            crate::headers::bytes_of("retry-after"@),
        ),
        exists|t: nat|
            t * 1_000 <= retry_after_ms < (t + 1) * 1_000 && crate::headers::header_contents(
                r.headers,
            )[crate::headers::bytes_of("retry-after"@)] == seq![
                crate::headers::bytes_of(#[trigger] crate::text::decimal(t)),
            ],
        crate::headers::header_contents(r.headers).contains_key(
            crate::headers::bytes_of("content-type"@),
        ),
        crate::headers::header_contents(r.headers)[crate::headers::bytes_of("content-type"@)]
            == seq![crate::headers::bytes_of("application/json"@)],
{
    proof {
        lemma_stamped_values(json_headers(), limit, limit, 0, now_secs, window_ms);
        lemma_names_differ();
        reveal_with_fuel(stamped_first, 5);
        assert((retry_after_ms / 1_000) * 1_000 <= retry_after_ms < (retry_after_ms / 1_000 + 1)
            * 1_000);
    }
    let mut body = String::new();
    body.append("{\"error\":\"rate_limit_exceeded\",\"retry_after_ms\":");
    push_decimal(&mut body, retry_after_ms);
    body.append("}");
    assert(body@ =~= rejection_body(retry_after_ms));
    let mut headers = stamped_json(limit, limit, 0, window_ms, now_secs);
    proof {
        lemma_names_are_plain();
    }
    set_number(&mut headers, "retry-after", retry_after_ms / 1_000);
    Rejection { status: TOO_MANY_REQUESTS, headers, body }
}

/// The response to a request that is turned away unchecked: nothing of its limit
/// is known to be used. The end of the window has to fit 64 bits.
pub fn unavailable(limit: u64, window_ms: u64, now_secs: u64) -> (r: Rejection)
    requires
        reset_epoch(now_secs, window_ms) <= u64::MAX,
    ensures
        r.status == SERVICE_UNAVAILABLE,
        r.status == 503,
        r.body@ == "{\"error\":\"rate_limiter_unavailable\"}"@,
        crate::headers::header_contents(r.headers) == stamped(
            json_headers(),
            0,
            limit,
            limit,
            reset_epoch(now_secs, window_ms),
        ),
        ({
            let c = crate::headers::header_contents(r.headers);
            &&& c.contains_key(crate::headers::bytes_of("x-ratelimit-limit"@))
            &&& c[crate::headers::bytes_of("x-ratelimit-limit"@)] == seq![
                crate::headers::bytes_of(crate::text::decimal(limit as nat)),
            ]
            &&& c.contains_key(crate::headers::bytes_of("x-ratelimit-remaining"@))
            &&& c[crate::headers::bytes_of("x-ratelimit-remaining"@)] == seq![
                crate::headers::bytes_of(crate::text::decimal(limit as nat)),
            ]
            &&& c.contains_key(crate::headers::bytes_of("x-ratelimit-used"@))
            &&& c[crate::headers::bytes_of("x-ratelimit-used"@)] == seq![
                crate::headers::bytes_of(crate::text::decimal(0 as nat)),
            ]
            &&& c.contains_key(crate::headers::bytes_of("x-ratelimit-reset"@))
            &&& exists|t: nat|
                now_secs * 1_000 + window_ms - 1_000 < t * 1_000 <= now_secs * 1_000 + window_ms
                    && c[crate::headers::bytes_of("x-ratelimit-reset"@)] == seq![
                    crate::headers::bytes_of(#[trigger] crate::text::decimal(t)),
                ]
        }),
        crate::headers::header_contents(r.headers).contains_key(
            crate::headers::bytes_of("content-type"@),
        ),
        crate::headers::header_contents(r.headers)[crate::headers::bytes_of("content-type"@)]
            == seq![crate::headers::bytes_of("application/json"@)],
{
    proof {
        lemma_stamped_values(json_headers(), 0, limit, limit, now_secs, window_ms);
        lemma_names_differ();
        reveal_with_fuel(stamped_first, 5);
    }
    let mut body = String::new();
    body.append("{\"error\":\"rate_limiter_unavailable\"}");
    assert(body@ =~= "{\"error\":\"rate_limiter_unavailable\"}"@);
    let headers = stamped_json(0, limit, limit, window_ms, now_secs);
    Rejection { status: SERVICE_UNAVAILABLE, headers, body }
}

/// A header value may hold the media type of the body.
proof fn lemma_json_is_value()
    ensures
        forall|i: int|
            0 <= i < crate::headers::bytes_of("application/json"@).len()
                ==> crate::headers::value_byte(
                #[trigger] crate::headers::bytes_of("application/json"@)[i],
            ),
{
    reveal_strlit("application/json");
    let text = "application/json"@;
    assert forall|i: int| 0 <= i < text.len() implies '\0' <= #[trigger] text[i] <= '\u{7f}' by {}
    vstd::utf8::is_ascii_chars_encode_utf8(text);
    let bytes = crate::headers::bytes_of(text);
    assert forall|i: int| 0 <= i < bytes.len() implies crate::headers::value_byte(
        #[trigger] bytes[i],
    ) by {
        assert(text[i] as u8 == bytes[i]);
    }
}

/// Looking a header up in any case finds it under its lower-case name.
proof fn lemma_lookup(name: Seq<char>, lower: Seq<char>)
    requires
        1 <= name.len() <= 64,
        name.len() == lower.len(),
        forall|i: int|
            0 <= i < name.len() ==> {
                ||| 'a' <= #[trigger] name[i] <= 'z' && lower[i] == name[i]
                ||| 'A' <= name[i] <= 'Z' && lower[i] as int == name[i] as int + 32
                ||| name[i] == '-' && lower[i] == '-'
            },
    ensures
        crate::headers::is_looked_up(crate::headers::bytes_of(name)),
        crate::headers::filed_name(crate::headers::bytes_of(name)) == crate::headers::bytes_of(
            lower,
        ),
{
    let bytes = crate::headers::bytes_of(name);
    let want = crate::headers::bytes_of(lower);
    assert forall|i: int| 0 <= i < name.len() implies '\0' <= #[trigger] lower[i] <= '\u{7f}' by {
        assert('\0' <= name[i] <= '\u{7f}');
    }
    vstd::utf8::is_ascii_chars_encode_utf8(name);
    vstd::utf8::is_ascii_chars_encode_utf8(lower);
    assert forall|i: int| 0 <= i < bytes.len() implies crate::headers::filed_byte(
        #[trigger] bytes[i],
    ) == want[i] && want[i] != 0 by {
        assert(name[i] as u8 == bytes[i]);
        assert(lower[i] as u8 == want[i]);
    }
    assert(crate::headers::filed_name(bytes) =~= want);
}

/// Looking up the documented spelling of a header finds its lower-case name.
proof fn lemma_documented_names()
    ensures
        ({
            let filed = |name: Seq<char>, lower: Seq<char>|
                crate::headers::is_looked_up(crate::headers::bytes_of(name))
                    && crate::headers::filed_name(crate::headers::bytes_of(name))
                    == crate::headers::bytes_of(lower);
            &&& filed("X-RateLimit-Limit"@, "x-ratelimit-limit"@)
            &&& filed("X-RateLimit-Remaining"@, "x-ratelimit-remaining"@)
            &&& filed("X-RateLimit-Used"@, "x-ratelimit-used"@)
            &&& filed("X-RateLimit-Reset"@, "x-ratelimit-reset"@)
            &&& filed("Retry-After"@, "retry-after"@)
        }),
{
    reveal_strlit("X-RateLimit-Limit");
    reveal_strlit("X-RateLimit-Remaining");
    reveal_strlit("X-RateLimit-Used");
    reveal_strlit("X-RateLimit-Reset");
    reveal_strlit("Retry-After");
    reveal_strlit("x-ratelimit-limit");
    reveal_strlit("x-ratelimit-remaining");
    reveal_strlit("x-ratelimit-used");
    reveal_strlit("x-ratelimit-reset");
    reveal_strlit("retry-after");
    lemma_lookup("X-RateLimit-Limit"@, "x-ratelimit-limit"@);
    lemma_lookup("X-RateLimit-Remaining"@, "x-ratelimit-remaining"@);
    lemma_lookup("X-RateLimit-Used"@, "x-ratelimit-used"@);
    lemma_lookup("X-RateLimit-Reset"@, "x-ratelimit-reset"@);
    lemma_lookup("Retry-After"@, "retry-after"@);
}

/// No two of the headers share a name.
proof fn lemma_names_differ()
    ensures
        ({
            let b = |name: Seq<char>| crate::headers::bytes_of(name);
            &&& b("x-ratelimit-limit"@) != b("x-ratelimit-remaining"@)
            &&& b("x-ratelimit-limit"@) != b("x-ratelimit-reset"@)
            &&& b("x-ratelimit-limit"@) != b("x-ratelimit-used"@)
            &&& b("x-ratelimit-remaining"@) != b("x-ratelimit-reset"@)
            &&& b("x-ratelimit-remaining"@) != b("x-ratelimit-used"@)
            &&& b("x-ratelimit-reset"@) != b("x-ratelimit-used"@)
            &&& b("retry-after"@) != b("x-ratelimit-limit"@)
            &&& b("retry-after"@) != b("x-ratelimit-remaining"@)
            &&& b("retry-after"@) != b("x-ratelimit-reset"@)
            &&& b("retry-after"@) != b("x-ratelimit-used"@)
            &&& b("content-type"@) != b("x-ratelimit-limit"@)
            &&& b("content-type"@) != b("x-ratelimit-remaining"@)
            &&& b("content-type"@) != b("x-ratelimit-reset"@)
            &&& b("content-type"@) != b("x-ratelimit-used"@)
            &&& b("content-type"@) != b("retry-after"@)
        }),
{
    reveal_strlit("x-ratelimit-limit");
    reveal_strlit("x-ratelimit-remaining");
    reveal_strlit("x-ratelimit-reset");
    reveal_strlit("x-ratelimit-used");
    reveal_strlit("retry-after");
    vstd::utf8::encode_utf8_decode_utf8("x-ratelimit-limit"@);
    vstd::utf8::encode_utf8_decode_utf8("x-ratelimit-remaining"@);
    vstd::utf8::encode_utf8_decode_utf8("x-ratelimit-reset"@);
    vstd::utf8::encode_utf8_decode_utf8("x-ratelimit-used"@);
    vstd::utf8::encode_utf8_decode_utf8("retry-after"@);
    reveal_strlit("content-type");
    vstd::utf8::encode_utf8_decode_utf8("content-type"@);
    assert("x-ratelimit-limit"@[12] != "x-ratelimit-reset"@[12]);
}

/// What a stamped response holds under each name.
proof fn lemma_stamped_values(
    contents: Map<Seq<u8>, Seq<Seq<u8>>>,
    count: u64,
    limit: u64,
    remaining: u64,
    now_secs: u64,
    window_ms: u64,
)
    ensures
        ({
            let t = reset_epoch(now_secs, window_ms);
            let c = stamped(contents, count, limit, remaining, t);
            let b = |name: Seq<char>| crate::headers::bytes_of(name);
            &&& now_secs * 1_000 + window_ms - 1_000 < t * 1_000 <= now_secs * 1_000 + window_ms
            &&& c.contains_key(b("x-ratelimit-limit"@))
            &&& c[b("x-ratelimit-limit"@)] == seq![b(crate::text::decimal(limit as nat))]
            &&& c.contains_key(b("x-ratelimit-remaining"@))
            &&& c[b("x-ratelimit-remaining"@)] == seq![b(crate::text::decimal(remaining as nat))]
            &&& c.contains_key(b("x-ratelimit-used"@))
            &&& c[b("x-ratelimit-used"@)] == seq![b(crate::text::decimal(count as nat))]
            &&& c.contains_key(b("x-ratelimit-reset"@))
            &&& c[b("x-ratelimit-reset"@)] == seq![b(crate::text::decimal(t))]
        }),
{
    reveal_with_fuel(stamped_first, 5);
    lemma_names_differ();
}

/// Whether a client that looks up `name` reads `text`.
pub open spec fn reads(
    contents: Map<Seq<u8>, Seq<Seq<u8>>>,
    name: Seq<char>,
    text: Seq<char>,
) -> bool {
    &&& crate::headers::has_header(contents, crate::headers::bytes_of(name))
    &&& header_value(contents, name) == crate::headers::bytes_of(text)
}

/// A stamped response tells its limit, what remains of it, what is used and
/// when the window is over, whatever headers it had before; all other headers
/// stay as they were.
pub proof fn law_stamp_reports_limit(
    contents: Map<Seq<u8>, Seq<Seq<u8>>>,
    count: u64,
    limit: u64,
    remaining: u64,
    reset: nat,
    other: Seq<u8>,
)
    ensures
        ({
            let c = stamped(contents, count, limit, remaining, reset);
            &&& reads(c, "X-RateLimit-Limit"@, crate::text::decimal(limit as nat))
            &&& reads(c, "X-RateLimit-Remaining"@, crate::text::decimal(remaining as nat))
            &&& reads(c, "X-RateLimit-Used"@, crate::text::decimal(count as nat))
            &&& reads(c, "X-RateLimit-Reset"@, crate::text::decimal(reset))
            &&& other != crate::headers::bytes_of("x-ratelimit-limit"@)
                && other != crate::headers::bytes_of("x-ratelimit-remaining"@)
                && other != crate::headers::bytes_of("x-ratelimit-used"@)
                && other != crate::headers::bytes_of("x-ratelimit-reset"@) ==> {
                &&& c.contains_key(other) == contents.contains_key(other)
                &&& contents.contains_key(other) ==> c[other] == contents[other]
            }
        }),
{
    reveal_with_fuel(stamped_first, 5);
    lemma_documented_names();
    lemma_names_differ();
}

/// The response to an unchecked request tells the limit, and that none of it is
/// known to be used.
pub proof fn law_unchecked_reports_limit(
    contents: Map<Seq<u8>, Seq<Seq<u8>>>,
    limit: u64,
    reset: nat,
)
    ensures
        ({
            let c = stamped(contents, 0, limit, limit, reset);
            &&& reads(c, "X-RateLimit-Limit"@, crate::text::decimal(limit as nat))
            &&& reads(c, "X-RateLimit-Remaining"@, crate::text::decimal(limit as nat))
            &&& reads(c, "X-RateLimit-Used"@, crate::text::decimal(0))
            &&& reads(c, "X-RateLimit-Reset"@, crate::text::decimal(reset))
        }),
{
    law_stamp_reports_limit(contents, 0, limit, limit, reset, Seq::empty());
}

/// A request over the limit is told that nothing remains, and how many whole
/// seconds to wait.
pub proof fn law_rejection_reports_wait(limit: u64, retry_after_ms: u64, reset: nat)
    ensures
        ({
            let c = rejection_headers(limit, retry_after_ms, reset);
            &&& reads(c, "X-RateLimit-Limit"@, crate::text::decimal(limit as nat))
            &&& reads(c, "X-RateLimit-Remaining"@, crate::text::decimal(0))
            &&& reads(c, "X-RateLimit-Used"@, crate::text::decimal(limit as nat))
            &&& reads(c, "X-RateLimit-Reset"@, crate::text::decimal(reset))
            &&& reads(c, "Retry-After"@, crate::text::decimal((retry_after_ms / 1_000) as nat))
        }),
{
    reveal_with_fuel(stamped_first, 5);
    lemma_documented_names();
    lemma_names_differ();
}

/// Two requests count against the same key exactly when they come from the same
/// client.
pub proof fn law_one_key_per_client(
    a: Map<Seq<u8>, Seq<Seq<u8>>>,
    a_ip: Option<Seq<char>>,
    b: Map<Seq<u8>, Seq<Seq<u8>>>,
    b_ip: Option<Seq<char>>,
)
    ensures
        ip_key(a, a_ip) == ip_key(b, b_ip) <==> client_of(a, a_ip) == client_of(b, b_ip),
{
    let p = "rl:"@;
    assert(ip_key(a, a_ip).skip(p.len() as int) =~= client_of(a, a_ip));
    assert(ip_key(b, b_ip).skip(p.len() as int) =~= client_of(b, b_ip));
}

/// Requests with different values of the header count against different keys,
/// and none of them shares the key of requests without the header.
pub proof fn law_header_keys_differ(
    a: Map<Seq<u8>, Seq<Seq<u8>>>,
    b: Map<Seq<u8>, Seq<Seq<u8>>>,
    name: Seq<char>,
)
    requires
        has_text(a, name),
    ensures
        header_key(a, name) == header_key(b, name) <==> has_text(b, name) && header_value(a, name)
            == header_value(b, name),
{
    let p = "rl:"@ + name + ":"@;
    let x = header_value(a, name);
    let y = header_value(b, name);
    let s = crate::headers::header_text(x);
    let t = crate::headers::header_text(y);
    reveal_strlit("rl:");
    reveal_strlit(":");
    reveal_strlit("rl:anonymous");
    if has_text(b, name) {
        if p + s == p + t {
            assert((p + s).skip(p.len() as int) =~= s);
            assert((p + t).skip(p.len() as int) =~= t);
            assert forall|i: int| 0 <= i < x.len() implies x[i] == y[i] by {
                assert(crate::headers::text_byte(x[i]) && crate::headers::text_byte(y[i]));
                assert(s[i] == t[i]);
                assert(x[i] as char as u8 == x[i] && y[i] as char as u8 == y[i]);
            }
            assert(x =~= y);
        }
    } else {
        let k = p + s;
        assert(k[3 + name.len() as int] == ':');
        let anonymous = "rl:anonymous"@;
        assert(anonymous =~= seq!['r', 'l', ':', 'a', 'n', 'o', 'n', 'y', 'm', 'o', 'u', 's']);
        assert forall|i: int| 3 <= i < 12 implies #[trigger] anonymous[i] != ':' by {}
        assert(k != anonymous) by {
            if k == anonymous {
                assert(anonymous[3 + name.len() as int] == ':');
            }
        }
    }
}

/// Text between white space loses that white space and no more.
proof fn lemma_trimmed(l: Seq<char>, c: Seq<char>, r: Seq<char>)
    requires
        forall|i: int| 0 <= i < l.len() ==> #[trigger] l[i] == ' ' || l[i] == '\t',
        forall|i: int| 0 <= i < r.len() ==> #[trigger] r[i] == ' ' || r[i] == '\t',
        c.len() > 0 ==> c[0] != ' ' && c[0] != '\t' && c.last() != ' ' && c.last() != '\t',
    ensures
        trimmed(l + c + r) == c,
    decreases l.len() + r.len(),
{
    let s = l + c + r;
    if l.len() > 0 {
        let rest = l.drop_first();
        assert(s[0] == l[0]);
        assert(s.drop_first() =~= rest + c + r);
        assert forall|i: int| 0 <= i < rest.len() implies #[trigger] rest[i] == ' ' || rest[i]
            == '\t' by {
            assert(rest[i] == l[i + 1]);
        }
        lemma_trimmed(rest, c, r);
    } else if r.len() > 0 {
        if c.len() > 0 {
            let rest = r.drop_last();
            assert(s[0] == c[0]);
            assert(s.last() == r.last());
            assert(r.last() == r[r.len() - 1]);
            assert(s.drop_last() =~= l + c + rest);
            lemma_trimmed(l, c, rest);
        } else {
            let rest = r.drop_first();
            assert(s[0] == r[0]);
            assert(s.drop_first() =~= l + c + rest);
            assert forall|i: int| 0 <= i < rest.len() implies #[trigger] rest[i] == ' ' || rest[i]
                == '\t' by {
                assert(rest[i] == r[i + 1]);
            }
            lemma_trimmed(l, c, rest);
        }
    } else {
        assert(s =~= c);
    }
}

/// The client of a forwarded request is the first address that the proxies
/// report: `c`, where the header reads `c` between white space, alone or with a
/// comma and more behind it. The address of the connection does not matter then.
pub proof fn law_forwarded_client_is_the_first(
    contents: Map<Seq<u8>, Seq<Seq<u8>>>,
    peer_ip: Option<Seq<char>>,
    l: Seq<char>,
    c: Seq<char>,
    r: Seq<char>,
    more: Seq<char>,
)
    requires
        crate::headers::has_header(contents, crate::headers::bytes_of("x-forwarded-for"@)),
        ({
            let value = contents[crate::headers::filed_name(
                crate::headers::bytes_of("x-forwarded-for"@),
            )][0];
            &&& crate::headers::is_header_text(value)
            &&& crate::headers::header_text(value) == l + c + r + more
        }),
        more.len() == 0 || more[0] == ',',
        forall|i: int| 0 <= i < l.len() ==> #[trigger] l[i] == ' ' || l[i] == '\t',
        forall|i: int| 0 <= i < r.len() ==> #[trigger] r[i] == ' ' || r[i] == '\t',
        forall|i: int| 0 <= i < c.len() ==> #[trigger] c[i] != ',',
        c.len() > 0 ==> c[0] != ' ' && c[0] != '\t' && c.last() != ' ' && c.last() != '\t',
    ensures
        ip_key(contents, peer_ip) == "rl:"@ + c,
{
    let s = l + c + r + more;
    let end = (l + c + r).len() as int;
    assert forall|i: int| 0 <= i < end implies s[i] != ',' by {
        if i < l.len() {
            assert(s[i] == l[i]);
        } else if i < l.len() + c.len() {
            assert(s[i] == c[i - l.len()]);
        } else {
            assert(s[i] == r[i - l.len() - c.len()]);
        }
    }
    assert(more.len() > 0 ==> s[end] == more[0]);
    lemma_before_comma(s, end);
    assert(s.take(end) =~= l + c + r);
    lemma_trimmed(l, c, r);
}

/// Text is what is left of it without the white space at its ends, between that
/// white space.
proof fn lemma_trimmed_splits(s: Seq<char>) -> (sides: (Seq<char>, Seq<char>))
    ensures
        s == sides.0 + trimmed(s) + sides.1,
        forall|i: int| 0 <= i < sides.0.len() ==> #[trigger] sides.0[i] == ' ' || sides.0[i] == '\t',
        forall|i: int| 0 <= i < sides.1.len() ==> #[trigger] sides.1[i] == ' ' || sides.1[i] == '\t',
        trimmed(s).len() > 0 ==> trimmed(s)[0] != ' ' && trimmed(s)[0] != '\t' && trimmed(s).last()
            != ' ' && trimmed(s).last() != '\t',
    decreases s.len(),
{
    if s.len() > 0 && is_blank(s[0]) {
        let (l, r) = lemma_trimmed_splits(s.drop_first());
        assert(s =~= (seq![s[0]] + l) + trimmed(s) + r) by {
            assert(s =~= seq![s[0]] + s.drop_first());
        }
        (seq![s[0]] + l, r)
    } else if s.len() > 0 && is_blank(s.last()) {
        let (l, r) = lemma_trimmed_splits(s.drop_last());
        assert(s =~= l + trimmed(s) + r.push(s.last())) by {
            assert(s =~= s.drop_last().push(s.last()));
        }
        (l, r.push(s.last()))
    } else {
        assert(s =~= Seq::<char>::empty() + trimmed(s) + Seq::<char>::empty());
        (Seq::empty(), Seq::empty())
    }
}

/// Text begins with its part before the first comma, and if there is more, that
/// starts with the comma.
proof fn lemma_before_comma_splits(s: Seq<char>) -> (more: Seq<char>)
    ensures
        s == before_comma(s) + more,
        more.len() == 0 || more[0] == ',',
        forall|i: int| 0 <= i < before_comma(s).len() ==> #[trigger] before_comma(s)[i] != ',',
    decreases s.len(),
{
    if s.len() == 0 || s[0] == ',' {
        assert(s =~= before_comma(s) + s);
        s
    } else {
        let more = lemma_before_comma_splits(s.drop_first());
        assert(s =~= seq![s[0]] + s.drop_first());
        assert(s =~= before_comma(s) + more);
        more
    }
}

/// Every forwarded request has such a client: whenever the header is text, its
/// key is that of an address `c` that the header reads between white space, alone
/// or with a comma and more behind it.
pub proof fn law_forwarded_request_has_a_client(
    contents: Map<Seq<u8>, Seq<Seq<u8>>>,
    peer_ip: Option<Seq<char>>,
)
    requires
        crate::headers::has_header(contents, crate::headers::bytes_of("x-forwarded-for"@)),
        crate::headers::is_header_text(
            contents[crate::headers::filed_name(crate::headers::bytes_of("x-forwarded-for"@))][0],
        ),
    ensures
        ({
            let text = crate::headers::header_text(
                contents[crate::headers::filed_name(
                    crate::headers::bytes_of("x-forwarded-for"@),
                )][0],
            );
            exists|l: Seq<char>, c: Seq<char>, r: Seq<char>, more: Seq<char>|
                {
                    &&& text == #[trigger] (l + c + r + more)
                    &&& more.len() == 0 || more[0] == ','
                    &&& forall|i: int| 0 <= i < l.len() ==> #[trigger] l[i] == ' ' || l[i] == '\t'
                    &&& forall|i: int| 0 <= i < r.len() ==> #[trigger] r[i] == ' ' || r[i] == '\t'
                    &&& forall|i: int| 0 <= i < c.len() ==> #[trigger] c[i] != ','
                    &&& c.len() > 0 ==> c[0] != ' ' && c[0] != '\t' && c.last() != ' ' && c.last()
                        != '\t'
                    &&& ip_key(contents, peer_ip) == "rl:"@ + c
                }
        }),
{
    let text = crate::headers::header_text(
        contents[crate::headers::filed_name(crate::headers::bytes_of("x-forwarded-for"@))][0],
    );
    let first = before_comma(text);
    let more = lemma_before_comma_splits(text);
    let (l, r) = lemma_trimmed_splits(first);
    let c = trimmed(first);
    assert(text == l + c + r + more);
    assert forall|i: int| 0 <= i < c.len() implies #[trigger] c[i] != ',' by {
        assert(first[l.len() + i] == c[i]);
    }
    law_forwarded_client_is_the_first(contents, peer_ip, l, c, r, more);
}

/// Without a forwarded address that is text, the client is the address of the
/// connection, or unknown.
pub proof fn law_direct_client_is_the_peer(
    contents: Map<Seq<u8>, Seq<Seq<u8>>>,
    peer_ip: Option<Seq<char>>,
)
    requires
        !(crate::headers::has_header(contents, crate::headers::bytes_of("x-forwarded-for"@))
            && crate::headers::is_header_text(
            contents[crate::headers::filed_name(crate::headers::bytes_of("x-forwarded-for"@))][0],
        )),
    ensures
        peer_ip matches Some(ip) ==> ip_key(contents, peer_ip) == "rl:"@ + ip,
        peer_ip is None ==> ip_key(contents, peer_ip) == "rl:"@ + "unknown"@,
{
}

/// The address of a connection is taken as it is.
pub proof fn law_peer_is_taken_as_it_is(ip: &str)
    ensures
        chars_of(Some(ip)) == Some(ip@),
        chars_of(None) is None,
{
}

/// The key of a request by a header is the name of the header and all of its
/// first value, if that is text. All other requests share one key.
pub proof fn law_header_key_is_name_and_value(
    contents: Map<Seq<u8>, Seq<Seq<u8>>>,
    name: Seq<char>,
)
    ensures
        ({
            let found = crate::headers::has_header(contents, crate::headers::bytes_of(name));
            let value = contents[crate::headers::filed_name(crate::headers::bytes_of(name))][0];
            &&& found && crate::headers::is_header_text(value) ==> header_key(contents, name)
                == "rl:"@ + name + ":"@ + crate::headers::header_text(value)
            &&& !found || !crate::headers::is_header_text(value) ==> header_key(contents, name)
                == "rl:anonymous"@
        }),
{
}

/// The window is over a window's length from now, in whole seconds: not later,
/// and less than a second earlier.
pub proof fn law_reset_is_a_window_from_now(now_secs: u64, window_ms: u64)
    ensures
        now_secs * 1_000 + window_ms - 1_000 < reset_epoch(now_secs, window_ms) * 1_000 <= now_secs
            * 1_000 + window_ms,
{
}

/// A client reads in a stamped response numerals that give back the limit, what
/// remains, what is used and a time a window's length from now. Each of them is
/// the only value under its name.
pub proof fn law_stamp_reads_back(
    contents: Map<Seq<u8>, Seq<Seq<u8>>>,
    count: u64,
    limit: u64,
    remaining: u64,
    now_secs: u64,
    window_ms: u64,
)
    ensures
        ({
            let c = stamped(contents, count, limit, remaining, reset_epoch(now_secs, window_ms));
            let shows = |name: Seq<char>, s: Seq<char>, n: int|
                c.contains_key(crate::headers::bytes_of(name))
                    && c[crate::headers::bytes_of(name)] == seq![crate::headers::bytes_of(s)]
                    && crate::text::number_read(s) == n;
            &&& exists|s: Seq<char>| #[trigger] shows("x-ratelimit-limit"@, s, limit as int)
            &&& exists|s: Seq<char>| #[trigger]
                shows("x-ratelimit-remaining"@, s, remaining as int)
            &&& exists|s: Seq<char>| #[trigger] shows("x-ratelimit-used"@, s, count as int)
            &&& exists|s: Seq<char>, t: int| #[trigger]
                shows("x-ratelimit-reset"@, s, t) && now_secs * 1_000 + window_ms - 1_000 < t
                    * 1_000 <= now_secs * 1_000 + window_ms
        }),
{
    let t = reset_epoch(now_secs, window_ms);
    let c = stamped(contents, count, limit, remaining, t);
    let shows = |name: Seq<char>, s: Seq<char>, n: int|
        c.contains_key(crate::headers::bytes_of(name)) && c[crate::headers::bytes_of(name)]
            == seq![crate::headers::bytes_of(s)] && crate::text::number_read(s) == n;
    lemma_stamped_values(contents, count, limit, remaining, now_secs, window_ms);
    crate::text::law_numeral_reads_back(limit as nat);
    crate::text::law_numeral_reads_back(remaining as nat);
    crate::text::law_numeral_reads_back(count as nat);
    crate::text::law_numeral_reads_back(t);
    assert(shows("x-ratelimit-limit"@, crate::text::decimal(limit as nat), limit as int));
    assert(shows(
        "x-ratelimit-remaining"@,
        crate::text::decimal(remaining as nat),
        remaining as int,
    ));
    assert(shows("x-ratelimit-used"@, crate::text::decimal(count as nat), count as int));
    assert(shows("x-ratelimit-reset"@, crate::text::decimal(t), t as int));
}

/// Stamping succeeds if there is room, and then the response is stamped. If it
/// fails, every header is as it was, or as it would be in the stamped response.
pub proof fn law_stamping_succeeds_with_room(
    done: bool,
    before: Map<Seq<u8>, Seq<Seq<u8>>>,
    after: Map<Seq<u8>, Seq<Seq<u8>>>,
    count: u64,
    limit: u64,
    remaining: u64,
    reset: nat,
    name: Seq<u8>,
)
    requires
        stamps(done, before, after, count, limit, remaining, reset),
    ensures
        before.dom().finite() && before.len() + 4 <= 6_554 ==> done,
        done ==> after == stamped(before, count, limit, remaining, reset),
        !done ==> {
            let full = stamped(before, count, limit, remaining, reset);
            ||| after.contains_key(name) == before.contains_key(name) && (before.contains_key(
                name,
            ) ==> after[name] == before[name])
            ||| after.contains_key(name) && full.contains_key(name) && after[name] == full[name]
        },
{
    if !done {
        let n = choose|n: nat|
            n < 4 && after == #[trigger] stamped_first(before, count, limit, remaining, reset, n);
        reveal_with_fuel(stamped_first, 5);
        lemma_names_differ();
        assert(n == 0 || n == 1 || n == 2 || n == 3);
    }
}

/// The body of a response to a request over the limit is written out: it names
/// the error and gives the wait that the check reported, as a numeral that reads
/// back as that wait.
pub proof fn law_rejection_body_gives_the_wait(retry_after_ms: u64)
    ensures
        exists|s: Seq<char>|
            rejection_body(retry_after_ms)
                == "{\"error\":\"rate_limit_exceeded\",\"retry_after_ms\":"@ + s + "}"@
                && #[trigger] crate::text::number_read(s) == retry_after_ms && forall|i: int|
                0 <= i < s.len() ==> '0' <= #[trigger] s[i] <= '9',
{
    let s = crate::text::decimal(retry_after_ms as nat);
    crate::text::law_numeral_reads_back(retry_after_ms as nat);
    assert(crate::text::number_read(s) == retry_after_ms);
}

/// Different waits have different bodies.
pub proof fn law_rejection_bodies_differ(a: u64, b: u64)
    requires
        rejection_body(a) == rejection_body(b),
    ensures
        a == b,
{
    let p = "{\"error\":\"rate_limit_exceeded\",\"retry_after_ms\":"@;
    let x = crate::text::decimal(a as nat);
    let y = crate::text::decimal(b as nat);
    reveal_strlit("}");
    let k = p.len() as int;
    assert(rejection_body(a).subrange(k, rejection_body(a).len() - 1) =~= x);
    assert(rejection_body(b).subrange(k, rejection_body(b).len() - 1) =~= y);
    crate::text::lemma_decimal_injective(a as nat, b as nat);
}

/// The headers of a response to a request over the limit say that its body is
/// JSON, that all of the limit is used and none remains, when the window is over,
/// and the whole seconds of the wait, each with a numeral that reads back as the
/// number.
pub proof fn law_rejection_headers_read_back(limit: u64, retry_after_ms: u64, reset: nat)
    ensures
        ({
            let c = rejection_headers(limit, retry_after_ms, reset);
            let shows = |name: Seq<char>, s: Seq<char>, n: int|
                c.contains_key(crate::headers::bytes_of(name))
                    && c[crate::headers::bytes_of(name)] == seq![crate::headers::bytes_of(s)]
                    && crate::text::number_read(s) == n;
            &&& c.contains_key(crate::headers::bytes_of("content-type"@))
            &&& c[crate::headers::bytes_of("content-type"@)] == seq![
                crate::headers::bytes_of("application/json"@),
            ]
            &&& exists|s: Seq<char>| #[trigger] shows("x-ratelimit-limit"@, s, limit as int)
            &&& exists|s: Seq<char>| #[trigger] shows("x-ratelimit-remaining"@, s, 0)
            &&& exists|s: Seq<char>| #[trigger] shows("x-ratelimit-used"@, s, limit as int)
            &&& exists|s: Seq<char>| #[trigger] shows("x-ratelimit-reset"@, s, reset as int)
            &&& exists|s: Seq<char>, t: int| #[trigger]
                shows("retry-after"@, s, t) && t * 1_000 <= retry_after_ms < (t + 1) * 1_000
        }),
{
    let c = rejection_headers(limit, retry_after_ms, reset);
    let shows = |name: Seq<char>, s: Seq<char>, n: int|
        c.contains_key(crate::headers::bytes_of(name)) && c[crate::headers::bytes_of(name)]
            == seq![crate::headers::bytes_of(s)] && crate::text::number_read(s) == n;
    let secs = (retry_after_ms / 1_000) as nat;
    reveal_with_fuel(stamped_first, 5);
    lemma_names_differ();
    crate::text::law_numeral_reads_back(limit as nat);
    crate::text::law_numeral_reads_back(0);
    crate::text::law_numeral_reads_back(reset);
    crate::text::law_numeral_reads_back(secs);
    assert(shows("x-ratelimit-limit"@, crate::text::decimal(limit as nat), limit as int));
    assert(shows("x-ratelimit-remaining"@, crate::text::decimal(0), 0));
    assert(shows("x-ratelimit-used"@, crate::text::decimal(limit as nat), limit as int));
    assert(shows("x-ratelimit-reset"@, crate::text::decimal(reset), reset as int));
    assert(shows("retry-after"@, crate::text::decimal(secs), secs as int));
}

} // verus!
