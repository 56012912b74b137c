//! The access-log line parser. The Apache `LogFormat` it reads is fixed:
//! `[%t] %h %l %u "%r" %>s %b "%{Referer}i" "%{User-Agent}i" "%{Host}i" %D
//! "%{X-Forwarded-For}i" %{local}p %{cache-status}e %R`.

use vstd::prelude::*;
use crate::civil::{strptime, strptime_result, utc_seconds, utc_seconds_of, LOG_TIME_FORMAT};
use crate::consumer::{handled, Consumer, ConsumerModel};
use crate::text::{bounded_field_value, chars_of, string_of_range};
use crate::text::parse_unsigned;

verus! {

/// The position of the first byte at or after `i` that is `a` or `b`, or
/// the length of `s`.
pub open spec fn run_end(s: Seq<u8>, i: int, a: u8, b: u8) -> int
    decreases s.len() - i,
{
    if i < 0 || i >= s.len() {
        s.len() as int
    } else if s[i] == a || s[i] == b {
        i
    } else {
        run_end(s, i + 1, a, b)
    }
}

pub proof fn lemma_run_end(s: Seq<u8>, i: int, a: u8, b: u8, k: int)
    requires
        0 <= i <= k <= s.len(),
        forall|j: int| i <= j < k ==> #[trigger] s[j] != a && s[j] != b,
        k == s.len() || s[k] == a || s[k] == b,
    ensures
        run_end(s, i, a, b) == k,
    decreases k - i,
{
    if i < k {
        lemma_run_end(s, i + 1, a, b, k);
    }
}

/// The position of the `"` that closes a quoted field whose text starts
/// at `i`; a backslash makes the byte after it part of the text.
pub open spec fn quote_close(d: Seq<u8>, i: int) -> Option<int>
    decreases d.len() - i,
{
    if i < 0 || i >= d.len() {
        None
    } else if d[i] == 92 {
        if i + 1 >= d.len() {
            None
        } else {
            quote_close(d, i + 2)
        }
    } else if d[i] == 34 {
        Some(i)
    } else {
        quote_close(d, i + 1)
    }
}

/// The kinds of field in a log line after the timestamp.
#[derive(Clone, Copy, Debug, PartialEq, Eq, Structural)]
pub enum FieldKind {
    /// Text up to a space or a newline, which it consumes.
    Bare,
    /// Text between `"`, with backslash escapes.
    Quoted,
    /// A single space, then a bare field.
    SpacedBare,
    /// A single space, then a quoted field.
    SpacedQuoted,
}

/// The fields of a line after `[%t] `, in order.
pub open spec fn log_format() -> Seq<FieldKind> {
    seq![
        FieldKind::Bare, FieldKind::Bare, FieldKind::Bare, FieldKind::Quoted,
        FieldKind::SpacedBare, FieldKind::Bare, FieldKind::Quoted, FieldKind::SpacedQuoted,
        FieldKind::SpacedQuoted, FieldKind::SpacedBare, FieldKind::Quoted, FieldKind::SpacedBare,
        FieldKind::Bare, FieldKind::Bare,
    ]
}

pub open spec fn prepend_field(f: Seq<u8>, r: Option<Seq<Seq<u8>>>) -> Option<Seq<Seq<u8>>> {
    match r {
        Some(x) => Some(seq![f] + x),
        None => None,
    }
}

pub open spec fn prepend_fields(acc: Seq<Seq<u8>>, r: Option<Seq<Seq<u8>>>) -> Option<Seq<Seq<u8>>> {
    match r {
        Some(x) => Some(acc + x),
        None => None,
    }
}

/// A bare field at `i`: its text, and where the next field starts.
pub open spec fn bare_field(d: Seq<u8>, i: int) -> (Seq<u8>, int) {
    let e = run_end(d, i, 32, 10);
    (d.subrange(i, e), if e < d.len() {
        e + 1
    } else {
        d.len() as int
    })
}

/// A quoted field at `i`: its text, and where the next field starts.
pub open spec fn quoted_field(d: Seq<u8>, i: int) -> Option<(Seq<u8>, int)> {
    if 0 <= i < d.len() && d[i] == 34 {
        match quote_close(d, i + 1) {
            Some(c) => Some((d.subrange(i + 1, c), c + 1)),
            None => None,
        }
    } else {
        None
    }
}

/// One field of kind `k` at `i`.
pub open spec fn field_at(d: Seq<u8>, i: int, k: FieldKind) -> Option<(Seq<u8>, int)> {
    match k {
        FieldKind::Bare => Some(bare_field(d, i)),
        FieldKind::Quoted => quoted_field(d, i),
        FieldKind::SpacedBare => if 0 <= i < d.len() && d[i] == 32 {
            Some(bare_field(d, i + 1))
        } else {
            None
        },
        FieldKind::SpacedQuoted => if 0 <= i < d.len() && d[i] == 32 {
            quoted_field(d, i + 1)
        } else {
            None
        },
    }
}

/// The fields that `kinds` read from `d` starting at `i`.
pub open spec fn scan_fields(d: Seq<u8>, i: int, kinds: Seq<FieldKind>) -> Option<Seq<Seq<u8>>>
    decreases kinds.len(),
{
    if kinds.len() == 0 {
        Some(seq![])
    } else {
        match field_at(d, i, kinds[0]) {
            Some((f, next)) => prepend_field(f, scan_fields(d, next, kinds.drop_first())),
            None => None,
        }
    }
}

/// The timestamp text of a line and its other fields, in the order of the
/// format: host, logname, user, request line, status, bytes, referer,
/// user agent, host header, service time, forwarded-for, local port, cache
/// status, handler. `None` where the line does not have the layout.
pub open spec fn line_fields(d: Seq<u8>) -> Option<(Seq<u8>, Seq<Seq<u8>>)> {
    if d.len() > 0 && d[0] == 91 {
        let c = run_end(d, 1, 93, 93);
        if c + 1 < d.len() && d[c + 1] == 32 {
            match scan_fields(d, c + 2, log_format()) {
                Some(fs) => Some((d.subrange(1, c), fs)),
                None => None,
            }
        } else {
            None
        }
    } else {
        None
    }
}

/// Whether the byte at `*idx` is `expected`; moves past it either way.
pub fn expect(data: &[u8], idx: &mut usize, expected: u8) -> (r: bool)
    requires
        *old(idx) <= data@.len(),
    ensures
        r == (*old(idx) < data@.len() && data@[*old(idx) as int] == expected),
        *final(idx) == if *old(idx) < data@.len() {
            *old(idx) + 1
        } else {
            *old(idx) as int
        },
{
    if *idx >= data.len() {
        return false;
    }
    let m = data[*idx] == expected;
    *idx = *idx + 1;
    m
}

/// Moves past the next newline at or after `*idx`, or to the end.
pub fn skip_to_eol(data: &[u8], idx: &mut usize)
    ensures
        *final(idx) == if run_end(data@, *old(idx) as int, 10, 10) < data@.len() {
            run_end(data@, *old(idx) as int, 10, 10) + 1
        } else {
            data@.len() as int
        },
{
    if *idx >= data.len() {
        *idx = data.len();
        return;
    }
    let start = *idx;
    let mut i = start;
    while i < data.len()
        invariant
            start <= i <= data@.len(),
            start == *old(idx),
            forall|j: int| start <= j < i ==> data@[j] != 10,
        decreases data.len() - i,
    {
        if data[i] == 10 {
            proof {
                lemma_run_end(data@, start as int, 10, 10, i as int);
            }
            *idx = i + 1;
            return;
        }
        i = i + 1;
    }
    proof {
        lemma_run_end(data@, start as int, 10, 10, i as int);
    }
    *idx = data.len();
}

/// Reads a bare field: the text up to the next space or newline, which it
/// moves past.
pub fn expect_field_ws<'a>(data: &'a [u8], idx: &mut usize) -> (r: Option<&'a [u8]>)
    requires
        *old(idx) <= data@.len(),
    ensures
        ({
            let e = run_end(data@, *old(idx) as int, 32, 10);
            &&& r matches Some(f) && f@ == data@.subrange(*old(idx) as int, e)
            &&& *final(idx) == if e < data@.len() {
                e + 1
            } else {
                data@.len() as int
            }
        }),
{
    let start = *idx;
    let mut i = start;
    while i < data.len()
        invariant
            start <= i <= data@.len(),
            start == *old(idx),
            forall|j: int| start <= j < i ==> #[trigger] data@[j] != 32 && data@[j] != 10,
        decreases data.len() - i,
    {
        if data[i] == 32 || data[i] == 10 {
            proof {
                lemma_run_end(data@, start as int, 32, 10, i as int);
            }
            *idx = i + 1;
            return Some(vstd::slice::slice_subrange(data, start, i));
        }
        i = i + 1;
    }
    proof {
        lemma_run_end(data@, start as int, 32, 10, i as int);
    }
    *idx = data.len();
    Some(vstd::slice::slice_subrange(data, start, data.len()))
}

/// Reads a quoted field: a `"`, text in which a backslash escapes the
/// byte after it, and the closing `"`, which it moves past.
pub fn expect_field_qot<'a>(data: &'a [u8], idx: &mut usize) -> (r: Option<&'a [u8]>)
    requires
        *old(idx) <= data@.len(),
    ensures
        *final(idx) <= data@.len(),
        ({
            let i = *old(idx) as int;
            if i < data@.len() && data@[i] == 34 {
                match quote_close(data@, i + 1) {
                    Some(c) => r matches Some(f) && f@ == data@.subrange(i + 1, c) && *final(idx)
                        == c + 1,
                    None => r is None,
                }
            } else {
                r is None
            }
        }),
{
    if !expect(data, idx, 34) {
        return None;
    }
    let start = *idx;
    let mut i = start;
    while i < data.len()
        invariant
            start <= i <= data@.len(),
            start >= 1,
            *idx == start,
            start == *old(idx) + 1,
            start <= data@.len(),
            data@[start - 1] == 34,
            quote_close(data@, start as int) == quote_close(data@, i as int),
        decreases data.len() - i,
    {
        if data[i] == 92 {
            i = i + 1;
            if i >= data.len() {
                return None;
            }
        } else if data[i] == 34 {
            *idx = i + 1;
            return Some(vstd::slice::slice_subrange(data, start, i));
        }
        i = i + 1;
    }
    None
}

/// What `std::str::from_utf8` makes of bytes: their text, or `None` where
/// they are not UTF-8.
pub uninterp spec fn utf8_decoded(b: Seq<u8>) -> Option<Seq<char>>;

/// Every byte is ASCII.
pub open spec fn ascii_only(b: Seq<u8>) -> bool {
    forall|i: int| 0 <= i < b.len() ==> b[i] < 128
}

/// ASCII bytes read as characters.
pub open spec fn ascii_text(b: Seq<u8>) -> Seq<char> {
    b.map_values(|x: u8| x as char)
}

/// Relies on `std::str::from_utf8`: the text of the bytes where they are
/// UTF-8; ASCII bytes are UTF-8 and stand for themselves.
#[verifier::external_body]
fn utf8_text(b: &[u8]) -> (r: Option<String>)
    ensures
        match r {
            Some(s) => utf8_decoded(b@) == Some(s@),
            None => utf8_decoded(b@) is None,
        },
        ascii_only(b@) ==> r is Some && r.unwrap()@ == ascii_text(b@),
{
    std::str::from_utf8(b).ok().map(|s| s.to_string())
}

/// What `urlparse::unquote` makes of a text: each `%` followed by two hex
/// digits becomes that byte, and the bytes are read as UTF-8; `None` where
/// they are not.
pub uninterp spec fn url_unquoted(s: Seq<char>) -> Option<Seq<char>>;

/// Relies on `urlparse::unquote`: percent-decoding, failing where the
/// decoded bytes are not UTF-8.
#[verifier::external_body]
fn unquote(s: &str) -> (r: Option<String>)
    ensures
        match r {
            Some(t) => url_unquoted(s@) == Some(t@),
            None => url_unquoted(s@) is None,
        },
{
    urlparse::unquote(s).ok()
}

/// The earliest timestamp that a record may carry, so that every time slice
/// of it can be represented.
pub const EARLIEST_TIMESTAMP: i64 = -9223372036854773408;

/// Why a line gave no record.
#[derive(Debug)]
pub enum LineError {
    /// The line does not start with a bracketed timestamp.
    MissingTimestamp,
    /// The bracketed timestamp does not parse, or lies too early.
    BadTimestamp,
    /// The line does not have the layout of the format.
    Layout,
    /// A field does not hold what the format says.
    InvalidData { msg: String },
}

/// An error for a field that does not hold what the format says.
pub fn invalid_data(msg: &str) -> (r: LineError)
    ensures
        r matches LineError::InvalidData { msg: m } && m@ == msg@,
{
    LineError::InvalidData { msg: msg.to_owned() }
}

/// The text of UTF-8 bytes.
pub fn string_from_slice(slice: &[u8]) -> (r: Result<String, LineError>)
    ensures
        match r {
            Ok(s) => utf8_decoded(slice@) == Some(s@),
            Err(_) => utf8_decoded(slice@) is None,
        },
{
    match utf8_text(slice) {
        Some(s) => Ok(s),
        None => Err(invalid_data("field is not UTF-8")),
    }
}

/// One parsed log line.
#[derive(Debug)]
pub struct Record {
    /// Seconds since the epoch.
    pub timestamp: i64,
    pub remote_host: String,
    pub remote_logname: String,
    pub remote_user: String,
    pub request_method: String,
    /// The request's URI, percent-decoded.
    pub request_uri: String,
    pub request_proto: String,
    pub response_status: String,
    pub response_bytes: Option<usize>,
    pub request_referer: String,
    pub request_useragent: String,
    pub request_host: String,
    pub response_time_micros: u64,
    pub request_forwarded_for: String,
    pub request_local_port: u32,
    pub response_cache_status: String,
    pub request_handler: String,
}

/// The characters with Unicode's `White_Space` property.
pub open spec fn is_ws_char(c: char) -> bool {
    let u = c as u32;
    ||| 9 <= u <= 13
    ||| u == 32
    ||| u == 0x85
    ||| u == 0xa0
    ||| u == 0x1680
    ||| 0x2000 <= u <= 0x200a
    ||| u == 0x2028
    ||| u == 0x2029
    ||| u == 0x202f
    ||| u == 0x205f
    ||| u == 0x3000
}

/// The first position at or after `i` that is not whitespace.
pub open spec fn skip_ws(s: Seq<char>, i: int) -> int
    decreases s.len() - i,
{
    if i < 0 || i >= s.len() {
        s.len() as int
    } else if is_ws_char(s[i]) {
        skip_ws(s, i + 1)
    } else {
        i
    }
}

/// The first position at or after `i` that is whitespace.
pub open spec fn word_end(s: Seq<char>, i: int) -> int
    decreases s.len() - i,
{
    if i < 0 || i >= s.len() {
        s.len() as int
    } else if is_ws_char(s[i]) {
        i
    } else {
        word_end(s, i + 1)
    }
}

/// The first three words of a request line, separated by Unicode
/// whitespace: method, URI and protocol; `None` where there are fewer.
pub open spec fn request_words(s: Seq<char>) -> Option<Seq<Seq<char>>> {
    let a1 = skip_ws(s, 0);
    let b1 = word_end(s, a1);
    let a2 = skip_ws(s, b1);
    let b2 = word_end(s, a2);
    let a3 = skip_ws(s, b2);
    let b3 = word_end(s, a3);
    if a1 < b1 && a2 < b2 && a3 < b3 {
        Some(seq![s.subrange(a1, b1), s.subrange(a2, b2), s.subrange(a3, b3)])
    } else {
        None
    }
}

/// The response size: `-` for none, else unsigned decimal.
pub open spec fn bytes_value(f: Seq<u8>) -> Option<Option<nat>> {
    if f == seq![45u8] {
        Some(None)
    } else {
        match bounded_field_value(f, usize::MAX as nat) {
            Some(v) => Some(Some(v)),
            None => None,
        }
    }
}

pub open spec fn text_of(b: Seq<u8>) -> Seq<char> {
    utf8_decoded(b).unwrap()
}

/// The positions of the fields that are kept as text.
pub open spec fn is_text_field(k: int) -> bool {
    k == 0 || k == 1 || k == 2 || k == 4 || k == 6 || k == 7 || k == 8 || k == 10 || k == 12 || k
        == 13
}

/// Every field of a line holds what the format says: the timestamp parses,
/// the text fields are UTF-8, the request line has three words of UTF-8
/// whose URI percent-decodes, and the numbers are decimal within their
/// types.
pub open spec fn fields_convert(date: Seq<u8>, fs: Seq<Seq<u8>>) -> bool {
    &&& fs.len() == 14
    &&& utf8_decoded(date) is Some
    &&& strptime_result(text_of(date), LOG_TIME_FORMAT@) is Some
    &&& forall|k: int| 0 <= k < 14 && is_text_field(k) ==> (#[trigger] utf8_decoded(fs[k])) is Some
    &&& utf8_decoded(fs[3]) is Some
    &&& request_words(text_of(fs[3])) is Some
    &&& url_unquoted(request_words(text_of(fs[3])).unwrap()[1]) is Some
    &&& bytes_value(fs[5]) is Some
    &&& bounded_field_value(fs[9], u64::MAX as nat) is Some
    &&& bounded_field_value(fs[11], u32::MAX as nat) is Some
}

/// The record holds what the fields of its line say.
pub open spec fn record_of_fields(rec: Record, date: Seq<u8>, fs: Seq<Seq<u8>>) -> bool {
    let w = request_words(text_of(fs[3])).unwrap();
    let tm = strptime_result(text_of(date), LOG_TIME_FORMAT@).unwrap();
    &&& rec.timestamp == utc_seconds(tm)
    &&& rec.remote_host@ == text_of(fs[0])
    &&& rec.remote_logname@ == text_of(fs[1])
    &&& rec.remote_user@ == text_of(fs[2])
    &&& rec.request_method@ == w[0]
    &&& rec.request_uri@ == url_unquoted(w[1]).unwrap()
    &&& rec.request_proto@ == w[2]
    &&& rec.response_status@ == text_of(fs[4])
    &&& match bytes_value(fs[5]).unwrap() {
        None => rec.response_bytes is None,
        Some(v) => rec.response_bytes == Some(v as usize),
    }
    &&& rec.request_referer@ == text_of(fs[6])
    &&& rec.request_useragent@ == text_of(fs[7])
    &&& rec.request_host@ == text_of(fs[8])
    &&& rec.response_time_micros as nat == bounded_field_value(fs[9], u64::MAX as nat).unwrap()
    &&& rec.request_forwarded_for@ == text_of(fs[10])
    &&& rec.request_local_port as nat == bounded_field_value(fs[11], u32::MAX as nat).unwrap()
    &&& rec.response_cache_status@ == text_of(fs[12])
    &&& rec.request_handler@ == text_of(fs[13])
}

/// The timestamp's fields give seconds since the epoch, in UTC, no earlier
/// than `EARLIEST_TIMESTAMP` and within an `i64`.
pub open spec fn time_in_range(date: Seq<u8>) -> bool {
    let tm = strptime_result(text_of(date), LOG_TIME_FORMAT@).unwrap();
    EARLIEST_TIMESTAMP <= utc_seconds(tm) <= i64::MAX
}

/// The line has the layout of the format, its fields convert, and its
/// timestamp is in range: such a line gives a record.
pub open spec fn line_accepted(d: Seq<u8>) -> bool {
    match line_fields(d) {
        Some(lf) => fields_convert(lf.0, lf.1) && time_in_range(lf.0),
        None => false,
    }
}

/// Reads one field of kind `kind`.
pub fn read_field<'a>(line: &'a [u8], idx: &mut usize, kind: FieldKind) -> (r: Option<&'a [u8]>)
    requires
        *old(idx) <= line@.len(),
    ensures
        *final(idx) <= line@.len(),
        match field_at(line@, *old(idx) as int, kind) {
            Some((f, n)) => r matches Some(x) && x@ == f && *final(idx) == n,
            None => r is None,
        },
{
    proof {
        lemma_run_end_bound(line@, *idx as int, 32, 10);
        if *idx < line@.len() {
            lemma_run_end_bound(line@, *idx as int + 1, 32, 10);
        }
    }
    match kind {
        FieldKind::Bare => expect_field_ws(line, idx),
        FieldKind::Quoted => expect_field_qot(line, idx),
        FieldKind::SpacedBare => {
            if !expect(line, idx, 32) {
                return None;
            }
            expect_field_ws(line, idx)
        },
        FieldKind::SpacedQuoted => {
            if !expect(line, idx, 32) {
                return None;
            }
            expect_field_qot(line, idx)
        },
    }
}

pub proof fn lemma_run_end_bound(s: Seq<u8>, i: int, a: u8, b: u8)
    requires
        0 <= i,
    ensures
        i <= s.len() ==> i <= run_end(s, i, a, b) <= s.len(),
    decreases s.len() - i,
{
    if i < s.len() && !(s[i] == a || s[i] == b) {
        lemma_run_end_bound(s, i + 1, a, b);
    }
}

proof fn lemma_skip_ws(s: Seq<char>, i: int, k: int)
    requires
        0 <= i <= k <= s.len(),
        forall|j: int| i <= j < k ==> is_ws_char(#[trigger] s[j]),
        k == s.len() || !is_ws_char(s[k]),
    ensures
        skip_ws(s, i) == k,
    decreases k - i,
{
    if i < k {
        lemma_skip_ws(s, i + 1, k);
    }
}

proof fn lemma_word_end(s: Seq<char>, i: int, k: int)
    requires
        0 <= i <= k <= s.len(),
        forall|j: int| i <= j < k ==> !is_ws_char(#[trigger] s[j]),
        k == s.len() || is_ws_char(s[k]),
    ensures
        word_end(s, i) == k,
    decreases k - i,
{
    if i < k {
        lemma_word_end(s, i + 1, k);
    }
}

fn is_ws(c: char) -> (r: bool)
    ensures
        r == is_ws_char(c),
{
    let u = c as u32;
    (9 <= u && u <= 13) || u == 32 || u == 0x85 || u == 0xa0 || u == 0x1680 || (0x2000 <= u && u <= 0x200a)
        || u == 0x2028 || u == 0x2029 || u == 0x202f || u == 0x205f || u == 0x3000
}

fn skip_ws_pos(s: &Vec<char>, i: usize) -> (r: usize)
    requires
        i <= s@.len(),
    ensures
        i <= r <= s@.len(),
        r == skip_ws(s@, i as int),
{
    let mut k = i;
    while k < s.len() && is_ws(s[k])
        invariant
            i <= k <= s@.len(),
            forall|j: int| i <= j < k ==> is_ws_char(#[trigger] s@[j]),
        decreases s.len() - k,
    {
        k = k + 1;
    }
    proof {
        lemma_skip_ws(s@, i as int, k as int);
    }
    k
}

fn word_end_pos(s: &Vec<char>, i: usize) -> (r: usize)
    requires
        i <= s@.len(),
    ensures
        i <= r <= s@.len(),
        r == word_end(s@, i as int),
{
    let mut k = i;
    while k < s.len() && !is_ws(s[k])
        invariant
            i <= k <= s@.len(),
            forall|j: int| i <= j < k ==> !is_ws_char(#[trigger] s@[j]),
        decreases s.len() - k,
    {
        k = k + 1;
    }
    proof {
        lemma_word_end(s@, i as int, k as int);
    }
    k
}

/// The method, URI and protocol of a request line.
pub fn request_words_of(s: &Vec<char>) -> (r: Option<(String, String, String)>)
    ensures
        match request_words(s@) {
            Some(w) => r matches Some(t) && t.0@ == w[0] && t.1@ == w[1] && t.2@ == w[2],
            None => r is None,
        },
{
    let a1 = skip_ws_pos(s, 0);
    let b1 = word_end_pos(s, a1);
    let a2 = skip_ws_pos(s, b1);
    let b2 = word_end_pos(s, a2);
    let a3 = skip_ws_pos(s, b2);
    let b3 = word_end_pos(s, a3);
    if a1 < b1 && a2 < b2 && a3 < b3 {
        Some((string_of_range(s, a1, b1), string_of_range(s, a2, b2), string_of_range(s, a3, b3)))
    } else {
        None
    }
}

pub open spec fn fields_view(v: Seq<&[u8]>) -> Seq<Seq<u8>> {
    v.map_values(|f: &[u8]| f@)
}

/// Parses one line (without its newline) into a record.
pub fn parse_line(line: &[u8]) -> (r: Result<Record, LineError>)
    ensures
        match r {
            Ok(rec) => line_fields(line@) matches Some(lf) && fields_convert(lf.0, lf.1)
                && record_of_fields(rec, lf.0, lf.1),
            Err(_) => !line_accepted(line@),
        },
{
    if line.len() == 0 || line[0] != 91 {
        return Err(LineError::MissingTimestamp);
    }
    let mut c: usize = 1;
    while c < line.len() && line[c] != 93
        invariant
            1 <= c <= line@.len(),
            forall|j: int| 1 <= j < c ==> #[trigger] line@[j] != 93,
        decreases line.len() - c,
    {
        c = c + 1;
    }
    proof {
        lemma_run_end(line@, 1, 93, 93, c as int);
    }
    if c >= line.len() - 1 {
        return Err(LineError::MissingTimestamp);
    }
    let date = vstd::slice::slice_subrange(line, 1, c);
    let dat = match utf8_text(date) {
        Some(d) => d,
        None => return Err(LineError::BadTimestamp),
    };
    let tm = match strptime(dat.as_str(), LOG_TIME_FORMAT) {
        Some(t) => t,
        None => return Err(LineError::BadTimestamp),
    };
    let secs = utc_seconds_of(&tm);
    if secs < EARLIEST_TIMESTAMP as i128 || secs > i64::MAX as i128 {
        return Err(LineError::BadTimestamp);
    }
    let timestamp = secs as i64;
    let mut idx: usize = c + 1;
    if !expect(line, &mut idx, 32) {
        return Err(LineError::Layout);
    }
    let kinds: [FieldKind; 14] = [
        FieldKind::Bare, FieldKind::Bare, FieldKind::Bare, FieldKind::Quoted,
        FieldKind::SpacedBare, FieldKind::Bare, FieldKind::Quoted, FieldKind::SpacedQuoted,
        FieldKind::SpacedQuoted, FieldKind::SpacedBare, FieldKind::Quoted, FieldKind::SpacedBare,
        FieldKind::Bare, FieldKind::Bare,
    ];
    assert(kinds@ =~= log_format());
    assert(log_format().subrange(0, 14) =~= log_format());
    let ghost start = idx as int;
    assert(line_fields(line@) == match scan_fields(line@, start, log_format()) {
        Some(fs) => Some((line@.subrange(1, c as int), fs)),
        None => None,
    });
    let mut fields: Vec<&[u8]> = Vec::new();
    let mut k: usize = 0;
    while k < 14
        invariant
            k <= 14,
            idx <= line@.len(),
            kinds@ == log_format(),
            fields@.len() == k,
            line_fields(line@) == match scan_fields(line@, start, log_format()) {
                Some(fs) => Some((line@.subrange(1, c as int), fs)),
                None => None,
            },
            scan_fields(line@, start, log_format()) == prepend_fields(
                fields_view(fields@),
                scan_fields(line@, idx as int, log_format().subrange(k as int, 14)),
            ),
        decreases 14 - k,
    {
        let ghost ks = log_format().subrange(k as int, 14);
        assert(ks.drop_first() =~= log_format().subrange(k as int + 1, 14));
        let ghost before = fields_view(fields@);
        let f = match read_field(line, &mut idx, kinds[k]) {
            Some(f) => f,
            None => return Err(LineError::Layout),
        };
        fields.push(f);
        assert(fields_view(fields@) =~= before + seq![f@]);
        k = k + 1;
    }
    let ghost fv = fields_view(fields@);
    assert(fv + Seq::<Seq<u8>>::empty() =~= fv);
    assert(line_fields(line@) == Some((date@, fv)));
    assert(fields_convert(date@, fv) ==> {
        &&& utf8_decoded(fv[0]) is Some
        &&& utf8_decoded(fv[1]) is Some
        &&& utf8_decoded(fv[2]) is Some
        &&& utf8_decoded(fv[4]) is Some
        &&& utf8_decoded(fv[6]) is Some
        &&& utf8_decoded(fv[7]) is Some
        &&& utf8_decoded(fv[8]) is Some
        &&& utf8_decoded(fv[10]) is Some
        &&& utf8_decoded(fv[12]) is Some
        &&& utf8_decoded(fv[13]) is Some
    });
    let remote_host = string_from_slice(fields[0]);
    let remote_logname = string_from_slice(fields[1]);
    let remote_user = string_from_slice(fields[2]);
    let response_status = string_from_slice(fields[4]);
    let request_referer = string_from_slice(fields[6]);
    let request_useragent = string_from_slice(fields[7]);
    let request_host = string_from_slice(fields[8]);
    let request_forwarded_for = string_from_slice(fields[10]);
    let response_cache_status = string_from_slice(fields[12]);
    let request_handler = string_from_slice(fields[13]);
    let (remote_host, remote_logname, remote_user, response_status) = match (
        remote_host,
        remote_logname,
        remote_user,
        response_status,
    ) {
        (Ok(a), Ok(b), Ok(c), Ok(d)) => (a, b, c, d),
        _ => return Err(invalid_data("text field")),
    };
    let (request_referer, request_useragent, request_host) = match (
        request_referer,
        request_useragent,
        request_host,
    ) {
        (Ok(a), Ok(b), Ok(c)) => (a, b, c),
        _ => return Err(invalid_data("text field")),
    };
    let (request_forwarded_for, response_cache_status, request_handler) = match (
        request_forwarded_for,
        response_cache_status,
        request_handler,
    ) {
        (Ok(a), Ok(b), Ok(c)) => (a, b, c),
        _ => return Err(invalid_data("text field")),
    };
    let request_line = match string_from_slice(fields[3]) {
        Ok(t) => t,
        Err(e) => return Err(e),
    };
    let (request_method, raw_uri, request_proto) = match request_words_of(&chars_of(request_line.as_str())) {
        Some(w) => w,
        None => return Err(invalid_data("request line")),
    };
    let request_uri = match unquote(raw_uri.as_str()) {
        Some(s) => s,
        None => return Err(invalid_data("failed to urldecode request uri")),
    };
    let rb = fields[5];
    let response_bytes: Option<usize> = if rb.len() == 1 && rb[0] == 45 {
        assert(rb@ =~= seq![45u8]);
        None
    } else {
        match parse_unsigned(rb, usize::MAX as u64) {
            Some(v) => Some(v as usize),
            None => return Err(invalid_data("bytes")),
        }
    };
    let response_time_micros = match parse_unsigned(fields[9], u64::MAX) {
        Some(v) => v,
        None => return Err(invalid_data("service-time")),
    };
    let request_local_port = match parse_unsigned(fields[11], u32::MAX as u64) {
        Some(v) => v as u32,
        None => return Err(invalid_data("port")),
    };
    let rec = Record {
        timestamp,
        remote_host,
        remote_logname,
        remote_user,
        request_method,
        request_uri,
        request_proto,
        response_status,
        response_bytes,
        request_referer,
        request_useragent,
        request_host,
        response_time_micros,
        request_forwarded_for,
        request_local_port,
        response_cache_status,
        request_handler,
    };
    proof {
        assert forall|k: int| 0 <= k < 14 && is_text_field(k) implies (#[trigger] utf8_decoded(
            fv[k],
        )) is Some by {}
    }
    Ok(rec)
}

/// The lines of a buffer: the text between newlines, and after the last
/// one where the buffer does not end with it.
pub open spec fn split_lines(s: Seq<u8>) -> Seq<Seq<u8>>
    decreases s.len(),
{
    if s.len() == 0 {
        seq![]
    } else {
        let k = run_end(s, 0, 10, 10);
        if k < 0 || k > s.len() {
            seq![]
        } else if k < s.len() {
            seq![s.subrange(0, k)] + split_lines(s.subrange(k + 1, s.len() as int))
        } else {
            seq![s]
        }
    }
}

/// The consumer after it has seen each of the records, in order.
pub open spec fn handle_all(m: ConsumerModel, recs: Seq<Record>) -> ConsumerModel
    decreases recs.len(),
{
    if recs.len() == 0 {
        m
    } else {
        handled(handle_all(m, recs.drop_last()), recs.last())
    }
}

/// Line `k` is among those that gave a record.
pub open spec fn holds_index(idxs: Seq<int>, k: int) -> bool {
    exists|i: int| 0 <= i < idxs.len() && idxs[i] == k
}

/// Line `k` is among those reported as skipped.
pub open spec fn reports_line(r: Seq<(usize, LineError)>, k: int) -> bool {
    exists|i: int| 0 <= i < r.len() && r[i].0 == k
}

/// Reads access-log lines into a consumer.
pub struct HttpdAccessLogParser {}

impl HttpdAccessLogParser {
    pub fn new() -> (r: HttpdAccessLogParser) {
        HttpdAccessLogParser {}
    }

    /// Parses each line of `buf` and hands each record to the consumer. A
    /// line that gives no record is skipped: its number (counting from
    /// zero) and the reason are returned, in order. The records are those
    /// of the lines not returned, each as `parse_line` gives it.
    pub fn process_lines(&self, buf: &[u8], consumer: &mut Consumer) -> (r: Vec<(usize, LineError)>)
        requires
            old(consumer).wf(),
        ensures
            final(consumer).wf(),
            forall|i: int, j: int| 0 <= i < j < r@.len() ==> r@[i].0 < r@[j].0,
            forall|i: int| 0 <= i < r@.len() ==> (#[trigger] r@[i]).0 < split_lines(buf@).len()
                && !line_accepted(split_lines(buf@)[r@[i].0 as int]),
            exists|recs: Seq<Record>, idxs: Seq<int>| {
                &&& recs.len() == idxs.len()
                &&& final(consumer).model() == handle_all(old(consumer).model(), recs)
                &&& forall|i: int, j: int| 0 <= i < j < idxs.len() ==> idxs[i] < idxs[j]
                &&& forall|k: int|
                    0 <= k < split_lines(buf@).len() ==> #[trigger] holds_index(idxs, k) != reports_line(r@, k)
                &&& forall|i: int|
                    0 <= i < idxs.len() ==> 0 <= #[trigger] idxs[i] < split_lines(buf@).len() && (
                    line_fields(split_lines(buf@)[idxs[i]]) matches Some(lf) && fields_convert(lf.0, lf.1)
                        && record_of_fields(recs[i], lf.0, lf.1))
            },
    {
        let ghost lines = split_lines(buf@);
        let ghost mut recs: Seq<Record> = Seq::empty();
        let ghost mut idxs: Seq<int> = Seq::empty();
        let ghost m0 = consumer.model();
        let mut skipped: Vec<(usize, LineError)> = Vec::new();
        let mut pos: usize = 0;
        let mut lineno: usize = 0;
        assert(buf@.subrange(0, buf@.len() as int) =~= buf@);
        while pos < buf.len()
            invariant
                pos <= buf@.len(),
                lines == split_lines(buf@),
                lineno <= lines.len(),
                lineno <= pos,
                lines.subrange(lineno as int, lines.len() as int) == split_lines(buf@.subrange(pos as int, buf@.len() as int)),
                consumer.wf(),
                recs.len() == idxs.len(),
                consumer.model() == handle_all(m0, recs),
                forall|i: int, j: int| 0 <= i < j < skipped@.len() ==> skipped@[i].0 < skipped@[j].0,
                forall|i: int| 0 <= i < skipped@.len() ==> (#[trigger] skipped@[i]).0 < lineno
                    && !line_accepted(lines[skipped@[i].0 as int]),
                forall|i: int, j: int| 0 <= i < j < idxs.len() ==> idxs[i] < idxs[j],
                forall|k: int| 0 <= k < lineno ==> #[trigger] holds_index(idxs, k) != reports_line(skipped@, k),
                forall|i: int|
                    0 <= i < idxs.len() ==> 0 <= #[trigger] idxs[i] < lineno && (line_fields(lines[idxs[i]]) matches Some(
                        lf,
                    ) && fields_convert(lf.0, lf.1) && record_of_fields(recs[i], lf.0, lf.1)),
            decreases buf.len() - pos,
        {
            let ghost rest = buf@.subrange(pos as int, buf@.len() as int);
            let mut k = pos;
            while k < buf.len() && buf[k] != 10
                invariant
                    pos <= k <= buf@.len(),
                    forall|j: int| pos <= j < k ==> #[trigger] buf@[j] != 10,
                decreases buf.len() - k,
            {
                k = k + 1;
            }
            proof {
                assert forall|j: int| 0 <= j < k - pos implies #[trigger] rest[j] != 10 by {
                    assert(rest[j] == buf@[pos + j]);
                }
                lemma_run_end(rest, 0, 10, 10, k - pos);
                assert(rest.subrange(0, k - pos) =~= buf@.subrange(pos as int, k as int));
                if k < buf.len() {
                    assert(rest.subrange(k - pos + 1, rest.len() as int) =~= buf@.subrange(k as int + 1, buf@.len() as int));
                } else {
                    assert(rest =~= buf@.subrange(pos as int, k as int));
                }
                let tail = lines.subrange(lineno as int, lines.len() as int);
                assert(tail.len() > 0);
                assert(tail[0] == buf@.subrange(pos as int, k as int));
                assert(lines[lineno as int] == tail[0]);
                assert(tail.drop_first() =~= lines.subrange(lineno as int + 1, lines.len() as int));
            }
            let line = vstd::slice::slice_subrange(buf, pos, k);
            let ghost recs0 = recs;
            let ghost idxs0 = idxs;
            let ghost sk0 = skipped@;
            match parse_line(line) {
                Ok(rec) => {
                    proof {
                        recs = recs.push(rec);
                        idxs = idxs.push(lineno as int);
                        assert(recs.drop_last() =~= recs0);
                    }
                    consumer.handle(rec);
                },
                Err(e) => {
                    skipped.push((lineno, e));
                },
            }
            proof {
                assert forall|kk: int| 0 <= kk < lineno + 1 implies #[trigger] holds_index(idxs, kk) != reports_line(
                    skipped@,
                    kk,
                ) by {
                    if kk == lineno {
                        if idxs.len() > idxs0.len() {
                            assert(idxs[idxs.len() - 1] == kk);
                            assert(skipped@ == sk0);
                            if reports_line(skipped@, kk) {
                                let i = choose|i: int| 0 <= i < skipped@.len() && skipped@[i].0 == kk;
                                assert(sk0[i].0 < lineno);
                            }
                        } else {
                            assert(skipped@[skipped@.len() - 1].0 == kk);
                            assert(idxs == idxs0);
                            if holds_index(idxs, kk) {
                                let i = choose|i: int| 0 <= i < idxs.len() && idxs[i] == kk;
                                assert(idxs0[i] < lineno);
                            }
                        }
                    } else {
                        assert(holds_index(idxs0, kk) != reports_line(sk0, kk));
                        if holds_index(idxs, kk) {
                            let i = choose|i: int| 0 <= i < idxs.len() && idxs[i] == kk;
                            assert(i < idxs0.len() && idxs0[i] == kk);
                        }
                        if holds_index(idxs0, kk) {
                            let i = choose|i: int| 0 <= i < idxs0.len() && idxs0[i] == kk;
                            assert(idxs[i] == kk);
                        }
                        if reports_line(skipped@, kk) {
                            let i = choose|i: int| 0 <= i < skipped@.len() && skipped@[i].0 == kk;
                            assert(i < sk0.len() && sk0[i].0 == kk);
                        }
                        if reports_line(sk0, kk) {
                            let i = choose|i: int| 0 <= i < sk0.len() && sk0[i].0 == kk;
                            assert(skipped@[i].0 == kk);
                        }
                    }
                }
            }
            lineno = lineno + 1;
            pos = if k < buf.len() {
                k + 1
            } else {
                buf.len()
            };
            assert(lines.subrange(lineno as int, lines.len() as int) == split_lines(buf@.subrange(pos as int, buf@.len() as int))) by {
                if k == buf.len() {
                    assert(buf@.subrange(pos as int, buf@.len() as int).len() == 0);
                }
            }
        }
        proof {
            assert(split_lines(buf@.subrange(pos as int, buf@.len() as int)).len() == 0);
            assert(lineno == lines.len());
        }
        skipped
    }
}

/// A line that does not start with `[` gives no record.
pub proof fn law_unbracketed_line_gives_no_record(d: Seq<u8>)
    requires
        d.len() == 0 || d[0] != 91u8,
    ensures
        line_fields(d) is None,
        !line_accepted(d),
{
}

/// The response size of a record is absent exactly where its field is
/// `-`; otherwise it is the field's decimal value.
pub proof fn law_bytes_absent_iff_dash(rec: Record, date: Seq<u8>, fs: Seq<Seq<u8>>)
    requires
        fields_convert(date, fs),
        record_of_fields(rec, date, fs),
    ensures
        (rec.response_bytes is None) == (fs[5] == seq![45u8]),
        fs[5] != seq![45u8] ==> rec.response_bytes == Some(
            bounded_field_value(fs[5], usize::MAX as nat).unwrap() as usize,
        ),
{
}

} // verus!
