use vstd::prelude::*;

use crate::text::{
    append_bytes, bytes_eq_ci, copy_range, dec_digits, decimal, eq_ci, find_byte,
    find_byte_exec, join_sp, join_words, parse_decimal, split_words, trim, trim_bytes, views,
    words,
};

verus! {

/// One header line: a name and its value, both without surrounding whitespace.
#[derive(Clone, Debug)]
pub struct Header {
    pub name: Vec<u8>,
    pub value: Vec<u8>,
}

/// Why the head of a message could not be read.
#[derive(Clone, Copy, Debug, PartialEq, Eq, Structural)]
pub enum ParseError {
    /// The head holds no start line at all.
    EmptyStartLine,
    /// The start line has fewer than three words.
    InvalidStartLine,
    /// The status code of a response is not a decimal number that fits 16 bits.
    InvalidStatusCode,
}

/// An RTSP request, as read from the wire.
#[derive(Clone, Debug)]
pub struct RtspRequest {
    pub method: Vec<u8>,
    pub path: Vec<u8>,
    pub version: Vec<u8>,
    pub headers: Vec<Header>,
    pub body: Vec<u8>,
}

/// An RTSP response, as read from the wire.
#[derive(Clone, Debug)]
pub struct RtspResponse {
    pub version: Vec<u8>,
    pub status_code: u16,
    pub reason: Vec<u8>,
    pub headers: Vec<Header>,
    pub body: Vec<u8>,
}

/// The abstract content of a request.
pub struct RequestModel {
    pub method: Seq<u8>,
    pub path: Seq<u8>,
    pub version: Seq<u8>,
    pub headers: Seq<(Seq<u8>, Seq<u8>)>,
    pub body: Seq<u8>,
}

/// The abstract content of a response.
pub struct ResponseModel {
    pub version: Seq<u8>,
    pub status_code: u16,
    pub reason: Seq<u8>,
    pub headers: Seq<(Seq<u8>, Seq<u8>)>,
    pub body: Seq<u8>,
}

/// What reading a buffer yields: more bytes needed, a malformed head, or a
/// message together with the number of bytes it occupies.
pub enum Framing<M> {
    Incomplete,
    Malformed(ParseError),
    Complete(M, nat),
}

pub open spec fn header_views(hs: Seq<Header>) -> Seq<(Seq<u8>, Seq<u8>)> {
    hs.map_values(|h: Header| (h.name@, h.value@))
}

pub open spec fn crlf() -> Seq<u8> {
    seq![13u8, 10u8]
}

/// `"\r\n\r\n"` starts at `i`.
pub open spec fn blank_line_at(s: Seq<u8>, i: int) -> bool {
    0 <= i && i + 4 <= s.len() && s[i] == 13u8 && s[i + 1] == 10u8 && s[i + 2] == 13u8 && s[i
        + 3] == 10u8
}

/// The first index at or after `pos` where `"\r\n\r\n"` starts, or -1.
pub open spec fn find_blank_line(s: Seq<u8>, pos: int) -> int
    decreases s.len() - pos,
{
    if pos < 0 || pos + 4 > s.len() {
        -1
    } else if blank_line_at(s, pos) {
        pos
    } else {
        find_blank_line(s, pos + 1)
    }
}

/// A line without its trailing carriage return.
pub open spec fn strip_cr(l: Seq<u8>) -> Seq<u8> {
    if l.len() > 0 && l.last() == 13u8 {
        l.drop_last()
    } else {
        l
    }
}

/// The first value whose name equals `name` without regard to ASCII case.
pub open spec fn lookup(hs: Seq<(Seq<u8>, Seq<u8>)>, name: Seq<u8>) -> Option<Seq<u8>>
    decreases hs.len(),
{
    if hs.len() == 0 {
        None
    } else if eq_ci(hs[0].0, name) {
        Some(hs[0].1)
    } else {
        lookup(hs.drop_first(), name)
    }
}

pub open spec fn has_name(hs: Seq<(Seq<u8>, Seq<u8>)>, name: Seq<u8>) -> bool {
    exists|i: int| 0 <= i < hs.len() && eq_ci(#[trigger] hs[i].0, name)
}

/// A header line splits at its first colon; a line without one holds no header.
pub open spec fn header_of_line(line: Seq<u8>) -> Option<(Seq<u8>, Seq<u8>)> {
    let c = find_byte(line, 58u8, 0);
    if c < line.len() {
        Some((trim(line.subrange(0, c)), trim(line.subrange(c + 1, line.len() as int))))
    } else {
        None
    }
}

/// Adds the header of `line` unless a header of that name is already there.
pub open spec fn add_line(acc: Seq<(Seq<u8>, Seq<u8>)>, line: Seq<u8>) -> Seq<(Seq<u8>, Seq<u8>)> {
    match header_of_line(line) {
        Some(h) => if has_name(acc, h.0) {
            acc
        } else {
            acc.push(h)
        },
        None => acc,
    }
}

/// The headers of the lines of `head` from `pos` on, added to `acc`.
pub open spec fn headers_from(head: Seq<u8>, pos: int, acc: Seq<(Seq<u8>, Seq<u8>)>) -> Seq<
    (Seq<u8>, Seq<u8>),
>
    decreases head.len() - pos,
{
    if pos < 0 || pos >= head.len() {
        acc
    } else {
        let e = find_byte(head, 10u8, pos);
        if e < pos || e >= head.len() {
            add_line(acc, strip_cr(head.subrange(pos, head.len() as int)))
        } else {
            headers_from(head, e + 1, add_line(acc, strip_cr(head.subrange(pos, e))))
        }
    }
}

pub open spec fn start_line(head: Seq<u8>) -> Seq<u8> {
    strip_cr(head.subrange(0, find_byte(head, 10u8, 0)))
}

pub open spec fn head_headers(head: Seq<u8>) -> Seq<(Seq<u8>, Seq<u8>)> {
    headers_from(head, find_byte(head, 10u8, 0) + 1, seq![])
}

pub open spec fn content_length_name() -> Seq<u8> {
    seq![67u8, 111u8, 110u8, 116u8, 101u8, 110u8, 116u8, 45u8, 76u8, 101u8, 110u8, 103u8, 116u8, 104u8]
}

/// The body length that the headers announce; 0 when absent or unreadable.
pub open spec fn content_length(hs: Seq<(Seq<u8>, Seq<u8>)>) -> nat {
    match lookup(hs, content_length_name()) {
        Some(v) => match decimal(v) {
            Some(n) => if n <= usize::MAX {
                n
            } else {
                0
            },
            None => 0,
        },
        None => 0,
    }
}

/// How a buffer frames: the head ends at the first blank line, and the body
/// follows it for the announced length.
pub open spec fn framing_of(s: Seq<u8>) -> Framing<(Seq<Seq<u8>>, Seq<(Seq<u8>, Seq<u8>)>, Seq<u8>)> {
    let h = find_blank_line(s, 0);
    if h < 0 {
        Framing::Incomplete
    } else {
        let head = s.subrange(0, h);
        if head.len() == 0 {
            Framing::Malformed(ParseError::EmptyStartLine)
        } else {
            let w = words(start_line(head));
            if w.len() < 3 {
                Framing::Malformed(ParseError::InvalidStartLine)
            } else {
                let hs = head_headers(head);
                let n = h + 4 + content_length(hs);
                if s.len() < n {
                    Framing::Incomplete
                } else {
                    Framing::Complete((w, hs, s.subrange(h + 4, n)), n as nat)
                }
            }
        }
    }
}

/// A request read from the start of `s`.
pub open spec fn parse_request_spec(s: Seq<u8>) -> Framing<RequestModel> {
    match framing_of(s) {
        Framing::Incomplete => Framing::Incomplete,
        Framing::Malformed(e) => Framing::Malformed(e),
        Framing::Complete((w, hs, body), n) => Framing::Complete(
            RequestModel { method: w[0], path: w[1], version: w[2], headers: hs, body },
            n,
        ),
    }
}

/// A response read from the start of `s`. The status code is checked only
/// once the head is complete, and before the body length is.
pub open spec fn parse_response_spec(s: Seq<u8>) -> Framing<ResponseModel> {
    let h = find_blank_line(s, 0);
    match framing_of(s) {
        Framing::Malformed(e) => Framing::Malformed(e),
        _ => {
            if h < 0 {
                Framing::Incomplete
            } else {
                let w = words(start_line(s.subrange(0, h)));
                match decimal(w[1]) {
                    Some(code) => if code <= 65535 {
                        match framing_of(s) {
                            Framing::Complete((w, hs, body), n) => Framing::Complete(
                                ResponseModel {
                                    version: w[0],
                                    status_code: code as u16,
                                    reason: join_sp(w.subrange(2, w.len() as int)),
                                    headers: hs,
                                    body,
                                },
                                n,
                            ),
                            _ => Framing::Incomplete,
                        }
                    } else {
                        Framing::Malformed(ParseError::InvalidStatusCode)
                    },
                    None => Framing::Malformed(ParseError::InvalidStatusCode),
                }
            }
        },
    }
}

/// The request that `s` starts with.
pub open spec fn request_of(s: Seq<u8>) -> RequestModel {
    match parse_request_spec(s) {
        Framing::Complete(m, _) => m,
        _ => arbitrary(),
    }
}

/// The response that `s` starts with.
pub open spec fn response_of(s: Seq<u8>) -> ResponseModel {
    match parse_response_spec(s) {
        Framing::Complete(m, _) => m,
        _ => arbitrary(),
    }
}

/// Header lines, each `Name: Value\r\n`, in order.
pub open spec fn headers_bytes(hs: Seq<(Seq<u8>, Seq<u8>)>) -> Seq<u8>
    decreases hs.len(),
{
    if hs.len() == 0 {
        seq![]
    } else {
        headers_bytes(hs.drop_last()).add(hs.last().0).add(seq![58u8, 32u8]).add(hs.last().1).add(
            crlf(),
        )
    }
}

/// The wire form of a message: start line, headers, blank line, body.
pub open spec fn message_bytes(
    a: Seq<u8>,
    b: Seq<u8>,
    c: Seq<u8>,
    hs: Seq<(Seq<u8>, Seq<u8>)>,
    body: Seq<u8>,
) -> Seq<u8> {
    a.add(seq![32u8]).add(b).add(seq![32u8]).add(c).add(crlf()).add(headers_bytes(hs)).add(
        crlf(),
    ).add(body)
}

pub open spec fn request_bytes(m: RequestModel) -> Seq<u8> {
    message_bytes(m.method, m.path, m.version, m.headers, m.body)
}

pub open spec fn response_bytes(m: ResponseModel) -> Seq<u8> {
    message_bytes(m.version, dec_digits(m.status_code as nat), m.reason, m.headers, m.body)
}

impl RtspRequest {
    pub open spec fn model(&self) -> RequestModel {
        RequestModel {
            method: self.method@,
            path: self.path@,
            version: self.version@,
            headers: header_views(self.headers@),
            body: self.body@,
        }
    }
}

impl RtspResponse {
    pub open spec fn model(&self) -> ResponseModel {
        ResponseModel {
            version: self.version@,
            status_code: self.status_code,
            reason: self.reason@,
            headers: header_views(self.headers@),
            body: self.body@,
        }
    }
}

fn content_length_key() -> (r: Vec<u8>)
    ensures
        r@ == content_length_name(),
{
    let r = vec![67u8, 111u8, 110u8, 116u8, 101u8, 110u8, 116u8, 45u8, 76u8, 101u8, 110u8, 103u8, 116u8, 104u8];
    assert(r@ =~= content_length_name());
    r
}

/// Index of the first `"\r\n\r\n"` in `s`.
fn find_blank_line_exec(s: &[u8]) -> (r: Option<usize>)
    ensures
        match r {
            Some(i) => i as int == find_blank_line(s@, 0) && i + 4 <= s@.len(),
            None => find_blank_line(s@, 0) == -1,
        },
{
    let mut i: usize = 0;
    while s.len() >= 4 && i <= s.len() - 4
        invariant
            find_blank_line(s@, 0) == find_blank_line(s@, i as int),
        decreases s@.len() - i,
    {
        if s[i] == 13u8 && s[i + 1] == 10u8 && s[i + 2] == 13u8 && s[i + 3] == 10u8 {
            return Some(i);
        }
        i += 1;
    }
    None
}

/// Position of the first header whose name matches `name` without regard to case.
pub fn find_header(hs: &Vec<Header>, name: &[u8]) -> (r: Option<usize>)
    ensures
        match r {
            Some(i) => i < hs@.len() && lookup(header_views(hs@), name@) == Some(hs@[i as int].value@)
                && eq_ci(hs@[i as int].name@, name@)
                && forall|j: int| 0 <= j < i ==> !eq_ci(#[trigger] header_views(hs@)[j].0, name@),
            None => lookup(header_views(hs@), name@) is None && !has_name(header_views(hs@), name@),
        },
{
    let ghost v = header_views(hs@);
    assert(v.subrange(0, v.len() as int) =~= v);
    let mut i: usize = 0;
    while i < hs.len()
        invariant
            i <= hs@.len(),
            v == header_views(hs@),
            lookup(v, name@) == lookup(v.subrange(i as int, v.len() as int), name@),
            forall|j: int| 0 <= j < i ==> !eq_ci(#[trigger] v[j].0, name@),
        decreases hs@.len() - i,
    {
        let ghost sub = v.subrange(i as int, v.len() as int);
        if bytes_eq_ci(hs[i].name.as_slice(), name) {
            assert(sub[0] == v[i as int]);
            return Some(i);
        }
        assert(sub.drop_first() =~= v.subrange(i + 1, v.len() as int));
        i += 1;
    }
    assert(v.subrange(i as int, v.len() as int).len() == 0);
    None
}

/// `hs` with the value of the first header named `name` replaced, or with the
/// header added at the end when there is none of that name.
pub open spec fn replace_first(hs: Seq<(Seq<u8>, Seq<u8>)>, name: Seq<u8>, value: Seq<u8>) -> Seq<
    (Seq<u8>, Seq<u8>),
>
    decreases hs.len(),
{
    if hs.len() == 0 {
        seq![(name, value)]
    } else if eq_ci(hs[0].0, name) {
        seq![(hs[0].0, value)].add(hs.drop_first())
    } else {
        seq![hs[0]].add(replace_first(hs.drop_first(), name, value))
    }
}

proof fn lemma_replace_first_at(hs: Seq<(Seq<u8>, Seq<u8>)>, name: Seq<u8>, value: Seq<u8>, i: int)
    requires
        0 <= i < hs.len(),
        eq_ci(hs[i].0, name),
        forall|j: int| 0 <= j < i ==> !eq_ci(#[trigger] hs[j].0, name),
    ensures
        replace_first(hs, name, value) == hs.update(i, (hs[i].0, value)),
    decreases i,
{
    if i == 0 {
        assert(seq![(hs[0].0, value)].add(hs.drop_first()) =~= hs.update(0, (hs[0].0, value)));
    } else {
        let t = hs.drop_first();
        assert forall|j: int| 0 <= j < i - 1 implies !eq_ci(#[trigger] t[j].0, name) by {
            assert(t[j] == hs[j + 1]);
        }
        assert(!eq_ci(hs[0].0, name));
        lemma_replace_first_at(t, name, value, i - 1);
        assert(seq![hs[0]].add(t.update(i - 1, (hs[i].0, value))) =~= hs.update(i, (hs[i].0, value)));
    }
}

proof fn lemma_replace_first_absent(hs: Seq<(Seq<u8>, Seq<u8>)>, name: Seq<u8>, value: Seq<u8>)
    requires
        !has_name(hs, name),
    ensures
        replace_first(hs, name, value) == hs.push((name, value)),
    decreases hs.len(),
{
    if hs.len() > 0 {
        let t = hs.drop_first();
        assert(!eq_ci(hs[0].0, name));
        assert(!has_name(t, name)) by {
            if has_name(t, name) {
                let j = choose|j: int| 0 <= j < t.len() && eq_ci(#[trigger] t[j].0, name);
                assert(t[j] == hs[j + 1]);
            }
        }
        lemma_replace_first_absent(t, name, value);
        assert(seq![hs[0]].add(t.push((name, value))) =~= hs.push((name, value)));
    } else {
        assert(seq![(name, value)] =~= hs.push((name, value)));
    }
}

/// Gives the first header named `name` (without regard to case) the value
/// `value`, or adds that header when there is none.
pub fn set_header(hs: &mut Vec<Header>, name: &[u8], value: Vec<u8>)
    ensures
        header_views(final(hs)@) == replace_first(header_views(old(hs)@), name@, value@),
{
    let ghost before = header_views(hs@);
    let ghost v = value@;
    match find_header(hs, name) {
        Some(i) => {
            let n = hs[i].name.clone();
            proof {
                lemma_replace_first_at(before, name@, v, i as int);
            }
            hs.set(i, Header { name: n, value });
            assert(header_views(hs@) =~= before.update(i as int, (before[i as int].0, v)));
        },
        None => {
            let mut n: Vec<u8> = Vec::new();
            append_bytes(&mut n, name);
            assert(n@ =~= name@);
            proof {
                lemma_replace_first_absent(before, name@, v);
            }
            hs.push(Header { name: n, value });
            assert(header_views(hs@) =~= before.push((name@, v)));
        },
    }
}

/// Adds the header of one line, keeping an earlier header of the same name.
fn add_header_line(hs: &mut Vec<Header>, line: &[u8])
    ensures
        header_views(final(hs)@) == add_line(header_views(old(hs)@), line@),
{
    let c = find_byte_exec(line, 58u8, 0);
    if c < line.len() {
        let raw_name = copy_range(line, 0, c);
        let raw_value = copy_range(line, c + 1, line.len());
        let name = trim_bytes(raw_name.as_slice());
        let value = trim_bytes(raw_value.as_slice());
        match find_header(hs, name.as_slice()) {
            Some(i) => {
                assert(header_views(hs@)[i as int].0 == hs@[i as int].name@);
            },
            None => {
                let ghost before = header_views(hs@);
                let ghost h = (name@, value@);
                hs.push(Header { name, value });
                assert(header_views(hs@) =~= before.push(h));
            },
        }
    }
}

/// Start and end of the line that begins at `pos`, without its carriage return,
/// and the index of its line feed.
fn line_bounds(head: &[u8], pos: usize) -> (r: (usize, usize))
    requires
        pos <= head@.len(),
    ensures
        r.1 as int == find_byte(head@, 10u8, pos as int),
        pos <= r.0 <= r.1 <= head@.len(),
        head@.subrange(pos as int, r.0 as int) == strip_cr(head@.subrange(pos as int, r.1 as int)),
{
    let e = find_byte_exec(head, 10u8, pos);
    if e > pos && head[e - 1] == 13u8 {
        assert(head@.subrange(pos as int, e - 1) =~= head@.subrange(pos as int, e as int).drop_last());
        (e - 1, e)
    } else {
        (e, e)
    }
}

/// The words of the start line, the headers, the offset of the body and the
/// length of the whole message.
fn frame(data: &[u8]) -> (r: Result<Option<(Vec<Vec<u8>>, Vec<Header>, usize, usize)>, ParseError>)
    ensures
        match r {
            Ok(None) => framing_of(data@) is Incomplete,
            Ok(Some((w, hs, b, n))) => b <= n <= data@.len() && framing_of(data@) == Framing::Complete(
                (views(w@), header_views(hs@), data@.subrange(b as int, n as int)),
                n as nat,
            ) && b == find_blank_line(data@, 0) + 4,
            Err(e) => framing_of(data@) == Framing::<(Seq<Seq<u8>>, Seq<(Seq<u8>, Seq<u8>)>, Seq<u8>)>::Malformed(e),
        },
{
    let h = match find_blank_line_exec(data) {
        Some(h) => h,
        None => return Ok(None),
    };
    let dlen = data.len();
    assert(h + 4 <= dlen);
    let head = copy_range(data, 0, h);
    if head.len() == 0 {
        return Err(ParseError::EmptyStartLine);
    }
    let (le, e0) = line_bounds(head.as_slice(), 0);
    let first = copy_range(head.as_slice(), 0, le);
    let w = split_words(first.as_slice());
    if w.len() < 3 {
        return Err(ParseError::InvalidStartLine);
    }
    let mut hs: Vec<Header> = Vec::new();
    assert(header_views(hs@) =~= seq![]);
    assert(head@.len() == h);
    let mut pos: usize = e0 + 1;
    while pos < head.len()
        invariant
            head@.len() + 4 <= dlen,
            e0 <= head@.len(),
            e0 < pos <= head@.len() + 1,
            head_headers(head@) == headers_from(head@, pos as int, header_views(hs@)),
            e0 as int == find_byte(head@, 10u8, 0),
        decreases head@.len() + 1 - pos,
    {
        let (le, e) = line_bounds(head.as_slice(), pos);
        let line = copy_range(head.as_slice(), pos, le);
        add_header_line(&mut hs, line.as_slice());
        pos = e + 1;
    }
    let key = content_length_key();
    let cl: usize = match find_header(&hs, key.as_slice()) {
        Some(i) => match parse_decimal(hs[i].value.as_slice(), usize::MAX) {
            Some(n) => n,
            None => 0,
        },
        None => 0,
    };
    let b = h + 4;
    if cl > data.len() - b {
        return Ok(None);
    }
    let n = b + cl;
    Ok(Some((w, hs, b, n)))
}

impl RtspRequest {
    /// Reads one request from the start of `data`: `None` while the head or
    /// the body is incomplete, else the request and the bytes it occupies.
    pub fn parse(data: &[u8]) -> (r: Result<Option<(RtspRequest, usize)>, ParseError>)
        ensures
            match r {
                Ok(None) => parse_request_spec(data@) is Incomplete,
                Ok(Some((m, n))) => parse_request_spec(data@) == Framing::Complete(m.model(), n as nat),
                Err(e) => parse_request_spec(data@) == Framing::<RequestModel>::Malformed(e),
            },
    {
        match frame(data) {
            Err(e) => Err(e),
            Ok(None) => Ok(None),
            Ok(Some((w, headers, b, n))) => {
                let body = copy_range(data, b, n);
                let method = w[0].clone();
                let path = w[1].clone();
                let version = w[2].clone();
                let m = RtspRequest { method, path, version, headers, body };
                assert(views(w@)[0] == w@[0]@);
                assert(views(w@)[1] == w@[1]@);
                assert(views(w@)[2] == w@[2]@);
                Ok(Some((m, n)))
            },
        }
    }

    /// The wire form: start line, every header, a blank line, the body.
    pub fn to_bytes(&self) -> (r: Vec<u8>)
        ensures
            r@ == request_bytes(self.model()),
    {
        write_message(
            self.method.as_slice(),
            self.path.as_slice(),
            self.version.as_slice(),
            &self.headers,
            self.body.as_slice(),
        )
    }
}

impl RtspResponse {
    /// Reads one response from the start of `data`: `None` while the head or
    /// the body is incomplete, else the response and the bytes it occupies.
    pub fn parse(data: &[u8]) -> (r: Result<Option<(RtspResponse, usize)>, ParseError>)
        ensures
            match r {
                Ok(None) => parse_response_spec(data@) is Incomplete,
                Ok(Some((m, n))) => parse_response_spec(data@) == Framing::Complete(m.model(), n as nat),
                Err(e) => parse_response_spec(data@) == Framing::<ResponseModel>::Malformed(e),
            },
    {
        let h = find_blank_line_exec(data);
        match frame(data) {
            Err(e) => Err(e),
            Ok(None) => {
                match h {
                    None => Ok(None),
                    Some(h) => {
                        let head = copy_range(data, 0, h);
                        let (le, _e0) = line_bounds(head.as_slice(), 0);
                        let first = copy_range(head.as_slice(), 0, le);
                        let w = split_words(first.as_slice());
                        assert(views(w@)[1] == w@[1]@);
                        match parse_decimal(w[1].as_slice(), 65535) {
                            Some(_) => Ok(None),
                            None => Err(ParseError::InvalidStatusCode),
                        }
                    },
                }
            },
            Ok(Some((w, headers, b, n))) => {
                assert(views(w@)[0] == w@[0]@);
                assert(views(w@)[1] == w@[1]@);
                let code = match parse_decimal(w[1].as_slice(), 65535) {
                    Some(c) => c as u16,
                    None => return Err(ParseError::InvalidStatusCode),
                };
                let body = copy_range(data, b, n);
                let version = w[0].clone();
                let reason = join_words(&w, 2);
                let m = RtspResponse { version, status_code: code, reason, headers, body };
                Ok(Some((m, n)))
            },
        }
    }

    /// The wire form: start line, every header, a blank line, the body.
    pub fn to_bytes(&self) -> (r: Vec<u8>)
        ensures
            r@ == response_bytes(self.model()),
    {
        let mut code: Vec<u8> = Vec::new();
        push_decimal(&mut code, self.status_code as u64);
        write_message(
            self.version.as_slice(),
            code.as_slice(),
            self.reason.as_slice(),
            &self.headers,
            self.body.as_slice(),
        )
    }
}

/// Appends the decimal digits of `n`.
pub fn push_decimal(out: &mut Vec<u8>, n: u64)
    ensures
        final(out)@ == old(out)@.add(dec_digits(n as nat)),
    decreases n,
{
    if n >= 10 {
        push_decimal(out, n / 10);
    }
    out.push(((n % 10) + 48) as u8);
    proof {
        if n < 10 {
            assert(old(out)@.add(dec_digits(n as nat)) =~= old(out)@.push((n + 48) as u8));
        } else {
            assert(old(out)@.add(dec_digits(n as nat)) =~= old(out)@.add(dec_digits((n / 10) as nat)).push(((n % 10) + 48) as u8));
        }
    }
}

fn write_message(a: &[u8], b: &[u8], c: &[u8], hs: &Vec<Header>, body: &[u8]) -> (r: Vec<u8>)
    ensures
        r@ == message_bytes(a@, b@, c@, header_views(hs@), body@),
{
    let mut out: Vec<u8> = Vec::new();
    append_bytes(&mut out, a);
    out.push(32u8);
    append_bytes(&mut out, b);
    out.push(32u8);
    append_bytes(&mut out, c);
    out.push(13u8);
    out.push(10u8);
    let ghost start = out@;
    assert(start =~= a@.add(seq![32u8]).add(b@).add(seq![32u8]).add(c@).add(crlf()));
    let mut i: usize = 0;
    while i < hs.len()
        invariant
            i <= hs@.len(),
            out@ == start.add(headers_bytes(header_views(hs@).subrange(0, i as int))),
        decreases hs@.len() - i,
    {
        let ghost prev = out@;
        append_bytes(&mut out, hs[i].name.as_slice());
        out.push(58u8);
        out.push(32u8);
        append_bytes(&mut out, hs[i].value.as_slice());
        out.push(13u8);
        out.push(10u8);
        proof {
            let sub = header_views(hs@).subrange(0, i + 1);
            assert(sub.drop_last() =~= header_views(hs@).subrange(0, i as int));
            assert(sub.last() == (hs@[i as int].name@, hs@[i as int].value@));
            assert(out@ =~= start.add(headers_bytes(sub)));
        }
        i += 1;
    }
    assert(header_views(hs@).subrange(0, hs@.len() as int) =~= header_views(hs@));
    out.push(13u8);
    out.push(10u8);
    append_bytes(&mut out, body);
    assert(out@ =~= message_bytes(a@, b@, c@, header_views(hs@), body@));
    out
}

} // verus!
