use vstd::prelude::*;

use crate::rtsp::{
    message_bytes, add_line, blank_line_at, content_length, crlf, find_blank_line, framing_of, has_name,
    header_of_line, headers_bytes, headers_from, parse_request_spec, parse_response_spec,
    request_bytes, request_of, response_bytes, response_of, strip_cr, Framing, RequestModel,
    ResponseModel,
};
use crate::text::{
    dec_digits, decimal, digits_value, eq_ci, find_byte, is_digit, is_ws, join_sp, rskip_ws,
    skip_word, skip_ws, trim, unsigned_part, words, words_from,
};

verus! {

/// No byte of `s` is `b`.
pub open spec fn lacks(s: Seq<u8>, b: u8) -> bool {
    forall|i: int| 0 <= i < s.len() ==> #[trigger] s[i] != b
}

/// A word: not empty, no whitespace.
pub open spec fn is_token(w: Seq<u8>) -> bool {
    w.len() > 0 && forall|i: int| 0 <= i < w.len() ==> !is_ws(#[trigger] w[i])
}

/// Empty, or starting and ending with a byte that is not whitespace.
pub open spec fn is_trimmed(s: Seq<u8>) -> bool {
    s.len() == 0 || (!is_ws(s[0]) && !is_ws(s.last()))
}

pub open spec fn header_line(h: (Seq<u8>, Seq<u8>)) -> Seq<u8> {
    h.0.add(seq![58u8, 32u8]).add(h.1)
}

pub open spec fn canonical_header(h: (Seq<u8>, Seq<u8>)) -> bool {
    &&& lacks(h.0, 10u8)
    &&& lacks(h.1, 10u8)
    &&& lacks(h.0, 58u8)
    &&& is_trimmed(h.0)
    &&& is_trimmed(h.1)
}

pub open spec fn distinct_names(hs: Seq<(Seq<u8>, Seq<u8>)>) -> bool {
    forall|i: int, j: int| 0 <= i < j < hs.len() ==> !eq_ci(#[trigger] hs[i].0, #[trigger] hs[j].0)
}

/// A request as the parser delivers it: three words on the start line,
/// headers that read back as themselves with names unique without regard
/// to case, and a body of the announced length.
pub open spec fn canonical_request(m: RequestModel) -> bool {
    &&& is_token(m.method)
    &&& is_token(m.path)
    &&& is_token(m.version)
    &&& canonical_headers(m.headers)
    &&& content_length(m.headers) == m.body.len()
}

/// Lines, each followed by `"\r\n"`, then `tail`.
pub open spec fn lines_then(ls: Seq<Seq<u8>>, tail: Seq<u8>) -> Seq<u8>
    decreases ls.len(),
{
    if ls.len() == 0 {
        tail
    } else {
        ls[0].add(crlf()).add(lines_then(ls.drop_first(), tail))
    }
}

/// Lines separated by `"\r\n"`.
pub open spec fn join_lines(ls: Seq<Seq<u8>>) -> Seq<u8>
    decreases ls.len(),
{
    if ls.len() == 0 {
        seq![]
    } else if ls.len() == 1 {
        ls[0]
    } else {
        ls[0].add(crlf()).add(join_lines(ls.drop_first()))
    }
}

/// The headers of the lines, added in turn.
pub open spec fn fold_lines(acc: Seq<(Seq<u8>, Seq<u8>)>, ls: Seq<Seq<u8>>) -> Seq<(Seq<u8>, Seq<u8>)>
    decreases ls.len(),
{
    if ls.len() == 0 {
        acc
    } else {
        fold_lines(add_line(acc, ls[0]), ls.drop_first())
    }
}

pub open spec fn plain_line(l: Seq<u8>) -> bool {
    l.len() > 0 && lacks(l, 10u8) && l.last() != 13u8
}

pub open spec fn start_of(m: RequestModel) -> Seq<u8> {
    m.method.add(seq![32u8]).add(m.path).add(seq![32u8]).add(m.version)
}

// ----- positions in sequences -----

proof fn lemma_find_byte_run(s: Seq<u8>, b: u8, p: int, q: int)
    requires
        0 <= p <= q <= s.len(),
        forall|i: int| p <= i < q ==> #[trigger] s[i] != b,
        q == s.len() || s[q] == b,
    ensures
        find_byte(s, b, p) == q,
    decreases q - p,
{
    if p < q {
        lemma_find_byte_run(s, b, p + 1, q);
    }
}

proof fn lemma_skip_word_run(s: Seq<u8>, p: int, q: int)
    requires
        0 <= p <= q <= s.len(),
        forall|i: int| p <= i < q ==> !is_ws(#[trigger] s[i]),
        q == s.len() || is_ws(s[q]),
    ensures
        skip_word(s, p) == q,
    decreases q - p,
{
    if p < q {
        lemma_skip_word_run(s, p + 1, q);
    }
}

proof fn lemma_find_byte_shift(x: Seq<u8>, y: Seq<u8>, b: u8, p: int)
    requires
        0 <= p,
    ensures
        find_byte(x.add(y), b, x.len() + p) == x.len() + find_byte(y, b, p),
    decreases y.len() - p,
{
    if p < y.len() {
        assert(x.add(y)[x.len() + p] == y[p]);
        if y[p] != b {
            lemma_find_byte_shift(x, y, b, p + 1);
        }
    }
}

proof fn lemma_headers_from_shift(x: Seq<u8>, y: Seq<u8>, p: int, acc: Seq<(Seq<u8>, Seq<u8>)>)
    requires
        0 <= p,
    ensures
        headers_from(x.add(y), x.len() + p, acc) == headers_from(y, p, acc),
    decreases y.len() - p,
{
    let s = x.add(y);
    if p < y.len() {
        lemma_find_byte_shift(x, y, 10u8, p);
        let e = find_byte(y, 10u8, p);
        lemma_find_byte_bounds(y, 10u8, p);
        if e >= y.len() {
            assert(s.subrange(x.len() + p, s.len() as int) =~= y.subrange(p, y.len() as int));
        } else {
            assert(s.subrange(x.len() + p, x.len() + e) =~= y.subrange(p, e));
            let acc2 = add_line(acc, strip_cr(y.subrange(p, e)));
            lemma_headers_from_shift(x, y, e + 1, acc2);
        }
    }
}

proof fn lemma_find_byte_bounds(s: Seq<u8>, b: u8, p: int)
    requires
        0 <= p,
    ensures
        p <= s.len() ==> p <= find_byte(s, b, p) <= s.len(),
        p > s.len() ==> find_byte(s, b, p) == s.len(),
        forall|i: int| p <= i < find_byte(s, b, p) ==> #[trigger] s[i] != b,
        find_byte(s, b, p) < s.len() ==> s[find_byte(s, b, p)] == b,
    decreases s.len() - p,
{
    if p < s.len() && s[p] != b {
        lemma_find_byte_bounds(s, b, p + 1);
    }
}

proof fn lemma_find_blank_line_shift(x: Seq<u8>, y: Seq<u8>, p: int)
    requires
        0 <= p,
    ensures
        find_blank_line(x.add(y), x.len() + p) == if find_blank_line(y, p) < 0 {
            -1
        } else {
            x.len() + find_blank_line(y, p)
        },
    decreases y.len() - p,
{
    let s = x.add(y);
    if p + 4 <= y.len() {
        assert(s[x.len() + p] == y[p] && s[x.len() + p + 1] == y[p + 1] && s[x.len() + p + 2] == y[p
            + 2] && s[x.len() + p + 3] == y[p + 3]);
        if !blank_line_at(y, p) {
            lemma_find_blank_line_shift(x, y, p + 1);
        }
    }
}

// ----- the wire form, line by line -----

proof fn lemma_lines_then_push(ls: Seq<Seq<u8>>, x: Seq<u8>, tail: Seq<u8>)
    ensures
        lines_then(ls.push(x), tail) == lines_then(ls, x.add(crlf()).add(tail)),
    decreases ls.len(),
{
    if ls.len() > 0 {
        assert(ls.push(x).drop_first() =~= ls.drop_first().push(x));
        assert(ls.push(x)[0] == ls[0]);
        lemma_lines_then_push(ls.drop_first(), x, tail);
    } else {
        assert(ls.push(x).drop_first() =~= Seq::<Seq<u8>>::empty());
        assert(ls.push(x)[0] == x);
        assert(lines_then(ls.push(x).drop_first(), tail) == tail);
    }
}

proof fn lemma_headers_bytes_lines(hs: Seq<(Seq<u8>, Seq<u8>)>, tail: Seq<u8>)
    ensures
        headers_bytes(hs).add(tail) == lines_then(hs.map_values(|h| header_line(h)), tail),
    decreases hs.len(),
{
    let ls = hs.map_values(|h| header_line(h));
    if hs.len() == 0 {
        assert(headers_bytes(hs).add(tail) =~= tail);
    } else {
        let h = hs.last();
        let l = header_line(h);
        let ls0 = hs.drop_last().map_values(|h| header_line(h));
        assert(ls =~= ls0.push(l));
        lemma_headers_bytes_lines(hs.drop_last(), l.add(crlf()).add(tail));
        lemma_lines_then_push(ls0, l, tail);
        assert(headers_bytes(hs).add(tail) =~= headers_bytes(hs.drop_last()).add(
            l.add(crlf()).add(tail),
        ));
    }
}

proof fn lemma_lines_then_join(ls: Seq<Seq<u8>>, tail: Seq<u8>)
    requires
        ls.len() > 0,
    ensures
        lines_then(ls, tail) == join_lines(ls).add(crlf()).add(tail),
    decreases ls.len(),
{
    if ls.len() == 1 {
        assert(ls.drop_first() =~= Seq::<Seq<u8>>::empty());
        assert(lines_then(ls.drop_first(), tail) == tail);
    } else {
        lemma_lines_then_join(ls.drop_first(), tail);
        assert(lines_then(ls, tail) =~= join_lines(ls).add(crlf()).add(tail));
    }
}

/// In lines followed by a blank line, the first blank line is the one after the lines.
proof fn lemma_blank_line_after_lines(ls: Seq<Seq<u8>>, body: Seq<u8>)
    requires
        ls.len() > 0,
        forall|i: int| 0 <= i < ls.len() ==> plain_line(#[trigger] ls[i]),
    ensures
        find_blank_line(lines_then(ls, crlf().add(body)), 0) == join_lines(ls).len(),
    decreases ls.len(),
{
    let l = ls[0];
    let rest = lines_then(ls.drop_first(), crlf().add(body));
    let t = lines_then(ls, crlf().add(body));
    let pre = l.add(crlf());
    assert(t =~= pre.add(rest));
    assert(plain_line(l));
    // No blank line starts within `l` and its line end, except right after `l`.
    assert forall|j: int| 0 <= j < l.len() implies !blank_line_at(t, j) by {
        if j + 1 < l.len() {
            assert(t[j + 1] == l[j + 1]);
        } else {
            assert(t[j + 1] == 13u8);
        }
    }
    assert(t[l.len() as int] == 13u8 && t[l.len() as int + 1] == 10u8);
    lemma_skip_non_blank(t, 0, l.len() as int);
    if ls.len() == 1 {
        assert(ls.drop_first() =~= seq![]);
        assert(blank_line_at(t, l.len() as int));
    } else {
        let ls2 = ls.drop_first();
        assert(plain_line(ls2[0]));
        lemma_lines_then_join(ls2, crlf().add(body));
        assert(rest[0] == ls2[0][0]);
        if ls2[0].len() > 1 {
            assert(rest[1] == ls2[0][1]);
        } else {
            assert(rest[1] == 13u8);
        }
        assert(!blank_line_at(t, l.len() as int));
        assert(!blank_line_at(t, l.len() as int + 1));
        lemma_skip_non_blank(t, l.len() as int, l.len() as int + 2);
        assert forall|i: int| 0 <= i < ls2.len() implies plain_line(#[trigger] ls2[i]) by {
            assert(ls2[i] == ls[i + 1]);
        }
        lemma_blank_line_after_lines(ls2, body);
        lemma_find_blank_line_shift(pre, rest, 0);
        assert(join_lines(ls) =~= pre.add(join_lines(ls2)));
    }
}

proof fn lemma_skip_non_blank(t: Seq<u8>, p: int, q: int)
    requires
        0 <= p <= q,
        forall|j: int| p <= j < q ==> !blank_line_at(t, j),
    ensures
        find_blank_line(t, p) == find_blank_line(t, q),
    decreases q - p,
{
    if p < q {
        lemma_skip_non_blank(t, p + 1, q);
    }
}

proof fn lemma_join_len(ls: Seq<Seq<u8>>)
    requires
        ls.len() > 0,
    ensures
        join_lines(ls).len() >= ls[0].len(),
{
}

/// Reading the headers of joined lines adds each line in turn.
proof fn lemma_headers_of_lines(ls: Seq<Seq<u8>>, acc: Seq<(Seq<u8>, Seq<u8>)>)
    requires
        forall|i: int| 0 <= i < ls.len() ==> plain_line(#[trigger] ls[i]),
    ensures
        headers_from(join_lines(ls), 0, acc) == fold_lines(acc, ls),
    decreases ls.len(),
{
    if ls.len() > 0 {
        let l = ls[0];
        assert(plain_line(l));
        let y = join_lines(ls);
        if ls.len() == 1 {
            assert(ls.drop_first() =~= Seq::<Seq<u8>>::empty());
            assert(fold_lines(add_line(acc, l), ls.drop_first()) == add_line(acc, l));
            assert(y == l);
            lemma_find_byte_run(y, 10u8, 0, y.len() as int);
            assert(y.subrange(0, y.len() as int) =~= l);
            assert(strip_cr(l) == l);
        } else {
            let ls2 = ls.drop_first();
            let z = join_lines(ls2);
            assert(plain_line(ls2[0]));
            lemma_join_len(ls2);
            let pre = l.add(crlf());
            assert(y =~= pre.add(z));
            assert forall|i: int| 0 <= i < l.len() as int + 1 implies #[trigger] y[i] != 10u8 by {
                if i < l.len() {
                    assert(y[i] == l[i]);
                }
            }
            lemma_find_byte_run(y, 10u8, 0, l.len() as int + 1);
            assert(y.subrange(0, l.len() as int + 1) =~= l.push(13u8));
            assert(strip_cr(l.push(13u8)) =~= l);
            lemma_headers_from_shift(pre, z, 0, add_line(acc, l));
            assert forall|i: int| 0 <= i < ls2.len() implies plain_line(#[trigger] ls2[i]) by {
                assert(ls2[i] == ls[i + 1]);
            }
            lemma_headers_of_lines(ls2, add_line(acc, l));
        }
    }
}

// ----- single lines -----

proof fn lemma_trim_of_trimmed(s: Seq<u8>)
    requires
        is_trimmed(s),
    ensures
        trim(s) == s,
{
    if s.len() > 0 {
        assert(skip_ws(s, 0) == 0);
        assert(rskip_ws(s, 0, s.len() as int) == s.len());
    }
    assert(s.subrange(0, s.len() as int) =~= s);
}

proof fn lemma_header_line_reads_back(h: (Seq<u8>, Seq<u8>))
    requires
        canonical_header(h),
    ensures
        header_of_line(header_line(h)) == Some(h),
        plain_line(header_line(h)),
{
    let l = header_line(h);
    let n = h.0;
    let v = h.1;
    assert forall|i: int| 0 <= i < n.len() implies #[trigger] l[i] != 58u8 by {
        assert(l[i] == n[i]);
    }
    lemma_find_byte_run(l, 58u8, 0, n.len() as int);
    assert(l.subrange(0, n.len() as int) =~= n);
    lemma_trim_of_trimmed(n);
    let after = l.subrange(n.len() as int + 1, l.len() as int);
    assert(after =~= seq![32u8].add(v));
    if v.len() > 0 {
        assert(after[1] == v[0]);
        assert(skip_ws(after, 1) == 1);
        assert(skip_ws(after, 0) == 1);
        assert(after.last() == v.last());
        assert(rskip_ws(after, 1, after.len() as int) == after.len());
        assert(after.subrange(1, after.len() as int) =~= v);
    } else {
        assert(skip_ws(after, 1) == 1);
        assert(skip_ws(after, 0) == 1);
        assert(after.subrange(1, 1) =~= v);
    }
    assert forall|i: int| 0 <= i < l.len() implies #[trigger] l[i] != 10u8 by {
        if i < n.len() {
            assert(l[i] == n[i]);
        } else if i >= n.len() as int + 2 {
            assert(l[i] == v[i - n.len() - 2]);
        }
    }
    if v.len() > 0 {
        assert(l.last() == v.last());
    }
}

/// Canonical headers with names unique (also against `acc`) are added one by one.
proof fn lemma_fold_header_lines(acc: Seq<(Seq<u8>, Seq<u8>)>, hs: Seq<(Seq<u8>, Seq<u8>)>)
    requires
        forall|i: int| 0 <= i < hs.len() ==> canonical_header(#[trigger] hs[i]),
        distinct_names(hs),
        forall|i: int, j: int| 0 <= i < acc.len() && 0 <= j < hs.len() ==> !eq_ci(#[trigger] acc[i].0, #[trigger] hs[j].0),
    ensures
        fold_lines(acc, hs.map_values(|h| header_line(h))) == acc.add(hs),
    decreases hs.len(),
{
    let ls = hs.map_values(|h| header_line(h));
    if hs.len() == 0 {
        assert(acc.add(hs) =~= acc);
    } else {
        let h = hs[0];
        assert(canonical_header(h));
        lemma_header_line_reads_back(h);
        assert(ls[0] == header_line(h));
        assert(!has_name(acc, h.0)) by {
            if has_name(acc, h.0) {
                let i = choose|i: int| 0 <= i < acc.len() && eq_ci(#[trigger] acc[i].0, h.0);
                assert(!eq_ci(acc[i].0, hs[0].0));
            }
        }
        let acc2 = acc.push(h);
        let hs2 = hs.drop_first();
        assert(ls.drop_first() =~= hs2.map_values(|h| header_line(h)));
        assert forall|i: int| 0 <= i < hs2.len() implies canonical_header(#[trigger] hs2[i]) by {
            assert(hs2[i] == hs[i + 1]);
        }
        assert forall|i: int, j: int| 0 <= i < j < hs2.len() implies !eq_ci(
            #[trigger] hs2[i].0,
            #[trigger] hs2[j].0,
        ) by {
            assert(hs2[i] == hs[i + 1] && hs2[j] == hs[j + 1]);
        }
        assert forall|i: int, j: int| 0 <= i < acc2.len() && 0 <= j < hs2.len() implies !eq_ci(
            #[trigger] acc2[i].0,
            #[trigger] hs2[j].0,
        ) by {
            assert(hs2[j] == hs[j + 1]);
            if i == acc.len() {
                assert(acc2[i] == hs[0]);
            } else {
                assert(acc2[i] == acc[i]);
            }
        }
        lemma_fold_header_lines(acc2, hs2);
        assert(acc2.add(hs2) =~= acc.add(hs));
    }
}

proof fn lemma_start_words(m: RequestModel)
    requires
        is_token(m.method),
        is_token(m.path),
        is_token(m.version),
    ensures
        words(start_of(m)) == seq![m.method, m.path, m.version],
        plain_line(start_of(m)),
{
    let s = start_of(m);
    let a = m.method.len() as int;
    let b = a + 1 + m.path.len();
    let c = b + 1 + m.version.len();
    assert(s.len() == c);
    assert forall|i: int| 0 <= i < a implies !is_ws(#[trigger] s[i]) by {
        assert(s[i] == m.method[i]);
    }
    assert forall|i: int| a + 1 <= i < b implies !is_ws(#[trigger] s[i]) by {
        assert(s[i] == m.path[i - a - 1]);
    }
    assert forall|i: int| b + 1 <= i < c implies !is_ws(#[trigger] s[i]) by {
        assert(s[i] == m.version[i - b - 1]);
    }
    assert(s[a] == 32u8 && s[b] == 32u8);
    lemma_skip_word_run(s, 0, a);
    lemma_skip_word_run(s, a + 1, b);
    lemma_skip_word_run(s, b + 1, c);
    assert(skip_ws(s, 0) == 0);
    assert(skip_ws(s, a + 1) == a + 1);
    assert(skip_ws(s, a) == a + 1);
    assert(skip_ws(s, b + 1) == b + 1);
    assert(skip_ws(s, b) == b + 1);
    assert(skip_ws(s, c) == c);
    assert(words_from(s, c) == Seq::<Seq<u8>>::empty());
    assert(s.subrange(0, a) =~= m.method);
    assert(s.subrange(a + 1, b) =~= m.path);
    assert(s.subrange(b + 1, c) =~= m.version);
    assert(words_from(s, b) =~= seq![m.version]);
    assert(words_from(s, a) =~= seq![m.path, m.version]);
    assert(words_from(s, 0) =~= seq![m.method, m.path, m.version]);
    assert forall|i: int| 0 <= i < s.len() implies #[trigger] s[i] != 10u8 by {
        if i < a {
            assert(!is_ws(s[i]));
        } else if a < i < b {
            assert(!is_ws(s[i]));
        } else if b < i {
            assert(!is_ws(s[i]));
        }
    }
    assert(!is_ws(s[c - 1]));
}

/// The lines of a head: the start line, then one per header.
pub open spec fn head_lines(s0: Seq<u8>, hs: Seq<(Seq<u8>, Seq<u8>)>) -> Seq<Seq<u8>> {
    seq![s0].add(hs.map_values(|h| header_line(h)))
}

pub open spec fn canonical_headers(hs: Seq<(Seq<u8>, Seq<u8>)>) -> bool {
    &&& forall|i: int| 0 <= i < hs.len() ==> canonical_header(#[trigger] hs[i])
    &&& distinct_names(hs)
}

proof fn lemma_head_lines(s0: Seq<u8>, hs: Seq<(Seq<u8>, Seq<u8>)>, body: Seq<u8>)
    requires
        plain_line(s0),
        canonical_headers(hs),
    ensures
        head_lines(s0, hs).len() > 0,
        forall|i: int| 0 <= i < head_lines(s0, hs).len() ==> plain_line(#[trigger] head_lines(s0, hs)[i]),
        s0.add(crlf()).add(headers_bytes(hs)).add(crlf()).add(body) == lines_then(
            head_lines(s0, hs),
            crlf().add(body),
        ),
{
    let hls = hs.map_values(|h| header_line(h));
    let ls = head_lines(s0, hs);
    assert forall|i: int| 0 <= i < hls.len() implies plain_line(#[trigger] hls[i]) by {
        assert(canonical_header(hs[i]));
        lemma_header_line_reads_back(hs[i]);
    }
    assert forall|i: int| 0 <= i < ls.len() implies plain_line(#[trigger] ls[i]) by {
        if i > 0 {
            assert(ls[i] == hls[i - 1]);
        }
    }
    lemma_headers_bytes_lines(hs, crlf().add(body));
    assert(ls.drop_first() =~= hls);
    assert(s0.add(crlf()).add(headers_bytes(hs)).add(crlf()).add(body) =~= lines_then(
        ls,
        crlf().add(body),
    ));
}

proof fn lemma_head_parts(s0: Seq<u8>, hs: Seq<(Seq<u8>, Seq<u8>)>)
    requires
        plain_line(s0),
        canonical_headers(hs),
    ensures
        crate::rtsp::start_line(join_lines(head_lines(s0, hs))) == s0,
        crate::rtsp::head_headers(join_lines(head_lines(s0, hs))) == hs,
{
    let hls = hs.map_values(|h| header_line(h));
    let ls = head_lines(s0, hs);
    lemma_head_lines(s0, hs, seq![]);
    let head = join_lines(ls);
    let h = head.len() as int;
    if hls.len() == 0 {
        assert(ls =~= seq![s0]);
        assert(head == s0);
        lemma_find_byte_run(head, 10u8, 0, h);
        assert(head.subrange(0, h) =~= s0);
        assert(strip_cr(s0) == s0);
        assert(hs =~= Seq::<(Seq<u8>, Seq<u8>)>::empty());
    } else {
        let pre = s0.add(crlf());
        assert(ls.drop_first() =~= hls);
        assert(head =~= pre.add(join_lines(hls)));
        assert forall|i: int| 0 <= i < s0.len() as int + 1 implies #[trigger] head[i] != 10u8 by {
            if i < s0.len() {
                assert(head[i] == s0[i]);
            }
        }
        lemma_find_byte_run(head, 10u8, 0, s0.len() as int + 1);
        assert(head.subrange(0, s0.len() as int + 1) =~= s0.push(13u8));
        assert(strip_cr(s0.push(13u8)) =~= s0);
        lemma_headers_from_shift(pre, join_lines(hls), 0, seq![]);
        assert forall|i: int| 0 <= i < hls.len() implies plain_line(#[trigger] hls[i]) by {
            assert(hls[i] == ls[i + 1]);
        }
        lemma_headers_of_lines(hls, seq![]);
        lemma_fold_header_lines(seq![], hs);
        assert(Seq::<(Seq<u8>, Seq<u8>)>::empty().add(hs) =~= hs);
    }
}

/// How the wire form of a message with a plain start line and canonical
/// headers frames: the words of its start line, its headers, its body, and all of it.
proof fn lemma_message_framing(
    a: Seq<u8>,
    b: Seq<u8>,
    c: Seq<u8>,
    hs: Seq<(Seq<u8>, Seq<u8>)>,
    body: Seq<u8>,
)
    requires
        plain_line(a.add(seq![32u8]).add(b).add(seq![32u8]).add(c)),
        words(a.add(seq![32u8]).add(b).add(seq![32u8]).add(c)).len() >= 3,
        canonical_headers(hs),
        content_length(hs) == body.len(),
    ensures
        framing_of(message_bytes(a, b, c, hs, body)) == Framing::Complete(
            (words(a.add(seq![32u8]).add(b).add(seq![32u8]).add(c)), hs, body),
            message_bytes(a, b, c, hs, body).len(),
        ),
{
    let s0 = a.add(seq![32u8]).add(b).add(seq![32u8]).add(c);
    let ls = head_lines(s0, hs);
    let t = message_bytes(a, b, c, hs, body);
    lemma_head_lines(s0, hs, body);
    assert(t =~= s0.add(crlf()).add(headers_bytes(hs)).add(crlf()).add(body));
    lemma_blank_line_after_lines(ls, body);
    lemma_lines_then_join(ls, crlf().add(body));
    let head = join_lines(ls);
    let h = head.len() as int;
    assert(t.subrange(0, h) =~= head);
    lemma_head_parts(s0, hs);
    assert(t.subrange(h + 4, t.len() as int) =~= body);
}

/// A canonical request, written out and read back, is the same request and
/// occupies exactly the bytes written.
pub proof fn lemma_canonical_request_round_trip(m: RequestModel)
    requires
        canonical_request(m),
    ensures
        parse_request_spec(request_bytes(m)) == Framing::Complete(m, request_bytes(m).len()),
{
    lemma_start_words(m);
    lemma_message_framing(m.method, m.path, m.version, m.headers, m.body);
}

// ----- what the parser delivers -----

proof fn lemma_skip_ws_bounds(s: Seq<u8>, p: int)
    requires
        0 <= p <= s.len(),
    ensures
        p <= skip_ws(s, p) <= s.len(),
        skip_ws(s, p) < s.len() ==> !is_ws(s[skip_ws(s, p)]),
    decreases s.len() - p,
{
    if p < s.len() && is_ws(s[p]) {
        lemma_skip_ws_bounds(s, p + 1);
    }
}

proof fn lemma_skip_word_bounds(s: Seq<u8>, p: int)
    requires
        0 <= p <= s.len(),
    ensures
        p <= skip_word(s, p) <= s.len(),
        forall|i: int| p <= i < skip_word(s, p) ==> !is_ws(#[trigger] s[i]),
    decreases s.len() - p,
{
    if p < s.len() && !is_ws(s[p]) {
        lemma_skip_word_bounds(s, p + 1);
    }
}

proof fn lemma_rskip_bounds(s: Seq<u8>, lo: int, hi: int)
    requires
        0 <= lo <= hi <= s.len(),
    ensures
        lo <= rskip_ws(s, lo, hi) <= hi,
        rskip_ws(s, lo, hi) > lo ==> !is_ws(s[rskip_ws(s, lo, hi) - 1]),
    decreases hi - lo,
{
    if hi > lo && is_ws(s[hi - 1]) {
        lemma_rskip_bounds(s, lo, hi - 1);
    }
}

/// A trimmed slice is trimmed, and lacks every byte that the whole lacks.
proof fn lemma_trim_shape(x: Seq<u8>)
    ensures
        is_trimmed(trim(x)),
        forall|b: u8| lacks(x, b) ==> lacks(#[trigger] trim(x), b),
{
    lemma_skip_ws_bounds(x, 0);
    let a = skip_ws(x, 0);
    lemma_rskip_bounds(x, a, x.len() as int);
    let e = rskip_ws(x, a, x.len() as int);
    let t = trim(x);
    assert(t == x.subrange(a, e));
    if t.len() > 0 {
        assert(t[0] == x[a]);
        assert(t.last() == x[e - 1]);
    }
    assert forall|b: u8| lacks(x, b) implies lacks(#[trigger] trim(x), b) by {
        assert forall|i: int| 0 <= i < t.len() implies #[trigger] t[i] != b by {
            assert(t[i] == x[a + i]);
        }
    }
}

proof fn lemma_words_are_tokens(s: Seq<u8>, p: int)
    requires
        0 <= p <= s.len(),
    ensures
        forall|i: int| 0 <= i < words_from(s, p).len() ==> is_token(#[trigger] words_from(s, p)[i]),
    decreases s.len() - p,
{
    lemma_skip_ws_bounds(s, p);
    let a = skip_ws(s, p);
    if a < s.len() {
        lemma_skip_word_bounds(s, a);
        let b = skip_word(s, a);
        assert(b > a) by {
            if b == a {
                lemma_skip_word_nonempty(s, a);
            }
        }
        let w = s.subrange(a, b);
        assert forall|i: int| 0 <= i < w.len() implies !is_ws(#[trigger] w[i]) by {
            assert(w[i] == s[a + i]);
        }
        lemma_words_are_tokens(s, b);
        let ws = words_from(s, p);
        assert(ws == seq![w].add(words_from(s, b)));
        assert forall|i: int| 0 <= i < ws.len() implies is_token(#[trigger] ws[i]) by {
            if i > 0 {
                assert(ws[i] == words_from(s, b)[i - 1]);
            }
        }
    }
}

proof fn lemma_skip_word_nonempty(s: Seq<u8>, a: int)
    requires
        0 <= a < s.len(),
        !is_ws(s[a]),
    ensures
        skip_word(s, a) > a,
{
    lemma_skip_word_bounds(s, a + 1);
}

/// Adding a line keeps the headers canonical and their names unique.
proof fn lemma_add_line_canonical(acc: Seq<(Seq<u8>, Seq<u8>)>, line: Seq<u8>)
    requires
        lacks(line, 10u8),
        forall|i: int| 0 <= i < acc.len() ==> canonical_header(#[trigger] acc[i]),
        distinct_names(acc),
    ensures
        forall|i: int| 0 <= i < add_line(acc, line).len() ==> canonical_header(#[trigger] add_line(acc, line)[i]),
        distinct_names(add_line(acc, line)),
{
    let c = find_byte(line, 58u8, 0);
    lemma_find_byte_bounds(line, 58u8, 0);
    if c < line.len() && !has_name(acc, trim(line.subrange(0, c))) {
        let x = line.subrange(0, c);
        let y = line.subrange(c + 1, line.len() as int);
        assert(lacks(x, 10u8) && lacks(x, 58u8)) by {
            assert forall|i: int| 0 <= i < x.len() implies #[trigger] x[i] != 10u8 && x[i] != 58u8 by {
                assert(x[i] == line[i]);
            }
        }
        assert(lacks(y, 10u8)) by {
            assert forall|i: int| 0 <= i < y.len() implies #[trigger] y[i] != 10u8 by {
                assert(y[i] == line[c + 1 + i]);
            }
        }
        lemma_trim_shape(x);
        lemma_trim_shape(y);
        let h = (trim(x), trim(y));
        assert(canonical_header(h));
        let r = acc.push(h);
        assert(add_line(acc, line) == r);
        assert forall|i: int| 0 <= i < r.len() implies canonical_header(#[trigger] r[i]) by {
            if i < acc.len() {
                assert(r[i] == acc[i]);
            }
        }
        assert forall|i: int, j: int| 0 <= i < j < r.len() implies !eq_ci(#[trigger] r[i].0, #[trigger] r[j].0) by {
            assert(r[i] == acc[i]);
            if j == acc.len() {
                assert(r[j] == h);
                assert(!eq_ci(acc[i].0, h.0));
            } else {
                assert(r[j] == acc[j]);
            }
        }
    }
}

proof fn lemma_headers_from_canonical(head: Seq<u8>, pos: int, acc: Seq<(Seq<u8>, Seq<u8>)>)
    requires
        0 <= pos,
        forall|i: int| 0 <= i < acc.len() ==> canonical_header(#[trigger] acc[i]),
        distinct_names(acc),
    ensures
        forall|i: int|
            0 <= i < headers_from(head, pos, acc).len() ==> canonical_header(
                #[trigger] headers_from(head, pos, acc)[i],
            ),
        distinct_names(headers_from(head, pos, acc)),
    decreases head.len() - pos,
{
    if pos < head.len() {
        let e = find_byte(head, 10u8, pos);
        lemma_find_byte_bounds(head, 10u8, pos);
        let end = if e >= head.len() { head.len() as int } else { e };
        let raw = head.subrange(pos, end);
        assert forall|i: int| 0 <= i < raw.len() implies #[trigger] raw[i] != 10u8 by {
            assert(raw[i] == head[pos + i]);
        }
        let line = strip_cr(raw);
        assert(lacks(line, 10u8)) by {
            assert forall|i: int| 0 <= i < line.len() implies #[trigger] line[i] != 10u8 by {
                assert(line[i] == raw[i]);
            }
        }
        lemma_add_line_canonical(acc, line);
        if e < head.len() {
            lemma_headers_from_canonical(head, e + 1, add_line(acc, line));
        }
    }
}

/// Whatever the parser delivers as a request is canonical.
pub proof fn lemma_parsed_request_canonical(s: Seq<u8>)
    requires
        parse_request_spec(s) is Complete,
    ensures
        canonical_request(request_of(s)),
{
    let h = find_blank_line(s, 0);
    let head = s.subrange(0, h);
    let sl = crate::rtsp::start_line(head);
    lemma_words_are_tokens(sl, 0);
    let w = words(sl);
    assert(is_token(w[0]) && is_token(w[1]) && is_token(w[2]));
    lemma_find_byte_bounds(head, 10u8, 0);
    lemma_headers_from_canonical(head, find_byte(head, 10u8, 0) + 1, seq![]);
}


/// A request read from a buffer, written out and read again, is the same
/// request: method, path, version, body and every header in order.
pub proof fn lemma_request_round_trip(s: Seq<u8>)
    requires
        parse_request_spec(s) is Complete,
    ensures
        parse_request_spec(request_bytes(request_of(s))) == Framing::Complete(
            request_of(s),
            request_bytes(request_of(s)).len(),
        ),
{
    lemma_parsed_request_canonical(s);
    lemma_canonical_request_round_trip(request_of(s));
}

// ----- responses -----

/// A response as the parser delivers it: a version word, a reason that is
/// its own words joined by single spaces, canonical headers, and a body of
/// the announced length.
pub open spec fn canonical_response(m: ResponseModel) -> bool {
    &&& is_token(m.version)
    &&& words(m.reason).len() > 0
    &&& join_sp(words(m.reason)) == m.reason
    &&& canonical_headers(m.headers)
    &&& content_length(m.headers) == m.body.len()
}

proof fn lemma_skip_ws_shift(x: Seq<u8>, y: Seq<u8>, p: int)
    requires
        0 <= p,
    ensures
        skip_ws(x.add(y), x.len() + p) == x.len() + skip_ws(y, p),
    decreases y.len() - p,
{
    if p < y.len() {
        assert(x.add(y)[x.len() + p] == y[p]);
        lemma_skip_ws_shift(x, y, p + 1);
    }
}

proof fn lemma_skip_word_shift(x: Seq<u8>, y: Seq<u8>, p: int)
    requires
        0 <= p,
    ensures
        skip_word(x.add(y), x.len() + p) == x.len() + skip_word(y, p),
    decreases y.len() - p,
{
    if p < y.len() {
        assert(x.add(y)[x.len() + p] == y[p]);
        lemma_skip_word_shift(x, y, p + 1);
    }
}

proof fn lemma_words_shift(x: Seq<u8>, y: Seq<u8>, p: int)
    requires
        0 <= p,
    ensures
        words_from(x.add(y), x.len() + p) == words_from(y, p),
    decreases y.len() - p,
{
    let s = x.add(y);
    lemma_skip_ws_shift(x, y, p);
    let a = skip_ws(y, p);
    if p <= y.len() {
        lemma_skip_ws_bounds(y, p);
    }
    if a < y.len() && p <= y.len() {
        lemma_skip_word_shift(x, y, a);
        lemma_skip_word_bounds(y, a);
        let b = skip_word(y, a);
        if b > p {
            assert(s.subrange(x.len() + a, x.len() + b) =~= y.subrange(a, b));
            lemma_words_shift(x, y, b);
        }
    }
}

/// Where `x` ends in a word and `y` starts with whitespace, the words of
/// `x ++ y` are those of `x`, then those after it.
proof fn lemma_words_split(x: Seq<u8>, y: Seq<u8>, p: int)
    requires
        x.len() > 0,
        !is_ws(x.last()),
        y.len() > 0,
        is_ws(y[0]),
        0 <= p <= x.len(),
    ensures
        words_from(x.add(y), p) == words_from(x, p).add(words_from(x.add(y), x.len() as int)),
    decreases x.len() - p,
{
    let s = x.add(y);
    if p == x.len() {
        assert(skip_ws(x, p) == x.len());
        assert(words_from(x, p) =~= Seq::<Seq<u8>>::empty());
        assert(words_from(x, p).add(words_from(s, p)) =~= words_from(s, p));
    } else {
        lemma_skip_ws_agree(x, y, p);
        let a = skip_ws(x, p);
        lemma_skip_ws_bounds(x, p);
        lemma_skip_word_agree(x, y, a);
        lemma_skip_word_bounds(x, a);
        lemma_skip_word_nonempty(x, a);
        let b = skip_word(x, a);
        assert(s.subrange(a, b) =~= x.subrange(a, b));
        lemma_words_split(x, y, b);
        assert(words_from(s, p) =~= words_from(x, p).add(words_from(s, x.len() as int)));
    }
}

proof fn lemma_skip_ws_agree(x: Seq<u8>, y: Seq<u8>, p: int)
    requires
        x.len() > 0,
        !is_ws(x.last()),
        0 <= p < x.len(),
    ensures
        skip_ws(x.add(y), p) == skip_ws(x, p),
        skip_ws(x, p) < x.len(),
    decreases x.len() - p,
{
    assert(x.add(y)[p] == x[p]);
    if is_ws(x[p]) {
        assert(p + 1 < x.len());
        lemma_skip_ws_agree(x, y, p + 1);
    }
}

proof fn lemma_skip_word_agree(x: Seq<u8>, y: Seq<u8>, p: int)
    requires
        y.len() > 0,
        is_ws(y[0]),
        0 <= p <= x.len(),
    ensures
        skip_word(x.add(y), p) == skip_word(x, p),
    decreases x.len() - p,
{
    if p < x.len() {
        assert(x.add(y)[p] == x[p]);
        lemma_skip_word_agree(x, y, p + 1);
    } else {
        assert(x.add(y)[p] == y[0]);
    }
}

proof fn lemma_join_shape(ws: Seq<Seq<u8>>)
    requires
        ws.len() > 0,
        forall|i: int| 0 <= i < ws.len() ==> is_token(#[trigger] ws[i]),
    ensures
        join_sp(ws).len() > 0,
        !is_ws(join_sp(ws).last()),
        forall|i: int| 0 <= i < join_sp(ws).len() ==> #[trigger] join_sp(ws)[i] != 10u8 && join_sp(ws)[i] != 13u8,
    decreases ws.len(),
{
    let j = join_sp(ws);
    assert(is_token(ws.last()));
    if ws.len() == 1 {
        assert forall|i: int| 0 <= i < j.len() implies #[trigger] j[i] != 10u8 && j[i] != 13u8 by {
            assert(!is_ws(ws[0][i]));
        }
    } else {
        let w0 = ws.drop_last();
        assert forall|i: int| 0 <= i < w0.len() implies is_token(#[trigger] w0[i]) by {
            assert(w0[i] == ws[i]);
        }
        lemma_join_shape(w0);
        let x = join_sp(w0);
        let t = ws.last();
        assert(j == x.add(seq![32u8]).add(t));
        assert forall|i: int| 0 <= i < j.len() implies #[trigger] j[i] != 10u8 && j[i] != 13u8 by {
            if i < x.len() {
                assert(j[i] == x[i]);
            } else if i > x.len() {
                assert(j[i] == t[i - x.len() - 1]);
                assert(!is_ws(t[i - x.len() - 1]));
            }
        }
        assert(j.last() == t.last());
    }
}

/// Words joined by single spaces split back into the same words.
proof fn lemma_words_of_join(ws: Seq<Seq<u8>>)
    requires
        ws.len() > 0,
        forall|i: int| 0 <= i < ws.len() ==> is_token(#[trigger] ws[i]),
    ensures
        words(join_sp(ws)) == ws,
    decreases ws.len(),
{
    let t = ws.last();
    assert(is_token(t));
    if ws.len() == 1 {
        lemma_skip_word_run(t, 0, t.len() as int);
        assert(skip_ws(t, 0) == 0);
        assert(skip_ws(t, t.len() as int) == t.len());
        assert(t.subrange(0, t.len() as int) =~= t);
        assert(words_from(t, t.len() as int) =~= Seq::<Seq<u8>>::empty());
        assert(words_from(t, 0) =~= seq![t]);
        assert(ws =~= seq![t]);
    } else {
        let w0 = ws.drop_last();
        assert forall|i: int| 0 <= i < w0.len() implies is_token(#[trigger] w0[i]) by {
            assert(w0[i] == ws[i]);
        }
        lemma_words_of_join(w0);
        lemma_join_shape(w0);
        let x = join_sp(w0);
        let y = seq![32u8].add(t);
        assert(join_sp(ws) =~= x.add(y));
        lemma_words_split(x, y, 0);
        lemma_words_shift(x, y, 0);
        lemma_skip_word_run(y, 1, y.len() as int);
        assert forall|i: int| 1 <= i < y.len() implies !is_ws(#[trigger] y[i]) by {
            assert(y[i] == t[i - 1]);
        }
        lemma_skip_word_run(y, 1, y.len() as int);
        assert(skip_ws(y, 1) == 1);
        assert(skip_ws(y, 0) == 1);
        assert(skip_ws(y, y.len() as int) == y.len());
        assert(y.subrange(1, y.len() as int) =~= t);
        assert(words_from(y, y.len() as int) =~= Seq::<Seq<u8>>::empty());
        assert(words_from(y, 0) =~= seq![t]);
        assert(ws =~= w0.push(t));
        assert(words(join_sp(ws)) =~= w0.add(seq![t]));
    }
}

proof fn lemma_dec_digits(n: nat)
    ensures
        dec_digits(n).len() > 0,
        forall|i: int| 0 <= i < dec_digits(n).len() ==> is_digit(#[trigger] dec_digits(n)[i]),
        digits_value(dec_digits(n)) == n,
    decreases n,
{
    if n < 10 {
        let d = dec_digits(n);
        assert(d.drop_last() =~= Seq::<u8>::empty());
        assert(digits_value(d.drop_last()) == 0);
    } else {
        lemma_dec_digits(n / 10);
        let d = dec_digits(n);
        let p = dec_digits(n / 10);
        assert(d == p.push(((n % 10) + 48) as u8));
        assert(d.drop_last() =~= p);
        assert(d.last() == ((n % 10) + 48) as u8);
        assert((n / 10) * 10 + n % 10 == n) by (nonlinear_arith);
        assert forall|i: int| 0 <= i < d.len() implies is_digit(#[trigger] d[i]) by {
            if i < p.len() {
                assert(d[i] == p[i]);
            }
        }
    }
}

proof fn lemma_decimal_of_digits(n: nat)
    ensures
        decimal(dec_digits(n)) == Some(n),
{
    lemma_dec_digits(n);
    let d = dec_digits(n);
    assert(is_digit(d[0]));
    assert(unsigned_part(d) == d);
}

proof fn lemma_response_start(m: ResponseModel)
    requires
        canonical_response(m),
    ensures
        ({
            let s0 = m.version.add(seq![32u8]).add(dec_digits(m.status_code as nat)).add(seq![32u8]).add(m.reason);
            &&& plain_line(s0)
            &&& words(s0) == seq![m.version, dec_digits(m.status_code as nat)].add(words(m.reason))
        }),
{
    let v = m.version;
    let d = dec_digits(m.status_code as nat);
    let r = m.reason;
    let s0 = v.add(seq![32u8]).add(d).add(seq![32u8]).add(r);
    lemma_dec_digits(m.status_code as nat);
    lemma_words_are_tokens(r, 0);
    lemma_join_shape(words(r));
    assert forall|i: int| 0 <= i < d.len() implies !is_ws(#[trigger] d[i]) by {
        assert(is_digit(d[i]));
    }
    let a = v.len() as int;
    let b = a + 1 + d.len();
    assert forall|i: int| 0 <= i < a implies !is_ws(#[trigger] s0[i]) by {
        assert(s0[i] == v[i]);
    }
    assert forall|i: int| a + 1 <= i < b implies !is_ws(#[trigger] s0[i]) by {
        assert(s0[i] == d[i - a - 1]);
    }
    lemma_skip_word_run(s0, 0, a);
    lemma_skip_word_run(s0, a + 1, b);
    assert(skip_ws(s0, 0) == 0);
    assert(s0[a] == 32u8 && s0[a + 1] == d[0]);
    assert(skip_ws(s0, a + 1) == a + 1);
    assert(skip_ws(s0, a) == a + 1);
    assert(s0[b] == 32u8);
    assert(skip_ws(s0, b) == skip_ws(s0, b + 1));
    let pre = v.add(seq![32u8]).add(d).add(seq![32u8]);
    assert(s0 =~= pre.add(r));
    lemma_words_shift(pre, r, 0);
    assert(words_from(s0, b) == words_from(s0, b + 1)) by {
        assert(s0[b] == 32u8);
    }
    assert(s0.subrange(0, a) =~= v);
    assert(s0.subrange(a + 1, b) =~= d);
    assert(words_from(s0, a) =~= seq![d].add(words(r)));
    assert(words_from(s0, 0) =~= seq![v, d].add(words(r)));
    assert forall|i: int| 0 <= i < s0.len() implies #[trigger] s0[i] != 10u8 by {
        if i < a {
            assert(!is_ws(s0[i]));
        } else if a < i < b {
            assert(!is_ws(s0[i]));
        } else if i > b {
            assert(s0[i] == r[i - b - 1]);
        }
    }
    assert(s0.last() == r.last());
}

/// A canonical response, written out and read back, is the same response
/// and occupies exactly the bytes written.
pub proof fn lemma_canonical_response_round_trip(m: ResponseModel)
    requires
        canonical_response(m),
    ensures
        parse_response_spec(response_bytes(m)) == Framing::Complete(m, response_bytes(m).len()),
{
    let d = dec_digits(m.status_code as nat);
    lemma_response_start(m);
    lemma_message_framing(m.version, d, m.reason, m.headers, m.body);
    lemma_decimal_of_digits(m.status_code as nat);
    let w = seq![m.version, d].add(words(m.reason));
    assert(w.subrange(2, w.len() as int) =~= words(m.reason));
    let t = response_bytes(m);
    lemma_find_blank_line_nonneg(t);
}

proof fn lemma_find_blank_line_nonneg(t: Seq<u8>)
    requires
        framing_of(t) is Complete,
    ensures
        find_blank_line(t, 0) >= 0,
{
}

/// Whatever the parser delivers as a response is canonical.
pub proof fn lemma_parsed_response_canonical(s: Seq<u8>)
    requires
        parse_response_spec(s) is Complete,
    ensures
        canonical_response(response_of(s)),
{
    let h = find_blank_line(s, 0);
    let head = s.subrange(0, h);
    let sl = crate::rtsp::start_line(head);
    lemma_words_are_tokens(sl, 0);
    let w = words(sl);
    let rw = w.subrange(2, w.len() as int);
    assert forall|i: int| 0 <= i < rw.len() implies is_token(#[trigger] rw[i]) by {
        assert(rw[i] == w[i + 2]);
    }
    lemma_words_of_join(rw);
    lemma_find_byte_bounds(head, 10u8, 0);
    lemma_headers_from_canonical(head, find_byte(head, 10u8, 0) + 1, seq![]);
}


/// A response read from a buffer, written out and read again, is the same
/// response: version, status code, reason, body and every header in order.
pub proof fn lemma_response_round_trip(s: Seq<u8>)
    requires
        parse_response_spec(s) is Complete,
    ensures
        parse_response_spec(response_bytes(response_of(s))) == Framing::Complete(
            response_of(s),
            response_bytes(response_of(s)).len(),
        ),
{
    lemma_parsed_response_canonical(s);
    lemma_canonical_response_round_trip(response_of(s));
}

} // verus!
