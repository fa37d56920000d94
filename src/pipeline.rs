use vstd::prelude::*;

use crate::rtsp::{
    blank_line_at, find_blank_line, framing_of, parse_request_spec, parse_response_spec, request_of,
    response_of, Framing, RequestModel, ResponseModel,
};

verus! {

/// `s` holds exactly one request, with nothing after it.
pub open spec fn is_whole_request(s: Seq<u8>) -> bool {
    match parse_request_spec(s) {
        Framing::Complete(_, n) => n == s.len(),
        _ => false,
    }
}

/// `s` holds exactly one response, with nothing after it.
pub open spec fn is_whole_response(s: Seq<u8>) -> bool {
    match parse_response_spec(s) {
        Framing::Complete(_, n) => n == s.len(),
        _ => false,
    }
}


/// The buffers one after another.
pub open spec fn concat(msgs: Seq<Seq<u8>>) -> Seq<u8>
    decreases msgs.len(),
{
    if msgs.len() == 0 {
        seq![]
    } else {
        msgs[0].add(concat(msgs.drop_first()))
    }
}

/// Reads `k` requests one after another from the start of `s`, each from
/// where the previous one ended: the requests, and the bytes consumed in all.
pub open spec fn read_requests(s: Seq<u8>, k: nat) -> Option<(Seq<RequestModel>, nat)>
    decreases k,
{
    if k == 0 {
        Some((seq![], 0))
    } else {
        match parse_request_spec(s) {
            Framing::Complete(m, n) => if 0 < n <= s.len() {
                match read_requests(s.subrange(n as int, s.len() as int), (k - 1) as nat) {
                    Some((ms, t)) => Some((seq![m].add(ms), n + t)),
                    None => None,
                }
            } else {
                None
            },
            _ => None,
        }
    }
}

proof fn lemma_find_blank_line_range(s: Seq<u8>, pos: int)
    requires
        0 <= pos,
    ensures
        find_blank_line(s, pos) == -1 || (pos <= find_blank_line(s, pos) && find_blank_line(s, pos)
            + 4 <= s.len()),
    decreases s.len() - pos,
{
    if pos + 4 <= s.len() && !blank_line_at(s, pos) {
        lemma_find_blank_line_range(s, pos + 1);
    }
}

/// Where a buffer ends its head, a longer buffer that starts with it ends
/// its head too; where the blank line is cut off, the shorter buffer has none.
proof fn lemma_blank_line_in_prefix(s: Seq<u8>, p: Seq<u8>, pos: int)
    requires
        0 <= pos,
        p.len() <= s.len(),
        forall|i: int| 0 <= i < p.len() ==> p[i] == s[i],
    ensures
        ({
            let h = find_blank_line(s, pos);
            if h >= 0 && h + 4 <= p.len() {
                find_blank_line(p, pos) == h
            } else {
                find_blank_line(p, pos) == -1
            }
        }),
    decreases s.len() - pos,
{
    lemma_find_blank_line_range(s, pos);
    if pos + 4 <= p.len() {
        assert(p[pos] == s[pos] && p[pos + 1] == s[pos + 1] && p[pos + 2] == s[pos + 2] && p[pos
            + 3] == s[pos + 3]);
        if !blank_line_at(s, pos) {
            lemma_blank_line_in_prefix(s, p, pos + 1);
        }
    }
}

/// A buffer whose first blank line lies within `p` frames as `p` does when
/// `p` frames a whole message; shorter than its message, `p` is incomplete.
proof fn lemma_framing_prefix(s: Seq<u8>, p: Seq<u8>)
    requires
        p.len() <= s.len(),
        forall|i: int| 0 <= i < p.len() ==> p[i] == s[i],
        find_blank_line(s, 0) >= 0,
        find_blank_line(s, 0) + 4 <= p.len(),
    ensures
        find_blank_line(p, 0) == find_blank_line(s, 0),
        p.subrange(0, find_blank_line(s, 0)) == s.subrange(0, find_blank_line(s, 0)),
        match framing_of(s) {
            Framing::Complete(x, n) => if n <= p.len() {
                framing_of(p) == Framing::Complete(x, n)
            } else {
                framing_of(p) is Incomplete
            },
            other => framing_of(p) == other,
        },
{
    lemma_blank_line_in_prefix(s, p, 0);
    let h = find_blank_line(s, 0);
    assert(p.subrange(0, h) =~= s.subrange(0, h));
    match framing_of(s) {
        Framing::Complete(x, n) => {
            if n <= p.len() {
                assert(p.subrange(h + 4, n as int) =~= s.subrange(h + 4, n as int));
            }
        },
        _ => {},
    }
}

/// Every strict prefix of a whole request is incomplete: the parser waits
/// for more bytes and consumes nothing.
pub proof fn lemma_request_prefix_incomplete(s: Seq<u8>, k: int)
    requires
        is_whole_request(s),
        0 <= k < s.len(),
    ensures
        parse_request_spec(s.subrange(0, k)) is Incomplete,
{
    let p = s.subrange(0, k);
    lemma_blank_line_in_prefix(s, p, 0);
    let h = find_blank_line(s, 0);
    if h >= 0 && h + 4 <= k {
        lemma_framing_prefix(s, p);
    }
}

/// Every strict prefix of a whole response is incomplete: the parser waits
/// for more bytes and consumes nothing.
pub proof fn lemma_response_prefix_incomplete(s: Seq<u8>, k: int)
    requires
        is_whole_response(s),
        0 <= k < s.len(),
    ensures
        parse_response_spec(s.subrange(0, k)) is Incomplete,
{
    let p = s.subrange(0, k);
    lemma_blank_line_in_prefix(s, p, 0);
    let h = find_blank_line(s, 0);
    if h >= 0 && h + 4 <= k {
        lemma_framing_prefix(s, p);
    }
}

/// A whole request followed by any bytes reads as that request alone,
/// consuming exactly its own length.
pub proof fn lemma_request_then_more(a: Seq<u8>, rest: Seq<u8>)
    requires
        is_whole_request(a),
    ensures
        parse_request_spec(a.add(rest)) == parse_request_spec(a),
{
    let s = a.add(rest);
    lemma_blank_line_in_prefix(s, a, 0);
    lemma_find_blank_line_range(s, 0);
    lemma_framing_prefix(s, a);
}

/// A whole response followed by any bytes reads as that response alone,
/// consuming exactly its own length.
pub proof fn lemma_response_then_more(a: Seq<u8>, rest: Seq<u8>)
    requires
        is_whole_response(a),
    ensures
        parse_response_spec(a.add(rest)) == parse_response_spec(a),
{
    let s = a.add(rest);
    lemma_blank_line_in_prefix(s, a, 0);
    lemma_find_blank_line_range(s, 0);
    lemma_framing_prefix(s, a);
}

/// Reading repeatedly from k whole requests laid end to end yields exactly
/// those k requests, in order, and consumes every byte.
pub proof fn lemma_pipelined_requests(msgs: Seq<Seq<u8>>)
    requires
        forall|i: int| 0 <= i < msgs.len() ==> is_whole_request(#[trigger] msgs[i]),
    ensures
        match read_requests(concat(msgs), msgs.len()) {
            Some((ms, t)) => {
                &&& t == concat(msgs).len()
                &&& ms.len() == msgs.len()
                &&& forall|i: int| 0 <= i < msgs.len() ==> #[trigger] ms[i] == request_of(msgs[i])
            },
            None => false,
        },
    decreases msgs.len(),
{
    if msgs.len() > 0 {
        let tail = msgs.drop_first();
        assert forall|i: int| 0 <= i < tail.len() implies is_whole_request(#[trigger] tail[i]) by {
            assert(tail[i] == msgs[i + 1]);
        }
        lemma_pipelined_requests(tail);
        let a = msgs[0];
        let s = concat(msgs);
        assert(is_whole_request(msgs[0]));
        lemma_request_then_more(a, concat(tail));
        assert(s.subrange(a.len() as int, s.len() as int) =~= concat(tail));
        let (ms, t) = read_requests(concat(tail), tail.len())->0;
        let all = seq![request_of(a)].add(ms);
        assert(read_requests(s, msgs.len()) == Some((all, a.len() + t)));
        assert forall|i: int| 0 <= i < msgs.len() implies #[trigger] all[i] == request_of(msgs[i]) by {
            if i > 0 {
                assert(tail[i - 1] == msgs[i]);
            }
        }
    }
}

/// Reads `k` responses one after another from the start of `s`, each from
/// where the previous one ended: the responses, and the bytes consumed in all.
pub open spec fn read_responses(s: Seq<u8>, k: nat) -> Option<(Seq<ResponseModel>, nat)>
    decreases k,
{
    if k == 0 {
        Some((seq![], 0))
    } else {
        match parse_response_spec(s) {
            Framing::Complete(m, n) => if 0 < n <= s.len() {
                match read_responses(s.subrange(n as int, s.len() as int), (k - 1) as nat) {
                    Some((ms, t)) => Some((seq![m].add(ms), n + t)),
                    None => None,
                }
            } else {
                None
            },
            _ => None,
        }
    }
}

/// Reading repeatedly from k whole responses laid end to end yields exactly
/// those k responses, in order, and consumes every byte.
pub proof fn lemma_pipelined_responses(msgs: Seq<Seq<u8>>)
    requires
        forall|i: int| 0 <= i < msgs.len() ==> is_whole_response(#[trigger] msgs[i]),
    ensures
        match read_responses(concat(msgs), msgs.len()) {
            Some((ms, t)) => {
                &&& t == concat(msgs).len()
                &&& ms.len() == msgs.len()
                &&& forall|i: int| 0 <= i < msgs.len() ==> #[trigger] ms[i] == response_of(msgs[i])
            },
            None => false,
        },
    decreases msgs.len(),
{
    if msgs.len() > 0 {
        let tail = msgs.drop_first();
        assert forall|i: int| 0 <= i < tail.len() implies is_whole_response(#[trigger] tail[i]) by {
            assert(tail[i] == msgs[i + 1]);
        }
        lemma_pipelined_responses(tail);
        let a = msgs[0];
        let s = concat(msgs);
        assert(is_whole_response(msgs[0]));
        lemma_response_then_more(a, concat(tail));
        assert(s.subrange(a.len() as int, s.len() as int) =~= concat(tail));
        let (ms, t) = read_responses(concat(tail), tail.len())->0;
        let all = seq![response_of(a)].add(ms);
        assert(read_responses(s, msgs.len()) == Some((all, a.len() + t)));
        assert forall|i: int| 0 <= i < msgs.len() implies #[trigger] all[i] == response_of(msgs[i]) by {
            if i > 0 {
                assert(tail[i - 1] == msgs[i]);
            }
        }
    }
}

} // verus!
