use vstd::prelude::*;

verus! {

/// ASCII whitespace: space, tab, line feed, form feed, carriage return.
pub open spec fn is_ws(b: u8) -> bool {
    b == 32u8 || b == 9u8 || b == 10u8 || b == 12u8 || b == 13u8
}

/// ASCII lower-casing of one byte.
pub open spec fn lower(b: u8) -> u8 {
    if 65u8 <= b && b <= 90u8 {
        (b + 32) as u8
    } else {
        b
    }
}

/// Two names are equal when compared without regard to ASCII case.
pub open spec fn eq_ci(a: Seq<u8>, b: Seq<u8>) -> bool {
    a.len() == b.len() && forall|i: int| 0 <= i < a.len() ==> lower(#[trigger] a[i]) == lower(b[i])
}

/// First index at or after `pos` that holds byte `b`, or `s.len()` when there is none.
pub open spec fn find_byte(s: Seq<u8>, b: u8, pos: int) -> int
    decreases s.len() - pos,
{
    if pos < 0 || pos >= s.len() {
        s.len() as int
    } else if s[pos] == b {
        pos
    } else {
        find_byte(s, b, pos + 1)
    }
}

/// First index at or after `pos` that holds no whitespace, or `s.len()`.
pub open spec fn skip_ws(s: Seq<u8>, pos: int) -> int
    decreases s.len() - pos,
{
    if pos < 0 || pos >= s.len() {
        s.len() as int
    } else if !is_ws(s[pos]) {
        pos
    } else {
        skip_ws(s, pos + 1)
    }
}

/// First index at or after `pos` that holds whitespace, or `s.len()`.
pub open spec fn skip_word(s: Seq<u8>, pos: int) -> int
    decreases s.len() - pos,
{
    if pos < 0 || pos >= s.len() {
        s.len() as int
    } else if is_ws(s[pos]) {
        pos
    } else {
        skip_word(s, pos + 1)
    }
}

/// The end of `s[lo..hi]` once trailing whitespace is removed.
pub open spec fn rskip_ws(s: Seq<u8>, lo: int, hi: int) -> int
    decreases hi - lo,
{
    if hi <= lo {
        lo
    } else if is_ws(s[hi - 1]) {
        rskip_ws(s, lo, hi - 1)
    } else {
        hi
    }
}

/// `s` without leading and trailing whitespace.
pub open spec fn trim(s: Seq<u8>) -> Seq<u8> {
    let a = skip_ws(s, 0);
    s.subrange(a, rskip_ws(s, a, s.len() as int))
}

/// The whitespace-separated words of `s` from `pos` on.
pub open spec fn words_from(s: Seq<u8>, pos: int) -> Seq<Seq<u8>>
    decreases s.len() - pos,
{
    let a = skip_ws(s, pos);
    if pos < 0 || a >= s.len() {
        seq![]
    } else {
        let b = skip_word(s, a);
        if b <= pos || b > s.len() {
            seq![]
        } else {
            seq![s.subrange(a, b)].add(words_from(s, b))
        }
    }
}

pub open spec fn words(s: Seq<u8>) -> Seq<Seq<u8>> {
    words_from(s, 0)
}

/// Words joined with single spaces.
pub open spec fn join_sp(ws: Seq<Seq<u8>>) -> Seq<u8>
    decreases ws.len(),
{
    if ws.len() == 0 {
        seq![]
    } else if ws.len() == 1 {
        ws[0]
    } else {
        join_sp(ws.drop_last()).add(seq![32u8]).add(ws.last())
    }
}

pub open spec fn is_digit(b: u8) -> bool {
    48u8 <= b && b <= 57u8
}

/// Value of a run of decimal digits.
pub open spec fn digits_value(s: Seq<u8>) -> nat
    decreases s.len(),
{
    if s.len() == 0 {
        0
    } else {
        digits_value(s.drop_last()) * 10 + (s.last() - 48) as nat
    }
}

/// An unsigned decimal number: an optional `+`, then one or more digits.
pub open spec fn decimal(s: Seq<u8>) -> Option<nat> {
    let d = unsigned_part(s);
    if all_digits(d) {
        Some(digits_value(d))
    } else {
        None
    }
}

/// `s` without a leading `+`.
pub open spec fn unsigned_part(s: Seq<u8>) -> Seq<u8> {
    if s.len() > 0 && s[0] == 43u8 {
        s.subrange(1, s.len() as int)
    } else {
        s
    }
}

/// One or more decimal digits.
pub open spec fn all_digits(d: Seq<u8>) -> bool {
    d.len() > 0 && forall|i: int| 0 <= i < d.len() ==> is_digit(#[trigger] d[i])
}

/// The contents of each vector.
pub open spec fn views(v: Seq<Vec<u8>>) -> Seq<Seq<u8>> {
    v.map_values(|x: Vec<u8>| x@)
}

/// The decimal digits of `n`, without leading zeros.
pub open spec fn dec_digits(n: nat) -> Seq<u8>
    decreases n,
{
    if n < 10 {
        seq![(n + 48) as u8]
    } else {
        dec_digits(n / 10).push(((n % 10) + 48) as u8)
    }
}

/// Copies `s[lo..hi]`.
pub fn copy_range(s: &[u8], lo: usize, hi: usize) -> (r: Vec<u8>)
    requires
        lo <= hi <= s@.len(),
    ensures
        r@ == s@.subrange(lo as int, hi as int),
{
    let mut out: Vec<u8> = Vec::new();
    let mut i: usize = lo;
    while i < hi
        invariant
            lo <= i <= hi <= s@.len(),
            out@ == s@.subrange(lo as int, i as int),
        decreases hi - i,
    {
        out.push(s[i]);
        i += 1;
        assert(out@ == s@.subrange(lo as int, i as int));
    }
    out
}

/// Appends all of `src` to `dst`.
pub fn append_bytes(dst: &mut Vec<u8>, src: &[u8])
    ensures
        final(dst)@ == old(dst)@.add(src@),
{
    let mut i: usize = 0;
    while i < src.len()
        invariant
            i <= src@.len(),
            dst@ == old(dst)@.add(src@.subrange(0, i as int)),
        decreases src@.len() - i,
    {
        dst.push(src[i]);
        i += 1;
        assert(dst@ == old(dst)@.add(src@.subrange(0, i as int)));
    }
    assert(src@.subrange(0, src@.len() as int) == src@);
}

pub fn byte_is_ws(b: u8) -> (r: bool)
    ensures
        r == is_ws(b),
{
    b == 32u8 || b == 9u8 || b == 10u8 || b == 12u8 || b == 13u8
}

pub fn lower_byte(b: u8) -> (r: u8)
    ensures
        r == lower(b),
{
    if 65u8 <= b && b <= 90u8 {
        b + 32
    } else {
        b
    }
}

/// Compares two byte strings.
pub fn bytes_equal(a: &[u8], b: &[u8]) -> (r: bool)
    ensures
        r == (a@ == b@),
{
    if a.len() != b.len() {
        return false;
    }
    let mut i: usize = 0;
    while i < a.len()
        invariant
            a@.len() == b@.len(),
            i <= a@.len(),
            forall|j: int| 0 <= j < i ==> a@[j] == b@[j],
        decreases a@.len() - i,
    {
        if a[i] != b[i] {
            return false;
        }
        i += 1;
    }
    assert(a@ =~= b@);
    true
}

/// Compares two byte strings without regard to ASCII case.
pub fn bytes_eq_ci(a: &[u8], b: &[u8]) -> (r: bool)
    ensures
        r == eq_ci(a@, b@),
{
    if a.len() != b.len() {
        return false;
    }
    let mut i: usize = 0;
    while i < a.len()
        invariant
            a@.len() == b@.len(),
            i <= a@.len(),
            forall|j: int| 0 <= j < i ==> lower(#[trigger] a@[j]) == lower(b@[j]),
        decreases a@.len() - i,
    {
        if lower_byte(a[i]) != lower_byte(b[i]) {
            return false;
        }
        i += 1;
    }
    true
}

/// Index of the first `b` in `s` at or after `pos`, or `s.len()`.
pub fn find_byte_exec(s: &[u8], b: u8, pos: usize) -> (r: usize)
    requires
        pos <= s@.len(),
    ensures
        r as int == find_byte(s@, b, pos as int),
        pos <= r <= s@.len(),
{
    let mut i: usize = pos;
    while i < s.len()
        invariant
            pos <= i <= s@.len(),
            find_byte(s@, b, pos as int) == find_byte(s@, b, i as int),
        decreases s@.len() - i,
    {
        if s[i] == b {
            return i;
        }
        i += 1;
    }
    i
}

pub fn skip_ws_exec(s: &[u8], pos: usize) -> (r: usize)
    requires
        pos <= s@.len(),
    ensures
        r as int == skip_ws(s@, pos as int),
        pos <= r <= s@.len(),
        r < s@.len() ==> !is_ws(s@[r as int]),
{
    let mut i: usize = pos;
    while i < s.len()
        invariant
            pos <= i <= s@.len(),
            skip_ws(s@, pos as int) == skip_ws(s@, i as int),
        decreases s@.len() - i,
    {
        if !byte_is_ws(s[i]) {
            return i;
        }
        i += 1;
    }
    i
}

pub fn skip_word_exec(s: &[u8], pos: usize) -> (r: usize)
    requires
        pos <= s@.len(),
    ensures
        r as int == skip_word(s@, pos as int),
        pos <= r <= s@.len(),
        pos < s@.len() && !is_ws(s@[pos as int]) ==> r > pos,
{
    let mut i: usize = pos;
    while i < s.len()
        invariant
            pos <= i <= s@.len(),
            skip_word(s@, pos as int) == skip_word(s@, i as int),
        decreases s@.len() - i,
    {
        if byte_is_ws(s[i]) {
            return i;
        }
        i += 1;
    }
    i
}

/// `s` without leading and trailing whitespace.
pub fn trim_bytes(s: &[u8]) -> (r: Vec<u8>)
    ensures
        r@ == trim(s@),
{
    let a = skip_ws_exec(s, 0);
    let mut e: usize = s.len();
    while e > a && byte_is_ws(s[e - 1])
        invariant
            a <= e <= s@.len(),
            rskip_ws(s@, a as int, s@.len() as int) == rskip_ws(s@, a as int, e as int),
        decreases e,
    {
        e -= 1;
    }
    copy_range(s, a, e)
}

/// The whitespace-separated words of `s`.
pub fn split_words(s: &[u8]) -> (r: Vec<Vec<u8>>)
    ensures
        views(r@) == words(s@),
{
    let mut out: Vec<Vec<u8>> = Vec::new();
    let mut pos: usize = 0;
    loop
        invariant
            pos <= s@.len(),
            words(s@) == views(out@).add(words_from(s@, pos as int)),
        decreases s@.len() - pos,
    {
        let a = skip_ws_exec(s, pos);
        if a >= s.len() {
            assert(views(out@).add(seq![]) =~= views(out@));
            return out;
        }
        let b = skip_word_exec(s, a);
        let w = copy_range(s, a, b);
        let ghost before = views(out@);
        out.push(w);
        proof {
            assert(views(out@) =~= before.push(s@.subrange(a as int, b as int)));
            assert(before.add(words_from(s@, pos as int)) =~= views(out@).add(words_from(s@, b as int)));
        }
        pos = b;
    }
}

/// Joins words with single spaces.
pub fn join_words(ws: &Vec<Vec<u8>>, from: usize) -> (r: Vec<u8>)
    requires
        from <= ws@.len(),
    ensures
        r@ == join_sp(views(ws@).subrange(from as int, ws@.len() as int)),
{
    let mut out: Vec<u8> = Vec::new();
    let mut i: usize = from;
    while i < ws.len()
        invariant
            from <= i <= ws@.len(),
            out@ == join_sp(views(ws@).subrange(from as int, i as int)),
        decreases ws@.len() - i,
    {
        let ghost prev = views(ws@).subrange(from as int, i as int);
        if i > from {
            out.push(32u8);
        }
        append_bytes(&mut out, ws[i].as_slice());
        i += 1;
        proof {
            let cur = views(ws@).subrange(from as int, i as int);
            assert(cur.drop_last() =~= prev);
            assert(cur.last() == ws@[i - 1]@);
            if i - 1 == from {
                assert(prev.len() == 0);
                assert(out@ =~= cur[0]);
            }
        }
    }
    out
}

/// Reads an unsigned decimal number, `None` when it is malformed or exceeds `max`.
pub fn parse_decimal(s: &[u8], max: usize) -> (r: Option<usize>)
    ensures
        r == (match decimal(s@) {
            Some(n) => if n <= max { Some(n as usize) } else { None::<usize> },
            None => None::<usize>,
        }),
{
    let start: usize = if s.len() > 0 && s[0] == 43u8 { 1 } else { 0 };
    let ghost d = s@.subrange(start as int, s@.len() as int);
    proof {
        if start == 0 {
            assert(d =~= s@);
        }
        assert(unsigned_part(s@) =~= d);
    }
    if start >= s.len() {
        assert(!all_digits(d));
        return None;
    }
    let mut acc: usize = 0;
    let mut i: usize = start;
    while i < s.len()
        invariant
            start < s@.len(),
            start <= i <= s@.len(),
            d == s@.subrange(start as int, s@.len() as int),
            unsigned_part(s@) == d,
            forall|j: int| start <= j < i ==> is_digit(#[trigger] s@[j]),
            acc as nat == digits_value(s@.subrange(start as int, i as int)),
            acc <= max,
        decreases s@.len() - i,
    {
        let b = s[i];
        if !(48u8 <= b && b <= 57u8) {
            proof {
                assert(unsigned_part(s@) == d);
                assert(!is_digit(d[i - start]));
                assert(!all_digits(d));
            }
            return None;
        }
        let dv: usize = (b - 48u8) as usize;
        let ghost pre = s@.subrange(start as int, i as int);
        proof {
            let nxt = s@.subrange(start as int, i + 1);
            assert(nxt.drop_last() =~= pre);
            assert(digits_value(nxt) == digits_value(pre) * 10 + dv as nat);
        }
        if dv > max || acc > (max - dv) / 10 {
            // Every longer run of digits only grows.
            proof {
                if dv <= max {
                    assert(acc * 10 + dv > max) by (nonlinear_arith)
                        requires acc > (max - dv) / 10, dv <= max;
                }
                lemma_digits_grow(s@, start as int, i + 1);
                assert(unsigned_part(s@) == d);
                if decimal(s@) is Some {
                    assert forall|j: int| start <= j < s@.len() implies is_digit(#[trigger] s@[j]) by {
                        assert(s@[j] == d[j - start]);
                    }
                }
            }
            return None;
        }
        proof {
            assert(acc * 10 + dv <= max) by (nonlinear_arith)
                requires acc <= (max - dv) / 10, dv <= max;
        }
        acc = acc * 10 + dv;
        i += 1;
    }
    proof {
        assert(unsigned_part(s@) == d);
        assert(d =~= s@.subrange(start as int, i as int));
        assert(forall|j: int| 0 <= j < d.len() ==> is_digit(#[trigger] d[j])) by {
            assert forall|j: int| 0 <= j < d.len() implies is_digit(#[trigger] d[j]) by {
                assert(d[j] == s@[start + j]);
            }
        }
    }
    Some(acc)
}

/// The value of a digit run never decreases as the run grows.
proof fn lemma_digits_grow(s: Seq<u8>, lo: int, k: int)
    requires
        0 <= lo <= k <= s.len(),
    ensures
        forall|m: int|
            k <= m <= s.len() && (forall|j: int| lo <= j < m ==> is_digit(#[trigger] s[j]))
                ==> digits_value(s.subrange(lo, m)) >= digits_value(s.subrange(lo, k)),
    decreases s.len() - k,
{
    if k < s.len() {
        lemma_digits_grow(s, lo, k + 1);
        let a = s.subrange(lo, k);
        let b = s.subrange(lo, k + 1);
        assert(b.drop_last() =~= a);
        assert(digits_value(b) >= digits_value(a)) by (nonlinear_arith)
            requires digits_value(b) == digits_value(a) * 10 + (b.last() - 48) as nat;
    }
}

} // verus!
