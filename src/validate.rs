use crate::decode::{
    decode_integer, order_violation, parse_entries, parse_items, parse_value,
    string_span, Parsed,
};
use crate::value::{bytes_lt, lt_from, DecodeError, ErrorKind, Tree, MAX_DEPTH};
use vstd::prelude::*;

verus! {

/// What `validate` returns on `b`: the error of decoding, where a list or
/// dictionary still open at the end of the buffer, and an `e` that closes
/// nothing, are `UnbalancedContainer`; or `TrailingData` at the end of the
/// value when bytes follow it.
pub open spec fn validate_result(b: Seq<u8>) -> Option<(ErrorKind, int)> {
    match parse_value(b, 0, 0, ErrorKind::UnbalancedContainer) {
        Parsed::Fail(k, o) => if k == ErrorKind::InvalidTag && 0 <= o < b.len() && b[o] == 101 {
            Some((ErrorKind::UnbalancedContainer, o))
        } else {
            Some((k, o))
        },
        Parsed::Done(_, n) => if n == b.len() {
            None
        } else {
            Some((ErrorKind::TrailingData, n))
        },
    }
}

/// The break of strict order between two neighbouring keys, if any.
pub open spec fn pair_violation(a: Seq<u8>, b: Seq<u8>) -> Option<ErrorKind> {
    if a == b {
        Some(ErrorKind::DuplicateKey)
    } else if !bytes_lt(a, b) {
        Some(ErrorKind::UnsortedKeys)
    } else {
        None
    }
}

proof fn lemma_order_push(acc: Seq<(Seq<u8>, Tree)>, x: (Seq<u8>, Tree), i: int)
    requires
        0 <= i < acc.len(),
    ensures
        order_violation(acc.push(x), i) == (if order_violation(acc, i) is Some {
            order_violation(acc, i)
        } else {
            pair_violation(acc.last().0, x.0)
        }),
    decreases acc.len() - i,
{
    let a2 = acc.push(x);
    assert(a2[i] == acc[i]);
    if i + 1 < acc.len() {
        assert(a2[i + 1] == acc[i + 1]);
        lemma_order_push(acc, x, i + 1);
    } else {
        assert(a2[i + 1] == x);
        assert(order_violation(a2, i + 1) is None);
    }
}

/// Whether `buf[a0..a1]` and `buf[b0..b1]` hold the same bytes.
fn range_equal(buf: &[u8], a0: usize, a1: usize, b0: usize, b1: usize) -> (r: bool)
    requires
        a0 <= a1 <= buf.len(),
        b0 <= b1 <= buf.len(),
    ensures
        r == (buf@.subrange(a0 as int, a1 as int) == buf@.subrange(b0 as int, b1 as int)),
{
    let ghost sa = buf@.subrange(a0 as int, a1 as int);
    let ghost sb = buf@.subrange(b0 as int, b1 as int);
    if a1 - a0 != b1 - b0 {
        assert(sa.len() != sb.len());
        return false;
    }
    let mut i: usize = 0;
    while i < a1 - a0
        invariant
            a0 <= a1 <= buf.len(),
            b0 <= b1 <= buf.len(),
            a1 - a0 == b1 - b0,
            0 <= i <= a1 - a0,
            sa == buf@.subrange(a0 as int, a1 as int),
            sb == buf@.subrange(b0 as int, b1 as int),
            forall|j: int| 0 <= j < i ==> sa[j] == sb[j],
        decreases a1 - a0 - i,
    {
        if buf[a0 + i] != buf[b0 + i] {
            assert(sa[i as int] != sb[i as int]);
            return false;
        }
        i = i + 1;
    }
    assert(sa =~= sb);
    true
}

/// Whether `buf[a0..a1]` comes strictly before `buf[b0..b1]` in byte-lexicographic order.
fn range_less(buf: &[u8], a0: usize, a1: usize, b0: usize, b1: usize) -> (r: bool)
    requires
        a0 <= a1 <= buf.len(),
        b0 <= b1 <= buf.len(),
    ensures
        r == bytes_lt(buf@.subrange(a0 as int, a1 as int), buf@.subrange(b0 as int, b1 as int)),
{
    let ghost sa = buf@.subrange(a0 as int, a1 as int);
    let ghost sb = buf@.subrange(b0 as int, b1 as int);
    let mut i: usize = 0;
    loop
        invariant
            a0 <= a1 <= buf.len(),
            b0 <= b1 <= buf.len(),
            0 <= i <= a1 - a0,
            i <= b1 - b0,
            sa == buf@.subrange(a0 as int, a1 as int),
            sb == buf@.subrange(b0 as int, b1 as int),
            bytes_lt(sa, sb) == lt_from(sa, sb, i as int),
        decreases a1 - a0 - i,
    {
        if i >= a1 - a0 {
            return i < b1 - b0;
        }
        if i >= b1 - b0 {
            return false;
        }
        let x = buf[a0 + i];
        let y = buf[b0 + i];
        assert(x == sa[i as int] && y == sb[i as int]);
        if x != y {
            return x < y;
        }
        i = i + 1;
    }
}

/// Steps over one value at `pos`, inside `depth` open containers, without
/// building it; returns the position after it. When the buffer ends while a
/// container is still open, the error is `open_end`.
pub(crate) fn skip_at(buf: &[u8], pos: usize, depth: usize, open_end: ErrorKind) -> (r: Result<
    usize,
    DecodeError,
>)
    requires
        pos <= buf.len(),
        depth <= MAX_DEPTH,
    ensures
        match r {
            Ok(n) => parse_value(buf@, pos as int, depth as nat, open_end) is Done && parse_value(
                buf@,
                pos as int,
                depth as nat,
open_end,
            )->Done_1 == n && pos < n <= buf.len(),
            Err(e) => parse_value(buf@, pos as int, depth as nat, open_end) == Parsed::Fail(
                e.kind,
                e.offset as int,
            ),
        },
    decreases buf.len() - pos,
{
    if pos >= buf.len() {
        let kind = if depth > 0 {
            open_end
        } else {
            ErrorKind::UnexpectedEnd
        };
        return Err(DecodeError { kind, offset: pos });
    }
    let c: u8 = buf[pos];
    if c >= 48 && c <= 57 {
        return match string_span(buf, pos) {
            Ok((_, n)) => Ok(n),
            Err(e) => Err(e),
        };
    }
    if c == 105 {
        return match decode_integer(buf, pos) {
            Ok((_, n)) => Ok(n),
            Err(e) => Err(e),
        };
    }
    if c != 108 && c != 100 {
        return Err(DecodeError { kind: ErrorKind::InvalidTag, offset: pos });
    }
    if depth >= MAX_DEPTH {
        return Err(DecodeError { kind: ErrorKind::NestingTooDeep, offset: pos });
    }
    let mut p: usize = pos + 1;
    if c == 108 {
        let ghost mut acc: Seq<Tree> = Seq::empty();
        loop
            invariant
                pos < p <= buf.len(),
                depth < MAX_DEPTH,
                parse_value(buf@, pos as int, depth as nat, open_end) == parse_items(
                    buf@,
                    p as int,
                    depth as nat + 1,
                    acc,
open_end,
                ),
            decreases buf.len() - p,
        {
            if p >= buf.len() {
                return Err(DecodeError { kind: open_end, offset: p });
            }
            if buf[p] == 101 {
                return Ok(p + 1);
            }
            match skip_at(buf, p, depth + 1, open_end) {
                Err(e) => {
                    return Err(e);
                },
                Ok(n) => {
                    proof {
                        acc = acc.push(parse_value(buf@, p as int, depth as nat + 1, open_end)->Done_0);
                    }
                    p = n;
                },
            }
        }
    } else {
        let ghost mut acc: Seq<(Seq<u8>, Tree)> = Seq::empty();
        let mut bad: Option<ErrorKind> = None;
        let mut prev: (usize, usize) = (0, 0);
        let mut have_prev: bool = false;
        loop
            invariant
                pos < p <= buf.len(),
                depth < MAX_DEPTH,
                parse_value(buf@, pos as int, depth as nat, open_end) == parse_entries(
                    buf@,
                    p as int,
                    depth as nat + 1,
                    acc,
open_end,
                ),
                bad == order_violation(acc, 0),
                have_prev == (acc.len() > 0),
                acc.len() > 0 ==> prev.0 <= prev.1 <= buf.len() && acc.last().0 == buf@.subrange(
                    prev.0 as int,
                    prev.1 as int,
                ),
            decreases buf.len() - p,
        {
            if p >= buf.len() {
                return Err(DecodeError { kind: open_end, offset: p });
            }
            if buf[p] == 101 {
                return match bad {
                    Some(k) => Err(DecodeError { kind: k, offset: p }),
                    None => Ok(p + 1),
                };
            }
            if !(buf[p] >= 48 && buf[p] <= 57) {
                return Err(DecodeError { kind: ErrorKind::InvalidDictKey, offset: p });
            }
            match string_span(buf, p) {
                Err(e) => {
                    return Err(e);
                },
                Ok((ks, kn)) => {
                    match skip_at(buf, kn, depth + 1, open_end) {
                        Err(e) => {
                            return Err(e);
                        },
                        Ok(vn) => {
                            let ghost x = (
                                buf@.subrange(ks as int, kn as int),
                                parse_value(buf@, kn as int, depth as nat + 1, open_end)->Done_0,
                            );
                            if have_prev && bad.is_none() {
                                if range_equal(buf, prev.0, prev.1, ks, kn) {
                                    bad = Some(ErrorKind::DuplicateKey);
                                } else if !range_less(buf, prev.0, prev.1, ks, kn) {
                                    bad = Some(ErrorKind::UnsortedKeys);
                                }
                            }
                            proof {
                                if acc.len() > 0 {
                                    lemma_order_push(acc, x, 0);
                                } else {
                                    assert(order_violation(acc.push(x), 0) is None);
                                }
                                acc = acc.push(x);
                            }
                            prev = (ks, kn);
                            have_prev = true;
                            p = vn;
                        },
                    }
                },
            }
        }
    }
}

/// Checks that `buf` is exactly one well-formed document, without building it.
pub fn validate(buf: &[u8]) -> (r: Result<(), DecodeError>)
    ensures
        match r {
            Ok(()) => validate_result(buf@) is None,
            Err(e) => validate_result(buf@) == Some((e.kind, e.offset as int)),
        },
{
    match skip_at(buf, 0, 0, ErrorKind::UnbalancedContainer) {
        Err(e) => if e.kind == ErrorKind::InvalidTag && e.offset < buf.len() && buf[e.offset] == 101 {
            Err(DecodeError { kind: ErrorKind::UnbalancedContainer, offset: e.offset })
        } else {
            Err(e)
        },
        Ok(n) => if n == buf.len() {
            Ok(())
        } else {
            Err(DecodeError { kind: ErrorKind::TrailingData, offset: n })
        },
    }
}

} // verus!
