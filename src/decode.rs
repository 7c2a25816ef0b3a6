use crate::encode::encode_tree;
use crate::laws::lemma_decode_canonical;
use crate::value::{
    bytes_lt, depth, fits_i64, lt_from, tree_wf, DecodeError, ErrorKind, Tree, Value, MAX_DEPTH,
};
use vstd::prelude::*;

verus! {

/// The outcome of reading one value at a position of a buffer: the tree and
/// the position just after it, or an error kind and the offset of the error.
pub enum Parsed {
    Done(Tree, int),
    Fail(ErrorKind, int),
}

pub open spec fn is_digit(c: u8) -> bool {
    48 <= c <= 57
}

/// The first position at or after `i` that does not hold a decimal digit.
pub open spec fn digits_end(b: Seq<u8>, i: int) -> int
    decreases b.len() - i,
{
    if 0 <= i < b.len() && is_digit(b[i]) {
        digits_end(b, i + 1)
    } else {
        i
    }
}

/// The number written in decimal by `b[from..to]`.
pub open spec fn digits_value(b: Seq<u8>, from: int, to: int) -> nat
    decreases to - from,
{
    if to <= from {
        0
    } else {
        10 * digits_value(b, from, to - 1) + (b[to - 1] - 48) as nat
    }
}

/// Reads `<len>:<bytes>` at `pos`, where `b[pos]` is a digit.
pub open spec fn parse_string(b: Seq<u8>, pos: int) -> Parsed {
    let e = digits_end(b, pos);
    if b[pos] == 48 && e > pos + 1 {
        Parsed::Fail(ErrorKind::InvalidLength, pos)
    } else if e >= b.len() {
        Parsed::Fail(ErrorKind::UnexpectedEnd, e)
    } else if b[e] != 58 {
        Parsed::Fail(ErrorKind::MissingDelimiter, e)
    } else {
        let n = digits_value(b, pos, e);
        if e + 1 + n > b.len() {
            Parsed::Fail(ErrorKind::UnexpectedEnd, e + 1)
        } else {
            Parsed::Done(Tree::Bytes(b.subrange(e + 1, e + 1 + n)), e + 1 + n)
        }
    }
}

/// Reads `i<decimal>e` at `pos`, where `b[pos]` is `i`.
pub open spec fn parse_integer(b: Seq<u8>, pos: int) -> Parsed {
    let s = pos + 1;
    let neg = s < b.len() && b[s] == 45;
    let d = if neg { s + 1 } else { s };
    let e = digits_end(b, d);
    if e == d {
        if d >= b.len() {
            Parsed::Fail(ErrorKind::UnexpectedEnd, d)
        } else {
            Parsed::Fail(ErrorKind::InvalidInteger, d)
        }
    } else if b[d] == 48 && (e > d + 1 || neg) {
        Parsed::Fail(ErrorKind::InvalidInteger, d)
    } else if e >= b.len() {
        Parsed::Fail(ErrorKind::UnexpectedEnd, e)
    } else if b[e] != 101 {
        Parsed::Fail(ErrorKind::MissingDelimiter, e)
    } else {
        let m = digits_value(b, d, e) as int;
        let v = if neg { -m } else { m };
        if !fits_i64(v) {
            Parsed::Fail(ErrorKind::IntegerOverflow, d)
        } else {
            Parsed::Done(Tree::Integer(v), e + 1)
        }
    }
}

/// Reads one value at `pos`, inside `depth` open containers. When the buffer
/// ends while a container is still open, the error is `open_end`.
pub open spec fn parse_value(b: Seq<u8>, pos: int, depth: nat, open_end: ErrorKind) -> Parsed
    decreases b.len() - pos, 0int,
{
    if pos < 0 || pos >= b.len() {
        Parsed::Fail(if depth > 0 { open_end } else { ErrorKind::UnexpectedEnd }, pos)
    } else if is_digit(b[pos]) {
        parse_string(b, pos)
    } else if b[pos] == 105 {
        parse_integer(b, pos)
    } else if b[pos] == 108 || b[pos] == 100 {
        if depth >= MAX_DEPTH {
            Parsed::Fail(ErrorKind::NestingTooDeep, pos)
        } else if b[pos] == 108 {
            parse_items(b, pos + 1, depth + 1, Seq::empty(), open_end)
        } else {
            parse_entries(b, pos + 1, depth + 1, Seq::empty(), open_end)
        }
    } else {
        Parsed::Fail(ErrorKind::InvalidTag, pos)
    }
}

/// Reads the rest of a list from `pos`, after the items `acc`.
pub open spec fn parse_items(
    b: Seq<u8>,
    pos: int,
    depth: nat,
    acc: Seq<Tree>,
    open_end: ErrorKind,
) -> Parsed
    decreases b.len() - pos, 1int,
{
    if pos < 0 || pos >= b.len() {
        Parsed::Fail(open_end, pos)
    } else if b[pos] == 101 {
        Parsed::Done(Tree::List(acc), pos + 1)
    } else {
        match parse_value(b, pos, depth, open_end) {
            Parsed::Done(t, n) => if pos < n <= b.len() {
                parse_items(b, n, depth, acc.push(t), open_end)
            } else {
                Parsed::Fail(ErrorKind::UnexpectedEnd, pos)
            },
            Parsed::Fail(k, o) => Parsed::Fail(k, o),
        }
    }
}

/// The first break of strict key order in `d` from entry `i` on.
pub open spec fn order_violation(d: Seq<(Seq<u8>, Tree)>, i: int) -> Option<ErrorKind>
    decreases d.len() - i,
{
    if i < 0 || i + 1 >= d.len() {
        None
    } else if d[i].0 == d[i + 1].0 {
        Some(ErrorKind::DuplicateKey)
    } else if !bytes_lt(d[i].0, d[i + 1].0) {
        Some(ErrorKind::UnsortedKeys)
    } else {
        order_violation(d, i + 1)
    }
}

/// Reads the rest of a dictionary from `pos`, after the entries `acc`.
pub open spec fn parse_entries(
    b: Seq<u8>,
    pos: int,
    depth: nat,
    acc: Seq<(Seq<u8>, Tree)>,
    open_end: ErrorKind,
) -> Parsed
    decreases b.len() - pos, 1int,
{
    if pos < 0 || pos >= b.len() {
        Parsed::Fail(open_end, pos)
    } else if b[pos] == 101 {
        match order_violation(acc, 0) {
            Some(k) => Parsed::Fail(k, pos),
            None => Parsed::Done(Tree::Dict(acc), pos + 1),
        }
    } else if !is_digit(b[pos]) {
        Parsed::Fail(ErrorKind::InvalidDictKey, pos)
    } else {
        match parse_string(b, pos) {
            Parsed::Done(key, kn) => if pos < kn <= b.len() {
                match parse_value(b, kn, depth, open_end) {
                    Parsed::Done(t, vn) => if kn < vn <= b.len() {
                        parse_entries(b, vn, depth, acc.push((key->Bytes_0, t)), open_end)
                    } else {
                        Parsed::Fail(ErrorKind::UnexpectedEnd, pos)
                    },
                    Parsed::Fail(k, o) => Parsed::Fail(k, o),
                }
            } else {
                Parsed::Fail(ErrorKind::UnexpectedEnd, pos)
            },
            Parsed::Fail(k, o) => Parsed::Fail(k, o),
        }
    }
}

/// The outcome of decoding `b` from its first byte, outside any container.
pub open spec fn decode_result(b: Seq<u8>) -> Parsed {
    parse_value(b, 0, 0, ErrorKind::UnexpectedEnd)
}

/// Whether `r` is the result that the outcome `p` describes.
pub open spec fn matches_parsed(r: Result<(Value, usize), DecodeError>, p: Parsed) -> bool {
    match r {
        Ok((v, n)) => p == Parsed::Done(v@, n as int),
        Err(e) => p == Parsed::Fail(e.kind, e.offset as int),
    }
}

/// Scans the decimal digits from `from` on. The number they write is returned
/// exactly when it is at most `cap`, and as `cap + 1` otherwise.
fn read_number(buf: &[u8], from: usize, cap: u128) -> (r: (usize, u128))
    requires
        from <= buf.len(),
        cap <= u64::MAX,
    ensures
        r.0 == digits_end(buf@, from as int),
        from <= r.0 <= buf.len(),
        digits_value(buf@, from as int, r.0 as int) <= cap ==> r.1 == digits_value(
            buf@,
            from as int,
            r.0 as int,
        ),
        digits_value(buf@, from as int, r.0 as int) > cap ==> r.1 == cap + 1,
{
    let mut i: usize = from;
    let mut acc: u128 = 0;
    while i < buf.len() && buf[i] >= 48 && buf[i] <= 57
        invariant
            from <= i <= buf.len(),
            cap <= u64::MAX,
            acc <= cap + 1,
            digits_end(buf@, from as int) == digits_end(buf@, i as int),
            digits_value(buf@, from as int, i as int) <= cap ==> acc == digits_value(
                buf@,
                from as int,
                i as int,
            ),
            digits_value(buf@, from as int, i as int) > cap ==> acc == cap + 1,
        decreases buf.len() - i,
    {
        let d: u128 = (buf[i] - 48) as u128;
        assert(digits_value(buf@, from as int, i + 1) == 10 * digits_value(buf@, from as int, i as int)
            + d);
        if acc <= cap {
            let next: u128 = acc * 10 + d;
            acc = if next > cap {
                cap + 1
            } else {
                next
            };
        }
        i = i + 1;
    }
    (i, acc)
}

/// Finds the body of the string `<len>:<bytes>` at `pos`, as the positions
/// where it starts and ends.
pub(crate) fn string_span(buf: &[u8], pos: usize) -> (r: Result<(usize, usize), DecodeError>)
    requires
        pos < buf.len(),
        is_digit(buf@[pos as int]),
    ensures
        match r {
            Ok((a, n)) => parse_string(buf@, pos as int) == Parsed::Done(
                Tree::Bytes(buf@.subrange(a as int, n as int)),
                n as int,
            ) && pos < a <= n <= buf.len(),
            Err(e) => parse_string(buf@, pos as int) == Parsed::Fail(e.kind, e.offset as int),
        },
{
    let (e, n) = read_number(buf, pos, buf.len() as u128);
    if buf[pos] == 48 && e > pos + 1 {
        return Err(DecodeError { kind: ErrorKind::InvalidLength, offset: pos });
    }
    if e >= buf.len() {
        return Err(DecodeError { kind: ErrorKind::UnexpectedEnd, offset: e });
    }
    if buf[e] != 58 {
        return Err(DecodeError { kind: ErrorKind::MissingDelimiter, offset: e });
    }
    if (e + 1) as u128 + n > buf.len() as u128 {
        return Err(DecodeError { kind: ErrorKind::UnexpectedEnd, offset: e + 1 });
    }
    Ok((e + 1, e + 1 + n as usize))
}

/// Reads `<len>:<bytes>` at `pos`.
fn decode_string(buf: &[u8], pos: usize) -> (r: Result<(Vec<u8>, usize), DecodeError>)
    requires
        pos < buf.len(),
        is_digit(buf@[pos as int]),
    ensures
        match r {
            Ok((s, n)) => parse_string(buf@, pos as int) == Parsed::Done(Tree::Bytes(s@), n as int)
                && pos < n <= buf.len(),
            Err(e) => parse_string(buf@, pos as int) == Parsed::Fail(e.kind, e.offset as int),
        },
{
    let (start, end) = match string_span(buf, pos) {
        Ok(span) => span,
        Err(e) => {
            return Err(e);
        },
    };
    let mut out: Vec<u8> = Vec::new();
    let mut i: usize = start;
    while i < end
        invariant
            start <= i <= end <= buf.len(),
            out@ == buf@.subrange(start as int, i as int),
        decreases end - i,
    {
        out.push(buf[i]);
        assert(buf@.subrange(start as int, i + 1) =~= buf@.subrange(start as int, i as int).push(
            buf@[i as int],
        ));
        i = i + 1;
    }
    Ok((out, end))
}

/// Reads `i<decimal>e` at `pos`.
pub(crate) fn decode_integer(buf: &[u8], pos: usize) -> (r: Result<(i64, usize), DecodeError>)
    requires
        pos < buf.len(),
        buf@[pos as int] == 105,
    ensures
        match r {
            Ok((v, n)) => parse_integer(buf@, pos as int) == Parsed::Done(
                Tree::Integer(v as int),
                n as int,
            ) && pos < n <= buf.len(),
            Err(e) => parse_integer(buf@, pos as int) == Parsed::Fail(e.kind, e.offset as int),
        },
{
    let s: usize = pos + 1;
    let neg: bool = s < buf.len() && buf[s] == 45;
    let d: usize = if neg {
        s + 1
    } else {
        s
    };
    let (e, m) = read_number(buf, d, 9223372036854775808u128);
    if e == d {
        if d >= buf.len() {
            return Err(DecodeError { kind: ErrorKind::UnexpectedEnd, offset: d });
        }
        return Err(DecodeError { kind: ErrorKind::InvalidInteger, offset: d });
    }
    if buf[d] == 48 && (e > d + 1 || neg) {
        return Err(DecodeError { kind: ErrorKind::InvalidInteger, offset: d });
    }
    if e >= buf.len() {
        return Err(DecodeError { kind: ErrorKind::UnexpectedEnd, offset: e });
    }
    if buf[e] != 101 {
        return Err(DecodeError { kind: ErrorKind::MissingDelimiter, offset: e });
    }
    if neg {
        if m > 9223372036854775808u128 {
            return Err(DecodeError { kind: ErrorKind::IntegerOverflow, offset: d });
        }
        let v: i64 = if m == 9223372036854775808u128 {
            i64::MIN
        } else {
            -(m as i64)
        };
        Ok((v, e + 1))
    } else {
        if m > 9223372036854775807u128 {
            return Err(DecodeError { kind: ErrorKind::IntegerOverflow, offset: d });
        }
        Ok((m as i64, e + 1))
    }
}

/// Whether two byte strings are equal.
fn bytes_equal(a: &Vec<u8>, b: &Vec<u8>) -> (r: bool)
    ensures
        r == (a@ == b@),
{
    if a.len() != b.len() {
        return false;
    }
    let mut i: usize = 0;
    while i < a.len()
        invariant
            0 <= i <= a.len() == b.len(),
            forall|j: int| 0 <= j < i ==> a@[j] == b@[j],
        decreases a.len() - i,
    {
        if a[i] != b[i] {
            return false;
        }
        i = i + 1;
    }
    assert(a@ =~= b@);
    true
}

/// Whether `a` comes strictly before `b` in byte-lexicographic order.
fn bytes_less(a: &Vec<u8>, b: &Vec<u8>) -> (r: bool)
    ensures
        r == bytes_lt(a@, b@),
{
    let mut i: usize = 0;
    loop
        invariant
            0 <= i <= a.len(),
            i <= b.len(),
            bytes_lt(a@, b@) == lt_from(a@, b@, i as int),
        decreases a.len() - i,
    {
        if i >= a.len() {
            return i < b.len();
        }
        if i >= b.len() {
            return false;
        }
        if a[i] != b[i] {
            return a[i] < b[i];
        }
        i = i + 1;
    }
}

/// The first break of strict key order among `entries`, whose keys are those of `acc`.
fn check_order(entries: &Vec<(Vec<u8>, Value)>, Ghost(acc): Ghost<Seq<(Seq<u8>, Tree)>>) -> (r:
    Option<ErrorKind>)
    requires
        acc.len() == entries.len(),
        forall|j: int| 0 <= j < acc.len() ==> #[trigger] acc[j].0 == entries[j].0@,
    ensures
        r == order_violation(acc, 0),
{
    if entries.len() == 0 {
        return None;
    }
    let mut i: usize = 0;
    while i < entries.len() - 1
        invariant
            0 <= i < entries.len(),
            acc.len() == entries.len(),
            forall|j: int| 0 <= j < acc.len() ==> #[trigger] acc[j].0 == entries[j].0@,
            order_violation(acc, 0) == order_violation(acc, i as int),
        decreases entries.len() - i,
    {
        if bytes_equal(&entries[i].0, &entries[i + 1].0) {
            return Some(ErrorKind::DuplicateKey);
        }
        if !bytes_less(&entries[i].0, &entries[i + 1].0) {
            return Some(ErrorKind::UnsortedKeys);
        }
        i = i + 1;
    }
    None
}

/// Reads one value at `pos`, inside `depth` open containers.
fn decode_at(buf: &[u8], pos: usize, depth: usize) -> (r: Result<(Value, usize), DecodeError>)
    requires
        pos <= buf.len(),
        depth <= MAX_DEPTH,
    ensures
        matches_parsed(r, parse_value(buf@, pos as int, depth as nat, ErrorKind::UnexpectedEnd)),
        r is Ok ==> pos < r->Ok_0.1 <= buf.len(),
    decreases buf.len() - pos,
{
    if pos >= buf.len() {
        return Err(DecodeError { kind: ErrorKind::UnexpectedEnd, offset: pos });
    }
    let c: u8 = buf[pos];
    if c >= 48 && c <= 57 {
        return match decode_string(buf, pos) {
            Ok((s, n)) => Ok((Value::Bytes(s), n)),
            Err(e) => Err(e),
        };
    }
    if c == 105 {
        return match decode_integer(buf, pos) {
            Ok((v, n)) => Ok((Value::Integer(v), n)),
            Err(e) => Err(e),
        };
    }
    if c != 108 && c != 100 {
        return Err(DecodeError { kind: ErrorKind::InvalidTag, offset: pos });
    }
    if depth >= MAX_DEPTH {
        return Err(DecodeError { kind: ErrorKind::NestingTooDeep, offset: pos });
    }
    let mut p: usize = pos + 1;
    if c == 108 {
        let mut items: Vec<Value> = Vec::new();
        let ghost mut acc: Seq<Tree> = Seq::empty();
        loop
            invariant
                pos < p <= buf.len(),
                depth < MAX_DEPTH,
                acc.len() == items.len(),
                forall|j: int| 0 <= j < items.len() ==> acc[j] == items[j]@,
                parse_value(buf@, pos as int, depth as nat, ErrorKind::UnexpectedEnd) == parse_items(
                    buf@,
                    p as int,
                    depth as nat + 1,
                    acc,
ErrorKind::UnexpectedEnd,
                ),
            decreases buf.len() - p,
        {
            if p >= buf.len() {
                return Err(DecodeError { kind: ErrorKind::UnexpectedEnd, offset: p });
            }
            if buf[p] == 101 {
                let v = Value::List(items);
                assert(v@->List_0 =~= acc);
                return Ok((v, p + 1));
            }
            match decode_at(buf, p, depth + 1) {
                Err(e) => {
                    return Err(e);
                },
                Ok((v, n)) => {
                    proof {
                        acc = acc.push(v@);
                    }
                    items.push(v);
                    p = n;
                },
            }
        }
    } else {
        let mut entries: Vec<(Vec<u8>, Value)> = Vec::new();
        let ghost mut acc: Seq<(Seq<u8>, Tree)> = Seq::empty();
        loop
            invariant
                pos < p <= buf.len(),
                depth < MAX_DEPTH,
                acc.len() == entries.len(),
                forall|j: int|
                    0 <= j < entries.len() ==> #[trigger] acc[j] == (entries[j].0@, entries[j].1@),
                parse_value(buf@, pos as int, depth as nat, ErrorKind::UnexpectedEnd) == parse_entries(
                    buf@,
                    p as int,
                    depth as nat + 1,
                    acc,
ErrorKind::UnexpectedEnd,
                ),
            decreases buf.len() - p,
        {
            if p >= buf.len() {
                return Err(DecodeError { kind: ErrorKind::UnexpectedEnd, offset: p });
            }
            if buf[p] == 101 {
                assert(forall|j: int| 0 <= j < acc.len() ==> #[trigger] acc[j].0 == entries[j].0@);
                match check_order(&entries, Ghost(acc)) {
                    Some(k) => {
                        return Err(DecodeError { kind: k, offset: p });
                    },
                    None => {
                        let v = Value::Dict(entries);
                        assert(v@->Dict_0 =~= acc);
                        return Ok((v, p + 1));
                    },
                }
            }
            if !(buf[p] >= 48 && buf[p] <= 57) {
                return Err(DecodeError { kind: ErrorKind::InvalidDictKey, offset: p });
            }
            match decode_string(buf, p) {
                Err(e) => {
                    return Err(e);
                },
                Ok((key, kn)) => {
                    match decode_at(buf, kn, depth + 1) {
                        Err(e) => {
                            return Err(e);
                        },
                        Ok((v, vn)) => {
                            proof {
                                acc = acc.push((key@, v@));
                            }
                            entries.push((key, v));
                            p = vn;
                        },
                    }
                },
            }
        }
    }
}

/// Decodes the value at the start of `buf`, and counts the bytes it took.
pub fn decode(buf: &[u8]) -> (r: Result<(Value, usize), DecodeError>)
    ensures
        matches_parsed(r, decode_result(buf@)),
        r is Ok ==> 0 < r->Ok_0.1 <= buf.len(),
        r is Ok ==> tree_wf(r->Ok_0.0@) && depth(r->Ok_0.0@) <= MAX_DEPTH,
        r is Ok ==> buf@.subrange(0, r->Ok_0.1 as int) == encode_tree(r->Ok_0.0@),
{
    proof {
        lemma_decode_canonical(buf@);
    }
    decode_at(buf, 0, 0)
}

impl Value {
    /// A dictionary of `entries`, which must come in strictly ascending key
    /// order; otherwise the first break of that order is reported.
    pub fn dict(entries: Vec<(Vec<u8>, Value)>) -> (r: Result<Value, ErrorKind>)
        ensures
            match r {
                Ok(v) => v == Value::Dict(entries) && order_violation(v@->Dict_0, 0) is None,
                Err(k) => order_violation(Value::Dict(entries)@->Dict_0, 0) == Some(k),
            },
    {
        let ghost acc = Value::Dict(entries)@->Dict_0;
        assert(forall|j: int| 0 <= j < acc.len() ==> #[trigger] acc[j].0 == entries[j].0@);
        match check_order(&entries, Ghost(acc)) {
            Some(k) => Err(k),
            None => Ok(Value::Dict(entries)),
        }
    }
}

} // verus!
