use crate::decode::{
    decode_result, digits_end, digits_value, is_digit, order_violation, parse_integer,
    parse_items, parse_entries, parse_string, parse_value, Parsed,
};
use crate::encode::{digits, encode_bytes, encode_tree, entry_parts, int_text, item_parts};
use crate::value::{
    bytes_lt, depth, fits_i64, keys_ascending, lemma_entry_depth, lemma_item_depth, lt_from,
    max_depth_dict, max_depth_list, tree_wf, ErrorKind, Tree, MAX_DEPTH,
};
use vstd::prelude::*;
use vstd::seq_lib::lemma_flatten_concat;

verus! {

/// `b` holds the encoding of `t` from `pos` on.
pub open spec fn encoded_at(b: Seq<u8>, pos: int, t: Tree) -> bool {
    0 <= pos && pos + encode_tree(t).len() <= b.len() && b.subrange(
        pos,
        pos + encode_tree(t).len(),
    ) == encode_tree(t)
}

proof fn lemma_digits_shape(n: nat)
    ensures
        digits(n).len() >= 1,
        forall|i: int| 0 <= i < digits(n).len() ==> is_digit(#[trigger] digits(n)[i]),
        digits(n)[0] == 48 ==> n == 0,
        n == 0 ==> digits(n) == seq![48u8],
    decreases n,
{
    if n >= 10 {
        lemma_digits_shape(n / 10);
        let s = digits(n / 10);
        assert(digits(n) == s.push(((n % 10) + 48) as u8));
        assert forall|i: int| 0 <= i < digits(n).len() implies is_digit(#[trigger] digits(n)[i]) by {
            if i < s.len() {
                assert(digits(n)[i] == s[i]);
            }
        }
        assert(digits(n)[0] == s[0]);
    }
}

proof fn lemma_digits_end(b: Seq<u8>, p: int, q: int)
    requires
        0 <= p <= q <= b.len(),
        forall|i: int| p <= i < q ==> is_digit(#[trigger] b[i]),
        q == b.len() || !is_digit(b[q]),
    ensures
        digits_end(b, p) == q,
    decreases q - p,
{
    if p < q {
        lemma_digits_end(b, p + 1, q);
    }
}

proof fn lemma_digits_value(b: Seq<u8>, p: int, n: nat)
    requires
        0 <= p,
        p + digits(n).len() <= b.len(),
        b.subrange(p, p + digits(n).len()) == digits(n),
    ensures
        digits_value(b, p, p + digits(n).len()) == n,
    decreases n,
{
    let l = digits(n).len() as int;
    assert(b[p + l - 1] == b.subrange(p, p + l)[l - 1]);
    if n < 10 {
        assert(digits_value(b, p, p) == 0);
    } else {
        let s = digits(n / 10);
        assert(digits(n) == s.push(((n % 10) + 48) as u8));
        assert(b.subrange(p, p + s.len()) =~= s) by {
            assert forall|i: int| 0 <= i < s.len() implies b.subrange(p, p + s.len())[i] == s[i] by {
                assert(b.subrange(p, p + l)[i] == digits(n)[i]);
            }
        }
        lemma_digits_value(b, p, n / 10);
    }
}

/// The digits of `n` stand in `b` from `p` on, followed by a byte that is no digit.
proof fn lemma_read_digits(b: Seq<u8>, p: int, n: nat)
    requires
        0 <= p,
        p + digits(n).len() < b.len(),
        b.subrange(p, p + digits(n).len()) == digits(n),
        !is_digit(b[p + digits(n).len()]),
    ensures
        digits_end(b, p) == p + digits(n).len(),
        digits_value(b, p, p + digits(n).len()) == n,
        is_digit(b[p]),
        b[p] == 48 ==> n == 0 && digits(n).len() == 1,
{
    let l = digits(n).len() as int;
    lemma_digits_shape(n);
    assert forall|i: int| p <= i < p + l implies is_digit(#[trigger] b[i]) by {
        assert(b[i] == b.subrange(p, p + l)[i - p]);
    }
    assert(b[p] == b.subrange(p, p + l)[0]);
    lemma_digits_end(b, p, p + l);
    lemma_digits_value(b, p, n);
}

proof fn lemma_parse_bytes(b: Seq<u8>, pos: int, s: Seq<u8>)
    requires
        0 <= pos,
        pos + encode_bytes(s).len() <= b.len(),
        b.subrange(pos, pos + encode_bytes(s).len()) == encode_bytes(s),
    ensures
        is_digit(b[pos]),
        parse_string(b, pos) == Parsed::Done(Tree::Bytes(s), pos + encode_bytes(s).len()),
{
    let enc = encode_bytes(s);
    let l = digits(s.len()).len() as int;
    assert(b.subrange(pos, pos + l) =~= digits(s.len())) by {
        assert forall|i: int| 0 <= i < l implies b.subrange(pos, pos + l)[i] == digits(s.len())[i] by {
            assert(b.subrange(pos, pos + enc.len())[i] == enc[i]);
        }
    }
    assert(b[pos + l] == b.subrange(pos, pos + enc.len())[l]);
    lemma_read_digits(b, pos, s.len());
    let e = pos + l;
    assert(b.subrange(e + 1, e + 1 + s.len()) =~= s) by {
        assert forall|i: int| 0 <= i < s.len() implies b.subrange(e + 1, e + 1 + s.len())[i] == s[i] by {
            assert(b.subrange(pos, pos + enc.len())[l + 1 + i] == enc[l + 1 + i]);
        }
    }
}

proof fn lemma_parse_int(b: Seq<u8>, pos: int, i: int)
    requires
        fits_i64(i),
        encoded_at(b, pos, Tree::Integer(i)),
    ensures
        b[pos] == 105,
        parse_integer(b, pos) == Parsed::Done(Tree::Integer(i), pos + encode_tree(Tree::Integer(i)).len()),
{
    let enc = encode_tree(Tree::Integer(i));
    assert(enc == seq![105u8] + int_text(i) + seq![101u8]);
    let m: nat = if i < 0 { (-i) as nat } else { i as nat };
    let neg = i < 0;
    let d = if neg { pos + 2 } else { pos + 1 };
    let l = digits(m).len() as int;
    let w = d - pos;
    assert(enc.len() == w + l + 1);
    assert forall|j: int| 0 <= j < enc.len() implies #[trigger] b[pos + j] == enc[j] by {
        assert(b.subrange(pos, pos + enc.len())[j] == enc[j]);
    }
    assert(b[pos] == enc[0]);
    assert(b.subrange(d, d + l) =~= digits(m)) by {
        assert forall|j: int| 0 <= j < l implies b.subrange(d, d + l)[j] == digits(m)[j] by {
            assert(b[pos + (w + j)] == enc[w + j]);
        }
    }
    assert(b[pos + (w + l)] == enc[w + l]);
    lemma_read_digits(b, d, m);
    assert(b[pos + 1] == enc[1]);
    if !neg {
        assert(b[pos + 1] == digits(m)[0]);
    }
}

/// The first byte of an encoding is its tag, never `e`.
proof fn lemma_first_byte(t: Tree)
    ensures
        encode_tree(t).len() >= 1,
        encode_tree(t)[0] != 101,
{
    match t {
        Tree::Bytes(s) => {
            lemma_digits_shape(s.len());
            assert(encode_tree(t)[0] == digits(s.len())[0]);
        },
        _ => {},
    }
}

proof fn lemma_flatten_split(parts: Seq<Seq<u8>>, k: int)
    requires
        0 <= k < parts.len(),
    ensures
        parts.flatten() == parts.take(k).flatten() + parts[k] + parts.skip(k + 1).flatten(),
        parts.take(k + 1).flatten() == parts.take(k).flatten() + parts[k],
{
    assert(parts =~= parts.take(k + 1) + parts.skip(k + 1));
    lemma_flatten_concat(parts.take(k + 1), parts.skip(k + 1));
    assert(parts.take(k + 1) =~= parts.take(k).push(parts[k]));
    parts.take(k).lemma_flatten_push(parts[k]);
}

proof fn lemma_keys_distinct(a: Seq<u8>, i: int)
    requires
        0 <= i,
    ensures
        !lt_from(a, a, i),
    decreases a.len() - i,
{
    if i < a.len() {
        lemma_keys_distinct(a, i + 1);
    }
}

proof fn lemma_order_holds(d: Seq<(Seq<u8>, Tree)>, i: int)
    requires
        keys_ascending(d),
        0 <= i,
    ensures
        order_violation(d, i) is None,
    decreases d.len() - i,
{
    if i + 1 < d.len() {
        assert(bytes_lt(d[i].0, d[i + 1].0));
        lemma_keys_distinct(d[i].0, 0);
        lemma_order_holds(d, i + 1);
    }
}

/// Reading an encoded tree gives back the tree and the position after its encoding.
proof fn lemma_parse_tree(b: Seq<u8>, pos: int, d: nat, t: Tree)
    requires
        tree_wf(t),
        d + depth(t) <= MAX_DEPTH,
        encoded_at(b, pos, t),
    ensures
        parse_value(b, pos, d, ErrorKind::UnexpectedEnd) == Parsed::Done(t, pos + encode_tree(t).len()),
    decreases depth(t), 1int, 0int,
{
    let enc = encode_tree(t);
    assert(b[pos] == b.subrange(pos, pos + enc.len())[0]);
    match t {
        Tree::Bytes(s) => {
            lemma_parse_bytes(b, pos, s);
        },
        Tree::Integer(i) => {
            lemma_parse_int(b, pos, i);
        },
        Tree::List(l) => {
            assert(l.take(0) =~= Seq::<Tree>::empty());
            assert(item_parts(l).take(0).flatten() =~= Seq::<u8>::empty());
            lemma_parse_items(b, pos, d + 1, l, 0);
        },
        Tree::Dict(e) => {
            assert(e.take(0) =~= Seq::<(Seq<u8>, Tree)>::empty());
            assert(entry_parts(e).take(0).flatten() =~= Seq::<u8>::empty());
            lemma_parse_entries(b, pos, d + 1, e, 0);
        },
    }
}

proof fn lemma_parse_items(b: Seq<u8>, pos: int, d: nat, l: Seq<Tree>, k: int)
    requires
        tree_wf(Tree::List(l)),
        d >= 1,
        d - 1 + depth(Tree::List(l)) <= MAX_DEPTH,
        encoded_at(b, pos, Tree::List(l)),
        0 <= k <= l.len(),
    ensures
        parse_items(b, pos + 1 + item_parts(l).take(k).flatten().len(), d, l.take(k), ErrorKind::UnexpectedEnd)
            == Parsed::Done(Tree::List(l), pos + encode_tree(Tree::List(l)).len()),
    decreases depth(Tree::List(l)), 0int, l.len() - k,
{
    let t = Tree::List(l);
    let enc = encode_tree(t);
    let parts = item_parts(l);
    let flat = parts.flatten();
    assert(enc == seq![108u8] + flat + seq![101u8]);
    let before = parts.take(k).flatten();
    let p = pos + 1 + before.len();
    assert forall|j: int| 0 <= j < enc.len() implies #[trigger] b[pos + j] == enc[j] by {
        assert(b.subrange(pos, pos + enc.len())[j] == enc[j]);
    }
    if k == l.len() {
        assert(parts.take(k) =~= parts);
        assert(l.take(k) =~= l);
        assert(b[pos + (1 + flat.len())] == enc[1 + flat.len() as int]);
    } else {
        lemma_flatten_split(parts, k);
        let item = l[k];
        assert(parts[k] == encode_tree(item));
        let n = p + parts[k].len();
        assert(b.subrange(p, n) =~= encode_tree(item)) by {
            assert forall|j: int| 0 <= j < parts[k].len() implies b.subrange(p, n)[j]
                == encode_tree(item)[j] by {
                assert(b[pos + (1 + before.len() + j)] == enc[1 + before.len() + j]);
            }
        }
        lemma_first_byte(item);
        assert(b[p] == b.subrange(p, n)[0]);
        lemma_item_depth(l, k);
        lemma_parse_tree(b, p, d, item);
        assert(l.take(k).push(item) =~= l.take(k + 1));
        lemma_parse_items(b, pos, d, l, k + 1);
    }
}

proof fn lemma_parse_entries(b: Seq<u8>, pos: int, d: nat, e: Seq<(Seq<u8>, Tree)>, k: int)
    requires
        tree_wf(Tree::Dict(e)),
        d >= 1,
        d - 1 + depth(Tree::Dict(e)) <= MAX_DEPTH,
        encoded_at(b, pos, Tree::Dict(e)),
        0 <= k <= e.len(),
    ensures
        parse_entries(b, pos + 1 + entry_parts(e).take(k).flatten().len(), d, e.take(k), ErrorKind::UnexpectedEnd)
            == Parsed::Done(Tree::Dict(e), pos + encode_tree(Tree::Dict(e)).len()),
    decreases depth(Tree::Dict(e)), 0int, e.len() - k,
{
    let t = Tree::Dict(e);
    let enc = encode_tree(t);
    let parts = entry_parts(e);
    let flat = parts.flatten();
    assert(enc == seq![100u8] + flat + seq![101u8]);
    let before = parts.take(k).flatten();
    let p = pos + 1 + before.len();
    assert forall|j: int| 0 <= j < enc.len() implies #[trigger] b[pos + j] == enc[j] by {
        assert(b.subrange(pos, pos + enc.len())[j] == enc[j]);
    }
    if k == e.len() {
        assert(parts.take(k) =~= parts);
        assert(e.take(k) =~= e);
        assert(b[pos + (1 + flat.len())] == enc[1 + flat.len() as int]);
        lemma_order_holds(e, 0);
    } else {
        lemma_flatten_split(parts, k);
        let key = e[k].0;
        let item = e[k].1;
        let kb = encode_bytes(key);
        assert(parts[k] == kb + encode_tree(item));
        let kn = p + kb.len();
        let n = kn + encode_tree(item).len();
        assert(b.subrange(p, kn) =~= kb) by {
            assert forall|j: int| 0 <= j < kb.len() implies b.subrange(p, kn)[j] == kb[j] by {
                assert(b[pos + (1 + before.len() + j)] == enc[1 + before.len() + j]);
            }
        }
        assert(b.subrange(kn, n) =~= encode_tree(item)) by {
            assert forall|j: int| 0 <= j < encode_tree(item).len() implies b.subrange(kn, n)[j]
                == encode_tree(item)[j] by {
                assert(b[pos + (1 + before.len() + kb.len() + j)] == enc[1 + before.len()
                    + kb.len() + j]);
            }
        }
        lemma_parse_bytes(b, p, key);
        lemma_first_byte(item);
        assert(b[p] == b.subrange(p, kn)[0]);
        assert(b[p] != 101) by {
            lemma_digits_shape(key.len());
        }
        lemma_entry_depth(e, k);
        lemma_parse_tree(b, kn, d, item);
        assert(e.take(k).push((key, item)) =~= e.take(k + 1));
        lemma_parse_entries(b, pos, d, e, k + 1);
    }
}

/// Decoding the canonical encoding of a well-formed tree, nested no deeper than
/// the decoder allows, gives back that tree and the whole length of the encoding.
pub proof fn lemma_round_trip(t: Tree)
    requires
        tree_wf(t),
        depth(t) <= MAX_DEPTH,
    ensures
        decode_result(encode_tree(t)) == Parsed::Done(t, encode_tree(t).len() as int),
{
    let b = encode_tree(t);
    assert(b.subrange(0, b.len() as int) =~= b);
    lemma_parse_tree(b, 0, 0, t);
}

/// Encoding is idempotent through a decode: re-encoding the decoded tree gives
/// the same bytes.
pub proof fn lemma_encode_idempotent(t: Tree)
    requires
        tree_wf(t),
        depth(t) <= MAX_DEPTH,
    ensures
        decode_result(encode_tree(t)) is Done,
        encode_tree(decode_result(encode_tree(t))->Done_0) == encode_tree(t),
{
    lemma_round_trip(t);
}

proof fn lemma_digits_end_facts(b: Seq<u8>, i: int)
    requires
        0 <= i <= b.len(),
    ensures
        i <= digits_end(b, i) <= b.len(),
        forall|j: int| i <= j < digits_end(b, i) ==> is_digit(#[trigger] b[j]),
        digits_end(b, i) == b.len() || !is_digit(b[digits_end(b, i)]),
    decreases b.len() - i,
{
    if i < b.len() && is_digit(b[i]) {
        lemma_digits_end_facts(b, i + 1);
    }
}

proof fn lemma_value_positive(b: Seq<u8>, from: int, to: int)
    requires
        0 <= from < to <= b.len(),
        forall|j: int| from <= j < to ==> is_digit(#[trigger] b[j]),
        b[from] != 48,
    ensures
        digits_value(b, from, to) >= 1,
        to > from + 1 ==> digits_value(b, from, to) >= 10,
    decreases to - from,
{
    if to > from + 1 {
        lemma_value_positive(b, from, to - 1);
    } else {
        assert(digits_value(b, from, from) == 0);
    }
}

/// A run of digits with no redundant leading zero is the minimal text of its value.
proof fn lemma_run_is_digits(b: Seq<u8>, from: int, to: int)
    requires
        0 <= from < to <= b.len(),
        forall|j: int| from <= j < to ==> is_digit(#[trigger] b[j]),
        b[from] == 48 ==> to == from + 1,
    ensures
        b.subrange(from, to) == digits(digits_value(b, from, to)),
    decreases to - from,
{
    let v = digits_value(b, from, to);
    assert(digits_value(b, from, from) == 0);
    if to == from + 1 {
        assert(b.subrange(from, to) =~= digits(v));
    } else {
        lemma_run_is_digits(b, from, to - 1);
        lemma_value_positive(b, from, to);
        lemma_value_positive(b, from, to - 1);
        let w = digits_value(b, from, to - 1);
        assert(v / 10 == w && v % 10 == b[to - 1] - 48);
        assert(b.subrange(from, to) =~= b.subrange(from, to - 1).push(b[to - 1]));
    }
}

proof fn lemma_string_sound(b: Seq<u8>, pos: int)
    requires
        0 <= pos < b.len(),
        is_digit(b[pos]),
        parse_string(b, pos) is Done,
    ensures
        parse_string(b, pos)->Done_0 is Bytes,
        pos < parse_string(b, pos)->Done_1 <= b.len(),
        b.subrange(pos, parse_string(b, pos)->Done_1) == encode_bytes(
            parse_string(b, pos)->Done_0->Bytes_0,
        ),
{
    let e = digits_end(b, pos);
    lemma_digits_end_facts(b, pos);
    lemma_run_is_digits(b, pos, e);
    let n = digits_value(b, pos, e);
    let s = b.subrange(e + 1, e + 1 + n);
    assert(b.subrange(pos, e + 1 + n) =~= b.subrange(pos, e) + seq![58u8] + s);
}

proof fn lemma_integer_sound(b: Seq<u8>, pos: int)
    requires
        0 <= pos < b.len(),
        b[pos] == 105,
        parse_integer(b, pos) is Done,
    ensures
        parse_integer(b, pos)->Done_0 is Integer,
        tree_wf(parse_integer(b, pos)->Done_0),
        pos < parse_integer(b, pos)->Done_1 <= b.len(),
        b.subrange(pos, parse_integer(b, pos)->Done_1) == encode_tree(
            parse_integer(b, pos)->Done_0,
        ),
{
    let s = pos + 1;
    let neg = s < b.len() && b[s] == 45;
    let d = if neg { s + 1 } else { s };
    let e = digits_end(b, d);
    lemma_digits_end_facts(b, d);
    lemma_run_is_digits(b, d, e);
    let m = digits_value(b, d, e);
    if neg {
        lemma_value_positive(b, d, e);
        assert(b.subrange(pos, e + 1) =~= seq![105u8] + (seq![45u8] + b.subrange(d, e)) + seq![
            101u8,
        ]);
    } else {
        assert(b.subrange(pos, e + 1) =~= seq![105u8] + b.subrange(d, e) + seq![101u8]);
    }
}

proof fn lemma_max_depth_list_bound(l: Seq<Tree>, n: int, k: nat)
    requires
        0 <= n <= l.len(),
        forall|i: int| 0 <= i < n ==> depth(#[trigger] l[i]) <= k,
    ensures
        max_depth_list(l, n) <= k,
    decreases n,
{
    if n > 0 {
        lemma_max_depth_list_bound(l, n - 1, k);
    }
}

proof fn lemma_max_depth_dict_bound(d: Seq<(Seq<u8>, Tree)>, n: int, k: nat)
    requires
        0 <= n <= d.len(),
        forall|i: int| 0 <= i < n ==> depth(#[trigger] d[i].1) <= k,
    ensures
        max_depth_dict(d, n) <= k,
    decreases n,
{
    if n > 0 {
        lemma_max_depth_dict_bound(d, n - 1, k);
    }
}

proof fn lemma_order_sound(d: Seq<(Seq<u8>, Tree)>, i: int)
    requires
        0 <= i,
        order_violation(d, i) is None,
    ensures
        forall|j: int| i <= j < d.len() - 1 ==> bytes_lt(#[trigger] d[j].0, d[j + 1].0),
    decreases d.len() - i,
{
    if i + 1 < d.len() {
        lemma_order_sound(d, i + 1);
    }
}

/// What is read at `pos` is well-formed, nested within the limit, and its
/// canonical encoding is exactly the bytes that were read.
proof fn lemma_value_sound(b: Seq<u8>, pos: int, d: nat)
    requires
        0 <= pos,
        d <= MAX_DEPTH,
        parse_value(b, pos, d, ErrorKind::UnexpectedEnd) is Done,
    ensures
        tree_wf(parse_value(b, pos, d, ErrorKind::UnexpectedEnd)->Done_0),
        d + depth(parse_value(b, pos, d, ErrorKind::UnexpectedEnd)->Done_0) <= MAX_DEPTH,
        pos < parse_value(b, pos, d, ErrorKind::UnexpectedEnd)->Done_1 <= b.len(),
        b.subrange(pos, parse_value(b, pos, d, ErrorKind::UnexpectedEnd)->Done_1) == encode_tree(
            parse_value(b, pos, d, ErrorKind::UnexpectedEnd)->Done_0,
        ),
    decreases b.len() - pos, 0int,
{
    if is_digit(b[pos]) {
        lemma_string_sound(b, pos);
    } else if b[pos] == 105 {
        lemma_integer_sound(b, pos);
    } else if b[pos] == 108 {
        lemma_items_sound(b, pos + 1, d + 1, Seq::empty());
        let t = parse_value(b, pos, d, ErrorKind::UnexpectedEnd)->Done_0;
        let n = parse_value(b, pos, d, ErrorKind::UnexpectedEnd)->Done_1;
        let l = t->List_0;
        assert(item_parts(l).skip(0) =~= item_parts(l));
        lemma_max_depth_list_bound(l, l.len() as int, (MAX_DEPTH - d - 1) as nat);
        assert(b.subrange(pos, n) =~= seq![108u8] + b.subrange(pos + 1, n));
    } else {
        lemma_entries_sound(b, pos + 1, d + 1, Seq::empty());
        let t = parse_value(b, pos, d, ErrorKind::UnexpectedEnd)->Done_0;
        let n = parse_value(b, pos, d, ErrorKind::UnexpectedEnd)->Done_1;
        let e = t->Dict_0;
        assert(entry_parts(e).skip(0) =~= entry_parts(e));
        lemma_max_depth_dict_bound(e, e.len() as int, (MAX_DEPTH - d - 1) as nat);
        assert(b.subrange(pos, n) =~= seq![100u8] + b.subrange(pos + 1, n));
    }
}

proof fn lemma_items_sound(b: Seq<u8>, p: int, d: nat, acc: Seq<Tree>)
    requires
        0 <= p,
        1 <= d <= MAX_DEPTH,
        parse_items(b, p, d, acc, ErrorKind::UnexpectedEnd) is Done,
    ensures
        ({
            let t = parse_items(b, p, d, acc, ErrorKind::UnexpectedEnd)->Done_0;
            let n = parse_items(b, p, d, acc, ErrorKind::UnexpectedEnd)->Done_1;
            &&& t is List
            &&& t->List_0.len() >= acc.len()
            &&& t->List_0.take(acc.len() as int) == acc
            &&& forall|i: int|
                acc.len() <= i < t->List_0.len() ==> tree_wf(#[trigger] t->List_0[i]) && d + depth(
                    t->List_0[i],
                ) <= MAX_DEPTH
            &&& p < n <= b.len()
            &&& b.subrange(p, n) == item_parts(t->List_0).skip(acc.len() as int).flatten() + seq![
                101u8,
            ]
        }),
    decreases b.len() - p, 1int,
{
    if b[p] == 101 {
        let l = acc;
        assert(l.take(acc.len() as int) =~= acc);
        assert(item_parts(l).skip(acc.len() as int) =~= Seq::<Seq<u8>>::empty());
        assert(b.subrange(p, p + 1) =~= seq![101u8]);
    } else {
        lemma_value_sound(b, p, d);
        let t1 = parse_value(b, p, d, ErrorKind::UnexpectedEnd)->Done_0;
        let n1 = parse_value(b, p, d, ErrorKind::UnexpectedEnd)->Done_1;
        lemma_items_sound(b, n1, d, acc.push(t1));
        let t = parse_items(b, p, d, acc, ErrorKind::UnexpectedEnd)->Done_0;
        let n = parse_items(b, p, d, acc, ErrorKind::UnexpectedEnd)->Done_1;
        let l = t->List_0;
        let k = acc.len() as int;
        assert(l.take(k + 1) == acc.push(t1));
        assert(l.take(k) =~= l.take(k + 1).take(k));
        assert(acc.push(t1).take(k) =~= acc);
        assert(l[k] == l.take(k + 1)[k]);
        let parts = item_parts(l);
        assert(parts.skip(k).drop_first() =~= parts.skip(k + 1));
        assert(parts.skip(k).first() == encode_tree(t1));
        assert(b.subrange(p, n) =~= b.subrange(p, n1) + b.subrange(n1, n));
    }
}

proof fn lemma_entries_sound(b: Seq<u8>, p: int, d: nat, acc: Seq<(Seq<u8>, Tree)>)
    requires
        0 <= p,
        1 <= d <= MAX_DEPTH,
        parse_entries(b, p, d, acc, ErrorKind::UnexpectedEnd) is Done,
    ensures
        ({
            let t = parse_entries(b, p, d, acc, ErrorKind::UnexpectedEnd)->Done_0;
            let n = parse_entries(b, p, d, acc, ErrorKind::UnexpectedEnd)->Done_1;
            &&& t is Dict
            &&& t->Dict_0.len() >= acc.len()
            &&& t->Dict_0.take(acc.len() as int) == acc
            &&& keys_ascending(t->Dict_0)
            &&& forall|i: int|
                acc.len() <= i < t->Dict_0.len() ==> tree_wf(#[trigger] t->Dict_0[i].1) && d
                    + depth(t->Dict_0[i].1) <= MAX_DEPTH
            &&& p < n <= b.len()
            &&& b.subrange(p, n) == entry_parts(t->Dict_0).skip(acc.len() as int).flatten()
                + seq![101u8]
        }),
    decreases b.len() - p, 1int,
{
    if b[p] == 101 {
        let e = acc;
        lemma_order_sound(e, 0);
        assert(e.take(acc.len() as int) =~= acc);
        assert(entry_parts(e).skip(acc.len() as int) =~= Seq::<Seq<u8>>::empty());
        assert(b.subrange(p, p + 1) =~= seq![101u8]);
    } else {
        lemma_string_sound(b, p);
        let key = parse_string(b, p)->Done_0->Bytes_0;
        let kn = parse_string(b, p)->Done_1;
        lemma_value_sound(b, kn, d);
        let t1 = parse_value(b, kn, d, ErrorKind::UnexpectedEnd)->Done_0;
        let n1 = parse_value(b, kn, d, ErrorKind::UnexpectedEnd)->Done_1;
        lemma_entries_sound(b, n1, d, acc.push((key, t1)));
        let t = parse_entries(b, p, d, acc, ErrorKind::UnexpectedEnd)->Done_0;
        let n = parse_entries(b, p, d, acc, ErrorKind::UnexpectedEnd)->Done_1;
        let e = t->Dict_0;
        let k = acc.len() as int;
        assert(e.take(k + 1) == acc.push((key, t1)));
        assert(e.take(k) =~= e.take(k + 1).take(k));
        assert(acc.push((key, t1)).take(k) =~= acc);
        assert(e[k] == e.take(k + 1)[k]);
        let parts = entry_parts(e);
        assert(parts.skip(k).drop_first() =~= parts.skip(k + 1));
        assert(parts.skip(k).first() == encode_bytes(key) + encode_tree(t1));
        assert(b.subrange(p, n) =~= b.subrange(p, kn) + b.subrange(kn, n1) + b.subrange(n1, n));
    }
}

/// Whatever `decode` reads is a well-formed tree nested within the limit, and
/// the bytes it consumed are exactly that tree's canonical encoding.
pub proof fn lemma_decode_canonical(b: Seq<u8>)
    ensures
        decode_result(b) is Done ==> {
            let t = decode_result(b)->Done_0;
            let n = decode_result(b)->Done_1;
            &&& tree_wf(t)
            &&& depth(t) <= MAX_DEPTH
            &&& 0 < n <= b.len()
            &&& b.subrange(0, n) == encode_tree(t)
        },
{
    if decode_result(b) is Done {
        lemma_value_sound(b, 0, 0);
    }
}

proof fn lemma_nested_lists(b: Seq<u8>, k: int)
    requires
        0 <= k <= MAX_DEPTH < b.len(),
        forall|i: int| k <= i <= MAX_DEPTH ==> #[trigger] b[i] == 108,
    ensures
        parse_value(b, k, k as nat, ErrorKind::UnexpectedEnd) == Parsed::Fail(ErrorKind::NestingTooDeep, MAX_DEPTH as int),
    decreases MAX_DEPTH - k,
{
    if k < MAX_DEPTH {
        lemma_nested_lists(b, k + 1);
        assert(b[k] == 108 && b[k + 1] == 108);
    }
}

/// A buffer that opens more lists in a row than the nesting limit allows fails
/// with `NestingTooDeep` at the first list too many, whatever follows.
pub proof fn lemma_nesting_limit(b: Seq<u8>)
    requires
        b.len() > MAX_DEPTH,
        forall|i: int| 0 <= i <= MAX_DEPTH ==> #[trigger] b[i] == 108,
    ensures
        decode_result(b) == Parsed::Fail(ErrorKind::NestingTooDeep, MAX_DEPTH as int),
{
    lemma_nested_lists(b, 0);
}

/// Where reading a value succeeds, the error chosen for a container left open
/// at the end of the buffer makes no difference to the result.
pub proof fn lemma_open_end_irrelevant(b: Seq<u8>, pos: int, d: nat, k1: ErrorKind, k2: ErrorKind)
    requires
        parse_value(b, pos, d, k1) is Done,
    ensures
        parse_value(b, pos, d, k2) == parse_value(b, pos, d, k1),
    decreases b.len() - pos, 0int,
{
    if 0 <= pos < b.len() && (b[pos] == 108 || b[pos] == 100) && d < MAX_DEPTH {
        if b[pos] == 108 {
            lemma_open_end_items(b, pos + 1, d + 1, Seq::empty(), k1, k2);
        } else {
            lemma_open_end_entries(b, pos + 1, d + 1, Seq::empty(), k1, k2);
        }
    }
}

proof fn lemma_open_end_items(
    b: Seq<u8>,
    pos: int,
    d: nat,
    acc: Seq<Tree>,
    k1: ErrorKind,
    k2: ErrorKind,
)
    requires
        parse_items(b, pos, d, acc, k1) is Done,
    ensures
        parse_items(b, pos, d, acc, k2) == parse_items(b, pos, d, acc, k1),
    decreases b.len() - pos, 1int,
{
    if 0 <= pos < b.len() && b[pos] != 101 {
        lemma_open_end_irrelevant(b, pos, d, k1, k2);
        let n = parse_value(b, pos, d, k1)->Done_1;
        if pos < n <= b.len() {
            lemma_open_end_items(b, n, d, acc.push(parse_value(b, pos, d, k1)->Done_0), k1, k2);
        }
    }
}

proof fn lemma_open_end_entries(
    b: Seq<u8>,
    pos: int,
    d: nat,
    acc: Seq<(Seq<u8>, Tree)>,
    k1: ErrorKind,
    k2: ErrorKind,
)
    requires
        parse_entries(b, pos, d, acc, k1) is Done,
    ensures
        parse_entries(b, pos, d, acc, k2) == parse_entries(b, pos, d, acc, k1),
    decreases b.len() - pos, 1int,
{
    if 0 <= pos < b.len() && b[pos] != 101 && is_digit(b[pos]) {
        let kn = parse_string(b, pos)->Done_1;
        if pos < kn <= b.len() {
            lemma_open_end_irrelevant(b, kn, d, k1, k2);
            let vn = parse_value(b, kn, d, k1)->Done_1;
            if kn < vn <= b.len() {
                let key = parse_string(b, pos)->Done_0->Bytes_0;
                let t = parse_value(b, kn, d, k1)->Done_0;
                lemma_open_end_entries(b, vn, d, acc.push((key, t)), k1, k2);
            }
        }
    }
}

} // verus!
