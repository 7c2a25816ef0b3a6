use crate::value::{depth, lemma_entry_depth, lemma_item_depth, Tree, Value};
use vstd::prelude::*;

verus! {

/// The minimal decimal digits of `n`.
pub open spec fn digits(n: nat) -> Seq<u8>
    decreases n,
{
    if n < 10 {
        seq![(n + 48) as u8]
    } else {
        digits(n / 10).push(((n % 10) + 48) as u8)
    }
}

/// The minimal decimal text of `i`, with a `-` only when it is negative.
pub open spec fn int_text(i: int) -> Seq<u8> {
    if i < 0 {
        seq![45u8] + digits((-i) as nat)
    } else {
        digits(i as nat)
    }
}

/// `<len>:<bytes>`
pub open spec fn encode_bytes(b: Seq<u8>) -> Seq<u8> {
    digits(b.len()) + seq![58u8] + b
}

/// The canonical encoding of a tree.
pub open spec fn encode_tree(t: Tree) -> Seq<u8>
    decreases t,
{
    match t {
        Tree::Bytes(b) => encode_bytes(b),
        Tree::Integer(i) => seq![105u8] + int_text(i) + seq![101u8],
        Tree::List(l) => seq![108u8] + item_parts(l).flatten() + seq![101u8],
        Tree::Dict(d) => seq![100u8] + entry_parts(d).flatten() + seq![101u8],
    }
}

/// The encodings of the items of a list, one per item.
pub open spec fn item_parts(l: Seq<Tree>) -> Seq<Seq<u8>>
    decreases l,
{
    Seq::new(l.len(), |i: int| if 0 <= i < l.len() { encode_tree(l[i]) } else { Seq::empty() })
}

/// The encodings of the entries of a dictionary, key then value, one per entry.
pub open spec fn entry_parts(d: Seq<(Seq<u8>, Tree)>) -> Seq<Seq<u8>>
    decreases d,
{
    Seq::new(
        d.len(),
        |i: int|
            if 0 <= i < d.len() {
                encode_bytes(d[i].0) + encode_tree(d[i].1)
            } else {
                Seq::empty()
            },
    )
}

/// Appends the minimal decimal digits of `n`.
fn push_digits(n: u64, out: &mut Vec<u8>)
    ensures
        final(out)@ == old(out)@ + digits(n as nat),
    decreases n,
{
    if n >= 10 {
        push_digits(n / 10, out);
    }
    out.push((n % 10) as u8 + 48);
    assert(final(out)@ =~= old(out)@ + digits(n as nat));
}

/// Appends the canonical encoding of a byte string.
fn push_bytes(b: &Vec<u8>, out: &mut Vec<u8>)
    ensures
        final(out)@ == old(out)@ + encode_bytes(b@),
{
    push_digits(b.len() as u64, out);
    out.push(58u8);
    let mut i: usize = 0;
    while i < b.len()
        invariant
            0 <= i <= b.len(),
            out@ == old(out)@ + digits(b@.len()) + seq![58u8] + b@.subrange(0, i as int),
        decreases b.len() - i,
    {
        out.push(b[i]);
        assert(b@.subrange(0, i + 1) =~= b@.subrange(0, i as int).push(b@[i as int]));
        i = i + 1;
    }
    assert(b@.subrange(0, b.len() as int) =~= b@);
    assert(out@ =~= old(out)@ + encode_bytes(b@));
}

/// Appends the canonical encoding of `v`.
fn encode_into(v: &Value, out: &mut Vec<u8>)
    ensures
        final(out)@ == old(out)@ + encode_tree(v@),
    decreases depth(v@),
{
    match v {
        Value::Bytes(b) => {
            push_bytes(b, out);
        },
        Value::Integer(i) => {
            out.push(105u8);
            let m: u64 = if *i >= 0 {
                *i as u64
            } else {
                out.push(45u8);
                if *i == i64::MIN {
                    9223372036854775808u64
                } else {
                    (-*i) as u64
                }
            };
            push_digits(m, out);
            out.push(101u8);
            assert(final(out)@ =~= old(out)@ + encode_tree(v@));
        },
        Value::List(l) => {
            let ghost ts = v@->List_0;
            out.push(108u8);
            let ghost start = out@;
            let mut k: usize = 0;
            while k < l.len()
                invariant
                    0 <= k <= l.len(),
                    ts.len() == l.len(),
                    v@ == Tree::List(ts),
                    forall|j: int| 0 <= j < l.len() ==> ts[j] == l[j]@,
                    out@ == start + item_parts(ts).take(k as int).flatten(),
                decreases l.len() - k,
            {
                proof {
                    assert(ts[k as int] == l[k as int]@);
                    lemma_item_depth(ts, k as int);
                }
                encode_into(&l[k], out);
                proof {
                    assert(item_parts(ts).take(k + 1) =~= item_parts(ts).take(k as int).push(
                        encode_tree(l[k as int]@),
                    ));
                    item_parts(ts).take(k as int).lemma_flatten_push(encode_tree(l[k as int]@));
                    assert(out@ =~= start + item_parts(ts).take(k + 1).flatten());
                }
                k = k + 1;
            }
            out.push(101u8);
            proof {
                assert(item_parts(ts).take(l.len() as int) =~= item_parts(ts));
                assert(final(out)@ =~= old(out)@ + encode_tree(v@));
            }
        },
        Value::Dict(d) => {
            let ghost es = v@->Dict_0;
            out.push(100u8);
            let ghost start = out@;
            let mut k: usize = 0;
            while k < d.len()
                invariant
                    0 <= k <= d.len(),
                    es.len() == d.len(),
                    v@ == Tree::Dict(es),
                    forall|j: int| 0 <= j < d.len() ==> es[j] == (d[j].0@, d[j].1@),
                    out@ == start + entry_parts(es).take(k as int).flatten(),
                decreases d.len() - k,
            {
                proof {
                    assert(es[k as int].1 == d[k as int].1@);
                    lemma_entry_depth(es, k as int);
                }
                push_bytes(&d[k].0, out);
                encode_into(&d[k].1, out);
                proof {
                    let part = encode_bytes(d[k as int].0@) + encode_tree(d[k as int].1@);
                    assert(entry_parts(es).take(k + 1) =~= entry_parts(es).take(k as int).push(part));
                    entry_parts(es).take(k as int).lemma_flatten_push(part);
                    assert(out@ =~= start + entry_parts(es).take(k + 1).flatten());
                }
                k = k + 1;
            }
            out.push(101u8);
            proof {
                assert(entry_parts(es).take(d.len() as int) =~= entry_parts(es));
                assert(final(out)@ =~= old(out)@ + encode_tree(v@));
            }
        },
    }
}

/// The canonical encoding of `v`.
pub fn encode(v: &Value) -> (r: Vec<u8>)
    ensures
        r@ == encode_tree(v@),
{
    let mut out: Vec<u8> = Vec::new();
    encode_into(v, &mut out);
    assert(out@ =~= encode_tree(v@));
    out
}

} // verus!
