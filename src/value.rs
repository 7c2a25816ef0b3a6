use vstd::prelude::*;

verus! {

/// The mathematical form of a Bencode value.
pub enum Tree {
    Bytes(Seq<u8>),
    Integer(int),
    List(Seq<Tree>),
    Dict(Seq<(Seq<u8>, Tree)>),
}

/// A decoded Bencode value. Every node owns its bytes.
#[derive(Debug, PartialEq, Eq)]
pub enum Value {
    Bytes(Vec<u8>),
    Integer(i64),
    List(Vec<Value>),
    Dict(Vec<(Vec<u8>, Value)>),
}

/// What went wrong while reading a document.
#[derive(Clone, Copy, Debug, PartialEq, Eq, Structural)]
pub enum ErrorKind {
    UnexpectedEnd,
    MissingDelimiter,
    InvalidLength,
    InvalidTag,
    InvalidInteger,
    IntegerOverflow,
    UnbalancedContainer,
    InvalidDictKey,
    DuplicateKey,
    UnsortedKeys,
    TrailingData,
    NestingTooDeep,
}

/// An error kind together with the byte offset at which it was detected.
#[derive(Clone, Copy, Debug, PartialEq, Eq, Structural)]
pub struct DecodeError {
    pub kind: ErrorKind,
    pub offset: usize,
}

/// The most containers that may be open at once while decoding.
pub const MAX_DEPTH: usize = 512;

impl View for Value {
    type V = Tree;

    open spec fn view(&self) -> Tree
        decreases self,
    {
        match self {
            Value::Bytes(b) => Tree::Bytes(b@),
            Value::Integer(i) => Tree::Integer(*i as int),
            Value::List(l) => Tree::List(
                Seq::new(l.len() as nat, |i: int| if 0 <= i < l.len() { l[i].view() } else { Tree::Integer(0) }),
            ),
            Value::Dict(d) => Tree::Dict(
                Seq::new(
                    d.len() as nat,
                    |i: int| (d[i].0@, if 0 <= i < d.len() { d[i].1.view() } else { Tree::Integer(0) }),
                ),
            ),
        }
    }
}

/// Strict byte-lexicographic order, compared from index `i` on.
pub open spec fn lt_from(a: Seq<u8>, b: Seq<u8>, i: int) -> bool
    decreases a.len() - i,
{
    if i >= a.len() {
        i < b.len()
    } else if i >= b.len() {
        false
    } else if a[i] != b[i] {
        a[i] < b[i]
    } else {
        lt_from(a, b, i + 1)
    }
}

/// `a` comes strictly before `b` in byte-lexicographic order.
pub open spec fn bytes_lt(a: Seq<u8>, b: Seq<u8>) -> bool {
    lt_from(a, b, 0)
}

/// Each key is strictly smaller than the next one.
pub open spec fn keys_ascending(d: Seq<(Seq<u8>, Tree)>) -> bool {
    forall|i: int| 0 <= i < d.len() - 1 ==> bytes_lt(#[trigger] d[i].0, d[i + 1].0)
}

pub open spec fn fits_i64(i: int) -> bool {
    i64::MIN <= i <= i64::MAX
}

/// A tree that a `Value` can hold and that encodes canonically: integers fit
/// in 64 bits and dictionary keys are strictly ascending.
pub open spec fn tree_wf(t: Tree) -> bool
    decreases t,
{
    match t {
        Tree::Bytes(_) => true,
        Tree::Integer(i) => fits_i64(i),
        Tree::List(l) => forall|i: int| 0 <= i < l.len() ==> tree_wf(#[trigger] l[i]),
        Tree::Dict(d) => keys_ascending(d) && forall|i: int|
            0 <= i < d.len() ==> tree_wf(#[trigger] d[i].1),
    }
}

/// How many containers are nested in `t`, itself included.
pub open spec fn depth(t: Tree) -> nat
    decreases t,
{
    match t {
        Tree::Bytes(_) => 0,
        Tree::Integer(_) => 0,
        Tree::List(l) => 1 + max_depth_list(l, l.len() as int),
        Tree::Dict(d) => 1 + max_depth_dict(d, d.len() as int),
    }
}

pub open spec fn max_depth_list(l: Seq<Tree>, n: int) -> nat
    decreases l, n,
{
    if n <= 0 || n > l.len() {
        0
    } else {
        let rest = max_depth_list(l, n - 1);
        let here = depth(l[n - 1]);
        if here > rest { here } else { rest }
    }
}

pub open spec fn max_depth_dict(d: Seq<(Seq<u8>, Tree)>, n: int) -> nat
    decreases d, n,
{
    if n <= 0 || n > d.len() {
        0
    } else {
        let rest = max_depth_dict(d, n - 1);
        let here = depth(d[n - 1].1);
        if here > rest { here } else { rest }
    }
}

/// Each item of a list is less deeply nested than the list.
pub proof fn lemma_item_depth(l: Seq<Tree>, i: int)
    requires
        0 <= i < l.len(),
    ensures
        depth(l[i]) < depth(Tree::List(l)),
{
    lemma_max_depth_list(l, l.len() as int, i);
}

proof fn lemma_max_depth_list(l: Seq<Tree>, n: int, i: int)
    requires
        0 <= i < n <= l.len(),
    ensures
        depth(l[i]) <= max_depth_list(l, n),
    decreases n,
{
    if i < n - 1 {
        lemma_max_depth_list(l, n - 1, i);
    }
}

/// Each value of a dictionary is less deeply nested than the dictionary.
pub proof fn lemma_entry_depth(d: Seq<(Seq<u8>, Tree)>, i: int)
    requires
        0 <= i < d.len(),
    ensures
        depth(d[i].1) < depth(Tree::Dict(d)),
{
    lemma_max_depth_dict(d, d.len() as int, i);
}

proof fn lemma_max_depth_dict(d: Seq<(Seq<u8>, Tree)>, n: int, i: int)
    requires
        0 <= i < n <= d.len(),
    ensures
        depth(d[i].1) <= max_depth_dict(d, n),
    decreases n,
{
    if i < n - 1 {
        lemma_max_depth_dict(d, n - 1, i);
    }
}

impl Value {
    /// A copy of the whole tree, every node owning its own bytes.
    pub fn deep_copy(&self) -> (r: Value)
        ensures
            r@ == self@,
        decreases depth(self@),
    {
        match self {
            Value::Bytes(b) => Value::Bytes(copy_bytes(b)),
            Value::Integer(i) => Value::Integer(*i),
            Value::List(l) => {
                let ghost ts = self@->List_0;
                let mut out: Vec<Value> = Vec::new();
                let mut k: usize = 0;
                while k < l.len()
                    invariant
                        0 <= k <= l.len(),
                        self@ == Tree::List(ts),
                        ts.len() == l.len(),
                        forall|j: int| 0 <= j < l.len() ==> ts[j] == l[j]@,
                        out.len() == k,
                        forall|j: int| 0 <= j < k ==> out[j]@ == ts[j],
                    decreases l.len() - k,
                {
                    proof {
                        lemma_item_depth(ts, k as int);
                    }
                    out.push(l[k].deep_copy());
                    k = k + 1;
                }
                let r = Value::List(out);
                assert(r@->List_0 =~= ts);
                r
            },
            Value::Dict(d) => {
                let ghost es = self@->Dict_0;
                let mut out: Vec<(Vec<u8>, Value)> = Vec::new();
                let mut k: usize = 0;
                while k < d.len()
                    invariant
                        0 <= k <= d.len(),
                        self@ == Tree::Dict(es),
                        es.len() == d.len(),
                        forall|j: int| 0 <= j < d.len() ==> es[j] == (d[j].0@, d[j].1@),
                        out.len() == k,
                        forall|j: int| 0 <= j < k ==> (out[j].0@, out[j].1@) == es[j],
                    decreases d.len() - k,
                {
                    proof {
                        lemma_entry_depth(es, k as int);
                    }
                    let key = copy_bytes(&d[k].0);
                    let val = d[k].1.deep_copy();
                    out.push((key, val));
                    k = k + 1;
                }
                let r = Value::Dict(out);
                assert(r@->Dict_0 =~= es);
                r
            },
        }
    }

    /// The bytes of a byte string, or `None` for another variant.
    pub fn as_bytes(&self) -> (r: Option<&Vec<u8>>)
        ensures
            match self@ {
                Tree::Bytes(b) => r is Some && r->Some_0@ == b,
                _ => r is None,
            },
    {
        match self {
            Value::Bytes(b) => Some(b),
            _ => None,
        }
    }

    /// The number of an integer, or `None` for another variant.
    pub fn as_integer(&self) -> (r: Option<i64>)
        ensures
            match self@ {
                Tree::Integer(i) => r == Some(i as i64),
                _ => r is None,
            },
    {
        match self {
            Value::Integer(i) => Some(*i),
            _ => None,
        }
    }

    /// The items of a list, in order, or `None` for another variant.
    pub fn as_list(&self) -> (r: Option<&Vec<Value>>)
        ensures
            match self {
                Value::List(l) => r == Some(l),
                _ => r is None,
            },
    {
        match self {
            Value::List(l) => Some(l),
            _ => None,
        }
    }

    /// The entries of a dictionary, in key order, or `None` for another variant.
    pub fn as_dict(&self) -> (r: Option<&Vec<(Vec<u8>, Value)>>)
        ensures
            match self {
                Value::Dict(d) => r == Some(d),
                _ => r is None,
            },
    {
        match self {
            Value::Dict(d) => Some(d),
            _ => None,
        }
    }
}

/// A copy of a byte string.
pub fn copy_bytes(b: &Vec<u8>) -> (r: Vec<u8>)
    ensures
        r@ == b@,
{
    let mut out: Vec<u8> = Vec::new();
    let mut i: usize = 0;
    while i < b.len()
        invariant
            0 <= i <= b.len(),
            out@ == b@.subrange(0, i as int),
        decreases b.len() - i,
    {
        out.push(b[i]);
        assert(b@.subrange(0, i + 1) =~= b@.subrange(0, i as int).push(b@[i as int]));
        i = i + 1;
    }
    assert(b@.subrange(0, b.len() as int) =~= b@);
    out
}

} // verus!
