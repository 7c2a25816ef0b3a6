use crate::decode::{decode, decode_result, parse_value, Parsed};
use crate::laws::lemma_open_end_irrelevant;
use crate::validate::{skip_at, validate_result};
use crate::value::{copy_bytes, DecodeError, ErrorKind, Tree, Value};
use vstd::prelude::*;
use vstd::string::StringSliceAdditionalSpecFns;

verus! {

/// Finds how far the first value of a text reaches: string bodies are stepped
/// over by their length prefix, and every `l`, `d` and `i` is balanced by its
/// own `e`.
#[derive(Debug)]
pub struct MatchStack {
    raw: Vec<u8>,
}

impl MatchStack {
    pub closed spec fn raw_view(&self) -> Seq<u8> {
        self.raw@
    }

    /// A matcher over the bytes of `s`.
    pub fn new(s: &str) -> (r: Self)
        ensures
            r.raw_view() == s.spec_bytes(),
    {
        let b = s.as_bytes();
        let mut raw: Vec<u8> = Vec::new();
        let mut i: usize = 0;
        while i < b.len()
            invariant
                0 <= i <= b.len(),
                raw@ == b@.subrange(0, i as int),
            decreases b.len() - i,
        {
            raw.push(b[i]);
            assert(b@.subrange(0, i + 1) =~= b@.subrange(0, i as int).push(b@[i as int]));
            i = i + 1;
        }
        assert(b@.subrange(0, b.len() as int) =~= b@);
        MatchStack { raw }
    }

    /// The length of the first complete value of the text, or the whole length
    /// when the text does not start with one.
    pub fn match_len(&mut self) -> (r: usize)
        ensures
            final(self).raw_view() == old(self).raw_view(),
            r == match decode_result(old(self).raw_view()) {
                Parsed::Done(_, n) => n,
                Parsed::Fail(_, _) => old(self).raw_view().len() as int,
            },
    {
        match skip_at(&self.raw, 0, 0, ErrorKind::UnexpectedEnd) {
            Ok(n) => n,
            Err(_) => self.raw.len(),
        }
    }
}

/// What `decode_list` returns on `b`: a list decoded from the start, or
/// `InvalidTag` when the first byte opens something else.
pub open spec fn list_result(b: Seq<u8>) -> Parsed {
    if b.len() > 0 && b[0] != 108 {
        Parsed::Fail(ErrorKind::InvalidTag, 0)
    } else {
        decode_result(b)
    }
}

/// Decodes the list at the start of `encoded_value`, and counts the bytes it took.
pub fn decode_list(encoded_value: &str) -> (r: Result<(usize, Value), DecodeError>)
    ensures
        match r {
            Ok((n, v)) => list_result(encoded_value.spec_bytes()) == Parsed::Done(v@, n as int),
            Err(e) => list_result(encoded_value.spec_bytes()) == Parsed::Fail(
                e.kind,
                e.offset as int,
            ),
        },
{
    let b = encoded_value.as_bytes();
    if b.len() > 0 && b[0] != 108 {
        return Err(DecodeError { kind: ErrorKind::InvalidTag, offset: 0 });
    }
    match decode(b) {
        Ok((v, n)) => Ok((n, v)),
        Err(e) => Err(e),
    }
}

/// One whole document together with the text it was read from.
#[derive(Debug)]
pub struct Cell {
    raw: Vec<u8>,
    value: Value,
}

impl Cell {
    pub closed spec fn raw_view(&self) -> Seq<u8> {
        self.raw@
    }

    pub closed spec fn tree(&self) -> Tree {
        self.value@
    }

    /// Reads `encoded_value` as exactly one document; `None` when it is not one.
    pub fn new(encoded_value: &str) -> (r: Option<Self>)
        ensures
            r is Some <==> validate_result(encoded_value.spec_bytes()) is None,
            r is Some ==> r->Some_0.raw_view() == encoded_value.spec_bytes() && decode_result(
                encoded_value.spec_bytes(),
            ) == Parsed::Done(r->Some_0.tree(), encoded_value.spec_bytes().len() as int),
    {
        let b = encoded_value.as_bytes();
        proof {
            if decode_result(b@) is Done {
                lemma_open_end_irrelevant(b@, 0, 0, ErrorKind::UnexpectedEnd, ErrorKind::UnbalancedContainer);
            }
            if parse_value(b@, 0, 0, ErrorKind::UnbalancedContainer) is Done {
                lemma_open_end_irrelevant(b@, 0, 0, ErrorKind::UnbalancedContainer, ErrorKind::UnexpectedEnd);
            }
        }
        match decode(b) {
            Err(_) => None,
            Ok((v, n)) => if n == b.len() {
                let mut raw: Vec<u8> = Vec::new();
                let mut i: usize = 0;
                while i < b.len()
                    invariant
                        0 <= i <= b.len(),
                        raw@ == b@.subrange(0, i as int),
                    decreases b.len() - i,
                {
                    raw.push(b[i]);
                    assert(b@.subrange(0, i + 1) =~= b@.subrange(0, i as int).push(b@[i as int]));
                    i = i + 1;
                }
                assert(b@.subrange(0, b.len() as int) =~= b@);
                Some(Cell { raw, value: v })
            } else {
                None
            },
        }
    }

    /// The text the document was read from.
    pub fn raw(&self) -> (r: Vec<u8>)
        ensures
            r@ == self.raw_view(),
    {
        copy_bytes(&self.raw)
    }

    /// Whether the document is an integer.
    pub fn is_digit(&self) -> (r: bool)
        ensures
            r == self.tree() is Integer,
    {
        match &self.value {
            Value::Integer(_) => true,
            _ => false,
        }
    }

    /// Whether the document is a byte string.
    pub fn is_str(&self) -> (r: bool)
        ensures
            r == self.tree() is Bytes,
    {
        match &self.value {
            Value::Bytes(_) => true,
            _ => false,
        }
    }

    /// Whether the document is a list.
    pub fn is_list(&self) -> (r: bool)
        ensures
            r == self.tree() is List,
    {
        match &self.value {
            Value::List(_) => true,
            _ => false,
        }
    }

    /// Whether the document is a dictionary.
    pub fn is_dict(&self) -> (r: bool)
        ensures
            r == self.tree() is Dict,
    {
        match &self.value {
            Value::Dict(_) => true,
            _ => false,
        }
    }

    /// A copy of the decoded value.
    pub fn get_values(&self) -> (r: Value)
        ensures
            r@ == self.tree(),
    {
        self.value.deep_copy()
    }
}

} // verus!
