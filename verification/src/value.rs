//! Bencode values: the executable tree and the mathematical value that it
//! stands for.

use vstd::prelude::*;

verus! {

/// A bencode value as mathematics sees it. Contracts speak of this type;
/// [`BencodeValue`] is what programs hold.
pub enum Bencode {
    /// A signed integer.
    Integer(i64),
    /// A string of raw bytes.
    Bytes(Seq<u8>),
    /// A sequence of values.
    List(Seq<Bencode>),
    /// Keys with their values, in the order in which they were given.
    Dict(Seq<(Seq<u8>, Bencode)>),
}

/// A bencode value.
///
/// A dictionary holds its entries in the order in which they were built or
/// read; `encode` writes them in ascending order of their keys whatever that
/// order is.
#[derive(Debug, PartialEq, Eq)]
pub enum BencodeValue {
    /// A signed integer.
    Integer(i64),
    /// A string of raw bytes.
    ByteString(Vec<u8>),
    /// A sequence of values.
    List(Vec<BencodeValue>),
    /// Keys with their values.
    Dictionary(Vec<(Vec<u8>, BencodeValue)>),
}

/// The values that a sequence of trees stands for, one for one.
pub open spec fn list_view(items: Seq<BencodeValue>) -> Seq<Bencode>
    decreases items,
{
    Seq::new(
        items.len(),
        |i: int|
            if 0 <= i < items.len() {
                items[i].view()
            } else {
                Bencode::Integer(0)
            },
    )
}

/// The entries that a sequence of executable entries stands for.
pub open spec fn dict_view(entries: Seq<(Vec<u8>, BencodeValue)>) -> Seq<(Seq<u8>, Bencode)>
    decreases entries,
{
    Seq::new(
        entries.len(),
        |i: int|
            if 0 <= i < entries.len() {
                (entries[i].0@, entries[i].1.view())
            } else {
                (Seq::empty(), Bencode::Integer(0))
            },
    )
}

impl View for BencodeValue {
    type V = Bencode;

    open spec fn view(&self) -> Bencode
        decreases self,
    {
        match self {
            BencodeValue::Integer(i) => Bencode::Integer(*i),
            BencodeValue::ByteString(b) => Bencode::Bytes(b@),
            BencodeValue::List(items) => Bencode::List(list_view(items@)),
            BencodeValue::Dictionary(entries) => Bencode::Dict(dict_view(entries@)),
        }
    }
}

impl Clone for BencodeValue {
    /// A copy that stands for the same value.
    #[verifier::loop_isolation(false)]
    fn clone(&self) -> (copy: BencodeValue)
        ensures
            copy@ == self@,
        decreases self,
    {
        match self {
            BencodeValue::Integer(i) => BencodeValue::Integer(*i),
            BencodeValue::ByteString(b) => BencodeValue::ByteString(
                vstd::slice::slice_to_vec(b.as_slice()),
            ),
            BencodeValue::List(items) => {
                let mut copies: Vec<BencodeValue> = Vec::new();
                let mut i: usize = 0;
                while i < items.len()
                    invariant
                        i <= items@.len(),
                        copies@.len() == i,
                        forall|k: int| 0 <= k < i ==> (#[trigger] copies@[k])@ == items@[k]@,
                    decreases items@.len() - i,
                {
                    copies.push(items[i].clone());
                    i += 1;
                }
                assert(list_view(copies@) =~= list_view(items@));
                BencodeValue::List(copies)
            },
            BencodeValue::Dictionary(entries) => {
                let mut copies: Vec<(Vec<u8>, BencodeValue)> = Vec::new();
                let mut i: usize = 0;
                while i < entries.len()
                    invariant
                        i <= entries@.len(),
                        copies@.len() == i,
                        forall|k: int|
                            0 <= k < i ==> (#[trigger] copies@[k]).0@ == entries@[k].0@
                                && copies@[k].1@ == entries@[k].1@,
                    decreases entries@.len() - i,
                {
                    let key = vstd::slice::slice_to_vec(entries[i].0.as_slice());
                    copies.push((key, entries[i].1.clone()));
                    i += 1;
                }
                assert(dict_view(copies@) =~= dict_view(entries@));
                BencodeValue::Dictionary(copies)
            },
        }
    }
}

} // verus!
