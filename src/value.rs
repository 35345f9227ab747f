//! The generic bencode value tree and its mathematical model.

use vstd::prelude::*;

verus! {

/// A decoded bencode value.
///
/// Dictionary entries are kept in the order in which they were encoded;
/// a lookup by key sees the last entry with that key.
#[derive(Debug, PartialEq, Eq)]
pub enum BencodeValue {
    Integer(i64),
    ByteString(Vec<u8>),
    List(Vec<BencodeValue>),
    Dictionary(Vec<(Vec<u8>, BencodeValue)>),
}

/// The mathematical model of a [`BencodeValue`].
pub enum Bval {
    Int(int),
    Bytes(Seq<u8>),
    List(Seq<Bval>),
    Dict(Seq<(Seq<u8>, Bval)>),
}

broadcast use vstd::std_specs::vec::axiom_vec_index_decreases;

impl BencodeValue {
    /// The model of the value.
    pub open spec fn view(&self) -> Bval
        decreases self,
    {
        match self {
            BencodeValue::Integer(n) => Bval::Int(*n as int),
            BencodeValue::ByteString(b) => Bval::Bytes(b@),
            BencodeValue::List(items) => Bval::List(
                Seq::new(
                    items@.len(),
                    |i: int|
                        if 0 <= i < items.len() {
                            items[i].view()
                        } else {
                            Bval::Int(0)
                        },
                ),
            ),
            BencodeValue::Dictionary(entries) => Bval::Dict(
                Seq::new(entries@.len(), |i: int|
                    if 0 <= i < entries.len() {
                        (entries[i].0@, entries[i].1.view())
                    } else {
                        (Seq::empty(), Bval::Int(0))
                    },
                ),
            ),
        }
    }
}

/// The models of a sequence of values.
pub open spec fn values_view(items: Seq<BencodeValue>) -> Seq<Bval> {
    Seq::new(items.len(), |i: int| items[i]@)
}

/// The models of a sequence of dictionary entries.
pub open spec fn entries_view(entries: Seq<(Vec<u8>, BencodeValue)>) -> Seq<(Seq<u8>, Bval)> {
    Seq::new(entries.len(), |i: int| (entries[i].0@, entries[i].1@))
}

/// The model of a list holds the models of its elements.
pub proof fn lemma_list_view(items: Vec<BencodeValue>)
    ensures
        BencodeValue::List(items)@ == Bval::List(values_view(items@)),
{
    let whole = BencodeValue::List(items)@;
    if let Bval::List(vs) = whole {
        assert(vs =~= values_view(items@));
    }
}

/// The model of a dictionary holds the models of its entries.
pub proof fn lemma_dict_view(entries: Vec<(Vec<u8>, BencodeValue)>)
    ensures
        BencodeValue::Dictionary(entries)@ == Bval::Dict(entries_view(entries@)),
{
    let whole = BencodeValue::Dictionary(entries)@;
    if let Bval::Dict(es) = whole {
        assert(es =~= entries_view(entries@));
    }
}

/// The value bound to `key`; where a key repeats, the last entry wins.
pub open spec fn lookup(entries: Seq<(Seq<u8>, Bval)>, key: Seq<u8>) -> Option<Bval>
    decreases entries.len(),
{
    if entries.len() == 0 {
        None
    } else if entries.last().0 == key {
        Some(entries.last().1)
    } else {
        lookup(entries.drop_last(), key)
    }
}

/// Whether two byte sequences are equal.
pub fn bytes_eq(a: &[u8], b: &[u8]) -> (r: bool)
    ensures
        r == (a@ == b@),
{
    if a.len() != b.len() {
        return false;
    }
    let mut i: usize = 0;
    while i < a.len()
        invariant
            a.len() == b.len(),
            i <= a.len(),
            forall|t: int| 0 <= t < i ==> a@[t] == b@[t],
        decreases a.len() - i,
    {
        if a[i] != b[i] {
            return false;
        }
        i = i + 1;
    }
    proof {
        assert(a@ =~= b@);
    }
    true
}

impl BencodeValue {
    /// The value bound to `key` in a dictionary; where the key repeats, the
    /// last entry wins. Values other than dictionaries bind nothing.
    pub fn get(&self, key: &[u8]) -> (r: Option<&BencodeValue>)
        ensures
            match self@ {
                Bval::Dict(es) => match r {
                    Some(v) => lookup(es, key@) == Some(v@),
                    None => lookup(es, key@) is None,
                },
                _ => r is None,
            },
    {
        match self {
            BencodeValue::Dictionary(entries) => {
                proof {
                    lemma_dict_view(*entries);
                }
                let ghost es = entries_view(entries@);
                assert(self@ == Bval::Dict(es));
                let mut i = entries.len();
                proof {
                    assert(es.take(i as int) =~= es);
                }
                while i > 0
                    invariant
                        i <= entries.len(),
                        es == entries_view(entries@),
                        self@ == Bval::Dict(es),
                        lookup(es, key@) == lookup(es.take(i as int), key@),
                    decreases i,
                {
                    let ghost prefix = es.take(i as int);
                    proof {
                        assert(prefix.drop_last() =~= es.take(i - 1));
                        assert(prefix.last() == es[i - 1]);
                    }
                    if bytes_eq(entries[i - 1].0.as_slice(), key) {
                        let found = &entries[i - 1].1;
                        proof {
                            assert(es[i - 1] == (entries@[i - 1].0@, entries@[i - 1].1@));
                            assert(lookup(prefix, key@) == Some(found@));
                        }
                        return Some(found);
                    }
                    i = i - 1;
                }
                None
            },
            _ => None,
        }
    }
}

} // verus!
