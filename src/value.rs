use vstd::prelude::*;

verus! {

broadcast use vstd::std_specs::vec::group_vec_axioms, vstd::seq::group_seq_axioms;

/// ASCII bytes that the format gives a meaning.
pub const ZERO: u8 = 48;
pub const COLON: u8 = 58;
pub const MINUS: u8 = 45;
pub const INT_START: u8 = 105;
pub const LIST_START: u8 = 108;
pub const DICT_START: u8 = 100;
pub const END: u8 = 101;

/// A decoded bencode value.
///
/// A decoded dictionary holds each key once, in the order in which the keys
/// were first read; where a key repeats in the input, the last value read for
/// it replaces the earlier one.
pub enum Value {
    Integer(i64),
    ByteString(Vec<u8>),
    List(Vec<Value>),
    Dictionary(Vec<(Vec<u8>, Value)>),
}

/// The mathematical model of a bencode value.
pub enum Model {
    Integer(int),
    ByteString(Seq<u8>),
    List(Seq<Model>),
    Dictionary(Seq<(Seq<u8>, Model)>),
}

/// The models of a sequence of values, element by element.
pub open spec fn models(items: Seq<Value>) -> Seq<Model> {
    Seq::new(items.len(), |i: int| items[i].model())
}

/// The models of a sequence of dictionary entries, element by element.
pub open spec fn entry_models(entries: Seq<(Vec<u8>, Value)>) -> Seq<(Seq<u8>, Model)> {
    Seq::new(entries.len(), |i: int| (entries[i].0@, entries[i].1.model()))
}

impl Value {
    pub open spec fn model(self) -> Model
        decreases self,
    {
        match self {
            Value::Integer(n) => Model::Integer(n as int),
            Value::ByteString(b) => Model::ByteString(b@),
            Value::List(items) => Model::List(
                Seq::new(
                    items.len() as nat,
                    |i: int|
                        if 0 <= i < items.len() {
                            items[i].model()
                        } else {
                            Model::Integer(0)
                        },
                ),
            ),
            Value::Dictionary(entries) => Model::Dictionary(
                Seq::new(
                    entries.len() as nat,
                    |i: int|
                        if 0 <= i < entries.len() {
                            (entries[i].0@, entries[i].1.model())
                        } else {
                            (Seq::empty(), Model::Integer(0))
                        },
                ),
            ),
        }
    }
}

pub proof fn lemma_list_model(items: Vec<Value>)
    ensures
        Value::List(items).model() == Model::List(models(items@)),
{
    let m = Value::List(items).model();
    assert(m is List);
    assert(m->List_0 =~= models(items@));
    assert(models(items@) =~= Seq::new(
        items.len() as nat,
        |i: int|
            if 0 <= i < items.len() {
                items[i].model()
            } else {
                Model::Integer(0)
            },
    ));
}

pub proof fn lemma_dictionary_model(entries: Vec<(Vec<u8>, Value)>)
    ensures
        Value::Dictionary(entries).model() == Model::Dictionary(entry_models(entries@)),
{
    let m = Value::Dictionary(entries).model();
    assert(m->Dictionary_0 =~= entry_models(entries@));
    assert(entry_models(entries@) =~= Seq::new(
        entries.len() as nat,
        |i: int|
            if 0 <= i < entries.len() {
                (entries[i].0@, entries[i].1.model())
            } else {
                (Seq::<u8>::empty(), Model::Integer(0))
            },
    ));
}

/// The ASCII digit for a value below ten.
pub open spec fn digit_char(d: nat) -> u8 {
    (ZERO + d) as u8
}

/// The decimal text of a natural number, without leading zeros.
pub open spec fn decimal(n: nat) -> Seq<u8>
    decreases n,
{
    if n < 10 {
        seq![digit_char(n)]
    } else {
        decimal(n / 10) + seq![digit_char(n % 10)]
    }
}

/// The decimal text of an integer, with a leading '-' when it is negative.
pub open spec fn int_text(n: int) -> Seq<u8> {
    if n < 0 {
        seq![MINUS] + decimal((-n) as nat)
    } else {
        decimal(n as nat)
    }
}

/// The length-prefixed form of a byte string: `<length>:<bytes>`.
pub open spec fn string_encoding(b: Seq<u8>) -> Seq<u8> {
    decimal(b.len()) + seq![COLON] + b
}

/// The bencode form of a value.
pub open spec fn encoding(m: Model) -> Seq<u8>
    decreases m, 0nat,
{
    match m {
        Model::Integer(n) => seq![INT_START] + int_text(n) + seq![END],
        Model::ByteString(b) => string_encoding(b),
        Model::List(items) => seq![LIST_START] + items_encoding(items, items.len()) + seq![END],
        Model::Dictionary(entries) => seq![DICT_START] + entries_encoding(entries, entries.len())
            + seq![END],
    }
}

/// The concatenated encodings of the first `n` items.
pub open spec fn items_encoding(items: Seq<Model>, n: nat) -> Seq<u8>
    decreases items, n,
{
    if n == 0 || n > items.len() {
        Seq::empty()
    } else {
        items_encoding(items, (n - 1) as nat) + encoding(items[n - 1])
    }
}

/// The concatenated encodings of the first `n` entries, key then value.
pub open spec fn entries_encoding(entries: Seq<(Seq<u8>, Model)>, n: nat) -> Seq<u8>
    decreases entries, n,
{
    if n == 0 || n > entries.len() {
        Seq::empty()
    } else {
        entries_encoding(entries, (n - 1) as nat) + string_encoding(entries[n - 1].0)
            + encoding(entries[n - 1].1)
    }
}

/// The value of the last entry with key `key`, if any.
pub open spec fn lookup(entries: Seq<(Seq<u8>, Model)>, key: Seq<u8>) -> Option<Model>
    decreases entries.len(),
{
    if entries.len() == 0 {
        None
    } else if entries.last().0 == key {
        Some(entries.last().1)
    } else {
        lookup(entries.drop_last(), key)
    }
}

/// Whether two byte sequences are equal.
pub fn bytes_equal(a: &Vec<u8>, b: &Vec<u8>) -> (r: bool)
    ensures
        r == (a@ == b@),
{
    if a.len() != b.len() {
        return false;
    }
    let mut i: usize = 0;
    while i < a.len()
        invariant
            0 <= i <= a.len(),
            a.len() == b.len(),
            a@.subrange(0, i as int) == b@.subrange(0, i as int),
        decreases a.len() - i,
    {
        if a[i] != b[i] {
            return false;
        }
        i = i + 1;
        assert(a@.subrange(0, i as int) =~= b@.subrange(0, i as int));
    }
    assert(a@ =~= a@.subrange(0, a.len() as int));
    assert(b@ =~= b@.subrange(0, b.len() as int));
    true
}

impl Value {
    /// In a dictionary, the value of the last entry with key `key` (the only
    /// one, in a decoded dictionary); `None`
    /// where there is none or `self` is not a dictionary.
    pub fn get(&self, key: &Vec<u8>) -> (r: Option<&Value>)
        ensures
            match self.model() {
                Model::Dictionary(entries) => match lookup(entries, key@) {
                    Some(m) => r matches Some(v) && v.model() == m,
                    None => r is None,
                },
                _ => r is None,
            },
    {
        match self {
            Value::Dictionary(entries) => {
                proof {
                    lemma_dictionary_model(*entries);
                }
                let ghost es = entry_models(entries@);
                let mut i: usize = entries.len();
                assert(es.subrange(0, i as int) =~= es);
                while i > 0
                    invariant
                        i <= entries.len(),
                        es == entry_models(entries@),
                        self.model() == Model::Dictionary(es),
                        lookup(es, key@) == lookup(es.subrange(0, i as int), key@),
                    decreases i,
                {
                    let ghost pre = es.subrange(0, i as int);
                    assert(pre.drop_last() =~= es.subrange(0, i - 1));
                    if bytes_equal(&entries[i - 1].0, key) {
                        return Some(&entries[i - 1].1);
                    }
                    i = i - 1;
                }
                None
            },
            _ => None,
        }
    }
}

} // verus!
