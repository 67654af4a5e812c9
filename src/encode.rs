use vstd::prelude::*;
use crate::value::{
    decimal, encoding, entries_encoding, entry_models, items_encoding, lemma_dictionary_model,
    lemma_list_model, models, string_encoding, Value, COLON, DICT_START, END, INT_START, LIST_START, MINUS, ZERO,
};

verus! {

broadcast use vstd::std_specs::vec::group_vec_axioms, vstd::seq::group_seq_axioms;

/// Appends the decimal text of `n` to `out`.
pub fn push_decimal(n: u64, out: &mut Vec<u8>)
    ensures
        final(out)@ == old(out)@ + decimal(n as nat),
    decreases n,
{
    if n >= 10 {
        push_decimal(n / 10, out);
    }
    out.push(ZERO + (n % 10) as u8);
    assert(final(out)@ =~= old(out)@ + decimal(n as nat));
}

/// The decimal text of `n`.
pub fn decimal_text(n: u64) -> (r: Vec<u8>)
    ensures
        r@ == decimal(n as nat),
{
    let mut out: Vec<u8> = Vec::new();
    push_decimal(n, &mut out);
    assert(out@ =~= decimal(n as nat));
    out
}

/// Appends the length-prefixed form of `b` to `out`.
pub fn push_string(b: &Vec<u8>, out: &mut Vec<u8>)
    ensures
        final(out)@ == old(out)@ + string_encoding(b@),
{
    push_decimal(b.len() as u64, out);
    out.push(COLON);
    let mut i: usize = 0;
    let ghost mid = out@;
    while i < b.len()
        invariant
            0 <= i <= b.len(),
            out@ == mid + b@.subrange(0, i as int),
        decreases b.len() - i,
    {
        out.push(b[i]);
        i = i + 1;
        assert(out@ =~= mid + b@.subrange(0, i as int));
    }
    assert(b@.subrange(0, b.len() as int) =~= b@);
    assert(final(out)@ =~= old(out)@ + string_encoding(b@));
}

/// Appends the bencode form of `v` to `out`.
pub fn encode_into(v: &Value, out: &mut Vec<u8>)
    ensures
        final(out)@ == old(out)@ + encoding(v.model()),
    decreases v,
{
    match v {
        Value::Integer(n) => {
            out.push(INT_START);
            if *n < 0 {
                out.push(MINUS);
                let mag: u64 = (0i128 - (*n as i128)) as u64;
                push_decimal(mag, out);
            } else {
                push_decimal(*n as u64, out);
            }
            out.push(END);
            assert(final(out)@ =~= old(out)@ + encoding(v.model()));
        },
        Value::ByteString(b) => {
            push_string(b, out);
        },
        Value::List(items) => {
            proof {
                lemma_list_model(*items);
            }
            let ghost ms = models(items@);
            out.push(LIST_START);
            let ghost start = out@;
            let mut i: usize = 0;
            while i < items.len()
                invariant
                    0 <= i <= items.len(),
                    ms == models(items@),
                    *v == Value::List(*items),
                    out@ == start + items_encoding(ms, i as nat),
                decreases items.len() - i,
            {
                proof {
                    assert(decreases_to!(*v => (*v)->List_0));
                    assert(decreases_to!(*items => items[i as int]));
                    assert(decreases_to!(*v => items[i as int]));
                }
                encode_into(&items[i], out);
                i = i + 1;
                assert(out@ =~= start + items_encoding(ms, i as nat));
            }
            out.push(END);
            assert(final(out)@ =~= old(out)@ + encoding(v.model()));
        },
        Value::Dictionary(entries) => {
            proof {
                lemma_dictionary_model(*entries);
            }
            let ghost es = entry_models(entries@);
            out.push(DICT_START);
            let ghost start = out@;
            let mut i: usize = 0;
            while i < entries.len()
                invariant
                    0 <= i <= entries.len(),
                    es == entry_models(entries@),
                    *v == Value::Dictionary(*entries),
                    out@ == start + entries_encoding(es, i as nat),
                decreases entries.len() - i,
            {
                push_string(&entries[i].0, out);
                proof {
                    assert(decreases_to!(*v => (*v)->Dictionary_0));
                    assert(decreases_to!(*entries => entries[i as int]));
                    assert(decreases_to!(entries[i as int] => entries[i as int].1));
                    assert(decreases_to!(*v => entries[i as int].1));
                }
                encode_into(&entries[i].1, out);
                i = i + 1;
                assert(out@ =~= start + entries_encoding(es, i as nat));
            }
            out.push(END);
            assert(final(out)@ =~= old(out)@ + encoding(v.model()));
        },
    }
}

/// The bencode form of `v`, with dictionary entries in the order they hold.
pub fn encode(v: &Value) -> (r: Vec<u8>)
    ensures
        r@ == encoding(v.model()),
{
    let mut out: Vec<u8> = Vec::new();
    encode_into(v, &mut out);
    assert(out@ =~= encoding(v.model()));
    out
}

/// The length-prefixed form `<length>:<bytes>` of a byte string.
pub fn encode_length_prefixed(b: &Vec<u8>) -> (r: Vec<u8>)
    ensures
        r@ == string_encoding(b@),
{
    let mut out: Vec<u8> = Vec::new();
    push_string(b, &mut out);
    assert(out@ =~= string_encoding(b@));
    out
}

} // verus!
