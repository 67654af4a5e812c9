use vstd::prelude::*;
use crate::decode::{
    decoded, digit_run_end, digits_value, insert_entry, is_digit, keys_distinct, parse_entries,
    parse_string, parse_items, parse_value,
};
use crate::value::{
    decimal, digit_char, encoding, entries_encoding, int_text, items_encoding, string_encoding,
    Model, COLON, DICT_START, END, INT_START, LIST_START, MINUS, ZERO,
};

verus! {

broadcast use vstd::seq::group_seq_axioms;

/// Whether a value's integers and byte-string lengths fit in 64 bits, its
/// dictionaries hold each key once, and its lists and dictionaries are nested
/// at most `d` deep: the values that the decoder can produce.
pub open spec fn within(m: Model, d: nat) -> bool
    decreases d,
{
    match m {
        Model::Integer(n) => i64::MIN <= n <= i64::MAX,
        Model::ByteString(b) => b.len() <= u64::MAX,
        Model::List(items) => d > 0 && forall|i: int|
            0 <= i < items.len() ==> within(#[trigger] items[i], (d - 1) as nat),
        Model::Dictionary(entries) => d > 0 && keys_distinct(entries) && forall|i: int|
            0 <= i < entries.len() ==> entries[i].0.len() <= u64::MAX && within(
                #[trigger] entries[i].1,
                (d - 1) as nat,
            ),
    }
}

proof fn lemma_decimal_digits(n: nat)
    ensures
        decimal(n).len() >= 1,
        forall|i: int| 0 <= i < decimal(n).len() ==> is_digit(#[trigger] decimal(n)[i]),
        decimal(n)[0] == ZERO ==> n == 0 && decimal(n).len() == 1,
    decreases n,
{
    if n >= 10 {
        lemma_decimal_digits(n / 10);
        let p = decimal(n / 10);
        assert(decimal(n) == p + seq![digit_char(n % 10)]);
        assert forall|i: int| 0 <= i < decimal(n).len() implies is_digit(#[trigger] decimal(n)[i]) by {
            if i < p.len() {
                assert(decimal(n)[i] == p[i]);
            }
        }
    }
}

proof fn lemma_decimal_value(s: Seq<u8>, a: int, n: nat)
    requires
        0 <= a,
        a + decimal(n).len() <= s.len(),
        s.subrange(a, a + decimal(n).len()) == decimal(n),
    ensures
        digits_value(s, a, a + decimal(n).len()) == n,
    decreases n,
{
    let l = decimal(n).len() as int;
    assert(s[a + l - 1] == s.subrange(a, a + l)[l - 1]);
    if n < 10 {
        assert(digits_value(s, a, a) == 0);
    } else {
        let p = decimal(n / 10);
        assert(decimal(n) == p + seq![digit_char(n % 10)]);
        assert(s.subrange(a, a + p.len()) =~= decimal(n).subrange(0, p.len() as int));
        assert(decimal(n).subrange(0, p.len() as int) =~= p);
        lemma_decimal_value(s, a, n / 10);
        assert(n == (n / 10) * 10 + n % 10);
    }
}

proof fn lemma_run_end(s: Seq<u8>, a: int, b: int)
    requires
        0 <= a <= b < s.len(),
        forall|i: int| a <= i < b ==> is_digit(s[i]),
        !is_digit(s[b]),
    ensures
        digit_run_end(s, a) == b,
    decreases b - a,
{
    if a < b {
        lemma_run_end(s, a + 1, b);
    }
}

/// Where `s` holds `part` at `pos + off` because it holds `whole` at `pos`.
proof fn lemma_inner(s: Seq<u8>, pos: int, whole: Seq<u8>, off: int, part: Seq<u8>)
    requires
        0 <= pos,
        pos + whole.len() <= s.len(),
        s.subrange(pos, pos + whole.len()) == whole,
        0 <= off,
        off + part.len() <= whole.len(),
        whole.subrange(off, off + part.len()) == part,
    ensures
        s.subrange(pos + off, pos + off + part.len()) == part,
{
    assert(s.subrange(pos + off, pos + off + part.len()) =~= part) by {
        assert forall|i: int| 0 <= i < part.len() implies s.subrange(
            pos + off,
            pos + off + part.len(),
        )[i] == part[i] by {
            assert(part[i] == whole.subrange(off, off + part.len())[i]);
            assert(whole[off + i] == s.subrange(pos, pos + whole.len())[off + i]);
        }
    }
}

/// A digit run written as a decimal number and followed by `stop` reads back
/// as that number.
proof fn lemma_read_decimal(s: Seq<u8>, a: int, n: nat, stop: u8)
    requires
        0 <= a,
        a + decimal(n).len() < s.len(),
        s.subrange(a, a + decimal(n).len()) == decimal(n),
        s[a + decimal(n).len()] == stop,
        !is_digit(stop),
    ensures
        digit_run_end(s, a) == a + decimal(n).len(),
        digits_value(s, a, a + decimal(n).len()) == n,
        s[a] == ZERO ==> n == 0 && decimal(n).len() == 1,
{
    let l = decimal(n).len() as int;
    lemma_decimal_digits(n);
    assert forall|i: int| a <= i < a + l implies is_digit(s[i]) by {
        assert(s[i] == s.subrange(a, a + l)[i - a]);
    }
    assert(s[a] == s.subrange(a, a + l)[0]);
    lemma_run_end(s, a, a + l);
    lemma_decimal_value(s, a, n);
}

proof fn lemma_parse_string_encoded(s: Seq<u8>, pos: int, b: Seq<u8>)
    requires
        b.len() <= u64::MAX,
        0 <= pos,
        pos + string_encoding(b).len() <= s.len(),
        s.subrange(pos, pos + string_encoding(b).len()) == string_encoding(b),
    ensures
        parse_value(s, pos, 0) == Ok::<(Model, int), crate::decode::DecodeError>(
            (Model::ByteString(b), pos + string_encoding(b).len()),
        ),
        forall|d: nat| #[trigger] parse_value(s, pos, d) == parse_value(s, pos, 0),
{
    let e = string_encoding(b);
    let dn = decimal(b.len());
    let l = dn.len() as int;
    lemma_decimal_digits(b.len());
    assert(e.subrange(0, l) =~= dn);
    lemma_inner(s, pos, e, 0, dn);
    assert(s[pos + l] == s.subrange(pos, pos + e.len())[l]);
    lemma_read_decimal(s, pos, b.len(), COLON);
    assert(s[pos] == s.subrange(pos, pos + e.len())[0]);
    assert(e.subrange(l + 1, l + 1 + b.len()) =~= b);
    lemma_inner(s, pos, e, l + 1, b);
}

proof fn lemma_parse_integer_encoded(s: Seq<u8>, pos: int, n: int)
    requires
        0 <= pos,
        i64::MIN <= n <= i64::MAX,
        pos + encoding(Model::Integer(n)).len() <= s.len(),
        s.subrange(pos, pos + encoding(Model::Integer(n)).len()) == encoding(Model::Integer(n)),
    ensures
        forall|d: nat|
            #[trigger] parse_value(s, pos, d) == Ok::<(Model, int), crate::decode::DecodeError>(
                (Model::Integer(n), pos + encoding(Model::Integer(n)).len()),
            ),
{
    let e = encoding(Model::Integer(n));
    let mag: nat = if n < 0 {
        (-n) as nat
    } else {
        n as nat
    };
    let dn = decimal(mag);
    let a: int = if n < 0 {
        pos + 2
    } else {
        pos + 1
    };
    let off: int = a - pos;
    lemma_decimal_digits(mag);
    assert(e == seq![INT_START] + int_text(n) + seq![END]);
    assert(e.len() == off + dn.len() + 1);
    assert(e.subrange(off, off + dn.len()) =~= dn);
    lemma_inner(s, pos, e, off, dn);
    assert(s[a + dn.len()] == s.subrange(pos, pos + e.len())[off + dn.len()]);
    assert(s[pos] == s.subrange(pos, pos + e.len())[0]);
    assert(s[pos + 1] == s.subrange(pos, pos + e.len())[1]);
    if n >= 0 {
        assert(s[pos + 1] == dn[0]);
    }
    lemma_read_decimal(s, a, mag, END);
}

proof fn lemma_items_prefix(items: Seq<Model>, j: nat, n: nat)
    requires
        j <= n <= items.len(),
    ensures
        items_encoding(items, j).len() <= items_encoding(items, n).len(),
        items_encoding(items, n).subrange(0, items_encoding(items, j).len() as int)
            == items_encoding(items, j),
    decreases n - j,
{
    if j < n {
        lemma_items_prefix(items, j, (n - 1) as nat);
        let a = items_encoding(items, j);
        let b = items_encoding(items, (n - 1) as nat);
        assert(items_encoding(items, n) == b + encoding(items[n - 1]));
        assert(items_encoding(items, n).subrange(0, a.len() as int) =~= b.subrange(
            0,
            a.len() as int,
        ));
    } else {
        assert(items_encoding(items, n).subrange(0, items_encoding(items, n).len() as int)
            =~= items_encoding(items, n));
    }
}

proof fn lemma_entries_prefix(entries: Seq<(Seq<u8>, Model)>, j: nat, n: nat)
    requires
        j <= n <= entries.len(),
    ensures
        entries_encoding(entries, j).len() <= entries_encoding(entries, n).len(),
        entries_encoding(entries, n).subrange(0, entries_encoding(entries, j).len() as int)
            == entries_encoding(entries, j),
    decreases n - j,
{
    if j < n {
        lemma_entries_prefix(entries, j, (n - 1) as nat);
        let a = entries_encoding(entries, j);
        let b = entries_encoding(entries, (n - 1) as nat);
        assert(entries_encoding(entries, n) == b + string_encoding(entries[n - 1].0) + encoding(
            entries[n - 1].1,
        ));
        assert(entries_encoding(entries, n).subrange(0, a.len() as int) =~= b.subrange(
            0,
            a.len() as int,
        ));
    } else {
        assert(entries_encoding(entries, n).subrange(0, entries_encoding(entries, n).len() as int)
            =~= entries_encoding(entries, n));
    }
}

proof fn lemma_encoding_head(m: Model)
    ensures
        encoding(m).len() >= 2,
        encoding(m)[0] != END,
{
    match m {
        Model::ByteString(b) => {
            lemma_decimal_digits(b.len());
            assert(string_encoding(b)[0] == decimal(b.len())[0]);
        },
        Model::Integer(n) => {
            if n >= 0 {
                lemma_decimal_digits(n as nat);
            } else {
                lemma_decimal_digits((-n) as nat);
            }
        },
        _ => {},
    }
}

/// The encoding of a value at `pos` parses back as that value.
proof fn lemma_parse_encoded(s: Seq<u8>, pos: int, m: Model, d: nat)
    requires
        within(m, d),
        0 <= pos,
        pos + encoding(m).len() <= s.len(),
        s.subrange(pos, pos + encoding(m).len()) == encoding(m),
    ensures
        parse_value(s, pos, d) == Ok::<(Model, int), crate::decode::DecodeError>(
            (m, pos + encoding(m).len()),
        ),
    decreases m, 0nat,
{
    let e = encoding(m);
    assert(s[pos] == s.subrange(pos, pos + e.len())[0]);
    match m {
        Model::Integer(n) => {
            lemma_parse_integer_encoded(s, pos, n);
        },
        Model::ByteString(b) => {
            lemma_parse_string_encoded(s, pos, b);
            assert(parse_value(s, pos, d) == parse_value(s, pos, 0));
        },
        Model::List(items) => {
            let ie = items_encoding(items, items.len());
            assert(e == seq![LIST_START] + ie + seq![END]);
            assert(e.subrange(1, 1 + ie.len() as int) =~= ie);
            lemma_inner(s, pos, e, 1, ie);
            assert(s[pos + 1 + ie.len() as int] == s.subrange(pos, pos + e.len())[1 + ie.len() as int]);
            lemma_parse_items_encoded(s, pos + 1, items, 0, (d - 1) as nat);
            assert(items.subrange(0, items.len() as int) =~= items);
        },
        Model::Dictionary(entries) => {
            let ee = entries_encoding(entries, entries.len());
            assert(e == seq![DICT_START] + ee + seq![END]);
            assert(e.subrange(1, 1 + ee.len() as int) =~= ee);
            lemma_inner(s, pos, e, 1, ee);
            assert(s[pos + 1 + ee.len() as int] == s.subrange(pos, pos + e.len())[1 + ee.len() as int]);
            assert(entries.subrange(0, 0) =~= Seq::<(Seq<u8>, Model)>::empty());
            assert forall|i: int| 0 <= i < entries.len() implies (#[trigger] entries[i].0).len()
                <= u64::MAX by {
                assert(within(entries[i].1, (d - 1) as nat));
            }
            lemma_parse_entries_encoded(s, pos + 1, entries, 0, (d - 1) as nat);
        },
    }
}

proof fn lemma_parse_items_encoded(s: Seq<u8>, first: int, items: Seq<Model>, k: nat, d: nat)
    requires
        forall|i: int| 0 <= i < items.len() ==> within(#[trigger] items[i], d),
        0 <= first,
        k <= items.len(),
        first + items_encoding(items, items.len()).len() < s.len(),
        s.subrange(first, first + items_encoding(items, items.len()).len()) == items_encoding(
            items,
            items.len(),
        ),
        s[first + items_encoding(items, items.len()).len()] == END,
    ensures
        parse_items(s, first + items_encoding(items, k).len(), d) == Ok::<
            (Seq<Model>, int),
            crate::decode::DecodeError,
        >((items.subrange(k as int, items.len() as int), first + items_encoding(items, items.len()).len() + 1)),
    decreases items, items.len() - k,
{
    let whole = items_encoding(items, items.len());
    let pk = first + items_encoding(items, k).len();
    if k == items.len() {
        assert(items.subrange(k as int, items.len() as int) =~= Seq::<Model>::empty());
    } else {
        lemma_items_prefix(items, k + 1, items.len());
        let before = items_encoding(items, k);
        let item = encoding(items[k as int]);
        assert(items_encoding(items, k + 1) == before + item);
        assert(whole.subrange(before.len() as int, (before.len() + item.len()) as int) =~= item) by {
            assert(whole.subrange(0, (before + item).len() as int) == before + item);
            assert forall|i: int| 0 <= i < item.len() implies whole.subrange(
                before.len() as int,
                (before.len() + item.len()) as int,
            )[i] == item[i] by {
                assert(whole.subrange(0, (before + item).len() as int)[before.len() + i] == (before
                    + item)[before.len() + i]);
            }
        }
        lemma_inner(s, first, whole, before.len() as int, item);
        lemma_encoding_head(items[k as int]);
        assert(s[pk] == s.subrange(pk, pk + item.len())[0]);
        assert(decreases_to!(items => items[k as int]));
        lemma_parse_encoded(s, pk, items[k as int], d);
        lemma_parse_items_encoded(s, first, items, k + 1, d);
        assert(seq![items[k as int]] + items.subrange((k + 1) as int, items.len() as int) =~= items.subrange(
            k as int,
            items.len() as int,
        ));
    }
}

proof fn lemma_parse_entries_encoded(
    s: Seq<u8>,
    first: int,
    entries: Seq<(Seq<u8>, Model)>,
    k: nat,
    d: nat,
)
    requires
        forall|i: int| 0 <= i < entries.len() ==> within(#[trigger] entries[i].1, d),
        forall|i: int| 0 <= i < entries.len() ==> (#[trigger] entries[i].0).len() <= u64::MAX,
        keys_distinct(entries),
        0 <= first,
        k <= entries.len(),
        first + entries_encoding(entries, entries.len()).len() < s.len(),
        s.subrange(first, first + entries_encoding(entries, entries.len()).len()) == entries_encoding(
            entries,
            entries.len(),
        ),
        s[first + entries_encoding(entries, entries.len()).len()] == END,
    ensures
        parse_entries(s, first + entries_encoding(entries, k).len(), d, entries.subrange(0, k as int))
            == Ok::<(Seq<(Seq<u8>, Model)>, int), crate::decode::DecodeError>(
            (
                entries,
                first + entries_encoding(entries, entries.len()).len() + 1,
            ),
        ),
    decreases entries, entries.len() - k,
{
    let whole = entries_encoding(entries, entries.len());
    let pk = first + entries_encoding(entries, k).len();
    if k == entries.len() {
        assert(entries.subrange(0, k as int) =~= entries);
    } else {
        lemma_entries_prefix(entries, k + 1, entries.len());
        let before = entries_encoding(entries, k);
        let key = string_encoding(entries[k as int].0);
        let val = encoding(entries[k as int].1);
        let item = key + val;
        assert(entries_encoding(entries, k + 1) == before + item);
        assert(whole.subrange(before.len() as int, (before.len() + item.len()) as int) =~= item) by {
            assert(whole.subrange(0, (before + item).len() as int) == before + item);
            assert forall|i: int| 0 <= i < item.len() implies whole.subrange(
                before.len() as int,
                (before.len() + item.len()) as int,
            )[i] == item[i] by {
                assert(whole.subrange(0, (before + item).len() as int)[before.len() + i] == (before
                    + item)[before.len() + i]);
            }
        }
        lemma_inner(s, first, whole, before.len() as int, item);
        assert(item.subrange(0, key.len() as int) =~= key);
        assert(item.subrange(key.len() as int, item.len() as int) =~= val);
        lemma_inner(s, pk, item, 0, key);
        lemma_inner(s, pk, item, key.len() as int, val);
        lemma_encoding_head(Model::ByteString(entries[k as int].0));
        assert(s[pk] == s.subrange(pk, pk + key.len())[0]);
        lemma_parse_string_encoded(s, pk, entries[k as int].0);
        assert(parse_value(s, pk, d) == parse_value(s, pk, 0));
        assert(decreases_to!(entries => entries[k as int]));
        assert(decreases_to!(entries[k as int] => entries[k as int].1));
        lemma_parse_encoded(s, pk + key.len(), entries[k as int].1, d);
        lemma_encoding_head(entries[k as int].1);
        let acc = entries.subrange(0, k as int);
        assert(!exists|i: int| 0 <= i < acc.len() && acc[i].0 == entries[k as int].0) by {
            assert forall|i: int| 0 <= i < acc.len() implies acc[i].0 != entries[k as int].0 by {
                assert(acc[i] == entries[i]);
            }
        }
        assert(insert_entry(acc, entries[k as int].0, entries[k as int].1) =~= entries.subrange(
            0,
            (k + 1) as int,
        ));
        lemma_parse_entries_encoded(s, first, entries, k + 1, d);
    }
}

/// Decoding the encoding of any value that the decoder can produce gives that
/// value back, using up every byte.
pub proof fn lemma_decode_encode(m: Model, d: nat)
    requires
        within(m, d),
    ensures
        decoded(encoding(m), d, true) == Ok::<Model, crate::decode::DecodeError>(m),
{
    let s = encoding(m);
    assert(s.subrange(0, s.len() as int) =~= s);
    lemma_parse_encoded(s, 0, m, d);
}

/// Decoding the length-prefixed form of any byte string gives that byte
/// string back, using up every byte, whatever nesting depth is allowed.
pub proof fn lemma_string_round_trip(b: Seq<u8>, d: nat)
    requires
        b.len() <= u64::MAX,
    ensures
        decoded(string_encoding(b), d, true) == Ok::<Model, crate::decode::DecodeError>(
            Model::ByteString(b),
        ),
{
    lemma_decode_encode(Model::ByteString(b), d);
}

/// A well-formed length prefix that declares more bytes than follow it fails
/// with `TruncatedPayload`, never a shorter string.
pub proof fn lemma_truncated_payload(s: Seq<u8>, n: nat, d: nat, strict: bool)
    requires
        n <= u64::MAX,
        decimal(n).len() < s.len(),
        s.subrange(0, decimal(n).len() as int) == decimal(n),
        s[decimal(n).len() as int] == COLON,
        s.len() - (decimal(n).len() + 1) < n,
    ensures
        decoded(s, d, strict) == Err::<Model, crate::decode::DecodeError>(
            crate::decode::DecodeError::TruncatedPayload,
        ),
{
    lemma_decimal_digits(n);
    lemma_read_decimal(s, 0, n, COLON);
    assert(s[0] == s.subrange(0, decimal(n).len() as int)[0]);
}

/// A dictionary whose first key is an integer, a list or a dictionary fails
/// with `NonStringKey`, whatever follows that key.
pub proof fn lemma_non_string_key(k: Model, rest: Seq<u8>, d: nat, strict: bool)
    requires
        d > 0,
        within(k, (d - 1) as nat),
        !(k is ByteString),
    ensures
        decoded(seq![DICT_START] + encoding(k) + rest, d, strict) == Err::<
            Model,
            crate::decode::DecodeError,
        >(crate::decode::DecodeError::NonStringKey),
{
    let s = seq![DICT_START] + encoding(k) + rest;
    let e = encoding(k);
    assert(s.subrange(1, 1 + e.len() as int) =~= e);
    lemma_encoding_head(k);
    assert(s[1] == e[0]);
    lemma_parse_encoded(s, 1, k, (d - 1) as nat);
}

/// Entries whose keys are distinct and fit in 64 bits, and whose values are
/// within `d`.
pub open spec fn entries_within(entries: Seq<(Seq<u8>, Model)>, d: nat) -> bool {
    &&& keys_distinct(entries)
    &&& forall|i: int|
        0 <= i < entries.len() ==> (#[trigger] entries[i]).0.len() <= u64::MAX && within(
            entries[i].1,
            d,
        )
}

proof fn lemma_insert_within(acc: Seq<(Seq<u8>, Model)>, k: Seq<u8>, m: Model, d: nat)
    requires
        entries_within(acc, d),
        k.len() <= u64::MAX,
        within(m, d),
    ensures
        entries_within(insert_entry(acc, k, m), d),
{
    let r = insert_entry(acc, k, m);
    if exists|i: int| 0 <= i < acc.len() && acc[i].0 == k {
        let c = choose|i: int| 0 <= i < acc.len() && acc[i].0 == k;
        assert forall|i: int| 0 <= i < r.len() implies (#[trigger] r[i]).0 == acc[i].0 by {}
    } else {
        assert forall|i: int, j: int| 0 <= i < j < r.len() implies r[i].0 != r[j].0 by {
            if j == acc.len() {
                assert(r[i] == acc[i]);
            } else {
                assert(r[i] == acc[i] && r[j] == acc[j]);
            }
        }
    }
}

proof fn lemma_value_within(s: Seq<u8>, pos: int, d: nat)
    ensures
        parse_value(s, pos, d) matches Ok((m, _)) ==> within(m, d),
    decreases d, s.len() - pos, 0nat,
{
    if 0 <= pos < s.len() {
        if is_digit(s[pos]) {
            if parse_string(s, pos) is Ok {
                crate::decode::lemma_digit_run(s, pos);
                let e = digit_run_end(s, pos);
                let n = digits_value(s, pos, e);
                assert(s.subrange(e + 1, e + 1 + n).len() == n);
            }
        } else if s[pos] == LIST_START && d > 0 {
            lemma_items_within(s, pos + 1, (d - 1) as nat);
        } else if s[pos] == DICT_START && d > 0 {
            lemma_entries_within(s, pos + 1, (d - 1) as nat, Seq::empty());
        }
    }
}

proof fn lemma_items_within(s: Seq<u8>, p: int, d: nat)
    ensures
        parse_items(s, p, d) matches Ok((items, _)) ==> forall|i: int|
            0 <= i < items.len() ==> within(#[trigger] items[i], d),
    decreases d, s.len() - p, 1nat,
{
    if 0 <= p < s.len() && s[p] != END {
        lemma_value_within(s, p, d);
        if let Ok((m, q)) = parse_value(s, p, d) {
            if p < q <= s.len() {
                lemma_items_within(s, q, d);
                if let Ok((rest, _)) = parse_items(s, q, d) {
                    let items = seq![m] + rest;
                    assert forall|i: int| 0 <= i < items.len() implies within(#[trigger] items[i], d) by {
                        if i > 0 {
                            assert(items[i] == rest[i - 1]);
                        }
                    }
                }
            }
        }
    }
}

proof fn lemma_entries_within(s: Seq<u8>, p: int, d: nat, acc: Seq<(Seq<u8>, Model)>)
    requires
        entries_within(acc, d),
    ensures
        parse_entries(s, p, d, acc) matches Ok((entries, _)) ==> entries_within(entries, d),
    decreases d, s.len() - p, 1nat,
{
    if 0 <= p < s.len() && s[p] != END {
        lemma_value_within(s, p, d);
        if let Ok((k, q)) = parse_value(s, p, d) {
            if k is ByteString && p < q <= s.len() {
                lemma_value_within(s, q, d);
                if let Ok((m, r)) = parse_value(s, q, d) {
                    if q < r <= s.len() {
                        lemma_insert_within(acc, k->ByteString_0, m, d);
                        lemma_entries_within(s, r, d, insert_entry(acc, k->ByteString_0, m));
                    }
                }
            }
        }
    }
}

/// Every value that decoding gives is within the allowed depth, has integers
/// and byte-string lengths that fit in 64 bits, and has dictionaries that hold
/// each key once.
pub proof fn lemma_decoded_within(s: Seq<u8>, d: nat, strict: bool)
    ensures
        decoded(s, d, strict) matches Ok(m) ==> within(m, d),
{
    lemma_value_within(s, 0, d);
}

} // verus!
