use vstd::prelude::*;
use crate::round_trip::{lemma_decoded_within, within};
use crate::value::{
    bytes_equal, entry_models, lemma_dictionary_model, lemma_list_model, models, Model, Value, COLON, DICT_START,
    END, INT_START, LIST_START, MINUS, ZERO,
};

verus! {

broadcast use vstd::std_specs::vec::group_vec_axioms, vstd::seq::group_seq_axioms;

/// Why a byte sequence is not a bencode value.
#[derive(PartialEq, Eq, Structural, Debug, Clone, Copy)]
pub enum DecodeError {
    /// A length prefix has a leading zero, does not fit in 64 bits, or is not
    /// followed by ':'.
    MalformedLength,
    /// A list, dictionary or integer is missing its closing 'e'.
    UnterminatedValue,
    /// A dictionary key decoded to something other than a byte string.
    NonStringKey,
    /// The next byte starts no value, or the input ended where a value was due.
    UnexpectedLeadingByte,
    /// A length prefix declares more bytes than remain.
    TruncatedPayload,
    /// An integer is empty, has a leading zero, is "-0", holds a non-digit,
    /// or does not fit in 64 bits.
    InvalidInteger,
    /// Lists and dictionaries are nested deeper than allowed.
    TooDeep,
    /// Bytes follow the first complete value where none were allowed.
    TrailingBytes,
}

pub open spec fn is_digit(b: u8) -> bool {
    ZERO <= b <= ZERO + 9
}

/// The end of the run of ASCII digits that starts at `i`.
pub open spec fn digit_run_end(s: Seq<u8>, i: int) -> int
    decreases s.len() - i,
{
    if 0 <= i < s.len() && is_digit(s[i]) {
        digit_run_end(s, i + 1)
    } else {
        i
    }
}

/// The number that the digits in `s[a..b]` spell in base ten.
pub open spec fn digits_value(s: Seq<u8>, a: int, b: int) -> nat
    decreases b - a,
{
    if b <= a {
        0
    } else {
        digits_value(s, a, b - 1) * 10 + (s[b - 1] - ZERO) as nat
    }
}

/// The byte string that starts at `pos` (on a digit), and where it ends.
pub open spec fn parse_string(s: Seq<u8>, pos: int) -> Result<(Model, int), DecodeError> {
    let e = digit_run_end(s, pos);
    let n = digits_value(s, pos, e);
    if s[pos] == ZERO && e > pos + 1 {
        Err(DecodeError::MalformedLength)
    } else if e >= s.len() || s[e] != COLON {
        Err(DecodeError::MalformedLength)
    } else if n > u64::MAX {
        Err(DecodeError::MalformedLength)
    } else if n > s.len() - (e + 1) {
        Err(DecodeError::TruncatedPayload)
    } else {
        Ok((Model::ByteString(s.subrange(e + 1, e + 1 + n)), e + 1 + n))
    }
}

/// The integer that starts at `pos` (on 'i'), and where it ends.
pub open spec fn parse_integer(s: Seq<u8>, pos: int) -> Result<(Model, int), DecodeError> {
    let neg = pos + 1 < s.len() && s[pos + 1] == MINUS;
    let a = if neg {
        pos + 2
    } else {
        pos + 1
    };
    let e = digit_run_end(s, a);
    let n = digits_value(s, a, e);
    let v: int = if neg {
        -n
    } else {
        n as int
    };
    if e >= s.len() {
        Err(DecodeError::UnterminatedValue)
    } else if s[e] != END || e == a {
        Err(DecodeError::InvalidInteger)
    } else if s[a] == ZERO && (e > a + 1 || neg) {
        Err(DecodeError::InvalidInteger)
    } else if v < i64::MIN || v > i64::MAX {
        Err(DecodeError::InvalidInteger)
    } else {
        Ok((Model::Integer(v), e + 1))
    }
}

/// The value that starts at `pos`, and where it ends, with lists and
/// dictionaries nested at most `depth` deep.
pub open spec fn parse_value(s: Seq<u8>, pos: int, depth: nat) -> Result<(Model, int), DecodeError>
    decreases depth, s.len() - pos, 0nat,
{
    if pos < 0 || pos >= s.len() {
        Err(DecodeError::UnexpectedLeadingByte)
    } else if is_digit(s[pos]) {
        parse_string(s, pos)
    } else if s[pos] == INT_START {
        parse_integer(s, pos)
    } else if s[pos] == LIST_START {
        if depth == 0 {
            Err(DecodeError::TooDeep)
        } else {
            match parse_items(s, pos + 1, (depth - 1) as nat) {
                Ok((items, e)) => Ok((Model::List(items), e)),
                Err(x) => Err(x),
            }
        }
    } else if s[pos] == DICT_START {
        if depth == 0 {
            Err(DecodeError::TooDeep)
        } else {
            match parse_entries(s, pos + 1, (depth - 1) as nat, Seq::empty()) {
                Ok((entries, e)) => Ok((Model::Dictionary(entries), e)),
                Err(x) => Err(x),
            }
        }
    } else {
        Err(DecodeError::UnexpectedLeadingByte)
    }
}

/// The items of a list from `p` up to and including its closing 'e'.
pub open spec fn parse_items(s: Seq<u8>, p: int, depth: nat) -> Result<(Seq<Model>, int), DecodeError>
    decreases depth, s.len() - p, 1nat,
{
    if p < 0 || p >= s.len() {
        Err(DecodeError::UnterminatedValue)
    } else if s[p] == END {
        Ok((Seq::empty(), p + 1))
    } else {
        match parse_value(s, p, depth) {
            Err(x) => Err(x),
            Ok((m, q)) => if q <= p || q > s.len() {
                Err(DecodeError::UnterminatedValue)
            } else {
                match parse_items(s, q, depth) {
                    Ok((rest, e)) => Ok((seq![m] + rest, e)),
                    Err(x) => Err(x),
                }
            },
        }
    }
}

/// Whether no two entries have the same key.
pub open spec fn keys_distinct(entries: Seq<(Seq<u8>, Model)>) -> bool {
    forall|i: int, j: int| 0 <= i < j < entries.len() ==> entries[i].0 != entries[j].0
}

/// `entries` with `k` mapped to `m`: the value of an entry with key `k` is
/// replaced in its place, or a new entry is added at the end.
pub open spec fn insert_entry(entries: Seq<(Seq<u8>, Model)>, k: Seq<u8>, m: Model) -> Seq<
    (Seq<u8>, Model),
> {
    if exists|i: int| 0 <= i < entries.len() && entries[i].0 == k {
        entries.update(choose|i: int| 0 <= i < entries.len() && entries[i].0 == k, (k, m))
    } else {
        entries.push((k, m))
    }
}

/// The entries of a dictionary from `p` up to and including its closing 'e',
/// inserted into `acc` one by one, so that a later value for a key replaces an
/// earlier one.
pub open spec fn parse_entries(s: Seq<u8>, p: int, depth: nat, acc: Seq<(Seq<u8>, Model)>) -> Result<
    (Seq<(Seq<u8>, Model)>, int),
    DecodeError,
>
    decreases depth, s.len() - p, 1nat,
{
    if p < 0 || p >= s.len() {
        Err(DecodeError::UnterminatedValue)
    } else if s[p] == END {
        Ok((acc, p + 1))
    } else {
        match parse_value(s, p, depth) {
            Err(x) => Err(x),
            Ok((k, q)) => if !(k is ByteString) {
                Err(DecodeError::NonStringKey)
            } else if q <= p || q > s.len() {
                Err(DecodeError::UnterminatedValue)
            } else {
                match parse_value(s, q, depth) {
                    Err(x) => Err(x),
                    Ok((m, r)) => if r <= q || r > s.len() {
                        Err(DecodeError::UnterminatedValue)
                    } else {
                        parse_entries(s, r, depth, insert_entry(acc, k->ByteString_0, m))
                    },
                }
            },
        }
    }
}

/// `acc` put in front of the sequence that a parse produced.
pub open spec fn prepend<T>(acc: Seq<T>, r: Result<(Seq<T>, int), DecodeError>) -> Result<
    (Seq<T>, int),
    DecodeError,
> {
    match r {
        Ok((rest, e)) => Ok((acc + rest, e)),
        Err(x) => Err(x),
    }
}

/// An executable parse result matches the specified one.
pub open spec fn agrees(r: Result<(Value, usize), DecodeError>, t: Result<(Model, int), DecodeError>) -> bool {
    match (r, t) {
        (Ok((v, e)), Ok((m, f))) => v.model() == m && e == f,
        (Err(x), Err(y)) => x == y,
        _ => false,
    }
}

pub(crate) proof fn lemma_digit_run(s: Seq<u8>, a: int)
    requires
        0 <= a <= s.len(),
    ensures
        a <= digit_run_end(s, a) <= s.len(),
        forall|i: int| a <= i < digit_run_end(s, a) ==> is_digit(s[i]),
        digit_run_end(s, a) < s.len() ==> !is_digit(s[digit_run_end(s, a)]),
    decreases s.len() - a,
{
    if a < s.len() && is_digit(s[a]) {
        lemma_digit_run(s, a + 1);
    }
}

/// The end of the run of digits that starts at `a`.
fn scan_digits(s: &Vec<u8>, a: usize) -> (e: usize)
    requires
        a <= s.len(),
    ensures
        e == digit_run_end(s@, a as int),
{
    let mut i: usize = a;
    while i < s.len() && ZERO <= s[i] && s[i] <= ZERO + 9
        invariant
            a <= i <= s.len(),
            digit_run_end(s@, i as int) == digit_run_end(s@, a as int),
        decreases s.len() - i,
    {
        i = i + 1;
    }
    i
}

/// The value of the digits in `s[a..e]`, or `cap` where it is at least `cap`.
fn capped_value(s: &Vec<u8>, a: usize, e: usize, cap: u128) -> (r: u128)
    requires
        a <= e <= s.len(),
        cap <= 0x1_0000_0000_0000_0000u128,
        forall|i: int| a <= i < e ==> is_digit(s@[i]),
    ensures
        r == if digits_value(s@, a as int, e as int) < cap {
            digits_value(s@, a as int, e as int)
        } else {
            cap as nat
        },
{
    let mut acc: u128 = 0;
    let mut i: usize = a;
    while i < e
        invariant
            a <= i <= e <= s.len(),
            cap <= 0x1_0000_0000_0000_0000u128,
            forall|j: int| a <= j < e ==> is_digit(s@[j]),
            acc == if digits_value(s@, a as int, i as int) < cap {
                digits_value(s@, a as int, i as int)
            } else {
                cap as nat
            },
        decreases e - i,
    {
        let d: u128 = (s[i] - ZERO) as u128;
        let ghost before = digits_value(s@, a as int, i as int);
        proof {
            assert(digits_value(s@, a as int, i + 1) == before * 10 + d);
            assert(before * 10 >= before) by (nonlinear_arith)
                requires before >= 0;
        }
        if acc >= cap {
            acc = cap;
        } else {
            let next: u128 = acc * 10 + d;
            acc = if next < cap { next } else { cap };
        }
        i = i + 1;
    }
    acc
}

fn decode_string(s: &Vec<u8>, pos: usize) -> (r: Result<(Value, usize), DecodeError>)
    requires
        pos < s.len(),
        is_digit(s@[pos as int]),
    ensures
        agrees(r, parse_string(s@, pos as int)),
        r matches Ok((_, e)) ==> pos < e <= s.len(),
{
    let e = scan_digits(s, pos);
    proof {
        lemma_digit_run(s@, pos as int);
    }
    if s[pos] == ZERO && e > pos + 1 {
        return Err(DecodeError::MalformedLength);
    }
    if e >= s.len() || s[e] != COLON {
        return Err(DecodeError::MalformedLength);
    }
    let n = capped_value(s, pos, e, 0x1_0000_0000_0000_0000u128);
    if n > 0xffff_ffff_ffff_ffffu128 {
        return Err(DecodeError::MalformedLength);
    }
    if n > (s.len() - (e + 1)) as u128 {
        return Err(DecodeError::TruncatedPayload);
    }
    let n: usize = n as usize;
    let mut b: Vec<u8> = Vec::new();
    let mut i: usize = e + 1;
    while i < e + 1 + n
        invariant
            e + 1 <= i <= e + 1 + n <= s.len(),
            b@ == s@.subrange(e + 1, i as int),
        decreases e + 1 + n - i,
    {
        b.push(s[i]);
        i = i + 1;
        assert(b@ =~= s@.subrange(e + 1, i as int));
    }
    Ok((Value::ByteString(b), e + 1 + n))
}

fn decode_integer(s: &Vec<u8>, pos: usize) -> (r: Result<(Value, usize), DecodeError>)
    requires
        pos < s.len(),
        s@[pos as int] == INT_START,
    ensures
        agrees(r, parse_integer(s@, pos as int)),
        r matches Ok((_, e)) ==> pos < e <= s.len(),
{
    let neg = pos + 1 < s.len() && s[pos + 1] == MINUS;
    let a: usize = if neg { pos + 2 } else { pos + 1 };
    let e = scan_digits(s, a);
    proof {
        lemma_digit_run(s@, a as int);
    }
    if e >= s.len() {
        return Err(DecodeError::UnterminatedValue);
    }
    if s[e] != END || e == a {
        return Err(DecodeError::InvalidInteger);
    }
    if s[a] == ZERO && (e > a + 1 || neg) {
        return Err(DecodeError::InvalidInteger);
    }
    let n = capped_value(s, a, e, 0x8000_0000_0000_0001u128);
    if neg {
        if n > 0x8000_0000_0000_0000u128 {
            return Err(DecodeError::InvalidInteger);
        }
        let v: i64 = (0i128 - (n as i128)) as i64;
        Ok((Value::Integer(v), e + 1))
    } else {
        if n > 0x7fff_ffff_ffff_ffffu128 {
            return Err(DecodeError::InvalidInteger);
        }
        Ok((Value::Integer(n as i64), e + 1))
    }
}

fn decode_value(s: &Vec<u8>, pos: usize, depth: usize) -> (r: Result<(Value, usize), DecodeError>)
    requires
        pos <= s.len(),
    ensures
        agrees(r, parse_value(s@, pos as int, depth as nat)),
        r matches Ok((_, e)) ==> pos < e <= s.len(),
    decreases depth, 1nat,
{
    if pos >= s.len() {
        Err(DecodeError::UnexpectedLeadingByte)
    } else if ZERO <= s[pos] && s[pos] <= ZERO + 9 {
        decode_string(s, pos)
    } else if s[pos] == INT_START {
        decode_integer(s, pos)
    } else if s[pos] == LIST_START {
        if depth == 0 {
            Err(DecodeError::TooDeep)
        } else {
            decode_list(s, pos, depth)
        }
    } else if s[pos] == DICT_START {
        if depth == 0 {
            Err(DecodeError::TooDeep)
        } else {
            decode_dictionary(s, pos, depth)
        }
    } else {
        Err(DecodeError::UnexpectedLeadingByte)
    }
}

fn decode_list(s: &Vec<u8>, pos: usize, depth: usize) -> (r: Result<(Value, usize), DecodeError>)
    requires
        pos < s.len(),
        s@[pos as int] == LIST_START,
        depth > 0,
    ensures
        agrees(r, parse_value(s@, pos as int, depth as nat)),
        r matches Ok((_, e)) ==> pos < e <= s.len(),
    decreases depth, 0nat,
{
    let ghost d: nat = (depth - 1) as nat;
    let mut items: Vec<Value> = Vec::new();
    let mut p: usize = pos + 1;
    while p < s.len() && s[p] != END
        invariant
            pos + 1 <= p <= s.len(),
            s@[pos as int] == LIST_START,
            depth > 0,
            d == depth - 1,
            prepend(models(items@), parse_items(s@, p as int, d)) == parse_items(
                s@,
                pos + 1,
                d,
            ),
        decreases s.len() - p,
    {
        match decode_value(s, p, depth - 1) {
            Err(x) => {
                assert(parse_items(s@, p as int, d) == Err::<(Seq<Model>, int), DecodeError>(x));
                return Err(x);
            },
            Ok((v, q)) => {
                let ghost acc = models(items@);
                let ghost m = v.model();
                items.push(v);
                proof {
                    assert(models(items@) =~= acc.push(m));
                    match parse_items(s@, q as int, d) {
                        Ok((rest, e)) => {
                            assert(acc + (seq![m] + rest) =~= acc.push(m) + rest);
                        },
                        Err(_) => {},
                    }
                }
                p = q;
            },
        }
    }
    if p >= s.len() {
        return Err(DecodeError::UnterminatedValue);
    }
    proof {
        lemma_list_model(items);
        assert(models(items@) + Seq::<Model>::empty() =~= models(items@));
    }
    Ok((Value::List(items), p + 1))
}

/// The index of the entry with key `key`, if any.
fn find_key(entries: &Vec<(Vec<u8>, Value)>, key: &Vec<u8>) -> (r: Option<usize>)
    ensures
        r matches Some(j) ==> j < entries.len() && entries@[j as int].0@ == key@,
        r is None ==> forall|i: int| 0 <= i < entries.len() ==> entries@[i].0@ != key@,
{
    let mut i: usize = 0;
    while i < entries.len()
        invariant
            0 <= i <= entries.len(),
            forall|k: int| 0 <= k < i ==> entries@[k].0@ != key@,
        decreases entries.len() - i,
    {
        if bytes_equal(&entries[i].0, key) {
            return Some(i);
        }
        i = i + 1;
    }
    None
}

fn decode_dictionary(s: &Vec<u8>, pos: usize, depth: usize) -> (r: Result<(Value, usize), DecodeError>)
    requires
        pos < s.len(),
        s@[pos as int] == DICT_START,
        depth > 0,
    ensures
        agrees(r, parse_value(s@, pos as int, depth as nat)),
        r matches Ok((_, e)) ==> pos < e <= s.len(),
    decreases depth, 0nat,
{
    let ghost d: nat = (depth - 1) as nat;
    let mut entries: Vec<(Vec<u8>, Value)> = Vec::new();
    let mut p: usize = pos + 1;
    assert(entry_models(entries@) =~= Seq::<(Seq<u8>, Model)>::empty());
    while p < s.len() && s[p] != END
        invariant
            pos + 1 <= p <= s.len(),
            s@[pos as int] == DICT_START,
            depth > 0,
            d == depth - 1,
            parse_entries(s@, p as int, d, entry_models(entries@)) == parse_entries(
                s@,
                pos + 1,
                d,
                Seq::empty(),
            ),
            keys_distinct(entry_models(entries@)),
        decreases s.len() - p,
    {
        let (key, q) = match decode_value(s, p, depth - 1) {
            Err(x) => {
                assert(parse_entries(s@, p as int, d, entry_models(entries@)) == Err::<(Seq<(Seq<u8>, Model)>, int), DecodeError>(x));
                return Err(x);
            },
            Ok((Value::ByteString(k), q)) => (k, q),
            Ok(_) => {
                assert(parse_entries(s@, p as int, d, entry_models(entries@)) == Err::<(Seq<(Seq<u8>, Model)>, int), DecodeError>(DecodeError::NonStringKey));
                return Err(DecodeError::NonStringKey);
            },
        };
        match decode_value(s, q, depth - 1) {
            Err(x) => {
                assert(parse_entries(s@, p as int, d, entry_models(entries@)) == Err::<(Seq<(Seq<u8>, Model)>, int), DecodeError>(x));
                return Err(x);
            },
            Ok((v, r)) => {
                let ghost acc = entry_models(entries@);
                let ghost m = v.model();
                let ghost k = key@;
                match find_key(&entries, &key) {
                    Some(j) => {
                        entries.set(j, (key, v));
                        proof {
                            assert(acc[j as int].0 == k);
                            let c = choose|i: int| 0 <= i < acc.len() && acc[i].0 == k;
                            assert(c == j);
                            assert(entry_models(entries@) =~= acc.update(j as int, (k, m)));
                        }
                    },
                    None => {
                        entries.push((key, v));
                        proof {
                            assert(!exists|i: int| 0 <= i < acc.len() && acc[i].0 == k);
                            assert(entry_models(entries@) =~= acc.push((k, m)));
                        }
                    },
                }
                assert(entry_models(entries@) == insert_entry(acc, k, m));
                p = r;
            },
        }
    }
    if p >= s.len() {
        return Err(DecodeError::UnterminatedValue);
    }
    proof {
        lemma_dictionary_model(entries);
    }
    Ok((Value::Dictionary(entries), p + 1))
}

/// The nesting depth that `decode` allows.
pub const DEFAULT_MAX_DEPTH: usize = 64;

/// What decoding `s` gives: the first value, nested at most `depth` deep;
/// where `strict` holds, bytes after it are an error.
pub open spec fn decoded(s: Seq<u8>, depth: nat, strict: bool) -> Result<Model, DecodeError> {
    match parse_value(s, 0, depth) {
        Ok((m, e)) => if strict && e != s.len() {
            Err(DecodeError::TrailingBytes)
        } else {
            Ok(m)
        },
        Err(x) => Err(x),
    }
}

/// The model of a decoding result.
pub open spec fn result_model(r: Result<Value, DecodeError>) -> Result<Model, DecodeError> {
    match r {
        Ok(v) => Ok(v.model()),
        Err(x) => Err(x),
    }
}

/// Decodes the bencode value at the start of `bytes`, with lists and
/// dictionaries nested at most `max_depth` deep; where `strict` holds, bytes
/// after that value are rejected, else ignored.
pub fn decode_with(bytes: &Vec<u8>, max_depth: usize, strict: bool) -> (r: Result<Value, DecodeError>)
    ensures
        result_model(r) == decoded(bytes@, max_depth as nat, strict),
        r matches Ok(v) ==> within(v.model(), max_depth as nat),
{
    proof {
        lemma_decoded_within(bytes@, max_depth as nat, strict);
    }
    match decode_value(bytes, 0, max_depth) {
        Ok((v, e)) => {
            if strict && e != bytes.len() {
                Err(DecodeError::TrailingBytes)
            } else {
                Ok(v)
            }
        },
        Err(x) => Err(x),
    }
}

/// Decodes the bencode value at the start of `bytes`, ignoring what follows it.
pub fn decode(bytes: &Vec<u8>) -> (r: Result<Value, DecodeError>)
    ensures
        result_model(r) == decoded(bytes@, DEFAULT_MAX_DEPTH as nat, false),
        r matches Ok(v) ==> within(v.model(), DEFAULT_MAX_DEPTH as nat),
{
    decode_with(bytes, DEFAULT_MAX_DEPTH, false)
}

/// Decodes the bencode value at the start of `encoded_value`, ignoring what
/// follows it.
pub fn decode_bencoded_structure(encoded_value: Vec<u8>) -> (r: Result<Value, DecodeError>)
    ensures
        result_model(r) == decoded(encoded_value@, DEFAULT_MAX_DEPTH as nat, false),
        r matches Ok(v) ==> within(v.model(), DEFAULT_MAX_DEPTH as nat),
{
    decode(&encoded_value)
}

} // verus!
