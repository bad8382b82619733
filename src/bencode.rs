use vstd::prelude::*;
use vstd::string::StringSliceAdditionalSpecFns;

use crate::grammar::{
    is_prefix, lemma_bytes_text_prefix_free, lemma_digit_text, lemma_entries_canonical_at,
    lemma_entries_text_prefix, lemma_first_byte, lemma_int_text, lemma_items_canonical_at,
    lemma_items_text_prefix, lemma_prefix_chain, lemma_prefix_cons, lemma_prefix_drop,
    lemma_prefix_free, lemma_prefix_index, lemma_prefix_of_concat,
};

verus! {

broadcast use vstd::std_specs::vec::group_vec_axioms;

/// A bencoded value: an integer, a byte string, a list, or a dictionary
/// whose keys are byte strings.
#[derive(Debug)]
pub enum Value {
    Int(i64),
    Bytes(Vec<u8>),
    List(Vec<Value>),
    Dict(Vec<(Vec<u8>, Value)>),
}

/// ASCII decimal digits of `n`, most significant first, without leading zeros.
pub open spec fn digit_text(n: nat) -> Seq<u8>
    decreases n,
{
    if n < 10 {
        seq![(n + 48) as u8]
    } else {
        digit_text(n / 10) + seq![((n % 10) + 48) as u8]
    }
}

/// Decimal text of a signed integer: a minus sign for negative numbers.
pub open spec fn int_text(i: int) -> Seq<u8> {
    if i < 0 {
        seq![45u8] + digit_text((-i) as nat)
    } else {
        digit_text(i as nat)
    }
}

/// `<len>:<bytes>`
pub open spec fn bytes_text(b: Seq<u8>) -> Seq<u8> {
    digit_text(b.len()) + seq![58u8] + b
}

/// The encoding of a value, entries in their stored order; canonical when
/// the value is.
pub open spec fn encoding(v: Value) -> Seq<u8>
    decreases v, 1nat, 0nat,
{
    match v {
        Value::Int(i) => seq![105u8] + int_text(i as int) + seq![101u8],
        Value::Bytes(b) => bytes_text(b@),
        Value::List(items) => seq![108u8] + items_text(items@, items@.len()) + seq![101u8],
        Value::Dict(entries) => seq![100u8] + entries_text(entries@, entries@.len()) + seq![101u8],
    }
}

/// Concatenated encodings of the first `n` items.
pub open spec fn items_text(items: Seq<Value>, n: nat) -> Seq<u8>
    decreases items, 0nat, n,
{
    if n == 0 || n > items.len() {
        Seq::empty()
    } else {
        items_text(items, (n - 1) as nat) + encoding(items[n - 1])
    }
}

/// Concatenated `<key><value>` encodings of the first `n` entries.
pub open spec fn entries_text(entries: Seq<(Vec<u8>, Value)>, n: nat) -> Seq<u8>
    decreases entries, 0nat, n,
{
    if n == 0 || n > entries.len() {
        Seq::empty()
    } else {
        entries_text(entries, (n - 1) as nat) + bytes_text(entries[n - 1].0@) + encoding(
            entries[n - 1].1,
        )
    }
}


/// Byte-wise lexicographic order: `a` sorts strictly before `b`.
pub open spec fn lex_lt(a: Seq<u8>, b: Seq<u8>) -> bool {
    exists|i: int|
        0 <= i <= a.len() && i <= b.len() && a.subrange(0, i) == b.subrange(0, i) && ((i
            == a.len() && i < b.len()) || (i < a.len() && i < b.len() && a[i] < b[i]))
}

/// A value in canonical form: every dictionary lists its keys in strictly
/// increasing byte order.
pub open spec fn is_canonical(v: Value) -> bool
    decreases v, 1nat, 0nat,
{
    match v {
        Value::Int(_) => true,
        Value::Bytes(_) => true,
        Value::List(items) => items_canonical(items@, items@.len()),
        Value::Dict(entries) => entries_canonical(entries@, entries@.len()),
    }
}

/// The first `n` items are canonical.
pub open spec fn items_canonical(items: Seq<Value>, n: nat) -> bool
    decreases items, 0nat, n,
{
    if n == 0 || n > items.len() {
        n == 0
    } else {
        items_canonical(items, (n - 1) as nat) && is_canonical(items[n - 1])
    }
}

/// The first `n` entries hold canonical values under strictly increasing keys.
pub open spec fn entries_canonical(entries: Seq<(Vec<u8>, Value)>, n: nat) -> bool
    decreases entries, 0nat, n,
{
    if n == 0 || n > entries.len() {
        n == 0
    } else {
        &&& entries_canonical(entries, (n - 1) as nat)
        &&& is_canonical(entries[n - 1].1)
        &&& (n >= 2 ==> lex_lt(entries[n - 2].0@, entries[n - 1].0@))
    }
}

pub proof fn lemma_items_canonical_push(s: Seq<Value>, w: Value, n: nat)
    requires
        n <= s.len(),
    ensures
        items_canonical(s.push(w), n) == items_canonical(s, n),
    decreases n,
{
    if n > 0 {
        lemma_items_canonical_push(s, w, (n - 1) as nat);
        assert(s.push(w)[n - 1] == s[n - 1]);
    }
}

pub proof fn lemma_entries_canonical_push(s: Seq<(Vec<u8>, Value)>, w: (Vec<u8>, Value), n: nat)
    requires
        n <= s.len(),
    ensures
        entries_canonical(s.push(w), n) == entries_canonical(s, n),
    decreases n,
{
    if n > 0 {
        lemma_entries_canonical_push(s, w, (n - 1) as nat);
        assert(s.push(w)[n - 1] == s[n - 1]);
        if n >= 2 {
            assert(s.push(w)[n - 2] == s[n - 2]);
        }
    }
}

pub proof fn lemma_items_text_push(s: Seq<Value>, w: Value, n: nat)
    requires
        n <= s.len(),
    ensures
        items_text(s.push(w), n) == items_text(s, n),
    decreases n,
{
    if n > 0 {
        lemma_items_text_push(s, w, (n - 1) as nat);
        assert(s.push(w)[n - 1] == s[n - 1]);
    }
}

pub proof fn lemma_entries_text_push(s: Seq<(Vec<u8>, Value)>, w: (Vec<u8>, Value), n: nat)
    requires
        n <= s.len(),
    ensures
        entries_text(s.push(w), n) == entries_text(s, n),
    decreases n,
{
    if n > 0 {
        lemma_entries_text_push(s, w, (n - 1) as nat);
        assert(s.push(w)[n - 1] == s[n - 1]);
    }
}

/// Why a byte string is not a canonical bencoding.
#[derive(Debug, Clone, Copy, PartialEq, Eq, Structural)]
pub enum BencodeError {
    /// The input ends inside a value.
    UnexpectedEnd,
    /// A value starts with a byte other than `i`, `l`, `d` or a digit.
    InvalidPrefix,
    /// An integer is malformed, out of range, or not in canonical form.
    InvalidInteger,
    /// A string length prefix is malformed or longer than the input.
    InvalidLength,
    /// Dictionary keys are not strictly increasing.
    UnsortedKeys,
    /// A dictionary key is not a byte string.
    NonStringKey,
    /// Bytes follow the encoded value.
    TrailingData,
}


pub open spec fn is_digit(b: u8) -> bool {
    48 <= b <= 57
}

pub open spec fn all_digits(s: Seq<u8>) -> bool {
    forall|i: int| 0 <= i < s.len() ==> is_digit(#[trigger] s[i])
}

/// The number written by a string of ASCII decimal digits.
pub open spec fn digits_value(s: Seq<u8>) -> nat
    decreases s.len(),
{
    if s.len() == 0 {
        0
    } else {
        digits_value(s.drop_last()) * 10 + (s.last() - 48) as nat
    }
}

proof fn lemma_digits_value_prefix(s: Seq<u8>, k: int, j: int)
    requires
        0 <= k <= j <= s.len(),
        all_digits(s),
    ensures
        digits_value(s.subrange(0, k)) <= digits_value(s.subrange(0, j)),
    decreases j - k,
{
    if k < j {
        lemma_digits_value_prefix(s, k, j - 1);
        assert(s.subrange(0, j).drop_last() == s.subrange(0, j - 1));
        assert(is_digit(s[j - 1]));
    }
}

/// Reads the decimal number written in `buf[start..stop]`; `None` when that
/// range is empty, holds a byte that is not a digit, or names a number that
/// does not fit in 64 bits.
fn parse_decimal(buf: &[u8], start: usize, stop: usize) -> (r: Option<u64>)
    requires
        start <= stop <= buf@.len(),
    ensures
        r is Some <==> (start < stop && all_digits(buf@.subrange(start as int, stop as int))
            && digits_value(buf@.subrange(start as int, stop as int)) <= u64::MAX),
        r matches Some(n) ==> n == digits_value(buf@.subrange(start as int, stop as int)),
{
    if start == stop {
        return None;
    }
    let ghost whole = buf@.subrange(start as int, stop as int);
    let mut acc: u64 = 0;
    let mut k: usize = start;
    while k < stop
        invariant
            start <= k <= stop <= buf@.len(),
            whole == buf@.subrange(start as int, stop as int),
            all_digits(buf@.subrange(start as int, k as int)),
            acc == digits_value(buf@.subrange(start as int, k as int)),
        decreases stop - k,
    {
        let b = buf[k];
        if b < 48 || b > 57 {
            assert(whole[k - start] == b);
            return None;
        }
        let d = (b - 48) as u64;
        let ghost next = buf@.subrange(start as int, k + 1);
        assert(next.drop_last() == buf@.subrange(start as int, k as int));
        assert(all_digits(next));
        if acc > (u64::MAX - d) / 10 {
            proof {
                assert(acc * 10 + d > u64::MAX) by (nonlinear_arith)
                    requires
                        acc > (u64::MAX - d) / 10,
                        d <= 9,
                ;
                assert(whole.subrange(0, k + 1 - start) == next);
                if all_digits(whole) {
                    lemma_digits_value_prefix(whole, k + 1 - start, whole.len() as int);
                    assert(whole.subrange(0, whole.len() as int) == whole);
                }
            }
            return None;
        }
        assert(acc * 10 + d <= u64::MAX) by (nonlinear_arith)
            requires
                acc <= (u64::MAX - d) / 10,
                d <= 9,
        ;
        acc = acc * 10 + d;
        k = k + 1;
    }
    assert(buf@.subrange(start as int, k as int) == whole);
    Some(acc)
}

/// Whether the two byte slices are equal.
pub fn bytes_equal(a: &[u8], b: &[u8]) -> (r: bool)
    ensures
        r == (a@ == b@),
{
    if a.len() != b.len() {
        return false;
    }
    let mut k: usize = 0;
    while k < a.len()
        invariant
            k <= a@.len(),
            a@.len() == b@.len(),
            a@.subrange(0, k as int) == b@.subrange(0, k as int),
        decreases a@.len() - k,
    {
        if a[k] != b[k] {
            return false;
        }
        k = k + 1;
        assert(a@.subrange(0, k as int) == a@.subrange(0, k - 1) + seq![a@[k - 1]]);
        assert(b@.subrange(0, k as int) == b@.subrange(0, k - 1) + seq![b@[k - 1]]);
    }
    assert(a@ == a@.subrange(0, k as int));
    assert(b@ == b@.subrange(0, k as int));
    true
}

/// Whether `a` sorts strictly before `b` in byte-wise lexicographic order.
pub fn bytes_less(a: &[u8], b: &[u8]) -> (r: bool)
    ensures
        r == lex_lt(a@, b@),
{
    let mut k: usize = 0;
    while k < a.len() && k < b.len() && a[k] == b[k]
        invariant
            k <= a@.len(),
            k <= b@.len(),
            a@.subrange(0, k as int) == b@.subrange(0, k as int),
        decreases a@.len() - k,
    {
        k = k + 1;
        assert(a@.subrange(0, k as int) == a@.subrange(0, k - 1) + seq![a@[k - 1]]);
        assert(b@.subrange(0, k as int) == b@.subrange(0, k - 1) + seq![b@[k - 1]]);
    }
    let r = if k == a.len() {
        k < b.len()
    } else if k == b.len() {
        false
    } else {
        a[k] < b[k]
    };
    proof {
        if r {
            assert(lex_lt(a@, b@));
        } else {
            assert forall|i: int|
                0 <= i <= a@.len() && i <= b@.len() && a@.subrange(0, i) == b@.subrange(
                    0,
                    i,
                ) implies !((i == a@.len() && i < b@.len()) || (i < a@.len() && i < b@.len()
                && a@[i] < b@[i])) by {
                if i < k {
                    assert(a@.subrange(0, k as int)[i] == a@[i]);
                    assert(b@.subrange(0, k as int)[i] == b@[i]);
                } else if i > k {
                    assert(a@.subrange(0, i)[k as int] == a@[k as int]);
                    assert(b@.subrange(0, i)[k as int] == b@[k as int]);
                }
            }
        }
    }
    r
}


/// The first index at or after `from` that does not hold an ASCII digit, or
/// the length of `buf`.
fn skip_digits(buf: &[u8], from: usize) -> (r: usize)
    requires
        from <= buf@.len(),
    ensures
        from <= r <= buf@.len(),
        all_digits(buf@.subrange(from as int, r as int)),
        r < buf@.len() ==> !is_digit(buf@[r as int]),
{
    let mut k: usize = from;
    while k < buf.len() && 48 <= buf[k] && buf[k] <= 57
        invariant
            from <= k <= buf@.len(),
            all_digits(buf@.subrange(from as int, k as int)),
        decreases buf@.len() - k,
    {
        k = k + 1;
        assert(buf@.subrange(from as int, k as int)[k - 1 - from] == buf@[k - 1]);
    }
    k
}

/// The encoding of `w` begins the bytes of `raw` from `start` on.
pub open spec fn encoded_at(raw: Seq<u8>, start: int, w: Value) -> bool {
    is_prefix(encoding(w), raw.subrange(start, raw.len() as int))
}

/// Decodes a byte string `<len>:<bytes>` that starts at `start`.
#[verifier::rlimit(40)]
fn decode_string_at(raw: &[u8], start: usize) -> (r: Result<(Value, usize), BencodeError>)
    requires
        start < raw@.len(),
        is_digit(raw@[start as int]),
    ensures
        r matches Ok((v, end)) ==> start < end <= raw@.len() && is_canonical(v) && encoding(v)
            == raw@.subrange(start as int, end as int),
        (exists|w: Value| is_canonical(w) && #[trigger] encoded_at(raw@, start as int, w))
            ==> r is Ok,
{
    let total = raw.len();
    let ghost s = raw@.subrange(start as int, raw@.len() as int);
    let ghost has = exists|w: Value| is_canonical(w) && #[trigger] encoded_at(raw@, start as int, w);
    let ghost w = if has {
        choose|w: Value| is_canonical(w) && #[trigger] encoded_at(raw@, start as int, w)
    } else {
        Value::Int(0)
    };
    proof {
        if has {
            lemma_first_byte(w);
            lemma_prefix_index(encoding(w), s, 0);
        }
    }
    let ghost b: Seq<u8> = if has {
        w->Bytes_0@
    } else {
        Seq::empty()
    };
    let ghost dt = digit_text(b.len());
    let ghost len_digits = dt.len() as int;
    let colon = skip_digits(raw, start);
    proof {
        if has {
            lemma_digit_text(b.len());
            assert(encoding(w) == dt + seq![58u8] + b);
            assert forall|j: int| 0 <= j < len_digits implies #[trigger] raw@[start + j] == dt[j] by {
                lemma_prefix_index(encoding(w), s, j);
                assert(encoding(w)[j] == dt[j]);
            }
            lemma_prefix_index(encoding(w), s, len_digits);
            assert(encoding(w)[len_digits] == 58u8);
            assert(raw@[start + len_digits] == 58u8);
            if colon < start + len_digits {
                let j = colon - start;
                assert(raw@[start + j] == dt[j]);
                assert(is_digit(dt[j]));
            }
            if colon > start + len_digits {
                assert(raw@.subrange(start as int, colon as int)[len_digits] == raw@[start
                    + len_digits]);
            }
            assert(colon == start + len_digits);
            assert forall|j: int| 0 <= j < len_digits implies raw@.subrange(
                start as int,
                colon as int,
            )[j] == dt[j] by {
                assert(raw@[start + j] == dt[j]);
            }
            assert(raw@.subrange(start as int, colon as int) =~= dt);
            assert(b.len() <= total);
        }
    }
    if colon >= raw.len() {
        return Err(BencodeError::UnexpectedEnd);
    }
    if raw[colon] != 58 {
        return Err(BencodeError::InvalidLength);
    }
    let n = match parse_decimal(raw, start, colon) {
        Some(n) => n,
        None => {
            return Err(BencodeError::InvalidLength);
        },
    };
    let mut text: Vec<u8> = Vec::new();
    push_digits(n, &mut text);
    if !bytes_equal(text.as_slice(), &raw[start..colon]) {
        return Err(BencodeError::InvalidLength);
    }
    let avail = raw.len() - (colon + 1);
    if n > avail as u64 {
        return Err(BencodeError::UnexpectedEnd);
    }
    let end = colon + 1 + n as usize;
    let mut bytes: Vec<u8> = Vec::new();
    extend_bytes(&mut bytes, &raw[colon + 1..end]);
    proof {
        assert(raw@.subrange(start as int, end as int) == raw@.subrange(
            start as int,
            colon as int,
        ) + seq![58u8] + raw@.subrange(colon + 1, end as int));
    }
    Ok((Value::Bytes(bytes), end))
}

/// Decodes an integer `i<n>e` that starts at `start`.
#[verifier::rlimit(40)]
fn decode_int_at(raw: &[u8], start: usize) -> (r: Result<(Value, usize), BencodeError>)
    requires
        start < raw@.len(),
        raw@[start as int] == 105,
    ensures
        r matches Ok((v, end)) ==> start < end <= raw@.len() && is_canonical(v) && encoding(v)
            == raw@.subrange(start as int, end as int),
        (exists|w: Value| is_canonical(w) && #[trigger] encoded_at(raw@, start as int, w))
            ==> r is Ok,
{
    let total = raw.len();
    let ghost s = raw@.subrange(start as int, raw@.len() as int);
    let ghost has = exists|w: Value| is_canonical(w) && #[trigger] encoded_at(raw@, start as int, w);
    let ghost w = if has {
        choose|w: Value| is_canonical(w) && #[trigger] encoded_at(raw@, start as int, w)
    } else {
        Value::Int(0)
    };
    proof {
        if has {
            lemma_first_byte(w);
            lemma_prefix_index(encoding(w), s, 0);
        }
    }
    let ghost i: int = if has {
        w->Int_0 as int
    } else {
        0
    };
    let ghost t = int_text(i);
    let ghost mag: nat = if i < 0 {
        (-i) as nat
    } else {
        i as nat
    };
    let ghost dg = digit_text(mag);
    proof {
        if has {
            lemma_int_text(i);
            lemma_digit_text(mag);
            assert(encoding(w) == seq![105u8] + t + seq![101u8]);
            assert forall|j: int| 0 <= j < encoding(w).len() implies raw@[start + j] == encoding(w)[j] by {
                lemma_prefix_index(encoding(w), s, j);
            }
        }
    }
    let s0 = start + 1;
    if s0 >= total {
        return Err(BencodeError::UnexpectedEnd);
    }
    let neg = raw[s0] == 45;
    let ds = if neg {
        s0 + 1
    } else {
        s0
    };
    proof {
        if has {
            assert(encoding(w)[1] == t[0]);
            assert(raw@[start + 1] == encoding(w)[1]);
            assert(raw@[s0 as int] == t[0]);
            assert(neg <==> i < 0);
            if neg {
                assert(t == seq![45u8] + dg);
            } else {
                assert(t == dg);
            }
            assert forall|j: int| 0 <= j < dg.len() implies raw@[ds + j] == dg[j] by {
                if neg {
                    assert(encoding(w)[ds + j - start] == t[j + 1]);
                } else {
                    assert(encoding(w)[ds + j - start] == t[j]);
                }
            }
            assert(raw@[ds + dg.len()] == 101u8) by {
                assert(encoding(w)[ds + dg.len() - start] == 101u8);
            }
        }
    }
    let de = skip_digits(raw, ds);
    proof {
        if has {
            if de < ds + dg.len() {
                assert(raw@[de as int] == dg[de - ds]);
                assert(is_digit(dg[de - ds]));
            }
            if de > ds + dg.len() {
                assert(raw@.subrange(ds as int, de as int)[dg.len() as int] == raw@[ds
                    + dg.len()]);
            }
            assert(de == ds + dg.len());
        }
    }
    if de >= raw.len() {
        return Err(BencodeError::UnexpectedEnd);
    }
    if raw[de] != 101 {
        return Err(BencodeError::InvalidInteger);
    }
    proof {
        if has {
            assert(raw@.subrange(ds as int, de as int) =~= dg);
            assert(mag <= 9223372036854775808);
        }
    }
    let n = match parse_decimal(raw, ds, de) {
        Some(n) => n,
        None => {
            return Err(BencodeError::InvalidInteger);
        },
    };
    let val: i64 = if neg {
        if n > 9223372036854775808u64 {
            return Err(BencodeError::InvalidInteger);
        } else if n == 9223372036854775808u64 {
            -9223372036854775807i64 - 1
        } else {
            -(n as i64)
        }
    } else {
        if n > 9223372036854775807u64 {
            return Err(BencodeError::InvalidInteger);
        }
        n as i64
    };
    proof {
        if has {
            assert(val == i);
            assert(raw@.subrange(s0 as int, de as int) =~= t);
        }
    }
    let mut text: Vec<u8> = Vec::new();
    push_int(val, &mut text);
    if !bytes_equal(text.as_slice(), &raw[s0..de]) {
        return Err(BencodeError::InvalidInteger);
    }
    proof {
        assert(raw@.subrange(start as int, de + 1) == seq![105u8] + raw@.subrange(
            s0 as int,
            de as int,
        ) + seq![101u8]);
    }
    Ok((Value::Int(val), de + 1))
}

/// Decodes a list `l...e` that starts at `start`.
#[verifier::rlimit(60)]
#[verifier::spinoff_prover]
fn decode_list_at(raw: &[u8], start: usize) -> (r: Result<(Value, usize), BencodeError>)
    requires
        start < raw@.len(),
        raw@[start as int] == 108,
    ensures
        r matches Ok((v, end)) ==> start < end <= raw@.len() && is_canonical(v) && encoding(v)
            == raw@.subrange(start as int, end as int),
        (exists|w: Value| is_canonical(w) && #[trigger] encoded_at(raw@, start as int, w))
            ==> r is Ok,
    decreases raw@.len() - start, 0nat,
{
    let total = raw.len();
    let ghost s = raw@.subrange(start as int, raw@.len() as int);
    let ghost has = exists|w: Value| is_canonical(w) && #[trigger] encoded_at(raw@, start as int, w);
    let ghost w = if has {
        choose|w: Value| is_canonical(w) && #[trigger] encoded_at(raw@, start as int, w)
    } else {
        Value::Int(0)
    };
    proof {
        if has {
            lemma_first_byte(w);
            lemma_prefix_index(encoding(w), s, 0);
        }
    }
    let ghost ws: Seq<Value> = if has {
        w->List_0@
    } else {
        Seq::empty()
    };
    let ghost nw = ws.len();
    proof {
        if has {
            assert(encoding(w) == seq![108u8] + items_text(ws, nw) + seq![101u8]);
        }
    }
    let mut items: Vec<Value> = Vec::new();
    let mut idx: usize = start + 1;
    assert(raw@.subrange(start as int, idx as int) == seq![108u8] + items_text(items@, 0));
    loop
        invariant
            start < idx <= raw@.len(),
            total == raw@.len(),
            s == raw@.subrange(start as int, raw@.len() as int),
            has == (exists|w: Value| is_canonical(w) && #[trigger] encoded_at(raw@, start as int, w)),
            raw@.subrange(start as int, idx as int) == seq![108u8] + items_text(
                items@,
                items@.len(),
            ),
            items_canonical(items@, items@.len()),
            has ==> is_canonical(w) && encoded_at(raw@, start as int, w) && w is List
                && ws == w->List_0@ && nw == ws.len(),
            has ==> items@.len() <= nw && items_text(items@, items@.len()) == items_text(
                ws,
                items@.len(),
            ),
        ensures
            start < idx < raw@.len(),
            raw@[idx as int] == 101,
            raw@.subrange(start as int, idx as int) == seq![108u8] + items_text(items@, items@.len()),
            items_canonical(items@, items@.len()),
        decreases raw@.len() - idx,
    {
        let ghost k = items@.len();
        proof {
            if has {
                lemma_items_text_prefix(ws, k, nw);
                assert(encoding(w).len() <= s.len());
                assert(raw@.subrange(start as int, idx as int).len() == idx - start);
                assert(idx - start == 1 + items_text(ws, k).len());
                assert(encoding(w).len() == 2 + items_text(ws, nw).len());
                assert(idx < raw@.len());
            }
        }
        if idx >= raw.len() {
            return Err(BencodeError::UnexpectedEnd);
        }
        if raw[idx] == 101 {
            break ;
        }
        proof {
            if has {
                if k == nw {
                    lemma_prefix_index(encoding(w), s, 1 + items_text(ws, nw).len() as int);
                }
                assert(k < nw);
                lemma_items_canonical_at(ws, nw, k as int);
                lemma_items_text_prefix(ws, k + 1, nw);
                assert(items_text(ws, k + 1) == items_text(ws, k) + encoding(ws[k as int]));
                lemma_prefix_cons(seq![108u8], items_text(ws, k + 1), items_text(ws, nw));
                lemma_prefix_of_concat(seq![108u8] + items_text(ws, nw), seq![101u8], s);
                lemma_prefix_chain(
                    seq![108u8] + items_text(ws, k + 1),
                    seq![108u8] + items_text(ws, nw),
                    s,
                );
                assert(seq![108u8] + items_text(ws, k + 1) == (seq![108u8] + items_text(ws, k))
                    + encoding(ws[k as int]));
                lemma_prefix_drop(seq![108u8] + items_text(ws, k), encoding(ws[k as int]), s);
                assert(s.subrange(1 + items_text(ws, k).len() as int, s.len() as int) =~= raw@.subrange(
                    idx as int,
                    raw@.len() as int,
                ));
                assert(encoded_at(raw@, idx as int, ws[k as int]));
            }
        }
        let (x, e) = match decode_bencoded_vec_start_at(raw, idx) {
            Ok(p) => p,
            Err(err) => {
                return Err(err);
            },
        };
        proof {
            if has {
                assert(is_prefix(encoding(x), raw@.subrange(idx as int, raw@.len() as int))) by {
                    assert(raw@.subrange(idx as int, raw@.len() as int).subrange(0, encoding(x).len() as int)
                        =~= raw@.subrange(idx as int, e as int));
                }
                lemma_prefix_free(x, ws[k as int], raw@.subrange(idx as int, raw@.len() as int));
            }
            lemma_items_text_push(items@, x, items@.len());
            lemma_items_canonical_push(items@, x, items@.len());
            assert(raw@.subrange(start as int, e as int) == raw@.subrange(
                start as int,
                idx as int,
            ) + raw@.subrange(idx as int, e as int));
        }
        items.push(x);
        idx = e;
    }
    let ghost list = Value::List(items);
    proof {
        assert(raw@.subrange(start as int, idx + 1) == raw@.subrange(start as int, idx as int)
            + seq![101u8]);
    }
    assert(encoding(list) == raw@.subrange(start as int, idx + 1));
    assert(is_canonical(list));
    Ok((Value::List(items), idx + 1))
}

/// Decodes a dictionary `d...e` that starts at `start`.
#[verifier::rlimit(100)]
#[verifier::spinoff_prover]
fn decode_dict_at(raw: &[u8], start: usize) -> (r: Result<(Value, usize), BencodeError>)
    requires
        start < raw@.len(),
        raw@[start as int] == 100,
    ensures
        r matches Ok((v, end)) ==> start < end <= raw@.len() && is_canonical(v) && encoding(v)
            == raw@.subrange(start as int, end as int),
        (exists|w: Value| is_canonical(w) && #[trigger] encoded_at(raw@, start as int, w))
            ==> r is Ok,
    decreases raw@.len() - start, 0nat,
{
    let total = raw.len();
    let ghost s = raw@.subrange(start as int, raw@.len() as int);
    let ghost has = exists|w: Value| is_canonical(w) && #[trigger] encoded_at(raw@, start as int, w);
    let ghost w = if has {
        choose|w: Value| is_canonical(w) && #[trigger] encoded_at(raw@, start as int, w)
    } else {
        Value::Int(0)
    };
    proof {
        if has {
            lemma_first_byte(w);
            lemma_prefix_index(encoding(w), s, 0);
        }
    }
    let ghost es: Seq<(Vec<u8>, Value)> = if has {
        w->Dict_0@
    } else {
        Seq::empty()
    };
    let ghost nw = es.len();
    proof {
        if has {
            assert(encoding(w) == seq![100u8] + entries_text(es, nw) + seq![101u8]);
        }
    }
    let mut entries: Vec<(Vec<u8>, Value)> = Vec::new();
    let mut idx: usize = start + 1;
    assert(raw@.subrange(start as int, idx as int) == seq![100u8] + entries_text(entries@, 0));
    loop
        invariant
            start < idx <= raw@.len(),
            total == raw@.len(),
            s == raw@.subrange(start as int, raw@.len() as int),
            has == (exists|w: Value| is_canonical(w) && #[trigger] encoded_at(raw@, start as int, w)),
            raw@.subrange(start as int, idx as int) == seq![100u8] + entries_text(
                entries@,
                entries@.len(),
            ),
            entries_canonical(entries@, entries@.len()),
            has ==> is_canonical(w) && encoded_at(raw@, start as int, w) && w is Dict
                && es == w->Dict_0@ && nw == es.len(),
            has ==> entries@.len() <= nw && entries_text(entries@, entries@.len())
                == entries_text(es, entries@.len()),
            has && entries@.len() > 0 ==> entries@[entries@.len() - 1].0@ == es[entries@.len()
                - 1].0@,
        ensures
            start < idx < raw@.len(),
            raw@[idx as int] == 101,
            raw@.subrange(start as int, idx as int) == seq![100u8] + entries_text(entries@, entries@.len()),
            entries_canonical(entries@, entries@.len()),
        decreases raw@.len() - idx,
    {
        let ghost k = entries@.len();
        proof {
            if has {
                lemma_entries_text_prefix(es, k, nw);
                assert(encoding(w).len() <= s.len());
                assert(raw@.subrange(start as int, idx as int).len() == idx - start);
                assert(idx - start == 1 + entries_text(es, k).len());
                assert(encoding(w).len() == 2 + entries_text(es, nw).len());
                assert(idx < raw@.len());
            }
        }
        if idx >= raw.len() {
            return Err(BencodeError::UnexpectedEnd);
        }
        if raw[idx] == 101 {
            break ;
        }
        let ghost rest = raw@.subrange(idx as int, raw@.len() as int);
        let ghost bt = if has {
            bytes_text(es[k as int].0@)
        } else {
            Seq::empty()
        };
        let ghost ev = if has {
            encoding(es[k as int].1)
        } else {
            Seq::empty()
        };
        proof {
            if has {
                if k == nw {
                    lemma_prefix_index(encoding(w), s, 1 + entries_text(es, nw).len() as int);
                }
                assert(k < nw);
                lemma_entries_canonical_at(es, nw, k as int);
                lemma_entries_text_prefix(es, k + 1, nw);
                assert(entries_text(es, k + 1) == entries_text(es, k) + (bt + ev));
                lemma_prefix_cons(seq![100u8], entries_text(es, k + 1), entries_text(es, nw));
                lemma_prefix_of_concat(seq![100u8] + entries_text(es, nw), seq![101u8], s);
                lemma_prefix_chain(
                    seq![100u8] + entries_text(es, k + 1),
                    seq![100u8] + entries_text(es, nw),
                    s,
                );
                assert(seq![100u8] + entries_text(es, k + 1) == (seq![100u8] + entries_text(es, k))
                    + (bt + ev));
                lemma_prefix_drop(seq![100u8] + entries_text(es, k), bt + ev, s);
                assert(s.subrange(1 + entries_text(es, k).len() as int, s.len() as int) =~= rest);
                lemma_prefix_of_concat(bt, ev, rest);
                let kw = Value::Bytes(es[k as int].0);
                assert(encoding(kw) == bt);
                assert(is_canonical(kw));
                assert(encoded_at(raw@, idx as int, kw));
            }
        }
        let (kv, e1) = match decode_bencoded_vec_start_at(raw, idx) {
            Ok(p) => p,
            Err(err) => {
                return Err(err);
            },
        };
        proof {
            if has {
                let kw = Value::Bytes(es[k as int].0);
                assert(is_prefix(encoding(kv), rest)) by {
                    assert(rest.subrange(0, encoding(kv).len() as int) =~= raw@.subrange(
                        idx as int,
                        e1 as int,
                    ));
                }
                lemma_prefix_free(kv, kw, rest);
                lemma_first_byte(kv);
                lemma_first_byte(kw);
            }
        }
        let kb = match kv {
            Value::Bytes(kb) => kb,
            _ => {
                return Err(BencodeError::NonStringKey);
            },
        };
        proof {
            if has {
                lemma_prefix_of_concat(bt, ev, rest);
                lemma_bytes_text_prefix_free(kb@, es[k as int].0@, rest);
                lemma_prefix_drop(bt, ev, rest);
                assert(rest.subrange(bt.len() as int, rest.len() as int) =~= raw@.subrange(
                    e1 as int,
                    raw@.len() as int,
                ));
                assert(encoded_at(raw@, e1 as int, es[k as int].1));
            }
        }
        let (x, e2) = match decode_bencoded_vec_start_at(raw, e1) {
            Ok(p) => p,
            Err(err) => {
                return Err(err);
            },
        };
        proof {
            if has {
                let rest2 = raw@.subrange(e1 as int, raw@.len() as int);
                assert(is_prefix(encoding(x), rest2)) by {
                    assert(rest2.subrange(0, encoding(x).len() as int) =~= raw@.subrange(
                        e1 as int,
                        e2 as int,
                    ));
                }
                lemma_prefix_free(x, es[k as int].1, rest2);
            }
        }
        let n = entries.len();
        if n > 0 && !bytes_less(entries[n - 1].0.as_slice(), kb.as_slice()) {
            return Err(BencodeError::UnsortedKeys);
        }
        proof {
            lemma_entries_text_push(entries@, (kb, x), entries@.len());
            lemma_entries_canonical_push(entries@, (kb, x), entries@.len());
            assert(raw@.subrange(start as int, e2 as int) == raw@.subrange(
                start as int,
                idx as int,
            ) + raw@.subrange(idx as int, e1 as int) + raw@.subrange(e1 as int, e2 as int));
        }
        entries.push((kb, x));
        idx = e2;
    }
    let ghost dict = Value::Dict(entries);
    proof {
        assert(raw@.subrange(start as int, idx + 1) == raw@.subrange(start as int, idx as int)
            + seq![101u8]);
    }
    assert(encoding(dict) == raw@.subrange(start as int, idx + 1));
    assert(is_canonical(dict));
    Ok((Value::Dict(entries), idx + 1))
}

/// Decodes one value that starts at `start`: the value and the offset just
/// past it. Exactly the canonical encodings are accepted: the bytes consumed
/// are the encoding of the value returned, and whenever the bytes from
/// `start` on begin with the encoding of a canonical value, decoding succeeds.
pub fn decode_bencoded_vec_start_at(raw: &[u8], start: usize) -> (r: Result<(Value, usize), BencodeError>)
    ensures
        r matches Ok((v, end)) ==> start < end <= raw@.len() && is_canonical(v) && encoding(v)
            == raw@.subrange(start as int, end as int),
        start >= raw@.len() ==> r == Err::<(Value, usize), BencodeError>(BencodeError::UnexpectedEnd),
        start <= raw@.len() && (exists|w: Value|
            is_canonical(w) && #[trigger] encoded_at(raw@, start as int, w)) ==> r is Ok,
    decreases raw@.len() - start, 1nat,
{
    let ghost s = raw@.subrange(start as int, raw@.len() as int);
    if start >= raw.len() {
        proof {
            if start <= raw@.len() {
                assert forall|w: Value| is_canonical(w) implies !#[trigger] encoded_at(
                    raw@,
                    start as int,
                    w,
                ) by {
                    lemma_first_byte(w);
                }
            }
        }
        return Err(BencodeError::UnexpectedEnd);
    }
    let c = raw[start];
    if 48 <= c && c <= 57 {
        decode_string_at(raw, start)
    } else if c == 105 {
        decode_int_at(raw, start)
    } else if c == 108 {
        decode_list_at(raw, start)
    } else if c == 100 {
        decode_dict_at(raw, start)
    } else {
        proof {
            assert forall|w: Value| is_canonical(w) implies !#[trigger] encoded_at(raw@, start as int, w) by {
                lemma_first_byte(w);
                if encoded_at(raw@, start as int, w) {
                    lemma_prefix_index(encoding(w), s, 0);
                }
            }
        }
        Err(BencodeError::InvalidPrefix)
    }
}

/// Decodes a whole buffer that holds exactly one canonical value: it
/// succeeds exactly when the buffer is the encoding of a canonical value.
pub fn decode_whole(encoded: &[u8]) -> (r: Result<Value, BencodeError>)
    ensures
        r matches Ok(v) ==> is_canonical(v) && encoding(v) == encoded@,
        (exists|w: Value| is_canonical(w) && #[trigger] encoding(w) == encoded@) ==> r is Ok,
{
    proof {
        assert(encoded@.subrange(0, encoded@.len() as int) == encoded@);
        if exists|w: Value| is_canonical(w) && #[trigger] encoding(w) == encoded@ {
            let w = choose|w: Value| is_canonical(w) && #[trigger] encoding(w) == encoded@;
            assert(encoded_at(encoded@, 0, w));
        }
    }
    match decode_bencoded_vec_start_at(encoded, 0) {
        Ok((v, end)) => {
            if end == encoded.len() {
                assert(encoded@.subrange(0, end as int) == encoded@);
                Ok(v)
            } else {
                proof {
                    if exists|w: Value| is_canonical(w) && #[trigger] encoding(w) == encoded@ {
                        let w = choose|w: Value| is_canonical(w) && #[trigger] encoding(w)
                            == encoded@;
                        assert(is_prefix(encoding(v), encoded@)) by {
                            assert(encoded@.subrange(0, encoding(v).len() as int) == encoded@.subrange(
                                0,
                                end as int,
                            ));
                        }
                        assert(is_prefix(encoding(w), encoded@));
                        lemma_prefix_free(v, w, encoded@);
                    }
                }
                Err(BencodeError::TrailingData)
            }
        },
        Err(e) => Err(e),
    }
}

/// Decodes a byte vector that holds exactly one canonical value.
pub fn decode_bencoded_vec(encoded: &Vec<u8>) -> (r: Result<Value, BencodeError>)
    ensures
        r matches Ok(v) ==> is_canonical(v) && encoding(v) == encoded@,
        (exists|w: Value| is_canonical(w) && #[trigger] encoding(w) == encoded@) ==> r is Ok,
{
    decode_whole(encoded.as_slice())
}

/// Decodes text that holds exactly one canonical value; its bytes are read
/// as they are, never as characters.
pub fn decode_bencoded_value(encoded: &str) -> (r: Result<Value, BencodeError>)
    ensures
        r matches Ok(v) ==> is_canonical(v) && encoding(v) == encoded.spec_bytes(),
        (exists|w: Value| is_canonical(w) && #[trigger] encoding(w) == encoded.spec_bytes())
            ==> r is Ok,
{
    decode_whole(encoded.as_bytes())
}


/// The value under `key` in the entries from index `k` on: the first match.
pub open spec fn lookup_from(entries: Seq<(Vec<u8>, Value)>, key: Seq<u8>, k: int) -> Option<Value>
    decreases entries.len() - k,
{
    if k < 0 || k >= entries.len() {
        None
    } else if entries[k].0@ == key {
        Some(entries[k].1)
    } else {
        lookup_from(entries, key, k + 1)
    }
}

/// The value under `key` when `v` is a dictionary that has it.
pub open spec fn dict_lookup(v: Value, key: Seq<u8>) -> Option<Value> {
    match v {
        Value::Dict(entries) => lookup_from(entries@, key, 0),
        _ => None,
    }
}

/// The integer under `key`, when there is one.
pub open spec fn int_entry(v: Value, key: Seq<u8>) -> Option<int> {
    match dict_lookup(v, key) {
        Some(Value::Int(i)) => Some(i as int),
        _ => None,
    }
}

/// The byte string under `key`, when there is one.
pub open spec fn bytes_entry(v: Value, key: Seq<u8>) -> Option<Seq<u8>> {
    match dict_lookup(v, key) {
        Some(Value::Bytes(b)) => Some(b@),
        _ => None,
    }
}

impl Value {
    /// The value stored under `key` when `self` is a dictionary.
    pub fn get(&self, key: &[u8]) -> (r: Option<&Value>)
        ensures
            r matches Some(x) ==> dict_lookup(*self, key@) == Some(*x),
            r is None <==> dict_lookup(*self, key@) is None,
    {
        match self {
            Value::Dict(entries) => {
                let mut k: usize = 0;
                while k < entries.len()
                    invariant
                        k <= entries@.len(),
                        lookup_from(entries@, key@, 0) == lookup_from(entries@, key@, k as int),
                        *self == Value::Dict(*entries),
                    decreases entries@.len() - k,
                {
                    if bytes_equal(entries[k].0.as_slice(), key) {
                        return Some(&entries[k].1);
                    }
                    k = k + 1;
                }
                None
            },
            _ => None,
        }
    }

    /// The integer under `key` when `self` is a dictionary that has one there.
    pub fn get_int(&self, key: &[u8]) -> (r: Option<i64>)
        ensures
            r matches Some(i) ==> int_entry(*self, key@) == Some(i as int),
            r is None <==> int_entry(*self, key@) is None,
    {
        match self.get(key) {
            Some(Value::Int(i)) => Some(*i),
            _ => None,
        }
    }

    /// The byte string under `key` when `self` is a dictionary that has one there.
    pub fn get_bytes(&self, key: &[u8]) -> (r: Option<&Vec<u8>>)
        ensures
            r matches Some(b) ==> bytes_entry(*self, key@) == Some(b@),
            r is None <==> bytes_entry(*self, key@) is None,
    {
        match self.get(key) {
            Some(Value::Bytes(b)) => Some(b),
            _ => None,
        }
    }
}

/// Appends every byte of `src` to `out`.
pub fn extend_bytes(out: &mut Vec<u8>, src: &[u8])
    ensures
        final(out)@ == old(out)@ + src@,
{
    let mut k: usize = 0;
    while k < src.len()
        invariant
            k <= src@.len(),
            out@ == old(out)@ + src@.subrange(0, k as int),
        decreases src@.len() - k,
    {
        out.push(src[k]);
        k = k + 1;
        assert(src@.subrange(0, k as int) == src@.subrange(0, k - 1) + seq![src@[k - 1]]);
    }
    assert(src@.subrange(0, src@.len() as int) == src@);
}

/// Appends the decimal digits of `n`.
pub fn push_digits(n: u64, out: &mut Vec<u8>)
    ensures
        final(out)@ == old(out)@ + digit_text(n as nat),
    decreases n,
{
    if n >= 10 {
        push_digits(n / 10, out);
    }
    out.push(((n % 10) as u8) + 48);
    assert(((n % 10) as u8) + 48 == ((n as nat % 10) + 48) as u8);
}

/// Appends the decimal text of `i`, with a minus sign when it is negative.
pub fn push_int(i: i64, out: &mut Vec<u8>)
    ensures
        final(out)@ == old(out)@ + int_text(i as int),
{
    if i < 0 {
        out.push(45u8);
        let m: u64 = ((-(i + 1)) as u64) + 1;
        push_digits(m, out);
        assert(m as nat == (-i) as nat);
    } else {
        push_digits(i as u64, out);
    }
}

/// Appends the encoding of `v` to `out`.
pub fn encode_into(v: &Value, out: &mut Vec<u8>)
    ensures
        final(out)@ == old(out)@ + encoding(*v),
    decreases v,
{
    let ghost start = out@;
    match v {
        Value::Int(i) => {
            out.push(105u8);
            push_int(*i, out);
            out.push(101u8);
            assert(out@ == start + encoding(*v));
        },
        Value::Bytes(b) => {
            push_digits(b.len() as u64, out);
            out.push(58u8);
            extend_bytes(out, b.as_slice());
            assert(out@ == start + encoding(*v));
        },
        Value::List(items) => {
            out.push(108u8);
            let mut k: usize = 0;
            while k < items.len()
                invariant
                    k <= items@.len(),
                    out@ == start + seq![108u8] + items_text(items@, k as nat),
                    *v == Value::List(*items),
                decreases items@.len() - k,
            {
                proof {
                    vstd::std_specs::vec::axiom_vec_index_decreases(*items, k as int);
                    assert(decreases_to!(*v => (*v)->List_0));
                    assert(decreases_to!(*v => items[k as int]));
                }
                encode_into(&items[k], out);
                k = k + 1;
            }
            out.push(101u8);
            assert(out@ == start + encoding(*v));
        },
        Value::Dict(entries) => {
            out.push(100u8);
            let mut k: usize = 0;
            while k < entries.len()
                invariant
                    k <= entries@.len(),
                    out@ == start + seq![100u8] + entries_text(entries@, k as nat),
                    *v == Value::Dict(*entries),
                decreases entries@.len() - k,
            {
                let key = &entries[k].0;
                push_digits(key.len() as u64, out);
                out.push(58u8);
                extend_bytes(out, key.as_slice());
                proof {
                    vstd::std_specs::vec::axiom_vec_index_decreases(*entries, k as int);
                    assert(decreases_to!(*v => (*v)->Dict_0));
                    assert(decreases_to!(*v => entries[k as int].1));
                }
                encode_into(&entries[k].1, out);
                k = k + 1;
            }
            out.push(101u8);
            assert(out@ == start + encoding(*v));
        },
    }
}

/// The encoding of `v`: integers in shortest decimal form, byte strings
/// after their length, list items and dictionary entries in their stored
/// order. For a canonical value, whose dictionary keys are strictly
/// increasing (every value the decoder returns is one), this is the
/// canonical encoding.
pub fn encode(v: &Value) -> (r: Vec<u8>)
    ensures
        r@ == encoding(*v),
{
    let mut out: Vec<u8> = Vec::new();
    encode_into(v, &mut out);
    assert(out@ == Seq::<u8>::empty() + encoding(*v));
    out
}

} // verus!
