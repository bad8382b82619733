use vstd::prelude::*;

use crate::bencode::{
    all_digits, bytes_text, digit_text, digits_value, encoding, entries_canonical, entries_text,
    int_text, is_canonical, is_digit, items_canonical, items_text, lex_lt, Value,
};

verus! {

broadcast use vstd::std_specs::vec::group_vec_axioms;

/// `p` is a prefix of `s`.
pub open spec fn is_prefix(p: Seq<u8>, s: Seq<u8>) -> bool {
    p.len() <= s.len() && s.subrange(0, p.len() as int) == p
}

/// The digits of `n` are ASCII digits and read back as `n`.
pub proof fn lemma_digit_text(n: nat)
    ensures
        digit_text(n).len() >= 1,
        all_digits(digit_text(n)),
        digits_value(digit_text(n)) == n,
    decreases n,
{
    if n >= 10 {
        lemma_digit_text(n / 10);
        let t = digit_text(n);
        assert(t.drop_last() == digit_text(n / 10));
        assert(t.last() == ((n % 10) + 48) as u8);
        assert(digits_value(t) == digits_value(t.drop_last()) * 10 + (t.last() - 48) as nat);
        assert(n == (n / 10) * 10 + n % 10);
        assert forall|i: int| 0 <= i < t.len() implies is_digit(#[trigger] t[i]) by {
            if i < t.len() - 1 {
                assert(t[i] == digit_text(n / 10)[i]);
            }
        }
    } else {
        let t = digit_text(n);
        assert(t.drop_last() =~= Seq::<u8>::empty());
        assert(digits_value(t) == digits_value(t.drop_last()) * 10 + (t.last() - 48) as nat);
        assert forall|i: int| 0 <= i < digit_text(n).len() implies is_digit(
            #[trigger] digit_text(n)[i],
        ) by {}
    }
}

/// The text of an integer holds no `e` and no `:`.
pub proof fn lemma_int_text(i: int)
    ensures
        int_text(i).len() >= 1,
        forall|j: int| 0 <= j < int_text(i).len() ==> #[trigger] int_text(i)[j] != 101u8,
        (int_text(i)[0] == 45u8) <==> i < 0,
{
    if i < 0 {
        lemma_digit_text((-i) as nat);
        let t = int_text(i);
        assert forall|j: int| 0 <= j < t.len() implies #[trigger] t[j] != 101u8 by {
            if j > 0 {
                assert(t[j] == digit_text((-i) as nat)[j - 1]);
                assert(is_digit(digit_text((-i) as nat)[j - 1]));
            }
        }
    } else {
        lemma_digit_text(i as nat);
        assert(is_digit(digit_text(i as nat)[0]));
        assert forall|j: int| 0 <= j < int_text(i).len() implies #[trigger] int_text(i)[j] != 101u8 by {
            assert(is_digit(digit_text(i as nat)[j]));
        }
    }
}

/// An encoding is never empty, and its first byte tells its kind: `i`,
/// a digit, `l` or `d`; never `e`.
pub proof fn lemma_first_byte(v: Value)
    ensures
        encoding(v).len() >= 1,
        encoding(v)[0] != 101u8,
        (encoding(v)[0] == 105u8) <==> v is Int,
        is_digit(encoding(v)[0]) <==> v is Bytes,
        (encoding(v)[0] == 108u8) <==> v is List,
        (encoding(v)[0] == 100u8) <==> v is Dict,
{
    match v {
        Value::Bytes(b) => {
            lemma_digit_text(b@.len());
            assert(encoding(v)[0] == digit_text(b@.len())[0]);
        },
        _ => {},
    }
}

proof fn lemma_prefix_same_len(p: Seq<u8>, q: Seq<u8>, s: Seq<u8>)
    requires
        is_prefix(p, s),
        is_prefix(q, s),
        p.len() == q.len(),
    ensures
        p == q,
{
}

proof fn lemma_prefix_part(p: Seq<u8>, s: Seq<u8>, i: int, j: int)
    requires
        is_prefix(p, s),
        0 <= i <= j <= p.len(),
    ensures
        s.subrange(i, j) == p.subrange(i, j),
{
    assert(s.subrange(i, j) =~= s.subrange(0, p.len() as int).subrange(i, j));
}

/// The bytes of `s` from `at` on begin with `q` when `p + q` begins `s`
/// and `p` is `at` bytes long.
proof fn lemma_prefix_rest(p: Seq<u8>, q: Seq<u8>, s: Seq<u8>)
    requires
        is_prefix(p + q, s),
    ensures
        is_prefix(q, s.subrange(p.len() as int, s.len() as int)),
{
    lemma_prefix_part(p + q, s, p.len() as int, (p + q).len() as int);
    assert((p + q).subrange(p.len() as int, (p + q).len() as int) =~= q);
    assert(s.subrange(p.len() as int, s.len() as int).subrange(0, q.len() as int) =~= s.subrange(
        p.len() as int,
        p.len() as int + q.len() as int,
    ));
}

pub proof fn lemma_prefix_of_concat(p: Seq<u8>, q: Seq<u8>, s: Seq<u8>)
    requires
        is_prefix(p + q, s),
    ensures
        is_prefix(p, s),
{
    assert((p + q).subrange(0, p.len() as int) =~= p);
    lemma_prefix_trans(p, p + q, s);
}

proof fn lemma_prefix_trans(p: Seq<u8>, q: Seq<u8>, s: Seq<u8>)
    requires
        is_prefix(p, q),
        is_prefix(q, s),
    ensures
        is_prefix(p, s),
{
    assert(s.subrange(0, p.len() as int) =~= q.subrange(0, p.len() as int));
}

/// A byte string's encoding ends where its length says: two of them that
/// begin the same bytes are the same.
pub proof fn lemma_bytes_text_prefix_free(x: Seq<u8>, y: Seq<u8>, s: Seq<u8>)
    requires
        is_prefix(bytes_text(x), s),
        is_prefix(bytes_text(y), s),
    ensures
        x == y,
{
    let dx = digit_text(x.len());
    let dy = digit_text(y.len());
    lemma_digit_text(x.len());
    lemma_digit_text(y.len());
    assert(s[dx.len() as int] == bytes_text(x)[dx.len() as int]);
    assert(s[dy.len() as int] == bytes_text(y)[dy.len() as int]);
    if dx.len() < dy.len() {
        assert(s[dx.len() as int] == bytes_text(y)[dx.len() as int]);
        assert(is_digit(dy[dx.len() as int]));
    } else if dy.len() < dx.len() {
        assert(s[dy.len() as int] == bytes_text(x)[dy.len() as int]);
        assert(is_digit(dx[dy.len() as int]));
    }
    assert(dx.len() == dy.len());
    assert(s.subrange(0, dx.len() as int) == dx) by {
        assert(bytes_text(x).subrange(0, dx.len() as int) =~= dx);
        assert(s.subrange(0, dx.len() as int) =~= bytes_text(x).subrange(0, dx.len() as int));
    }
    assert(s.subrange(0, dy.len() as int) == dy) by {
        assert(bytes_text(y).subrange(0, dy.len() as int) =~= dy);
        assert(s.subrange(0, dy.len() as int) =~= bytes_text(y).subrange(0, dy.len() as int));
    }
    assert(x.len() == y.len());
    lemma_prefix_same_len(bytes_text(x), bytes_text(y), s);
    assert(x =~= bytes_text(x).subrange(dx.len() as int + 1, bytes_text(x).len() as int));
    assert(y =~= bytes_text(y).subrange(dy.len() as int + 1, bytes_text(y).len() as int));
}

/// The first `k` items' encodings begin those of the first `n`.
pub proof fn lemma_items_text_prefix(xs: Seq<Value>, k: nat, n: nat)
    requires
        k <= n <= xs.len(),
    ensures
        is_prefix(items_text(xs, k), items_text(xs, n)),
    decreases n - k,
{
    if k < n {
        lemma_items_text_prefix(xs, k, (n - 1) as nat);
        assert(items_text(xs, n).subrange(0, items_text(xs, (n - 1) as nat).len() as int) =~= items_text(xs, (n - 1) as nat));
        lemma_prefix_trans(items_text(xs, k), items_text(xs, (n - 1) as nat), items_text(xs, n));
    } else {
        assert(items_text(xs, n).subrange(0, items_text(xs, n).len() as int) =~= items_text(xs, n));
    }
}

/// The first `k` entries' encodings begin those of the first `n`.
pub proof fn lemma_entries_text_prefix(es: Seq<(Vec<u8>, Value)>, k: nat, n: nat)
    requires
        k <= n <= es.len(),
    ensures
        is_prefix(entries_text(es, k), entries_text(es, n)),
    decreases n - k,
{
    if k < n {
        lemma_entries_text_prefix(es, k, (n - 1) as nat);
        assert(entries_text(es, n).subrange(0, entries_text(es, (n - 1) as nat).len() as int) =~= entries_text(es, (n - 1) as nat));
        lemma_prefix_trans(entries_text(es, k), entries_text(es, (n - 1) as nat), entries_text(es, n));
    } else {
        assert(entries_text(es, n).subrange(0, entries_text(es, n).len() as int) =~= entries_text(es, n));
    }
}

/// The encoding of a value is never a proper prefix of the encoding of
/// another: two encodings that begin the same bytes are equal.
pub proof fn lemma_prefix_free(a: Value, b: Value, s: Seq<u8>)
    requires
        is_prefix(encoding(a), s),
        is_prefix(encoding(b), s),
    ensures
        encoding(a) == encoding(b),
    decreases a, 1nat, 0nat,
{
    lemma_first_byte(a);
    lemma_first_byte(b);
    assert(s[0] == encoding(a)[0]);
    assert(s[0] == encoding(b)[0]);
    match a {
        Value::Int(x) => {
            let y = b->Int_0;
            let tx = int_text(x as int);
            let ty = int_text(y as int);
            lemma_int_text(x as int);
            lemma_int_text(y as int);
            assert(s[tx.len() as int + 1] == encoding(a)[tx.len() as int + 1]);
            assert(s[ty.len() as int + 1] == encoding(b)[ty.len() as int + 1]);
            if tx.len() < ty.len() {
                assert(s[tx.len() as int + 1] == encoding(b)[tx.len() as int + 1]);
                assert(encoding(b)[tx.len() as int + 1] == ty[tx.len() as int]);
            } else if ty.len() < tx.len() {
                assert(s[ty.len() as int + 1] == encoding(a)[ty.len() as int + 1]);
                assert(encoding(a)[ty.len() as int + 1] == tx[ty.len() as int]);
            }
            lemma_prefix_same_len(encoding(a), encoding(b), s);
        },
        Value::Bytes(x) => {
            let y = b->Bytes_0;
            lemma_bytes_text_prefix_free(x@, y@, s);
        },
        Value::List(xs) => {
            let ys = b->List_0;
            let t = s.subrange(1, s.len() as int);
            let n = xs@.len();
            let m = ys@.len();
            let ix = items_text(xs@, n);
            let iy = items_text(ys@, m);
            assert(is_prefix(ix + seq![101u8], t)) by {
                assert(encoding(a) =~= seq![encoding(a)[0]] + (ix + seq![101u8]));
                lemma_prefix_rest(seq![encoding(a)[0]], ix + seq![101u8], s);
            }
            assert(is_prefix(iy + seq![101u8], t)) by {
                assert(encoding(b) =~= seq![encoding(b)[0]] + (iy + seq![101u8]));
                lemma_prefix_rest(seq![encoding(b)[0]], iy + seq![101u8], s);
            }
            lemma_prefix_of_concat(ix, seq![101u8], t);
            lemma_prefix_of_concat(iy, seq![101u8], t);
            let q = if n < m {
                n
            } else {
                m
            };
            lemma_items_agree(a, b, t, q);
            if n < m {
                let p = items_text(xs@, n);
                lemma_items_text_prefix(ys@, (n + 1) as nat, m);
                lemma_prefix_trans(items_text(ys@, (n + 1) as nat), iy, t);
                lemma_first_byte(ys@[n as int]);
                assert(t[p.len() as int] == items_text(ys@, (n + 1) as nat)[p.len() as int]);
                assert(t[p.len() as int] == (ix + seq![101u8])[p.len() as int]);
            } else if m < n {
                let p = items_text(ys@, m);
                lemma_items_text_prefix(xs@, (m + 1) as nat, n);
                lemma_prefix_trans(items_text(xs@, (m + 1) as nat), ix, t);
                lemma_first_byte(xs@[m as int]);
                assert(t[p.len() as int] == items_text(xs@, (m + 1) as nat)[p.len() as int]);
                assert(t[p.len() as int] == (iy + seq![101u8])[p.len() as int]);
            }
        },
        Value::Dict(xs) => {
            let ys = b->Dict_0;
            let t = s.subrange(1, s.len() as int);
            let n = xs@.len();
            let m = ys@.len();
            let ix = entries_text(xs@, n);
            let iy = entries_text(ys@, m);
            assert(is_prefix(ix + seq![101u8], t)) by {
                assert(encoding(a) =~= seq![encoding(a)[0]] + (ix + seq![101u8]));
                lemma_prefix_rest(seq![encoding(a)[0]], ix + seq![101u8], s);
            }
            assert(is_prefix(iy + seq![101u8], t)) by {
                assert(encoding(b) =~= seq![encoding(b)[0]] + (iy + seq![101u8]));
                lemma_prefix_rest(seq![encoding(b)[0]], iy + seq![101u8], s);
            }
            lemma_prefix_of_concat(ix, seq![101u8], t);
            lemma_prefix_of_concat(iy, seq![101u8], t);
            let q = if n < m {
                n
            } else {
                m
            };
            lemma_entries_agree(a, b, t, q);
            if n < m {
                let p = entries_text(xs@, n);
                lemma_entries_text_prefix(ys@, (n + 1) as nat, m);
                lemma_prefix_trans(entries_text(ys@, (n + 1) as nat), iy, t);
                lemma_digit_text(ys@[n as int].0@.len());
                assert(t[p.len() as int] == entries_text(ys@, (n + 1) as nat)[p.len() as int]);
                assert(entries_text(ys@, (n + 1) as nat)[p.len() as int] == digit_text(ys@[n as int].0@.len())[0]);
                assert(t[p.len() as int] == (ix + seq![101u8])[p.len() as int]);
            } else if m < n {
                let p = entries_text(ys@, m);
                lemma_entries_text_prefix(xs@, (m + 1) as nat, n);
                lemma_prefix_trans(entries_text(xs@, (m + 1) as nat), ix, t);
                lemma_digit_text(xs@[m as int].0@.len());
                assert(t[p.len() as int] == entries_text(xs@, (m + 1) as nat)[p.len() as int]);
                assert(entries_text(xs@, (m + 1) as nat)[p.len() as int] == digit_text(xs@[m as int].0@.len())[0]);
                assert(t[p.len() as int] == (iy + seq![101u8])[p.len() as int]);
            }
        },
    }
}

/// Two lists whose item encodings begin the same bytes agree on their first
/// `k` items' encodings.
proof fn lemma_items_agree(a: Value, b: Value, t: Seq<u8>, k: nat)
    requires
        a is List,
        b is List,
        k <= a->List_0@.len(),
        k <= b->List_0@.len(),
        is_prefix(items_text(a->List_0@, a->List_0@.len()), t),
        is_prefix(items_text(b->List_0@, b->List_0@.len()), t),
    ensures
        items_text(a->List_0@, k) == items_text(b->List_0@, k),
    decreases a, 0nat, k,
{
    let xs = a->List_0@;
    let ys = b->List_0@;
    if k > 0 {
        lemma_items_agree(a, b, t, (k - 1) as nat);
        let p = items_text(xs, (k - 1) as nat);
        lemma_items_text_prefix(xs, k, xs.len());
        lemma_items_text_prefix(ys, k, ys.len());
        lemma_prefix_trans(items_text(xs, k), items_text(xs, xs.len()), t);
        lemma_prefix_trans(items_text(ys, k), items_text(ys, ys.len()), t);
        let rest = t.subrange(p.len() as int, t.len() as int);
        lemma_prefix_rest(p, encoding(xs[k - 1]), t);
        lemma_prefix_rest(p, encoding(ys[k - 1]), t);
        assert(decreases_to!(a => a->List_0));
        assert(decreases_to!(a => xs[k - 1]));
        lemma_prefix_free(xs[k - 1], ys[k - 1], rest);
    }
}

/// Two dictionaries whose entry encodings begin the same bytes agree on
/// their first `k` entries' encodings.
proof fn lemma_entries_agree(a: Value, b: Value, t: Seq<u8>, k: nat)
    requires
        a is Dict,
        b is Dict,
        k <= a->Dict_0@.len(),
        k <= b->Dict_0@.len(),
        is_prefix(entries_text(a->Dict_0@, a->Dict_0@.len()), t),
        is_prefix(entries_text(b->Dict_0@, b->Dict_0@.len()), t),
    ensures
        entries_text(a->Dict_0@, k) == entries_text(b->Dict_0@, k),
    decreases a, 0nat, k,
{
    let xs = a->Dict_0@;
    let ys = b->Dict_0@;
    if k > 0 {
        lemma_entries_agree(a, b, t, (k - 1) as nat);
        let p = entries_text(xs, (k - 1) as nat);
        lemma_entries_text_prefix(xs, k, xs.len());
        lemma_entries_text_prefix(ys, k, ys.len());
        lemma_prefix_trans(entries_text(xs, k), entries_text(xs, xs.len()), t);
        lemma_prefix_trans(entries_text(ys, k), entries_text(ys, ys.len()), t);
        let rest = t.subrange(p.len() as int, t.len() as int);
        let kx = bytes_text(xs[k - 1].0@);
        let ky = bytes_text(ys[k - 1].0@);
        let vx = encoding(xs[k - 1].1);
        let vy = encoding(ys[k - 1].1);
        assert(entries_text(xs, k) == p + (kx + vx));
        assert(entries_text(ys, k) == p + (ky + vy));
        lemma_prefix_rest(p, kx + vx, t);
        lemma_prefix_rest(p, ky + vy, t);
        lemma_prefix_of_concat(kx, vx, rest);
        lemma_prefix_of_concat(ky, vy, rest);
        lemma_bytes_text_prefix_free(xs[k - 1].0@, ys[k - 1].0@, rest);
        lemma_prefix_rest(kx, vx, rest);
        lemma_prefix_rest(ky, vy, rest);
        let rest2 = rest.subrange(kx.len() as int, rest.len() as int);
        assert(decreases_to!(a => a->Dict_0));
        assert(decreases_to!(a => xs[k - 1].1));
        lemma_prefix_free(xs[k - 1].1, ys[k - 1].1, rest2);
    }
}

/// Every one of the first `n` items is canonical.
pub proof fn lemma_items_canonical_at(xs: Seq<Value>, n: nat, k: int)
    requires
        items_canonical(xs, n),
        0 <= k < n <= xs.len(),
    ensures
        is_canonical(xs[k]),
    decreases n,
{
    if k < n - 1 {
        lemma_items_canonical_at(xs, (n - 1) as nat, k);
    }
}

/// Every one of the first `n` entries holds a canonical value under a key
/// greater than the one before.
pub proof fn lemma_entries_canonical_at(es: Seq<(Vec<u8>, Value)>, n: nat, k: int)
    requires
        entries_canonical(es, n),
        0 <= k < n <= es.len(),
    ensures
        is_canonical(es[k].1),
        k >= 1 ==> lex_lt(es[k - 1].0@, es[k].0@),
    decreases n,
{
    if k < n - 1 {
        lemma_entries_canonical_at(es, (n - 1) as nat, k);
    }
}

/// Putting the same bytes in front keeps a prefix a prefix.
pub proof fn lemma_prefix_cons(c: Seq<u8>, p: Seq<u8>, q: Seq<u8>)
    requires
        is_prefix(p, q),
    ensures
        is_prefix(c + p, c + q),
{
    assert((c + q).subrange(0, (c + p).len() as int) =~= c + p);
}

/// A prefix of a prefix is a prefix.
pub proof fn lemma_prefix_chain(p: Seq<u8>, q: Seq<u8>, s: Seq<u8>)
    requires
        is_prefix(p, q),
        is_prefix(q, s),
    ensures
        is_prefix(p, s),
{
    lemma_prefix_trans(p, q, s);
}

/// Dropping the first `n` bytes of two sequences that agree on a prefix.
pub proof fn lemma_prefix_drop(p: Seq<u8>, q: Seq<u8>, s: Seq<u8>)
    requires
        is_prefix(p + q, s),
    ensures
        is_prefix(q, s.subrange(p.len() as int, s.len() as int)),
{
    lemma_prefix_rest(p, q, s);
}

/// The first bytes of a prefix are those of the whole.
pub proof fn lemma_prefix_index(p: Seq<u8>, s: Seq<u8>, i: int)
    requires
        is_prefix(p, s),
        0 <= i < p.len(),
    ensures
        s[i] == p[i],
{
    assert(s.subrange(0, p.len() as int)[i] == s[i]);
}

} // verus!
