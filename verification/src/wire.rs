//! The wire-level building blocks shared by the encoder and the decoder:
//! the token marks, base-ten digit runs, byte-lexicographic key order, and
//! the sorted entry buffer that canonicalizes one dictionary.

use vstd::prelude::*;

verus! {

use crate::error::ParseFail;

pub const DICT_OPEN: u8 = 0x64;

pub const LIST_OPEN: u8 = 0x6c;

pub const INT_OPEN: u8 = 0x69;

pub const END_MARK: u8 = 0x65;

pub const COLON: u8 = 0x3a;

pub const MINUS: u8 = 0x2d;

pub const DIGIT_ZERO: u8 = 0x30;

pub open spec fn is_digit(b: u8) -> bool {
    0x30 <= b <= 0x39
}

pub open spec fn digit_val(b: u8) -> nat {
    (b - 0x30) as nat
}

/// The base-ten digits of `n`, most significant first, with no leading zeros.
pub open spec fn spec_dec(n: nat) -> Seq<u8>
    decreases n,
{
    if n < 10 {
        seq![(0x30 + n) as u8]
    } else {
        spec_dec(n / 10).push((0x30 + n % 10) as u8)
    }
}

/// The number that a run of digit bytes denotes, read left to right.
pub open spec fn spec_digits_val(s: Seq<u8>) -> nat
    decreases s.len(),
{
    if s.len() == 0 {
        0
    } else {
        spec_digits_val(s.drop_last()) * 10 + digit_val(s.last())
    }
}

/// The wire bytes of the signed number `n`: its digits, after `-` when negative.
pub open spec fn spec_int_bytes(n: int) -> Seq<u8> {
    if n < 0 {
        seq![MINUS] + spec_dec((-n) as nat)
    } else {
        spec_dec(n as nat)
    }
}

/// The wire form of a string whose payload bytes are `b`: `<len>:<payload>`.
pub open spec fn spec_str_token(b: Seq<u8>) -> Seq<u8> {
    spec_dec(b.len()) + seq![COLON] + b
}

/// The wire form of the integer `n`: `i<digits>e`.
pub open spec fn spec_int_token(n: int) -> Seq<u8> {
    seq![INT_OPEN] + spec_int_bytes(n) + seq![END_MARK]
}

pub proof fn lemma_dec_props(n: nat)
    ensures
        spec_dec(n).len() >= 1,
        forall|i: int| 0 <= i < spec_dec(n).len() ==> is_digit(#[trigger] spec_dec(n)[i]),
        n == 0 ==> spec_dec(n) == seq![0x30u8],
        n > 0 ==> spec_dec(n)[0] != 0x30,
        n < 10 ==> spec_dec(n).len() == 1,
    decreases n,
{
    if n < 10 {
        assert(spec_dec(n) == seq![(0x30 + n) as u8]);
    } else {
        lemma_dec_props(n / 10);
        let d = spec_dec(n / 10);
        assert(spec_dec(n) == d.push((0x30 + n % 10) as u8));
        assert(forall|i: int| 0 <= i < d.len() ==> #[trigger] spec_dec(n)[i] == d[i]);
        assert(spec_dec(n)[d.len() as int] == (0x30 + n % 10) as u8);
    }
}

pub proof fn lemma_dec_val(n: nat)
    ensures
        spec_digits_val(spec_dec(n)) == n,
    decreases n,
{
    if n < 10 {
        let s = spec_dec(n);
        assert(s.len() == 1);
        assert(s.drop_last() =~= Seq::<u8>::empty());
        assert(spec_digits_val(s.drop_last()) == 0);
        assert(spec_digits_val(s) == digit_val(s.last()));
    } else {
        lemma_dec_val(n / 10);
        let s = spec_dec(n);
        assert(s.drop_last() =~= spec_dec(n / 10));
        assert(s.last() == (0x30 + n % 10) as u8);
        assert(spec_digits_val(s) == (n / 10) * 10 + n % 10);
    }
}

pub proof fn lemma_digits_val_take_succ(s: Seq<u8>, k: int)
    requires
        0 <= k < s.len(),
    ensures
        spec_digits_val(s.take(k + 1)) == spec_digits_val(s.take(k)) * 10 + digit_val(s[k]),
{
    assert(s.take(k + 1).drop_last() =~= s.take(k));
    assert(s.take(k + 1).last() == s[k]);
}

pub proof fn lemma_digits_val_take_le(s: Seq<u8>, k: int)
    requires
        0 <= k <= s.len(),
    ensures
        spec_digits_val(s.take(k)) <= spec_digits_val(s),
    decreases s.len() - k,
{
    if k == s.len() {
        assert(s.take(k) =~= s);
    } else {
        lemma_digits_val_take_succ(s, k);
        lemma_digits_val_take_le(s, k + 1);
        assert(spec_digits_val(s.take(k)) <= spec_digits_val(s.take(k)) * 10 + digit_val(s[k]));
    }
}

/// The model of a run of digit bytes consumed up to (and through) `delim`,
/// starting at offset `i` with the value read so far in `acc`.  Mirrors the
/// decoder: a byte that is neither a digit nor `delim` is a token fault, a
/// value that no longer fits in 64 bits is a range fault, and the offset
/// reported with a fault is the offset after the offending byte.
pub open spec fn spec_read_digits(s: Seq<u8>, i: int, acc: u64, delim: u8) -> Result<
    (u64, int),
    (ParseFail, int),
>
    decreases s.len() - i,
{
    if i < 0 || i >= s.len() {
        Err((ParseFail::Eof, s.len() as int))
    } else if s[i] == delim {
        Ok((acc, i + 1))
    } else if !is_digit(s[i]) {
        Err((ParseFail::Token(s[i]), i + 1))
    } else if acc as nat * 10 + digit_val(s[i]) > u64::MAX as nat {
        Err((ParseFail::Range(u64::MAX), i + 1))
    } else {
        spec_read_digits(s, i + 1, (acc * 10 + (s[i] - 0x30) as u64) as u64, delim)
    }
}

/// Reading the digits of `spec_dec(n)` with `k` of them already consumed
/// yields `n` and stops just past the delimiter.
pub proof fn lemma_read_digits_dec(s: Seq<u8>, i: int, k: int, n: nat, delim: u8)
    requires
        0 <= i,
        n <= u64::MAX,
        !is_digit(delim),
        0 <= k <= spec_dec(n).len(),
        i + spec_dec(n).len() < s.len(),
        s.subrange(i, i + spec_dec(n).len()) == spec_dec(n),
        s[i + spec_dec(n).len()] == delim,
    ensures
        spec_read_digits(s, i + k, spec_digits_val(spec_dec(n).take(k)) as u64, delim) == Ok::<
            (u64, int),
            (ParseFail, int),
        >((n as u64, i + spec_dec(n).len() + 1)),
    decreases spec_dec(n).len() - k,
{
    let d = spec_dec(n);
    lemma_dec_props(n);
    lemma_dec_val(n);
    if k == d.len() {
        assert(d.take(k) =~= d);
        assert(s[i + k] == delim);
    } else {
        assert(s[i + k] == d[k]) by {
            assert(s.subrange(i, i + d.len())[k] == s[i + k]);
        }
        assert(is_digit(d[k]));
        assert(d[k] != delim);
        lemma_digits_val_take_succ(d, k);
        lemma_digits_val_take_le(d, k + 1);
        let acc = spec_digits_val(d.take(k));
        let acc2 = spec_digits_val(d.take(k + 1));
        assert(acc2 == acc * 10 + digit_val(d[k]));
        assert(acc2 <= n);
        lemma_read_digits_dec(s, i, k + 1, n, delim);
    }
}

/// Strict byte-lexicographic order on byte sequences.
pub open spec fn lex_lt(a: Seq<u8>, b: Seq<u8>) -> bool
    decreases a.len(),
{
    if b.len() == 0 {
        false
    } else if a.len() == 0 {
        true
    } else if a[0] < b[0] {
        true
    } else if a[0] == b[0] {
        lex_lt(a.drop_first(), b.drop_first())
    } else {
        false
    }
}

pub proof fn lemma_lex_irrefl(a: Seq<u8>)
    ensures
        !lex_lt(a, a),
    decreases a.len(),
{
    if a.len() > 0 {
        lemma_lex_irrefl(a.drop_first());
    }
}

pub proof fn lemma_lex_trichotomy(a: Seq<u8>, b: Seq<u8>)
    ensures
        lex_lt(a, b) || lex_lt(b, a) || a == b,
    decreases a.len(),
{
    if a.len() == 0 && b.len() == 0 {
        assert(a =~= b);
    } else if a.len() > 0 && b.len() > 0 && a[0] == b[0] {
        lemma_lex_trichotomy(a.drop_first(), b.drop_first());
        if !lex_lt(a, b) && !lex_lt(b, a) {
            assert(a.drop_first() == b.drop_first());
            assert(a.len() == b.len());
            assert forall|i: int| 0 <= i < a.len() implies a[i] == b[i] by {
                if i > 0 {
                    assert(a[i] == a.drop_first()[i - 1]);
                    assert(b[i] == b.drop_first()[i - 1]);
                }
            }
            assert(a =~= b);
        }
    }
}

pub proof fn lemma_lex_trans(a: Seq<u8>, b: Seq<u8>, c: Seq<u8>)
    requires
        lex_lt(a, b),
        lex_lt(b, c),
    ensures
        lex_lt(a, c),
    decreases a.len(),
{
    if a.len() > 0 && b.len() > 0 && c.len() > 0 && a[0] == b[0] && b[0] == c[0] {
        lemma_lex_trans(a.drop_first(), b.drop_first(), c.drop_first());
    }
}

/// The buffered entries of one dictionary: rendered key bytes paired with
/// rendered value bytes, held in strictly ascending key order.
pub open spec fn entries_sorted(es: Seq<(Seq<u8>, Seq<u8>)>) -> bool {
    forall|i: int, j: int|
        0 <= i < j < es.len() ==> lex_lt(#[trigger] es[i].0, #[trigger] es[j].0)
}

/// Insertion of one rendered pair into a sorted entry run: a pair with the
/// same key is replaced, otherwise the pair lands at its ordered position.
pub open spec fn spec_insert_entry(es: Seq<(Seq<u8>, Seq<u8>)>, k: Seq<u8>, v: Seq<u8>) -> Seq<
    (Seq<u8>, Seq<u8>),
>
    decreases es.len(),
{
    if es.len() == 0 {
        seq![(k, v)]
    } else if lex_lt(es[0].0, k) {
        seq![es[0]] + spec_insert_entry(es.drop_first(), k, v)
    } else if k == es[0].0 {
        seq![(k, v)] + es.drop_first()
    } else {
        seq![(k, v)] + es
    }
}

/// The entry run that buffering a whole pair sequence produces: each pair
/// inserted in arrival order, so a later pair with an equal key wins.
pub open spec fn spec_canon(es: Seq<(Seq<u8>, Seq<u8>)>) -> Seq<(Seq<u8>, Seq<u8>)>
    decreases es.len(),
{
    if es.len() == 0 {
        Seq::empty()
    } else {
        spec_insert_entry(spec_canon(es.drop_last()), es.last().0, es.last().1)
    }
}

/// The rendered value most recently supplied for key `q`, if any.
pub open spec fn entries_lookup(es: Seq<(Seq<u8>, Seq<u8>)>, q: Seq<u8>) -> Option<Seq<u8>>
    decreases es.len(),
{
    if es.len() == 0 {
        None
    } else if es.last().0 == q {
        Some(es.last().1)
    } else {
        entries_lookup(es.drop_last(), q)
    }
}

pub proof fn lemma_lookup_concat(a: Seq<(Seq<u8>, Seq<u8>)>, b: Seq<(Seq<u8>, Seq<u8>)>, q: Seq<u8>)
    ensures
        entries_lookup(a + b, q) == (match entries_lookup(b, q) {
            Some(v) => Some(v),
            None => entries_lookup(a, q),
        }),
    decreases b.len(),
{
    if b.len() == 0 {
        assert(a + b =~= a);
    } else {
        assert((a + b).last() == b.last());
        assert((a + b).drop_last() =~= a + b.drop_last());
        lemma_lookup_concat(a, b.drop_last(), q);
    }
}

pub proof fn lemma_lookup_absent(es: Seq<(Seq<u8>, Seq<u8>)>, q: Seq<u8>)
    requires
        forall|i: int| 0 <= i < es.len() ==> (#[trigger] es[i]).0 != q,
    ensures
        entries_lookup(es, q) == None::<Seq<u8>>,
    decreases es.len(),
{
    if es.len() > 0 {
        lemma_lookup_absent(es.drop_last(), q);
    }
}

pub proof fn lemma_insert_members(es: Seq<(Seq<u8>, Seq<u8>)>, k: Seq<u8>, v: Seq<u8>)
    ensures
        forall|j: int|
            0 <= j < spec_insert_entry(es, k, v).len() ==> (#[trigger] spec_insert_entry(es, k, v)[j])
                == (k, v) || es.contains(spec_insert_entry(es, k, v)[j]),
        spec_insert_entry(es, k, v).len() <= es.len() + 1,
    decreases es.len(),
{
    let r = spec_insert_entry(es, k, v);
    if es.len() == 0 {
    } else if lex_lt(es[0].0, k) {
        lemma_insert_members(es.drop_first(), k, v);
        let rr = spec_insert_entry(es.drop_first(), k, v);
        assert forall|j: int| 0 <= j < r.len() implies (#[trigger] r[j]) == (k, v) || es.contains(
            r[j],
        ) by {
            if j == 0 {
                assert(es.contains(es[0]));
            } else {
                assert(r[j] == rr[j - 1]);
                if rr[j - 1] == (k, v) {
                } else {
                    let idx = choose|idx: int|
                        0 <= idx < es.drop_first().len() && es.drop_first()[idx] == rr[j - 1];
                    assert(es[idx + 1] == rr[j - 1]);
                    assert(es.contains(es[idx + 1]));
                }
            }
        }
    } else if k == es[0].0 {
        assert forall|j: int| 0 <= j < r.len() implies (#[trigger] r[j]) == (k, v) || es.contains(
            r[j],
        ) by {
            if j > 0 {
                assert(r[j] == es[j]);
                assert(es.contains(es[j]));
            }
        }
    } else {
        assert forall|j: int| 0 <= j < r.len() implies (#[trigger] r[j]) == (k, v) || es.contains(
            r[j],
        ) by {
            if j > 0 {
                assert(r[j] == es[j - 1]);
                assert(es.contains(es[j - 1]));
            }
        }
    }
}

pub proof fn lemma_insert_sorted(es: Seq<(Seq<u8>, Seq<u8>)>, k: Seq<u8>, v: Seq<u8>)
    requires
        entries_sorted(es),
    ensures
        entries_sorted(spec_insert_entry(es, k, v)),
    decreases es.len(),
{
    let r = spec_insert_entry(es, k, v);
    if es.len() == 0 {
    } else if lex_lt(es[0].0, k) {
        let rest = es.drop_first();
        assert(entries_sorted(rest)) by {
            assert(forall|i: int, j: int|
                0 <= i < j < rest.len() ==> (#[trigger] rest[i], #[trigger] rest[j]) == (
                es[i + 1],
                es[j + 1],
                ));
        }
        lemma_insert_sorted(rest, k, v);
        lemma_insert_members(rest, k, v);
        let rr = spec_insert_entry(rest, k, v);
        assert forall|i: int, j: int| 0 <= i < j < r.len() implies lex_lt(
            #[trigger] r[i].0,
            #[trigger] r[j].0,
        ) by {
            if i == 0 {
                assert(r[j] == rr[j - 1]);
                if rr[j - 1] == (k, v) {
                    assert(lex_lt(es[0].0, k));
                } else {
                    let idx = choose|idx: int| 0 <= idx < rest.len() && rest[idx] == rr[j - 1];
                    assert(es[idx + 1] == rest[idx]);
                    assert(lex_lt(es[0].0, es[idx + 1].0));
                }
            } else {
                assert(r[i] == rr[i - 1] && r[j] == rr[j - 1]);
            }
        }
    } else if k == es[0].0 {
        let rest = es.drop_first();
        assert forall|i: int, j: int| 0 <= i < j < r.len() implies lex_lt(
            #[trigger] r[i].0,
            #[trigger] r[j].0,
        ) by {
            if i == 0 {
                assert(r[j] == es[j]);
                assert(lex_lt(es[0].0, es[j].0));
            } else {
                assert(r[i] == es[i] && r[j] == es[j]);
            }
        }
    } else {
        lemma_lex_trichotomy(es[0].0, k);
        assert(lex_lt(k, es[0].0));
        assert forall|i: int, j: int| 0 <= i < j < r.len() implies lex_lt(
            #[trigger] r[i].0,
            #[trigger] r[j].0,
        ) by {
            if i == 0 {
                assert(r[j] == es[j - 1]);
                if j - 1 > 0 {
                    assert(lex_lt(es[0].0, es[j - 1].0));
                    lemma_lex_trans(k, es[0].0, es[j - 1].0);
                }
            } else {
                assert(r[i] == es[i - 1] && r[j] == es[j - 1]);
            }
        }
    }
}

pub proof fn lemma_lookup_single(e: (Seq<u8>, Seq<u8>), q: Seq<u8>)
    ensures
        entries_lookup(seq![e], q) == (if e.0 == q {
            Some(e.1)
        } else {
            None::<Seq<u8>>
        }),
{
    let s = seq![e];
    assert(s.len() == 1);
    assert(s.last() == e);
    assert(s.drop_last() =~= Seq::<(Seq<u8>, Seq<u8>)>::empty());
    assert(entries_lookup(s.drop_last(), q) == None::<Seq<u8>>);
}

pub proof fn lemma_insert_lookup(es: Seq<(Seq<u8>, Seq<u8>)>, k: Seq<u8>, v: Seq<u8>, q: Seq<u8>)
    requires
        entries_sorted(es),
    ensures
        entries_lookup(spec_insert_entry(es, k, v), q) == (if q == k {
            Some(v)
        } else {
            entries_lookup(es, q)
        }),
    decreases es.len(),
{
    let r = spec_insert_entry(es, k, v);
    if es.len() == 0 {
        lemma_lookup_single((k, v), q);
    } else if lex_lt(es[0].0, k) {
        let rest = es.drop_first();
        assert(entries_sorted(rest)) by {
            assert(forall|i: int, j: int|
                0 <= i < j < rest.len() ==> (#[trigger] rest[i], #[trigger] rest[j]) == (
                es[i + 1],
                es[j + 1],
                ));
        }
        lemma_insert_lookup(rest, k, v, q);
        lemma_lookup_concat(seq![es[0]], spec_insert_entry(rest, k, v), q);
        lemma_lookup_concat(seq![es[0]], rest, q);
        assert(seq![es[0]] + rest =~= es);
        lemma_lookup_single(es[0], q);
    } else if k == es[0].0 {
        let rest = es.drop_first();
        lemma_lookup_concat(seq![(k, v)], rest, q);
        lemma_lookup_concat(seq![es[0]], rest, q);
        assert(seq![es[0]] + rest =~= es);
        lemma_lookup_single((k, v), q);
        lemma_lookup_single(es[0], q);
        if q == k {
            assert(forall|i: int| 0 <= i < rest.len() ==> (#[trigger] rest[i]).0 != q) by {
                assert forall|i: int| 0 <= i < rest.len() implies (#[trigger] rest[i]).0 != q by {
                    assert(rest[i] == es[i + 1]);
                    assert(lex_lt(es[0].0, es[i + 1].0));
                    lemma_lex_irrefl(q);
                }
            }
            lemma_lookup_absent(rest, q);
        }
    } else {
        lemma_lex_trichotomy(es[0].0, k);
        assert(lex_lt(k, es[0].0));
        lemma_lookup_concat(seq![(k, v)], es, q);
        lemma_lookup_single((k, v), q);
        if q == k {
            assert(forall|i: int| 0 <= i < es.len() ==> (#[trigger] es[i]).0 != q) by {
                assert forall|i: int| 0 <= i < es.len() implies (#[trigger] es[i]).0 != q by {
                    if i == 0 {
                        lemma_lex_irrefl(q);
                    } else {
                        assert(lex_lt(es[0].0, es[i].0));
                        lemma_lex_trans(k, es[0].0, es[i].0);
                        lemma_lex_irrefl(q);
                    }
                }
            }
            lemma_lookup_absent(es, q);
        }
    }
}

/// Where the ordered position `m` of key `k` is known, insertion is an
/// update in place when the key at `m` is `k` itself, and a positional
/// insertion otherwise.
pub proof fn lemma_insert_entry_at(es: Seq<(Seq<u8>, Seq<u8>)>, k: Seq<u8>, v: Seq<u8>, m: int)
    requires
        entries_sorted(es),
        0 <= m <= es.len(),
        forall|j: int| 0 <= j < m ==> lex_lt((#[trigger] es[j]).0, k),
        m < es.len() ==> !lex_lt(es[m].0, k),
    ensures
        spec_insert_entry(es, k, v) == (if m < es.len() && es[m].0 == k {
            es.update(m, (k, v))
        } else {
            es.insert(m, (k, v))
        }),
    decreases es.len(),
{
    if es.len() == 0 {
        assert(spec_insert_entry(es, k, v) =~= es.insert(0, (k, v)));
    } else if m == 0 {
        assert(!lex_lt(es[0].0, k));
        if k == es[0].0 {
            assert(spec_insert_entry(es, k, v) =~= es.update(0, (k, v)));
        } else {
            lemma_lex_trichotomy(es[0].0, k);
            assert(lex_lt(k, es[0].0));
            assert(spec_insert_entry(es, k, v) =~= es.insert(0, (k, v)));
        }
    } else {
        assert(lex_lt(es[0].0, k));
        let rest = es.drop_first();
        assert(forall|i: int| 0 <= i < rest.len() ==> (#[trigger] rest[i]) == es[i + 1]);
        assert(entries_sorted(rest));
        lemma_insert_entry_at(rest, k, v, m - 1);
        if m < es.len() && es[m].0 == k {
            assert(rest[m - 1].0 == k);
            assert(spec_insert_entry(es, k, v) == seq![es[0]] + rest.update(m - 1, (k, v)));
            assert(spec_insert_entry(es, k, v) =~= es.update(m, (k, v)));
        } else {
            assert(spec_insert_entry(es, k, v) == seq![es[0]] + rest.insert(m - 1, (k, v)));
            assert(spec_insert_entry(es, k, v) =~= es.insert(m, (k, v)));
        }
    }
}

pub proof fn lemma_canon_sorted(es: Seq<(Seq<u8>, Seq<u8>)>)
    ensures
        entries_sorted(spec_canon(es)),
    decreases es.len(),
{
    if es.len() == 0 {
    } else {
        lemma_canon_sorted(es.drop_last());
        lemma_insert_sorted(spec_canon(es.drop_last()), es.last().0, es.last().1);
    }
}

pub proof fn lemma_canon_lookup(es: Seq<(Seq<u8>, Seq<u8>)>, q: Seq<u8>)
    ensures
        entries_lookup(spec_canon(es), q) == entries_lookup(es, q),
    decreases es.len(),
{
    if es.len() > 0 {
        lemma_canon_lookup(es.drop_last(), q);
        lemma_canon_sorted(es.drop_last());
        lemma_insert_lookup(spec_canon(es.drop_last()), es.last().0, es.last().1, q);
    }
}

/// Inserting a key above every present key appends the pair at the end.
pub proof fn lemma_insert_after_all(es: Seq<(Seq<u8>, Seq<u8>)>, k: Seq<u8>, v: Seq<u8>)
    requires
        forall|i: int| 0 <= i < es.len() ==> lex_lt((#[trigger] es[i]).0, k),
    ensures
        spec_insert_entry(es, k, v) == es.push((k, v)),
    decreases es.len(),
{
    if es.len() == 0 {
        assert(spec_insert_entry(es, k, v) =~= es.push((k, v)));
    } else {
        let rest = es.drop_first();
        assert(forall|i: int| 0 <= i < rest.len() ==> (#[trigger] rest[i]) == es[i + 1]);
        lemma_insert_after_all(rest, k, v);
        assert(spec_insert_entry(es, k, v) =~= es.push((k, v)));
    }
}

/// Buffering entries whose keys already ascend strictly leaves them unchanged.
pub proof fn lemma_canon_of_sorted(es: Seq<(Seq<u8>, Seq<u8>)>)
    requires
        entries_sorted(es),
    ensures
        spec_canon(es) == es,
    decreases es.len(),
{
    if es.len() > 0 {
        let front = es.drop_last();
        assert(entries_sorted(front)) by {
            assert(forall|i: int| 0 <= i < front.len() ==> (#[trigger] front[i]) == es[i]);
        }
        lemma_canon_of_sorted(front);
        assert(forall|i: int| 0 <= i < front.len() ==> lex_lt((#[trigger] front[i]).0, es.last().0));
        lemma_insert_after_all(front, es.last().0, es.last().1);
        assert(front.push((es.last().0, es.last().1)) =~= es);
    }
}

} // verus!
