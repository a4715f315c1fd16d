//! The laws that tie the encoder and the decoder together: a wire image
//! parses back to the value it came from, and a dictionary's encoding is
//! canonical whatever order its entries arrived in.

use vstd::prelude::*;

verus! {

use crate::de::{
    spec_decode, spec_parse_dict_items, spec_parse_int, spec_parse_list_items, spec_parse_string,
    spec_parse_value,
};
use crate::error::ParseFail;
use crate::ser::{lemma_render_entries_shape, spec_dict_body, spec_encode, spec_encode_list, spec_render_entries};
use crate::value::{spec_wf, SpecValue};
use crate::wire::{
    digit_val, entries_lookup, entries_sorted, is_digit, lemma_canon_lookup, lemma_canon_of_sorted,
    lemma_canon_sorted, lemma_dec_props, lemma_digits_val_take_succ, lemma_lex_irrefl,
    lemma_lex_trans, lemma_lex_trichotomy, lemma_lookup_absent, lemma_read_digits_dec, lex_lt,
    spec_canon, spec_dec, spec_int_bytes, spec_int_token, spec_str_token, COLON, DICT_OPEN,
    END_MARK, INT_OPEN, LIST_OPEN, MINUS,
};

/// Every wire image opens with a container mark, the integer mark, or a
/// length digit, and is at least two bytes long.
proof fn lemma_encode_shape(v: SpecValue)
    ensures
        spec_encode(v).len() >= 2,
        spec_encode(v)[0] == DICT_OPEN || spec_encode(v)[0] == LIST_OPEN || spec_encode(v)[0]
            == INT_OPEN || is_digit(spec_encode(v)[0]),
        spec_encode(v)[0] != END_MARK,
{
    match v {
        SpecValue::Text(b) => {
            lemma_dec_props(b.len());
            assert(spec_encode(v)[0] == spec_dec(b.len())[0]);
        },
        SpecValue::Int(n) => {
            assert(spec_encode(v)[0] == INT_OPEN);
            if n < 0 {
                lemma_dec_props((-n) as nat);
            } else {
                lemma_dec_props(n as nat);
            }
        },
        SpecValue::List(vs) => {
            assert(spec_encode(v)[0] == LIST_OPEN);
        },
        SpecValue::Dict(es) => {
            assert(spec_encode(v)[0] == DICT_OPEN);
        },
    }
}

/// A string token parses back to its payload: entered just past the first
/// length digit, the production consumes the rest of the token exactly.
proof fn lemma_parse_string_tok(b: Seq<u8>, pre: Seq<u8>, post: Seq<u8>)
    requires
        vstd::utf8::valid_utf8(b),
        b.len() <= u64::MAX,
    ensures
        is_digit((pre + spec_str_token(b) + post)[pre.len() as int]),
        spec_parse_string(
            pre + spec_str_token(b) + post,
            pre.len() as int + 1,
            (pre + spec_str_token(b) + post)[pre.len() as int],
        ) == Ok::<(Seq<u8>, int), (ParseFail, int)>((b, pre.len() as int + spec_str_token(b).len())),
{
    let s = pre + spec_str_token(b) + post;
    let i = pre.len() as int;
    let d = spec_dec(b.len());
    lemma_dec_props(b.len());
    assert(s[i] == d[0]);
    if b.len() == 0 {
        assert(d == seq![0x30u8]);
        assert(s[i] == 0x30);
        assert(s[i + 1] == COLON);
        assert(spec_parse_string(s, i + 1, s[i]) == Ok::<(Seq<u8>, int), (ParseFail, int)>(
            (Seq::empty(), i + 2),
        ));
        assert(b =~= Seq::<u8>::empty());
        assert(spec_str_token(b).len() == 2);
    } else {
        assert(s[i] != 0x30);
        assert(s.subrange(i, i + d.len() as int) =~= d);
        assert(s[i + d.len()] == COLON);
        assert(i + d.len() < s.len());
        lemma_digits_val_take_succ(d, 0);
        assert(d.take(0) =~= Seq::<u8>::empty());
        assert(crate::wire::spec_digits_val(d.take(1)) == digit_val(d[0]));
        lemma_read_digits_dec(s, i, 1, b.len(), COLON);
        let j = i + d.len() + 1;
        assert(crate::wire::spec_read_digits(s, i + 1, digit_val(d[0]) as u64, COLON) == Ok::<
            (u64, int),
            (ParseFail, int),
        >((b.len() as u64, j)));
        assert(j + b.len() <= s.len());
        assert(s.subrange(j, j + b.len() as int) =~= b);
        assert(j + b.len() == i + spec_str_token(b).len());
    }
}

/// An integer token parses back to its value: entered just past the
/// opening mark, the production consumes the rest of the token exactly.
proof fn lemma_parse_int_tok(n: int, pre: Seq<u8>, post: Seq<u8>)
    requires
        i64::MIN <= n <= i64::MAX,
    ensures
        (pre + spec_int_token(n) + post)[pre.len() as int] == INT_OPEN,
        spec_parse_int(pre + spec_int_token(n) + post, pre.len() as int + 1) == Ok::<
            (int, int),
            (ParseFail, int),
        >((n, pre.len() as int + spec_int_token(n).len())),
{
    let s = pre + spec_int_token(n) + post;
    let i = pre.len() as int;
    assert(s[i] == INT_OPEN);
    if n == 0 {
        lemma_dec_props(0);
        assert(spec_int_bytes(n) == seq![0x30u8]);
        assert(s[i + 1] == 0x30);
        assert(s[i + 2] == END_MARK);
        assert(i + 2 < s.len());
        assert(s[i + 1] != MINUS);
        assert(spec_int_token(n).len() == 3);
    } else if n > 0 {
        let d = spec_dec(n as nat);
        lemma_dec_props(n as nat);
        assert(spec_int_bytes(n) == d);
        assert(s[i + 1] == d[0]);
        assert(s[i + 1] != MINUS && s[i + 1] != 0x30 && s[i + 1] != END_MARK && is_digit(d[0]));
        assert(s.subrange(i + 1, i + 1 + d.len() as int) =~= d);
        assert(s[i + 1 + d.len()] == END_MARK);
        assert(i + 1 + d.len() < s.len());
        lemma_digits_val_take_succ(d, 0);
        assert(d.take(0) =~= Seq::<u8>::empty());
        lemma_read_digits_dec(s, i + 1, 1, n as nat, END_MARK);
        let j = i + 1 + d.len() + 1;
        assert(crate::wire::spec_read_digits(s, i + 2, digit_val(d[0]) as u64, END_MARK) == Ok::<
            (u64, int),
            (ParseFail, int),
        >((n as u64, j)));
        assert(n as u64 <= i64::MAX as u64);
        assert(j == i + spec_int_token(n).len());
    } else {
        let m = (-n) as nat;
        let d = spec_dec(m);
        lemma_dec_props(m);
        assert(spec_int_bytes(n) == seq![MINUS] + d);
        assert(s[i + 1] == MINUS);
        assert(s[i + 2] == d[0]);
        assert(d[0] != 0x30 && d[0] != END_MARK && is_digit(d[0]));
        assert(s.subrange(i + 2, i + 2 + d.len() as int) =~= d);
        assert(s[i + 2 + d.len()] == END_MARK);
        assert(i + 2 + d.len() < s.len());
        lemma_digits_val_take_succ(d, 0);
        assert(d.take(0) =~= Seq::<u8>::empty());
        lemma_read_digits_dec(s, i + 2, 1, m, END_MARK);
        let j = i + 2 + d.len() + 1;
        assert(crate::wire::spec_read_digits(s, i + 3, digit_val(d[0]) as u64, END_MARK) == Ok::<
            (u64, int),
            (ParseFail, int),
        >((m as u64, j)));
        assert(m <= 0x8000000000000000u64);
        assert(-(m as int) == n);
        assert(j == i + spec_int_token(n).len());
    }
}

/// One well-formed value's wire image, wherever it stands in a larger byte
/// run, parses back to that value and consumes exactly its own bytes.
proof fn lemma_parse_encode(v: SpecValue, pre: Seq<u8>, post: Seq<u8>)
    requires
        spec_wf(v),
    ensures
        spec_parse_value(pre + spec_encode(v) + post, pre.len() as int) == Ok::<
            (SpecValue, int),
            (ParseFail, int),
        >((v, pre.len() as int + spec_encode(v).len())),
    decreases v, 0int,
{
    let s = pre + spec_encode(v) + post;
    let i = pre.len() as int;
    lemma_encode_shape(v);
    match v {
        SpecValue::Text(b) => {
            assert(s =~= pre + spec_str_token(b) + post);
            lemma_parse_string_tok(b, pre, post);
            assert(s[i] == spec_encode(v)[0]);
            assert(s[i] != DICT_OPEN && s[i] != LIST_OPEN && s[i] != INT_OPEN);
        },
        SpecValue::Int(n) => {
            assert(s =~= pre + spec_int_token(n) + post);
            lemma_parse_int_tok(n, pre, post);
        },
        SpecValue::List(vs) => {
            assert(s[i] == LIST_OPEN);
            let pre2 = pre + seq![LIST_OPEN];
            assert(s =~= pre2 + spec_encode_list(vs) + seq![END_MARK] + post);
            lemma_parse_encode_items(vs, pre2, post);
            assert(spec_parse_list_items(s, i + 1) == Ok::<
                (Seq<SpecValue>, int),
                (ParseFail, int),
            >((vs, pre2.len() as int + spec_encode_list(vs).len() + 1)));
            assert(pre2.len() as int + spec_encode_list(vs).len() + 1 == i + spec_encode(v).len());
        },
        SpecValue::Dict(es) => {
            assert(s[i] == DICT_OPEN);
            let rend = spec_render_entries(es);
            lemma_render_entries_shape(es);
            assert(entries_sorted(rend)) by {
                assert(forall|a: int, b: int|
                    0 <= a < b < es.len() ==> crate::wire::lex_lt(
                        (#[trigger] es[a]).0,
                        (#[trigger] es[b]).0,
                    ));
                assert forall|a: int, b: int| 0 <= a < b < rend.len() implies crate::wire::lex_lt(
                    (#[trigger] rend[a]).0,
                    (#[trigger] rend[b]).0,
                ) by {
                    assert(rend[a] == (es[a].0, spec_encode(es[a].1)));
                    assert(rend[b] == (es[b].0, spec_encode(es[b].1)));
                }
            }
            lemma_canon_of_sorted(rend);
            let pre2 = pre + seq![DICT_OPEN];
            assert(s =~= pre2 + spec_dict_body(rend) + seq![END_MARK] + post);
            lemma_parse_encode_entries(es, pre2, post);
            assert(spec_parse_dict_items(s, i + 1) == Ok::<
                (Seq<(Seq<u8>, SpecValue)>, int),
                (ParseFail, int),
            >((es, pre2.len() as int + spec_dict_body(rend).len() + 1)));
            assert(pre2.len() as int + spec_dict_body(rend).len() + 1 == i + spec_encode(v).len());
        },
    }
}

/// A run of well-formed values' wire images followed by the closing mark
/// parses back to exactly those values, in order.
proof fn lemma_parse_encode_items(vs: Seq<SpecValue>, pre: Seq<u8>, post: Seq<u8>)
    requires
        forall|i: int| 0 <= i < vs.len() ==> spec_wf(#[trigger] vs[i]),
    ensures
        spec_parse_list_items(pre + spec_encode_list(vs) + seq![END_MARK] + post, pre.len() as int)
            == Ok::<(Seq<SpecValue>, int), (ParseFail, int)>(
            (vs, pre.len() as int + spec_encode_list(vs).len() + 1),
        ),
    decreases vs, 1int,
{
    let s = pre + spec_encode_list(vs) + seq![END_MARK] + post;
    let i = pre.len() as int;
    if vs.len() == 0 {
        assert(spec_encode_list(vs) == Seq::<u8>::empty());
        assert(s[i] == END_MARK);
        assert(vs =~= Seq::<SpecValue>::empty());
        assert(spec_parse_list_items(s, i) == Ok::<(Seq<SpecValue>, int), (ParseFail, int)>(
            (Seq::empty(), i + 1),
        ));
    } else {
        let v0 = vs[0];
        let rest = vs.drop_first();
        assert(spec_encode_list(vs) == spec_encode(v0) + spec_encode_list(rest));
        lemma_encode_shape(v0);
        let post1 = spec_encode_list(rest) + seq![END_MARK] + post;
        assert(s =~= pre + spec_encode(v0) + post1);
        assert(s[i] == spec_encode(v0)[0]);
        assert(s[i] != END_MARK);
        lemma_parse_encode(v0, pre, post1);
        let j = i + spec_encode(v0).len();
        assert(spec_parse_value(s, i) == Ok::<(SpecValue, int), (ParseFail, int)>((v0, j)));
        assert(i < j <= s.len());
        let pre2 = pre + spec_encode(v0);
        assert(s =~= pre2 + spec_encode_list(rest) + seq![END_MARK] + post);
        assert(forall|k: int| 0 <= k < rest.len() ==> rest[k] == #[trigger] vs[k + 1]);
        lemma_parse_encode_items(rest, pre2, post);
        assert(spec_parse_list_items(s, j) == Ok::<(Seq<SpecValue>, int), (ParseFail, int)>(
            (rest, pre2.len() as int + spec_encode_list(rest).len() + 1),
        ));
        assert(seq![v0] + rest =~= vs);
        assert(pre2.len() as int + spec_encode_list(rest).len() + 1 == i + spec_encode_list(vs).len()
            + 1);
    }
}

/// A run of rendered dictionary entries followed by the closing mark
/// parses back to exactly those entries, in order.
#[verifier::rlimit(100)]
proof fn lemma_parse_encode_entries(es: Seq<(Seq<u8>, SpecValue)>, pre: Seq<u8>, post: Seq<u8>)
    requires
        forall|i: int|
            0 <= i < es.len() ==> vstd::utf8::valid_utf8((#[trigger] es[i]).0) && es[i].0.len()
                <= u64::MAX && spec_wf(es[i].1),
    ensures
        spec_parse_dict_items(
            pre + spec_dict_body(spec_render_entries(es)) + seq![END_MARK] + post,
            pre.len() as int,
        ) == Ok::<(Seq<(Seq<u8>, SpecValue)>, int), (ParseFail, int)>(
            (es, pre.len() as int + spec_dict_body(spec_render_entries(es)).len() + 1),
        ),
    decreases es, 1int,
{
    let body = spec_dict_body(spec_render_entries(es));
    let s = pre + body + seq![END_MARK] + post;
    let i = pre.len() as int;
    if es.len() == 0 {
        assert(spec_render_entries(es) == Seq::<(Seq<u8>, Seq<u8>)>::empty());
        assert(body == Seq::<u8>::empty());
        assert(s[i] == END_MARK);
        assert(es =~= Seq::<(Seq<u8>, SpecValue)>::empty());
    } else {
        let k0 = es[0].0;
        let v0 = es[0].1;
        let rest = es.drop_first();
        assert(spec_render_entries(es) == seq![(k0, spec_encode(v0))] + spec_render_entries(rest));
        assert(spec_render_entries(es)[0] == (k0, spec_encode(v0)));
        assert(spec_render_entries(es).drop_first() =~= spec_render_entries(rest));
        assert(body == spec_str_token(k0) + spec_encode(v0) + spec_dict_body(
            spec_render_entries(rest),
        ));
        let post1 = spec_encode(v0) + spec_dict_body(spec_render_entries(rest)) + seq![END_MARK]
            + post;
        assert(s =~= pre + spec_str_token(k0) + post1);
        lemma_parse_string_tok(k0, pre, post1);
        assert(is_digit(s[i]));
        assert(s[i] != END_MARK);
        let j1 = i + spec_str_token(k0).len();
        assert(spec_parse_string(s, i + 1, s[i]) == Ok::<(Seq<u8>, int), (ParseFail, int)>(
            (k0, j1),
        ));
        lemma_dec_props(k0.len());
        assert(i < j1 <= s.len());
        let pre2 = pre + spec_str_token(k0);
        let post2 = spec_dict_body(spec_render_entries(rest)) + seq![END_MARK] + post;
        assert(s =~= pre2 + spec_encode(v0) + post2);
        lemma_parse_encode(v0, pre2, post2);
        lemma_encode_shape(v0);
        let j2 = j1 + spec_encode(v0).len();
        assert(spec_parse_value(s, j1) == Ok::<(SpecValue, int), (ParseFail, int)>((v0, j2)));
        assert(j1 < j2 <= s.len());
        let pre3 = pre2 + spec_encode(v0);
        assert(s =~= pre3 + spec_dict_body(spec_render_entries(rest)) + seq![END_MARK] + post);
        assert(forall|k: int| 0 <= k < rest.len() ==> rest[k] == #[trigger] es[k + 1]);
        lemma_parse_encode_entries(rest, pre3, post);
        assert(spec_parse_dict_items(s, j2) == Ok::<
            (Seq<(Seq<u8>, SpecValue)>, int),
            (ParseFail, int),
        >((rest, pre3.len() as int + spec_dict_body(spec_render_entries(rest)).len() + 1)));
        assert(seq![(k0, v0)] + rest =~= es);
        assert(pre3.len() as int + spec_dict_body(spec_render_entries(rest)).len() + 1 == i + body.len()
            + 1);
    }
}

/// Round trip: decoding the wire image of any well-formed value yields the
/// value itself.  Well-formed means: string payloads are valid UTF-8 of
/// representable length, integers fit the signed 64-bit range, and each
/// dictionary's entries already stand in strictly ascending key order, the
/// order in which the encoder emits them and the decoder returns them.
pub proof fn lemma_decode_encode(v: SpecValue)
    requires
        spec_wf(v),
    ensures
        spec_decode(spec_encode(v)) == Ok::<SpecValue, (ParseFail, int)>(v),
{
    lemma_parse_encode(v, Seq::empty(), Seq::empty());
    assert(Seq::empty() + spec_encode(v) + Seq::empty() =~= spec_encode(v));
    assert(spec_parse_value(spec_encode(v), 0) == Ok::<(SpecValue, int), (ParseFail, int)>(
        (v, spec_encode(v).len() as int),
    ));
}

/// In a run whose keys ascend strictly, every key below the last one is
/// absent from the front of the run only if it is absent everywhere; in
/// particular the last key appears nowhere earlier.
proof fn lemma_sorted_last_key_absent_before(es: Seq<(Seq<u8>, Seq<u8>)>)
    requires
        entries_sorted(es),
        es.len() > 0,
    ensures
        entries_lookup(es.drop_last(), es.last().0) == None::<Seq<u8>>,
        entries_lookup(es, es.last().0) == Some(es.last().1),
{
    let front = es.drop_last();
    let k = es.last().0;
    assert forall|i: int| 0 <= i < front.len() implies (#[trigger] front[i]).0 != k by {
        assert(front[i] == es[i]);
        assert(lex_lt(es[i].0, k));
        lemma_lex_irrefl(k);
    }
    lemma_lookup_absent(front, k);
}

/// Two runs in strictly ascending key order that answer every lookup the
/// same way are the same run.
proof fn lemma_sorted_same_lookup(a: Seq<(Seq<u8>, Seq<u8>)>, b: Seq<(Seq<u8>, Seq<u8>)>)
    requires
        entries_sorted(a),
        entries_sorted(b),
        forall|q: Seq<u8>| #![all_triggers] entries_lookup(a, q) == entries_lookup(b, q),
    ensures
        a == b,
    decreases a.len(),
{
    if a.len() == 0 && b.len() == 0 {
        assert(a =~= b);
    } else if a.len() == 0 {
        lemma_sorted_last_key_absent_before(b);
        assert(entries_lookup(a, b.last().0) == None::<Seq<u8>>);
        assert(false);
    } else if b.len() == 0 {
        lemma_sorted_last_key_absent_before(a);
        assert(entries_lookup(b, a.last().0) == None::<Seq<u8>>);
        assert(false);
    } else {
        let ka = a.last().0;
        let kb = b.last().0;
        lemma_sorted_last_key_absent_before(a);
        lemma_sorted_last_key_absent_before(b);
        if ka != kb {
            lemma_lex_trichotomy(ka, kb);
            if lex_lt(ka, kb) {
                assert forall|i: int| 0 <= i < a.len() implies (#[trigger] a[i]).0 != kb by {
                    if i < a.len() - 1 {
                        assert(lex_lt(a[i].0, ka));
                        lemma_lex_trans(a[i].0, ka, kb);
                    }
                    lemma_lex_irrefl(kb);
                }
                lemma_lookup_absent(a, kb);
            } else {
                assert forall|i: int| 0 <= i < b.len() implies (#[trigger] b[i]).0 != ka by {
                    if i < b.len() - 1 {
                        assert(lex_lt(b[i].0, kb));
                        lemma_lex_trans(b[i].0, kb, ka);
                    }
                    lemma_lex_irrefl(ka);
                }
                lemma_lookup_absent(b, ka);
            }
            assert(false);
        }
        assert(entries_lookup(a, ka) == Some(a.last().1));
        assert(entries_lookup(b, ka) == Some(b.last().1));
        assert(a.last() == b.last());
        let a2 = a.drop_last();
        let b2 = b.drop_last();
        assert(entries_sorted(a2)) by {
            assert(forall|i: int| 0 <= i < a2.len() ==> (#[trigger] a2[i]) == a[i]);
        }
        assert(entries_sorted(b2)) by {
            assert(forall|i: int| 0 <= i < b2.len() ==> (#[trigger] b2[i]) == b[i]);
        }
        assert forall|q: Seq<u8>| #![all_triggers] entries_lookup(a2, q) == entries_lookup(
            b2,
            q,
        ) by {
            if q == ka {
                assert(entries_lookup(a2, q) == None::<Seq<u8>>);
                assert(entries_lookup(b2, q) == None::<Seq<u8>>);
            } else {
                assert(entries_lookup(a, q) == entries_lookup(a2, q));
                assert(entries_lookup(b, q) == entries_lookup(b2, q));
            }
        }
        lemma_sorted_same_lookup(a2, b2);
        assert(a =~= b) by {
            assert(a2.push(a.last()) =~= a);
            assert(b2.push(b.last()) =~= b);
        }
    }
}

/// Order independence: two entry runs that supply the same last value for
/// every key — however the entries are ordered or repeated — buffer to the
/// same canonical run, and so encode to the same dictionary bytes.
pub proof fn lemma_canon_order_free(a: Seq<(Seq<u8>, Seq<u8>)>, b: Seq<(Seq<u8>, Seq<u8>)>)
    requires
        forall|q: Seq<u8>| #![all_triggers] entries_lookup(a, q) == entries_lookup(b, q),
    ensures
        spec_canon(a) == spec_canon(b),
{
    lemma_canon_sorted(a);
    lemma_canon_sorted(b);
    assert forall|q: Seq<u8>| #![all_triggers] entries_lookup(spec_canon(a), q) == entries_lookup(
        spec_canon(b),
        q,
    ) by {
        lemma_canon_lookup(a, q);
        lemma_canon_lookup(b, q);
    }
    lemma_sorted_same_lookup(spec_canon(a), spec_canon(b));
}

/// Canonical ordering: whatever order a dictionary's entries arrive in,
/// the buffered entries the encoder flushes stand in strictly ascending
/// key order, and each key maps to the value bytes supplied last for it.
pub proof fn lemma_encode_dict_canonical(es: Seq<(Seq<u8>, SpecValue)>)
    ensures
        spec_encode(SpecValue::Dict(es)) == seq![DICT_OPEN] + spec_dict_body(
            spec_canon(spec_render_entries(es)),
        ) + seq![END_MARK],
        entries_sorted(spec_canon(spec_render_entries(es))),
        forall|q: Seq<u8>| #![all_triggers]
            entries_lookup(spec_canon(spec_render_entries(es)), q) == entries_lookup(
                spec_render_entries(es),
                q,
            ),
{
    lemma_canon_sorted(spec_render_entries(es));
    assert forall|q: Seq<u8>| #![all_triggers]
        entries_lookup(spec_canon(spec_render_entries(es)), q) == entries_lookup(
            spec_render_entries(es),
            q,
        ) by {
        lemma_canon_lookup(spec_render_entries(es), q);
    }
}

} // verus!
