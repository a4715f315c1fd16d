//! The encoder: a streaming writer that consumes one producer call per
//! scalar or composite, renders every token through the stateless
//! formatter, and buffers each dictionary's entries so they flush in
//! canonical key order.

use vstd::prelude::*;

verus! {

use vstd::utf8::{encode_utf8, valid_utf8};
use crate::error::{Error, ErrorCode};
use crate::text::{bytes_to_string, char_string, lemma_string_bytes_round};
use crate::value::{
    lemma_view_entries_len, lemma_view_list_len, view_entries, view_list, view_value, SpecValue,
    Value,
};
use crate::wire::{
    entries_sorted, lemma_insert_entry_at, lemma_insert_sorted, lemma_lex_irrefl,
    lemma_lex_trichotomy, lex_lt, spec_canon, spec_dec, spec_insert_entry, spec_int_bytes,
    spec_int_token, spec_str_token, COLON, DICT_OPEN, END_MARK, INT_OPEN, LIST_OPEN,
};

/// The full wire image of a value.  List elements are emitted in order; a
/// dictionary is emitted as the buffered form of its rendered entries, so
/// its keys appear in ascending byte order and a later entry with an equal
/// key replaces an earlier one.
pub open spec fn spec_encode(v: SpecValue) -> Seq<u8>
    decreases v,
{
    match v {
        SpecValue::Text(b) => spec_str_token(b),
        SpecValue::Int(n) => spec_int_token(n),
        SpecValue::List(vs) => seq![LIST_OPEN] + spec_encode_list(vs) + seq![END_MARK],
        SpecValue::Dict(es) => seq![DICT_OPEN] + spec_dict_body(
            spec_canon(spec_render_entries(es)),
        ) + seq![END_MARK],
    }
}

pub open spec fn spec_encode_list(vs: Seq<SpecValue>) -> Seq<u8>
    decreases vs,
{
    if vs.len() == 0 {
        Seq::empty()
    } else {
        spec_encode(vs[0]) + spec_encode_list(vs.drop_first())
    }
}

/// Each dictionary entry with its value rendered to its own wire image.
pub open spec fn spec_render_entries(es: Seq<(Seq<u8>, SpecValue)>) -> Seq<(Seq<u8>, Seq<u8>)>
    decreases es,
{
    if es.len() == 0 {
        Seq::empty()
    } else {
        seq![(es[0].0, spec_encode(es[0].1))] + spec_render_entries(es.drop_first())
    }
}

/// The byte run of a dictionary body: each key as a string token, followed
/// by that entry's rendered value bytes.
pub open spec fn spec_dict_body(rs: Seq<(Seq<u8>, Seq<u8>)>) -> Seq<u8>
    decreases rs,
{
    if rs.len() == 0 {
        Seq::empty()
    } else {
        spec_str_token(rs[0].0) + rs[0].1 + spec_dict_body(rs.drop_first())
    }
}

pub proof fn lemma_encode_list_push(vs: Seq<SpecValue>, x: SpecValue)
    ensures
        spec_encode_list(vs.push(x)) == spec_encode_list(vs) + spec_encode(x),
    decreases vs,
{
    if vs.len() == 0 {
        assert(vs.push(x).drop_first() =~= Seq::<SpecValue>::empty());
        assert(vs.push(x)[0] == x);
        assert(spec_encode_list(vs.push(x)) == spec_encode(x) + spec_encode_list(
            Seq::<SpecValue>::empty(),
        ));
        assert(spec_encode_list(vs.push(x)) =~= spec_encode_list(vs) + spec_encode(x));
    } else {
        assert(vs.push(x).drop_first() =~= vs.drop_first().push(x));
        assert(vs.push(x)[0] == vs[0]);
        assert(spec_encode_list(vs.push(x)) == spec_encode(vs[0]) + spec_encode_list(
            vs.drop_first().push(x),
        ));
        lemma_encode_list_push(vs.drop_first(), x);
        assert(spec_encode_list(vs) == spec_encode(vs[0]) + spec_encode_list(vs.drop_first()));
        assert(spec_encode_list(vs.push(x)) =~= spec_encode_list(vs) + spec_encode(x));
    }
}

pub proof fn lemma_render_entries_push(es: Seq<(Seq<u8>, SpecValue)>, x: (Seq<u8>, SpecValue))
    ensures
        spec_render_entries(es.push(x)) == spec_render_entries(es).push((x.0, spec_encode(x.1))),
    decreases es,
{
    if es.len() == 0 {
        assert(es.push(x).drop_first() =~= Seq::<(Seq<u8>, SpecValue)>::empty());
        assert(es.push(x)[0] == x);
        assert(spec_render_entries(es.push(x)) == seq![(x.0, spec_encode(x.1))]
            + spec_render_entries(Seq::<(Seq<u8>, SpecValue)>::empty()));
        assert(spec_render_entries(es.push(x)) =~= spec_render_entries(es).push(
            (x.0, spec_encode(x.1)),
        ));
    } else {
        assert(es.push(x).drop_first() =~= es.drop_first().push(x));
        assert(es.push(x)[0] == es[0]);
        assert(spec_render_entries(es.push(x)) == seq![(es[0].0, spec_encode(es[0].1))]
            + spec_render_entries(es.drop_first().push(x)));
        lemma_render_entries_push(es.drop_first(), x);
        assert(spec_render_entries(es) == seq![(es[0].0, spec_encode(es[0].1))]
            + spec_render_entries(es.drop_first()));
        assert(spec_render_entries(es.push(x)) =~= spec_render_entries(es).push(
            (x.0, spec_encode(x.1)),
        ));
    }
}

pub proof fn lemma_dict_body_push(rs: Seq<(Seq<u8>, Seq<u8>)>, x: (Seq<u8>, Seq<u8>))
    ensures
        spec_dict_body(rs.push(x)) == spec_dict_body(rs) + spec_str_token(x.0) + x.1,
    decreases rs,
{
    if rs.len() == 0 {
        assert(rs.push(x).drop_first() =~= Seq::<(Seq<u8>, Seq<u8>)>::empty());
        assert(rs.push(x)[0] == x);
        assert(spec_dict_body(rs.push(x)) == spec_str_token(x.0) + x.1 + spec_dict_body(
            Seq::<(Seq<u8>, Seq<u8>)>::empty(),
        ));
        assert(spec_dict_body(rs.push(x)) =~= spec_dict_body(rs) + spec_str_token(x.0) + x.1);
    } else {
        assert(rs.push(x).drop_first() =~= rs.drop_first().push(x));
        assert(rs.push(x)[0] == rs[0]);
        assert(spec_dict_body(rs.push(x)) == spec_str_token(rs[0].0) + rs[0].1 + spec_dict_body(
            rs.drop_first().push(x),
        ));
        lemma_dict_body_push(rs.drop_first(), x);
        assert(spec_dict_body(rs) == spec_str_token(rs[0].0) + rs[0].1 + spec_dict_body(
            rs.drop_first(),
        ));
        assert(spec_dict_body(rs.push(x)) =~= spec_dict_body(rs) + spec_str_token(x.0) + x.1);
    }
}

/// Appends the base-ten digits of `n`, most significant first.
fn push_dec(w: &mut Vec<u8>, n: u64)
    ensures
        final(w)@ == old(w)@ + spec_dec(n as nat),
    decreases n,
{
    if n >= 10 {
        push_dec(w, n / 10);
    }
    w.push(0x30 + (n % 10) as u8);
    assert(w@ =~= old(w)@ + spec_dec(n as nat));
}

/// Appends a copy of the bytes in `b`.
fn push_bytes(w: &mut Vec<u8>, b: &[u8])
    ensures
        final(w)@ == old(w)@ + b@,
{
    let ghost w0 = w@;
    let n = b.len();
    let mut i: usize = 0;
    while i < n
        invariant
            i <= n,
            n == b@.len(),
            w@ == w0 + b@.take(i as int),
        decreases n - i,
    {
        w.push(*vstd::slice::slice_index_get(b, i));
        assert(w@ =~= w0 + b@.take(i + 1));
        i = i + 1;
    }
    assert(b@.take(n as int) =~= b@);
}

/// Relies on itoa (`Buffer::format`): the plain base-ten digits of `v`, a
/// leading `-` exactly when `v` is negative, and no leading zeros.
#[verifier::external_body]
fn format_i64(v: i64) -> (r: Vec<u8>)
    ensures
        r@ == spec_int_bytes(v as int),
{
    let mut buf = itoa::Buffer::new();
    buf.format(v).as_bytes().to_vec()
}

/// Appends the integer token `i<digits>e` for `v`.
fn push_int(w: &mut Vec<u8>, v: i64)
    ensures
        final(w)@ == old(w)@ + spec_int_token(v as int),
{
    let ghost w0 = w@;
    w.push(INT_OPEN);
    let digits = format_i64(v);
    push_bytes(w, digits.as_slice());
    w.push(END_MARK);
    assert(w@ =~= w0 + spec_int_token(v as int));
}

/// Appends the string token `<len>:<payload>` for payload `b`.
fn push_str_token(w: &mut Vec<u8>, b: &[u8])
    ensures
        final(w)@ == old(w)@ + spec_str_token(b@),
{
    let ghost w0 = w@;
    push_dec(w, b.len() as u64);
    w.push(COLON);
    push_bytes(w, b);
    assert(w@ =~= w0 + spec_str_token(b@));
}

/// The stateless byte-emission rules for each primitive token.
#[derive(Debug)]
pub struct Formatter;

impl Formatter {
    /// Writes the text `s` as a string token: its byte length, a colon,
    /// then its bytes.
    pub fn string(&self, w: &mut Vec<u8>, s: &str)
        ensures
            final(w)@ == old(w)@ + spec_str_token(encode_utf8(s@)),
    {
        push_str_token(w, s.as_bytes());
    }

    /// Writes the dictionary opening mark `d`.
    pub fn dict_open(&self, w: &mut Vec<u8>)
        ensures
            final(w)@ == old(w)@ + seq![DICT_OPEN],
    {
        w.push(DICT_OPEN);
        assert(w@ =~= old(w)@ + seq![DICT_OPEN]);
    }

    /// Writes the container closing mark `e`.
    pub fn dict_close(&self, w: &mut Vec<u8>)
        ensures
            final(w)@ == old(w)@ + seq![END_MARK],
    {
        w.push(END_MARK);
        assert(w@ =~= old(w)@ + seq![END_MARK]);
    }

    /// Writes the list opening mark `l`.
    pub fn list_open(&self, w: &mut Vec<u8>)
        ensures
            final(w)@ == old(w)@ + seq![LIST_OPEN],
    {
        w.push(LIST_OPEN);
        assert(w@ =~= old(w)@ + seq![LIST_OPEN]);
    }

    /// Writes the container closing mark `e`.
    pub fn list_close(&self, w: &mut Vec<u8>)
        ensures
            final(w)@ == old(w)@ + seq![END_MARK],
    {
        w.push(END_MARK);
        assert(w@ =~= old(w)@ + seq![END_MARK]);
    }
}

/// Tracks whether a list currently being encoded was closed early because
/// it was declared empty, is still waiting for its first element, or has
/// seen at least one element.
#[derive(Eq, PartialEq)]
pub enum State {
    Empty,
    First,
    Rest,
}

/// Compares two byte runs in byte-lexicographic order.
fn lex_less(a: &[u8], b: &[u8]) -> (r: bool)
    ensures
        r == lex_lt(a@, b@),
{
    let alen = a.len();
    let blen = b.len();
    let mut i: usize = 0;
    proof {
        assert(a@.skip(0) =~= a@);
        assert(b@.skip(0) =~= b@);
    }
    while i < alen && i < blen
        invariant
            i <= alen,
            i <= blen,
            alen == a@.len(),
            blen == b@.len(),
            lex_lt(a@, b@) == lex_lt(a@.skip(i as int), b@.skip(i as int)),
        decreases alen - i,
    {
        let x = *vstd::slice::slice_index_get(a, i);
        let y = *vstd::slice::slice_index_get(b, i);
        proof {
            assert(a@.skip(i as int)[0] == a@[i as int]);
            assert(b@.skip(i as int)[0] == b@[i as int]);
        }
        if x < y {
            return true;
        }
        if y < x {
            return false;
        }
        proof {
            assert(a@.skip(i as int).drop_first() =~= a@.skip(i + 1));
            assert(b@.skip(i as int).drop_first() =~= b@.skip(i + 1));
        }
        i = i + 1;
    }
    proof {
        assert(a@.skip(i as int).len() == alen - i);
        assert(b@.skip(i as int).len() == blen - i);
    }
    alen < blen
}

/// The streaming encoder: consumes one producer call per scalar or
/// composite and appends that token's bytes to its owned output buffer.
pub struct Serializer {
    writer: Vec<u8>,
    formatter: Formatter,
}

impl Serializer {
    /// The bytes emitted so far.
    pub closed spec fn out(&self) -> Seq<u8> {
        self.writer@
    }

    #[inline]
    pub fn new(writer: Vec<u8>) -> (r: Serializer)
        ensures
            r.out() == writer@,
    {
        Serializer { writer, formatter: Formatter }
    }

    /// Hands back the output buffer.
    pub fn into_inner(self) -> (r: Vec<u8>)
        ensures
            r@ == self.out(),
    {
        self.writer
    }
}

/// The canonicalization buffer for one dictionary's encoding: it keeps each
/// rendered entry keyed by its raw key bytes, in strictly ascending key
/// order, and flushes them in that order when the dictionary closes.
pub struct DictEncoder {
    data: Vec<(Vec<u8>, Vec<u8>)>,
    prev_key: Option<Vec<u8>>,
}

impl DictEncoder {
    /// The buffered entries: raw key bytes paired with rendered value bytes.
    pub closed spec fn entries(&self) -> Seq<(Seq<u8>, Seq<u8>)> {
        Seq::new(self.data@.len(), |i: int| (self.data@[i].0@, self.data@[i].1@))
    }

    /// The key waiting for its value, if a key arrived since the last value.
    pub closed spec fn pending(&self) -> Option<Seq<u8>> {
        match self.prev_key {
            Some(k) => Some(k@),
            None => None,
        }
    }

    pub fn new() -> (r: DictEncoder)
        ensures
            r.entries() == Seq::<(Seq<u8>, Seq<u8>)>::empty(),
            r.pending() is None,
    {
        let r = DictEncoder { data: Vec::new(), prev_key: None };
        proof {
            assert(r.entries() =~= Seq::<(Seq<u8>, Seq<u8>)>::empty());
        }
        r
    }

    /// Remembers `key` as the key of the entry whose value comes next.
    pub fn add_key(&mut self, key: String)
        ensures
            final(self).entries() == old(self).entries(),
            final(self).pending() == Some(encode_utf8(key@)),
    {
        self.prev_key = Some(vstd::slice::slice_to_vec(key.as_str().as_bytes()));
        proof {
            assert(self.entries() =~= old(self).entries());
        }
    }

    /// Stores `value` as the rendered bytes for the most recent key.  The
    /// pair lands at its ordered position; when the key is already present
    /// its value is replaced, so the later write wins.  Without a pending
    /// key the value is dropped.
    pub fn add_value(&mut self, value: Vec<u8>)
        requires
            entries_sorted(old(self).entries()),
        ensures
            entries_sorted(final(self).entries()),
            final(self).pending() == old(self).pending(),
            final(self).entries() == (match old(self).pending() {
                Some(k) => spec_insert_entry(old(self).entries(), k, value@),
                None => old(self).entries(),
            }),
    {
        let key_copy: Vec<u8>;
        match &self.prev_key {
            None => {
                return ;
            },
            Some(key) => {
                key_copy = vstd::slice::slice_to_vec(key.as_slice());
            },
        }
        let ghost es0 = self.entries();
        let ghost k = key_copy@;
        let ghost d0 = self.data@;
        let ghost p0 = self.prev_key;
        let mut idx: usize = 0;
        while idx < self.data.len() && lex_less(self.data[idx].0.as_slice(), key_copy.as_slice())
            invariant
                0 <= idx <= self.data@.len(),
                self.data@ == d0,
                self.prev_key == p0,
                k == key_copy@,
                forall|j: int| 0 <= j < idx ==> lex_lt((#[trigger] self.data@[j]).0@, k),
            decreases self.data@.len() - idx,
        {
            idx = idx + 1;
        }
        proof {
            assert(forall|j: int| 0 <= j < idx ==> lex_lt((#[trigger] es0[j]).0, k));
            assert(idx < es0.len() ==> es0[idx as int].0 == self.data@[idx as int].0@);
        }
        if idx < self.data.len() && !lex_less(key_copy.as_slice(), self.data[idx].0.as_slice()) {
            proof {
                lemma_lex_trichotomy(es0[idx as int].0, k);
                assert(es0[idx as int].0 == k);
                lemma_insert_entry_at(es0, k, value@, idx as int);
                lemma_insert_sorted(es0, k, value@);
            }
            let _ = self.data.remove(idx);
            self.data.insert(idx, (key_copy, value));
            proof {
                assert(self.entries() =~= es0.update(idx as int, (k, value@)));
            }
        } else {
            proof {
                if idx < es0.len() {
                    lemma_lex_irrefl(k);
                    assert(es0[idx as int].0 != k);
                }
                lemma_insert_entry_at(es0, k, value@, idx as int);
                lemma_insert_sorted(es0, k, value@);
            }
            self.data.insert(idx, (key_copy, value));
            proof {
                assert(self.entries() =~= es0.insert(idx as int, (k, value@)));
            }
        }
    }

    /// True when no entry has been buffered yet.
    pub fn is_empty(&self) -> (r: bool)
        ensures
            r == (self.entries().len() == 0),
    {
        self.data.len() == 0
    }

    /// Flushes the buffered dictionary: the opening mark, every entry in
    /// ascending key order (the key as a string token, then the rendered
    /// value bytes verbatim), and the closing mark.
    pub fn finalize_encode(&self, s: &mut Serializer) -> (r: Result<(), Error>)
        ensures
            r == Ok::<(), Error>(()),
            final(s).out() == old(s).out() + seq![DICT_OPEN] + spec_dict_body(self.entries())
                + seq![END_MARK],
    {
        let ghost w0 = s.writer@;
        s.formatter.dict_open(&mut s.writer);
        let n = self.data.len();
        let mut i: usize = 0;
        while i < n
            invariant
                i <= n,
                n == self.data@.len(),
                s.writer@ == w0 + seq![DICT_OPEN] + spec_dict_body(self.entries().take(i as int)),
            decreases n - i,
        {
            push_str_token(&mut s.writer, self.data[i].0.as_slice());
            push_bytes(&mut s.writer, self.data[i].1.as_slice());
            proof {
                assert(self.entries().take(i + 1) =~= self.entries().take(i as int).push(
                    self.entries()[i as int],
                ));
                lemma_dict_body_push(self.entries().take(i as int), self.entries()[i as int]);
                assert(s.writer@ =~= w0 + seq![DICT_OPEN] + spec_dict_body(
                    self.entries().take(i + 1),
                ));
            }
            i = i + 1;
        }
        s.formatter.dict_close(&mut s.writer);
        proof {
            assert(self.entries().take(n as int) =~= self.entries());
            assert(s.writer@ =~= w0 + seq![DICT_OPEN] + spec_dict_body(self.entries())
                + seq![END_MARK]);
        }
        Ok(())
    }
}

} // verus!

verus! {

/// The wire image of a raw byte run: a list of one integer per byte.
pub open spec fn spec_byte_ints(bs: Seq<u8>) -> Seq<u8>
    decreases bs.len(),
{
    if bs.len() == 0 {
        Seq::empty()
    } else {
        spec_int_token(bs[0] as int) + spec_byte_ints(bs.drop_first())
    }
}

pub proof fn lemma_byte_ints_push(bs: Seq<u8>, x: u8)
    ensures
        spec_byte_ints(bs.push(x)) == spec_byte_ints(bs) + spec_int_token(x as int),
    decreases bs.len(),
{
    if bs.len() == 0 {
        assert(bs.push(x).drop_first() =~= Seq::<u8>::empty());
        assert(bs.push(x)[0] == x);
        assert(spec_byte_ints(bs.push(x)) == spec_int_token(x as int) + spec_byte_ints(
            Seq::<u8>::empty(),
        ));
        assert(spec_byte_ints(bs.push(x)) =~= spec_byte_ints(bs) + spec_int_token(x as int));
    } else {
        assert(bs.push(x).drop_first() =~= bs.drop_first().push(x));
        assert(bs.push(x)[0] == bs[0]);
        assert(spec_byte_ints(bs.push(x)) == spec_int_token(bs[0] as int) + spec_byte_ints(
            bs.drop_first().push(x),
        ));
        lemma_byte_ints_push(bs.drop_first(), x);
        assert(spec_byte_ints(bs) == spec_int_token(bs[0] as int) + spec_byte_ints(
            bs.drop_first(),
        ));
        assert(spec_byte_ints(bs.push(x)) =~= spec_byte_ints(bs) + spec_int_token(x as int));
    }
}

impl Serializer {
    /// Booleans have no wire representation: every call fails, whatever the
    /// value, and writes nothing.
    #[inline]
    pub fn serialize_bool(&mut self, _v: bool) -> (r: Result<(), Error>)
        ensures
            final(self).out() == old(self).out(),
            r == Err::<(), Error>(Error::Ser(ErrorCode::UnsupportedType)),
    {
        Err(Error::Ser(ErrorCode::UnsupportedType))
    }

    #[inline]
    pub fn serialize_isize(&mut self, v: isize) -> (r: Result<(), Error>)
        ensures
            r == Ok::<(), Error>(()),
            final(self).out() == old(self).out() + spec_int_token(v as int),
    {
        push_int(&mut self.writer, v as i64);
        Ok(())
    }

    #[inline]
    pub fn serialize_i8(&mut self, v: i8) -> (r: Result<(), Error>)
        ensures
            r == Ok::<(), Error>(()),
            final(self).out() == old(self).out() + spec_int_token(v as int),
    {
        push_int(&mut self.writer, v as i64);
        Ok(())
    }

    #[inline]
    pub fn serialize_i16(&mut self, v: i16) -> (r: Result<(), Error>)
        ensures
            r == Ok::<(), Error>(()),
            final(self).out() == old(self).out() + spec_int_token(v as int),
    {
        push_int(&mut self.writer, v as i64);
        Ok(())
    }

    #[inline]
    pub fn serialize_i32(&mut self, v: i32) -> (r: Result<(), Error>)
        ensures
            r == Ok::<(), Error>(()),
            final(self).out() == old(self).out() + spec_int_token(v as int),
    {
        push_int(&mut self.writer, v as i64);
        Ok(())
    }

    #[inline]
    pub fn serialize_i64(&mut self, v: i64) -> (r: Result<(), Error>)
        ensures
            r == Ok::<(), Error>(()),
            final(self).out() == old(self).out() + spec_int_token(v as int),
    {
        push_int(&mut self.writer, v);
        Ok(())
    }

    /// An unsigned magnitude above the signed 64-bit maximum has no wire
    /// representation: it fails with a range error and writes nothing.
    #[inline]
    pub fn serialize_usize(&mut self, v: usize) -> (r: Result<(), Error>)
        ensures
            v <= i64::MAX ==> r == Ok::<(), Error>(()) && final(self).out() == old(self).out()
                + spec_int_token(v as int),
            v > i64::MAX ==> r == Err::<(), Error>(
                Error::Ser(ErrorCode::NumberOutOfRange(v as u64)),
            ) && final(self).out() == old(self).out(),
    {
        self.serialize_u64(v as u64)
    }

    #[inline]
    pub fn serialize_u8(&mut self, v: u8) -> (r: Result<(), Error>)
        ensures
            r == Ok::<(), Error>(()),
            final(self).out() == old(self).out() + spec_int_token(v as int),
    {
        push_int(&mut self.writer, v as i64);
        Ok(())
    }

    #[inline]
    pub fn serialize_u16(&mut self, v: u16) -> (r: Result<(), Error>)
        ensures
            r == Ok::<(), Error>(()),
            final(self).out() == old(self).out() + spec_int_token(v as int),
    {
        push_int(&mut self.writer, v as i64);
        Ok(())
    }

    #[inline]
    pub fn serialize_u32(&mut self, v: u32) -> (r: Result<(), Error>)
        ensures
            r == Ok::<(), Error>(()),
            final(self).out() == old(self).out() + spec_int_token(v as int),
    {
        push_int(&mut self.writer, v as i64);
        Ok(())
    }

    /// See `serialize_usize`: values above `i64::MAX` fail with a range
    /// error rather than wrapping.
    #[inline]
    pub fn serialize_u64(&mut self, v: u64) -> (r: Result<(), Error>)
        ensures
            v <= i64::MAX ==> r == Ok::<(), Error>(()) && final(self).out() == old(self).out()
                + spec_int_token(v as int),
            v > i64::MAX ==> r == Err::<(), Error>(Error::Ser(ErrorCode::NumberOutOfRange(v)))
                && final(self).out() == old(self).out(),
    {
        if v > (i64::MAX as u64) {
            return Err(Error::Ser(ErrorCode::NumberOutOfRange(v)));
        }
        push_int(&mut self.writer, v as i64);
        Ok(())
    }

    /// A character is written as a one-character string token.
    #[inline]
    pub fn serialize_char(&mut self, v: char) -> (r: Result<(), Error>)
        ensures
            r == Ok::<(), Error>(()),
            final(self).out() == old(self).out() + spec_str_token(encode_utf8(seq![v])),
    {
        let s = char_string(v);
        self.serialize_str(s.as_str())
    }

    #[inline]
    pub fn serialize_str(&mut self, v: &str) -> (r: Result<(), Error>)
        ensures
            r == Ok::<(), Error>(()),
            final(self).out() == old(self).out() + spec_str_token(encode_utf8(v@)),
    {
        self.formatter.string(&mut self.writer, v);
        Ok(())
    }

    /// A raw byte run is written as a list of one integer per byte, in
    /// keeping with strings being reserved for text.
    #[inline]
    pub fn serialize_bytes(&mut self, v: &[u8]) -> (r: Result<(), Error>)
        ensures
            r == Ok::<(), Error>(()),
            final(self).out() == old(self).out() + seq![LIST_OPEN] + spec_byte_ints(v@)
                + seq![END_MARK],
    {
        let ghost w0 = self.writer@;
        self.formatter.list_open(&mut self.writer);
        let n = v.len();
        let mut i: usize = 0;
        while i < n
            invariant
                i <= n,
                n == v@.len(),
                self.writer@ == w0 + seq![LIST_OPEN] + spec_byte_ints(v@.take(i as int)),
            decreases n - i,
        {
            push_int(&mut self.writer, *vstd::slice::slice_index_get(v, i) as i64);
            proof {
                assert(v@.take(i + 1) =~= v@.take(i as int).push(v@[i as int]));
                lemma_byte_ints_push(v@.take(i as int), v@[i as int]);
                assert(self.writer@ =~= w0 + seq![LIST_OPEN] + spec_byte_ints(v@.take(i + 1)));
            }
            i = i + 1;
        }
        self.formatter.list_close(&mut self.writer);
        proof {
            assert(v@.take(n as int) =~= v@);
            assert(self.writer@ =~= w0 + seq![LIST_OPEN] + spec_byte_ints(v@) + seq![END_MARK]);
        }
        Ok(())
    }

    /// The unit value is written as zero bytes.
    #[inline]
    pub fn serialize_unit(&mut self) -> (r: Result<(), Error>)
        ensures
            r == Ok::<(), Error>(()),
            final(self).out() == old(self).out(),
    {
        Ok(())
    }

    /// A unit struct is written as an empty dictionary.
    #[inline]
    pub fn serialize_unit_struct(&mut self, _name: &str) -> (r: Result<(), Error>)
        ensures
            r == Ok::<(), Error>(()),
            final(self).out() == old(self).out() + seq![DICT_OPEN, END_MARK],
    {
        self.formatter.dict_open(&mut self.writer);
        self.formatter.dict_close(&mut self.writer);
        proof {
            assert(self.writer@ =~= old(self).out() + seq![DICT_OPEN, END_MARK]);
        }
        Ok(())
    }

    /// A tagless variant is written as its tag name alone.
    #[inline]
    pub fn serialize_unit_variant(
        &mut self,
        _name: &str,
        _variant_index: usize,
        variant: &str,
    ) -> (r: Result<(), Error>)
        ensures
            r == Ok::<(), Error>(()),
            final(self).out() == old(self).out() + spec_str_token(encode_utf8(variant@)),
    {
        self.serialize_str(variant)
    }

    /// A newtype struct is written as its inner value alone.
    #[inline]
    pub fn serialize_newtype_struct(&mut self, _name: &str, value: &Value) -> (r: Result<
        (),
        Error,
    >)
        ensures
            r == Ok::<(), Error>(()),
            final(self).out() == old(self).out() + spec_encode(value@),
        decreases crate::value::size_of(value@), 1int,
    {
        self.serialize_value(value)
    }

    /// A one-value variant is written as a one-entry dictionary from the
    /// tag name to the inner value.
    #[inline]
    pub fn serialize_newtype_variant(
        &mut self,
        _name: &str,
        _variant_index: usize,
        variant: &str,
        value: &Value,
    ) -> (r: Result<(), Error>)
        ensures
            r == Ok::<(), Error>(()),
            final(self).out() == old(self).out() + seq![DICT_OPEN] + spec_str_token(
                encode_utf8(variant@),
            ) + spec_encode(value@) + seq![END_MARK],
        decreases crate::value::size_of(value@), 1int,
    {
        let ghost w0 = self.writer@;
        self.formatter.dict_open(&mut self.writer);
        let _ = self.serialize_str(variant)?;
        let _ = self.serialize_value(value)?;
        self.formatter.dict_close(&mut self.writer);
        proof {
            assert(self.writer@ =~= w0 + seq![DICT_OPEN] + spec_str_token(encode_utf8(variant@))
                + spec_encode(value@) + seq![END_MARK]);
        }
        Ok(())
    }

    /// An absent value is written as zero bytes, like the unit value.
    #[inline]
    pub fn serialize_none(&mut self) -> (r: Result<(), Error>)
        ensures
            r == Ok::<(), Error>(()),
            final(self).out() == old(self).out(),
    {
        self.serialize_unit()
    }

    /// A present option is written as its value alone.
    #[inline]
    pub fn serialize_some(&mut self, value: &Value) -> (r: Result<(), Error>)
        ensures
            r == Ok::<(), Error>(()),
            final(self).out() == old(self).out() + spec_encode(value@),
        decreases crate::value::size_of(value@), 1int,
    {
        self.serialize_value(value)
    }

    /// Opens a list.  A sequence declared empty is closed at once, so that
    /// nothing more need be written for it.
    #[inline]
    pub fn serialize_seq(&mut self, len: Option<usize>) -> (r: Result<State, Error>)
        ensures
            r == Ok::<State, Error>(
                if len == Some(0usize) {
                    State::Empty
                } else {
                    State::First
                },
            ),
            final(self).out() == old(self).out() + (if len == Some(0usize) {
                seq![LIST_OPEN, END_MARK]
            } else {
                seq![LIST_OPEN]
            }),
    {
        let ghost w0 = self.writer@;
        self.formatter.list_open(&mut self.writer);
        if len == Some(0) {
            self.formatter.list_close(&mut self.writer);
            proof {
                assert(self.writer@ =~= w0 + seq![LIST_OPEN, END_MARK]);
            }
            return Ok(State::Empty);
        }
        Ok(State::First)
    }

    /// Writes one list element in call order.
    #[inline]
    pub fn serialize_seq_elt(&mut self, state: &mut State, value: &Value) -> (r: Result<
        (),
        Error,
    >)
        ensures
            r == Ok::<(), Error>(()),
            final(self).out() == old(self).out() + spec_encode(value@),
            *final(state) == State::Rest,
        decreases crate::value::size_of(value@), 1int,
    {
        *state = State::Rest;
        self.serialize_value(value)
    }

    /// Closes a list, unless it was already closed for being empty.
    #[inline]
    pub fn serialize_seq_end(&mut self, state: State) -> (r: Result<(), Error>)
        ensures
            r == Ok::<(), Error>(()),
            final(self).out() == old(self).out() + (if state == State::Empty {
                Seq::<u8>::empty()
            } else {
                seq![END_MARK]
            }),
    {
        match state {
            State::Empty => {
                proof {
                    assert(self.writer@ =~= old(self).out() + Seq::<u8>::empty());
                }
                Ok(())
            },
            _ => {
                self.formatter.list_close(&mut self.writer);
                Ok(())
            },
        }
    }

    #[inline]
    pub fn serialize_seq_fixed_size(&mut self, size: usize) -> (r: Result<State, Error>)
        ensures
            r == Ok::<State, Error>(
                if size == 0 {
                    State::Empty
                } else {
                    State::First
                },
            ),
            final(self).out() == old(self).out() + (if size == 0 {
                seq![LIST_OPEN, END_MARK]
            } else {
                seq![LIST_OPEN]
            }),
    {
        self.serialize_seq(Some(size))
    }

    #[inline]
    pub fn serialize_tuple(&mut self, size: usize) -> (r: Result<State, Error>)
        ensures
            r == Ok::<State, Error>(
                if size == 0 {
                    State::Empty
                } else {
                    State::First
                },
            ),
            final(self).out() == old(self).out() + (if size == 0 {
                seq![LIST_OPEN, END_MARK]
            } else {
                seq![LIST_OPEN]
            }),
    {
        self.serialize_seq(Some(size))
    }

    #[inline]
    pub fn serialize_tuple_elt(&mut self, state: &mut State, value: &Value) -> (r: Result<
        (),
        Error,
    >)
        ensures
            r == Ok::<(), Error>(()),
            final(self).out() == old(self).out() + spec_encode(value@),
            *final(state) == State::Rest,
        decreases crate::value::size_of(value@), 2int,
    {
        self.serialize_seq_elt(state, value)
    }

    #[inline]
    pub fn serialize_tuple_end(&mut self, state: State) -> (r: Result<(), Error>)
        ensures
            r == Ok::<(), Error>(()),
            final(self).out() == old(self).out() + (if state == State::Empty {
                Seq::<u8>::empty()
            } else {
                seq![END_MARK]
            }),
    {
        self.serialize_seq_end(state)
    }

    #[inline]
    pub fn serialize_tuple_struct(&mut self, _name: &str, size: usize) -> (r: Result<State, Error>)
        ensures
            r == Ok::<State, Error>(
                if size == 0 {
                    State::Empty
                } else {
                    State::First
                },
            ),
            final(self).out() == old(self).out() + (if size == 0 {
                seq![LIST_OPEN, END_MARK]
            } else {
                seq![LIST_OPEN]
            }),
    {
        self.serialize_seq(Some(size))
    }

    #[inline]
    pub fn serialize_tuple_struct_elt(&mut self, state: &mut State, value: &Value) -> (r: Result<
        (),
        Error,
    >)
        ensures
            r == Ok::<(), Error>(()),
            final(self).out() == old(self).out() + spec_encode(value@),
            *final(state) == State::Rest,
        decreases crate::value::size_of(value@), 2int,
    {
        self.serialize_seq_elt(state, value)
    }

    #[inline]
    pub fn serialize_tuple_struct_end(&mut self, state: State) -> (r: Result<(), Error>)
        ensures
            r == Ok::<(), Error>(()),
            final(self).out() == old(self).out() + (if state == State::Empty {
                Seq::<u8>::empty()
            } else {
                seq![END_MARK]
            }),
    {
        self.serialize_seq_end(state)
    }

    /// A positional variant opens a one-entry dictionary from the tag name
    /// to a list of the fields.
    #[inline]
    pub fn serialize_tuple_variant(
        &mut self,
        _name: &str,
        _variant_index: usize,
        variant: &str,
        len: usize,
    ) -> (r: Result<State, Error>)
        ensures
            r == Ok::<State, Error>(
                if len == 0 {
                    State::Empty
                } else {
                    State::First
                },
            ),
            final(self).out() == old(self).out() + seq![DICT_OPEN] + spec_str_token(
                encode_utf8(variant@),
            ) + (if len == 0 {
                seq![LIST_OPEN, END_MARK]
            } else {
                seq![LIST_OPEN]
            }),
    {
        self.formatter.dict_open(&mut self.writer);
        let _ = self.serialize_str(variant)?;
        self.serialize_seq(Some(len))
    }

    #[inline]
    pub fn serialize_tuple_variant_elt(&mut self, state: &mut State, value: &Value) -> (r: Result<
        (),
        Error,
    >)
        ensures
            r == Ok::<(), Error>(()),
            final(self).out() == old(self).out() + spec_encode(value@),
            *final(state) == State::Rest,
        decreases crate::value::size_of(value@), 2int,
    {
        self.serialize_seq_elt(state, value)
    }

    #[inline]
    pub fn serialize_tuple_variant_end(&mut self, state: State) -> (r: Result<(), Error>)
        ensures
            r == Ok::<(), Error>(()),
            final(self).out() == old(self).out() + (if state == State::Empty {
                Seq::<u8>::empty()
            } else {
                seq![END_MARK]
            }) + seq![END_MARK],
    {
        let _ = self.serialize_seq_end(state)?;
        self.formatter.dict_close(&mut self.writer);
        Ok(())
    }

    /// Opens a dictionary: nothing is written yet, the entries are buffered
    /// so they can be flushed in canonical key order when it closes.
    #[inline]
    pub fn serialize_map(&mut self, _len: Option<usize>) -> (r: Result<DictEncoder, Error>)
        ensures
            final(self).out() == old(self).out(),
            r matches Ok(d) && d.entries() == Seq::<(Seq<u8>, Seq<u8>)>::empty() && d.pending()
                is None,
    {
        Ok(DictEncoder::new())
    }

    /// Buffers the key of the next entry.
    #[inline]
    pub fn serialize_map_key(&mut self, state: &mut DictEncoder, key: &str) -> (r: Result<
        (),
        Error,
    >)
        ensures
            r == Ok::<(), Error>(()),
            final(self).out() == old(self).out(),
            final(state).entries() == old(state).entries(),
            final(state).pending() == Some(encode_utf8(key@)),
    {
        state.add_key(key.to_owned());
        Ok(())
    }

    /// Renders the value to its own buffer by a full nested encoding pass
    /// and stores it under the buffered key.
    pub fn serialize_map_value(&mut self, state: &mut DictEncoder, value: &Value) -> (r: Result<
        (),
        Error,
    >)
        requires
            entries_sorted(old(state).entries()),
        ensures
            r == Ok::<(), Error>(()),
            final(self).out() == old(self).out(),
            entries_sorted(final(state).entries()),
            final(state).pending() == old(state).pending(),
            final(state).entries() == (match old(state).pending() {
                Some(k) => spec_insert_entry(old(state).entries(), k, spec_encode(value@)),
                None => old(state).entries(),
            }),
        decreases crate::value::size_of(value@), 2int,
    {
        let rendered = to_vec(value)?;
        state.add_value(rendered);
        Ok(())
    }

    /// Closes a dictionary: flushes the buffered entries in ascending key
    /// order between the opening and closing marks.
    #[inline]
    pub fn serialize_map_end(&mut self, state: DictEncoder) -> (r: Result<(), Error>)
        ensures
            r == Ok::<(), Error>(()),
            final(self).out() == old(self).out() + seq![DICT_OPEN] + spec_dict_body(
                state.entries(),
            ) + seq![END_MARK],
    {
        state.finalize_encode(self)
    }

    #[inline]
    pub fn serialize_struct(&mut self, _name: &str, len: usize) -> (r: Result<DictEncoder, Error>)
        ensures
            final(self).out() == old(self).out(),
            r matches Ok(d) && d.entries() == Seq::<(Seq<u8>, Seq<u8>)>::empty() && d.pending()
                is None,
    {
        self.serialize_map(Some(len))
    }

    /// Buffers one named field of a struct.
    #[inline]
    pub fn serialize_struct_elt(
        &mut self,
        state: &mut DictEncoder,
        key: &str,
        value: &Value,
    ) -> (r: Result<(), Error>)
        requires
            entries_sorted(old(state).entries()),
        ensures
            r == Ok::<(), Error>(()),
            final(self).out() == old(self).out(),
            entries_sorted(final(state).entries()),
            final(state).pending() == Some(encode_utf8(key@)),
            final(state).entries() == spec_insert_entry(
                old(state).entries(),
                encode_utf8(key@),
                spec_encode(value@),
            ),
        decreases crate::value::size_of(value@), 3int,
    {
        let _ = self.serialize_map_key(state, key)?;
        self.serialize_map_value(state, value)
    }

    #[inline]
    pub fn serialize_struct_end(&mut self, state: DictEncoder) -> (r: Result<(), Error>)
        ensures
            r == Ok::<(), Error>(()),
            final(self).out() == old(self).out() + seq![DICT_OPEN] + spec_dict_body(
                state.entries(),
            ) + seq![END_MARK],
    {
        self.serialize_map_end(state)
    }

    /// A named-field variant opens a one-entry dictionary from the tag name
    /// to a dictionary of the fields.
    #[inline]
    pub fn serialize_struct_variant(
        &mut self,
        _name: &str,
        _variant_index: usize,
        variant: &str,
        len: usize,
    ) -> (r: Result<DictEncoder, Error>)
        ensures
            final(self).out() == old(self).out() + seq![DICT_OPEN] + spec_str_token(
                encode_utf8(variant@),
            ),
            r matches Ok(d) && d.entries() == Seq::<(Seq<u8>, Seq<u8>)>::empty() && d.pending()
                is None,
    {
        self.formatter.dict_open(&mut self.writer);
        let _ = self.serialize_str(variant)?;
        self.serialize_map(Some(len))
    }

    #[inline]
    pub fn serialize_struct_variant_elt(
        &mut self,
        state: &mut DictEncoder,
        key: &str,
        value: &Value,
    ) -> (r: Result<(), Error>)
        requires
            entries_sorted(old(state).entries()),
        ensures
            r == Ok::<(), Error>(()),
            final(self).out() == old(self).out(),
            entries_sorted(final(state).entries()),
            final(state).pending() == Some(encode_utf8(key@)),
            final(state).entries() == spec_insert_entry(
                old(state).entries(),
                encode_utf8(key@),
                spec_encode(value@),
            ),
        decreases crate::value::size_of(value@), 4int,
    {
        self.serialize_struct_elt(state, key, value)
    }

    #[inline]
    pub fn serialize_struct_variant_end(&mut self, state: DictEncoder) -> (r: Result<(), Error>)
        ensures
            r == Ok::<(), Error>(()),
            final(self).out() == old(self).out() + seq![DICT_OPEN] + spec_dict_body(
                state.entries(),
            ) + seq![END_MARK] + seq![END_MARK],
    {
        let _ = self.serialize_struct_end(state)?;
        self.formatter.dict_close(&mut self.writer);
        Ok(())
    }

    /// Walks a value depth-first, issuing one producer call per scalar or
    /// composite, and appends its full wire image.
    pub fn serialize_value(&mut self, value: &Value) -> (r: Result<(), Error>)
        ensures
            r == Ok::<(), Error>(()),
            final(self).out() == old(self).out() + spec_encode(value@),
        decreases crate::value::size_of(value@), 0int,
    {
        match value {
            Value::ByteString(s) => self.serialize_str(s.as_str()),
            Value::Int(n) => self.serialize_i64(*n),
            Value::List(vs) => {
                let ghost w0 = self.out();
                let n = vs.len();
                let mut state = self.serialize_seq(Some(n))?;
                proof {
                    lemma_view_list_len(vs@);
                    assert(view_list(vs@).take(0) =~= Seq::<SpecValue>::empty());
                }
                let mut i: usize = 0;
                while i < n
                    invariant
                        i <= n,
                        n == vs@.len(),
                        value@ == SpecValue::List(view_list(vs@)),
                        n == 0 ==> self.out() == w0 + seq![LIST_OPEN, END_MARK] && state
                            == State::Empty,
                        n > 0 ==> self.out() == w0 + seq![LIST_OPEN] + spec_encode_list(
                            view_list(vs@).take(i as int),
                        ),
                        n > 0 ==> state != State::Empty,
                    decreases n - i,
                {
                    proof {
                        lemma_view_list_len(vs@);
                        crate::value::lemma_size_list_elem(view_list(vs@), i as int);
                    }
                    let _ = self.serialize_seq_elt(&mut state, &vs[i])?;
                    proof {
                        lemma_view_list_len(vs@);
                        assert(view_list(vs@).take(i + 1) =~= view_list(vs@).take(i as int).push(
                            view_list(vs@)[i as int],
                        ));
                        lemma_encode_list_push(view_list(vs@).take(i as int), view_value(vs@[i as int]));
                        assert(self.out() =~= w0 + seq![LIST_OPEN] + spec_encode_list(
                            view_list(vs@).take(i + 1),
                        ));
                    }
                    i = i + 1;
                }
                let _ = self.serialize_seq_end(state)?;
                proof {
                    if n == 0 {
                        assert(view_list(vs@) =~= Seq::<SpecValue>::empty());
                        assert(self.out() =~= w0 + spec_encode(value@));
                    } else {
                        assert(view_list(vs@).take(n as int) =~= view_list(vs@));
                        assert(self.out() =~= w0 + spec_encode(value@));
                    }
                }
                Ok(())
            },
            Value::Dict(es) => {
                let ghost w0 = self.out();
                let n = es.len();
                let mut state = self.serialize_map(Some(n))?;
                proof {
                    lemma_view_entries_len(es@);
                    assert(es@.take(0) =~= Seq::<(String, Value)>::empty());
                    assert(spec_canon(spec_render_entries(view_entries(es@.take(0)))) =~= state.entries());
                }
                let mut i: usize = 0;
                while i < n
                    invariant
                        i <= n,
                        n == es@.len(),
                        value@ == SpecValue::Dict(view_entries(es@)),
                        self.out() == w0,
                        entries_sorted(state.entries()),
                        state.entries() == spec_canon(
                            spec_render_entries(view_entries(es@.take(i as int))),
                        ),
                    decreases n - i,
                {
                    let ghost st0 = state.entries();
                    proof {
                        lemma_view_entries_len(es@);
                        crate::value::lemma_size_entries_elem(view_entries(es@), i as int);
                    }
                    let _ = self.serialize_map_key(&mut state, es[i].0.as_str())?;
                    let _ = self.serialize_map_value(&mut state, &es[i].1)?;
                    proof {
                        let ghost prev = view_entries(es@.take(i as int));
                        assert(es@.take(i + 1) =~= es@.take(i as int).push(es@[i as int]));
                        crate::value::lemma_view_entries_push(es@.take(i as int), es@[i as int]);
                        lemma_render_entries_push(
                            prev,
                            (encode_utf8(es@[i as int].0@), view_value(es@[i as int].1)),
                        );
                        let ghost rend = spec_render_entries(prev);
                        let ghost e = (
                            encode_utf8(es@[i as int].0@),
                            spec_encode(view_value(es@[i as int].1)),
                        );
                        assert(rend.push(e).drop_last() =~= rend);
                        assert(spec_canon(rend.push(e)) == spec_insert_entry(
                            spec_canon(rend),
                            e.0,
                            e.1,
                        ));
                        assert(state.entries() == spec_canon(
                            spec_render_entries(view_entries(es@.take(i + 1))),
                        ));
                    }
                    i = i + 1;
                }
                let _ = self.serialize_map_end(state)?;
                proof {
                    assert(es@.take(n as int) =~= es@);
                    assert(self.out() =~= w0 + spec_encode(value@));
                }
                Ok(())
            },
        }
    }
}

/// Encodes a value to its full wire image as owned bytes.
pub fn to_vec(value: &Value) -> (r: Result<Vec<u8>, Error>)
    ensures
        r matches Ok(b) && b@ == spec_encode(value@),
    decreases crate::value::size_of(value@), 1int,
{
    let mut ser = Serializer::new(Vec::new());
    let _ = ser.serialize_value(value)?;
    let out = ser.into_inner();
    proof {
        assert(out@ =~= spec_encode(value@));
    }
    Ok(out)
}

/// Encodes a value to text.  The wire image of a value is always valid
/// UTF-8 text, so the conversion never fails.
pub fn to_string(value: &Value) -> (r: Result<String, Error>)
    ensures
        r matches Ok(s) && encode_utf8(s@) == spec_encode(value@),
{
    let bytes = to_vec(value)?;
    proof {
        lemma_value_text_ok(*value);
        lemma_encode_text(value@);
    }
    match bytes_to_string(bytes) {
        Some(s) => {
            proof {
                lemma_string_bytes_round(spec_encode(value@));
            }
            Ok(s)
        },
        None => Err(Error::Utf8),
    }
}

} // verus!

verus! {

use vstd::utf8::{
    encode_utf8_valid_utf8, is_leading_byte_width_1, partial_valid_utf8,
    partial_valid_utf8_extend_ascii_block, valid_utf8_concat,
};
use crate::value::{lemma_view_entries_len as view_entries_len, view_value as value_model};
use crate::wire::{lemma_dec_props, lemma_insert_members};

/// The rendered entries keep the keys, pairing each with its value's wire
/// image.
pub proof fn lemma_render_entries_shape(es: Seq<(Seq<u8>, SpecValue)>)
    ensures
        spec_render_entries(es).len() == es.len(),
        forall|i: int|
            0 <= i < es.len() ==> #[trigger] spec_render_entries(es)[i] == (
            es[i].0,
            spec_encode(es[i].1),
            ),
    decreases es,
{
    if es.len() > 0 {
        lemma_render_entries_shape(es.drop_first());
        assert(forall|i: int|
            0 <= i < es.drop_first().len() ==> #[trigger] es.drop_first()[i] == es[i + 1]);
    }
}

/// The values whose string payloads and dictionary keys are all valid
/// UTF-8 text; every value built from decoded or owned strings is one.
pub open spec fn spec_text_ok(v: SpecValue) -> bool
    decreases v,
{
    match v {
        SpecValue::Text(b) => valid_utf8(b),
        SpecValue::Int(n) => true,
        SpecValue::List(vs) => forall|i: int| 0 <= i < vs.len() ==> spec_text_ok(#[trigger] vs[i]),
        SpecValue::Dict(es) => forall|i: int|
            0 <= i < es.len() ==> valid_utf8((#[trigger] es[i]).0) && spec_text_ok(es[i].1),
    }
}

/// A run of bytes below 0x80 is valid UTF-8.
proof fn lemma_ascii_valid(s: Seq<u8>)
    requires
        forall|i: int| 0 <= i < s.len() ==> #[trigger] s[i] < 0x80,
    ensures
        valid_utf8(s),
{
    assert(s.subrange(0, 0) =~= Seq::<u8>::empty());
    assert(partial_valid_utf8(s, 0));
    assert(forall|i: int| 0 <= i < s.len() ==> is_leading_byte_width_1(#[trigger] s[i]));
    partial_valid_utf8_extend_ascii_block(s, 0, s.len() as int);
    assert(s.subrange(0, s.len() as int) =~= s);
}

proof fn lemma_str_token_valid(b: Seq<u8>)
    requires
        valid_utf8(b),
    ensures
        valid_utf8(spec_str_token(b)),
{
    let d = spec_dec(b.len());
    lemma_dec_props(b.len());
    let head = d + seq![COLON];
    assert(valid_utf8(head)) by {
        assert(forall|i: int| 0 <= i < d.len() ==> #[trigger] head[i] == d[i]);
        assert(head[d.len() as int] == COLON);
        lemma_ascii_valid(head);
    }
    valid_utf8_concat(head, b);
    assert(head + b =~= spec_str_token(b));
}

proof fn lemma_int_token_valid(n: int)
    ensures
        valid_utf8(spec_int_token(n)),
{
    let t = spec_int_token(n);
    if n < 0 {
        lemma_dec_props((-n) as nat);
    } else {
        lemma_dec_props(n as nat);
    }
    assert forall|i: int| 0 <= i < t.len() implies #[trigger] t[i] < 0x80 by {
        if i == 0 {
        } else if i == t.len() - 1 {
            assert(t[i] == END_MARK);
        } else {
            assert(t[i] == spec_int_bytes(n)[i - 1]);
        }
    }
    lemma_ascii_valid(t);
}

/// Rendered entries all made of text keys and valid value bytes.
pub open spec fn entries_text_ok(rs: Seq<(Seq<u8>, Seq<u8>)>) -> bool {
    forall|i: int|
        0 <= i < rs.len() ==> valid_utf8((#[trigger] rs[i]).0) && valid_utf8(rs[i].1)
}

proof fn lemma_insert_text_ok(rs: Seq<(Seq<u8>, Seq<u8>)>, k: Seq<u8>, v: Seq<u8>)
    requires
        entries_text_ok(rs),
        valid_utf8(k),
        valid_utf8(v),
    ensures
        entries_text_ok(spec_insert_entry(rs, k, v)),
{
    lemma_insert_members(rs, k, v);
    let r = spec_insert_entry(rs, k, v);
    assert forall|i: int| 0 <= i < r.len() implies valid_utf8((#[trigger] r[i]).0) && valid_utf8(
        r[i].1,
    ) by {
        if r[i] == (k, v) {
        } else {
            assert(rs.contains(r[i]));
            let idx = choose|idx: int| 0 <= idx < rs.len() && rs[idx] == r[i];
            assert(valid_utf8(rs[idx].0) && valid_utf8(rs[idx].1));
        }
    }
}

proof fn lemma_canon_text_ok(rs: Seq<(Seq<u8>, Seq<u8>)>)
    requires
        entries_text_ok(rs),
    ensures
        entries_text_ok(spec_canon(rs)),
    decreases rs.len(),
{
    if rs.len() > 0 {
        let front = rs.drop_last();
        assert(entries_text_ok(front)) by {
            assert(forall|i: int| 0 <= i < front.len() ==> (#[trigger] front[i]) == rs[i]);
        }
        lemma_canon_text_ok(front);
        assert(rs.last() == rs[rs.len() - 1]);
        lemma_insert_text_ok(spec_canon(front), rs.last().0, rs.last().1);
    }
}

proof fn lemma_dict_body_valid(rs: Seq<(Seq<u8>, Seq<u8>)>)
    requires
        entries_text_ok(rs),
    ensures
        valid_utf8(spec_dict_body(rs)),
    decreases rs.len(),
{
    if rs.len() == 0 {
        assert(valid_utf8(spec_dict_body(rs))) by {
            lemma_ascii_valid(Seq::<u8>::empty());
            assert(spec_dict_body(rs) =~= Seq::<u8>::empty());
        }
    } else {
        let rest = rs.drop_first();
        assert(entries_text_ok(rest)) by {
            assert(forall|i: int| 0 <= i < rest.len() ==> (#[trigger] rest[i]) == rs[i + 1]);
        }
        lemma_dict_body_valid(rest);
        lemma_str_token_valid(rs[0].0);
        valid_utf8_concat(spec_str_token(rs[0].0), rs[0].1);
        valid_utf8_concat(spec_str_token(rs[0].0) + rs[0].1, spec_dict_body(rest));
        assert(spec_str_token(rs[0].0) + rs[0].1 + spec_dict_body(rest) == spec_dict_body(rs));
    }
}

/// The wire image of any value whose strings are text is itself valid
/// UTF-8 text, so an encoded document can always be carried as a string.
pub proof fn lemma_encode_text(v: SpecValue)
    requires
        spec_text_ok(v),
    ensures
        valid_utf8(spec_encode(v)),
    decreases v, 1int,
{
    match v {
        SpecValue::Text(b) => {
            lemma_str_token_valid(b);
        },
        SpecValue::Int(n) => {
            lemma_int_token_valid(n);
        },
        SpecValue::List(vs) => {
            lemma_encode_list_text(vs);
            lemma_ascii_valid(seq![LIST_OPEN]);
            lemma_ascii_valid(seq![END_MARK]);
            valid_utf8_concat(seq![LIST_OPEN], spec_encode_list(vs));
            valid_utf8_concat(seq![LIST_OPEN] + spec_encode_list(vs), seq![END_MARK]);
        },
        SpecValue::Dict(es) => {
            let rend = spec_render_entries(es);
            lemma_render_entries_shape(es);
            assert(entries_text_ok(rend)) by {
                assert forall|i: int| 0 <= i < rend.len() implies valid_utf8(
                    (#[trigger] rend[i]).0,
                ) && valid_utf8(rend[i].1) by {
                    assert(rend[i] == (es[i].0, spec_encode(es[i].1)));
                    lemma_encode_text(es[i].1);
                }
            }
            lemma_canon_text_ok(rend);
            lemma_dict_body_valid(spec_canon(rend));
            lemma_ascii_valid(seq![DICT_OPEN]);
            lemma_ascii_valid(seq![END_MARK]);
            valid_utf8_concat(seq![DICT_OPEN], spec_dict_body(spec_canon(rend)));
            valid_utf8_concat(
                seq![DICT_OPEN] + spec_dict_body(spec_canon(rend)),
                seq![END_MARK],
            );
        },
    }
}

proof fn lemma_encode_list_text(vs: Seq<SpecValue>)
    requires
        forall|i: int| 0 <= i < vs.len() ==> spec_text_ok(#[trigger] vs[i]),
    ensures
        valid_utf8(spec_encode_list(vs)),
    decreases vs, 2int,
{
    if vs.len() == 0 {
        lemma_ascii_valid(Seq::<u8>::empty());
        assert(spec_encode_list(vs) == Seq::<u8>::empty());
    } else {
        lemma_encode_text(vs[0]);
        assert(forall|i: int|
            0 <= i < vs.drop_first().len() ==> spec_text_ok(#[trigger] vs.drop_first()[i]));
        lemma_encode_list_text(vs.drop_first());
        valid_utf8_concat(spec_encode(vs[0]), spec_encode_list(vs.drop_first()));
    }
}

/// Every value of the library has text everywhere a string stands: its
/// payloads come from owned strings, whose bytes are their UTF-8 form.
pub proof fn lemma_value_text_ok(v: Value)
    ensures
        spec_text_ok(value_model(v)),
    decreases v,
{
    match v {
        Value::ByteString(s) => {
            encode_utf8_valid_utf8(s@);
        },
        Value::Int(n) => {},
        Value::List(vs) => {
            lemma_view_list_len(vs@);
            assert forall|i: int| 0 <= i < view_list(vs@).len() implies spec_text_ok(
                #[trigger] view_list(vs@)[i],
            ) by {
                lemma_value_text_ok(vs@[i]);
            }
        },
        Value::Dict(es) => {
            view_entries_len(es@);
            assert forall|i: int| 0 <= i < view_entries(es@).len() implies valid_utf8(
                (#[trigger] view_entries(es@)[i]).0,
            ) && spec_text_ok(view_entries(es@)[i].1) by {
                lemma_value_text_ok(es@[i].1);
                encode_utf8_valid_utf8(es@[i].0@);
            }
        },
    }
}

} // verus!
