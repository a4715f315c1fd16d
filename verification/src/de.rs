//! The decoder: a recursive-descent parser over a byte source, one call
//! frame per nesting level, with a byte-exact model of every production
//! and of every fault it can report.

use vstd::prelude::*;

verus! {

use vstd::utf8::{encode_utf8, valid_utf8};
use crate::error::{err_for, Error, ErrorCode, ParseFail};
use crate::read::{Read, SliceRead, StringRead};
use crate::text::{bytes_to_string, lemma_string_bytes_round};
use crate::value::{view_entries, view_list, SpecValue, Value};
use crate::wire::{
    digit_val, is_digit, spec_read_digits, COLON, DICT_OPEN, DIGIT_ZERO, END_MARK, INT_OPEN,
    LIST_OPEN, MINUS,
};

/// A digit run read with an optional already-consumed first digit: a first
/// byte that is not a digit is a token fault at the offset where it was
/// consumed, otherwise the run continues as `spec_read_digits`.
pub open spec fn spec_start_digits(s: Seq<u8>, i: int, init: Option<u8>, delim: u8) -> Result<
    (u64, int),
    (ParseFail, int),
> {
    match init {
        Some(d) => if !is_digit(d) {
            Err((ParseFail::Token(d), i))
        } else {
            spec_read_digits(s, i, digit_val(d) as u64, delim)
        },
        None => spec_read_digits(s, i, 0u64, delim),
    }
}

/// The model of one string production, entered just past its first length
/// digit `d0`.  A first digit `0` must be followed at once by the colon and
/// yields the empty payload; otherwise the length digits run to the colon
/// and exactly that many payload bytes follow, which must be valid UTF-8.
pub open spec fn spec_parse_string(s: Seq<u8>, i: int, d0: u8) -> Result<
    (Seq<u8>, int),
    (ParseFail, int),
> {
    if d0 == DIGIT_ZERO {
        if i >= s.len() {
            Err((ParseFail::Eof, s.len() as int))
        } else if s[i] != COLON {
            Err((ParseFail::Token(s[i]), i + 1))
        } else {
            Ok((Seq::empty(), i + 1))
        }
    } else if !is_digit(d0) {
        Err((ParseFail::Token(d0), i))
    } else {
        match spec_read_digits(s, i, digit_val(d0) as u64, COLON) {
            Ok((n, j)) => {
                if j + n > s.len() {
                    Err((ParseFail::Eof, s.len() as int))
                } else {
                    if valid_utf8(s.subrange(j, j + n as int)) {
                        Ok((s.subrange(j, j + n as int), j + n))
                    } else {
                        Err((ParseFail::Text, j + n))
                    }
                }
            },
            Err(e) => Err(e),
        }
    }
}

/// The model of one integer production, entered just past the opening `i`.
/// Zero is written only as `i0e`: a leading zero digit admits no sign and
/// no further digit.  A magnitude that does not fit the signed 64-bit range
/// is a range fault reported where the closing mark was consumed.
pub open spec fn spec_parse_int(s: Seq<u8>, i: int) -> Result<(int, int), (ParseFail, int)> {
    if i >= s.len() {
        Err((ParseFail::Eof, s.len() as int))
    } else {
        let neg = s[i] == MINUS;
        let i1: int = if neg {
            i + 1
        } else {
            i
        };
        if i1 >= s.len() {
            Err((ParseFail::Eof, s.len() as int))
        } else {
            let d0 = s[i1];
            if d0 == DIGIT_ZERO {
                if neg {
                    Err((ParseFail::Token(DIGIT_ZERO), i1 + 1))
                } else if i1 + 1 >= s.len() {
                    Err((ParseFail::Eof, s.len() as int))
                } else if s[i1 + 1] != END_MARK {
                    Err((ParseFail::Token(s[i1 + 1]), i1 + 2))
                } else {
                    Ok((0, i1 + 2))
                }
            } else if d0 == END_MARK {
                Err((ParseFail::Token(END_MARK), i1 + 1))
            } else if !is_digit(d0) {
                Err((ParseFail::Token(d0), i1 + 1))
            } else {
                match spec_read_digits(s, i1 + 1, digit_val(d0) as u64, END_MARK) {
                    Ok((n, j)) => if neg {
                        if n > 0x8000000000000000u64 {
                            Err((ParseFail::Range(n), j))
                        } else {
                            Ok((-(n as int), j))
                        }
                    } else {
                        if n > i64::MAX as u64 {
                            Err((ParseFail::Range(n), j))
                        } else {
                            Ok((n as int, j))
                        }
                    },
                    Err(e) => Err(e),
                }
            }
        }
    }
}

/// The model of one value production at offset `i`: dispatch on the first
/// byte, with the offset just past the value on success.
pub open spec fn spec_parse_value(s: Seq<u8>, i: int) -> Result<
    (SpecValue, int),
    (ParseFail, int),
>
    decreases s.len() - i, 0int,
{
    if i >= s.len() {
        Err((ParseFail::Eof, s.len() as int))
    } else if s[i] == DICT_OPEN {
        match spec_parse_dict_items(s, i + 1) {
            Ok((es, j)) => Ok((SpecValue::Dict(es), j)),
            Err(e) => Err(e),
        }
    } else if s[i] == LIST_OPEN {
        match spec_parse_list_items(s, i + 1) {
            Ok((vs, j)) => Ok((SpecValue::List(vs), j)),
            Err(e) => Err(e),
        }
    } else if s[i] == INT_OPEN {
        match spec_parse_int(s, i + 1) {
            Ok((n, j)) => Ok((SpecValue::Int(n), j)),
            Err(e) => Err(e),
        }
    } else if is_digit(s[i]) {
        match spec_parse_string(s, i + 1, s[i]) {
            Ok((b, j)) => Ok((SpecValue::Text(b), j)),
            Err(e) => Err(e),
        }
    } else {
        Err((ParseFail::Token(s[i]), i + 1))
    }
}

/// The model of a run of list elements up to and through the closing mark.
/// The guards on the returned offsets only rule out positions a value
/// production cannot return, so that the run shortens at each step.
pub open spec fn spec_parse_list_items(s: Seq<u8>, i: int) -> Result<
    (Seq<SpecValue>, int),
    (ParseFail, int),
>
    decreases s.len() - i, 1int,
{
    if i >= s.len() {
        Err((ParseFail::Eof, s.len() as int))
    } else if s[i] == END_MARK {
        Ok((Seq::empty(), i + 1))
    } else {
        match spec_parse_value(s, i) {
            Ok((v, j)) => if j <= i || j > s.len() {
                Err((ParseFail::Eof, s.len() as int))
            } else {
                match spec_parse_list_items(s, j) {
                    Ok((vs, k)) => Ok((seq![v] + vs, k)),
                    Err(e) => Err(e),
                }
            },
            Err(e) => Err(e),
        }
    }
}

/// The model of a run of dictionary entries up to and through the closing
/// mark.  Each entry is a string key, whose first byte must be a length
/// digit, followed by one value.  Neither key uniqueness nor key order is
/// checked here: entries are returned in input order.
pub open spec fn spec_parse_dict_items(s: Seq<u8>, i: int) -> Result<
    (Seq<(Seq<u8>, SpecValue)>, int),
    (ParseFail, int),
>
    decreases s.len() - i, 1int,
{
    if i >= s.len() {
        Err((ParseFail::Eof, s.len() as int))
    } else if s[i] == END_MARK {
        Ok((Seq::empty(), i + 1))
    } else if !is_digit(s[i]) {
        Err((ParseFail::Token(s[i]), i))
    } else {
        match spec_parse_string(s, i + 1, s[i]) {
            Ok((kb, j1)) => if j1 <= i || j1 > s.len() {
                Err((ParseFail::Eof, s.len() as int))
            } else {
                match spec_parse_value(s, j1) {
                    Ok((v, j2)) => if j2 <= j1 || j2 > s.len() {
                        Err((ParseFail::Eof, s.len() as int))
                    } else {
                        match spec_parse_dict_items(s, j2) {
                            Ok((es, k)) => Ok((seq![(kb, v)] + es, k)),
                            Err(e) => Err(e),
                        }
                    },
                    Err(e) => Err(e),
                }
            },
            Err(e) => Err(e),
        }
    }
}

/// The model of decoding one root value from a whole document: after the
/// value, the next byte must be a closing mark or the end of input, else
/// the document has trailing characters.
pub open spec fn spec_decode(s: Seq<u8>) -> Result<SpecValue, (ParseFail, int)> {
    match spec_parse_value(s, 0) {
        Ok((v, j)) => if j >= s.len() || s[j] == END_MARK {
            Ok(v)
        } else {
            Err((ParseFail::Trailing, j))
        },
        Err(e) => Err(e),
    }
}

} // verus!

verus! {

/// The recursive-descent decoder over a byte source.
pub struct Deserializer<R: Read> {
    reader: R,
}

impl<R: Read> Deserializer<R> {
    /// The whole byte run of the underlying source.
    pub closed spec fn content(&self) -> Seq<u8> {
        self.reader.content()
    }

    /// The byte offset consumed so far.
    pub closed spec fn offset(&self) -> int {
        self.reader.offset()
    }

    pub fn new(reader: R) -> (r: Deserializer<R>)
        ensures
            r.content() == reader.content(),
            r.offset() == reader.offset(),
    {
        Deserializer { reader }
    }

    fn unexpected_token(&self, ch: u8) -> (e: Error)
        ensures
            err_for(e, ParseFail::Token(ch), self.offset()),
    {
        self.syntax_error(ErrorCode::UnexpectedToken(ch))
    }

    fn unexpected_eof(&self) -> (e: Error)
        ensures
            err_for(e, ParseFail::Eof, self.offset()),
    {
        self.syntax_error(ErrorCode::UnexpectedEOF)
    }

    fn syntax_error(&self, code: ErrorCode) -> (e: Error)
        ensures
            e matches Error::Syntax(c, p) && c == code && p as int == self.offset(),
    {
        Error::Syntax(code, self.reader.position())
    }

    fn next_char(&mut self) -> (r: Result<u8, Error>)
        requires
            0 <= old(self).offset() <= old(self).content().len(),
        ensures
            final(self).content() == old(self).content(),
            0 <= final(self).offset() <= final(self).content().len(),
            old(self).offset() < old(self).content().len() ==> r == Ok::<u8, Error>(
                old(self).content()[old(self).offset()],
            ) && final(self).offset() == old(self).offset() + 1,
            old(self).offset() >= old(self).content().len() ==> (final(self).offset() == old(
                self,
            ).offset() && (r matches Err(e) && err_for(
                e,
                ParseFail::Eof,
                old(self).content().len() as int,
            ))),
    {
        match self.reader.next_char() {
            Some(Ok(t)) => Ok(t),
            Some(err_res) => match err_res {
                Err(e) => Err(e),
                Ok(t) => Ok(t),
            },
            None => Err(self.unexpected_eof()),
        }
    }

    fn peek_char(&self) -> (r: Option<u8>)
        ensures
            r == (if self.offset() < self.content().len() {
                Some(self.content()[self.offset()])
            } else {
                None::<u8>
            }),
    {
        self.reader.peek_char()
    }

    /// Reads decimal digits up to and through `delim`, with the value
    /// accumulated in 64 bits; a digit that would overflow the accumulator
    /// is a range fault.
    fn read_digits_to(&mut self, delim: u8, init_digit: Option<u8>) -> (r: Result<u64, Error>)
        requires
            0 <= old(self).offset() <= old(self).content().len(),
        ensures
            final(self).content() == old(self).content(),
            0 <= final(self).offset() <= final(self).content().len(),
            final(self).offset() >= old(self).offset(),
            match spec_start_digits(old(self).content(), old(self).offset(), init_digit, delim) {
                Ok((n, j)) => r == Ok::<u64, Error>(n) && final(self).offset() == j,
                Err((f, p)) => r matches Err(e) && err_for(e, f, p),
            },
    {
        let mut acc: u64;
        match init_digit {
            Some(d) => {
                if !(0x30 <= d && d <= 0x39) {
                    return Err(self.unexpected_token(d));
                }
                acc = (d - 0x30) as u64;
            },
            None => {
                acc = 0;
            },
        }
        let ghost c = self.content();
        let ghost i0 = self.offset();
        let ghost target = spec_read_digits(c, i0, acc, delim);
        loop
            invariant
                0 <= self.offset() <= self.content().len(),
                self.content() == c,
                c == old(self).content(),
                i0 == old(self).offset(),
                self.offset() >= i0,
                spec_start_digits(c, i0, init_digit, delim) == target,
                spec_read_digits(c, self.offset(), acc, delim) == target,
            decreases c.len() - self.offset(),
        {
            let ch = self.next_char()?;
            if ch == delim {
                return Ok(acc);
            }
            if !(0x30 <= ch && ch <= 0x39) {
                return Err(self.unexpected_token(ch));
            }
            let d = (ch - 0x30) as u64;
            match acc.checked_mul(10) {
                Some(a) => {
                    match a.checked_add(d) {
                        Some(a2) => {
                            acc = a2;
                        },
                        None => {
                            return Err(self.syntax_error(ErrorCode::NumberOutOfRange(u64::MAX)));
                        },
                    }
                },
                None => {
                    return Err(self.syntax_error(ErrorCode::NumberOutOfRange(u64::MAX)));
                },
            }
        }
    }

    /// Reads the rest of one string production, the first length digit
    /// having been consumed already.
    fn parse_string(&mut self, init_len_digit: u8) -> (r: Result<String, Error>)
        requires
            0 <= old(self).offset() <= old(self).content().len(),
        ensures
            final(self).content() == old(self).content(),
            0 <= final(self).offset() <= final(self).content().len(),
            final(self).offset() >= old(self).offset(),
            match spec_parse_string(old(self).content(), old(self).offset(), init_len_digit) {
                Ok((b, j)) => r matches Ok(sv) && encode_utf8(sv@) == b && final(self).offset()
                    == j,
                Err((f, p)) => r matches Err(e) && err_for(e, f, p),
            },
    {
        if init_len_digit == 0x30 {
            let colon = self.next_char()?;
            if colon != 0x3a {
                return Err(self.unexpected_token(colon));
            }
            let s = String::new();
            proof {
                assert(encode_utf8(s@) =~= Seq::<u8>::empty());
            }
            return Ok(s);
        }
        let n = self.read_digits_to(0x3a, Some(init_len_digit))?;
        let ghost c = self.content();
        let ghost j = self.offset();
        let mut buf: Vec<u8> = Vec::new();
        let mut k: u64 = 0;
        while k < n
            invariant
                0 <= self.offset() <= self.content().len(),
                self.content() == c,
                c == old(self).content(),
                k <= n,
                0 <= j,
                j >= old(self).offset(),
                self.offset() == j + k,
                init_len_digit != 0x30 && is_digit(init_len_digit),
                spec_read_digits(
                    c,
                    old(self).offset(),
                    digit_val(init_len_digit) as u64,
                    0x3a,
                ) == Ok::<(u64, int), (ParseFail, int)>((n, j)),
                buf@ == c.subrange(j, j + k as int),
            decreases n - k,
        {
            let ch = self.next_char()?;
            buf.push(ch);
            k = k + 1;
            proof {
                assert(buf@ =~= c.subrange(j, j + k as int));
            }
        }
        match bytes_to_string(buf) {
            Some(s) => {
                proof {
                    lemma_string_bytes_round(c.subrange(j, j + n as int));
                }
                Ok(s)
            },
            None => Err(Error::Utf8),
        }
    }

    /// Reads the rest of one integer production, the opening `i` having
    /// been consumed already.
    fn parse_int(&mut self) -> (r: Result<i64, Error>)
        requires
            0 <= old(self).offset() <= old(self).content().len(),
        ensures
            final(self).content() == old(self).content(),
            0 <= final(self).offset() <= final(self).content().len(),
            final(self).offset() >= old(self).offset(),
            match spec_parse_int(old(self).content(), old(self).offset()) {
                Ok((n, j)) => r matches Ok(v) && v as int == n && final(self).offset() == j,
                Err((f, p)) => r matches Err(e) && err_for(e, f, p),
            },
    {
        let ch = self.next_char()?;
        let neg = ch == 0x2d;
        let initnum = if neg {
            self.next_char()?
        } else {
            ch
        };
        if initnum == 0x30 {
            if neg {
                return Err(self.unexpected_token(0x30));
            }
            let end = self.next_char()?;
            if end != 0x65 {
                return Err(self.unexpected_token(end));
            }
            return Ok(0);
        }
        if initnum == 0x65 {
            return Err(self.unexpected_token(0x65));
        }
        let n = self.read_digits_to(0x65, Some(initnum))?;
        if neg {
            if n > 0x8000000000000000u64 {
                return Err(self.syntax_error(ErrorCode::NumberOutOfRange(n)));
            }
            if n == 0x8000000000000000u64 {
                return Ok(i64::MIN);
            }
            Ok(-(n as i64))
        } else {
            if n > (i64::MAX as u64) {
                return Err(self.syntax_error(ErrorCode::NumberOutOfRange(n)));
            }
            Ok(n as i64)
        }
    }

    /// Reads one value production: dispatches on the next byte and builds
    /// the decoded value.
    pub(crate) fn parse_next(&mut self) -> (r: Result<Value, Error>)
        requires
            0 <= old(self).offset() <= old(self).content().len(),
        ensures
            final(self).content() == old(self).content(),
            0 <= final(self).offset() <= final(self).content().len(),
            final(self).offset() >= old(self).offset(),
            match spec_parse_value(old(self).content(), old(self).offset()) {
                Ok((sv, j)) => r matches Ok(v) && v@ == sv && final(self).offset() == j
                    && j > old(self).offset(),
                Err((f, p)) => r matches Err(e) && err_for(e, f, p),
            },
        decreases self.content().len() - self.offset(), 0int,
    {
        let ch = self.next_char()?;
        if ch == 0x64 {
            match self.parse_dict() {
                Ok(es) => Ok(Value::Dict(es)),
                Err(e) => Err(e),
            }
        } else if ch == 0x6c {
            match self.parse_list() {
                Ok(vs) => Ok(Value::List(vs)),
                Err(e) => Err(e),
            }
        } else if ch == 0x69 {
            match self.parse_int() {
                Ok(n) => Ok(Value::Int(n)),
                Err(e) => Err(e),
            }
        } else if 0x30 <= ch && ch <= 0x39 {
            match self.parse_string(ch) {
                Ok(s) => Ok(Value::ByteString(s)),
                Err(e) => Err(e),
            }
        } else {
            Err(self.unexpected_token(ch))
        }
    }

    /// Reads list elements up to and through the closing mark.
    fn parse_list(&mut self) -> (r: Result<Vec<Value>, Error>)
        requires
            0 <= old(self).offset() <= old(self).content().len(),
        ensures
            final(self).content() == old(self).content(),
            0 <= final(self).offset() <= final(self).content().len(),
            final(self).offset() >= old(self).offset(),
            match spec_parse_list_items(old(self).content(), old(self).offset()) {
                Ok((svs, j)) => r matches Ok(vs) && view_list(vs@) == svs && final(self).offset()
                    == j,
                Err((f, p)) => r matches Err(e) && err_for(e, f, p),
            },
        decreases self.content().len() - self.offset(), 1int,
    {
        let ghost c = self.content();
        let ghost i0 = self.offset();
        let mut items: Vec<Value> = Vec::new();
        proof {
            assert(view_list(items@) =~= Seq::<SpecValue>::empty());
        }
        loop
            invariant
                0 <= self.offset() <= self.content().len(),
                self.content() == c,
                c == old(self).content(),
                i0 == old(self).offset(),
                self.offset() >= i0,
                match spec_parse_list_items(c, self.offset()) {
                    Ok((rest, j)) => spec_parse_list_items(c, i0) == Ok::<
                        (Seq<SpecValue>, int),
                        (ParseFail, int),
                    >((view_list(items@) + rest, j)),
                    Err(e) => spec_parse_list_items(c, i0) == Err::<
                        (Seq<SpecValue>, int),
                        (ParseFail, int),
                    >(e),
                },
            decreases c.len() - self.offset(),
        {
            match self.peek_char() {
                None => {
                    return Err(self.unexpected_eof());
                },
                Some(ch) => {
                    if ch == 0x65 {
                        let _ = self.next_char();
                        proof {
                            assert(view_list(items@) + Seq::<SpecValue>::empty() =~= view_list(
                                items@,
                            ));
                        }
                        return Ok(items);
                    }
                    let ghost cur = self.offset();
                    let v = self.parse_next()?;
                    let ghost items0 = items@;
                    proof {
                        crate::value::lemma_view_list_push(items0, v);
                    }
                    items.push(v);
                    proof {
                        let j2 = self.offset();
                        assert(spec_parse_list_items(c, cur) == (match spec_parse_list_items(
                            c,
                            j2,
                        ) {
                            Ok((vs2, k)) => Ok::<(Seq<SpecValue>, int), (ParseFail, int)>(
                                (seq![v@] + vs2, k),
                            ),
                            Err(e) => Err::<(Seq<SpecValue>, int), (ParseFail, int)>(e),
                        }));
                        assert(view_list(items@) == view_list(items0).push(v@));
                        match spec_parse_list_items(c, j2) {
                            Ok((rest, j)) => {
                                assert(view_list(items0) + (seq![v@] + rest) =~= view_list(items@)
                                    + rest);
                            },
                            Err(e) => {},
                        }
                    }
                },
            }
        }
    }

    /// Reads dictionary entries up to and through the closing mark.  Keys
    /// are not checked for uniqueness or order; entries are kept in input
    /// order.
    fn parse_dict(&mut self) -> (r: Result<Vec<(String, Value)>, Error>)
        requires
            0 <= old(self).offset() <= old(self).content().len(),
        ensures
            final(self).content() == old(self).content(),
            0 <= final(self).offset() <= final(self).content().len(),
            final(self).offset() >= old(self).offset(),
            match spec_parse_dict_items(old(self).content(), old(self).offset()) {
                Ok((ses, j)) => r matches Ok(es) && view_entries(es@) == ses
                    && final(self).offset() == j,
                Err((f, p)) => r matches Err(e) && err_for(e, f, p),
            },
        decreases self.content().len() - self.offset(), 1int,
    {
        let ghost c = self.content();
        let ghost i0 = self.offset();
        let mut items: Vec<(String, Value)> = Vec::new();
        proof {
            assert(view_entries(items@) =~= Seq::<(Seq<u8>, SpecValue)>::empty());
        }
        loop
            invariant
                0 <= self.offset() <= self.content().len(),
                self.content() == c,
                c == old(self).content(),
                i0 == old(self).offset(),
                self.offset() >= i0,
                match spec_parse_dict_items(c, self.offset()) {
                    Ok((rest, j)) => spec_parse_dict_items(c, i0) == Ok::<
                        (Seq<(Seq<u8>, SpecValue)>, int),
                        (ParseFail, int),
                    >((view_entries(items@) + rest, j)),
                    Err(e) => spec_parse_dict_items(c, i0) == Err::<
                        (Seq<(Seq<u8>, SpecValue)>, int),
                        (ParseFail, int),
                    >(e),
                },
            decreases c.len() - self.offset(),
        {
            match self.peek_char() {
                None => {
                    return Err(self.unexpected_eof());
                },
                Some(ch) => {
                    if ch == 0x65 {
                        let _ = self.next_char();
                        proof {
                            assert(view_entries(items@) + Seq::<(Seq<u8>, SpecValue)>::empty()
                                =~= view_entries(items@));
                        }
                        return Ok(items);
                    }
                    if !(0x30 <= ch && ch <= 0x39) {
                        return Err(self.unexpected_token(ch));
                    }
                    let ghost cur = self.offset();
                    let d0 = self.next_char()?;
                    let key = self.parse_string(d0)?;
                    let v = self.parse_next()?;
                    let ghost items0 = items@;
                    let ghost kb = encode_utf8(key@);
                    proof {
                        crate::value::lemma_view_entries_push(items0, (key, v));
                    }
                    items.push((key, v));
                    proof {
                        let j2 = self.offset();
                        assert(spec_parse_dict_items(c, cur) == (match spec_parse_dict_items(
                            c,
                            j2,
                        ) {
                            Ok((es2, k)) => Ok::<(Seq<(Seq<u8>, SpecValue)>, int), (ParseFail, int)>(
                                (seq![(kb, v@)] + es2, k),
                            ),
                            Err(e) => Err::<(Seq<(Seq<u8>, SpecValue)>, int), (ParseFail, int)>(e),
                        }));
                        assert(view_entries(items@) == view_entries(items0).push((kb, v@)));
                        match spec_parse_dict_items(c, j2) {
                            Ok((rest, j)) => {
                                assert(view_entries(items0) + (seq![(kb, v@)] + rest)
                                    =~= view_entries(items@) + rest);
                            },
                            Err(e) => {},
                        }
                    }
                },
            }
        }
    }

    /// Confirms that no meaningful content follows the root value: the
    /// next byte must be a closing mark or the end of input.
    fn end(&self) -> (r: Result<(), Error>)
        requires
            0 <= self.offset() <= self.content().len(),
        ensures
            (self.offset() >= self.content().len() || self.content()[self.offset()] == END_MARK)
                ==> r == Ok::<(), Error>(()),
            !(self.offset() >= self.content().len() || self.content()[self.offset()] == END_MARK)
                ==> (r matches Err(e) && err_for(e, ParseFail::Trailing, self.offset())),
    {
        match self.peek_char() {
            Some(ch) => if ch == 0x65 {
                Ok(())
            } else {
                Err(self.syntax_error(ErrorCode::UnexpectedTrailingChars))
            },
            None => Ok(()),
        }
    }
}

fn from_read<R: Read>(read: R) -> (r: Result<Value, Error>)
    requires
        read.offset() == 0,
        read.content().len() >= 0,
    ensures
        match spec_decode(read.content()) {
            Ok(sv) => r matches Ok(v) && v@ == sv,
            Err((f, p)) => r matches Err(e) && err_for(e, f, p),
        },
{
    let mut de = Deserializer::new(read);
    let value = de.parse_next()?;
    let _ = de.end()?;
    Ok(value)
}

/// Decodes one root value from an in-memory byte buffer.
pub fn from_slice(s: &[u8]) -> (r: Result<Value, Error>)
    ensures
        match spec_decode(s@) {
            Ok(sv) => r matches Ok(v) && v@ == sv,
            Err((f, p)) => r matches Err(e) && err_for(e, f, p),
        },
{
    from_read(SliceRead::new(s))
}

/// Decodes one root value from the UTF-8 bytes of an owned string.
pub fn from_string(s: String) -> (r: Result<Value, Error>)
    ensures
        match spec_decode(encode_utf8(s@)) {
            Ok(sv) => r matches Ok(v) && v@ == sv,
            Err((f, p)) => r matches Err(e) && err_for(e, f, p),
        },
{
    let reader = StringRead::new(&s);
    from_read(reader)
}

} // verus!
