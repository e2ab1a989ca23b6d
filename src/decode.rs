use vstd::prelude::*;
use vstd::utf8::{decode_utf8, valid_utf8};
use crate::value::{SpecValue, Value, values_view};

verus! {

/// `bytes::Bytes`, the buffer a parser reads from; opaque here.
#[verifier::external_type_specification]
#[verifier::external_body]
pub struct ExBytes(bytes::Bytes);

/// The error of `String::from_utf8`; only its presence is used.
#[verifier::external_type_specification]
#[verifier::external_body]
pub struct ExFromUtf8Error(std::string::FromUtf8Error);

/// The bytes that a `Bytes` buffer holds.
pub uninterp spec fn bytes_content(b: bytes::Bytes) -> Seq<u8>;

/// Relies on `bytes::Bytes::copy_from_slice`: the new buffer holds a copy of the slice.
#[verifier::external_body]
fn bytes_from_slice(data: &[u8]) -> (r: bytes::Bytes)
    ensures
        bytes_content(r) == data@,
{
    bytes::Bytes::copy_from_slice(data)
}

/// Relies on `Deref for bytes::Bytes`: it lends out the bytes that the buffer holds.
#[verifier::external_body]
fn bytes_as_slice(b: &bytes::Bytes) -> (r: &[u8])
    ensures
        r@ == bytes_content(*b),
{
    &**b
}

/// Relies on `String::from_utf8`: it succeeds exactly on valid UTF-8 and
/// yields the characters that the bytes encode.
#[verifier::external_body]
fn string_from_utf8(data: Vec<u8>) -> (r: Result<String, std::string::FromUtf8Error>)
    ensures
        r is Ok <==> valid_utf8(data@),
        r matches Ok(s) ==> s@ == decode_utf8(data@),
{
    String::from_utf8(data)
}

pub const CR: u8 = 13;
pub const LF: u8 = 10;
pub const DIGIT_ZERO: u8 = 48;
pub const DIGIT_NINE: u8 = 57;
/// The first byte of a simple string.
pub const SIMPLE_MARK: u8 = 43;
/// The first byte of a bulk string.
pub const BULK_MARK: u8 = 36;
/// The first byte of an array.
pub const ARRAY_MARK: u8 = 42;

/// Why a buffer does not decode to an element.
#[derive(Clone, Copy, PartialEq, Eq, Debug, Structural)]
pub enum DecodeError {
    /// The buffer ends before the element does: more bytes may complete it.
    Incomplete,
    /// The bytes break the grammar.
    Protocol,
}

pub open spec fn is_digit(b: u8) -> bool {
    DIGIT_ZERO <= b <= DIGIT_NINE
}

/// The number of consecutive decimal digits from position `p` on.
pub open spec fn digit_run(buf: Seq<u8>, p: int) -> nat
    decreases buf.len() - p,
{
    if 0 <= p < buf.len() && is_digit(buf[p]) {
        1 + digit_run(buf, p + 1)
    } else {
        0
    }
}

/// The number that a sequence of decimal digits writes.
pub open spec fn digits_value(s: Seq<u8>) -> nat
    decreases s.len(),
{
    if s.len() == 0 {
        0
    } else {
        digits_value(s.drop_last()) * 10 + (s.last() - DIGIT_ZERO) as nat
    }
}

/// The position of the first carriage return at or after `p`, or the length.
pub open spec fn first_cr(buf: Seq<u8>, p: int) -> int
    decreases buf.len() - p,
{
    if p < 0 || p >= buf.len() {
        buf.len() as int
    } else if buf[p] == CR {
        p
    } else {
        first_cr(buf, p + 1)
    }
}

/// Whether a line terminator stands at `i`: `None` if it does.
pub open spec fn crlf_at(buf: Seq<u8>, i: int) -> Option<DecodeError> {
    if i >= buf.len() {
        Some(DecodeError::Incomplete)
    } else if buf[i] != CR {
        Some(DecodeError::Protocol)
    } else if i + 1 >= buf.len() {
        Some(DecodeError::Incomplete)
    } else if buf[i + 1] != LF {
        Some(DecodeError::Protocol)
    } else {
        None
    }
}

/// A decimal length or count at `p`, ended by a line terminator:
/// its value and the position after the terminator.
pub open spec fn spec_number(buf: Seq<u8>, p: int) -> Result<(nat, int), DecodeError> {
    let k = digit_run(buf, p);
    if k == 0 {
        if p >= buf.len() {
            Err(DecodeError::Incomplete)
        } else {
            Err(DecodeError::Protocol)
        }
    } else {
        match crlf_at(buf, p + k) {
            Some(e) => Err(e),
            None => {
                let n = digits_value(buf.subrange(p, p + k));
                if n > usize::MAX {
                    Err(DecodeError::Protocol)
                } else {
                    Ok((n, p + k + 2))
                }
            },
        }
    }
}

/// The text that the bytes from `a` to `b` encode, if they are valid UTF-8.
pub open spec fn spec_text(buf: Seq<u8>, a: int, b: int) -> Option<Seq<char>> {
    let s = buf.subrange(a, b);
    if valid_utf8(s) {
        Some(decode_utf8(s))
    } else {
        None
    }
}

pub open spec fn prepend(
    front: Seq<SpecValue>,
    r: Result<(Seq<SpecValue>, int), DecodeError>,
) -> Result<(Seq<SpecValue>, int), DecodeError> {
    match r {
        Ok((vs, e)) => Ok((front + vs, e)),
        Err(x) => Err(x),
    }
}

/// The element that starts at `p`, and the position just after it.
pub open spec fn spec_decode(buf: Seq<u8>, p: int) -> Result<(SpecValue, int), DecodeError>
    decreases buf.len() - p, 0nat, 0nat,
{
    if p < 0 || p >= buf.len() {
        Err(DecodeError::Incomplete)
    } else if buf[p] == SIMPLE_MARK {
        let q = first_cr(buf, p + 1);
        match crlf_at(buf, q) {
            Some(e) => Err(e),
            None => match spec_text(buf, p + 1, q) {
                Some(t) => Ok((SpecValue::Simple(t), q + 2)),
                None => Err(DecodeError::Protocol),
            },
        }
    } else if buf[p] == BULK_MARK {
        match spec_number(buf, p + 1) {
            Err(e) => Err(e),
            Ok((n, s)) => if s + n > buf.len() {
                Err(DecodeError::Incomplete)
            } else {
                match crlf_at(buf, s + n) {
                    Some(e) => Err(e),
                    None => match spec_text(buf, s, s + n) {
                        Some(t) => Ok((SpecValue::Bulk(t), s + n + 2)),
                        None => Err(DecodeError::Protocol),
                    },
                }
            },
        }
    } else if buf[p] == ARRAY_MARK {
        match spec_number(buf, p + 1) {
            Err(e) => Err(e),
            Ok((n, s)) => match spec_items(buf, s, n) {
                Ok((vs, e)) => Ok((SpecValue::Array(vs), e)),
                Err(e) => Err(e),
            },
        }
    } else {
        Err(DecodeError::Protocol)
    }
}

/// `n` elements one after another from `p` on, and the position after the last.
pub open spec fn spec_items(buf: Seq<u8>, p: int, n: nat) -> Result<(Seq<SpecValue>, int), DecodeError>
    decreases buf.len() - p, 1nat, n,
{
    if n == 0 {
        Ok((Seq::empty(), p))
    } else {
        match spec_decode(buf, p) {
            Err(e) => Err(e),
            Ok((v, q)) => if q <= p || q > buf.len() {
                Err(DecodeError::Protocol)
            } else {
                prepend(seq![v], spec_items(buf, q, (n - 1) as nat))
            },
        }
    }
}

pub open spec fn result_view(r: Result<(Value, usize), DecodeError>) -> Result<(SpecValue, int), DecodeError> {
    match r {
        Ok((v, e)) => Ok((v@, e as int)),
        Err(x) => Err(x),
    }
}

proof fn lemma_digits_monotone(buf: Seq<u8>, a: int, i: int, b: int)
    requires
        0 <= a <= i <= b <= buf.len(),
    ensures
        digits_value(buf.subrange(a, i)) <= digits_value(buf.subrange(a, b)),
    decreases b - i,
{
    if i < b {
        lemma_digits_monotone(buf, a, i, b - 1);
        assert(buf.subrange(a, b).drop_last() =~= buf.subrange(a, b - 1));
    }
}

proof fn lemma_items_bounds(buf: Seq<u8>, p: int, n: nat)
    requires
        0 <= p <= buf.len(),
    ensures
        spec_items(buf, p, n) matches Ok((_, e)) ==> p <= e <= buf.len(),
    decreases n,
{
    if n > 0 {
        if let Ok((_, q)) = spec_decode(buf, p) {
            if p < q <= buf.len() {
                lemma_items_bounds(buf, q, (n - 1) as nat);
            }
        }
    }
}

proof fn lemma_first_cr_bounds(buf: Seq<u8>, p: int)
    requires
        0 <= p <= buf.len(),
    ensures
        p <= first_cr(buf, p) <= buf.len(),
    decreases buf.len() - p,
{
    if p < buf.len() && buf[p] != CR {
        lemma_first_cr_bounds(buf, p + 1);
    }
}

proof fn lemma_decode_advances(buf: Seq<u8>, p: int)
    ensures
        spec_decode(buf, p) matches Ok((_, e)) ==> p < e <= buf.len(),
{
    if 0 <= p < buf.len() && buf[p] == SIMPLE_MARK {
        lemma_first_cr_bounds(buf, p + 1);
    }
    if 0 <= p < buf.len() && buf[p] == ARRAY_MARK {
        if let Ok((n, s)) = spec_number(buf, p + 1) {
            lemma_items_bounds(buf, s, n);
        }
    }
}

proof fn lemma_prepend_assoc(a: Seq<SpecValue>, b: Seq<SpecValue>, r: Result<(Seq<SpecValue>, int), DecodeError>)
    ensures
        prepend(a, prepend(b, r)) == prepend(a + b, r),
{
    if let Ok((vs, e)) = r {
        assert(a + (b + vs) =~= (a + b) + vs);
    }
}

/// The position just past the decimal digits that start at `p`.
fn scan_digits(buf: &[u8], p: usize) -> (r: usize)
    requires
        p <= buf@.len(),
    ensures
        r == p + digit_run(buf@, p as int),
        r <= buf@.len(),
{
    let mut i: usize = p;
    while i < buf.len() && DIGIT_ZERO <= buf[i] && buf[i] <= DIGIT_NINE
        invariant
            p <= i <= buf@.len(),
            digit_run(buf@, p as int) == (i - p) + digit_run(buf@, i as int),
        decreases buf@.len() - i,
    {
        i = i + 1;
    }
    i
}

/// The position of the first carriage return at or after `p`, or the length.
fn find_cr(buf: &[u8], p: usize) -> (r: usize)
    requires
        p <= buf@.len(),
    ensures
        r == first_cr(buf@, p as int),
{
    let mut i: usize = p;
    while i < buf.len() && buf[i] != CR
        invariant
            p <= i <= buf@.len(),
            first_cr(buf@, p as int) == first_cr(buf@, i as int),
        decreases buf@.len() - i,
    {
        i = i + 1;
    }
    i
}

fn check_crlf(buf: &[u8], i: usize) -> (r: Option<DecodeError>)
    ensures
        r == crlf_at(buf@, i as int),
{
    if i >= buf.len() {
        Some(DecodeError::Incomplete)
    } else if buf[i] != CR {
        Some(DecodeError::Protocol)
    } else if i + 1 >= buf.len() {
        Some(DecodeError::Incomplete)
    } else if buf[i + 1] != LF {
        Some(DecodeError::Protocol)
    } else {
        None
    }
}

/// The number that the digits from `a` to `b` write, if it fits in `usize`.
fn digits_to_usize(buf: &[u8], a: usize, b: usize) -> (r: Option<usize>)
    requires
        a <= b <= buf@.len(),
        forall|j: int| a <= j < b ==> is_digit(#[trigger] buf@[j]),
    ensures
        r is Some <==> digits_value(buf@.subrange(a as int, b as int)) <= usize::MAX,
        r matches Some(n) ==> n == digits_value(buf@.subrange(a as int, b as int)),
{
    let mut acc: usize = 0;
    let mut i: usize = a;
    assert(buf@.subrange(a as int, a as int).len() == 0);
    while i < b
        invariant
            a <= i <= b <= buf@.len(),
            forall|j: int| a <= j < b ==> is_digit(#[trigger] buf@[j]),
            acc == digits_value(buf@.subrange(a as int, i as int)),
        decreases b - i,
    {
        let d = buf[i] - DIGIT_ZERO;
        let ghost next = buf@.subrange(a as int, i + 1);
        assert(next.drop_last() =~= buf@.subrange(a as int, i as int));
        assert(digits_value(next) == acc * 10 + d);
        proof {
            lemma_digits_monotone(buf@, a as int, i + 1, b as int);
        }
        match acc.checked_mul(10) {
            None => {
                return None;
            },
            Some(m) => match m.checked_add(d as usize) {
                None => {
                    return None;
                },
                Some(v) => {
                    acc = v;
                },
            },
        }
        i = i + 1;
    }
    Some(acc)
}

/// The decimal length or count at `p`, and the position after its terminator.
fn read_number(buf: &[u8], p: usize) -> (r: Result<(usize, usize), DecodeError>)
    requires
        p <= buf@.len(),
    ensures
        match spec_number(buf@, p as int) {
            Ok((n, e)) => r == Ok::<(usize, usize), DecodeError>((n as usize, e as usize)),
            Err(x) => r == Err::<(usize, usize), DecodeError>(x),
        },
{
    let end = scan_digits(buf, p);
    if end == p {
        if p >= buf.len() {
            return Err(DecodeError::Incomplete);
        }
        return Err(DecodeError::Protocol);
    }
    match check_crlf(buf, end) {
        Some(e) => Err(e),
        None => {
            let len = buf.len();
            assert(end + 1 < len);
            assert forall|j: int| p <= j < end implies is_digit(#[trigger] buf@[j]) by {
                lemma_run_digits(buf@, p as int, j);
            }
            match digits_to_usize(buf, p, end) {
                None => Err(DecodeError::Protocol),
                Some(n) => Ok((n, end + 2)),
            }
        },
    }
}

proof fn lemma_run_digits(buf: Seq<u8>, p: int, j: int)
    requires
        0 <= p <= j < p + digit_run(buf, p),
    ensures
        is_digit(buf[j]),
    decreases j - p,
{
    if j > p {
        lemma_run_digits(buf, p + 1, j);
    }
}

/// The text that the bytes from `a` to `b` encode.
fn text_between(buf: &[u8], a: usize, b: usize) -> (r: Option<String>)
    requires
        a <= b <= buf@.len(),
    ensures
        r is Some <==> spec_text(buf@, a as int, b as int) is Some,
        r matches Some(s) ==> s@ == spec_text(buf@, a as int, b as int)->0,
{
    let mut data: Vec<u8> = Vec::new();
    let mut i: usize = a;
    while i < b
        invariant
            a <= i <= b <= buf@.len(),
            data@ == buf@.subrange(a as int, i as int),
        decreases b - i,
    {
        data.push(buf[i]);
        i = i + 1;
        assert(data@ =~= buf@.subrange(a as int, i as int));
    }
    match string_from_utf8(data) {
        Ok(s) => Some(s),
        Err(_) => None,
    }
}

fn decode_at(buf: &[u8], p: usize) -> (r: Result<(Value, usize), DecodeError>)
    ensures
        result_view(r) == spec_decode(buf@, p as int),
    decreases buf@.len() - p,
{
    if p >= buf.len() {
        return Err(DecodeError::Incomplete);
    }
    let mark = buf[p];
    if mark == SIMPLE_MARK {
        let q = find_cr(buf, p + 1);
        proof {
            lemma_first_cr_bounds(buf@, p + 1);
        }
        if let Some(e) = check_crlf(buf, q) {
            return Err(e);
        }
        match text_between(buf, p + 1, q) {
            Some(t) => Ok((Value::SimpleString(t), q + 2)),
            None => Err(DecodeError::Protocol),
        }
    } else if mark == BULK_MARK {
        let (n, s) = match read_number(buf, p + 1) {
            Ok(x) => x,
            Err(e) => {
                return Err(e);
            },
        };
        if n > buf.len() - s {
            return Err(DecodeError::Incomplete);
        }
        if let Some(e) = check_crlf(buf, s + n) {
            return Err(e);
        }
        match text_between(buf, s, s + n) {
            Some(t) => Ok((Value::BulkString(t), s + n + 2)),
            None => Err(DecodeError::Protocol),
        }
    } else if mark == ARRAY_MARK {
        let (n, s) = match read_number(buf, p + 1) {
            Ok(x) => x,
            Err(e) => {
                return Err(e);
            },
        };
        let mut items: Vec<Value> = Vec::new();
        let mut pos: usize = s;
        let mut i: usize = 0;
        assert(values_view(items@) =~= Seq::<SpecValue>::empty());
        assert(prepend(Seq::empty(), spec_items(buf@, s as int, n as nat)) =~= spec_items(buf@, s as int, n as nat)) by {
            if let Ok((vs, e)) = spec_items(buf@, s as int, n as nat) {
                assert(Seq::<SpecValue>::empty() + vs =~= vs);
            }
        }
        while i < n
            invariant
                p < s <= pos <= buf@.len(),
                buf@[p as int] == ARRAY_MARK,
                i <= n,
                spec_number(buf@, p + 1) == Ok::<(nat, int), DecodeError>((n as nat, s as int)),
                spec_items(buf@, s as int, n as nat) == prepend(values_view(items@), spec_items(buf@, pos as int, (n - i) as nat)),
            decreases n - i,
        {
            let ghost before = items@;
            let (v, q) = match decode_at(buf, pos) {
                Ok(x) => x,
                Err(e) => {
                    assert(spec_items(buf@, pos as int, (n - i) as nat) == Err::<(Seq<SpecValue>, int), DecodeError>(e));
                    return Err(e);
                },
            };
            proof {
                lemma_decode_advances(buf@, pos as int);
                lemma_prepend_assoc(values_view(before), seq![v@], spec_items(buf@, q as int, (n - i - 1) as nat));
            }
            items.push(v);
            assert(values_view(items@) =~= values_view(before) + seq![v@]);
            pos = q;
            i = i + 1;
        }
        assert(spec_items(buf@, pos as int, 0) == Ok::<(Seq<SpecValue>, int), DecodeError>((Seq::empty(), pos as int)));
        assert(values_view(items@) + Seq::<SpecValue>::empty() =~= values_view(items@));
        let r = Value::Array(items);
        assert(r@ == SpecValue::Array(values_view(items@))) by {
            assert(values_view(items@) =~= r@->Array_0);
        }
        Ok((r, pos))
    } else {
        Err(DecodeError::Protocol)
    }
}

/// A reader of elements from a fixed buffer, one after another.
pub struct Parser {
    buf: bytes::Bytes,
    pos: usize,
}

impl Parser {
    /// The bytes that the parser reads.
    pub closed spec fn content(&self) -> Seq<u8> {
        bytes_content(self.buf)
    }

    /// Where the next element starts.
    pub closed spec fn position(&self) -> int {
        self.pos as int
    }

    /// A parser over a copy of `buf`, at its start.
    pub fn new(buf: &[u8]) -> (r: Parser)
        ensures
            r.content() == buf@,
            r.position() == 0,
    {
        Parser { buf: bytes_from_slice(buf), pos: 0 }
    }

    /// Decodes the element at the current position and moves past it;
    /// on an error the position stays where it was.
    pub fn parse_value(&mut self) -> (r: Result<Value, DecodeError>)
        ensures
            final(self).content() == old(self).content(),
            match spec_decode(old(self).content(), old(self).position()) {
                Ok((v, e)) => r matches Ok(val) && val@ == v && final(self).position() == e,
                Err(x) => r == Err::<Value, DecodeError>(x) && final(self).position() == old(self).position(),
            },
    {
        let data = bytes_as_slice(&self.buf);
        match decode_at(data, self.pos) {
            Ok((v, e)) => {
                self.pos = e;
                Ok(v)
            },
            Err(x) => Err(x),
        }
    }
}

/// Decodes the element that starts at `pos`; on success also gives the
/// number of bytes it takes.
pub fn decode(buf: &[u8], pos: usize) -> (r: Result<(Value, usize), DecodeError>)
    ensures
        match spec_decode(buf@, pos as int) {
            Ok((v, e)) => r matches Ok((val, n)) && val@ == v && n == e - pos,
            Err(x) => r == Err::<(Value, usize), DecodeError>(x),
        },
{
    proof {
        lemma_decode_advances(buf@, pos as int);
    }
    match decode_at(buf, pos) {
        Ok((v, e)) => Ok((v, e - pos)),
        Err(x) => Err(x),
    }
}

} // verus!
