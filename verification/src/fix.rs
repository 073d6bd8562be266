//! A subset of the FIX 4.4 wire format: `tag=value` fields separated by
//! `SOH` (`0x01`), with the `BeginString` (8), `BodyLength` (9) and
//! `CheckSum` (10) envelope fields.
//!
//! Parsing checks structure, body length and checksum only; it gives no
//! meaning to the other tags.

use std::collections::BTreeMap;
use vstd::prelude::*;
use vstd::std_specs::iter::IteratorSpec;
use vstd::string::StringSliceAdditionalSpecFns;
use vstd::utf8::{decode_utf8, encode_utf8, valid_utf8};

verus! {

broadcast use {vstd::std_specs::btree::group_btree_axioms, vstd::laws_cmp::group_laws_cmp};

/// `SOH` byte separating `tag=value` fields.
pub const SOH: u8 = 0x01;

/// `BeginString` value indicating FIX 4.4.
pub const FIX_44_BEGIN_STRING: &'static str = "FIX.4.4";

/// FIX parser errors.
#[derive(Debug, Clone, PartialEq, Eq)]
pub enum FixError {
    /// A field lacked the required `tag=value` structure.
    MalformedField(String),
    /// A required envelope field was missing.
    MissingField(u32),
    /// `BodyLength` did not match the counted bytes.
    BodyLengthMismatch { expected: usize, actual: usize },
    /// `CheckSum` did not match the computed checksum.
    ChecksumMismatch { expected: u32, actual: u32 },
    /// A field tag could not be parsed as an integer.
    TagNotInteger(String),
}

/// What a [`FixError`] carries, with its strings as character sequences.
#[allow(inconsistent_fields)]
pub enum FixFault {
    MalformedField(Seq<char>),
    MissingField(u32),
    BodyLengthMismatch { expected: usize, actual: usize },
    ChecksumMismatch { expected: u32, actual: u32 },
    TagNotInteger(Seq<char>),
}

impl View for FixError {
    type V = FixFault;

    open spec fn view(&self) -> FixFault {
        match self {
            FixError::MalformedField(s) => FixFault::MalformedField(s@),
            FixError::MissingField(t) => FixFault::MissingField(*t),
            FixError::BodyLengthMismatch { expected, actual } => FixFault::BodyLengthMismatch {
                expected: *expected,
                actual: *actual,
            },
            FixError::ChecksumMismatch { expected, actual } => FixFault::ChecksumMismatch {
                expected: *expected,
                actual: *actual,
            },
            FixError::TagNotInteger(s) => FixFault::TagNotInteger(s@),
        }
    }
}

/// A parsed FIX message keyed by tag number.
///
/// A `BTreeMap` keeps the tags in increasing order, which fixes the order
/// in which they are written on the wire.
#[derive(Debug, Clone, PartialEq, Eq)]
pub struct FixMessage {
    pub fields: BTreeMap<u32, String>,
}

impl View for FixMessage {
    type V = Map<u32, Seq<char>>;

    open spec fn view(&self) -> Map<u32, Seq<char>> {
        self.fields@.map_values(|v: String| v@)
    }
}

impl FixMessage {
    /// Empty message.
    pub fn new() -> (m: Self)
        ensures
            m@ == Map::<u32, Seq<char>>::empty(),
    {
        let m = FixMessage { fields: BTreeMap::new() };
        proof {
            assert(m@ =~= Map::<u32, Seq<char>>::empty());
        }
        m
    }

    /// Read a field.
    pub fn get(&self, tag: u32) -> (r: Option<&str>)
        ensures
            match r {
                Some(s) => self@.contains_key(tag) && s@ == self@[tag],
                None => !self@.contains_key(tag),
            },
    {
        match self.fields.get(&tag) {
            Some(v) => Some(v.as_str()),
            None => None,
        }
    }

    /// Insert or overwrite a field.
    pub fn insert(&mut self, tag: u32, value: &str)
        ensures
            final(self)@ == old(self)@.insert(tag, value@),
    {
        self.fields.insert(tag, value.to_owned());
        proof {
            assert(final(self)@ =~= old(self)@.insert(tag, value@));
        }
    }

    /// `MsgType` (tag 35).
    pub fn msg_type(&self) -> (r: Option<&str>)
        ensures
            match r {
                Some(s) => self@.contains_key(35) && s@ == self@[35],
                None => !self@.contains_key(35),
            },
    {
        self.get(35)
    }
}

impl Default for FixMessage {
    fn default() -> (m: Self)
        ensures
            m@ == Map::<u32, Seq<char>>::empty(),
    {
        FixMessage::new()
    }
}

// ---------------------------------------------------------------------------
// Decimal numbers
// ---------------------------------------------------------------------------

/// An ASCII digit.
pub open spec fn is_digit(b: u8) -> bool {
    48 <= b <= 57
}

/// Value of a run of ASCII digits, most significant first.
pub open spec fn digits_value(s: Seq<u8>) -> nat
    decreases s.len(),
{
    if s.len() == 0 {
        0
    } else {
        digits_value(s.drop_last()) * 10 + (s.last() - 48) as nat
    }
}

/// The digits of an unsigned decimal: the text without one leading `+`.
pub open spec fn unsigned_digits(s: Seq<u8>) -> Seq<u8> {
    if s.len() > 0 && s[0] == 43 {
        s.drop_first()
    } else {
        s
    }
}

/// `s` read as an unsigned decimal the way `str::parse` reads an unsigned
/// integer type whose largest value is `max`: an optional `+`, then at least
/// one ASCII digit, leading zeros allowed, and a value not above `max`.
pub open spec fn unsigned_value(s: Seq<u8>, max: nat) -> Option<nat> {
    let d = unsigned_digits(s);
    if d.len() > 0 && (forall|i: int| 0 <= i < d.len() ==> is_digit(#[trigger] d[i]))
        && digits_value(d) <= max {
        Some(digits_value(d))
    } else {
        None
    }
}

/// Shortest decimal rendering of `n`.
pub open spec fn decimal(n: nat) -> Seq<u8>
    decreases n,
{
    if n < 10 {
        seq![(48 + n) as u8]
    } else {
        decimal(n / 10) + seq![(48 + n % 10) as u8]
    }
}

/// `n` rendered with exactly three digits, zero-padded (`n < 1000`).
pub open spec fn three_digits(n: nat) -> Seq<u8> {
    seq![(48 + n / 100) as u8, (48 + (n / 10) % 10) as u8, (48 + n % 10) as u8]
}

/// Parse an unsigned decimal whose value may not exceed `max`.
fn parse_unsigned(s: &[u8], max: u64) -> (r: Option<u64>)
    ensures
        match r {
            Some(v) => unsigned_value(s@, max as nat) == Some(v as nat),
            None => unsigned_value(s@, max as nat) is None,
        },
{
    let start: usize = if s.len() > 0 && s[0] == 43 {
        1
    } else {
        0
    };
    let ghost d = unsigned_digits(s@);
    assert(d =~= s@.subrange(start as int, s@.len() as int));
    if start >= s.len() {
        return None;
    }
    let mut acc: u64 = 0;
    let mut over = false;
    let mut i: usize = start;
    while i < s.len()
        invariant
            start <= i <= s@.len(),
            d == s@.subrange(start as int, s@.len() as int),
            d == unsigned_digits(s@),
            forall|k: int| 0 <= k < i - start ==> is_digit(#[trigger] d[k]),
            !over ==> acc == digits_value(d.take(i - start)) && acc <= max,
            over ==> digits_value(d.take(i - start)) > max,
        decreases s@.len() - i,
    {
        let b = s[i];
        let ghost pre = d.take(i - start);
        assert(d.take(i + 1 - start).drop_last() =~= pre);
        assert(d[i - start] == b);
        if b < 48 || b > 57 {
            assert(!is_digit(d[i - start]));
            return None;
        }
        let dv: u64 = (b - 48) as u64;
        if over {
            assert(digits_value(pre) * 10 >= digits_value(pre)) by (nonlinear_arith);
        } else if acc > max / 10 {
            assert(acc * 10 + dv > max) by (nonlinear_arith)
                requires
                    acc > max / 10,
            ;
            over = true;
        } else {
            assert(acc * 10 <= max) by (nonlinear_arith)
                requires
                    acc <= max / 10,
            ;
            let t = acc * 10;
            if max - t < dv {
                over = true;
            } else {
                acc = t + dv;
            }
        }
        i = i + 1;
    }
    assert(d.take(i - start) =~= d);
    if over {
        None
    } else {
        Some(acc)
    }
}

/// Append the decimal rendering of `n`.
fn push_decimal(buf: &mut Vec<u8>, n: u64)
    ensures
        final(buf)@ == old(buf)@ + decimal(n as nat),
    decreases n,
{
    if n >= 10 {
        push_decimal(buf, n / 10);
    }
    buf.push((48 + n % 10) as u8);
    proof {
        assert(final(buf)@ =~= old(buf)@ + decimal(n as nat));
    }
}

// ---------------------------------------------------------------------------
// Text
// ---------------------------------------------------------------------------

/// The text that `String::from_utf8_lossy` makes of `bytes`.
pub uninterp spec fn lossy_text(bytes: Seq<u8>) -> Seq<char>;

/// `String::from_utf8_lossy`, owned. Claimed: the text depends on the bytes
/// alone. Not stated: how invalid sequences are replaced (the parser only
/// calls it on bytes that are not UTF-8, to report them).
#[verifier::external_body]
fn lossy_string(bytes: &[u8]) -> (s: String)
    ensures
        s@ == lossy_text(bytes@),
{
    String::from_utf8_lossy(bytes).into_owned()
}

/// `std::str::from_utf8`. Claimed: it succeeds exactly on valid UTF-8, and
/// the text it gives back is made of the same bytes.
#[verifier::external_body]
fn utf8_str(bytes: &[u8]) -> (r: Option<&str>)
    ensures
        match r {
            Some(s) => valid_utf8(bytes@) && s.spec_bytes() == bytes@,
            None => !valid_utf8(bytes@),
        },
{
    std::str::from_utf8(bytes).ok()
}

// ---------------------------------------------------------------------------
// Wire grammar
// ---------------------------------------------------------------------------

/// Index of the first `x` in `b` at or after `i`, or `b.len()` if there is none.
pub open spec fn find_from(b: Seq<u8>, x: u8, i: int) -> int
    decreases b.len() - i,
{
    if i >= b.len() {
        b.len() as int
    } else if b[i] == x {
        i
    } else {
        find_from(b, x, i + 1)
    }
}

/// `find_from` lands on the first `x` at or after `i`, or on the end.
pub proof fn lemma_find_from(b: Seq<u8>, x: u8, i: int)
    requires
        0 <= i <= b.len(),
    ensures
        i <= find_from(b, x, i) <= b.len(),
        find_from(b, x, i) < b.len() ==> b[find_from(b, x, i)] == x,
        forall|k: int| i <= k < find_from(b, x, i) ==> b[k] != x,
    decreases b.len() - i,
{
    if i < b.len() && b[i] != x {
        lemma_find_from(b, x, i + 1);
    }
}

/// One `tag=value` field: the tag is the text before the first `=`, read as
/// an unsigned decimal; the value is the UTF-8 text after it.
pub open spec fn field_of(chunk: Seq<u8>) -> Result<(u32, Seq<char>), FixFault> {
    if !valid_utf8(chunk) {
        Err(FixFault::MalformedField(lossy_text(chunk)))
    } else {
        let p = find_from(chunk, 61, 0);
        if p >= chunk.len() {
            Err(FixFault::MalformedField(decode_utf8(chunk)))
        } else {
            match unsigned_value(chunk.take(p), u32::MAX as nat) {
                None => Err(FixFault::TagNotInteger(decode_utf8(chunk.take(p)))),
                Some(t) => Ok((t as u32, decode_utf8(chunk.skip(p + 1)))),
            }
        }
    }
}

/// The fields of `b` from position `start` on, added in order to `acc`: the
/// `SOH`-separated chunks, empty chunks skipped, a later tag overwriting an
/// earlier one; the first chunk that is no field is the error.
pub open spec fn fields_from(b: Seq<u8>, start: int, acc: Map<u32, Seq<char>>) -> Result<
    Map<u32, Seq<char>>,
    FixFault,
>
    decreases b.len() - start,
{
    if start < 0 || start >= b.len() {
        Ok(acc)
    } else {
        let end = find_from(b, SOH, start);
        proof {
            lemma_find_from(b, SOH, start);
        }
        let next = if end < b.len() {
            end + 1
        } else {
            b.len() as int
        };
        if end == start {
            fields_from(b, next, acc)
        } else {
            match field_of(b.subrange(start, end)) {
                Err(e) => Err(e),
                Ok((t, v)) => fields_from(b, next, acc.insert(t, v)),
            }
        }
    }
}

/// `b` holds `9=` at `i`.
pub open spec fn nine_eq_at(b: Seq<u8>, i: int) -> bool {
    0 <= i && i + 1 < b.len() && b[i] == 57 && b[i + 1] == 61
}

/// Index of the first `9=` in `b` at or after `i`, or `b.len()`.
pub open spec fn nine_eq_from(b: Seq<u8>, i: int) -> int
    decreases b.len() - i,
{
    if i + 1 >= b.len() {
        b.len() as int
    } else if nine_eq_at(b, i) {
        i
    } else {
        nine_eq_from(b, i + 1)
    }
}

/// `nine_eq_from` lands on the first `9=` at or after `i`, or on the end.
pub proof fn lemma_nine_eq_from(b: Seq<u8>, i: int)
    requires
        0 <= i <= b.len(),
    ensures
        i <= nine_eq_from(b, i) <= b.len(),
        nine_eq_from(b, i) < b.len() ==> nine_eq_at(b, nine_eq_from(b, i)),
        forall|k: int| i <= k < nine_eq_from(b, i) ==> !nine_eq_at(b, k),
    decreases b.len() - i,
{
    if i + 1 < b.len() && !nine_eq_at(b, i) {
        lemma_nine_eq_from(b, i + 1);
    }
}

/// Where the body starts: just after the first `SOH` that follows the first
/// `9=`; `None` if there is no such `SOH`.
pub open spec fn body_start(b: Seq<u8>) -> Option<int> {
    let i = nine_eq_from(b, 0);
    let j = find_from(b, SOH, i + 2);
    if i < b.len() && j < b.len() {
        Some(j + 1)
    } else {
        None
    }
}

/// `b` holds `10=` at `i`, at the start of `b` or just after an `SOH`.
pub open spec fn checksum_at(b: Seq<u8>, i: int) -> bool {
    &&& 0 <= i && i + 2 < b.len()
    &&& b[i] == 49 && b[i + 1] == 48 && b[i + 2] == 61
    &&& (i == 0 || b[i - 1] == SOH)
}

/// The last `i < n` at which [`checksum_at`] holds.
pub open spec fn checksum_below(b: Seq<u8>, n: int) -> Option<int>
    decreases n,
{
    if n <= 0 {
        None
    } else if checksum_at(b, n - 1) {
        Some(n - 1)
    } else {
        checksum_below(b, n - 1)
    }
}

/// `checksum_below` finds the last field-opening `10=` below `n`, if any.
pub proof fn lemma_checksum_below(b: Seq<u8>, n: int)
    ensures
        checksum_below(b, n) matches Some(c) ==> 0 <= c < n && checksum_at(b, c),
        checksum_below(b, n) is None ==> forall|k: int| 0 <= k < n ==> !checksum_at(b, k),
    decreases n,
{
    if n > 0 && !checksum_at(b, n - 1) {
        lemma_checksum_below(b, n - 1);
    }
}

/// Where the `CheckSum` field starts: the last `10=` that opens a field.
pub open spec fn checksum_start(b: Seq<u8>) -> Option<int> {
    checksum_below(b, b.len() as int)
}

/// The split of `b` into its body and its checksummed prefix, as a pair of
/// positions: body start and `CheckSum` start. A `CheckSum` field that
/// starts before the body does counts as missing.
pub open spec fn split_points(b: Seq<u8>) -> Result<(int, int), FixFault> {
    match body_start(b) {
        None => Err(FixFault::MissingField(9)),
        Some(s) => match checksum_start(b) {
            None => Err(FixFault::MissingField(10)),
            Some(c) => if s <= c {
                Ok((s, c))
            } else {
                Err(FixFault::MissingField(10))
            },
        },
    }
}

/// Both split points lie inside the buffer.
pub proof fn lemma_split_points(b: Seq<u8>)
    ensures
        split_points(b) matches Ok((s, c)) ==> 0 < s <= b.len() && 0 <= c < b.len(),
{
    lemma_nine_eq_from(b, 0);
    let i = nine_eq_from(b, 0);
    if i < b.len() {
        lemma_find_from(b, SOH, i + 2);
    }
    lemma_checksum_below(b, b.len() as int);
}

/// Sum of the bytes of `s`.
pub open spec fn byte_sum(s: Seq<u8>) -> nat
    decreases s.len(),
{
    if s.len() == 0 {
        0
    } else {
        byte_sum(s.drop_last()) + s.last() as nat
    }
}

/// The outcome of parsing `b`: the fields, once the envelope checks out.
pub open spec fn parse_result(b: Seq<u8>) -> Result<Map<u32, Seq<char>>, FixFault> {
    match fields_from(b, 0, Map::empty()) {
        Err(e) => Err(e),
        Ok(m) => if !m.contains_key(8) {
            Err(FixFault::MissingField(8))
        } else if !m.contains_key(9) {
            Err(FixFault::MissingField(9))
        } else if !m.contains_key(10) {
            Err(FixFault::MissingField(10))
        } else {
            match unsigned_value(encode_utf8(m[9]), usize::MAX as nat) {
                None => Err(FixFault::MalformedField(m[9])),
                Some(body_len) => match unsigned_value(encode_utf8(m[10]), u32::MAX as nat) {
                    None => Err(FixFault::MalformedField(m[10])),
                    Some(expected) => match split_points(b) {
                        Err(e) => Err(e),
                        Ok((s, c)) => {
                            let actual_len = c - s;
                            let actual_sum = byte_sum(b.take(c)) % 256;
                            if actual_len != body_len {
                                Err(
                                    FixFault::BodyLengthMismatch {
                                        expected: body_len as usize,
                                        actual: actual_len as usize,
                                    },
                                )
                            } else if actual_sum != expected {
                                Err(
                                    FixFault::ChecksumMismatch {
                                        expected: expected as u32,
                                        actual: actual_sum as u32,
                                    },
                                )
                            } else if m[8].len() == 0 {
                                Err(FixFault::MissingField(8))
                            } else {
                                Ok(m)
                            }
                        },
                    },
                },
            }
        },
    }
}

// ---------------------------------------------------------------------------
// Parser
// ---------------------------------------------------------------------------

/// Index of the first `x` in `b` at or after `i`, or `b.len()`.
fn find_byte(b: &[u8], x: u8, i: usize) -> (r: usize)
    requires
        i <= b@.len(),
    ensures
        r == find_from(b@, x, i as int),
{
    let mut k = i;
    while k < b.len() && b[k] != x
        invariant
            i <= k <= b@.len(),
            find_from(b@, x, k as int) == find_from(b@, x, i as int),
        decreases b@.len() - k,
    {
        k = k + 1;
    }
    k
}

/// Bytes valid as UTF-8 stay valid when cut around an ASCII `=`.
proof fn lemma_utf8_cut_at_eq(chunk: Seq<u8>, p: int)
    requires
        valid_utf8(chunk),
        0 <= p < chunk.len(),
        chunk[p] == 61,
    ensures
        valid_utf8(chunk.take(p)),
        valid_utf8(chunk.skip(p + 1)),
{
    vstd::utf8::is_char_boundary_iff_is_leading_byte(chunk, p);
    vstd::utf8::valid_utf8_split(chunk, p);
    let tail = chunk.subrange(p, chunk.len() as int);
    assert(tail[0] == 61);
    assert(vstd::utf8::pop_first_scalar(tail) =~= chunk.skip(p + 1));
    assert(chunk.take(p) =~= chunk.subrange(0, p));
}

/// Read one `tag=value` field.
fn field_from_chunk<'a>(chunk: &'a [u8]) -> (r: Result<(u32, &'a str), FixError>)
    ensures
        match r {
            Ok((t, v)) => field_of(chunk@) == Ok::<(u32, Seq<char>), FixFault>((t, v@)),
            Err(e) => field_of(chunk@) == Err::<(u32, Seq<char>), FixFault>(e@),
        },
{
    let text = match utf8_str(chunk) {
        Some(t) => t,
        None => return Err(FixError::MalformedField(lossy_string(chunk))),
    };
    proof {
        vstd::utf8::encode_utf8_decode_utf8(text@);
    }
    let p = find_byte(chunk, 61, 0);
    proof {
        lemma_find_from(chunk@, 61, 0);
    }
    if p >= chunk.len() {
        return Err(FixError::MalformedField(text.to_owned()));
    }
    let tag_bytes = &chunk[0..p];
    let value_bytes = &chunk[p + 1..chunk.len()];
    proof {
        lemma_utf8_cut_at_eq(chunk@, p as int);
        assert(tag_bytes@ =~= chunk@.take(p as int));
        assert(value_bytes@ =~= chunk@.skip(p + 1));
    }
    // Both halves are valid UTF-8 (shown above), so neither `None` arm runs.
    let tag_text = match utf8_str(tag_bytes) {
        Some(t) => t,
        None => return Err(FixError::MalformedField(text.to_owned())),
    };
    let value_text = match utf8_str(value_bytes) {
        Some(t) => t,
        None => return Err(FixError::MalformedField(text.to_owned())),
    };
    proof {
        vstd::utf8::encode_utf8_decode_utf8(tag_text@);
        vstd::utf8::encode_utf8_decode_utf8(value_text@);
    }
    match parse_unsigned(tag_bytes, 0xffff_ffff) {
        None => Err(FixError::TagNotInteger(tag_text.to_owned())),
        Some(t) => Ok((t as u32, value_text)),
    }
}

/// Read every field of `bytes`, in order.
fn parse_fields(bytes: &[u8]) -> (r: Result<FixMessage, FixError>)
    ensures
        match r {
            Ok(m) => fields_from(bytes@, 0, Map::empty()) == Ok::<Map<u32, Seq<char>>, FixFault>(
                m@,
            ),
            Err(e) => fields_from(bytes@, 0, Map::empty()) == Err::<Map<u32, Seq<char>>, FixFault>(
                e@,
            ),
        },
{
    let mut msg = FixMessage::new();
    let mut start: usize = 0;
    while start < bytes.len()
        invariant
            start <= bytes@.len(),
            fields_from(bytes@, 0, Map::empty()) == fields_from(bytes@, start as int, msg@),
        decreases bytes@.len() - start,
    {
        let end = find_byte(bytes, SOH, start);
        proof {
            lemma_find_from(bytes@, SOH, start as int);
        }
        let next = if end < bytes.len() {
            end + 1
        } else {
            bytes.len()
        };
        if end > start {
            let chunk = &bytes[start..end];
            match field_from_chunk(chunk) {
                Err(e) => {
                    return Err(e);
                },
                Ok((tag, value)) => {
                    msg.insert(tag, value);
                },
            }
        }
        start = next;
    }
    Ok(msg)
}

/// Find the first `9=` in `bytes`, or `bytes.len()`.
fn find_nine_eq(bytes: &[u8]) -> (r: usize)
    ensures
        r == nine_eq_from(bytes@, 0),
{
    let mut i: usize = 0;
    while bytes.len() - i > 1 && !(bytes[i] == 57 && bytes[i + 1] == 61)
        invariant
            i <= bytes@.len(),
            nine_eq_from(bytes@, i as int) == nine_eq_from(bytes@, 0),
        decreases bytes@.len() - i,
    {
        i = i + 1;
    }
    if bytes.len() - i > 1 {
        i
    } else {
        bytes.len()
    }
}

/// Find the last `10=` that opens a field.
fn find_checksum_start(bytes: &[u8]) -> (r: Option<usize>)
    ensures
        match r {
            Some(c) => checksum_start(bytes@) == Some(c as int),
            None => checksum_start(bytes@) is None,
        },
{
    let mut n: usize = bytes.len();
    while n > 0
        invariant
            n <= bytes@.len(),
            checksum_below(bytes@, n as int) == checksum_start(bytes@),
        decreases n,
    {
        let i = n - 1;
        if bytes.len() - i > 2 && bytes[i] == 49 && bytes[i + 1] == 48 && bytes[i + 2] == 61 && (i
            == 0 || bytes[i - 1] == SOH) {
            return Some(i);
        }
        n = i;
    }
    None
}

/// Cut `bytes` into the body (after `9=<n>` and its `SOH`, up to the last
/// `10=` field) and the checksummed prefix (everything before that field).
/// A `CheckSum` field that starts before the body is reported missing.
pub fn split_for_verification(bytes: &[u8]) -> (r: Result<(&[u8], &[u8]), FixError>)
    ensures
        match r {
            Ok((body, prefix)) => split_points(bytes@) matches Ok((s, c)) && body@ == bytes@.subrange(
                s,
                c,
            ) && prefix@ == bytes@.take(c),
            Err(e) => split_points(bytes@) == Err::<(int, int), FixFault>(e@),
        },
{
    let i = find_nine_eq(bytes);
    proof {
        lemma_nine_eq_from(bytes@, 0);
    }
    if i >= bytes.len() {
        return Err(FixError::MissingField(9));
    }
    let j = find_byte(bytes, SOH, i + 2);
    if j >= bytes.len() {
        return Err(FixError::MissingField(9));
    }
    let body_start = j + 1;
    let c = match find_checksum_start(bytes) {
        Some(c) => c,
        None => return Err(FixError::MissingField(10)),
    };
    if body_start > c {
        return Err(FixError::MissingField(10));
    }
    proof {
        lemma_find_from(bytes@, SOH, i + 2);
        lemma_checksum_below(bytes@, bytes@.len() as int);
        assert(split_points(bytes@) == Ok::<(int, int), FixFault>((body_start as int, c as int)));
    }
    Ok((&bytes[body_start..c], &bytes[0..c]))
}

/// Sum of the bytes modulo 256.
fn checksum(bytes: &[u8]) -> (r: u32)
    ensures
        r == byte_sum(bytes@) % 256,
{
    let mut acc: u32 = 0;
    let mut i: usize = 0;
    while i < bytes.len()
        invariant
            i <= bytes@.len(),
            acc == byte_sum(bytes@.take(i as int)) % 256,
        decreases bytes@.len() - i,
    {
        let ghost before = byte_sum(bytes@.take(i as int));
        assert(bytes@.take(i + 1).drop_last() =~= bytes@.take(i as int));
        let x = bytes[i] as u32;
        assert((before % 256 + x) % 256 == (before + x) % 256) by (nonlinear_arith);
        acc = (acc + x) % 256;
        i = i + 1;
    }
    assert(bytes@.take(i as int) =~= bytes@);
    acc
}

/// Parse a raw FIX buffer, checking `BodyLength` and `CheckSum`.
pub fn parse(bytes: &[u8]) -> (r: Result<FixMessage, FixError>)
    ensures
        match r {
            Ok(m) => parse_result(bytes@) == Ok::<Map<u32, Seq<char>>, FixFault>(m@),
            Err(e) => parse_result(bytes@) == Err::<Map<u32, Seq<char>>, FixFault>(e@),
        },
{
    let msg = parse_fields(bytes)?;
    let begin = match msg.get(8) {
        Some(b) => b,
        None => return Err(FixError::MissingField(8)),
    };
    let body_len_str = match msg.get(9) {
        Some(b) => b,
        None => return Err(FixError::MissingField(9)),
    };
    let checksum_str = match msg.get(10) {
        Some(c) => c,
        None => return Err(FixError::MissingField(10)),
    };
    let body_len = match parse_unsigned(body_len_str.as_bytes(), usize::MAX as u64) {
        Some(n) => n as usize,
        None => return Err(FixError::MalformedField(body_len_str.to_owned())),
    };
    let expected_checksum = match parse_unsigned(checksum_str.as_bytes(), 0xffff_ffff) {
        Some(n) => n as u32,
        None => return Err(FixError::MalformedField(checksum_str.to_owned())),
    };
    let (body_bytes, checksum_bytes) = split_for_verification(bytes)?;
    proof {
        lemma_split_points(bytes@);
    }
    if body_bytes.len() != body_len {
        return Err(FixError::BodyLengthMismatch { expected: body_len, actual: body_bytes.len() });
    }
    let actual_checksum = checksum(checksum_bytes);
    if actual_checksum != expected_checksum {
        return Err(
            FixError::ChecksumMismatch { expected: expected_checksum, actual: actual_checksum },
        );
    }
    if begin.is_empty() {
        return Err(FixError::MissingField(8));
    }
    Ok(msg)
}

/// Keys that a `BTreeMap` hands out in increasing order are strictly
/// increasing integers.
proof fn lemma_increasing_tags(ks: Seq<u32>)
    requires
        vstd::std_specs::btree::increasing_seq(ks),
    ensures
        forall|i: int, j: int| 0 <= i < j < ks.len() ==> ks[i] < ks[j],
{
    assert(vstd::laws_cmp::obeys_cmp::<u32>());
    assert forall|i: int, j: int| 0 <= i < j < ks.len() implies ks[i] < ks[j] by {
        assert(vstd::std_specs::cmp::OrdSpec::cmp_spec(&ks[i], &ks[j]) is Less);
    }
}

// ---------------------------------------------------------------------------
// Serialisation
// ---------------------------------------------------------------------------

/// One field on the wire: the tag in decimal, `=`, the value, `SOH`.
pub open spec fn field_bytes(tag: u32, value: Seq<u8>) -> Seq<u8> {
    decimal(tag as nat) + seq![61u8] + value + seq![SOH]
}

/// `ks` lists the members of `s` in strictly increasing order.
pub open spec fn lists_in_order(ks: Seq<u32>, s: Set<u32>) -> bool {
    &&& forall|i: int, j: int| 0 <= i < j < ks.len() ==> ks[i] < ks[j]
    &&& forall|t: u32| s.contains(t) <==> ks.contains(t)
}

/// The members of `s` in increasing order.
pub open spec fn in_order(s: Set<u32>) -> Seq<u32> {
    choose|ks: Seq<u32>| lists_in_order(ks, s)
}

/// The fields of `m` with tags `ks`, in that order.
pub open spec fn fields_bytes(m: Map<u32, Seq<char>>, ks: Seq<u32>) -> Seq<u8>
    decreases ks.len(),
{
    if ks.len() == 0 {
        seq![]
    } else {
        fields_bytes(m, ks.drop_last()) + field_bytes(ks.last(), encode_utf8(m[ks.last()]))
    }
}

/// The fields that go between `BodyLength` and `CheckSum`: all but 8, 9, 10.
pub open spec fn body_fields(m: Map<u32, Seq<char>>) -> Map<u32, Seq<char>> {
    m.remove(8).remove(9).remove(10)
}

/// The body on the wire: [`body_fields`] in increasing tag order.
pub open spec fn body_bytes(m: Map<u32, Seq<char>>) -> Seq<u8> {
    fields_bytes(body_fields(m), in_order(body_fields(m).dom()))
}

/// `BeginString` as written: field 8 of `m`, or FIX 4.4 when it has none.
pub open spec fn begin_string(m: Map<u32, Seq<char>>) -> Seq<char> {
    if m.contains_key(8) {
        m[8]
    } else {
        FIX_44_BEGIN_STRING@
    }
}

/// Everything before the `CheckSum` field: `BeginString`, `BodyLength`
/// (the body's length in bytes), the body.
pub open spec fn head_bytes(m: Map<u32, Seq<char>>) -> Seq<u8> {
    field_bytes(8, encode_utf8(begin_string(m))) + field_bytes(9, decimal(body_bytes(m).len()))
        + body_bytes(m)
}

/// The whole message on the wire: the head, then `CheckSum` as the sum of
/// the head's bytes modulo 256 in three digits.
pub open spec fn wire_bytes(m: Map<u32, Seq<char>>) -> Seq<u8> {
    head_bytes(m) + field_bytes(10, three_digits(byte_sum(head_bytes(m)) % 256))
}

/// Two strictly increasing listings of one set are the same sequence.
pub proof fn lemma_listing_unique(a: Seq<u32>, b: Seq<u32>, s: Set<u32>)
    requires
        lists_in_order(a, s),
        lists_in_order(b, s),
    ensures
        a == b,
    decreases a.len(),
{
    if a.len() == 0 {
        if b.len() > 0 {
            assert(b.contains(b[0]));
        }
        assert(a =~= b);
    } else if b.len() == 0 {
        assert(a.contains(a[0]));
    } else {
        assert(a.contains(a[0]));
        assert(b.contains(b[0]));
        let j = choose|j: int| 0 <= j < b.len() && b[j] == a[0];
        let i = choose|i: int| 0 <= i < a.len() && a[i] == b[0];
        assert(a[0] == b[0]);
        let s2 = s.remove(a[0]);
        let a2 = a.drop_first();
        let b2 = b.drop_first();
        assert forall|t: u32| s2.contains(t) <==> a2.contains(t) by {
            if s2.contains(t) {
                assert(a.contains(t));
                let k = choose|k: int| 0 <= k < a.len() && a[k] == t;
                assert(a2[k - 1] == t);
            }
            if a2.contains(t) {
                let k = choose|k: int| 0 <= k < a2.len() && a2[k] == t;
                assert(a[k + 1] == t);
            }
        }
        assert forall|t: u32| s2.contains(t) <==> b2.contains(t) by {
            if s2.contains(t) {
                assert(b.contains(t));
                let k = choose|k: int| 0 <= k < b.len() && b[k] == t;
                assert(b2[k - 1] == t);
            }
            if b2.contains(t) {
                let k = choose|k: int| 0 <= k < b2.len() && b2[k] == t;
                assert(b[k + 1] == t);
            }
        }
        lemma_listing_unique(a2, b2, s2);
        assert(a =~= seq![a[0]] + a2);
        assert(b =~= seq![b[0]] + b2);
    }
}

/// Append one field.
fn push_field(buf: &mut Vec<u8>, tag: u32, value: &[u8])
    ensures
        final(buf)@ == old(buf)@ + field_bytes(tag, value@),
{
    push_decimal(buf, tag as u64);
    buf.push(61);
    crate::signed_order::push_bytes(buf, value);
    buf.push(SOH);
    proof {
        assert(final(buf)@ =~= old(buf)@ + field_bytes(tag, value@));
    }
}

/// Serialise a message, computing `BodyLength` and `CheckSum`. `BeginString`
/// (8) is taken from the message, or FIX 4.4 when it has none; fields 9 and
/// 10 of the message are not written, the computed ones are.
pub fn serialize(msg: &FixMessage) -> (out: Vec<u8>)
    ensures
        out@ == wire_bytes(msg@),
{
    let mut fields = msg.fields.clone();
    fields.remove(&8);
    fields.remove(&9);
    fields.remove(&10);
    let ghost bm = body_fields(msg@);
    assert(fields@.map_values(|v: String| v@) =~= bm);
    let mut body: Vec<u8> = Vec::new();
    let iter = fields.iter();
    let ghost items = IteratorSpec::remaining(&iter);
    let ghost ks = items.map_values(|kv: (&u32, &String)| *kv.0);
    for (tag, value) in it: iter
        invariant
            it.seq() == items,
            items.len() == ks.len(),
            forall|i: int| 0 <= i < items.len() ==> #[trigger] ks[i] == *items[i].0,
            forall|i: int|
                0 <= i < items.len() ==> bm.contains_key(*items[i].0) && bm[*items[i].0]
                    == (*items[i].1)@,
            body@ == fields_bytes(bm, ks.take(it.index() as int)),
    {
        proof {
            assert(ks.take(it.index() + 1).drop_last() =~= ks.take(it.index() as int));
        }
        push_field(&mut body, *tag, value.as_str().as_bytes());
    }
    proof {
        assert(ks.take(ks.len() as int) =~= ks);
        lemma_increasing_tags(ks);
        assert forall|t: u32| bm.dom().contains(t) <==> ks.contains(t) by {
            if bm.dom().contains(t) {
                assert(fields@.contains_key(t));
                assert(items.contains((&t, &fields@[t])));
                let k = choose|k: int| 0 <= k < items.len() && items[k] == (&t, &fields@[t]);
                assert(ks[k] == t);
            }
            if ks.contains(t) {
                let k = choose|k: int| 0 <= k < ks.len() && ks[k] == t;
                assert(bm.contains_key(*items[k].0));
            }
        }
        assert(lists_in_order(ks, bm.dom()));
        assert(lists_in_order(in_order(bm.dom()), bm.dom()));
        lemma_listing_unique(ks, in_order(bm.dom()), bm.dom());
    }
    let mut out: Vec<u8> = Vec::new();
    match msg.get(8) {
        Some(b) => push_field(&mut out, 8, b.as_bytes()),
        None => push_field(&mut out, 8, FIX_44_BEGIN_STRING.as_bytes()),
    }
    let mut len_text: Vec<u8> = Vec::new();
    push_decimal(&mut len_text, body.len() as u64);
    push_field(&mut out, 9, len_text.as_slice());
    crate::signed_order::push_bytes(&mut out, body.as_slice());
    let cs = checksum(out.as_slice());
    let digits: Vec<u8> = vec![(48 + cs / 100) as u8, (48 + (cs / 10) % 10) as u8, (48 + cs % 10) as u8];
    push_field(&mut out, 10, digits.as_slice());
    proof {
        assert(digits@ =~= three_digits(cs as nat));
    }
    out
}

} // verus!
