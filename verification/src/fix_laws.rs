//! Laws of the FIX wire format: what `parse` makes of what `serialize`
//! wrote.

use vstd::prelude::*;
use vstd::utf8::{decode_utf8, encode_utf8, valid_utf8};

use crate::fix::{
    begin_string, body_bytes, body_fields, body_start, byte_sum, checksum_at, checksum_below,
    checksum_start, decimal, digits_value, field_bytes, field_of, fields_bytes, fields_from,
    find_from, head_bytes, in_order, is_digit, lists_in_order, nine_eq_at, nine_eq_from,
    parse_result, split_points, three_digits, unsigned_digits, unsigned_value,
    wire_bytes, FixFault, FixMessage, FIX_44_BEGIN_STRING, SOH,
};

verus! {

/// Bytes below `0x80` are valid UTF-8.
proof fn lemma_ascii_valid(s: Seq<u8>)
    requires
        forall|i: int| 0 <= i < s.len() ==> s[i] <= 0x7f,
    ensures
        valid_utf8(s),
{
    assert(vstd::utf8::partial_valid_utf8(s, 0)) by {
        assert(s.subrange(0, 0) =~= Seq::<u8>::empty());
    }
    vstd::utf8::partial_valid_utf8_extend_ascii_block(s, 0, s.len() as int);
    assert(s.subrange(0, s.len() as int) =~= s);
}

/// The decimal rendering of `n` is a non-empty run of digits worth `n`.
pub proof fn lemma_decimal(n: nat)
    ensures
        decimal(n).len() >= 1,
        forall|i: int| 0 <= i < decimal(n).len() ==> is_digit(#[trigger] decimal(n)[i]),
        digits_value(decimal(n)) == n,
    decreases n,
{
    let d = decimal(n);
    if n >= 10 {
        lemma_decimal(n / 10);
        assert(d.drop_last() =~= decimal(n / 10));
        assert(d.last() == 48 + n % 10);
        assert(n == (n / 10) * 10 + n % 10);
        assert(digits_value(d) == digits_value(d.drop_last()) * 10 + (d.last() - 48) as nat);
        assert(digits_value(d.drop_last()) == n / 10);
    } else {
        assert(d.drop_last() =~= Seq::<u8>::empty());
        assert(d.last() == 48 + n);
        assert(digits_value(d.drop_last()) == 0);
    }
}

/// Reading back the decimal rendering of `n` gives `n`.
pub proof fn lemma_decimal_reads_back(n: nat, max: nat)
    requires
        n <= max,
    ensures
        unsigned_value(decimal(n), max) == Some(n),
        valid_utf8(decimal(n)),
{
    lemma_decimal(n);
    let d = decimal(n);
    assert(unsigned_digits(d) == d);
    lemma_ascii_valid(d);
}

/// Reading back three zero-padded digits of `c < 256` gives `c`.
pub proof fn lemma_three_digits_read_back(c: nat)
    requires
        c < 256,
    ensures
        unsigned_value(three_digits(c), u32::MAX as nat) == Some(c),
        valid_utf8(three_digits(c)),
        forall|i: int| 0 <= i < 3 ==> is_digit(#[trigger] three_digits(c)[i]),
{
    let t = three_digits(c);
    assert(unsigned_digits(t) == t);
    assert(t[0] == 48 + c / 100);
    assert(t[1] == 48 + (c / 10) % 10);
    assert(t[2] == 48 + c % 10);
    assert(t.drop_last().drop_last().drop_last() =~= Seq::<u8>::empty());
    assert(t.drop_last().drop_last() =~= seq![t[0]]);
    assert(t.drop_last() =~= seq![t[0], t[1]]);
    assert(digits_value(seq![t[0]].drop_last()) == 0);
    assert(digits_value(t.drop_last().drop_last()) == c / 100);
    assert(digits_value(t.drop_last()) == (c / 100) * 10 + (c / 10) % 10);
    assert(((c / 100) * 10 + (c / 10) % 10) * 10 + c % 10 == c) by (nonlinear_arith)
        requires
            c < 256,
    ;
    lemma_ascii_valid(t);
}

/// `find_from` stops at the first `x`.
proof fn lemma_find_from_at(b: Seq<u8>, x: u8, i: int, e: int)
    requires
        0 <= i <= e <= b.len(),
        forall|k: int| i <= k < e ==> b[k] != x,
        e == b.len() || b[e] == x,
    ensures
        find_from(b, x, i) == e,
    decreases e - i,
{
    if i < e {
        lemma_find_from_at(b, x, i + 1, e);
    }
}

/// The bytes of a field's value hold no `SOH`.
pub open spec fn soh_free(v: Seq<char>) -> bool {
    !encode_utf8(v).contains(SOH)
}

/// A field written by `field_bytes` reads back as the same tag and value.
proof fn lemma_field_reads_back(tag: u32, v: Seq<char>)
    ensures
        ({
            let chunk = decimal(tag as nat) + seq![61u8] + encode_utf8(v);
            field_of(chunk) == Ok::<(u32, Seq<char>), FixFault>((tag, v))
        }),
{
    let d = decimal(tag as nat);
    let e = encode_utf8(v);
    let chunk = d + seq![61u8] + e;
    lemma_decimal_reads_back(tag as nat, u32::MAX as nat);
    lemma_decimal(tag as nat);
    lemma_ascii_valid(seq![61u8]);
    vstd::utf8::encode_utf8_valid_utf8(v);
    vstd::utf8::valid_utf8_concat(d, seq![61u8]);
    vstd::utf8::valid_utf8_concat(d + seq![61u8], e);
    lemma_find_from_at(chunk, 61, 0, d.len() as int);
    assert(chunk.take(d.len() as int) =~= d);
    assert(chunk.skip(d.len() as int + 1) =~= e);
    vstd::utf8::encode_utf8_decode_utf8(v);
}

/// Reading a field written at `start` of `b` adds it to the fields read so
/// far and moves past it.
proof fn lemma_field_step(
    b: Seq<u8>,
    start: int,
    tag: u32,
    v: Seq<char>,
    acc: Map<u32, Seq<char>>,
)
    requires
        0 <= start,
        start + field_bytes(tag, encode_utf8(v)).len() <= b.len(),
        b.subrange(start, start + field_bytes(tag, encode_utf8(v)).len()) == field_bytes(
            tag,
            encode_utf8(v),
        ),
        soh_free(v),
    ensures
        fields_from(b, start, acc) == fields_from(
            b,
            start + field_bytes(tag, encode_utf8(v)).len(),
            acc.insert(tag, v),
        ),
{
    let d = decimal(tag as nat);
    let e = encode_utf8(v);
    let f = field_bytes(tag, e);
    lemma_decimal(tag as nat);
    let end = start + f.len() - 1;
    assert forall|k: int| start <= k < end implies b[k] != SOH by {
        assert(b[k] == f[k - start]);
        if k - start < d.len() {
            assert(f[k - start] == d[k - start]);
            assert(is_digit(d[k - start]));
        } else if k - start == d.len() {
            assert(f[k - start] == 61);
        } else {
            assert(f[k - start] == e[k - start - d.len() - 1]);
            if e[k - start - d.len() - 1] == SOH {
                assert(e.contains(SOH));
            }
        }
    }
    assert(b[end] == f[f.len() - 1]);
    lemma_find_from_at(b, SOH, start, end);
    assert(b.subrange(start, end) =~= d + seq![61u8] + e);
    lemma_field_reads_back(tag, v);
}

/// `acc` with the fields `ks` of `m` added in that order.
pub open spec fn insert_all(acc: Map<u32, Seq<char>>, m: Map<u32, Seq<char>>, ks: Seq<u32>) -> Map<
    u32,
    Seq<char>,
>
    decreases ks.len(),
{
    if ks.len() == 0 {
        acc
    } else {
        insert_all(acc, m, ks.drop_last()).insert(ks.last(), m[ks.last()])
    }
}

/// Adding the fields `ks` of `m` gives `acc` overridden by `m` on `ks`.
proof fn lemma_insert_all(acc: Map<u32, Seq<char>>, m: Map<u32, Seq<char>>, ks: Seq<u32>)
    ensures
        forall|k: u32| #[trigger]
            insert_all(acc, m, ks).contains_key(k) <==> acc.contains_key(k) || ks.contains(k),
        forall|k: u32|
            #![trigger insert_all(acc, m, ks)[k]]
            insert_all(acc, m, ks).contains_key(k) ==> insert_all(acc, m, ks)[k] == if ks.contains(
                k,
            ) {
                m[k]
            } else {
                acc[k]
            },
    decreases ks.len(),
{
    if ks.len() > 0 {
        let ks2 = ks.drop_last();
        lemma_insert_all(acc, m, ks2);
        assert forall|k: u32| ks.contains(k) <==> ks2.contains(k) || k == ks.last() by {
            if ks.contains(k) {
                let i = choose|i: int| 0 <= i < ks.len() && ks[i] == k;
                if i < ks.len() - 1 {
                    assert(ks2[i] == k);
                }
            }
            if ks2.contains(k) {
                let i = choose|i: int| 0 <= i < ks2.len() && ks2[i] == k;
                assert(ks[i] == k);
            }
            if k == ks.last() {
                assert(ks[ks.len() - 1] == k);
            }
        }
        let ia = insert_all(acc, m, ks);
        let ia2 = insert_all(acc, m, ks2);
        assert(ia == ia2.insert(ks.last(), m[ks.last()]));
        assert forall|k: u32| #[trigger] ia.contains_key(k) <==> acc.contains_key(k) || ks.contains(
            k,
        ) by {
            assert(ia2.contains_key(k) <==> acc.contains_key(k) || ks2.contains(k));
        }
        assert forall|k: u32| #[trigger] ia.contains_key(k) implies ia[k] == if ks.contains(k) {
            m[k]
        } else {
            acc[k]
        } by {
            if k != ks.last() {
                assert(ia2.contains_key(k));
                assert(ia2[k] == if ks2.contains(k) {
                    m[k]
                } else {
                    acc[k]
                });
            }
        }
    }
}

/// Reading the fields `ks` of `m`, written one after the other at `start`,
/// adds them to the fields read so far in that order.
proof fn lemma_fields_run(
    b: Seq<u8>,
    start: int,
    m: Map<u32, Seq<char>>,
    ks: Seq<u32>,
    acc: Map<u32, Seq<char>>,
)
    requires
        0 <= start,
        start + fields_bytes(m, ks).len() <= b.len(),
        b.subrange(start, start + fields_bytes(m, ks).len()) == fields_bytes(m, ks),
        forall|i: int| 0 <= i < ks.len() ==> soh_free(#[trigger] m[ks[i]]),
    ensures
        fields_from(b, start, acc) == fields_from(
            b,
            start + fields_bytes(m, ks).len(),
            insert_all(acc, m, ks),
        ),
    decreases ks.len(),
{
    if ks.len() > 0 {
        let ks2 = ks.drop_last();
        let head = fields_bytes(m, ks2);
        let t = ks.last();
        let f = field_bytes(t, encode_utf8(m[t]));
        let whole = fields_bytes(m, ks);
        assert(whole == head + f);
        assert(b.subrange(start, start + head.len()) =~= whole.subrange(0, head.len() as int));
        assert(whole.subrange(0, head.len() as int) =~= head);
        assert forall|i: int| 0 <= i < ks2.len() implies soh_free(#[trigger] m[ks2[i]]) by {
            assert(ks2[i] == ks[i]);
        }
        lemma_fields_run(b, start, m, ks2, acc);
        let mid = start + head.len();
        assert forall|i: int| 0 <= i < f.len() implies b[mid + i] == f[i] by {
            assert(b.subrange(start, start + whole.len())[head.len() + i] == whole[head.len() + i]);
        }
        assert(b.subrange(mid, mid + f.len()) =~= f);
        assert(soh_free(m[ks[ks.len() - 1]]));
        lemma_field_step(b, mid, t, m[t], insert_all(acc, m, ks2));
    }
}

/// Every finite set of tags has a listing in increasing order.
pub proof fn lemma_in_order(s: Set<u32>)
    requires
        s.finite(),
    ensures
        lists_in_order(in_order(s), s),
    decreases s.len(),
{
    if s.len() == 0 {
        assert(lists_in_order(Seq::<u32>::empty(), s)) by {
            assert forall|t: u32| s.contains(t) <==> Seq::<u32>::empty().contains(t) by {
                if s.contains(t) {
                    assert(s.len() > 0) by {
                        vstd::set_lib::lemma_set_empty_equivalency_len(s);
                    }
                }
            }
        }
    } else {
        let leq = |a: u32, b: u32| a <= b;
        assert(vstd::relations::total_ordering(leq));
        s.find_unique_maximal_ensures(leq);
        let mx = s.find_unique_maximal(leq);
        let rest = s.remove(mx);
        lemma_in_order(rest);
        let ks2 = in_order(rest);
        let ks = ks2.push(mx);
        assert forall|t: u32| s.contains(t) <==> ks.contains(t) by {
            if s.contains(t) {
                if t == mx {
                    assert(ks[ks.len() - 1] == t);
                } else {
                    assert(ks2.contains(t));
                    let i = choose|i: int| 0 <= i < ks2.len() && ks2[i] == t;
                    assert(ks[i] == t);
                }
            }
            if ks.contains(t) {
                let i = choose|i: int| 0 <= i < ks.len() && ks[i] == t;
                if i < ks.len() - 1 {
                    assert(ks2[i] == t);
                    assert(rest.contains(t));
                }
            }
        }
        assert forall|i: int, j: int| 0 <= i < j < ks.len() implies ks[i] < ks[j] by {
            if j == ks.len() - 1 {
                let x = ks2[i];
                assert(ks2.contains(x));
                assert(rest.contains(x));
                assert(s.contains(x) && x != mx);
                assert(vstd::relations::is_maximal(leq, mx, s));
                if leq(mx, x) {
                    assert(leq(x, mx));
                }
                assert(ks[j] == mx);
                assert(ks[i] == x);
            } else {
                assert(ks[i] == ks2[i] && ks[j] == ks2[j]);
            }
        }
        assert(lists_in_order(ks, s));
    }
}

/// `nine_eq_from` stops at the first `9=`.
proof fn lemma_nine_eq_from_at(b: Seq<u8>, i: int, e: int)
    requires
        0 <= i <= e,
        e + 1 < b.len(),
        forall|k: int| i <= k < e ==> !nine_eq_at(b, k),
        nine_eq_at(b, e),
    ensures
        nine_eq_from(b, i) == e,
    decreases e - i,
{
    if i < e {
        lemma_nine_eq_from_at(b, i + 1, e);
    }
}

/// `checksum_below` finds the last field-opening `10=`.
proof fn lemma_checksum_below_at(b: Seq<u8>, n: int, c: int)
    requires
        0 <= c < n,
        checksum_at(b, c),
        forall|k: int| c < k < n ==> !checksum_at(b, k),
    ensures
        checksum_below(b, n) == Some(c),
    decreases n - c,
{
    if n - 1 > c {
        lemma_checksum_below_at(b, n - 1, c);
    }
}

/// Written fields end with `SOH`.
proof fn lemma_fields_bytes_end(m: Map<u32, Seq<char>>, ks: Seq<u32>)
    ensures
        fields_bytes(m, ks).len() > 0 ==> fields_bytes(m, ks).last() == SOH,
{
}

/// Values that come back from the wire as they went in: no value written
/// into the body holds an `SOH` byte, and a `BeginString` the message
/// carries is non-empty, free of `SOH` and of `9=`.
pub open spec fn values_wire_safe(m: Map<u32, Seq<char>>) -> bool {
    &&& forall|t: u32| #[trigger] body_fields(m).contains_key(t) ==> soh_free(m[t])
    &&& m.contains_key(8) ==> {
        &&& m[8].len() > 0
        &&& soh_free(m[8])
        &&& forall|i: int| !nine_eq_at(encode_utf8(m[8]), i)
    }
}

/// A message whose fields come back from the wire as they went in: it has
/// finitely many fields, its values are safe on the wire, and its body
/// fits in memory.
pub open spec fn wire_safe(m: Map<u32, Seq<char>>) -> bool {
    &&& m.dom().finite()
    &&& values_wire_safe(m)
    &&& body_bytes(m).len() <= usize::MAX
}

/// The fields that parsing gives back of a serialised `m`: its own fields,
/// with `BeginString` as written and `BodyLength` and `CheckSum` as computed.
pub open spec fn read_back(m: Map<u32, Seq<char>>) -> Map<u32, Seq<char>> {
    body_fields(m).insert(8, begin_string(m)).insert(
        9,
        decode_utf8(decimal(body_bytes(m).len())),
    ).insert(10, decode_utf8(three_digits(byte_sum(head_bytes(m)) % 256)))
}

/// The default `BeginString` is non-empty, free of `SOH` and of `9=`.
proof fn lemma_default_begin()
    ensures
        FIX_44_BEGIN_STRING@.len() > 0,
        soh_free(FIX_44_BEGIN_STRING@),
        forall|i: int| !nine_eq_at(encode_utf8(FIX_44_BEGIN_STRING@), i),
{
    reveal_strlit("FIX.4.4");
    let c = FIX_44_BEGIN_STRING@;
    assert(c =~= seq!['F', 'I', 'X', '.', '4', '.', '4']);
    assert(vstd::utf8::is_ascii_chars(c));
    vstd::utf8::is_ascii_chars_encode_utf8(c);
    let e = encode_utf8(c);
    assert forall|i: int| 0 <= i < e.len() implies e[i] != SOH && e[i] != 57 by {
        assert(e[i] == c[i] as u8);
    }
}

/// `BeginString` as written is non-empty, free of `SOH` and of `9=`.
proof fn lemma_begin(m: Map<u32, Seq<char>>)
    requires
        wire_safe(m),
    ensures
        begin_string(m).len() > 0,
        soh_free(begin_string(m)),
        forall|i: int| !nine_eq_at(encode_utf8(begin_string(m)), i),
{
    if !m.contains_key(8) {
        lemma_default_begin();
    }
}

/// The tags 8, 9 and 10 in decimal.
proof fn lemma_envelope_tags()
    ensures
        decimal(8) == seq![56u8],
        decimal(9) == seq![57u8],
        decimal(10) == seq![49u8, 48u8],
{
    assert(decimal(8) =~= seq![56u8]);
    assert(decimal(9) =~= seq![57u8]);
    assert(decimal(1) =~= seq![49u8]);
    assert(decimal(10) =~= seq![49u8, 48u8]);
}

/// The computed `BodyLength` and `CheckSum` texts read back as numbers and
/// hold no `SOH`.
proof fn lemma_computed_values(m: Map<u32, Seq<char>>)
    requires
        wire_safe(m),
    ensures
        ({
            let d = decimal(body_bytes(m).len());
            let t = three_digits(byte_sum(head_bytes(m)) % 256);
            &&& encode_utf8(decode_utf8(d)) == d
            &&& encode_utf8(decode_utf8(t)) == t
            &&& soh_free(decode_utf8(d))
            &&& soh_free(decode_utf8(t))
            &&& unsigned_value(d, usize::MAX as nat) == Some(body_bytes(m).len())
            &&& unsigned_value(t, u32::MAX as nat) == Some(byte_sum(head_bytes(m)) % 256)
            &&& forall|i: int| 0 <= i < d.len() ==> is_digit(#[trigger] d[i])
            &&& forall|i: int| 0 <= i < 3 ==> is_digit(#[trigger] t[i])
        }),
{
    let len = body_bytes(m).len();
    let cs = byte_sum(head_bytes(m)) % 256;
    let d = decimal(len);
    let t = three_digits(cs);
    lemma_decimal_reads_back(len, usize::MAX as nat);
    lemma_decimal(len);
    lemma_three_digits_read_back(cs);
    vstd::utf8::decode_utf8_encode_utf8(d);
    vstd::utf8::decode_utf8_encode_utf8(t);
    assert(!d.contains(SOH)) by {
        if d.contains(SOH) {
            let i = choose|i: int| 0 <= i < d.len() && d[i] == SOH;
            assert(is_digit(d[i]));
        }
    }
    assert(!t.contains(SOH)) by {
        if t.contains(SOH) {
            let i = choose|i: int| 0 <= i < t.len() && t[i] == SOH;
            assert(is_digit(t[i]));
        }
    }
}

/// Reading the fields of a serialised message.
proof fn lemma_wire_fields(m: Map<u32, Seq<char>>)
    requires
        wire_safe(m),
    ensures
        fields_from(wire_bytes(m), 0, Map::empty()) == Ok::<Map<u32, Seq<char>>, FixFault>(
            read_back(m),
        ),
{
    lemma_begin(m);
    lemma_computed_values(m);
    let begin = begin_string(m);
    let bm = body_fields(m);
    assert(bm.dom() =~= m.dom().remove(8).remove(9).remove(10));
    lemma_in_order(bm.dom());
    let ks = in_order(bm.dom());
    let f8 = field_bytes(8, encode_utf8(begin));
    let body = fields_bytes(bm, ks);
    let d = decimal(body.len());
    let f9 = field_bytes(9, d);
    let head = f8 + f9 + body;
    let t = three_digits(byte_sum(head) % 256);
    let f10 = field_bytes(10, t);
    let w = head + f10;
    assert(w == wire_bytes(m));
    let v9 = decode_utf8(d);
    let v10 = decode_utf8(t);
    let p9 = f8.len() as int;
    let pb = p9 + f9.len();
    let p10 = head.len() as int;
    assert(w.subrange(0, p9) =~= f8);
    assert(w.subrange(p9, pb) =~= f9);
    assert(w.subrange(pb, pb + body.len()) =~= body);
    assert(w.subrange(p10, p10 + f10.len()) =~= f10);
    let acc1 = Map::<u32, Seq<char>>::empty().insert(8, begin);
    let acc2 = acc1.insert(9, v9);
    lemma_field_step(w, 0, 8, begin, Map::empty());
    lemma_field_step(w, p9, 9, v9, acc1);
    assert forall|i: int| 0 <= i < ks.len() implies soh_free(#[trigger] bm[ks[i]]) by {
        assert(ks.contains(ks[i]));
        assert(bm.contains_key(ks[i]));
    }
    lemma_fields_run(w, pb, bm, ks, acc2);
    let acc3 = insert_all(acc2, bm, ks);
    lemma_field_step(w, p10, 10, v10, acc3);
    let acc4 = acc3.insert(10, v10);
    assert(fields_from(w, w.len() as int, acc4) == Ok::<Map<u32, Seq<char>>, FixFault>(acc4));
    lemma_insert_all(acc2, bm, ks);
    assert(acc4 =~= read_back(m));
}

/// Where the body and the `CheckSum` field of a serialised message start.
proof fn lemma_wire_split(m: Map<u32, Seq<char>>)
    requires
        wire_safe(m),
    ensures
        split_points(wire_bytes(m)) == Ok::<(int, int), FixFault>(
            (
                (field_bytes(8, encode_utf8(begin_string(m))).len() + field_bytes(
                    9,
                    decimal(body_bytes(m).len()),
                ).len()) as int,
                head_bytes(m).len() as int,
            ),
        ),
{
    lemma_begin(m);
    lemma_computed_values(m);
    lemma_envelope_tags();
    let e = encode_utf8(begin_string(m));
    let bm = body_fields(m);
    let ks = in_order(bm.dom());
    let f8 = field_bytes(8, e);
    let body = fields_bytes(bm, ks);
    let d = decimal(body.len());
    let f9 = field_bytes(9, d);
    let head = f8 + f9 + body;
    let t = three_digits(byte_sum(head) % 256);
    let f10 = field_bytes(10, t);
    let w = head + f10;
    assert(w == wire_bytes(m));
    let p9 = f8.len() as int;
    let pb = p9 + f9.len();
    let p10 = head.len() as int;
    assert forall|k: int| 0 <= k < p9 implies !nine_eq_at(w, k) by {
        if nine_eq_at(w, k) {
            if 2 <= k && k + 1 < 2 + e.len() {
                assert(w[k] == e[k - 2] && w[k + 1] == e[k - 1]);
                assert(nine_eq_at(e, k - 2));
            }
        }
    }
    assert(w[p9] == 57 && w[p9 + 1] == 61);
    lemma_nine_eq_from_at(w, 0, p9);
    assert forall|k: int| p9 + 2 <= k < pb - 1 implies w[k] != SOH by {
        assert(w[k] == d[k - p9 - 2]);
        assert(is_digit(d[k - p9 - 2]));
    }
    lemma_find_from_at(w, SOH, p9 + 2, pb - 1);
    assert(body_start(w) == Some(pb));
    lemma_fields_bytes_end(bm, ks);
    assert(w[p10 - 1] == SOH);
    assert(checksum_at(w, p10));
    assert forall|k: int| p10 < k < w.len() implies !checksum_at(w, k) by {
        if k + 2 < w.len() {
            assert(is_digit(t[0]) && is_digit(t[1]) && is_digit(t[2]));
        }
    }
    lemma_checksum_below_at(w, w.len() as int, p10);
}

/// Parsing what `serialize` wrote succeeds and gives back the message's
/// own fields, `BeginString` as written (FIX 4.4 by default), and the
/// computed `BodyLength` and `CheckSum`; cutting out the body never fails on
/// such a buffer.
pub proof fn law_parse_reads_back_serialized(m: Map<u32, Seq<char>>)
    requires
        wire_safe(m),
    ensures
        parse_result(wire_bytes(m)) == Ok::<Map<u32, Seq<char>>, FixFault>(read_back(m)),
{
    lemma_begin(m);
    lemma_computed_values(m);
    lemma_wire_fields(m);
    lemma_wire_split(m);
    let w = wire_bytes(m);
    let head = head_bytes(m);
    let pb = field_bytes(8, encode_utf8(begin_string(m))).len() + field_bytes(
        9,
        decimal(body_bytes(m).len()),
    ).len();
    assert(head.len() - pb == body_bytes(m).len());
    assert(w.take(head.len() as int) =~= head);
}

/// Parsing what `serialize` wrote for a `FixMessage` succeeds and gives
/// back the message's own fields, `BeginString` as written (FIX 4.4 by
/// default), and the computed `BodyLength` and `CheckSum`, whenever its
/// values are safe on the wire.
pub proof fn law_serialized_message_reads_back(msg: FixMessage, wire: Vec<u8>)
    requires
        wire@ == wire_bytes(msg@),
        values_wire_safe(msg@),
    ensures
        parse_result(wire@) == Ok::<Map<u32, Seq<char>>, FixFault>(read_back(msg@)),
{
    let m = msg@;
    assert(msg.fields@.dom().finite());
    assert(m.dom() =~= msg.fields@.dom());
    assert(wire@.len() == wire.len());
    assert(body_bytes(m).len() <= wire_bytes(m).len());
    law_parse_reads_back_serialized(m);
}

} // verus!
