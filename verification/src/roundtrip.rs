//! Decoding undoes encoding: the decoder reads back every well-formed value
//! from its encoding, wherever the encoding stands in the input and whatever
//! follows it.

use vstd::prelude::*;

use crate::bencode::{
    dicts_sorted, lemma_value_wf_parts, lengths_fit, dict_insert, encode, encode_dict, encode_list, insertion_index, keys_sorted, lemma_dict_insert_last,
    lemma_dict_insert_sorted, lemma_insertion_index, value_wf, BValue,
};
use crate::decimal::{decimal, digit_byte, int_text, lemma_decimal_digits};
use crate::decoder::{is_digit, lemma_parse_digits_monotone, parse_bytes, parse_digits, parse_dict, parse_int_at, parse_item, parse_list, parse_signed_at};
use crate::keys::lex_lt;

verus! {

/// `e` occurs in `s` at position `pos`.
pub open spec fn occurs_at(s: Seq<u8>, pos: int, e: Seq<u8>) -> bool {
    0 <= pos && pos + e.len() <= s.len() && s.subrange(pos, pos + e.len()) == e
}

proof fn lemma_occurs_split(s: Seq<u8>, pos: int, a: Seq<u8>, b: Seq<u8>)
    requires
        occurs_at(s, pos, a + b),
    ensures
        occurs_at(s, pos, a),
        occurs_at(s, pos + a.len(), b),
{
    assert(s.subrange(pos, pos + a.len()) =~= (a + b).subrange(0, a.len() as int));
    assert((a + b).subrange(0, a.len() as int) =~= a);
    assert(s.subrange(pos + a.len(), pos + a.len() + b.len()) =~= (a + b).subrange(a.len() as int, (a + b).len() as int));
    assert((a + b).subrange(a.len() as int, (a + b).len() as int) =~= b);
}

proof fn lemma_occurs_index(s: Seq<u8>, pos: int, e: Seq<u8>, i: int)
    requires
        occurs_at(s, pos, e),
        0 <= i < e.len(),
    ensures
        s[pos + i] == e[i],
{
    assert(s.subrange(pos, pos + e.len())[i] == s[pos + i]);
}

/// The value of a run of digits read after the value `acc`.
pub open spec fn fold_digits(acc: int, ds: Seq<u8>) -> int
    decreases ds.len(),
{
    if ds.len() == 0 {
        acc
    } else {
        fold_digits(acc * 10 + (ds[0] - 48), ds.drop_first())
    }
}

proof fn lemma_fold_digits_push(acc: int, ds: Seq<u8>, d: u8)
    ensures
        fold_digits(acc, ds.push(d)) == fold_digits(acc, ds) * 10 + (d - 48),
    decreases ds.len(),
{
    let dd = ds.push(d);
    assert(dd[0] == if ds.len() == 0 { d } else { ds[0] });
    if ds.len() == 0 {
        assert(dd.drop_first() =~= Seq::<u8>::empty());
        assert(fold_digits(acc * 10 + (d - 48), dd.drop_first()) == acc * 10 + (d - 48));
    } else {
        assert(dd.drop_first() =~= ds.drop_first().push(d));
        lemma_fold_digits_push(acc * 10 + (ds[0] - 48), ds.drop_first(), d);
    }
}

proof fn lemma_fold_decimal(n: nat)
    ensures
        fold_digits(0, decimal(n)) == n,
    decreases n,
{
    if n < 10 {
        assert(decimal(n).drop_first() =~= Seq::<u8>::empty());
        assert(decimal(n)[0] == digit_byte(n));
        assert(digit_byte(n) - 48 == n);
        assert(fold_digits(0 * 10 + (digit_byte(n) - 48), decimal(n).drop_first()) == n);
    } else {
        assert(digit_byte(n % 10) - 48 == n % 10);
        lemma_fold_decimal(n / 10);
        lemma_fold_digits_push(0, decimal(n / 10), digit_byte(n % 10));
        assert((n / 10) * 10 + n % 10 == n) by (nonlinear_arith);
    }
}

proof fn lemma_parse_digits_run(s: Seq<u8>, pos: int, end: u8, acc: int, ds: Seq<u8>)
    requires
        occurs_at(s, pos, ds),
        pos + ds.len() < s.len(),
        s[pos + ds.len()] == end,
        !is_digit(end),
        forall|i: int| 0 <= i < ds.len() ==> is_digit(#[trigger] ds[i]),
    ensures
        parse_digits(s, pos, end, acc) == Some((fold_digits(acc, ds), pos + ds.len() + 1)),
    decreases ds.len(),
{
    if ds.len() > 0 {
        lemma_occurs_index(s, pos, ds, 0);
        let t = ds.drop_first();
        assert(occurs_at(s, pos + 1, t)) by {
            assert(s.subrange(pos + 1, pos + 1 + t.len()) =~= s.subrange(pos, pos + ds.len()).drop_first());
        }
        assert forall|i: int| 0 <= i < t.len() implies is_digit(#[trigger] t[i]) by {
            assert(t[i] == ds[i + 1]);
        }
        lemma_parse_digits_run(s, pos + 1, end, acc * 10 + (ds[0] - 48), t);
    }
}

/// A decimal numeral followed by `end` reads back as its number.
proof fn lemma_parse_digits_decimal(s: Seq<u8>, pos: int, end: u8, n: nat)
    requires
        occurs_at(s, pos, decimal(n) + seq![end]),
        !is_digit(end),
    ensures
        parse_digits(s, pos, end, 0) == Some((n as int, pos + decimal(n).len() + 1)),
{
    lemma_occurs_split(s, pos, decimal(n), seq![end]);
    lemma_occurs_index(s, pos + decimal(n).len(), seq![end], 0);
    lemma_decimal_digits(n);
    lemma_parse_digits_run(s, pos, end, 0, decimal(n));
    lemma_fold_decimal(n);
}

/// The text of an integer, followed by `e`, reads back as the integer.
proof fn lemma_parse_signed_text(s: Seq<u8>, pos: int, i: i64)
    requires
        occurs_at(s, pos, int_text(i as int) + seq![101u8]),
    ensures
        parse_signed_at(s, pos) == Some((i, pos + int_text(i as int).len() + 1)),
{
    if i < 0 {
        let n = (-(i as int)) as nat;
        let t = decimal(n) + seq![101u8];
        assert(int_text(i as int) + seq![101u8] =~= seq![45u8] + t);
        lemma_occurs_split(s, pos, seq![45u8], t);
        lemma_occurs_index(s, pos, seq![45u8], 0);
        lemma_parse_digits_decimal(s, pos + 1, 101u8, n);
    } else {
        lemma_decimal_digits(i as nat);
        lemma_occurs_index(s, pos, int_text(i as int) + seq![101u8], 0);
        assert((int_text(i as int) + seq![101u8])[0] == decimal(i as nat)[0]);
        lemma_parse_int_decimal(s, pos, 101u8, i as nat);
    }
}

/// A decimal numeral that fits an `i64`, followed by `end`, reads back as its number.
pub proof fn lemma_parse_int_decimal(s: Seq<u8>, pos: int, end: u8, n: nat)
    requires
        n <= i64::MAX,
        occurs_at(s, pos, decimal(n) + seq![end]),
        !is_digit(end),
    ensures
        parse_int_at(s, pos, end) == Some((n as i64, pos + decimal(n).len() + 1)),
{
    lemma_occurs_split(s, pos, decimal(n), seq![end]);
    lemma_occurs_index(s, pos + decimal(n).len(), seq![end], 0);
    lemma_decimal_digits(n);
    lemma_parse_digits_run(s, pos, end, 0, decimal(n));
    lemma_fold_decimal(n);
}

proof fn lemma_parse_bytes_encoded(s: Seq<u8>, pos: int, b: Seq<u8>)
    requires
        b.len() <= i64::MAX,
        occurs_at(s, pos, decimal(b.len()) + seq![58u8] + b),
    ensures
        parse_bytes(s, pos) == Some((b, pos + (decimal(b.len()) + seq![58u8] + b).len())),
{
    let num = decimal(b.len());
    lemma_occurs_split(s, pos, num + seq![58u8], b);
    lemma_parse_int_decimal(s, pos, 58u8, b.len());
    let p = pos + num.len() + 1;
    assert(s.subrange(p, p + b.len()) == b);
}

/// Decoding reads back a well-formed value from its encoding, at any position
/// of any input that holds the encoding there.
pub proof fn lemma_parse_encoded(s: Seq<u8>, pos: int, v: BValue)
    requires
        value_wf(v),
        occurs_at(s, pos, encode(v)),
    ensures
        parse_item(s, pos) == Some((v, pos + encode(v).len())),
    decreases v, 0nat,
{
    match v {
        BValue::Bytes(b) => {
            lemma_decimal_digits(b.len());
            lemma_occurs_index(s, pos, encode(v), 0);
            assert(encode(v)[0] == decimal(b.len())[0]);
            lemma_parse_bytes_encoded(s, pos, b);
        },
        BValue::Int(i) => {
            let e = seq![105u8] + (int_text(i as int) + seq![101u8]);
            assert(encode(v) =~= e);
            lemma_occurs_index(s, pos, e, 0);
            lemma_occurs_split(s, pos, seq![105u8], int_text(i as int) + seq![101u8]);
            lemma_parse_signed_text(s, pos + 1, i);
        },
        BValue::List(l) => {
            let e = seq![108u8] + (encode_list(l) + seq![101u8]);
            assert(encode(v) =~= e);
            lemma_occurs_index(s, pos, e, 0);
            lemma_occurs_split(s, pos, seq![108u8], encode_list(l) + seq![101u8]);
            lemma_parse_list_encoded(s, pos + 1, Seq::empty(), l);
            assert(Seq::<BValue>::empty() + l =~= l);
        },
        BValue::Dict(d) => {
            let e = seq![100u8] + (encode_dict(d) + seq![101u8]);
            assert(encode(v) =~= e);
            lemma_occurs_index(s, pos, e, 0);
            lemma_occurs_split(s, pos, seq![100u8], encode_dict(d) + seq![101u8]);
            lemma_parse_dict_encoded(s, pos + 1, Seq::empty(), d);
            assert(Seq::<(Seq<u8>, BValue)>::empty() + d =~= d);
        },
    }
}

proof fn lemma_parse_list_encoded(s: Seq<u8>, pos: int, acc: Seq<BValue>, l: Seq<BValue>)
    requires
        forall|i: int| 0 <= i < l.len() ==> value_wf(#[trigger] l[i]),
        occurs_at(s, pos, encode_list(l) + seq![101u8]),
    ensures
        parse_list(s, pos, acc) == Some((BValue::List(acc + l), pos + encode_list(l).len() + 1)),
    decreases l, 1nat,
{
    if l.len() == 0 {
        assert(encode_list(l) =~= Seq::<u8>::empty());
        lemma_occurs_index(s, pos, encode_list(l) + seq![101u8], 0);
        assert(acc + l =~= acc);
    } else {
        let t = l.subrange(1, l.len() as int);
        let e0 = encode(l[0]);
        assert(encode_list(l) + seq![101u8] =~= e0 + (encode_list(t) + seq![101u8]));
        lemma_occurs_split(s, pos, e0, encode_list(t) + seq![101u8]);
        assert(value_wf(l[0]));
        lemma_parse_encoded(s, pos, l[0]);
        lemma_encoding_nonempty(l[0]);
        assert(e0[0] != 101u8) by {
            lemma_encoding_first_byte(l[0]);
        }
        lemma_occurs_index(s, pos, e0, 0);
        assert forall|i: int| 0 <= i < t.len() implies value_wf(#[trigger] t[i]) by {
            assert(t[i] == l[i + 1]);
        }
        lemma_parse_list_encoded(s, pos + e0.len(), acc.push(l[0]), t);
        assert(acc.push(l[0]) + t =~= acc + l);
    }
}

proof fn lemma_parse_dict_encoded(s: Seq<u8>, pos: int, acc: Seq<(Seq<u8>, BValue)>, d: Seq<(Seq<u8>, BValue)>)
    requires
        keys_sorted(acc + d),
        forall|i: int| 0 <= i < d.len() ==> (#[trigger] d[i]).0.len() <= i64::MAX && value_wf(d[i].1),
        occurs_at(s, pos, encode_dict(d) + seq![101u8]),
    ensures
        parse_dict(s, pos, acc) == Some((BValue::Dict(acc + d), pos + encode_dict(d).len() + 1)),
    decreases d, 1nat,
{
    if d.len() == 0 {
        assert(encode_dict(d) =~= Seq::<u8>::empty());
        lemma_occurs_index(s, pos, encode_dict(d) + seq![101u8], 0);
        assert(acc + d =~= acc);
    } else {
        let t = d.subrange(1, d.len() as int);
        let k = d[0].0;
        let ke = decimal(k.len()) + seq![58u8] + k;
        let ve = encode(d[0].1);
        assert(encode_dict(d) + seq![101u8] =~= ke + (ve + (encode_dict(t) + seq![101u8])));
        lemma_occurs_split(s, pos, ke, ve + (encode_dict(t) + seq![101u8]));
        lemma_occurs_split(s, pos + ke.len(), ve, encode_dict(t) + seq![101u8]);
        lemma_parse_bytes_encoded(s, pos, k);
        lemma_decimal_digits(k.len());
        lemma_occurs_index(s, pos, ke, 0);
        assert(ke[0] == decimal(k.len())[0]);
        assert(value_wf(d[0].1));
        lemma_parse_encoded(s, pos + ke.len(), d[0].1);
        lemma_encoding_nonempty(d[0].1);
        let ad = acc + d;
        assert forall|j: int| 0 <= j < acc.len() implies lex_lt(#[trigger] acc[j].0, k) by {
            assert(ad[j] == acc[j]);
            assert(ad[acc.len() as int] == d[0]);
        }
        lemma_dict_insert_last(acc, k, d[0].1);
        let acc2 = acc.push((k, d[0].1));
        assert(acc2 + t =~= ad);
        assert forall|i: int| 0 <= i < t.len() implies (#[trigger] t[i]).0.len() <= i64::MAX && value_wf(t[i].1) by {
            assert(t[i] == d[i + 1]);
        }
        lemma_parse_dict_encoded(s, pos + ke.len() + ve.len(), acc2, t);
    }
}

/// Every encoding has at least one byte.
pub proof fn lemma_encoding_nonempty(v: BValue)
    ensures
        encode(v).len() >= 1,
{
    match v {
        BValue::Bytes(b) => {
            lemma_decimal_digits(b.len());
        },
        _ => {},
    }
}

/// An encoding starts with `i`, `l`, `d` or a digit: never with `e`.
pub proof fn lemma_encoding_first_byte(v: BValue)
    ensures
        encode(v).len() >= 1,
        encode(v)[0] != 101u8,
{
    lemma_encoding_nonempty(v);
    match v {
        BValue::Bytes(b) => {
            lemma_decimal_digits(b.len());
            assert(encode(v)[0] == decimal(b.len())[0]);
        },
        _ => {},
    }
}

/// Decoding the encoding of a well-formed value gives the value back, having
/// read the whole encoding.
pub proof fn lemma_decode_encode(v: BValue)
    requires
        value_wf(v),
    ensures
        parse_item(encode(v), 0) == Some((v, encode(v).len() as int)),
{
    let e = encode(v);
    assert(e.subrange(0, e.len() as int) =~= e);
    lemma_parse_encoded(e, 0, v);
}


/// Decoding reads back any value whose dictionaries are sorted (as those of
/// every `BItem` are) and whose byte strings fit an `i64` length, wherever
/// its encoding stands and whatever follows it.
pub proof fn lemma_roundtrip_at(x: Seq<u8>, v: BValue, rest: Seq<u8>)
    requires
        dicts_sorted(v),
        lengths_fit(v),
    ensures
        parse_item(x + encode(v) + rest, x.len() as int) == Some((v, (x.len() + encode(v).len()) as int)),
{
    lemma_value_wf_parts(v);
    let s = x + encode(v) + rest;
    assert(s.subrange(x.len() as int, x.len() + encode(v).len() as int) =~= encode(v));
    lemma_parse_encoded(s, x.len() as int, v);
}

/// Two such values with the same encoding are the same value.
pub proof fn lemma_encode_injective(v1: BValue, v2: BValue)
    requires
        dicts_sorted(v1),
        lengths_fit(v1),
        dicts_sorted(v2),
        lengths_fit(v2),
        encode(v1) == encode(v2),
    ensures
        v1 == v2,
{
    lemma_value_wf_parts(v1);
    lemma_value_wf_parts(v2);
    lemma_decode_encode(v1);
    lemma_decode_encode(v2);
}

// ----- what the decoder produces -----

proof fn lemma_parse_bytes_short(s: Seq<u8>, pos: int)
    ensures
        parse_bytes(s, pos) matches Some((b, p)) ==> b.len() <= i64::MAX && pos < p <= s.len(),
{
    lemma_parse_digits_monotone(s, pos, 58u8, 0);
}

/// Every value the decoder produces is well-formed: its byte strings fit
/// an `i64` length and its dictionary keys are strictly increasing.
pub proof fn lemma_parse_wf(s: Seq<u8>, pos: int)
    ensures
        parse_item(s, pos) matches Some((v, p)) ==> value_wf(v) && pos < p <= s.len(),
    decreases s.len() - pos, 0nat,
{
    if 0 <= pos < s.len() {
        if s[pos] == 105u8 {
            lemma_parse_digits_monotone(s, pos + 1, 101u8, 0);
            lemma_parse_digits_monotone(s, pos + 2, 101u8, 0);
        } else if s[pos] == 108u8 {
            lemma_parse_list_wf(s, pos + 1, Seq::empty());
        } else if s[pos] == 100u8 {
            lemma_parse_dict_wf(s, pos + 1, Seq::empty());
        } else {
            lemma_parse_bytes_short(s, pos);
        }
    }
}

proof fn lemma_parse_list_wf(s: Seq<u8>, pos: int, acc: Seq<BValue>)
    requires
        forall|i: int| 0 <= i < acc.len() ==> value_wf(#[trigger] acc[i]),
    ensures
        parse_list(s, pos, acc) matches Some((v, p)) ==> value_wf(v) && pos < p <= s.len(),
    decreases s.len() - pos, 1nat,
{
    if 0 <= pos < s.len() && s[pos] != 101u8 {
        lemma_parse_wf(s, pos);
        if let Some((v, p)) = parse_item(s, pos) {
            if pos < p <= s.len() {
                let acc2 = acc.push(v);
                assert forall|i: int| 0 <= i < acc2.len() implies value_wf(#[trigger] acc2[i]) by {
                    if i < acc.len() {
                        assert(acc2[i] == acc[i]);
                    }
                }
                lemma_parse_list_wf(s, p, acc2);
            }
        }
    }
}

proof fn lemma_parse_dict_wf(s: Seq<u8>, pos: int, acc: Seq<(Seq<u8>, BValue)>)
    requires
        keys_sorted(acc),
        forall|i: int| 0 <= i < acc.len() ==> (#[trigger] acc[i]).0.len() <= i64::MAX && value_wf(acc[i].1),
    ensures
        parse_dict(s, pos, acc) matches Some((v, p)) ==> value_wf(v) && pos < p <= s.len(),
    decreases s.len() - pos, 1nat,
{
    if 0 <= pos < s.len() && s[pos] != 101u8 {
        lemma_parse_bytes_short(s, pos);
        if let Some((k, p1)) = parse_bytes(s, pos) {
            if pos < p1 <= s.len() {
                lemma_parse_wf(s, p1);
                if let Some((v, p2)) = parse_item(s, p1) {
                    if p1 < p2 <= s.len() {
                        let acc2 = dict_insert(acc, k, v);
                        lemma_dict_insert_sorted(acc, k, v);
                        lemma_insertion_index(acc, k);
                        let i = insertion_index(acc, k);
                        assert forall|j: int| 0 <= j < acc2.len() implies (#[trigger] acc2[j]).0.len() <= i64::MAX
                            && value_wf(acc2[j].1) by {
                            if i < acc.len() && acc[i].0 == k {
                                if j != i {
                                    assert(acc2[j] == acc[j]);
                                }
                            } else {
                                if j < i {
                                    assert(acc2[j] == acc[j]);
                                } else if j > i {
                                    assert(acc2[j] == acc[j - 1]);
                                }
                            }
                        }
                        lemma_parse_dict_wf(s, p2, acc2);
                    }
                }
            }
        }
    } else if 0 <= pos < s.len() {
        let v = BValue::Dict(acc);
        assert(value_wf(v));
    }
}

/// Encoding a decoded value and decoding again gives the same value.
pub proof fn lemma_reencode(s: Seq<u8>)
    ensures
        parse_item(s, 0) matches Some((v, _)) ==> parse_item(encode(v), 0) == Some((v, encode(v).len() as int)),
{
    lemma_parse_wf(s, 0);
    if let Some((v, _)) = parse_item(s, 0) {
        lemma_decode_encode(v);
    }
}


// ----- the decoder reads no further than the value -----

/// `s` and `t` hold the same first `n` bytes.
pub open spec fn agree(s: Seq<u8>, t: Seq<u8>, n: int) -> bool {
    0 <= n <= s.len() && n <= t.len() && forall|i: int| 0 <= i < n ==> s[i] == t[i]
}

proof fn lemma_digits_prefix(s: Seq<u8>, t: Seq<u8>, pos: int, end: u8, acc: int)
    requires
        acc >= 0,
    ensures
        parse_digits(s, pos, end, acc) matches Some((v, p)) ==> (agree(s, t, p) ==> parse_digits(t, pos, end, acc) == Some(
            (v, p),
        )),
    decreases s.len() - pos,
{
    if 0 <= pos < s.len() && s[pos] != end && is_digit(s[pos]) {
        lemma_digits_prefix(s, t, pos + 1, end, acc * 10 + (s[pos] - 48));
        if let Some((v, p)) = parse_digits(s, pos, end, acc) {
            if agree(s, t, p) {
                lemma_parse_digits_monotone(s, pos + 1, end, acc * 10 + (s[pos] - 48));
                assert(s[pos] == t[pos]);
            }
        }
    } else if 0 <= pos < s.len() {
        if let Some((v, p)) = parse_digits(s, pos, end, acc) {
            if agree(s, t, p) {
                assert(s[pos] == t[pos]);
            }
        }
    }
}

proof fn lemma_signed_prefix(s: Seq<u8>, t: Seq<u8>, pos: int)
    ensures
        parse_signed_at(s, pos) matches Some((v, p)) ==> (agree(s, t, p) ==> parse_signed_at(t, pos) == Some((v, p))),
{
    if 0 <= pos < s.len() && s[pos] == 45u8 {
        lemma_digits_prefix(s, t, pos + 1, 101u8, 0);
        lemma_parse_digits_monotone(s, pos + 1, 101u8, 0);
        if let Some((v, p)) = parse_signed_at(s, pos) {
            if agree(s, t, p) {
                assert(t[pos] == s[pos]);
            }
        }
    } else {
        lemma_digits_prefix(s, t, pos, 101u8, 0);
        lemma_parse_digits_monotone(s, pos, 101u8, 0);
        if let Some((v, p)) = parse_signed_at(s, pos) {
            if agree(s, t, p) {
                assert(t[pos] == s[pos]);
            }
        }
    }
}

proof fn lemma_bytes_prefix(s: Seq<u8>, t: Seq<u8>, pos: int)
    ensures
        parse_bytes(s, pos) matches Some((b, p)) ==> (agree(s, t, p) ==> parse_bytes(t, pos) == Some((b, p))),
{
    lemma_digits_prefix(s, t, pos, 58u8, 0);
    lemma_parse_digits_monotone(s, pos, 58u8, 0);
    if let Some((b, p)) = parse_bytes(s, pos) {
        if agree(s, t, p) {
            let (n, q) = parse_int_at(s, pos, 58u8).unwrap();
            assert(s.subrange(q, q + n) =~= t.subrange(q, q + n));
        }
    }
}

/// The value read at `pos` depends only on the bytes up to its end.
pub proof fn lemma_parse_prefix(s: Seq<u8>, t: Seq<u8>, pos: int)
    ensures
        parse_item(s, pos) matches Some((v, p)) ==> (agree(s, t, p) ==> parse_item(t, pos) == Some((v, p))),
    decreases s.len() - pos, 0nat,
{
    lemma_parse_wf(s, pos);
    if 0 <= pos < s.len() {
        if let Some((v, p)) = parse_item(s, pos) {
            if agree(s, t, p) {
                assert(s[pos] == t[pos]);
            }
        }
        if s[pos] == 105u8 {
            lemma_signed_prefix(s, t, pos + 1);
        } else if s[pos] == 108u8 {
            lemma_list_prefix(s, t, pos + 1, Seq::empty());
        } else if s[pos] == 100u8 {
            lemma_dict_prefix(s, t, pos + 1, Seq::empty());
        } else {
            lemma_bytes_prefix(s, t, pos);
        }
    }
}

proof fn lemma_list_prefix(s: Seq<u8>, t: Seq<u8>, pos: int, acc: Seq<BValue>)
    ensures
        parse_list(s, pos, acc) matches Some((v, p)) ==> (agree(s, t, p) ==> parse_list(t, pos, acc) == Some((v, p))),
    decreases s.len() - pos, 1nat,
{
    if 0 <= pos < s.len() {
        if let Some((v, p)) = parse_list(s, pos, acc) {
            if agree(s, t, p) {
                lemma_list_end(s, pos, acc);
                assert(s[pos] == t[pos]);
            }
        }
        if s[pos] != 101u8 {
            lemma_parse_prefix(s, t, pos);
            if let Some((v, p)) = parse_item(s, pos) {
                if pos < p <= s.len() {
                    lemma_list_prefix(s, t, p, acc.push(v));
                    lemma_list_end(s, p, acc.push(v));
                }
            }
        }
    }
}

proof fn lemma_dict_prefix(s: Seq<u8>, t: Seq<u8>, pos: int, acc: Seq<(Seq<u8>, BValue)>)
    ensures
        parse_dict(s, pos, acc) matches Some((v, p)) ==> (agree(s, t, p) ==> parse_dict(t, pos, acc) == Some((v, p))),
    decreases s.len() - pos, 1nat,
{
    if 0 <= pos < s.len() {
        if let Some((v, p)) = parse_dict(s, pos, acc) {
            if agree(s, t, p) {
                lemma_dict_end(s, pos, acc);
                assert(s[pos] == t[pos]);
            }
        }
        if s[pos] != 101u8 {
            lemma_bytes_prefix(s, t, pos);
            if let Some((k, p1)) = parse_bytes(s, pos) {
                if pos < p1 <= s.len() {
                    lemma_parse_prefix(s, t, p1);
                    if let Some((v, p2)) = parse_item(s, p1) {
                        if p1 < p2 <= s.len() {
                            lemma_dict_prefix(s, t, p2, dict_insert(acc, k, v));
                            lemma_dict_end(s, p2, dict_insert(acc, k, v));
                        }
                    }
                }
            }
        }
    }
}

/// The rest of a list ends after where it starts.
proof fn lemma_list_end(s: Seq<u8>, pos: int, acc: Seq<BValue>)
    ensures
        parse_list(s, pos, acc) matches Some((v, p)) ==> pos < p <= s.len(),
    decreases s.len() - pos,
{
    if 0 <= pos < s.len() && s[pos] != 101u8 {
        if let Some((v, p)) = parse_item(s, pos) {
            if pos < p <= s.len() {
                lemma_list_end(s, p, acc.push(v));
            }
        }
    }
}

/// The rest of a dictionary ends after where it starts.
proof fn lemma_dict_end(s: Seq<u8>, pos: int, acc: Seq<(Seq<u8>, BValue)>)
    ensures
        parse_dict(s, pos, acc) matches Some((v, p)) ==> pos < p <= s.len(),
    decreases s.len() - pos,
{
    if 0 <= pos < s.len() && s[pos] != 101u8 {
        if let Some((k, p1)) = parse_bytes(s, pos) {
            if pos < p1 <= s.len() {
                if let Some((v, p2)) = parse_item(s, p1) {
                    if p1 < p2 <= s.len() {
                        lemma_dict_end(s, p2, dict_insert(acc, k, v));
                    }
                }
            }
        }
    }
}

/// Bytes after a decoded value do not change what is decoded.
pub proof fn lemma_decode_ignores_rest(s: Seq<u8>, t: Seq<u8>)
    ensures
        parse_item(s, 0) is Some ==> parse_item(s + t, 0) == parse_item(s, 0),
{
    lemma_parse_wf(s, 0);
    if let Some((v, p)) = parse_item(s, 0) {
        assert(agree(s, s + t, p));
        lemma_parse_prefix(s, s + t, 0);
    }
}

} // verus!
