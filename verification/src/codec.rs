use vstd::prelude::*;

verus! {

use crate::link::MessageLink;
use crate::error::Error;

// ---------------------------------------------------------------------------
// The wire format.
//
// A descriptor is stored as a single JSON object with three fields, in this
// fixed order and without any whitespace:
//
//   {"original_chat_id":C,"original_tread_id":T,"original_message_id":M}
//
// where C and M are decimal integers (C possibly negative), and T is either a
// decimal integer or the literal `null`. The encoder below produces exactly
// this shape and the decoder accepts exactly this shape, so the two are
// mutual inverses.
// ---------------------------------------------------------------------------

/// Decimal digits of `n`, most significant first, as ASCII bytes.
pub open spec fn dec_digits(n: nat) -> Seq<u8>
    decreases n,
{
    if n < 10 {
        seq![(48 + n) as u8]
    } else {
        dec_digits(n / 10).push((48 + n % 10) as u8)
    }
}

/// The canonical decimal token for an integer: digits, with a leading `-`
/// for negative values.
pub open spec fn enc_int(v: int) -> Seq<u8> {
    if v < 0 {
        seq![45u8].add(dec_digits((-v) as nat))
    } else {
        dec_digits(v as nat)
    }
}

/// `{"original_chat_id":`
pub open spec fn lit_chat() -> Seq<u8> {
    seq![123u8, 34u8, 111u8, 114u8, 105u8, 103u8, 105u8, 110u8, 97u8, 108u8, 95u8, 99u8, 104u8, 97u8, 116u8, 95u8, 105u8, 100u8, 34u8, 58u8]
}

/// `,"original_tread_id":`
pub open spec fn lit_tread() -> Seq<u8> {
    seq![44u8, 34u8, 111u8, 114u8, 105u8, 103u8, 105u8, 110u8, 97u8, 108u8, 95u8, 116u8, 114u8, 101u8, 97u8, 100u8, 95u8, 105u8, 100u8, 34u8, 58u8]
}

/// `,"original_message_id":`
pub open spec fn lit_msg() -> Seq<u8> {
    seq![44u8, 34u8, 111u8, 114u8, 105u8, 103u8, 105u8, 110u8, 97u8, 108u8, 95u8, 109u8, 101u8, 115u8, 115u8, 97u8, 103u8, 101u8, 95u8, 105u8, 100u8, 34u8, 58u8]
}

/// `null`
pub open spec fn lit_null() -> Seq<u8> {
    seq![110u8, 117u8, 108u8, 108u8]
}

/// The token written for the thread field.
pub open spec fn enc_tread(t: Option<i32>) -> Seq<u8> {
    match t {
        None => lit_null(),
        Some(v) => enc_int(v as int),
    }
}

/// The full encoding of a descriptor.
pub open spec fn spec_encode(l: MessageLink) -> Seq<u8> {
    lit_chat().add(enc_int(l.original_chat_id as int)).add(lit_tread()).add(
        enc_tread(l.original_tread_id),
    ).add(lit_msg()).add(enc_int(l.original_message_id as int)).add(seq![125u8])
}

/// The mathematical inverse of `spec_encode`: the descriptor a byte string
/// encodes, if it encodes one.
pub open spec fn spec_decode(s: Seq<u8>) -> Option<MessageLink> {
    if exists|l: MessageLink| s == spec_encode(l) {
        Some(choose|l: MessageLink| s == spec_encode(l))
    } else {
        None
    }
}

// ---------------------------------------------------------------------------
// Facts about decimal tokens.
// ---------------------------------------------------------------------------

/// An ASCII decimal digit.
spec fn is_digit(b: u8) -> bool {
    48 <= b <= 57
}

/// Every byte of `s` is a decimal digit.
spec fn all_digits(s: Seq<u8>) -> bool {
    forall|i: int| 0 <= i < s.len() ==> is_digit(#[trigger] s[i])
}

/// The value of a digit string, most significant digit first.
spec fn rev_val(s: Seq<u8>) -> int
    decreases s.len(),
{
    if s.len() == 0 {
        0
    } else {
        rev_val(s.drop_last()) * 10 + (s.last() - 48)
    }
}

/// `dec_digits(n)` is a non-empty digit string without a leading zero
/// (except for `n == 0`), and its value is `n`.
proof fn lemma_dec_digits_props(n: nat)
    ensures
        dec_digits(n).len() >= 1,
        all_digits(dec_digits(n)),
        n >= 1 ==> dec_digits(n)[0] != 48,
        n == 0 ==> dec_digits(n) == seq![48u8],
        rev_val(dec_digits(n)) == n,
    decreases n,
{
    if n < 10 {
        let s = dec_digits(n);
        assert(s == seq![(48 + n) as u8]);
        assert(s.drop_last() =~= Seq::<u8>::empty());
        assert(rev_val(Seq::<u8>::empty()) == 0);
        assert(s.last() == (48 + n) as u8);
        assert((48 + n) as u8 == 48 + n);
        assert(rev_val(s) == rev_val(s.drop_last()) * 10 + (s.last() - 48));
    } else {
        lemma_dec_digits_props(n / 10);
        let s = dec_digits(n);
        let p = dec_digits(n / 10);
        let d = (48 + n % 10) as u8;
        assert(s == p.push(d));
        assert(s.drop_last() =~= p);
        assert(s.last() == d);
        assert forall|i: int| 0 <= i < s.len() implies is_digit(#[trigger] s[i]) by {
            if i < p.len() {
                assert(s[i] == p[i]);
            } else {
                assert(s[i] == d);
            }
        }
        assert(s[0] == p[0]);
        assert(rev_val(s) == rev_val(p) * 10 + (d - 48));
        assert((n / 10) * 10 + n % 10 == n);
    }
}

/// A digit string's value is never negative.
proof fn lemma_rev_val_nonneg(s: Seq<u8>)
    requires
        all_digits(s),
    ensures
        rev_val(s) >= 0,
    decreases s.len(),
{
    if s.len() > 0 {
        let p = s.drop_last();
        assert(forall|i: int| 0 <= i < p.len() ==> p[i] == s[i]);
        lemma_rev_val_nonneg(p);
        assert(is_digit(s.last()));
    }
}

/// A non-empty digit string without a leading zero (unless it is the single
/// digit `0`) is the canonical digit string of its own value.
proof fn lemma_digits_to_dec(s: Seq<u8>)
    requires
        s.len() >= 1,
        all_digits(s),
        s.len() > 1 ==> s[0] != 48,
    ensures
        rev_val(s) >= 0,
        s == dec_digits(rev_val(s) as nat),
        s[0] != 48 ==> rev_val(s) >= 1,
    decreases s.len(),
{
    lemma_rev_val_nonneg(s);
    if s.len() == 1 {
        let v = rev_val(s);
        assert(s.drop_last() =~= Seq::<u8>::empty());
        assert(rev_val(Seq::<u8>::empty()) == 0);
        assert(s.last() == s[0]);
        assert(v == rev_val(s.drop_last()) * 10 + (s.last() - 48));
        assert(v == s[0] - 48);
        assert(is_digit(s[0]));
        assert(dec_digits(v as nat) == seq![(48 + v as nat) as u8]);
        assert(s =~= dec_digits(v as nat));
    } else {
        let p = s.drop_last();
        assert(forall|i: int| 0 <= i < p.len() ==> p[i] == s[i]);
        assert(p[0] == s[0]);
        lemma_digits_to_dec(p);
        let q = rev_val(p);
        assert(q >= 1);
        let d = s.last() - 48;
        assert(is_digit(s.last()));
        let v = rev_val(s);
        assert(v == q * 10 + d);
        assert(v >= 10);
        assert(v / 10 == q && v % 10 == d) by {
            assert(q * 10 + d == v);
            assert(0 <= d < 10);
        }
        assert(dec_digits(v as nat) == dec_digits((v / 10) as nat).push((48 + (v as nat) % 10) as u8));
        assert(dec_digits((v / 10) as nat) == p);
        assert((48 + (v as nat) % 10) as u8 == s.last());
        assert(s =~= p.push(s.last()));
    }
}

/// A digit string's value only grows as more digits are read.
proof fn lemma_rev_val_prefix_mono(s: Seq<u8>, i: int)
    requires
        all_digits(s),
        0 <= i <= s.len(),
    ensures
        rev_val(s.subrange(0, i)) <= rev_val(s),
    decreases s.len() - i,
{
    if i == s.len() {
        assert(s.subrange(0, i) =~= s);
    } else {
        let a = s.subrange(0, i);
        let b = s.subrange(0, i + 1);
        assert(b.drop_last() =~= a);
        assert(b.last() == s[i]);
        assert(forall|j: int| 0 <= j < a.len() ==> a[j] == s[j]);
        lemma_rev_val_nonneg(a);
        assert(is_digit(s[i]));
        assert(rev_val(b) == rev_val(a) * 10 + (s[i] - 48));
        assert(rev_val(a) <= rev_val(b));
        lemma_rev_val_prefix_mono(s, i + 1);
    }
}

/// Shape of a canonical integer token: a digit string for non-negative
/// values, a `-` followed by a digit string for negative ones.
proof fn lemma_enc_int_shape(v: int)
    ensures
        enc_int(v).len() >= 1,
        v >= 0 ==> enc_int(v) == dec_digits(v as nat) && all_digits(enc_int(v)) && (v >= 1
            ==> enc_int(v)[0] != 48) && (v == 0 ==> enc_int(v)[0] == 48) && rev_val(enc_int(v)) == v,
        v < 0 ==> enc_int(v).len() >= 2 && enc_int(v)[0] == 45 && enc_int(v).subrange(
            1,
            enc_int(v).len() as int,
        ) == dec_digits((-v) as nat) && enc_int(v)[1] != 48,
{
    if v >= 0 {
        lemma_dec_digits_props(v as nat);
    } else {
        lemma_dec_digits_props((-v) as nat);
        let m = dec_digits((-v) as nat);
        let s = enc_int(v);
        assert(s == seq![45u8].add(m));
        assert(s[0] == 45);
        assert(s.subrange(1, s.len() as int) =~= m);
        assert(s[1] == m[0]);
    }
}

/// Distinct integers have distinct canonical tokens.
proof fn lemma_enc_int_inj(v1: int, v2: int)
    requires
        enc_int(v1) == enc_int(v2),
    ensures
        v1 == v2,
{
    lemma_enc_int_shape(v1);
    lemma_enc_int_shape(v2);
    if v1 >= 0 && v2 >= 0 {
        assert(rev_val(enc_int(v1)) == rev_val(enc_int(v2)));
    } else if v1 < 0 && v2 < 0 {
        let s = enc_int(v1);
        assert(s.subrange(1, s.len() as int) == dec_digits((-v1) as nat));
        assert(s.subrange(1, s.len() as int) == dec_digits((-v2) as nat));
        lemma_dec_digits_props((-v1) as nat);
        lemma_dec_digits_props((-v2) as nat);
        assert(rev_val(dec_digits((-v1) as nat)) == rev_val(dec_digits((-v2) as nat)));
    } else if v1 >= 0 && v2 < 0 {
        assert(is_digit(enc_int(v1)[0]));
        assert(enc_int(v2)[0] == 45);
    } else {
        assert(is_digit(enc_int(v2)[0]));
        assert(enc_int(v1)[0] == 45);
    }
}

/// Where each part of a full encoding sits: the three literal field labels,
/// the three value tokens, and the closing brace.
pub proof fn lemma_encode_parts(l: MessageLink)
    ensures
        ({
            let t = spec_encode(l);
            let alen = enc_int(l.original_chat_id as int).len() as int;
            let blen = enc_tread(l.original_tread_id).len() as int;
            let clen = enc_int(l.original_message_id as int).len() as int;
            &&& alen >= 1
            &&& blen >= 1
            &&& clen >= 1
            &&& t.len() == 65 + alen + blen + clen
            &&& t.subrange(0, 20) == lit_chat()
            &&& t.subrange(20, 20 + alen) == enc_int(l.original_chat_id as int)
            &&& t.subrange(20 + alen, 41 + alen) == lit_tread()
            &&& t.subrange(41 + alen, 41 + alen + blen) == enc_tread(l.original_tread_id)
            &&& t.subrange(41 + alen + blen, 64 + alen + blen) == lit_msg()
            &&& t.subrange(64 + alen + blen, 64 + alen + blen + clen) == enc_int(
                l.original_message_id as int,
            )
            &&& t[t.len() - 1] == 125
            &&& t[20 + alen] == 44
            &&& t[41 + alen + blen] == 44
        }),
{
    let t = spec_encode(l);
    let a = enc_int(l.original_chat_id as int);
    let b = enc_tread(l.original_tread_id);
    let c = enc_int(l.original_message_id as int);
    let alen = a.len() as int;
    let blen = b.len() as int;
    let clen = c.len() as int;
    lemma_enc_int_shape(l.original_chat_id as int);
    lemma_enc_int_shape(l.original_message_id as int);
    match l.original_tread_id {
        None => {
            assert(b == lit_null());
        },
        Some(v) => {
            lemma_enc_int_shape(v as int);
        },
    }
    assert(t.len() == 65 + alen + blen + clen);
    assert(t.subrange(0, 20) =~= lit_chat());
    assert(t.subrange(20, 20 + alen) =~= a);
    assert(t.subrange(20 + alen, 41 + alen) =~= lit_tread());
    assert(t.subrange(41 + alen, 41 + alen + blen) =~= b);
    assert(t.subrange(41 + alen + blen, 64 + alen + blen) =~= lit_msg());
    assert(t.subrange(64 + alen + blen, 64 + alen + blen + clen) =~= c);
    assert(t[t.len() - 1] == 125);
    assert(t[20 + alen] == t.subrange(20 + alen, 41 + alen)[0]);
    assert(t[41 + alen + blen] == t.subrange(41 + alen + blen, 64 + alen + blen)[0]);
}

/// Rebuilding an encoding from its parts: a byte string laid out exactly as
/// the wire format prescribes is the encoding of the descriptor it carries.
proof fn lemma_parts_to_encode(s: Seq<u8>, l: MessageLink, p1: int, p3: int)
    requires
        20 < p1,
        p1 + 21 <= p3,
        p3 + 24 <= s.len(),
        s.subrange(0, 20) == lit_chat(),
        s.subrange(20, p1) == enc_int(l.original_chat_id as int),
        s.subrange(p1, p1 + 21) == lit_tread(),
        s.subrange(p1 + 21, p3) == enc_tread(l.original_tread_id),
        s.subrange(p3, p3 + 23) == lit_msg(),
        s.subrange(p3 + 23, s.len() - 1) == enc_int(l.original_message_id as int),
        s[s.len() - 1] == 125,
    ensures
        s == spec_encode(l),
{
    let t = spec_encode(l);
    let a = enc_int(l.original_chat_id as int);
    let b = enc_tread(l.original_tread_id);
    let c = enc_int(l.original_message_id as int);
    let alen = a.len() as int;
    let blen = b.len() as int;
    let clen = c.len() as int;
    lemma_encode_parts(l);
    assert(alen == p1 - 20);
    assert(blen == p3 - (p1 + 21));
    assert(clen == s.len() - 1 - (p3 + 23));
    assert(t.len() == s.len());
    assert forall|i: int| 0 <= i < s.len() implies s[i] == t[i] by {
        if i < 20 {
            assert(s.subrange(0, 20)[i] == s[i]);
            assert(t.subrange(0, 20)[i] == t[i]);
        } else if i < p1 {
            assert(s.subrange(20, p1)[i - 20] == s[i]);
            assert(t.subrange(20, 20 + alen)[i - 20] == t[i]);
        } else if i < p1 + 21 {
            assert(s.subrange(p1, p1 + 21)[i - p1] == s[i]);
            assert(t.subrange(20 + alen, 41 + alen)[i - p1] == t[i]);
        } else if i < p3 {
            assert(s.subrange(p1 + 21, p3)[i - (p1 + 21)] == s[i]);
            assert(t.subrange(41 + alen, 41 + alen + blen)[i - (p1 + 21)] == t[i]);
        } else if i < p3 + 23 {
            assert(s.subrange(p3, p3 + 23)[i - p3] == s[i]);
            assert(t.subrange(41 + alen + blen, 64 + alen + blen)[i - p3] == t[i]);
        } else if i < s.len() - 1 {
            assert(s.subrange(p3 + 23, s.len() - 1)[i - (p3 + 23)] == s[i]);
            assert(t.subrange(64 + alen + blen, 64 + alen + blen + clen)[i - (p3 + 23)] == t[i]);
        } else {
            assert(t[t.len() - 1] == 125);
        }
    }
    assert(s =~= t);
}

/// A canonical integer token and its end are determined by where the
/// following non-digit byte sits: two tokens read at the same position and
/// both delimited by a non-digit (or the end of input) are the same token.
proof fn lemma_token_end_unique(s: Seq<u8>, from: int, e1: int, e2: int, v1: int, v2: int)
    requires
        0 <= from,
        from < e1 <= s.len(),
        from < e2 <= s.len(),
        s.subrange(from, e1) == enc_int(v1),
        s.subrange(from, e2) == enc_int(v2),
        e1 == s.len() || !is_digit(s[e1]),
        e2 == s.len() || !is_digit(s[e2]),
    ensures
        e1 == e2,
        v1 == v2,
{
    lemma_enc_int_shape(v1);
    lemma_enc_int_shape(v2);
    if e1 < e2 {
        let t2 = s.subrange(from, e2);
        let i = e1 - from;
        assert(t2[i] == s[e1]);
        assert(!is_digit(s[e1]));
        assert(i >= 1);
        if v2 >= 0 {
            assert(is_digit(t2[i]));
        } else {
            assert(t2.subrange(1, t2.len() as int)[i - 1] == t2[i]);
            assert(all_digits(dec_digits((-v2) as nat))) by { lemma_dec_digits_props((-v2) as nat); }
            assert(is_digit(t2[i]));
        }
        assert(false);
    } else if e2 < e1 {
        let t1 = s.subrange(from, e1);
        let i = e2 - from;
        assert(t1[i] == s[e2]);
        assert(!is_digit(s[e2]));
        assert(i >= 1);
        if v1 >= 0 {
            assert(is_digit(t1[i]));
        } else {
            assert(t1.subrange(1, t1.len() as int)[i - 1] == t1[i]);
            assert(all_digits(dec_digits((-v1) as nat))) by { lemma_dec_digits_props((-v1) as nat); }
            assert(is_digit(t1[i]));
        }
        assert(false);
    }
    assert(e1 == e2);
    assert(s.subrange(from, e1) == s.subrange(from, e2));
    lemma_enc_int_inj(v1, v2);
}

// ---------------------------------------------------------------------------
// Encoding.
// ---------------------------------------------------------------------------

/// Appends the decimal digits of `n` to `out`.
fn push_dec(n: u64, out: &mut Vec<u8>)
    ensures
        final(out)@ == old(out)@ + dec_digits(n as nat),
    decreases n,
{
    if n < 10 {
        out.push((48 + n) as u8);
        assert(final(out)@ =~= old(out)@ + dec_digits(n as nat));
    } else {
        push_dec(n / 10, out);
        out.push((48 + (n % 10)) as u8);
        assert(final(out)@ =~= old(out)@ + dec_digits(n as nat));
    }
}

/// Appends the canonical decimal token of `v` to `out`.
fn push_int(v: i64, out: &mut Vec<u8>)
    ensures
        final(out)@ == old(out)@ + enc_int(v as int),
{
    if v < 0 {
        let w: i128 = v as i128;
        let m: u64 = (-w) as u64;
        assert(m == -(v as int));
        out.push(45u8);
        push_dec(m, out);
        assert(final(out)@ =~= old(out)@ + enc_int(v as int));
    } else {
        push_dec(v as u64, out);
    }
}

/// Serializes a descriptor into its wire form.
///
/// Encoding never fails: every descriptor has exactly one wire form.
pub fn encode_link(l: &MessageLink) -> (r: Vec<u8>)
    ensures
        r@ == spec_encode(*l),
{
    let mut out: Vec<u8> = Vec::new();
    push_lit_chat(&mut out);
    push_int(l.original_chat_id, &mut out);
    push_lit_tread(&mut out);
    match l.original_tread_id {
        None => {
            out.push(110u8);
            out.push(117u8);
            out.push(108u8);
            out.push(108u8);
        },
        Some(t) => {
            push_int(t as i64, &mut out);
            assert(enc_int((t as i64) as int) == enc_tread(l.original_tread_id));
        },
    }
    push_lit_msg(&mut out);
    push_int(l.original_message_id as i64, &mut out);
    out.push(125u8);
    assert(out@ =~= spec_encode(*l));
    out
}

fn push_lit_chat(out: &mut Vec<u8>)
    ensures
        final(out)@ == old(out)@ + lit_chat(),
{
    out.push(123u8);
    out.push(34u8);
    out.push(111u8);
    out.push(114u8);
    out.push(105u8);
    out.push(103u8);
    out.push(105u8);
    out.push(110u8);
    out.push(97u8);
    out.push(108u8);
    out.push(95u8);
    out.push(99u8);
    out.push(104u8);
    out.push(97u8);
    out.push(116u8);
    out.push(95u8);
    out.push(105u8);
    out.push(100u8);
    out.push(34u8);
    out.push(58u8);
    assert(final(out)@ =~= old(out)@ + lit_chat());
}

fn push_lit_tread(out: &mut Vec<u8>)
    ensures
        final(out)@ == old(out)@ + lit_tread(),
{
    out.push(44u8);
    out.push(34u8);
    out.push(111u8);
    out.push(114u8);
    out.push(105u8);
    out.push(103u8);
    out.push(105u8);
    out.push(110u8);
    out.push(97u8);
    out.push(108u8);
    out.push(95u8);
    out.push(116u8);
    out.push(114u8);
    out.push(101u8);
    out.push(97u8);
    out.push(100u8);
    out.push(95u8);
    out.push(105u8);
    out.push(100u8);
    out.push(34u8);
    out.push(58u8);
    assert(final(out)@ =~= old(out)@ + lit_tread());
}

fn push_lit_msg(out: &mut Vec<u8>)
    ensures
        final(out)@ == old(out)@ + lit_msg(),
{
    out.push(44u8);
    out.push(34u8);
    out.push(111u8);
    out.push(114u8);
    out.push(105u8);
    out.push(103u8);
    out.push(105u8);
    out.push(110u8);
    out.push(97u8);
    out.push(108u8);
    out.push(95u8);
    out.push(109u8);
    out.push(101u8);
    out.push(115u8);
    out.push(115u8);
    out.push(97u8);
    out.push(103u8);
    out.push(101u8);
    out.push(95u8);
    out.push(105u8);
    out.push(100u8);
    out.push(34u8);
    out.push(58u8);
    assert(final(out)@ =~= old(out)@ + lit_msg());
}

// ---------------------------------------------------------------------------
// Decoding.
// ---------------------------------------------------------------------------

fn lit_chat_vec() -> (v: Vec<u8>)
    ensures
        v@ == lit_chat(),
{
    let mut v: Vec<u8> = Vec::new();
    push_lit_chat(&mut v);
    assert(v@ =~= lit_chat());
    v
}

fn lit_tread_vec() -> (v: Vec<u8>)
    ensures
        v@ == lit_tread(),
{
    let mut v: Vec<u8> = Vec::new();
    push_lit_tread(&mut v);
    assert(v@ =~= lit_tread());
    v
}

fn lit_msg_vec() -> (v: Vec<u8>)
    ensures
        v@ == lit_msg(),
{
    let mut v: Vec<u8> = Vec::new();
    push_lit_msg(&mut v);
    assert(v@ =~= lit_msg());
    v
}

fn lit_null_vec() -> (v: Vec<u8>)
    ensures
        v@ == lit_null(),
{
    let mut v: Vec<u8> = Vec::new();
    v.push(110u8);
    v.push(117u8);
    v.push(108u8);
    v.push(108u8);
    assert(v@ =~= lit_null());
    v
}

/// Does `s` hold exactly the bytes of `pat` starting at `from`?
fn eq_range(s: &Vec<u8>, from: usize, pat: &Vec<u8>) -> (r: bool)
    requires
        from <= s@.len(),
    ensures
        r <==> (from + pat@.len() <= s@.len() && s@.subrange(
            from as int,
            from + pat@.len(),
        ) == pat@),
{
    let n = pat.len();
    if s.len() - from < n {
        return false;
    }
    let mut j: usize = 0;
    while j < n
        invariant
            j <= n,
            from + n <= s@.len(),
            s@.len() <= usize::MAX,
            n == pat@.len(),
            forall|t: int| 0 <= t < j ==> s@[from + t] == pat@[t],
        decreases n - j,
    {
        if s[from + j] != pat[j] {
            proof {
                assert(s@.subrange(from as int, from + pat@.len())[j as int] == s@[from + j]);
            }
            return false;
        }
        j += 1;
    }
    proof {
        assert(s@.subrange(from as int, from + pat@.len()) =~= pat@);
    }
    true
}

/// Reads a canonical integer token starting at `from` and running up to the
/// first non-digit byte. Returns the value and the position one past the
/// token, or `None` if no canonical token so delimited starts at `from`.
fn parse_int_prefix(s: &Vec<u8>, from: usize) -> (r: Option<(i64, usize)>)
    requires
        from <= s@.len(),
    ensures
        match r {
            Some(p) => from < p.1 <= s@.len() && s@.subrange(from as int, p.1 as int) == enc_int(
                p.0 as int,
            ) && (p.1 == s@.len() || !is_digit(s@[p.1 as int])),
            None => forall|v: i64, end: int|
                from < end <= s@.len() && (end == s@.len() || !is_digit(s@[end]))
                    ==> s@.subrange(from as int, end) != enc_int(v as int),
        },
{
    let len = s.len();
    if from == len {
        return None;
    }
    let neg = s[from] == 45;
    let d0 = if neg { from + 1 } else { from };
    if d0 == len {
        proof {
            assert forall|v: i64, end: int|
                from < end <= s@.len() && (end == s@.len() || !is_digit(s@[end])) implies s@.subrange(
                from as int,
                end,
            ) != enc_int(v as int) by {
                if s@.subrange(from as int, end) == enc_int(v as int) {
                    lemma_enc_int_shape(v as int);
                    let t = s@.subrange(from as int, end);
                    assert(end == from + 1);
                    assert(t.len() == 1);
                    assert(t[0] == s@[from as int] == 45);
                    if v >= 0 {
                        assert(is_digit(t[0]));
                    }
                    assert(false);
                }
            }
        }
        return None;
    }
    let c0 = s[d0];
    if c0 < 48 || c0 > 57 {
        proof {
            assert forall|v: i64, end: int|
                from < end <= s@.len() && (end == s@.len() || !is_digit(s@[end])) implies s@.subrange(
                from as int,
                end,
            ) != enc_int(v as int) by {
                if s@.subrange(from as int, end) == enc_int(v as int) {
                    lemma_enc_int_shape(v as int);
                    let t = s@.subrange(from as int, end);
                    if neg {
                        assert(t[0] == 45);
                        if v >= 0 {
                            assert(is_digit(t[0]));
                            assert(false);
                        }
                        assert(t.len() >= 2);
                        assert(end - from >= 2);
                        assert(t[1] == s@[d0 as int]);
                        assert(t.subrange(1, t.len() as int)[0] == t[1]);
                        assert(all_digits(dec_digits((-(v as int)) as nat))) by {
                            lemma_dec_digits_props((-(v as int)) as nat);
                        }
                        assert(is_digit(t[1]));
                        assert(false);
                    } else {
                        assert(t[0] == s@[from as int]);
                        assert(s@[from as int] != 45);
                        if v < 0 {
                            assert(t[0] == 45);
                            assert(false);
                        }
                        assert(is_digit(t[0]));
                        assert(false);
                    }
                }
            }
        }
        return None;
    }
    if c0 == 48 {
        // A token starting with `0` is exactly the single digit `0`.
        if neg {
            proof {
                assert forall|v: i64, end: int|
                    from < end <= s@.len() && (end == s@.len() || !is_digit(s@[end]))
                        implies s@.subrange(from as int, end) != enc_int(v as int) by {
                    if s@.subrange(from as int, end) == enc_int(v as int) {
                        lemma_enc_int_shape(v as int);
                        let t = s@.subrange(from as int, end);
                        assert(t[0] == s@[from as int] == 45);
                        if v >= 0 {
                            assert(is_digit(t[0]));
                            assert(false);
                        }
                        assert(t.len() >= 2);
                        assert(t[1] == s@[d0 as int] == 48);
                        assert(enc_int(v as int)[1] != 48);
                        assert(false);
                    }
                }
            }
            return None;
        }
        if d0 + 1 < len && 48 <= s[d0 + 1] && s[d0 + 1] <= 57 {
            proof {
                assert forall|v: i64, end: int|
                    from < end <= s@.len() && (end == s@.len() || !is_digit(s@[end]))
                        implies s@.subrange(from as int, end) != enc_int(v as int) by {
                    if s@.subrange(from as int, end) == enc_int(v as int) {
                        lemma_enc_int_shape(v as int);
                        let t = s@.subrange(from as int, end);
                        assert(t[0] == s@[from as int] == 48);
                        if v < 0 {
                            assert(t[0] == 45);
                            assert(false);
                        }
                        if v >= 1 {
                            assert(t[0] != 48);
                            assert(false);
                        }
                        // v == 0: the token is the single digit `0`, so the
                        // delimiter right after it would be a digit.
                        assert(enc_int(v as int) == seq![48u8]) by {
                            lemma_dec_digits_props(0);
                        }
                        assert(end == from + 1);
                        assert(end < s@.len());
                        assert(is_digit(s@[end]));
                        assert(false);
                    }
                }
            }
            return None;
        }
        proof {
            assert(enc_int(0int) == seq![48u8]) by {
                lemma_dec_digits_props(0);
            }
            assert(s@.subrange(from as int, (d0 + 1) as int) =~= seq![48u8]);
        }
        return Some((0i64, d0 + 1));
    }
    // Scan the digit run.
    let mut i: usize = d0;
    while i < len && 48 <= s[i] && s[i] <= 57
        invariant
            d0 <= i <= len,
            len == s@.len(),
            forall|j: int| d0 <= j < i ==> is_digit(#[trigger] s@[j]),
        decreases len - i,
    {
        i += 1;
    }
    let runend = i;
    assert(runend == len || !is_digit(s@[runend as int]));
    assert(runend > d0) by {
        assert(is_digit(s@[d0 as int]));
    }
    // Fold the run into a value, guarding against overflow.
    let bound: u64 = if neg { 9223372036854775808u64 } else { 9223372036854775807u64 };
    let ghost run = s@.subrange(d0 as int, runend as int);
    proof {
        assert(forall|j: int| 0 <= j < run.len() ==> run[j] == s@[d0 + j]);
        assert(all_digits(run));
    }
    let mut val: u64 = 0;
    let mut k: usize = d0;
    while k < runend
        invariant
            d0 <= k <= runend <= len,
            len == s@.len(),
            d0 < runend,
            run == s@.subrange(d0 as int, runend as int),
            all_digits(run),
            runend == len || !is_digit(s@[runend as int]),
            forall|j: int| d0 <= j < runend ==> is_digit(#[trigger] s@[j]),
            s@[d0 as int] != 48,
            neg ==> from + 1 == d0 && s@[from as int] == 45,
            !neg ==> from == d0,
            bound == if neg { 9223372036854775808u64 } else { 9223372036854775807u64 },
            val == rev_val(s@.subrange(d0 as int, k as int)),
            val <= bound,
        decreases runend - k,
    {
        let c = s[k];
        let d: u64 = (c - 48) as u64;
        let nv: u128 = (val as u128) * 10 + (d as u128);
        proof {
            let a = s@.subrange(d0 as int, k as int);
            let b = s@.subrange(d0 as int, (k + 1) as int);
            assert(b.drop_last() =~= a);
            assert(b.last() == s@[k as int]);
            assert(rev_val(b) == rev_val(a) * 10 + (s@[k as int] - 48));
            assert(nv == rev_val(b));
        }
        if nv > bound as u128 {
            proof {
                assert forall|v: i64, end: int|
                    from < end <= s@.len() && (end == s@.len() || !is_digit(s@[end]))
                        implies s@.subrange(from as int, end) != enc_int(v as int) by {
                    if s@.subrange(from as int, end) == enc_int(v as int) {
                        lemma_enc_int_shape(v as int);
                        let t = s@.subrange(from as int, end);
                        // The token must end exactly at the end of the digit run.
                        assert(end == runend) by {
                            if end < runend {
                                assert(end >= d0);
                                assert(is_digit(s@[end]));
                                assert(false);
                            }
                            if end > runend {
                                assert(runend < s@.len());
                                assert(!is_digit(s@[runend as int]));
                                let ti = runend - from;
                                assert(t[ti] == s@[runend as int]);
                                assert(ti >= 1);
                                if v >= 0 {
                                    assert(is_digit(t[ti]));
                                } else {
                                    assert(t.subrange(1, t.len() as int)[ti - 1] == t[ti]);
                                    assert(all_digits(dec_digits((-(v as int)) as nat))) by {
                                        lemma_dec_digits_props((-(v as int)) as nat);
                                    }
                                    assert(is_digit(t[ti]));
                                }
                                assert(false);
                            }
                        }
                        // So the digit run is the canonical digit string of
                        // the magnitude, whose value fits under the bound.
                        let mag: nat = if v < 0 { (-(v as int)) as nat } else { (v as int) as nat };
                        assert(run == dec_digits(mag)) by {
                            if v >= 0 {
                                assert(!neg) by {
                                    if neg {
                                        assert(t[0] == s@[from as int] == 45);
                                        assert(is_digit(t[0]));
                                    }
                                }
                                assert(run =~= t);
                            } else {
                                assert(neg) by {
                                    if !neg {
                                        assert(t[0] == s@[from as int]);
                                        assert(is_digit(s@[from as int]));
                                        assert(t[0] == 45);
                                    }
                                }
                                assert(run =~= t.subrange(1, t.len() as int));
                            }
                        }
                        assert(rev_val(run) == mag) by {
                            lemma_dec_digits_props(mag);
                        }
                        assert(mag <= bound) by {
                            if v >= 0 {
                                assert(!neg);
                            } else {
                                assert(neg);
                            }
                        }
                        let b2 = s@.subrange(d0 as int, (k + 1) as int);
                        assert(b2 =~= run.subrange(0, k + 1 - d0));
                        lemma_rev_val_prefix_mono(run, k + 1 - d0);
                        assert(rev_val(b2) <= rev_val(run));
                        assert(false);
                    }
                }
            }
            return None;
        }
        val = nv as u64;
        k += 1;
    }
    proof {
        lemma_digits_to_dec(run);
        assert(run == dec_digits(val as nat));
        assert(val >= 1);
    }
    if neg {
        let v: i64 = if val == 9223372036854775808u64 {
            i64::MIN
        } else {
            -(val as i64)
        };
        proof {
            assert((-(v as int)) as nat == val as nat);
            assert(enc_int(v as int) == seq![45u8].add(dec_digits(val as nat)));
            assert(s@.subrange(from as int, runend as int) =~= seq![45u8].add(run));
        }
        Some((v, runend))
    } else {
        let v: i64 = val as i64;
        proof {
            assert(enc_int(v as int) == dec_digits(val as nat));
            assert(s@.subrange(from as int, runend as int) =~= run);
        }
        Some((v, runend))
    }
}


/// Inside a full encoding, a delimited integer token read at position 20 is
/// the chat-id token.
proof fn lemma_force_chat(s: Seq<u8>, l: MessageLink, p1: int, chatv: i64)
    requires
        s == spec_encode(l),
        20 < p1 <= s.len(),
        s.subrange(20, p1) == enc_int(chatv as int),
        p1 == s.len() || !is_digit(s[p1]),
    ensures
        p1 == 20 + enc_int(l.original_chat_id as int).len(),
        chatv == l.original_chat_id,
{
    lemma_encode_parts(l);
    let alen = enc_int(l.original_chat_id as int).len() as int;
    assert(s[20 + alen] == 44);
    lemma_token_end_unique(s, 20, p1, 20 + alen, chatv as int, l.original_chat_id as int);
}

/// A `null` literal and an integer token cannot start at the same place.
proof fn lemma_null_not_int(s: Seq<u8>, p2: int, e: int, t: int)
    requires
        0 <= p2,
        p2 + 4 <= s.len(),
        p2 < e <= s.len(),
        s.subrange(p2, p2 + 4) == lit_null(),
    ensures
        s.subrange(p2, e) != enc_int(t),
{
    lemma_enc_int_shape(t);
    assert(s[p2] == s.subrange(p2, p2 + 4)[0]);
    assert(s[p2] == 110);
    if s.subrange(p2, e) == enc_int(t) {
        assert(s[p2] == s.subrange(p2, e)[0]);
        if t >= 0 {
            assert(is_digit(enc_int(t)[0]));
        } else {
            assert(enc_int(t)[0] == 45);
        }
    }
}

/// Inside a full encoding whose thread-field token starts at `p2`, a literal
/// `null` there means the descriptor has no thread id.
proof fn lemma_force_null(s: Seq<u8>, l: MessageLink, p2: int)
    requires
        s == spec_encode(l),
        p2 == 41 + enc_int(l.original_chat_id as int).len(),
        p2 + 4 <= s.len(),
        s.subrange(p2, p2 + 4) == lit_null(),
    ensures
        l.original_tread_id == None::<i32>,
{
    lemma_encode_parts(l);
    match l.original_tread_id {
        None => {},
        Some(t) => {
            let blen = enc_int(t as int).len() as int;
            assert(s.subrange(p2, p2 + blen) == enc_int(t as int));
            lemma_enc_int_shape(t as int);
            lemma_null_not_int(s, p2, p2 + blen, t as int);
        },
    }
}

/// Inside a full encoding, a delimited integer token read where the
/// thread-field token starts is that token.
proof fn lemma_force_tread(s: Seq<u8>, l: MessageLink, p2: int, p3: int, tv: i64)
    requires
        s == spec_encode(l),
        p2 == 41 + enc_int(l.original_chat_id as int).len(),
        p2 < p3 <= s.len(),
        s.subrange(p2, p3) == enc_int(tv as int),
        p3 == s.len() || !is_digit(s[p3]),
    ensures
        -2147483648 <= tv <= 2147483647,
        l.original_tread_id == Some(tv as i32),
        p3 == p2 + enc_tread(l.original_tread_id).len(),
{
    lemma_encode_parts(l);
    let alen = enc_int(l.original_chat_id as int).len() as int;
    let blen = enc_tread(l.original_tread_id).len() as int;
    match l.original_tread_id {
        None => {
            assert(s.subrange(p2, p2 + 4) == lit_null());
            lemma_null_not_int(s, p2, p3, tv as int);
        },
        Some(t) => {
            assert(s[41 + alen + blen] == 44);
            assert(s.subrange(p2, p2 + blen) == enc_int(t as int));
            lemma_token_end_unique(s, p2, p3, p2 + blen, tv as int, t as int);
        },
    }
}

/// Inside a full encoding, a delimited integer token read where the
/// message-id token starts is that token, and it runs up to the closing
/// brace.
proof fn lemma_force_msg(s: Seq<u8>, l: MessageLink, p4: int, p5: int, mv: i64)
    requires
        s == spec_encode(l),
        p4 == 64 + enc_int(l.original_chat_id as int).len() + enc_tread(l.original_tread_id).len(),
        p4 < p5 <= s.len(),
        s.subrange(p4, p5) == enc_int(mv as int),
        p5 == s.len() || !is_digit(s[p5]),
    ensures
        mv == l.original_message_id,
        p5 == s.len() - 1,
{
    lemma_encode_parts(l);
    let clen = enc_int(l.original_message_id as int).len() as int;
    assert(s[s.len() - 1] == 125);
    assert(p4 + clen == s.len() - 1);
    lemma_token_end_unique(s, p4, p5, p4 + clen, mv as int, l.original_message_id as int);
}

/// Distinct descriptors have distinct encodings: the wire form pins the
/// origin down completely.
#[verifier::rlimit(100)]
pub proof fn lemma_spec_encode_inj(l1: MessageLink, l2: MessageLink)
    requires
        spec_encode(l1) == spec_encode(l2),
    ensures
        l1 == l2,
{
    let s = spec_encode(l1);
    lemma_encode_parts(l1);
    lemma_encode_parts(l2);
    let a1 = enc_int(l1.original_chat_id as int).len() as int;
    let a2 = enc_int(l2.original_chat_id as int).len() as int;
    assert(s[20 + a1] == 44);
    assert(s[20 + a2] == 44);
    lemma_token_end_unique(
        s,
        20,
        20 + a1,
        20 + a2,
        l1.original_chat_id as int,
        l2.original_chat_id as int,
    );
    assert(a1 == a2);
    assert(l1.original_chat_id == l2.original_chat_id);
    let p2 = 41 + a1;
    let b1 = enc_tread(l1.original_tread_id).len() as int;
    let b2 = enc_tread(l2.original_tread_id).len() as int;
    match (l1.original_tread_id, l2.original_tread_id) {
        (None, None) => {
            assert(b1 == b2);
        },
        (None, Some(t2)) => {
            assert(s.subrange(p2, p2 + 4) == lit_null());
            assert(s.subrange(p2, p2 + b2) == enc_int(t2 as int));
            lemma_null_not_int(s, p2, p2 + b2, t2 as int);
        },
        (Some(t1), None) => {
            assert(s.subrange(p2, p2 + 4) == lit_null());
            assert(s.subrange(p2, p2 + b1) == enc_int(t1 as int));
            lemma_null_not_int(s, p2, p2 + b1, t1 as int);
        },
        (Some(t1), Some(t2)) => {
            assert(s[41 + a1 + b1] == 44);
            assert(s[41 + a2 + b2] == 44);
            assert(s.subrange(p2, p2 + b1) == enc_int(t1 as int));
            assert(s.subrange(p2, p2 + b2) == enc_int(t2 as int));
            lemma_token_end_unique(s, p2, p2 + b1, p2 + b2, t1 as int, t2 as int);
            assert(t1 == t2);
        },
    }
    assert(b1 == b2);
    let p4 = 64 + a1 + b1;
    let c1 = enc_int(l1.original_message_id as int).len() as int;
    let c2 = enc_int(l2.original_message_id as int).len() as int;
    assert(c1 == s.len() - 1 - p4);
    assert(c2 == s.len() - 1 - p4);
    assert(s.subrange(p4, p4 + c1) == enc_int(l1.original_message_id as int));
    assert(s.subrange(p4, p4 + c2) == enc_int(l2.original_message_id as int));
    lemma_enc_int_inj(l1.original_message_id as int, l2.original_message_id as int);
}

/// Round trip: decoding an encoding yields the descriptor that was encoded.
pub proof fn lemma_decode_inverts_encode(l: MessageLink)
    ensures
        spec_decode(spec_encode(l)) == Some(l),
{
    let s = spec_encode(l);
    assert(exists|x: MessageLink| s == spec_encode(x)) by {
        assert(s == spec_encode(l));
    }
    let w = choose|x: MessageLink| s == spec_encode(x);
    lemma_spec_encode_inj(w, l);
}

/// No encoding starts otherwise than with the chat-id label.
proof fn lemma_no_enc_bad_prefix(s: Seq<u8>)
    requires
        !(20 <= s.len() && s.subrange(0, 20) == lit_chat()),
    ensures
        forall|l: MessageLink| s != spec_encode(l),
{
    assert forall|l: MessageLink| s != spec_encode(l) by {
        if s == spec_encode(l) {
            lemma_encode_parts(l);
            assert(s.subrange(0, 20) == lit_chat());
            assert(false);
        }
    }
}

/// No encoding lacks a delimited integer token at position 20.
proof fn lemma_no_enc_bad_chat(s: Seq<u8>)
    requires
        20 <= s.len(),
        forall|v: i64, end: int|
            20 < end <= s.len() && (end == s.len() || !is_digit(s[end])) ==> s.subrange(20, end)
                != enc_int(v as int),
    ensures
        forall|l: MessageLink| s != spec_encode(l),
{
    assert forall|l: MessageLink| s != spec_encode(l) by {
        if s == spec_encode(l) {
            lemma_encode_parts(l);
            let alen = enc_int(l.original_chat_id as int).len() as int;
            assert(s[20 + alen] == 44);
            assert(s.subrange(20, 20 + alen) == enc_int(l.original_chat_id as int));
            assert(false);
        }
    }
}

/// No encoding lacks the thread label right after the chat-id token.
proof fn lemma_no_enc_bad_tread_label(s: Seq<u8>, p1: int, chatv: i64)
    requires
        20 < p1 <= s.len(),
        s.subrange(20, p1) == enc_int(chatv as int),
        p1 == s.len() || !is_digit(s[p1]),
        !(p1 + 21 <= s.len() && s.subrange(p1, p1 + 21) == lit_tread()),
    ensures
        forall|l: MessageLink| s != spec_encode(l),
{
    assert forall|l: MessageLink| s != spec_encode(l) by {
        if s == spec_encode(l) {
            lemma_force_chat(s, l, p1, chatv);
            lemma_encode_parts(l);
            let alen = enc_int(l.original_chat_id as int).len() as int;
            assert(s.subrange(20 + alen, 41 + alen) == lit_tread());
            assert(false);
        }
    }
}

/// No encoding has a thread field that is neither `null` nor a delimited
/// integer token.
proof fn lemma_no_enc_bad_tread(s: Seq<u8>, p1: int, chatv: i64)
    requires
        20 < p1,
        p1 + 21 <= s.len(),
        s.subrange(20, p1) == enc_int(chatv as int),
        p1 == s.len() || !is_digit(s[p1]),
        !(p1 + 25 <= s.len() && s.subrange(p1 + 21, p1 + 25) == lit_null()),
        forall|v: i64, end: int|
            p1 + 21 < end <= s.len() && (end == s.len() || !is_digit(s[end])) ==> s.subrange(
                p1 + 21,
                end,
            ) != enc_int(v as int),
    ensures
        forall|l: MessageLink| s != spec_encode(l),
{
    assert forall|l: MessageLink| s != spec_encode(l) by {
        if s == spec_encode(l) {
            lemma_force_chat(s, l, p1, chatv);
            lemma_encode_parts(l);
            let alen = enc_int(l.original_chat_id as int).len() as int;
            let blen = enc_tread(l.original_tread_id).len() as int;
            let p2 = 41 + alen;
            match l.original_tread_id {
                None => {
                    assert(s.subrange(p2, p2 + 4) == lit_null());
                    assert(false);
                },
                Some(t) => {
                    assert(s[41 + alen + blen] == 44);
                    assert(s.subrange(p2, p2 + blen) == enc_int(t as int));
                    assert(false);
                },
            }
        }
    }
}

/// No encoding carries a thread id outside the transport's id range.
proof fn lemma_no_enc_tread_range(s: Seq<u8>, p1: int, p3: int, chatv: i64, tv: i64)
    requires
        20 < p1,
        p1 + 21 < p3 <= s.len(),
        s.subrange(20, p1) == enc_int(chatv as int),
        p1 == s.len() || !is_digit(s[p1]),
        s.subrange(p1 + 21, p3) == enc_int(tv as int),
        p3 == s.len() || !is_digit(s[p3]),
        !(-2147483648 <= tv <= 2147483647),
    ensures
        forall|l: MessageLink| s != spec_encode(l),
{
    assert forall|l: MessageLink| s != spec_encode(l) by {
        if s == spec_encode(l) {
            lemma_force_chat(s, l, p1, chatv);
            lemma_force_tread(s, l, p1 + 21, p3, tv);
            assert(false);
        }
    }
}

/// The thread-field facts the decoder has gathered once it passed that
/// field: either a literal `null` sat there, or a delimited integer token in
/// range ended at `p3`.
spec fn tread_branch(s: Seq<u8>, p2: int, p3: int, tread: Option<i32>) -> bool {
    match tread {
        None => p3 == p2 + 4 && p2 + 4 <= s.len() && s.subrange(p2, p2 + 4) == lit_null(),
        Some(t) => p2 < p3 <= s.len() && s.subrange(p2, p3) == enc_int(t as int) && (p3 == s.len()
            || !is_digit(s[p3])),
    }
}

/// With the thread field read, the descriptor's thread id is forced.
proof fn lemma_force_branch(s: Seq<u8>, l: MessageLink, p1: int, p3: int, tread: Option<i32>)
    requires
        s == spec_encode(l),
        p1 == 20 + enc_int(l.original_chat_id as int).len(),
        tread_branch(s, p1 + 21, p3, tread),
    ensures
        l.original_tread_id == tread,
        p3 == 41 + enc_int(l.original_chat_id as int).len() + enc_tread(l.original_tread_id).len(),
{
    lemma_encode_parts(l);
    match tread {
        None => {
            lemma_force_null(s, l, p1 + 21);
        },
        Some(t) => {
            lemma_force_tread(s, l, p1 + 21, p3, t as i64);
        },
    }
}

/// No encoding lacks the message label right after the thread field.
proof fn lemma_no_enc_bad_msg_label(
    s: Seq<u8>,
    p1: int,
    p3: int,
    chatv: i64,
    tread: Option<i32>,
)
    requires
        20 < p1 <= s.len(),
        s.subrange(20, p1) == enc_int(chatv as int),
        p1 == s.len() || !is_digit(s[p1]),
        tread_branch(s, p1 + 21, p3, tread),
        !(p3 + 23 <= s.len() && s.subrange(p3, p3 + 23) == lit_msg()),
    ensures
        forall|l: MessageLink| s != spec_encode(l),
{
    assert forall|l: MessageLink| s != spec_encode(l) by {
        if s == spec_encode(l) {
            lemma_force_chat(s, l, p1, chatv);
            lemma_force_branch(s, l, p1, p3, tread);
            lemma_encode_parts(l);
            let alen = enc_int(l.original_chat_id as int).len() as int;
            let blen = enc_tread(l.original_tread_id).len() as int;
            assert(s.subrange(41 + alen + blen, 64 + alen + blen) == lit_msg());
            assert(false);
        }
    }
}

/// No encoding lacks a delimited integer token after the message label.
proof fn lemma_no_enc_bad_msg(s: Seq<u8>, p1: int, p3: int, chatv: i64, tread: Option<i32>)
    requires
        20 < p1 <= s.len(),
        s.subrange(20, p1) == enc_int(chatv as int),
        p1 == s.len() || !is_digit(s[p1]),
        tread_branch(s, p1 + 21, p3, tread),
        p3 + 23 <= s.len(),
        s.subrange(p3, p3 + 23) == lit_msg(),
        forall|v: i64, end: int|
            p3 + 23 < end <= s.len() && (end == s.len() || !is_digit(s[end])) ==> s.subrange(
                p3 + 23,
                end,
            ) != enc_int(v as int),
    ensures
        forall|l: MessageLink| s != spec_encode(l),
{
    assert forall|l: MessageLink| s != spec_encode(l) by {
        if s == spec_encode(l) {
            lemma_force_chat(s, l, p1, chatv);
            lemma_force_branch(s, l, p1, p3, tread);
            lemma_encode_parts(l);
            let alen = enc_int(l.original_chat_id as int).len() as int;
            let blen = enc_tread(l.original_tread_id).len() as int;
            let clen = enc_int(l.original_message_id as int).len() as int;
            assert(p3 + 23 == 64 + alen + blen);
            assert(s[64 + alen + blen + clen] == 125);
            assert(s.subrange(p3 + 23, p3 + 23 + clen) == enc_int(l.original_message_id as int));
            assert(false);
        }
    }
}

/// No encoding has a message id out of range, bytes past the closing brace,
/// or anything but a closing brace after the message-id token.
proof fn lemma_no_enc_bad_tail(
    s: Seq<u8>,
    p1: int,
    p3: int,
    p5: int,
    chatv: i64,
    tread: Option<i32>,
    mv: i64,
)
    requires
        20 < p1 <= s.len(),
        s.subrange(20, p1) == enc_int(chatv as int),
        p1 == s.len() || !is_digit(s[p1]),
        tread_branch(s, p1 + 21, p3, tread),
        p3 + 23 < p5 <= s.len(),
        s.subrange(p3 + 23, p5) == enc_int(mv as int),
        p5 == s.len() || !is_digit(s[p5]),
        !(-2147483648 <= mv <= 2147483647 && p5 + 1 == s.len() && s[p5] == 125),
    ensures
        forall|l: MessageLink| s != spec_encode(l),
{
    assert forall|l: MessageLink| s != spec_encode(l) by {
        if s == spec_encode(l) {
            lemma_force_chat(s, l, p1, chatv);
            lemma_force_branch(s, l, p1, p3, tread);
            let alen = enc_int(l.original_chat_id as int).len() as int;
            let blen = enc_tread(l.original_tread_id).len() as int;
            lemma_force_msg(s, l, p3 + 23, p5, mv);
            lemma_encode_parts(l);
            assert(mv == l.original_message_id);
            assert(p5 == s.len() - 1);
            assert(s[p5] == 125);
            assert(false);
        }
    }
}

/// Parses a stored value back into a descriptor.
///
/// Succeeds exactly on byte strings produced by `encode_link`; anything else
/// is malformed and surfaces a deserialization failure.
pub fn decode_link(s: &Vec<u8>) -> (r: Result<MessageLink, Error>)
    ensures
        match r {
            Ok(l) => s@ == spec_encode(l) && spec_decode(s@) == Some(l),
            Err(e) => e == Error::DeserializationError && spec_decode(s@) == None::<MessageLink>,
        },
{
    let slen = s.len();
    proof {
        assert(s@.len() <= usize::MAX);
    }
    let lc = lit_chat_vec();
    let lt = lit_tread_vec();
    let lm = lit_msg_vec();
    let ln = lit_null_vec();
    if !eq_range(s, 0, &lc) {
        proof {
            lemma_no_enc_bad_prefix(s@);
        }
        return Err(Error::DeserializationError);
    }
    let pr = parse_int_prefix(s, 20);
    let (chatv, p1) = match pr {
        None => {
            proof {
                lemma_no_enc_bad_chat(s@);
            }
            return Err(Error::DeserializationError);
        },
        Some(x) => x,
    };
    if !eq_range(s, p1, &lt) {
        proof {
            assert(lit_tread().len() == 21);
            lemma_no_enc_bad_tread_label(s@, p1 as int, chatv);
        }
        return Err(Error::DeserializationError);
    }
    proof {
        assert(lit_tread().len() == 21);
        assert(p1 + 21 <= s@.len());
    }
    let p2 = p1 + 21;
    let (tread, p3): (Option<i32>, usize) = if eq_range(s, p2, &ln) {
        proof {
            assert(lit_null().len() == 4);
            assert(p2 + 4 <= s@.len());
            assert(s@.subrange(p2 as int, p2 + 4) == enc_tread(None::<i32>));
        }
        (None, p2 + 4)
    } else {
        let pr2 = parse_int_prefix(s, p2);
        let (tv, p3x) = match pr2 {
            None => {
                proof {
                    assert(lit_null().len() == 4);
                    lemma_no_enc_bad_tread(s@, p1 as int, chatv);
                }
                return Err(Error::DeserializationError);
            },
            Some(x) => x,
        };
        if tv < -2147483648i64 || tv > 2147483647i64 {
            proof {
                lemma_no_enc_tread_range(s@, p1 as int, p3x as int, chatv, tv);
            }
            return Err(Error::DeserializationError);
        }
        proof {
            assert(enc_tread(Some(tv as i32)) == enc_int(tv as int));
        }
        (Some(tv as i32), p3x)
    };
    proof {
        assert(tread_branch(s@, p2 as int, p3 as int, tread));
    }
    if !eq_range(s, p3, &lm) {
        proof {
            assert(lit_msg().len() == 23);
            lemma_no_enc_bad_msg_label(s@, p1 as int, p3 as int, chatv, tread);
        }
        return Err(Error::DeserializationError);
    }
    proof {
        assert(lit_msg().len() == 23);
        assert(p3 + 23 <= s@.len());
    }
    let p4 = p3 + 23;
    let pr3 = parse_int_prefix(s, p4);
    let (mv, p5) = match pr3 {
        None => {
            proof {
                lemma_no_enc_bad_msg(s@, p1 as int, p3 as int, chatv, tread);
            }
            return Err(Error::DeserializationError);
        },
        Some(x) => x,
    };
    let bad_range = mv < -2147483648i64 || mv > 2147483647i64;
    let bad_brace = if p5 < slen { s[p5] != 125 } else { true };
    let bad_tail = p5 >= slen || p5 + 1 != slen;
    if bad_range || bad_brace || bad_tail {
        proof {
            lemma_no_enc_bad_tail(s@, p1 as int, p3 as int, p5 as int, chatv, tread, mv);
        }
        return Err(Error::DeserializationError);
    }
    let link = MessageLink {
        original_chat_id: chatv,
        original_tread_id: tread,
        original_message_id: mv as i32,
    };
    proof {
        assert(s@.subrange(p4 as int, p5 as int) == enc_int(link.original_message_id as int));
        assert(s@.subrange(p2 as int, p3 as int) == enc_tread(link.original_tread_id));
        assert(s@[s@.len() - 1] == 125);
        lemma_parts_to_encode(s@, link, p1 as int, p3 as int);
        lemma_decode_inverts_encode(link);
    }
    Ok(link)
}

} // verus!
