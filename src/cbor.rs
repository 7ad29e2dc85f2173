//! The archive body codec: each value is written in CBOR as an array whose
//! first item is a small integer tag naming the variant (0 null, 1 boolean,
//! 2 number, 3 string, 4 array, 5 object) and whose second item, absent for
//! null, is the payload. Numbers and strings are text, arrays are arrays of
//! values and objects are arrays of `[key, value]` pairs in order.

use vstd::prelude::*;
use vstd::utf8::{
    decode_utf8, encode_utf8, encode_utf8_decode_utf8, encode_utf8_valid_utf8, valid_utf8,
};

use crate::value::{
    entry_views, lemma_entry_views, lemma_entry_views_push, lemma_views, lemma_views_push, views,
    Json, Value,
};

verus! {

broadcast use vstd::std_specs::vec::group_vec_axioms, vstd::seq::group_seq_axioms;

/// The CBOR major type of unsigned integers.
pub const MAJOR_UINT: u8 = 0;

/// The CBOR major type of text strings.
pub const MAJOR_TEXT: u8 = 3;

/// The CBOR major type of arrays.
pub const MAJOR_ARRAY: u8 = 4;

/// The CBOR encoding of `false`.
pub const CBOR_FALSE: u8 = 0xf4;

/// The CBOR encoding of `true`.
pub const CBOR_TRUE: u8 = 0xf5;

/// The byte of `n` that starts `shift` bits up.
pub open spec fn byte_of(n: u64, shift: u64) -> u8 {
    ((n >> shift) & 0xff) as u8
}

/// The CBOR head of an item of major type `major` with argument `n`, in
/// its shortest form.
pub open spec fn head(major: u8, n: u64) -> Seq<u8> {
    let m = (major * 32) as u8;
    if n < 24 {
        seq![(m + n) as u8]
    } else if n <= 0xff {
        seq![(m + 24) as u8, n as u8]
    } else if n <= 0xffff {
        seq![(m + 25) as u8, byte_of(n, 8), byte_of(n, 0)]
    } else if n <= 0xffff_ffff {
        seq![(m + 26) as u8, byte_of(n, 24), byte_of(n, 16), byte_of(n, 8), byte_of(n, 0)]
    } else {
        seq![
            (m + 27) as u8,
            byte_of(n, 56),
            byte_of(n, 48),
            byte_of(n, 40),
            byte_of(n, 32),
            byte_of(n, 24),
            byte_of(n, 16),
            byte_of(n, 8),
            byte_of(n, 0),
        ]
    }
}

/// A text string: its head, then its UTF-8 bytes.
pub open spec fn enc_text(s: Seq<char>) -> Seq<u8> {
    head(MAJOR_TEXT, encode_utf8(s).len() as u64) + encode_utf8(s)
}

/// The head of a value's two-item array followed by its tag.
pub open spec fn tagged(tag: u64) -> Seq<u8> {
    head(MAJOR_ARRAY, 2) + head(MAJOR_UINT, tag)
}

/// The encoding of a value.
pub open spec fn enc(j: Json) -> Seq<u8>
    decreases j, 1nat,
{
    match j {
        Json::Null => head(MAJOR_ARRAY, 1) + head(MAJOR_UINT, 0),
        Json::Bool(b) => tagged(1) + seq![if b { CBOR_TRUE } else { CBOR_FALSE }],
        Json::Number(s) => tagged(2) + enc_text(s),
        Json::Str(s) => tagged(3) + enc_text(s),
        Json::Array(xs) => tagged(4) + head(MAJOR_ARRAY, xs.len() as u64) + enc_items(xs),
        Json::Object(es) => tagged(5) + head(MAJOR_ARRAY, es.len() as u64) + enc_entries(es),
    }
}

/// The encodings of a sequence of values, one after another.
pub open spec fn enc_items(xs: Seq<Json>) -> Seq<u8>
    decreases xs, 0nat,
{
    if xs.len() == 0 {
        Seq::empty()
    } else {
        enc(xs[0]) + enc_items(xs.subrange(1, xs.len() as int))
    }
}

/// The encoding of one object entry: a pair of its key and its value.
pub open spec fn enc_entry(e: (Seq<char>, Json)) -> Seq<u8>
    decreases e, 0nat,
{
    head(MAJOR_ARRAY, 2) + enc_text(e.0) + enc(e.1)
}

/// The encodings of a sequence of object entries, one after another.
pub open spec fn enc_entries(es: Seq<(Seq<char>, Json)>) -> Seq<u8>
    decreases es, 1nat,
{
    if es.len() == 0 {
        Seq::empty()
    } else {
        enc_entry(es[0]) + enc_entries(es.subrange(1, es.len() as int))
    }
}

/// Encoding a sequence with one more value appends that value's encoding.
pub proof fn lemma_enc_items_push(xs: Seq<Json>, x: Json)
    ensures
        enc_items(xs.push(x)) == enc_items(xs) + enc(x),
    decreases xs.len(),
{
    let ys = xs.push(x);
    if xs.len() == 0 {
        assert(ys.subrange(1, ys.len() as int) =~= Seq::<Json>::empty());
        assert(enc_items(ys.subrange(1, ys.len() as int)) == Seq::<u8>::empty());
        assert(ys[0] == x);
        assert(enc_items(ys) =~= enc(x));
    } else {
        let rest = xs.subrange(1, xs.len() as int);
        lemma_enc_items_push(rest, x);
        assert(ys.subrange(1, ys.len() as int) =~= rest.push(x));
        assert(enc_items(ys) =~= enc_items(xs) + enc(x));
    }
}

/// Encoding a sequence with one more entry appends that entry's encoding.
pub proof fn lemma_enc_entries_push(es: Seq<(Seq<char>, Json)>, e: (Seq<char>, Json))
    ensures
        enc_entries(es.push(e)) == enc_entries(es) + enc_entry(e),
    decreases es.len(),
{
    let ys = es.push(e);
    if es.len() == 0 {
        assert(ys.subrange(1, ys.len() as int) =~= Seq::<(Seq<char>, Json)>::empty());
        assert(enc_entries(ys.subrange(1, ys.len() as int)) == Seq::<u8>::empty());
        assert(ys[0] == e);
        assert(enc_entries(ys) =~= enc_entry(e));
    } else {
        let rest = es.subrange(1, es.len() as int);
        lemma_enc_entries_push(rest, e);
        assert(ys.subrange(1, ys.len() as int) =~= rest.push(e));
        assert(enc_entries(ys) =~= enc_entries(es) + enc_entry(e));
    }
}

/// The byte of `n` that starts `shift` bits up.
fn byte(n: u64, shift: u64) -> (r: u8)
    requires
        shift < 64,
    ensures
        r == byte_of(n, shift),
{
    ((n >> shift) & 0xff) as u8
}

/// Appends the head of an item of major type `major` with argument `n`.
fn push_head(out: &mut Vec<u8>, major: u8, n: u64)
    requires
        major < 8,
    ensures
        final(out)@ == old(out)@ + head(major, n),
{
    let m: u8 = major * 32;
    if n < 24 {
        out.push(m + n as u8);
    } else if n <= 0xff {
        out.push(m + 24);
        out.push(n as u8);
    } else if n <= 0xffff {
        out.push(m + 25);
        out.push(byte(n, 8));
        out.push(byte(n, 0));
    } else if n <= 0xffff_ffff {
        out.push(m + 26);
        out.push(byte(n, 24));
        out.push(byte(n, 16));
        out.push(byte(n, 8));
        out.push(byte(n, 0));
    } else {
        out.push(m + 27);
        out.push(byte(n, 56));
        out.push(byte(n, 48));
        out.push(byte(n, 40));
        out.push(byte(n, 32));
        out.push(byte(n, 24));
        out.push(byte(n, 16));
        out.push(byte(n, 8));
        out.push(byte(n, 0));
    }
    assert(final(out)@ =~= old(out)@ + head(major, n));
}

/// Appends the bytes of `b`.
fn push_bytes(out: &mut Vec<u8>, b: &[u8])
    ensures
        final(out)@ == old(out)@ + b@,
{
    let ghost start = out@;
    let mut i: usize = 0;
    while i < b.len()
        invariant
            i <= b@.len(),
            out@ == start + b@.subrange(0, i as int),
        decreases b.len() - i,
    {
        out.push(b[i]);
        i = i + 1;
        assert(out@ =~= start + b@.subrange(0, i as int));
    }
    assert(b@.subrange(0, i as int) =~= b@);
}

/// Appends a text string.
fn push_text(out: &mut Vec<u8>, s: &String)
    ensures
        final(out)@ == old(out)@ + enc_text(s@),
{
    let b = s.as_str().as_bytes();
    push_head(out, MAJOR_TEXT, b.len() as u64);
    push_bytes(out, b);
    assert(final(out)@ =~= old(out)@ + enc_text(s@));
}

/// Appends the encoding of `v`.
fn encode_into(v: &Value, out: &mut Vec<u8>)
    ensures
        final(out)@ == old(out)@ + enc(v@),
    decreases v,
{
    let ghost start = out@;
    match v {
        Value::Null => {
            push_head(out, MAJOR_ARRAY, 1);
            push_head(out, MAJOR_UINT, 0);
        },
        Value::Bool(b) => {
            push_head(out, MAJOR_ARRAY, 2);
            push_head(out, MAJOR_UINT, 1);
            out.push(
                if *b {
                    CBOR_TRUE
                } else {
                    CBOR_FALSE
                },
            );
        },
        Value::Number(n) => {
            push_head(out, MAJOR_ARRAY, 2);
            push_head(out, MAJOR_UINT, 2);
            push_text(out, n);
        },
        Value::String(t) => {
            push_head(out, MAJOR_ARRAY, 2);
            push_head(out, MAJOR_UINT, 3);
            push_text(out, t);
        },
        Value::Array(xs) => {
            let ghost xv = views(xs@);
            proof {
                lemma_views(xs@);
            }
            push_head(out, MAJOR_ARRAY, 2);
            push_head(out, MAJOR_UINT, 4);
            push_head(out, MAJOR_ARRAY, xs.len() as u64);
            let ghost mid = out@;
            let mut i: usize = 0;
            assert(enc_items(xv.subrange(0, 0)) =~= Seq::<u8>::empty());
            while i < xs.len()
                invariant
                    *v == Value::Array(*xs),
                    xv == views(xs@),
                    xv.len() == xs@.len(),
                    forall|j: int| 0 <= j < xs@.len() ==> #[trigger] xv[j] == xs@[j]@,
                    i <= xs@.len(),
                    out@ == mid + enc_items(xv.subrange(0, i as int)),
                decreases xs.len() - i,
            {
                proof {
                    assert(decreases_to!(*v => (*v)->Array_0));
                    assert(decreases_to!(*xs => xs[i as int]));
                    assert(xv.subrange(0, i + 1) =~= xv.subrange(0, i as int).push(xv[i as int]));
                    lemma_enc_items_push(xv.subrange(0, i as int), xv[i as int]);
                }
                encode_into(&xs[i], out);
                i = i + 1;
            }
            assert(xv.subrange(0, i as int) =~= xv);
        },
        Value::Object(es) => {
            let ghost ev = entry_views(es@);
            proof {
                lemma_entry_views(es@);
            }
            push_head(out, MAJOR_ARRAY, 2);
            push_head(out, MAJOR_UINT, 5);
            push_head(out, MAJOR_ARRAY, es.len() as u64);
            let ghost mid = out@;
            let mut i: usize = 0;
            assert(enc_entries(ev.subrange(0, 0)) =~= Seq::<u8>::empty());
            while i < es.len()
                invariant
                    *v == Value::Object(*es),
                    ev == entry_views(es@),
                    ev.len() == es@.len(),
                    forall|j: int| 0 <= j < es@.len() ==> #[trigger] ev[j] == (es@[j].0@, es@[j].1@),
                    i <= es@.len(),
                    out@ == mid + enc_entries(ev.subrange(0, i as int)),
                decreases es.len() - i,
            {
                proof {
                    assert(decreases_to!(*v => (*v)->Object_0));
                    assert(decreases_to!(*es => es[i as int]));
                    assert(decreases_to!(es[i as int] => es[i as int].1));
                    assert(ev.subrange(0, i + 1) =~= ev.subrange(0, i as int).push(ev[i as int]));
                    lemma_enc_entries_push(ev.subrange(0, i as int), ev[i as int]);
                }
                let ghost before = out@;
                push_head(out, MAJOR_ARRAY, 2);
                push_text(out, &es[i].0);
                encode_into(&es[i].1, out);
                assert(out@ =~= before + enc_entry(ev[i as int]));
                i = i + 1;
            }
            assert(ev.subrange(0, i as int) =~= ev);
        },
    }
    assert(out@ =~= start + enc(v@));
}

/// The encoding of a value.
pub fn encode(v: &Value) -> (r: Vec<u8>)
    ensures
        r@ == enc(v@),
{
    let mut out: Vec<u8> = Vec::new();
    encode_into(v, &mut out);
    assert(out@ =~= enc(v@));
    out
}

/// The big-endian number in the two bytes at `p`.
pub open spec fn be2(b: Seq<u8>, p: int) -> u64 {
    ((b[p] as u64) << 8u64) | (b[p + 1] as u64)
}

/// The big-endian number in the four bytes at `p`.
pub open spec fn be4(b: Seq<u8>, p: int) -> u64 {
    ((b[p] as u64) << 24u64) | ((b[p + 1] as u64) << 16u64) | ((b[p + 2] as u64) << 8u64) | (b[p
        + 3] as u64)
}

/// The big-endian number in the eight bytes at `p`.
pub open spec fn be8(b: Seq<u8>, p: int) -> u64 {
    ((b[p] as u64) << 56u64) | ((b[p + 1] as u64) << 48u64) | ((b[p + 2] as u64) << 40u64) | ((b[p
        + 3] as u64) << 32u64) | ((b[p + 4] as u64) << 24u64) | ((b[p + 5] as u64) << 16u64) | ((b[p
        + 6] as u64) << 8u64) | (b[p + 7] as u64)
}

/// The head at `pos`: its major type, its argument and the position after it.
pub open spec fn parse_head(b: Seq<u8>, pos: int) -> Option<(u8, u64, int)> {
    if 0 <= pos < b.len() {
        let major = (b[pos] / 32) as u8;
        let info = b[pos] % 32;
        if info < 24 {
            Some((major, info as u64, pos + 1))
        } else if info == 24 && pos + 2 <= b.len() {
            Some((major, b[pos + 1] as u64, pos + 2))
        } else if info == 25 && pos + 3 <= b.len() {
            Some((major, be2(b, pos + 1), pos + 3))
        } else if info == 26 && pos + 5 <= b.len() {
            Some((major, be4(b, pos + 1), pos + 5))
        } else if info == 27 && pos + 9 <= b.len() {
            Some((major, be8(b, pos + 1), pos + 9))
        } else {
            None
        }
    } else {
        None
    }
}

/// The text string at `pos` and the position after it.
pub open spec fn parse_text(b: Seq<u8>, pos: int) -> Option<(Seq<char>, int)> {
    let h = parse_head(b, pos);
    if h is Some && (h->0).0 == MAJOR_TEXT && (h->0).2 + (h->0).1 <= b.len() && valid_utf8(
        b.subrange((h->0).2, (h->0).2 + (h->0).1),
    ) {
        Some((decode_utf8(b.subrange((h->0).2, (h->0).2 + (h->0).1)), (h->0).2 + (h->0).1))
    } else {
        None
    }
}

/// The value at `pos` and the position after it.
pub open spec fn parse_value(b: Seq<u8>, pos: int) -> Option<(Json, int)>
    decreases b.len() - pos, 0nat,
{
    let h = parse_head(b, pos);
    let t = if h is Some {
        parse_head(b, (h->0).2)
    } else {
        None
    };
    if h is None || t is None || (h->0).0 != MAJOR_ARRAY || (t->0).0 != MAJOR_UINT {
        None
    } else {
        let n = (h->0).1;
        let tag = (t->0).1;
        let p = (t->0).2;
        if n == 1 && tag == 0 {
            Some((Json::Null, p))
        } else if n != 2 {
            None
        } else if tag == 1 {
            if 0 <= p < b.len() && (b[p] == CBOR_TRUE || b[p] == CBOR_FALSE) {
                Some((Json::Bool(b[p] == CBOR_TRUE), p + 1))
            } else {
                None
            }
        } else if tag == 2 || tag == 3 {
            let r = parse_text(b, p);
            if r is Some {
                let s = (r->0).0;
                Some((if tag == 2 { Json::Number(s) } else { Json::Str(s) }, (r->0).1))
            } else {
                None
            }
        } else if tag == 4 || tag == 5 {
            let a = parse_head(b, p);
            if a is Some && (a->0).0 == MAJOR_ARRAY && pos < (a->0).2 <= b.len() {
                if tag == 4 {
                    let r = parse_items(b, (a->0).2, (a->0).1 as nat, Seq::empty());
                    if r is Some {
                        Some((Json::Array((r->0).0), (r->0).1))
                    } else {
                        None
                    }
                } else {
                    let r = parse_entries(b, (a->0).2, (a->0).1 as nat, Seq::empty());
                    if r is Some {
                        Some((Json::Object((r->0).0), (r->0).1))
                    } else {
                        None
                    }
                }
            } else {
                None
            }
        } else {
            None
        }
    }
}

/// `n` more values from `pos` on, after the values `acc` already read, and
/// the position after them.
pub open spec fn parse_items(b: Seq<u8>, pos: int, n: nat, acc: Seq<Json>) -> Option<
    (Seq<Json>, int),
>
    decreases b.len() - pos, n + 1,
{
    if n == 0 {
        Some((acc, pos))
    } else {
        let r = parse_value(b, pos);
        if r is Some && pos < (r->0).1 <= b.len() {
            parse_items(b, (r->0).1, (n - 1) as nat, acc.push((r->0).0))
        } else {
            None
        }
    }
}

/// `n` more object entries from `pos` on, after the entries `acc` already
/// read, and the position after them.
pub open spec fn parse_entries(
    b: Seq<u8>,
    pos: int,
    n: nat,
    acc: Seq<(Seq<char>, Json)>,
) -> Option<(Seq<(Seq<char>, Json)>, int)>
    decreases b.len() - pos, n + 1,
{
    if n == 0 {
        Some((acc, pos))
    } else {
        let h = parse_head(b, pos);
        let k = if h is Some {
            parse_text(b, (h->0).2)
        } else {
            None
        };
        if h is Some && k is Some && (h->0).0 == MAJOR_ARRAY && (h->0).1 == 2 && pos < (k->0).1
            <= b.len() {
            let r = parse_value(b, (k->0).1);
            if r is Some && pos < (r->0).1 <= b.len() {
                parse_entries(b, (r->0).1, (n - 1) as nat, acc.push(((k->0).0, (r->0).0)))
            } else {
                None
            }
        } else {
            None
        }
    }
}

/// The decoding of a whole body: one value that ends where the bytes end.
pub open spec fn dec(b: Seq<u8>) -> Option<Json> {
    let r = parse_value(b, 0);
    if r is Some && (r->0).1 == b.len() {
        Some((r->0).0)
    } else {
        None
    }
}

/// Every count and text length of `j` fits the 64-bit argument of a head.
pub open spec fn bounded(j: Json) -> bool
    decreases j,
{
    match j {
        Json::Number(s) => encode_utf8(s).len() <= u64::MAX,
        Json::Str(s) => encode_utf8(s).len() <= u64::MAX,
        Json::Array(xs) => xs.len() <= u64::MAX && forall|i: int|
            #![trigger xs[i]]
            0 <= i < xs.len() ==> bounded(xs[i]),
        Json::Object(es) => es.len() <= u64::MAX && forall|i: int|
            #![trigger es[i]]
            0 <= i < es.len() ==> encode_utf8(es[i].0).len() <= u64::MAX && bounded(es[i].1),
        _ => true,
    }
}

/// Bytes that hold `x + y` at `pos` hold `x` there and `y` right after it.
proof fn lemma_split(b: Seq<u8>, pos: int, x: Seq<u8>, y: Seq<u8>)
    requires
        0 <= pos,
        pos + x.len() + y.len() <= b.len(),
        b.subrange(pos, pos + x.len() + y.len()) == x + y,
    ensures
        b.subrange(pos, pos + x.len()) == x,
        b.subrange(pos + x.len(), pos + x.len() + y.len()) == y,
{
    let w = b.subrange(pos, pos + x.len() + y.len());
    assert forall|i: int| 0 <= i < x.len() implies b.subrange(pos, pos + x.len())[i] == x[i] by {
        assert(w[i] == (x + y)[i]);
    }
    assert forall|i: int| 0 <= i < y.len() implies b.subrange(
        pos + x.len(),
        pos + x.len() + y.len(),
    )[i] == y[i] by {
        assert(w[x.len() + i] == (x + y)[x.len() + i]);
    }
    assert(b.subrange(pos, pos + x.len()) =~= x);
    assert(b.subrange(pos + x.len(), pos + x.len() + y.len()) =~= y);
}

/// A head reads back as the major type and argument it was written with.
proof fn lemma_head(b: Seq<u8>, pos: int, major: u8, n: u64)
    requires
        major < 8,
        0 <= pos,
        pos + head(major, n).len() <= b.len(),
        b.subrange(pos, pos + head(major, n).len()) == head(major, n),
    ensures
        parse_head(b, pos) == Some((major, n, pos + head(major, n).len())),
        head(major, n).len() >= 1,
{
    let h = head(major, n);
    assert forall|i: int| 0 <= i < h.len() implies b[pos + i] == h[i] by {
        assert(b.subrange(pos, pos + h.len())[i] == b[pos + i]);
    }
    let m = (major * 32) as u8;
    assert(m == major * 32);
    if n < 24 {
        assert(h[0] == ((m + n) as u8));
        assert(b[pos] == m + n);
    } else if n <= 0xff {
        assert(b[pos] == m + 24);
    } else if n <= 0xffff {
        assert(b[pos] == m + 25);
        assert(((((n >> 8u64) & 0xff) as u8 as u64) << 8u64) | (((n >> 0u64) & 0xff) as u8 as u64)
            == n) by (bit_vector)
            requires
                n <= 0xffff,
        ;
    } else if n <= 0xffff_ffff {
        assert(b[pos] == m + 26);
        assert(((((n >> 24u64) & 0xff) as u8 as u64) << 24u64) | ((((n >> 16u64) & 0xff) as u8
            as u64) << 16u64) | ((((n >> 8u64) & 0xff) as u8 as u64) << 8u64) | (((n >> 0u64)
            & 0xff) as u8 as u64) == n) by (bit_vector)
            requires
                n <= 0xffff_ffff,
        ;
    } else {
        assert(b[pos] == m + 27);
        assert(((((n >> 56u64) & 0xff) as u8 as u64) << 56u64) | ((((n >> 48u64) & 0xff) as u8
            as u64) << 48u64) | ((((n >> 40u64) & 0xff) as u8 as u64) << 40u64) | ((((n >> 32u64)
            & 0xff) as u8 as u64) << 32u64) | ((((n >> 24u64) & 0xff) as u8 as u64) << 24u64) | ((((n
            >> 16u64) & 0xff) as u8 as u64) << 16u64) | ((((n >> 8u64) & 0xff) as u8 as u64)
            << 8u64) | (((n >> 0u64) & 0xff) as u8 as u64) == n) by (bit_vector);
    }
}

/// A text string reads back as the characters it was written with.
proof fn lemma_text(b: Seq<u8>, pos: int, s: Seq<char>)
    requires
        encode_utf8(s).len() <= u64::MAX,
        0 <= pos,
        pos + enc_text(s).len() <= b.len(),
        b.subrange(pos, pos + enc_text(s).len()) == enc_text(s),
    ensures
        parse_text(b, pos) == Some((s, pos + enc_text(s).len())),
        enc_text(s).len() >= 1,
{
    let u = encode_utf8(s);
    let h = head(MAJOR_TEXT, u.len() as u64);
    lemma_split(b, pos, h, u);
    lemma_head(b, pos, MAJOR_TEXT, u.len() as u64);
    encode_utf8_valid_utf8(s);
    encode_utf8_decode_utf8(s);
}

/// A value reads back as itself, and its encoding is not empty.
pub proof fn lemma_parse_value(j: Json, b: Seq<u8>, pos: int)
    requires
        bounded(j),
        0 <= pos,
        pos + enc(j).len() <= b.len(),
        b.subrange(pos, pos + enc(j).len()) == enc(j),
    ensures
        parse_value(b, pos) == Some((j, pos + enc(j).len())),
        enc(j).len() >= 1,
    decreases j, 1nat,
{
    let h1 = head(MAJOR_ARRAY, if j is Null { 1u64 } else { 2u64 });
    let tag: u64 = match j {
        Json::Null => 0,
        Json::Bool(_) => 1,
        Json::Number(_) => 2,
        Json::Str(_) => 3,
        Json::Array(_) => 4,
        Json::Object(_) => 5,
    };
    let h2 = head(MAJOR_UINT, tag);
    let rest = enc(j).subrange((h1.len() + h2.len()) as int, enc(j).len() as int);
    assert(enc(j) =~= h1 + (h2 + rest));
    lemma_split(b, pos, h1, h2 + rest);
    lemma_split(b, pos + h1.len(), h2, rest);
    lemma_head(b, pos, MAJOR_ARRAY, if j is Null { 1u64 } else { 2u64 });
    lemma_head(b, pos + h1.len(), MAJOR_UINT, tag);
    let p = pos + h1.len() + h2.len();
    assert(b.subrange(p, p + rest.len()) == rest);
    match j {
        Json::Null => {},
        Json::Bool(v) => {
            assert(b[p] == b.subrange(p, p + rest.len())[0]);
        },
        Json::Number(s) => {
            assert(rest =~= enc_text(s));
            lemma_text(b, p, s);
        },
        Json::Str(s) => {
            assert(rest =~= enc_text(s));
            lemma_text(b, p, s);
        },
        Json::Array(xs) => {
            assert(bounded(Json::Array(xs)));
            let h3 = head(MAJOR_ARRAY, xs.len() as u64);
            assert(rest =~= h3 + enc_items(xs));
            lemma_split(b, p, h3, enc_items(xs));
            lemma_head(b, p, MAJOR_ARRAY, xs.len() as u64);
            lemma_parse_items(xs, b, p + h3.len(), Seq::empty());
            assert(Seq::<Json>::empty() + xs =~= xs);
        },
        Json::Object(es) => {
            assert(bounded(Json::Object(es)));
            let h3 = head(MAJOR_ARRAY, es.len() as u64);
            assert(rest =~= h3 + enc_entries(es));
            lemma_split(b, p, h3, enc_entries(es));
            lemma_head(b, p, MAJOR_ARRAY, es.len() as u64);
            lemma_parse_entries(es, b, p + h3.len(), Seq::empty());
            assert(Seq::<(Seq<char>, Json)>::empty() + es =~= es);
        },
    }
}

/// A sequence of values reads back as itself, after what was read before.
pub proof fn lemma_parse_items(xs: Seq<Json>, b: Seq<u8>, pos: int, acc: Seq<Json>)
    requires
        forall|i: int| #![trigger xs[i]] 0 <= i < xs.len() ==> bounded(xs[i]),
        0 <= pos,
        pos + enc_items(xs).len() <= b.len(),
        b.subrange(pos, pos + enc_items(xs).len()) == enc_items(xs),
    ensures
        parse_items(b, pos, xs.len(), acc) == Some((acc + xs, pos + enc_items(xs).len())),
    decreases xs, 0nat,
{
    if xs.len() == 0 {
        assert(acc + xs =~= acc);
    } else {
        let rest = xs.subrange(1, xs.len() as int);
        lemma_split(b, pos, enc(xs[0]), enc_items(rest));
        lemma_parse_value(xs[0], b, pos);
        let p = pos + enc(xs[0]).len();
        assert forall|i: int| #![trigger rest[i]] 0 <= i < rest.len() implies bounded(rest[i]) by {
            assert(rest[i] == xs[i + 1]);
        }
        lemma_parse_items(rest, b, p, acc.push(xs[0]));
        assert(acc.push(xs[0]) + rest =~= acc + xs);
        assert((xs.len() - 1) as nat == rest.len());
    }
}

/// A sequence of entries reads back as itself, after what was read before.
pub proof fn lemma_parse_entries(
    es: Seq<(Seq<char>, Json)>,
    b: Seq<u8>,
    pos: int,
    acc: Seq<(Seq<char>, Json)>,
)
    requires
        forall|i: int|
            #![trigger es[i]]
            0 <= i < es.len() ==> encode_utf8(es[i].0).len() <= u64::MAX && bounded(es[i].1),
        0 <= pos,
        pos + enc_entries(es).len() <= b.len(),
        b.subrange(pos, pos + enc_entries(es).len()) == enc_entries(es),
    ensures
        parse_entries(b, pos, es.len(), acc) == Some((acc + es, pos + enc_entries(es).len())),
    decreases es, 1nat,
{
    if es.len() == 0 {
        assert(acc + es =~= acc);
    } else {
        let rest = es.subrange(1, es.len() as int);
        let e = es[0];
        lemma_split(b, pos, enc_entry(e), enc_entries(rest));
        let h = head(MAJOR_ARRAY, 2);
        assert(enc_entry(e) =~= h + (enc_text(e.0) + enc(e.1)));
        lemma_split(b, pos, h, enc_text(e.0) + enc(e.1));
        lemma_split(b, pos + h.len(), enc_text(e.0), enc(e.1));
        lemma_head(b, pos, MAJOR_ARRAY, 2);
        lemma_text(b, pos + h.len(), e.0);
        let p = pos + h.len() + enc_text(e.0).len();
        lemma_parse_value(e.1, b, p);
        let q = p + enc(e.1).len();
        assert forall|i: int| #![trigger rest[i]]
            0 <= i < rest.len() implies encode_utf8(rest[i].0).len() <= u64::MAX && bounded(
            rest[i].1,
        ) by {
            assert(rest[i] == es[i + 1]);
        }
        lemma_parse_entries(rest, b, q, acc.push((e.0, e.1)));
        assert(acc.push((e.0, e.1)) + rest =~= acc + es);
        assert((es.len() - 1) as nat == rest.len());
    }
}

/// Decoding the encoding of a value gives that value back, object key
/// order and number text included.
pub proof fn lemma_round_trip(j: Json)
    requires
        bounded(j),
    ensures
        dec(enc(j)) == Some(j),
{
    let b = enc(j);
    assert(b.subrange(0, b.len() as int) =~= b);
    lemma_parse_value(j, b, 0);
}

/// Relies on `std::str::from_utf8`: it accepts exactly the valid UTF-8 byte
/// sequences, and the text it gives holds the characters that they encode.
#[verifier::external_body]
fn utf8_text(b: &[u8]) -> (r: Option<String>)
    ensures
        r is Some <==> valid_utf8(b@),
        r matches Some(s) ==> s@ == decode_utf8(b@),
{
    std::str::from_utf8(b).ok().map(|s| s.to_string())
}

/// Reads the head at `pos`.
fn read_head(b: &[u8], pos: usize) -> (r: Option<(u8, u64, usize)>)
    ensures
        match r {
            Some((m, n, p)) => parse_head(b@, pos as int) == Some((m, n, p as int)),
            None => parse_head(b@, pos as int) is None,
        },
{
    if pos >= b.len() {
        return None;
    }
    let ib = b[pos];
    let major = ib / 32;
    let info = ib % 32;
    let avail = b.len() - pos;
    if info < 24 {
        Some((major, info as u64, pos + 1))
    } else if info == 24 && avail >= 2 {
        Some((major, b[pos + 1] as u64, pos + 2))
    } else if info == 25 && avail >= 3 {
        let v = ((b[pos + 1] as u64) << 8u64) | (b[pos + 2] as u64);
        Some((major, v, pos + 3))
    } else if info == 26 && avail >= 5 {
        let v = ((b[pos + 1] as u64) << 24u64) | ((b[pos + 2] as u64) << 16u64) | ((b[pos + 3]
            as u64) << 8u64) | (b[pos + 4] as u64);
        Some((major, v, pos + 5))
    } else if info == 27 && avail >= 9 {
        let v = ((b[pos + 1] as u64) << 56u64) | ((b[pos + 2] as u64) << 48u64) | ((b[pos + 3]
            as u64) << 40u64) | ((b[pos + 4] as u64) << 32u64) | ((b[pos + 5] as u64) << 24u64)
            | ((b[pos + 6] as u64) << 16u64) | ((b[pos + 7] as u64) << 8u64) | (b[pos + 8] as u64);
        Some((major, v, pos + 9))
    } else {
        None
    }
}

/// Reads the text string at `pos`.
fn read_text(b: &[u8], pos: usize) -> (r: Option<(String, usize)>)
    ensures
        match r {
            Some((s, p)) => parse_text(b@, pos as int) == Some((s@, p as int)),
            None => parse_text(b@, pos as int) is None,
        },
{
    match read_head(b, pos) {
        Some((m, n, p)) => {
            if m == MAJOR_TEXT && n <= (b.len() - p) as u64 {
                let end = p + n as usize;
                let bytes = &b[p..end];
                assert(bytes@ == b@.subrange(p as int, p + n));
                match utf8_text(bytes) {
                    Some(s) => Some((s, end)),
                    None => None,
                }
            } else {
                None
            }
        },
        None => None,
    }
}

/// Reads the value at `pos`.
fn decode_at(b: &[u8], pos: usize) -> (r: Option<(Value, usize)>)
    ensures
        match r {
            Some((v, p)) => parse_value(b@, pos as int) == Some((v@, p as int)),
            None => parse_value(b@, pos as int) is None,
        },
    decreases b.len() - pos,
{
    let (major, n, p1) = match read_head(b, pos) {
        Some(h) => h,
        None => return None,
    };
    let (tmajor, tag, p) = match read_head(b, p1) {
        Some(h) => h,
        None => return None,
    };
    if major != MAJOR_ARRAY || tmajor != MAJOR_UINT {
        return None;
    }
    if n == 1 && tag == 0 {
        return Some((Value::Null, p));
    }
    if n != 2 {
        return None;
    }
    if tag == 1 {
        if p < b.len() && (b[p] == CBOR_TRUE || b[p] == CBOR_FALSE) {
            return Some((Value::Bool(b[p] == CBOR_TRUE), p + 1));
        }
        return None;
    }
    if tag == 2 || tag == 3 {
        return match read_text(b, p) {
            Some((s, q)) => {
                if tag == 2 {
                    Some((Value::Number(s), q))
                } else {
                    Some((Value::String(s), q))
                }
            },
            None => None,
        };
    }
    if tag != 4 && tag != 5 {
        return None;
    }
    let (amajor, count, start) = match read_head(b, p) {
        Some(h) => h,
        None => return None,
    };
    if amajor != MAJOR_ARRAY || !(pos < start && start <= b.len()) {
        return None;
    }
    let mut cur = start;
    let mut rem = count;
    if tag == 4 {
        let ghost items = parse_items(b@, start as int, count as nat, Seq::empty());
        assert(parse_value(b@, pos as int) == (if items is Some {
            Some((Json::Array((items->0).0), (items->0).1))
        } else {
            None
        }));
        let mut out: Vec<Value> = Vec::new();
        assert(views(out@) =~= Seq::<Json>::empty());
        while rem > 0
            invariant
                pos < cur <= b@.len(),
                parse_value(b@, pos as int) == (if items is Some {
                    Some((Json::Array((items->0).0), (items->0).1))
                } else {
                    None
                }),
                items == parse_items(
                    b@,
                    cur as int,
                    rem as nat,
                    views(out@),
                ),
            decreases rem,
        {
            match decode_at(b, cur) {
                Some((v, q)) => {
                    if !(cur < q && q <= b.len()) {
                        return None;
                    }
                    proof {
                        lemma_views_push(out@, v);
                    }
                    out.push(v);
                    cur = q;
                    rem = rem - 1;
                },
                None => return None,
            }
        }
        Some((Value::Array(out), cur))
    } else {
        let ghost entries = parse_entries(b@, start as int, count as nat, Seq::empty());
        assert(parse_value(b@, pos as int) == (if entries is Some {
            Some((Json::Object((entries->0).0), (entries->0).1))
        } else {
            None
        }));
        let mut out: Vec<(String, Value)> = Vec::new();
        assert(entry_views(out@) =~= Seq::<(Seq<char>, Json)>::empty());
        while rem > 0
            invariant
                pos < cur <= b@.len(),
                parse_value(b@, pos as int) == (if entries is Some {
                    Some((Json::Object((entries->0).0), (entries->0).1))
                } else {
                    None
                }),
                entries == parse_entries(
                    b@,
                    cur as int,
                    rem as nat,
                    entry_views(out@),
                ),
            decreases rem,
        {
            let (emajor, en, kp) = match read_head(b, cur) {
                Some(h) => h,
                None => return None,
            };
            if emajor != MAJOR_ARRAY || en != 2 {
                return None;
            }
            let (k, vp) = match read_text(b, kp) {
                Some(t) => t,
                None => return None,
            };
            if !(cur < vp && vp <= b.len()) {
                return None;
            }
            match decode_at(b, vp) {
                Some((v, q)) => {
                    if !(cur < q && q <= b.len()) {
                        return None;
                    }
                    proof {
                        lemma_entry_views_push(out@, (k, v));
                    }
                    out.push((k, v));
                    cur = q;
                    rem = rem - 1;
                },
                None => return None,
            }
        }
        Some((Value::Object(out), cur))
    }
}

/// Decodes a whole body: one value that ends where the bytes end.
pub fn decode(b: &[u8]) -> (r: Option<Value>)
    ensures
        match r {
            Some(v) => dec(b@) == Some(v@),
            None => dec(b@) is None,
        },
{
    match decode_at(b, 0) {
        Some((v, p)) => {
            if p == b.len() {
                Some(v)
            } else {
                None
            }
        },
        None => None,
    }
}

} // verus!
