//! The round-trip law: a value decoded from a bit stream encodes again,
//! and decoding the encoding yields the same value, the same table
//! entries, and consumes the encoding exactly.

use vstd::prelude::*;
use crate::bits::{
    bits_to_nat, nat_to_bits, bytes_to_bits, bits_to_bytes, lemma_nat_to_bits_len,
    lemma_bits_to_nat_bound, lemma_bits_round_trip, lemma_bytes_to_bits_len,
    lemma_bytes_bits_bytes,
};
use crate::model::{
    spec_decode, spec_decode_elems, spec_decode_fields, spec_decode_varint, spec_encode,
    spec_encode_elems, spec_encode_fields, varint_bits, pad_len, step_pad, align_reset, zero_bits,
};
use crate::schema::{Codec, Field, AlignSpec, spec_resolve_len};
use crate::value::{ValView, EntryV, ErrView};
use vstd::utf8::{decode_utf8, encode_utf8};

verus! {

broadcast use
    vstd::seq::axiom_seq_index_decreases,
    vstd::seq::axiom_seq_subrange_decreases,
    vstd::seq_lib::lemma_seq_skip_index,
    vstd::seq_lib::lemma_seq_skip_len,
    vstd::std_specs::vec::axiom_vec_decreases_to_view;

/// A value lies in the range the encoding can carry: every
/// variable-length integer in it is at most 16383, and every string's
/// byte length fits that integer. Decoding can produce values outside
/// this range (a two-byte integer whose second byte is above 127), and
/// encoding refuses them.
pub open spec fn val_encodable(v: ValView) -> bool
    decreases v, 0nat,
{
    match v {
        ValView::VarInt(x) => x <= 16383,
        ValView::Str(s) => encode_utf8(s).len() <= 16383,
        ValView::List(vs) => vals_encodable(vs),
        ValView::Record(vs) => vals_encodable(vs),
        _ => true,
    }
}

/// Every value of the sequence is encodable.
pub open spec fn vals_encodable(vs: Seq<ValView>) -> bool
    decreases vs, 1nat,
{
    vs.len() == 0 || (val_encodable(vs[0]) && vals_encodable(vs.drop_first()))
}

/// Decoding `n` elements yields `n` values.
proof fn lemma_dec_elems_len(
    elem: Codec,
    n: nat,
    al: AlignSpec,
    cnt: nat,
    bits: Seq<bool>,
    pos: int,
    t: Seq<EntryV>,
)
    requires
        spec_decode_elems(elem, n, al, cnt, bits, pos, t) is Ok,
    ensures
        spec_decode_elems(elem, n, al, cnt, bits, pos, t)->Ok_0.0.len() == n,
    decreases n,
{
    if n > 0 {
        let (v, p1, t1) = spec_decode(elem, bits, pos, t)->Ok_0;
        let (pad, cnt2) = step_pad(al, cnt, p1);
        lemma_dec_elems_len(elem, (n - 1) as nat, al, cnt2, bits, p1 + pad, t1);
    }
}

/// Decoding a record's fields from `i` on yields one value per field.
proof fn lemma_dec_fields_len(fields: Seq<Field>, i: int, bits: Seq<bool>, pos: int, t: Seq<EntryV>)
    requires
        spec_decode_fields(fields, i, bits, pos, t) is Ok,
    ensures
        spec_decode_fields(fields, i, bits, pos, t)->Ok_0.0.len() == if i < 0 {
            0int
        } else if i > fields.len() {
            0int
        } else {
            fields.len() - i
        },
    decreases fields.len() - i,
{
    if 0 <= i < fields.len() {
        let (v, p1, t1) = spec_decode(fields[i].codec, bits, pos, t)->Ok_0;
        let pad = pad_len(p1, fields[i].align as int);
        let t2 = t1.push(EntryV { name: fields[i].name@, value: v });
        lemma_dec_fields_len(fields, i + 1, bits, p1 + pad, t2);
    }
}

/// A decoded value in the encodable range always encodes, at any
/// position.
proof fn lemma_enc_total(c: Codec, bits: Seq<bool>, pos: int, t: Seq<EntryV>, pos2: int)
    requires
        spec_decode(c, bits, pos, t) is Ok,
        val_encodable(spec_decode(c, bits, pos, t)->Ok_0.0),
    ensures
        spec_encode(c, spec_decode(c, bits, pos, t)->Ok_0.0, pos2) is Some,
    decreases c, 0nat, 0nat,
{
    let v = spec_decode(c, bits, pos, t)->Ok_0.0;
    match c {
        Codec::Str => {
            let (n, p) = spec_decode_varint(bits, pos)->Ok_0;
            let bytes = bits_to_bytes(bits.subrange(p, p + 8 * (n as int)));
            vstd::utf8::decode_utf8_encode_utf8(bytes);
        },
        Codec::Array { elem, count, align } => {
            lemma_dec_elems_len(*elem, count as nat, align, align_reset(align), bits, pos, t);
            lemma_enc_total_elems(
                *elem,
                count as nat,
                align,
                align_reset(align),
                bits,
                pos,
                t,
                pos2,
            );
        },
        Codec::VarArray { elem, len, align } => {
            lemma_enc_total_elems(
                *elem,
                spec_resolve_len(len, t),
                align,
                align_reset(align),
                bits,
                pos,
                t,
                pos2,
            );
        },
        Codec::Record { fields } => {
            lemma_dec_fields_len(fields@, 0, bits, pos, t);
            let vs = spec_decode_fields(fields@, 0, bits, pos, t)->Ok_0.0;
            assert(vs.skip(0) =~= vs);
            lemma_enc_total_fields(fields@, 0, bits, pos, t, vs, pos2);
        },
        _ => {},
    }
}

/// Decoded element rows in the encodable range always encode.
proof fn lemma_enc_total_elems(
    elem: Codec,
    n: nat,
    al: AlignSpec,
    cnt: nat,
    bits: Seq<bool>,
    pos: int,
    t: Seq<EntryV>,
    pos2: int,
)
    requires
        spec_decode_elems(elem, n, al, cnt, bits, pos, t) is Ok,
        vals_encodable(spec_decode_elems(elem, n, al, cnt, bits, pos, t)->Ok_0.0),
    ensures
        spec_encode_elems(
            elem,
            spec_decode_elems(elem, n, al, cnt, bits, pos, t)->Ok_0.0,
            al,
            cnt,
            pos2,
        ) is Some,
    decreases elem, n, 1nat,
{
    if n == 0 {
    } else {
        let (v, p1, t1) = spec_decode(elem, bits, pos, t)->Ok_0;
        let (pad, cnt2) = step_pad(al, cnt, p1);
        let rest = spec_decode_elems(elem, (n - 1) as nat, al, cnt2, bits, p1 + pad, t1)->Ok_0.0;
        let whole = spec_decode_elems(elem, n, al, cnt, bits, pos, t)->Ok_0.0;
        assert(whole == seq![v] + rest);
        assert(whole[0] == v);
        assert(whole.drop_first() =~= rest);
        lemma_enc_total(elem, bits, pos, t, pos2);
        let e1 = spec_encode(elem, v, pos2)->Some_0;
        let (pad2, cnt2b) = step_pad(al, cnt, pos2 + e1.len());
        lemma_enc_total_elems(elem, (n - 1) as nat, al, cnt2, bits, p1 + pad, t1, pos2 + e1.len()
            + pad2);
        assert(cnt2b == cnt2);
    }
}

/// Decoded field rows in the encodable range always encode, inside any
/// full value list that carries them from index `i` on.
proof fn lemma_enc_total_fields(
    fields: Seq<Field>,
    i: int,
    bits: Seq<bool>,
    pos: int,
    t: Seq<EntryV>,
    vsfull: Seq<ValView>,
    pos2: int,
)
    requires
        0 <= i <= fields.len(),
        vsfull.len() == fields.len(),
        spec_decode_fields(fields, i, bits, pos, t) is Ok,
        vals_encodable(spec_decode_fields(fields, i, bits, pos, t)->Ok_0.0),
        vsfull.skip(i) == spec_decode_fields(fields, i, bits, pos, t)->Ok_0.0,
    ensures
        spec_encode_fields(fields, vsfull, i, pos2) is Some,
    decreases fields, fields.len() - i, 2nat,
{
    if i < fields.len() {
        let (v, p1, t1) = spec_decode(fields[i].codec, bits, pos, t)->Ok_0;
        let pad = pad_len(p1, fields[i].align as int);
        let t2 = t1.push(EntryV { name: fields[i].name@, value: v });
        let rest = spec_decode_fields(fields, i + 1, bits, p1 + pad, t2)->Ok_0.0;
        let whole = spec_decode_fields(fields, i, bits, pos, t)->Ok_0.0;
        assert(whole == seq![v] + rest);
        assert(whole[0] == v);
        assert(whole.drop_first() =~= rest);
        assert(vsfull[i] == v) by {
            assert(vsfull.skip(i)[0] == vsfull[i]);
        }
        lemma_enc_total(fields[i].codec, bits, pos, t, pos2);
        let e1 = spec_encode(fields[i].codec, v, pos2)->Some_0;
        let pad2 = pad_len(pos2 + e1.len(), fields[i].align as int);
        assert(vsfull.skip(i + 1) =~= rest) by {
            assert forall|k: int| 0 <= k < vsfull.skip(i + 1).len() implies vsfull.skip(i + 1)[k]
                == rest[k] by {
                assert(vsfull.skip(i + 1)[k] == vsfull[i + 1 + k]);
                assert(vsfull.skip(i)[k + 1] == vsfull[i + 1 + k]);
                assert(whole.drop_first()[k] == whole[k + 1]);
            }
        }
        lemma_enc_total_fields(fields, i + 1, bits, p1 + pad, t2, vsfull, pos2 + e1.len() + pad2);
    }
}

/// Decoding never moves the position backwards.
proof fn lemma_dec_mono(c: Codec, bits: Seq<bool>, pos: int, t: Seq<EntryV>)
    requires
        spec_decode(c, bits, pos, t) is Ok,
    ensures
        pos <= spec_decode(c, bits, pos, t)->Ok_0.1,
    decreases c, 0nat, 0nat,
{
    match c {
        Codec::Array { elem, count, align } => {
            lemma_dec_mono_elems(*elem, count as nat, align, align_reset(align), bits, pos, t);
        },
        Codec::VarArray { elem, len, align } => {
            lemma_dec_mono_elems(
                *elem,
                spec_resolve_len(len, t),
                align,
                align_reset(align),
                bits,
                pos,
                t,
            );
        },
        Codec::Record { fields } => {
            lemma_dec_mono_fields(fields@, 0, bits, pos, t);
        },
        _ => {},
    }
}

/// Decoding an element row never moves the position backwards.
proof fn lemma_dec_mono_elems(
    elem: Codec,
    n: nat,
    al: AlignSpec,
    cnt: nat,
    bits: Seq<bool>,
    pos: int,
    t: Seq<EntryV>,
)
    requires
        spec_decode_elems(elem, n, al, cnt, bits, pos, t) is Ok,
    ensures
        pos <= spec_decode_elems(elem, n, al, cnt, bits, pos, t)->Ok_0.1,
    decreases elem, n, 1nat,
{
    if n > 0 {
        let (v, p1, t1) = spec_decode(elem, bits, pos, t)->Ok_0;
        let (pad, cnt2) = step_pad(al, cnt, p1);
        lemma_dec_mono(elem, bits, pos, t);
        lemma_dec_mono_elems(elem, (n - 1) as nat, al, cnt2, bits, p1 + pad, t1);
    }
}

/// Decoding record fields never moves the position backwards.
proof fn lemma_dec_mono_fields(
    fields: Seq<Field>,
    i: int,
    bits: Seq<bool>,
    pos: int,
    t: Seq<EntryV>,
)
    requires
        spec_decode_fields(fields, i, bits, pos, t) is Ok,
    ensures
        pos <= spec_decode_fields(fields, i, bits, pos, t)->Ok_0.1,
    decreases fields, fields.len() - i, 2nat,
{
    if 0 <= i < fields.len() {
        let (v, p1, t1) = spec_decode(fields[i].codec, bits, pos, t)->Ok_0;
        let pad = pad_len(p1, fields[i].align as int);
        let t2 = t1.push(EntryV { name: fields[i].name@, value: v });
        lemma_dec_mono(fields[i].codec, bits, pos, t);
        lemma_dec_mono_fields(fields, i + 1, bits, p1 + pad, t2);
    }
}

/// A slice of an equal window is the matching slice of its content.
proof fn lemma_window(bits2: Seq<bool>, pos2: int, e: Seq<bool>, a: int, b: int)
    requires
        0 <= pos2,
        pos2 + e.len() <= bits2.len(),
        bits2.subrange(pos2, pos2 + e.len()) == e,
        0 <= a <= b <= e.len(),
    ensures
        bits2.subrange(pos2 + a, pos2 + b) == e.subrange(a, b),
{
    assert forall|k: int| 0 <= k < b - a implies bits2.subrange(pos2 + a, pos2 + b)[k]
        == e.subrange(a, b)[k] by {
        assert(e[a + k] == bits2.subrange(pos2, pos2 + e.len())[a + k]);
    }
    assert(bits2.subrange(pos2 + a, pos2 + b) =~= e.subrange(a, b));
}

/// A variable-length integer in range reads back from its own bits.
proof fn lemma_varint_rt(x: u16, bits2: Seq<bool>, pos2: int)
    requires
        x <= 16383,
        0 <= pos2,
        pos2 + varint_bits(x).len() <= bits2.len(),
        bits2.subrange(pos2, pos2 + varint_bits(x).len()) == varint_bits(x),
    ensures
        spec_decode_varint(bits2, pos2) == Ok::<_, ErrView>((x, pos2 + varint_bits(x).len())),
{
    vstd::arithmetic::power2::lemma2_to64();
    let e = varint_bits(x);
    if x <= 127 {
        lemma_nat_to_bits_len(x as nat, 8);
        lemma_window(bits2, pos2, e, 0, 8);
        assert(e.subrange(0, 8) =~= e);
        lemma_bits_round_trip(x as nat, 8);
    } else {
        let a = nat_to_bits((x as nat % 128) + 128, 8);
        let b = nat_to_bits(x as nat / 128, 8);
        lemma_nat_to_bits_len((x as nat % 128) + 128, 8);
        lemma_nat_to_bits_len(x as nat / 128, 8);
        lemma_window(bits2, pos2, e, 0, 8);
        lemma_window(bits2, pos2, e, 8, 16);
        assert(e.subrange(0, 8) =~= a);
        assert(e.subrange(8, 16) =~= b);
        lemma_bits_round_trip((x as nat % 128) + 128, 8);
        lemma_bits_round_trip(x as nat / 128, 8);
        let first = bits_to_nat(bits2.subrange(pos2, pos2 + 8));
        let second = bits_to_nat(bits2.subrange(pos2 + 8, pos2 + 16));
        assert(first == (x as nat % 128) + 128);
        assert(second == x as nat / 128);
        vstd::arithmetic::div_mod::lemma_fundamental_div_mod(x as int, 128);
        assert((first - 128) + 128 * second == x);
    }
}

/// Re-decoding one encoded value from any window that carries its bits
/// yields the value, the position after the window, and the same table
/// growth as the original decode.
#[verifier::rlimit(80)]
proof fn lemma_redecode(
    c: Codec,
    bits: Seq<bool>,
    pos: int,
    t: Seq<EntryV>,
    bits2: Seq<bool>,
    pos2: int,
)
    requires
        0 <= pos,
        spec_decode(c, bits, pos, t) is Ok,
        spec_encode(c, spec_decode(c, bits, pos, t)->Ok_0.0, pos2) is Some,
        0 <= pos2,
        pos2 + spec_encode(c, spec_decode(c, bits, pos, t)->Ok_0.0, pos2)->Some_0.len()
            <= bits2.len(),
        bits2.subrange(
            pos2,
            pos2 + spec_encode(c, spec_decode(c, bits, pos, t)->Ok_0.0, pos2)->Some_0.len(),
        ) == spec_encode(c, spec_decode(c, bits, pos, t)->Ok_0.0, pos2)->Some_0,
    ensures
        ({
            let (v, p, t1) = spec_decode(c, bits, pos, t)->Ok_0;
            let e = spec_encode(c, v, pos2)->Some_0;
            spec_decode(c, bits2, pos2, t) == Ok::<_, ErrView>((v, pos2 + e.len(), t1))
        }),
    decreases c, 0nat, 0nat,
{
    vstd::arithmetic::power2::lemma2_to64();
    let (v, p, t1) = spec_decode(c, bits, pos, t)->Ok_0;
    let e = spec_encode(c, v, pos2)->Some_0;
    match c {
        Codec::U8 => {
            let x = bits_to_nat(bits.subrange(pos, pos + 8)) as u8;
            lemma_bits_to_nat_bound(bits.subrange(pos, pos + 8));
            lemma_nat_to_bits_len(x as nat, 8);
            lemma_window(bits2, pos2, e, 0, 8);
            assert(e.subrange(0, 8) =~= e);
            lemma_bits_round_trip(x as nat, 8);
        },
        Codec::U16 => {
            let x = bits_to_nat(bits.subrange(pos, pos + 16)) as u16;
            lemma_bits_to_nat_bound(bits.subrange(pos, pos + 16));
            lemma_nat_to_bits_len(x as nat, 16);
            lemma_window(bits2, pos2, e, 0, 16);
            assert(e.subrange(0, 16) =~= e);
            lemma_bits_round_trip(x as nat, 16);
        },
        Codec::U32 => {
            let x = bits_to_nat(bits.subrange(pos, pos + 32)) as u32;
            lemma_bits_to_nat_bound(bits.subrange(pos, pos + 32));
            lemma_nat_to_bits_len(x as nat, 32);
            lemma_window(bits2, pos2, e, 0, 32);
            assert(e.subrange(0, 32) =~= e);
            lemma_bits_round_trip(x as nat, 32);
        },
        Codec::F32Bits => {
            let x = bits_to_nat(bits.subrange(pos, pos + 32)) as u32;
            lemma_bits_to_nat_bound(bits.subrange(pos, pos + 32));
            lemma_nat_to_bits_len(x as nat, 32);
            lemma_window(bits2, pos2, e, 0, 32);
            assert(e.subrange(0, 32) =~= e);
            lemma_bits_round_trip(x as nat, 32);
        },
        Codec::Bool => {
            assert(bits2.subrange(pos2, pos2 + 1) == e);
            assert(bits2[pos2] == e[0]);
        },
        Codec::ByteBool => {
            let b = bits[pos];
            lemma_nat_to_bits_len(
                if b {
                    1nat
                } else {
                    0nat
                },
                8,
            );
            assert(e[0] == b);
            assert(bits2[pos2] == bits2.subrange(pos2, pos2 + 8)[0]);
            lemma_window(bits2, pos2, e, 0, 8);
            assert(e.subrange(0, 8) =~= e);
        },
        Codec::VarInt => {
            let x = v->VarInt_0;
            lemma_varint_rt(x, bits2, pos2);
        },
        Codec::Str => {
            let (n, pmid) = spec_decode_varint(bits, pos)->Ok_0;
            let bytes = bits_to_bytes(bits.subrange(pmid, pmid + 8 * (n as int)));
            vstd::utf8::decode_utf8_encode_utf8(bytes);
            let eb = encode_utf8(decode_utf8(bytes));
            assert(eb == bytes);
            assert(bits.subrange(pmid, pmid + 8 * (n as int)).len() == 8 * (n as int));
            assert((8 * (n as int)) / 8 == n as int);
            assert(bytes.len() == n as int);
            let vb = varint_bits(n);
            if n <= 127 {
                lemma_nat_to_bits_len(n as nat, 8);
            } else {
                lemma_nat_to_bits_len((n as nat % 128) + 128, 8);
                lemma_nat_to_bits_len(n as nat / 128, 8);
            }
            lemma_bytes_to_bits_len(bytes);
            assert(e == vb + bytes_to_bits(bytes));
            assert(e.len() == vb.len() + 8 * (n as int));
            lemma_window(bits2, pos2, e, 0, vb.len() as int);
            assert(e.subrange(0, vb.len() as int) =~= vb);
            lemma_varint_rt(n, bits2, pos2);
            lemma_window(bits2, pos2, e, vb.len() as int, e.len() as int);
            assert(e.subrange(vb.len() as int, e.len() as int) =~= bytes_to_bits(bytes));
            let p2 = pos2 + vb.len();
            assert(bits2.subrange(p2 as int, p2 + 8 * (n as int)) == bytes_to_bits(bytes));
            lemma_bytes_bits_bytes(bytes);
            assert(bits_to_bytes(bits2.subrange(p2 as int, p2 + 8 * (n as int))) == bytes);
        },
        Codec::Array { elem, count, align } => {
            lemma_redecode_elems(
                *elem,
                count as nat,
                align,
                align_reset(align),
                bits,
                pos,
                t,
                bits2,
                pos2,
            );
        },
        Codec::VarArray { elem, len, align } => {
            lemma_redecode_elems(
                *elem,
                spec_resolve_len(len, t),
                align,
                align_reset(align),
                bits,
                pos,
                t,
                bits2,
                pos2,
            );
        },
        Codec::Record { fields } => {
            lemma_dec_fields_len(fields@, 0, bits, pos, t);
            let vs = spec_decode_fields(fields@, 0, bits, pos, t)->Ok_0.0;
            assert(vs.skip(0) =~= vs);
            lemma_redecode_fields(fields@, 0, bits, pos, t, vs, bits2, pos2);
        },
    }
}

/// Re-decoding an encoded element row from any window that carries its
/// bits yields the row, the position after the window, and the same
/// table growth.
proof fn lemma_redecode_elems(
    elem: Codec,
    n: nat,
    al: AlignSpec,
    cnt: nat,
    bits: Seq<bool>,
    pos: int,
    t: Seq<EntryV>,
    bits2: Seq<bool>,
    pos2: int,
)
    requires
        0 <= pos,
        spec_decode_elems(elem, n, al, cnt, bits, pos, t) is Ok,
        spec_encode_elems(
            elem,
            spec_decode_elems(elem, n, al, cnt, bits, pos, t)->Ok_0.0,
            al,
            cnt,
            pos2,
        ) is Some,
        0 <= pos2,
        pos2 + spec_encode_elems(
            elem,
            spec_decode_elems(elem, n, al, cnt, bits, pos, t)->Ok_0.0,
            al,
            cnt,
            pos2,
        )->Some_0.len() <= bits2.len(),
        bits2.subrange(
            pos2,
            pos2 + spec_encode_elems(
                elem,
                spec_decode_elems(elem, n, al, cnt, bits, pos, t)->Ok_0.0,
                al,
                cnt,
                pos2,
            )->Some_0.len(),
        ) == spec_encode_elems(
            elem,
            spec_decode_elems(elem, n, al, cnt, bits, pos, t)->Ok_0.0,
            al,
            cnt,
            pos2,
        )->Some_0,
    ensures
        ({
            let (vs, p, t1) = spec_decode_elems(elem, n, al, cnt, bits, pos, t)->Ok_0;
            let e = spec_encode_elems(elem, vs, al, cnt, pos2)->Some_0;
            spec_decode_elems(elem, n, al, cnt, bits2, pos2, t) == Ok::<_, ErrView>(
                (vs, pos2 + e.len(), t1),
            )
        }),
    decreases elem, n, 1nat,
{
    let (vs, p, t1) = spec_decode_elems(elem, n, al, cnt, bits, pos, t)->Ok_0;
    let e = spec_encode_elems(elem, vs, al, cnt, pos2)->Some_0;
    lemma_dec_elems_len(elem, n, al, cnt, bits, pos, t);
    if n == 0 {
        assert(e =~= Seq::<bool>::empty());
        assert(bits2.subrange(pos2, pos2) =~= Seq::<bool>::empty());
    } else {
        let (v, p1, t1a) = spec_decode(elem, bits, pos, t)->Ok_0;
        let (pad_d, cnt2) = step_pad(al, cnt, p1);
        let rest_dec = spec_decode_elems(elem, (n - 1) as nat, al, cnt2, bits, p1 + pad_d, t1a);
        assert(vs[0] == v);
        assert(vs.drop_first() =~= rest_dec->Ok_0.0);
        let e1 = spec_encode(elem, vs[0], pos2)->Some_0;
        let (pad_e, cnt2e) = step_pad(al, cnt, pos2 + e1.len());
        assert(cnt2e == cnt2);
        let rest = spec_encode_elems(elem, vs.drop_first(), al, cnt2, pos2 + e1.len() + pad_e)
            ->Some_0;
        assert(e == e1 + zero_bits(pad_e) + rest);
        assert(e.len() == e1.len() + pad_e + rest.len());
        lemma_window(bits2, pos2, e, 0, e1.len() as int);
        assert(e.subrange(0, e1.len() as int) =~= e1);
        lemma_redecode(elem, bits, pos, t, bits2, pos2);
        let mid = pos2 + e1.len() + pad_e;
        lemma_window(bits2, pos2, e, e1.len() + pad_e, e.len() as int);
        assert(e.subrange(e1.len() + pad_e, e.len() as int) =~= rest) by {
            assert forall|k: int| 0 <= k < rest.len() implies e.subrange(
                e1.len() + pad_e,
                e.len() as int,
            )[k] == rest[k] by {
                assert(e[e1.len() + pad_e + k] == rest[k]);
            }
        }
        lemma_dec_mono(elem, bits, pos, t);
        lemma_redecode_elems(
            elem,
            (n - 1) as nat,
            al,
            cnt2,
            bits,
            p1 + pad_d,
            t1a,
            bits2,
            mid,
        );
        assert(spec_decode_elems(elem, n, al, cnt, bits2, pos2, t) == Ok::<_, ErrView>(
            (seq![v] + rest_dec->Ok_0.0, pos2 + e.len(), t1),
        ));
        assert(vs =~= seq![v] + rest_dec->Ok_0.0);
    }
}

/// Re-decoding encoded record fields from any window that carries their
/// bits yields the same field values and the same table growth.
proof fn lemma_redecode_fields(
    fields: Seq<Field>,
    i: int,
    bits: Seq<bool>,
    pos: int,
    t: Seq<EntryV>,
    vsfull: Seq<ValView>,
    bits2: Seq<bool>,
    pos2: int,
)
    requires
        0 <= pos,
        0 <= i <= fields.len(),
        vsfull.len() == fields.len(),
        spec_decode_fields(fields, i, bits, pos, t) is Ok,
        vsfull.skip(i) == spec_decode_fields(fields, i, bits, pos, t)->Ok_0.0,
        spec_encode_fields(fields, vsfull, i, pos2) is Some,
        0 <= pos2,
        pos2 + spec_encode_fields(fields, vsfull, i, pos2)->Some_0.len() <= bits2.len(),
        bits2.subrange(pos2, pos2 + spec_encode_fields(fields, vsfull, i, pos2)->Some_0.len())
            == spec_encode_fields(fields, vsfull, i, pos2)->Some_0,
    ensures
        ({
            let (vs, p, t1) = spec_decode_fields(fields, i, bits, pos, t)->Ok_0;
            let e = spec_encode_fields(fields, vsfull, i, pos2)->Some_0;
            spec_decode_fields(fields, i, bits2, pos2, t) == Ok::<_, ErrView>(
                (vs, pos2 + e.len(), t1),
            )
        }),
    decreases fields, fields.len() - i, 2nat,
{
    let (vs, p, t1) = spec_decode_fields(fields, i, bits, pos, t)->Ok_0;
    let e = spec_encode_fields(fields, vsfull, i, pos2)->Some_0;
    if i >= fields.len() {
        assert(e =~= Seq::<bool>::empty());
        assert(bits2.subrange(pos2, pos2) =~= Seq::<bool>::empty());
    } else {
        let (v, p1, t1a) = spec_decode(fields[i].codec, bits, pos, t)->Ok_0;
        let pad_d = pad_len(p1, fields[i].align as int);
        let t2 = t1a.push(EntryV { name: fields[i].name@, value: v });
        let rest_dec = spec_decode_fields(fields, i + 1, bits, p1 + pad_d, t2);
        assert(vs[0] == v);
        assert(vs.drop_first() =~= rest_dec->Ok_0.0);
        assert(vsfull[i] == v) by {
            assert(vsfull.skip(i)[0] == vsfull[i]);
        }
        let e1 = spec_encode(fields[i].codec, vsfull[i], pos2)->Some_0;
        let pad_e = pad_len(pos2 + e1.len(), fields[i].align as int);
        let rest = spec_encode_fields(fields, vsfull, i + 1, pos2 + e1.len() + pad_e)->Some_0;
        assert(e == e1 + zero_bits(pad_e) + rest);
        assert(e.len() == e1.len() + pad_e + rest.len());
        lemma_window(bits2, pos2, e, 0, e1.len() as int);
        assert(e.subrange(0, e1.len() as int) =~= e1);
        lemma_redecode(fields[i].codec, bits, pos, t, bits2, pos2);
        let mid = pos2 + e1.len() + pad_e;
        lemma_window(bits2, pos2, e, e1.len() + pad_e, e.len() as int);
        assert(e.subrange(e1.len() + pad_e, e.len() as int) =~= rest) by {
            assert forall|k: int| 0 <= k < rest.len() implies e.subrange(
                e1.len() + pad_e,
                e.len() as int,
            )[k] == rest[k] by {
                assert(e[e1.len() + pad_e + k] == rest[k]);
            }
        }
        assert(vsfull.skip(i + 1) =~= rest_dec->Ok_0.0) by {
            assert forall|k: int| 0 <= k < vsfull.skip(i + 1).len() implies vsfull.skip(i + 1)[k]
                == rest_dec->Ok_0.0[k] by {
                assert(vsfull.skip(i + 1)[k] == vsfull[i + 1 + k]);
                assert(vsfull.skip(i)[k + 1] == vsfull[i + 1 + k]);
                assert(vs.drop_first()[k] == vs[k + 1]);
            }
        }
        lemma_dec_mono(fields[i].codec, bits, pos, t);
        lemma_dec_fields_len(fields, i + 1, bits, p1 + pad_d, t2);
        lemma_redecode_fields(fields, i + 1, bits, p1 + pad_d, t2, vsfull, bits2, mid);
        assert(spec_decode_fields(fields, i, bits2, pos2, t) == Ok::<_, ErrView>(
            (seq![v] + rest_dec->Ok_0.0, pos2 + e.len(), t1),
        ));
        assert(vs =~= seq![v] + rest_dec->Ok_0.0);
    }
}

/// The fixed bit width of a primitive codec, where it has one.
pub open spec fn fixed_width(c: Codec) -> Option<int> {
    match c {
        Codec::U8 => Some(8),
        Codec::U16 => Some(16),
        Codec::U32 => Some(32),
        Codec::F32Bits => Some(32),
        Codec::Bool => Some(1),
        Codec::ByteBool => Some(8),
        _ => None,
    }
}

/// Truncated input: a buffer holding fewer bits than a fixed-width
/// field needs decodes to `InsufficientBits` and nothing else. (That no
/// input can crash any decode is part of the verification of the
/// interpreter itself.)
pub proof fn lemma_truncated_input(c: Codec, bits: Seq<bool>, pos: int, t: Seq<EntryV>, w: int)
    requires
        fixed_width(c) == Some(w),
        pos + w > bits.len(),
    ensures
        spec_decode(c, bits, pos, t) == Err::<(ValView, int, Seq<EntryV>), _>(
            ErrView::InsufficientBits,
        ),
{
}

/// Packing widths: a row of byte-wide booleans takes eight bits per
/// element, a row of single-bit booleans one bit per element, whatever
/// the values.
pub proof fn lemma_bool_packing(
    byte_wise: bool,
    n: nat,
    cnt: nat,
    bits: Seq<bool>,
    pos: int,
    t: Seq<EntryV>,
)
    requires
        spec_decode_elems(
            if byte_wise {
                Codec::ByteBool
            } else {
                Codec::Bool
            },
            n,
            AlignSpec { align: 0, every: 0 },
            cnt,
            bits,
            pos,
            t,
        ) is Ok,
    ensures
        spec_decode_elems(
            if byte_wise {
                Codec::ByteBool
            } else {
                Codec::Bool
            },
            n,
            AlignSpec { align: 0, every: 0 },
            cnt,
            bits,
            pos,
            t,
        )->Ok_0.1 == pos + n * (
        if byte_wise {
            8int
        } else {
            1int
        }),
    decreases n,
{
    let c = if byte_wise {
        Codec::ByteBool
    } else {
        Codec::Bool
    };
    let w = if byte_wise {
        8int
    } else {
        1int
    };
    let al = AlignSpec { align: 0, every: 0 };
    if n == 0 {
        assert(n * w == 0);
    } else {
        let (v, p1, t1) = spec_decode(c, bits, pos, t)->Ok_0;
        assert(p1 == pos + w);
        lemma_bool_packing(byte_wise, (n - 1) as nat, 0, bits, p1, t1);
        assert(n * w == (n - 1) * w + w) by (nonlinear_arith);
    }
}

/// Alignment padding: the pad a field or element consumes carries the
/// offset to the next multiple of the alignment and is always shorter
/// than the alignment itself.
pub proof fn lemma_pad_aligns(pos: int, align: int)
    requires
        0 <= pos,
        0 < align,
    ensures
        0 <= pad_len(pos, align) < align,
        (pos + pad_len(pos, align)) % align == 0,
        pos % align == 0 ==> pad_len(pos, align) == 0,
{
    let r = pos % align;
    vstd::arithmetic::div_mod::lemma_mod_self_0(align);
    if r == 0 {
    } else {
        vstd::arithmetic::div_mod::lemma_small_mod((align - r) as nat, align as nat);
        assert(pad_len(pos, align) == align - r);
        vstd::arithmetic::div_mod::lemma_fundamental_div_mod(pos, align);
        assert(pos + (align - r) == align * (pos / align) + align);
        let q = pos / align + 1;
        assert(align * (pos / align) + align == align * (pos / align + 1)) by (nonlinear_arith);
        vstd::arithmetic::div_mod::lemma_mod_multiples_vanish(q, 0, align);
        assert((align * q) % align == 0);
    }
}

/// Round trip: every value a decode can construct, whose
/// variable-length integers and string lengths lie in the encodable
/// range, encodes again, and decoding the encoding alone yields the same
/// value, consumes exactly the whole encoding, and rebuilds the same
/// sibling-value table.
pub proof fn lemma_round_trip(c: Codec, bits: Seq<bool>)
    requires
        spec_decode(c, bits, 0, Seq::<EntryV>::empty()) is Ok,
        val_encodable(spec_decode(c, bits, 0, Seq::<EntryV>::empty())->Ok_0.0),
    ensures
        ({
            let (v, p, t1) = spec_decode(c, bits, 0, Seq::<EntryV>::empty())->Ok_0;
            spec_encode(c, v, 0) matches Some(e) && spec_decode(c, e, 0, Seq::<EntryV>::empty())
                == Ok::<_, ErrView>((v, e.len() as int, t1))
        }),
{
    lemma_enc_total(c, bits, 0, Seq::<EntryV>::empty(), 0);
    let (v, p, t1) = spec_decode(c, bits, 0, Seq::<EntryV>::empty())->Ok_0;
    let e = spec_encode(c, v, 0)->Some_0;
    assert(e.subrange(0, e.len() as int) =~= e);
    lemma_redecode(c, bits, 0, Seq::<EntryV>::empty(), e, 0);
}

/// Round trip through whole bytes, as the byte-level entry points work:
/// the encoding, zero-padded to the next byte boundary and passed through
/// bytes, decodes back to the decoded value, consuming exactly the
/// unpadded encoding.
pub proof fn lemma_round_trip_bytes(c: Codec, bytes: Seq<u8>)
    requires
        spec_decode(c, bytes_to_bits(bytes), 0, Seq::<EntryV>::empty()) is Ok,
        val_encodable(spec_decode(c, bytes_to_bits(bytes), 0, Seq::<EntryV>::empty())->Ok_0.0),
    ensures
        ({
            let (v, p, t1) = spec_decode(c, bytes_to_bits(bytes), 0, Seq::<EntryV>::empty())
                ->Ok_0;
            spec_encode(c, v, 0) matches Some(e) && {
                let out = bits_to_bytes(e + zero_bits(pad_len(e.len() as int, 8)));
                spec_decode(c, bytes_to_bits(out), 0, Seq::<EntryV>::empty()) == Ok::<_, ErrView>(
                    (v, e.len() as int, t1),
                )
            }
        }),
{
    let bits = bytes_to_bits(bytes);
    lemma_enc_total(c, bits, 0, Seq::<EntryV>::empty(), 0);
    let (v, p, t1) = spec_decode(c, bits, 0, Seq::<EntryV>::empty())->Ok_0;
    let e = spec_encode(c, v, 0)->Some_0;
    let padded = e + zero_bits(pad_len(e.len() as int, 8));
    lemma_pad_aligns(e.len() as int, 8);
    assert(padded.len() % 8 == 0);
    crate::bits::lemma_bits_bytes_bits(padded);
    let out = bits_to_bytes(padded);
    assert(bytes_to_bits(out) == padded);
    assert(padded.subrange(0, e.len() as int) =~= e);
    lemma_redecode(c, bits, 0, Seq::<EntryV>::empty(), padded, 0);
}

} // verus!
