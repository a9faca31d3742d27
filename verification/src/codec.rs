//! The executable codec interpreter: decoding and encoding of any codec
//! against a bit buffer, each proved to behave exactly as the mathematical
//! model in `model` says.

use vstd::prelude::*;
use crate::bits::{
    BitBuf, stream, BIT_CAP, bit_len, bit_at, load_bits, store_bits, push_bit, empty_bits,
    bits_from_bytes, bits_into_bytes, nat_to_bits, bytes_to_bits, bits_to_bytes,
    lemma_nat_to_bits_len, lemma_bytes_to_bits_len,
};
use crate::model::{
    spec_decode, spec_decode_elems, spec_decode_fields, spec_decode_varint, spec_encode,
    spec_encode_elems, spec_encode_fields, varint_bits, pad_len, step_pad, align_reset, zero_bits,
};
use crate::schema::{Codec, Field, AlignSpec, resolve_len};
use crate::value::{
    Value, ValView, val_view, vals_view, lemma_vals_view, CodecError, ErrView, err_view,
    SiblingTable, EntryV,
};
use vstd::utf8::{valid_utf8, decode_utf8};

verus! {

broadcast use
    vstd::seq::axiom_seq_index_decreases,
    vstd::std_specs::vec::axiom_vec_decreases_to_view;

/// Relies on `std::str::from_utf8`: it accepts exactly the valid UTF-8
/// byte sequences and decodes them to the characters they encode.
#[verifier::external_body]
fn utf8_to_string(bytes: &Vec<u8>) -> (r: Option<String>)
    ensures
        match r {
            Some(s) => valid_utf8(bytes@) && s@ == decode_utf8(bytes@),
            None => !valid_utf8(bytes@),
        },
{
    match std::str::from_utf8(bytes.as_slice()) {
        Ok(s) => Some(s.to_string()),
        Err(_) => None,
    }
}

/// Reads `n` whole bytes starting at bit position `pos`.
fn read_bytes(buf: &BitBuf, pos: usize, n: usize) -> (r: Vec<u8>)
    requires
        stream(*buf).len() <= BIT_CAP,
        pos + 8 * n <= stream(*buf).len(),
    ensures
        r@ == bits_to_bytes(stream(*buf).subrange(pos as int, pos + 8 * n)),
{
    let ghost chunk = stream(*buf).subrange(pos as int, pos + 8 * (n as int));
    let mut out: Vec<u8> = Vec::new();
    let mut i: usize = 0;
    while i < n
        invariant
            i <= n,
            stream(*buf).len() <= BIT_CAP,
            pos + 8 * n <= stream(*buf).len(),
            chunk == stream(*buf).subrange(pos as int, pos + 8 * (n as int)),
            out@.len() == i,
            forall|j: int| 0 <= j < i ==> out@[j] == bits_to_bytes(chunk)[j],
        decreases n - i,
    {
        let b = load_bits(buf, pos + 8 * i, 8);
        proof {
            vstd::arithmetic::power2::lemma2_to64();
            assert(stream(*buf).subrange(pos + 8 * i, pos + 8 * i + 8) =~= chunk.subrange(
                8 * (i as int),
                8 * (i as int) + 8,
            ));
        }
        out.push(b as u8);
        i = i + 1;
    }
    proof {
        assert(out@ =~= bits_to_bytes(chunk));
    }
    out
}

/// The zero-padding that carries `pos` to the next multiple of `align`.
fn pad_amount(pos: usize, align: usize) -> (r: usize)
    ensures
        r == pad_len(pos as int, align as int),
        r == 0 || r < align,
{
    if align == 0 {
        0
    } else {
        let rem = pos % align;
        let pad = if rem == 0 {
            0
        } else {
            align - rem
        };
        proof {
            vstd::arithmetic::div_mod::lemma_mod_self_0(align as int);
            if rem != 0 {
                vstd::arithmetic::div_mod::lemma_small_mod((align - rem) as nat, align as nat);
            }
            assert(pad == pad_len(pos as int, align as int));
        }
        pad
    }
}

/// Advances `pos` over the zero-padding that carries it to the next
/// multiple of `align`, failing when the buffer ends inside the padding.
fn skip_pad(buf: &BitBuf, pos: usize, align: usize) -> (r: Result<usize, CodecError>)
    requires
        pos <= stream(*buf).len(),
        stream(*buf).len() <= BIT_CAP,
    ensures
        match r {
            Ok(p) => p == pos + pad_len(pos as int, align as int) && p <= stream(*buf).len(),
            Err(e) => err_view(e) == (ErrView::InsufficientBits) && pos + pad_len(
                pos as int,
                align as int,
            ) > stream(*buf).len(),
        },
{
    let pad = pad_amount(pos, align);
    let total = bit_len(buf);
    if pad > total - pos {
        Err(CodecError::InsufficientBits)
    } else {
        Ok(pos + pad)
    }
}

/// Decodes a variable-length integer at `pos`.
fn dec_varint(buf: &BitBuf, pos: usize) -> (r: Result<(u16, usize), CodecError>)
    requires
        pos <= stream(*buf).len(),
        stream(*buf).len() <= BIT_CAP,
    ensures
        match r {
            Ok((x, p)) => spec_decode_varint(stream(*buf), pos as int) == Ok::<_, ErrView>(
                (x, p as int),
            ) && pos <= p <= stream(*buf).len(),
            Err(e) => spec_decode_varint(stream(*buf), pos as int) == Err::<(u16, int), _>(
                err_view(e),
            ),
        },
{
    let total = bit_len(buf);
    if 8 > total - pos {
        return Err(CodecError::InsufficientBits);
    }
    let first = load_bits(buf, pos, 8);
    proof {
        vstd::arithmetic::power2::lemma2_to64();
    }
    if first > 127 {
        if 16 > total - pos {
            return Err(CodecError::InsufficientBits);
        }
        let second = load_bits(buf, pos + 8, 8);
        Ok((((first - 128) + 128 * second) as u16, pos + 16))
    } else {
        Ok((first as u16, pos + 8))
    }
}

/// Decodes one value of codec `c` at `pos`, threading the sibling table.
/// Behaves exactly as `spec_decode` on the buffer's bits; the table only
/// ever grows at the end.
pub fn dec_codec(c: &Codec, buf: &BitBuf, pos: usize, tbl: &mut SiblingTable) -> (r: Result<
    (Value, usize),
    CodecError,
>)
    requires
        pos <= stream(*buf).len(),
        stream(*buf).len() <= BIT_CAP,
    ensures
        old(tbl)@.is_prefix_of(final (tbl)@),
        match r {
            Ok((v, end)) => spec_decode(*c, stream(*buf), pos as int, old(tbl)@) == Ok::<_, ErrView>(
                (val_view(v), end as int, final (tbl)@),
            ) && pos <= end <= stream(*buf).len(),
            Err(e) => spec_decode(*c, stream(*buf), pos as int, old(tbl)@) matches Err(ev) && ev
                == err_view(e),
        },
    decreases *c, 0nat, 0nat,
{
    broadcast use vstd::std_specs::vec::axiom_vec_index_decreases;

    proof {
        vstd::arithmetic::power2::lemma2_to64();
    }
    let total = bit_len(buf);
    match c {
        Codec::U8 => {
            if 8 > total - pos {
                Err(CodecError::InsufficientBits)
            } else {
                let x = load_bits(buf, pos, 8);
                Ok((Value::U8(x as u8), pos + 8))
            }
        },
        Codec::U16 => {
            if 16 > total - pos {
                Err(CodecError::InsufficientBits)
            } else {
                let x = load_bits(buf, pos, 16);
                Ok((Value::U16(x as u16), pos + 16))
            }
        },
        Codec::U32 => {
            if 32 > total - pos {
                Err(CodecError::InsufficientBits)
            } else {
                let x = load_bits(buf, pos, 32);
                Ok((Value::U32(x), pos + 32))
            }
        },
        Codec::F32Bits => {
            if 32 > total - pos {
                Err(CodecError::InsufficientBits)
            } else {
                let x = load_bits(buf, pos, 32);
                Ok((Value::F32Bits(x), pos + 32))
            }
        },
        Codec::Bool => {
            if 1 > total - pos {
                Err(CodecError::InsufficientBits)
            } else {
                Ok((Value::Bool(bit_at(buf, pos)), pos + 1))
            }
        },
        Codec::ByteBool => {
            if 8 > total - pos {
                Err(CodecError::InsufficientBits)
            } else {
                Ok((Value::ByteBool(bit_at(buf, pos)), pos + 8))
            }
        },
        Codec::VarInt => {
            match dec_varint(buf, pos) {
                Ok((x, p)) => Ok((Value::VarInt(x), p)),
                Err(e) => Err(e),
            }
        },
        Codec::Str => {
            match dec_varint(buf, pos) {
                Ok((n, p)) => {
                    let count = n as usize;
                    if count > (total - p) / 8 {
                        proof {
                            assert(p + 8 * (n as int) > stream(*buf).len());
                        }
                        Err(CodecError::InsufficientBits)
                    } else {
                        proof {
                            assert(p + 8 * (n as int) <= stream(*buf).len());
                        }
                        let bytes = read_bytes(buf, p, count);
                        match utf8_to_string(&bytes) {
                            Some(s) => Ok((Value::Str(s), p + 8 * count)),
                            None => Err(CodecError::InvalidUtf8(bytes)),
                        }
                    }
                },
                Err(e) => Err(e),
            }
        },
        Codec::Array { elem, count, align } => {
            match dec_elems(elem, *count, align, initial_countdown(align), buf, pos, tbl) {
                Ok((vs, p)) => Ok((Value::List(vs), p)),
                Err(e) => Err(e),
            }
        },
        Codec::VarArray { elem, len, align } => {
            let n = resolve_len(len, tbl);
            match dec_elems(elem, n, align, initial_countdown(align), buf, pos, tbl) {
                Ok((vs, p)) => Ok((Value::List(vs), p)),
                Err(e) => Err(e),
            }
        },
        Codec::Record { fields } => {
            match dec_fields(fields, 0, buf, pos, tbl) {
                Ok((vs, p)) => Ok((Value::Record(vs), p)),
                Err(e) => Err(e),
            }
        },
    }
}

/// A prefix of a prefix is a prefix.
proof fn lemma_prefix_trans<T>(a: Seq<T>, b: Seq<T>, c: Seq<T>)
    requires
        a.is_prefix_of(b),
        b.is_prefix_of(c),
    ensures
        a.is_prefix_of(c),
{
    assert forall|k: int| 0 <= k < a.len() implies a[k] == c[k] by {
        assert(a[k] == b.subrange(0, a.len() as int)[k]);
        assert(b[k] == c.subrange(0, b.len() as int)[k]);
    }
    assert(a =~= c.subrange(0, a.len() as int));
}

/// Appending keeps the old sequence as a prefix.
proof fn lemma_prefix_push<T>(a: Seq<T>, x: T)
    ensures
        a.is_prefix_of(a.push(x)),
{
    assert(a =~= a.push(x).subrange(0, a.len() as int));
}

/// The starting countdown of a repeated-element field.
fn initial_countdown(al: &AlignSpec) -> (r: usize)
    ensures
        r == align_reset(*al),
{
    if al.every == 0 {
        1
    } else {
        al.every
    }
}

/// Decodes `n` elements of one codec in a row, padding after each.
fn dec_elems(
    elem: &Codec,
    n: usize,
    al: &AlignSpec,
    cnt: usize,
    buf: &BitBuf,
    pos: usize,
    tbl: &mut SiblingTable,
) -> (r: Result<(Vec<Value>, usize), CodecError>)
    requires
        pos <= stream(*buf).len(),
        stream(*buf).len() <= BIT_CAP,
    ensures
        old(tbl)@.is_prefix_of(final (tbl)@),
        match r {
            Ok((vs, end)) => spec_decode_elems(
                *elem,
                n as nat,
                *al,
                cnt as nat,
                stream(*buf),
                pos as int,
                old(tbl)@,
            ) == Ok::<_, ErrView>((vals_view(vs@), end as int, final (tbl)@)) && pos <= end <= stream(
                *buf,
            ).len(),
            Err(e) => spec_decode_elems(
                *elem,
                n as nat,
                *al,
                cnt as nat,
                stream(*buf),
                pos as int,
                old(tbl)@,
            ) matches Err(ev) && ev == err_view(e),
        },
    decreases *elem, n, 1nat,
{
    if n == 0 {
        let vs: Vec<Value> = Vec::new();
        proof {
            assert(vals_view(vs@) =~= Seq::<ValView>::empty());
        }
        Ok((vs, pos))
    } else {
        let (v, p1) = match dec_codec(elem, buf, pos, tbl) {
            Ok(x) => x,
            Err(e) => {
                return Err(e);
            },
        };
        let (p2, cnt2) = if al.align == 0 {
            (p1, 0)
        } else if cnt <= 1 {
            let p = match skip_pad(buf, p1, al.align) {
                Ok(p) => p,
                Err(e) => {
                    return Err(e);
                },
            };
            (p, initial_countdown(al))
        } else {
            (p1, cnt - 1)
        };
        proof {
            assert((p2 - p1, cnt2 as nat) == step_pad(*al, cnt as nat, p1 as int));
        }
        let ghost mid_tbl = tbl@;
        let (mut vs, p3) = match dec_elems(elem, n - 1, al, cnt2, buf, p2, tbl) {
            Ok(x) => x,
            Err(e) => {
                proof {
                    lemma_prefix_trans(old(tbl)@, mid_tbl, tbl@);
                }
                return Err(e);
            },
        };
        let ghost rec_vs = vs@;
        vs.insert(0, v);
        proof {
            lemma_prefix_trans(old(tbl)@, mid_tbl, tbl@);
            lemma_vals_view(vs@);
            lemma_vals_view(rec_vs);
            assert(vs@.drop_first() =~= rec_vs);
            assert(vs@[0] == v);
            assert(vals_view(vs@) =~= seq![val_view(v)] + vals_view(rec_vs)) by {
                assert forall|k: int| 0 <= k < vals_view(vs@).len() implies vals_view(vs@)[k] == (
                seq![val_view(v)] + vals_view(rec_vs))[k] by {
                    if k > 0 {
                        assert(vs@[k] == rec_vs[k - 1]);
                    }
                }
            }
        }
        Ok((vs, p3))
    }
}

/// Decodes a record's fields from `i` on: each decoded value is inserted
/// into the shared table under its field name before the next field, and
/// field padding is consumed after each field.
fn dec_fields(
    fields: &Vec<Field>,
    i: usize,
    buf: &BitBuf,
    pos: usize,
    tbl: &mut SiblingTable,
) -> (r: Result<(Vec<Value>, usize), CodecError>)
    requires
        i <= fields@.len(),
        pos <= stream(*buf).len(),
        stream(*buf).len() <= BIT_CAP,
    ensures
        old(tbl)@.is_prefix_of(final (tbl)@),
        match r {
            Ok((vs, end)) => spec_decode_fields(
                fields@,
                i as int,
                stream(*buf),
                pos as int,
                old(tbl)@,
            ) == Ok::<_, ErrView>((vals_view(vs@), end as int, final (tbl)@)) && pos <= end <= stream(
                *buf,
            ).len(),
            Err(e) => spec_decode_fields(
                fields@,
                i as int,
                stream(*buf),
                pos as int,
                old(tbl)@,
            ) matches Err(ev) && ev == err_view(e),
        },
    decreases fields@, fields@.len() - i, 2nat,
{
    broadcast use vstd::std_specs::vec::axiom_vec_index_decreases;

    if i >= fields.len() {
        let vs: Vec<Value> = Vec::new();
        proof {
            assert(vals_view(vs@) =~= Seq::<ValView>::empty());
        }
        Ok((vs, pos))
    } else {
        let field = &fields[i];
        let (v, p1) = match dec_codec(&field.codec, buf, pos, tbl) {
            Ok(x) => x,
            Err(e) => {
                return Err(e);
            },
        };
        let p2 = match skip_pad(buf, p1, field.align) {
            Ok(p) => p,
            Err(e) => {
                return Err(e);
            },
        };
        let ghost t1 = tbl@;
        let dup = v.duplicate();
        tbl.insert(field.name.clone(), dup);
        let ghost t2 = tbl@;
        proof {
            lemma_prefix_push(t1, EntryV { name: field.name@, value: val_view(v) });
            lemma_prefix_trans(old(tbl)@, t1, t2);
        }
        let (mut vs, p3) = match dec_fields(fields, i + 1, buf, p2, tbl) {
            Ok(x) => x,
            Err(e) => {
                proof {
                    lemma_prefix_trans(old(tbl)@, t2, tbl@);
                }
                return Err(e);
            },
        };
        let ghost rec_vs = vs@;
        vs.insert(0, v);
        proof {
            lemma_prefix_trans(old(tbl)@, t2, tbl@);
            lemma_vals_view(vs@);
            lemma_vals_view(rec_vs);
            assert(vs@.drop_first() =~= rec_vs);
            assert(vs@[0] == v);
            assert(vals_view(vs@) =~= seq![val_view(v)] + vals_view(rec_vs)) by {
                assert forall|k: int| 0 <= k < vals_view(vs@).len() implies vals_view(vs@)[k] == (
                seq![val_view(v)] + vals_view(rec_vs))[k] by {
                    if k > 0 {
                        assert(vs@[k] == rec_vs[k - 1]);
                    }
                }
            }
        }
        Ok((vs, p3))
    }
}

/// Concatenation keeps the left part as a prefix.
proof fn lemma_prefix_concat<T>(a: Seq<T>, b: Seq<T>)
    ensures
        a.is_prefix_of(a + b),
{
    assert(a =~= (a + b).subrange(0, a.len() as int));
}

/// A sequence is a prefix of itself.
proof fn lemma_prefix_refl<T>(a: Seq<T>)
    ensures
        a.is_prefix_of(a),
{
    assert(a =~= a.subrange(0, a.len() as int));
}

/// A value's mathematical image has the shape of the value itself.
proof fn lemma_val_shape(v: Value)
    ensures
        (v is U8 <==> val_view(v) is U8),
        (v is U16 <==> val_view(v) is U16),
        (v is U32 <==> val_view(v) is U32),
        (v is F32Bits <==> val_view(v) is F32Bits),
        (v is Bool <==> val_view(v) is Bool),
        (v is ByteBool <==> val_view(v) is ByteBool),
        (v is VarInt <==> val_view(v) is VarInt),
        (v is Str <==> val_view(v) is Str),
        (v is List <==> val_view(v) is List),
        (v is Record <==> val_view(v) is Record),
{
    match v {
        Value::U8(_) => {},
        Value::U16(_) => {},
        Value::U32(_) => {},
        Value::F32Bits(_) => {},
        Value::Bool(_) => {},
        Value::ByteBool(_) => {},
        Value::VarInt(_) => {},
        Value::Str(_) => {},
        Value::List(_) => {},
        Value::Record(_) => {},
    }
}

/// Appends `n` zero bits.
fn push_zeros(buf: &mut BitBuf, n: usize)
    requires
        stream(*old(buf)).len() + n <= BIT_CAP,
    ensures
        stream(*final(buf)) == stream(*old(buf)) + zero_bits(n as int),
    decreases n,
{
    if n == 0 {
        proof {
            assert(stream(*buf) =~= stream(*buf) + zero_bits(0));
        }
    } else {
        push_bit(buf, false);
        push_zeros(buf, n - 1);
        proof {
            assert(stream(*buf) =~= stream(*old(buf)) + zero_bits(n as int));
        }
    }
}

/// Appends the bits of every byte from index `i` on.
fn store_bytes(buf: &mut BitBuf, bytes: &Vec<u8>, i: usize)
    requires
        i <= bytes@.len(),
        stream(*old(buf)).len() + 8 * (bytes@.len() - i) <= BIT_CAP,
    ensures
        stream(*final(buf)) == stream(*old(buf)) + bytes_to_bits(bytes@.skip(i as int)),
    decreases bytes@.len() - i,
{
    proof {
        lemma_bytes_to_bits_len(bytes@.skip(i as int));
    }
    if i == bytes.len() {
        proof {
            assert(bytes@.skip(i as int) =~= Seq::<u8>::empty());
            assert(stream(*buf) =~= stream(*buf) + bytes_to_bits(bytes@.skip(i as int)));
        }
    } else {
        proof {
            vstd::arithmetic::power2::lemma2_to64();
            lemma_nat_to_bits_len(bytes@[i as int] as nat, 8);
        }
        store_bits(buf, bytes[i] as u32, 8);
        store_bytes(buf, bytes, i + 1);
        proof {
            let s = bytes@.skip(i as int);
            assert(s[0] == bytes@[i as int]);
            assert(s.drop_first() =~= bytes@.skip(i + 1));
            assert(bytes_to_bits(s) == crate::bits::byte_bits(s[0]) + bytes_to_bits(
                s.drop_first(),
            ));
            assert(stream(*buf) =~= stream(*old(buf)) + bytes_to_bits(s));
        }
    }
}

/// Appends one fixed-width chunk, failing when it would pass the cap.
fn enc_chunk(buf: &mut BitBuf, x: u32, w: usize) -> (r: Result<(), CodecError>)
    requires
        w <= 32,
        (x as nat) < crate::bits::pow2(w as nat),
        stream(*old(buf)).len() <= BIT_CAP,
    ensures
        stream(*old(buf)).is_prefix_of(stream(*final(buf))),
        match r {
            Ok(_) => stream(*final(buf)) == stream(*old(buf)) + nat_to_bits(x as nat, w as nat)
                && stream(*final(buf)).len() <= BIT_CAP,
            Err(e) => err_view(e) == (ErrView::OutOfRange) && stream(*old(buf)).len() + w > BIT_CAP
                && stream(*final(buf)) == stream(*old(buf)),
        },
{
    proof {
        lemma_nat_to_bits_len(x as nat, w as nat);
    }
    if w > BIT_CAP - bit_len(buf) {
        proof {
            lemma_prefix_refl(stream(*buf));
        }
        Err(CodecError::OutOfRange)
    } else {
        store_bits(buf, x, w);
        proof {
            lemma_prefix_concat(stream(*old(buf)), nat_to_bits(x as nat, w as nat));
        }
        Ok(())
    }
}

/// Appends a variable-length integer, failing when it would pass the cap.
fn enc_varint(buf: &mut BitBuf, x: u16) -> (r: Result<(), CodecError>)
    requires
        x <= 16383,
        stream(*old(buf)).len() <= BIT_CAP,
    ensures
        stream(*old(buf)).is_prefix_of(stream(*final(buf))),
        match r {
            Ok(_) => stream(*final(buf)) == stream(*old(buf)) + varint_bits(x) && stream(
                *final(buf),
            ).len() <= BIT_CAP,
            Err(e) => err_view(e) == (ErrView::OutOfRange) && stream(*old(buf)).len()
                + varint_bits(x).len() > BIT_CAP && stream(*final(buf)) == stream(*old(buf)),
        },
{
    proof {
        vstd::arithmetic::power2::lemma2_to64();
        lemma_nat_to_bits_len(x as nat, 8);
        if x > 127 {
            lemma_nat_to_bits_len((x as nat % 128) + 128, 8);
            lemma_nat_to_bits_len(x as nat / 128, 8);
        }
    }
    if x <= 127 {
        enc_chunk(buf, x as u32, 8)
    } else {
        if 16 > BIT_CAP - bit_len(buf) {
            proof {
                lemma_prefix_refl(stream(*buf));
            }
            return Err(CodecError::OutOfRange);
        }
        let b0 = (x % 128 + 128) as u32;
        let b1 = (x / 128) as u32;
        store_bits(buf, b0, 8);
        store_bits(buf, b1, 8);
        proof {
            assert(stream(*buf) =~= stream(*old(buf)) + varint_bits(x));
            lemma_prefix_concat(stream(*old(buf)), varint_bits(x));
        }
        Ok(())
    }
}

/// Encodes one value of codec `c`, appending its bits to the buffer.
/// Succeeds exactly when `spec_encode` yields bits that still fit under
/// the buffer cap; every failure is `OutOfRange`. Encoding never consults
/// a sibling table.
pub fn enc_codec(c: &Codec, v: &Value, buf: &mut BitBuf) -> (r: Result<(), CodecError>)
    requires
        stream(*old(buf)).len() <= BIT_CAP,
    ensures
        stream(*old(buf)).is_prefix_of(stream(*final(buf))),
        match r {
            Ok(_) => spec_encode(*c, val_view(*v), stream(*old(buf)).len() as int) matches Some(e)
                && stream(*final(buf)) == stream(*old(buf)) + e && stream(*final(buf)).len()
                <= BIT_CAP,
            Err(er) => err_view(er) == (ErrView::OutOfRange) && match spec_encode(
                *c,
                val_view(*v),
                stream(*old(buf)).len() as int,
            ) {
                Some(e) => stream(*old(buf)).len() + e.len() > BIT_CAP,
                None => true,
            },
        },
    decreases *c, 0nat, 0nat,
{
    broadcast use vstd::std_specs::vec::axiom_vec_index_decreases;

    proof {
        vstd::arithmetic::power2::lemma2_to64();
        lemma_val_shape(*v);
        lemma_prefix_refl(stream(*buf));
    }
    match c {
        Codec::U8 => match v {
            Value::U8(x) => {
                proof {
                    lemma_nat_to_bits_len(*x as nat, 8);
                }
                enc_chunk(buf, *x as u32, 8)
            },
            _ => Err(CodecError::OutOfRange),
        },
        Codec::U16 => match v {
            Value::U16(x) => {
                proof {
                    lemma_nat_to_bits_len(*x as nat, 16);
                }
                enc_chunk(buf, *x as u32, 16)
            },
            _ => Err(CodecError::OutOfRange),
        },
        Codec::U32 => match v {
            Value::U32(x) => {
                proof {
                    lemma_nat_to_bits_len(*x as nat, 32);
                }
                enc_chunk(buf, *x, 32)
            },
            _ => Err(CodecError::OutOfRange),
        },
        Codec::F32Bits => match v {
            Value::F32Bits(x) => {
                proof {
                    lemma_nat_to_bits_len(*x as nat, 32);
                }
                enc_chunk(buf, *x, 32)
            },
            _ => Err(CodecError::OutOfRange),
        },
        Codec::Bool => match v {
            Value::Bool(b) => {
                if 1 > BIT_CAP - bit_len(buf) {
                    Err(CodecError::OutOfRange)
                } else {
                    push_bit(buf, *b);
                    proof {
                        assert(stream(*buf) =~= stream(*old(buf)) + seq![*b]);
                        lemma_prefix_concat(stream(*old(buf)), seq![*b]);
                    }
                    Ok(())
                }
            },
            _ => Err(CodecError::OutOfRange),
        },
        Codec::ByteBool => match v {
            Value::ByteBool(b) => {
                proof {
                    lemma_nat_to_bits_len(
                        if *b {
                            1nat
                        } else {
                            0nat
                        },
                        8,
                    );
                }
                enc_chunk(
                    buf,
                    if *b {
                        1
                    } else {
                        0
                    },
                    8,
                )
            },
            _ => Err(CodecError::OutOfRange),
        },
        Codec::VarInt => match v {
            Value::VarInt(x) => {
                if *x > 16383 {
                    Err(CodecError::OutOfRange)
                } else {
                    enc_varint(buf, *x)
                }
            },
            _ => Err(CodecError::OutOfRange),
        },
        Codec::Str => match v {
            Value::Str(s) => {
                let bytes = s.as_str().as_bytes_vec();
                if bytes.len() > 16383 {
                    Err(CodecError::OutOfRange)
                } else {
                    match enc_varint(buf, bytes.len() as u16) {
                        Ok(_) => {},
                        Err(e) => {
                            proof {
                                lemma_bytes_to_bits_len(bytes@);
                            }
                            return Err(e);
                        },
                    }
                    let here = bit_len(buf);
                    if bytes.len() > (BIT_CAP - here) / 8 {
                        proof {
                            lemma_bytes_to_bits_len(bytes@);
                        }
                        return Err(CodecError::OutOfRange);
                    }
                    proof {
                        lemma_bytes_to_bits_len(bytes@);
                    }
                    store_bytes(buf, &bytes, 0);
                    proof {
                        assert(bytes@.skip(0) =~= bytes@);
                        assert(stream(*buf) =~= stream(*old(buf)) + (varint_bits(
                            bytes.len() as u16,
                        ) + bytes_to_bits(bytes@)));
                        lemma_prefix_concat(
                            stream(*old(buf)),
                            varint_bits(bytes.len() as u16) + bytes_to_bits(bytes@),
                        );
                    }
                    Ok(())
                }
            },
            _ => Err(CodecError::OutOfRange),
        },
        Codec::Array { elem, count, align } => match v {
            Value::List(vs) => {
                proof {
                    lemma_vals_view(vs@);
                }
                if vs.len() != *count {
                    Err(CodecError::OutOfRange)
                } else {
                    let r = enc_elems(elem, vs, 0, align, initial_countdown(align), buf);
                    proof {
                        assert(vals_view(vs@).skip(0) =~= vals_view(vs@));
                    }
                    r
                }
            },
            _ => Err(CodecError::OutOfRange),
        },
        Codec::VarArray { elem, len, align } => match v {
            Value::List(vs) => {
                let r = enc_elems(elem, vs, 0, align, initial_countdown(align), buf);
                proof {
                    assert(vals_view(vs@).skip(0) =~= vals_view(vs@));
                }
                r
            },
            _ => Err(CodecError::OutOfRange),
        },
        Codec::Record { fields } => match v {
            Value::Record(vs) => {
                proof {
                    lemma_vals_view(vs@);
                }
                if vs.len() != fields.len() {
                    Err(CodecError::OutOfRange)
                } else {
                    enc_fields(fields, vs, 0, buf)
                }
            },
            _ => Err(CodecError::OutOfRange),
        },
    }
}

/// Encodes a row of elements from index `i` on, padding after each as the
/// countdown dictates.
fn enc_elems(
    elem: &Codec,
    vs: &Vec<Value>,
    i: usize,
    al: &AlignSpec,
    cnt: usize,
    buf: &mut BitBuf,
) -> (r: Result<(), CodecError>)
    requires
        i <= vs@.len(),
        stream(*old(buf)).len() <= BIT_CAP,
    ensures
        stream(*old(buf)).is_prefix_of(stream(*final(buf))),
        match r {
            Ok(_) => spec_encode_elems(
                *elem,
                vals_view(vs@).skip(i as int),
                *al,
                cnt as nat,
                stream(*old(buf)).len() as int,
            ) matches Some(e) && stream(*final(buf)) == stream(*old(buf)) + e && stream(
                *final(buf),
            ).len() <= BIT_CAP,
            Err(er) => err_view(er) == (ErrView::OutOfRange) && match spec_encode_elems(
                *elem,
                vals_view(vs@).skip(i as int),
                *al,
                cnt as nat,
                stream(*old(buf)).len() as int,
            ) {
                Some(e) => stream(*old(buf)).len() + e.len() > BIT_CAP,
                None => true,
            },
        },
    decreases *elem, vs@.len() - i, 1nat,
{
    broadcast use vstd::std_specs::vec::axiom_vec_index_decreases;

    proof {
        lemma_vals_view(vs@);
        lemma_prefix_refl(stream(*buf));
    }
    let ghost s = vals_view(vs@).skip(i as int);
    let ghost pos0 = stream(*buf).len() as int;
    if i == vs.len() {
        proof {
            assert(s =~= Seq::<ValView>::empty());
            assert(stream(*buf) =~= stream(*buf) + Seq::<bool>::empty());
        }
        Ok(())
    } else {
        proof {
            assert(s[0] == val_view(vs@[i as int]));
            assert(s.drop_first() =~= vals_view(vs@).skip(i + 1));
        }
        match enc_codec(elem, &vs[i], buf) {
            Ok(_) => {},
            Err(e) => {
                proof {
                    match spec_encode_elems(*elem, s, *al, cnt as nat, pos0) {
                        Some(etot) => {
                            let e1 = spec_encode(*elem, s[0], pos0)->Some_0;
                            assert(etot.len() >= e1.len());
                        },
                        None => {},
                    }
                }
                return Err(e);
            },
        }
        let ghost e1 = spec_encode(*elem, s[0], pos0)->Some_0;
        let p1 = bit_len(buf);
        let (pad, cnt2) = if al.align == 0 {
            (0, 0)
        } else if cnt <= 1 {
            let pd = pad_amount(p1, al.align);
            (pd, initial_countdown(al))
        } else {
            (0, cnt - 1)
        };
        proof {
            assert((pad as int, cnt2 as nat) == step_pad(*al, cnt as nat, p1 as int));
        }
        if pad > BIT_CAP - p1 {
            proof {
                match spec_encode_elems(*elem, s, *al, cnt as nat, pos0) {
                    Some(etot) => {
                        assert(etot.len() >= e1.len() + pad);
                    },
                    None => {},
                }
            }
            return Err(CodecError::OutOfRange);
        }
        push_zeros(buf, pad);
        let ghost mid = stream(*buf);
        match enc_elems(elem, vs, i + 1, al, cnt2, buf) {
            Ok(_) => {
                proof {
                    let rest = spec_encode_elems(
                        *elem,
                        vals_view(vs@).skip(i + 1),
                        *al,
                        cnt2 as nat,
                        mid.len() as int,
                    )->Some_0;
                    assert(stream(*buf) =~= stream(*old(buf)) + (e1 + zero_bits(pad as int)
                        + rest));
                    lemma_prefix_concat(
                        stream(*old(buf)),
                        e1 + zero_bits(pad as int) + rest,
                    );
                }
                Ok(())
            },
            Err(e) => {
                proof {
                    lemma_prefix_concat(stream(*old(buf)), e1 + zero_bits(pad as int));
                    assert(stream(*old(buf)).is_prefix_of(mid)) by {
                        assert(mid =~= stream(*old(buf)) + (e1 + zero_bits(pad as int)));
                    }
                    lemma_prefix_trans(stream(*old(buf)), mid, stream(*buf));
                    match spec_encode_elems(
                        *elem,
                        vals_view(vs@).skip(i + 1),
                        *al,
                        cnt2 as nat,
                        mid.len() as int,
                    ) {
                        Some(rest) => {
                            assert(spec_encode_elems(*elem, s, *al, cnt as nat, pos0)
                                matches Some(etot) && etot == e1 + zero_bits(pad as int) + rest);
                        },
                        None => {},
                    }
                }
                Err(e)
            },
        }
    }
}

/// Encodes a record's fields from `i` on, appending each field's bits and
/// its padding in declaration order.
fn enc_fields(fields: &Vec<Field>, vs: &Vec<Value>, i: usize, buf: &mut BitBuf) -> (r: Result<
    (),
    CodecError,
>)
    requires
        i <= fields@.len(),
        vs@.len() == fields@.len(),
        stream(*old(buf)).len() <= BIT_CAP,
    ensures
        stream(*old(buf)).is_prefix_of(stream(*final(buf))),
        match r {
            Ok(_) => spec_encode_fields(
                fields@,
                vals_view(vs@),
                i as int,
                stream(*old(buf)).len() as int,
            ) matches Some(e) && stream(*final(buf)) == stream(*old(buf)) + e && stream(
                *final(buf),
            ).len() <= BIT_CAP,
            Err(er) => err_view(er) == (ErrView::OutOfRange) && match spec_encode_fields(
                fields@,
                vals_view(vs@),
                i as int,
                stream(*old(buf)).len() as int,
            ) {
                Some(e) => stream(*old(buf)).len() + e.len() > BIT_CAP,
                None => true,
            },
        },
    decreases fields@, fields@.len() - i, 2nat,
{
    broadcast use vstd::std_specs::vec::axiom_vec_index_decreases;

    proof {
        lemma_vals_view(vs@);
        lemma_prefix_refl(stream(*buf));
    }
    let ghost pos0 = stream(*buf).len() as int;
    if i == fields.len() {
        proof {
            assert(stream(*buf) =~= stream(*buf) + Seq::<bool>::empty());
        }
        Ok(())
    } else {
        let field = &fields[i];
        match enc_codec(&field.codec, &vs[i], buf) {
            Ok(_) => {},
            Err(e) => {
                proof {
                    match spec_encode_fields(fields@, vals_view(vs@), i as int, pos0) {
                        Some(etot) => {
                            let e1 = spec_encode(
                                fields@[i as int].codec,
                                vals_view(vs@)[i as int],
                                pos0,
                            )->Some_0;
                            assert(etot.len() >= e1.len());
                        },
                        None => {},
                    }
                }
                return Err(e);
            },
        }
        let ghost e1 = spec_encode(fields@[i as int].codec, vals_view(vs@)[i as int], pos0)->Some_0;
        let p1 = bit_len(buf);
        let pad = pad_amount(p1, field.align);
        if pad > BIT_CAP - p1 {
            proof {
                match spec_encode_fields(fields@, vals_view(vs@), i as int, pos0) {
                    Some(etot) => {
                        assert(etot.len() >= e1.len() + pad);
                    },
                    None => {},
                }
            }
            return Err(CodecError::OutOfRange);
        }
        push_zeros(buf, pad);
        let ghost mid = stream(*buf);
        match enc_fields(fields, vs, i + 1, buf) {
            Ok(_) => {
                proof {
                    let rest = spec_encode_fields(
                        fields@,
                        vals_view(vs@),
                        i + 1,
                        mid.len() as int,
                    )->Some_0;
                    assert(stream(*buf) =~= stream(*old(buf)) + (e1 + zero_bits(pad as int)
                        + rest));
                    lemma_prefix_concat(
                        stream(*old(buf)),
                        e1 + zero_bits(pad as int) + rest,
                    );
                }
                Ok(())
            },
            Err(e) => {
                proof {
                    assert(stream(*old(buf)).is_prefix_of(mid)) by {
                        assert(mid =~= stream(*old(buf)) + (e1 + zero_bits(pad as int)));
                        lemma_prefix_concat(stream(*old(buf)), e1 + zero_bits(pad as int));
                    }
                    lemma_prefix_trans(stream(*old(buf)), mid, stream(*buf));
                    match spec_encode_fields(fields@, vals_view(vs@), i + 1, mid.len() as int) {
                        Some(rest) => {
                            assert(spec_encode_fields(fields@, vals_view(vs@), i as int, pos0)
                                matches Some(etot) && etot == e1 + zero_bits(pad as int) + rest);
                        },
                        None => {},
                    }
                }
                Err(e)
            },
        }
    }
}

/// Appends zero bits until the buffer holds a whole number of bytes.
fn pad_to_byte(buf: &mut BitBuf)
    requires
        stream(*old(buf)).len() <= BIT_CAP,
    ensures
        stream(*final(buf)) == stream(*old(buf)) + zero_bits(
            pad_len(stream(*old(buf)).len() as int, 8),
        ),
        stream(*final(buf)).len() <= BIT_CAP,
        stream(*final(buf)).len() % 8 == 0,
    decreases pad_len(stream(*old(buf)).len() as int, 8),
{
    let len = bit_len(buf);
    if len % 8 == 0 {
        proof {
            assert(pad_len(len as int, 8) == 0);
            assert(stream(*buf) =~= stream(*buf) + zero_bits(0));
        }
    } else {
        proof {
            assert(len < BIT_CAP);
        }
        push_bit(buf, false);
        pad_to_byte(buf);
        proof {
            assert(stream(*buf) =~= stream(*old(buf)) + zero_bits(pad_len(len as int, 8)));
        }
    }
}

/// Decodes one whole value of codec `c` from a byte buffer, starting at
/// bit zero with an empty sibling table. On success it returns the value
/// and the number of bits consumed, exactly as `spec_decode` says; on
/// failure, exactly the error `spec_decode` says. Truncated input yields
/// `InsufficientBits`, never a panic.
pub fn decode_value(c: &Codec, bytes: &Vec<u8>) -> (r: Result<(Value, usize), CodecError>)
    requires
        8 * bytes@.len() <= BIT_CAP,
    ensures
        match r {
            Ok((v, consumed)) => spec_decode(
                *c,
                bytes_to_bits(bytes@),
                0,
                Seq::<EntryV>::empty(),
            ) matches Ok(res) && res.0 == val_view(v) && res.1 == consumed as int && consumed <= 8
                * bytes@.len(),
            Err(e) => spec_decode(*c, bytes_to_bits(bytes@), 0, Seq::<EntryV>::empty()) matches Err(
                ev,
            ) && ev == err_view(e),
        },
{
    proof {
        lemma_bytes_to_bits_len(bytes@);
    }
    let buf = bits_from_bytes(bytes);
    let mut tbl = SiblingTable::new();
    match dec_codec(c, &buf, 0, &mut tbl) {
        Ok((v, end)) => Ok((v, end)),
        Err(e) => Err(e),
    }
}

/// Encodes one whole value of codec `c` into fresh bytes: the bits that
/// `spec_encode` says, zero-padded to the next byte boundary. Succeeds
/// exactly when the value fits its codec and the output stays under the
/// buffer cap; every failure is `OutOfRange`.
pub fn encode_value(c: &Codec, v: &Value) -> (r: Result<Vec<u8>, CodecError>)
    ensures
        match r {
            Ok(bytes) => spec_encode(*c, val_view(*v), 0) matches Some(e) && bytes@
                == bits_to_bytes(e + zero_bits(pad_len(e.len() as int, 8))) && 8 * bytes@.len()
                <= BIT_CAP,
            Err(er) => err_view(er) == (ErrView::OutOfRange) && match spec_encode(
                *c,
                val_view(*v),
                0,
            ) {
                Some(e) => e.len() > BIT_CAP,
                None => true,
            },
        },
{
    let mut buf = empty_bits();
    match enc_codec(c, v, &mut buf) {
        Ok(_) => {},
        Err(e) => {
            return Err(e);
        },
    }
    proof {
        let e = spec_encode(*c, val_view(*v), 0)->Some_0;
        assert(stream(buf) =~= e);
    }
    pad_to_byte(&mut buf);
    let out = bits_into_bytes(&buf);
    proof {
        lemma_bytes_to_bits_len(out@);
        assert(8 * out@.len() == stream(buf).len());
    }
    Ok(out)
}

} // verus!
