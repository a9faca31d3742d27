//! The mathematical model of the codec: what decoding and encoding mean,
//! bit by bit, for every codec the framework knows. The executable
//! interpreter is specified against these functions and the round-trip law
//! is proved of them.

use vstd::prelude::*;
use crate::bits::{bits_to_nat, nat_to_bits, bytes_to_bits, bits_to_bytes};
use crate::schema::{Codec, Field, AlignSpec, spec_resolve_len};
use crate::value::{ValView, EntryV, ErrView};
use vstd::utf8::{valid_utf8, decode_utf8, encode_utf8};

verus! {

broadcast use
    vstd::seq::axiom_seq_index_decreases,
    vstd::std_specs::vec::axiom_vec_decreases_to_view;

/// A run of zero bits.
pub open spec fn zero_bits(n: int) -> Seq<bool> {
    Seq::new(n as nat, |i: int| false)
}

/// The zero-padding needed to carry `pos` to the next multiple of `align`
/// (none when `align` is zero or `pos` is already a multiple).
pub open spec fn pad_len(pos: int, align: int) -> int {
    if align <= 0 {
        0
    } else {
        (align - pos % align) % align
    }
}

/// One padding step of a repeated-element field: the pad emitted at `pos`
/// and the next countdown value. Padding fires when the countdown reaches
/// one, and the countdown then starts over.
pub open spec fn step_pad(al: AlignSpec, cnt: nat, pos: int) -> (int, nat) {
    if al.align == 0 {
        (0, 0)
    } else if cnt <= 1 {
        (pad_len(pos, al.align as int), align_reset(al))
    } else {
        (0, (cnt - 1) as nat)
    }
}

/// The starting countdown of a repeated-element field.
pub open spec fn align_reset(al: AlignSpec) -> nat {
    if al.every == 0 {
        1
    } else {
        al.every as nat
    }
}

/// The variable-length integer's bits: one byte carrying the value when it
/// is at most 127, else a first byte carrying the low seven bits with its
/// top bit set, then a second byte carrying the rest.
pub open spec fn varint_bits(x: u16) -> Seq<bool> {
    if x <= 127 {
        nat_to_bits(x as nat, 8)
    } else {
        nat_to_bits((x as nat % 128) + 128, 8) + nat_to_bits(x as nat / 128, 8)
    }
}

/// Decoding a variable-length integer at `pos`: the value and the position
/// after it.
pub open spec fn spec_decode_varint(bits: Seq<bool>, pos: int) -> Result<(u16, int), ErrView> {
    if pos + 8 > bits.len() {
        Err(ErrView::InsufficientBits)
    } else {
        let first = bits_to_nat(bits.subrange(pos, pos + 8));
        if first > 127 {
            if pos + 16 > bits.len() {
                Err(ErrView::InsufficientBits)
            } else {
                let second = bits_to_nat(bits.subrange(pos + 8, pos + 16));
                Ok(((((first - 128) + 128 * second) as u16), pos + 16))
            }
        } else {
            Ok((first as u16, pos + 8))
        }
    }
}

/// Decoding one field value at `pos` against a sibling table: the value,
/// the position after it, and the table extended with whatever entries a
/// nested record inserted.
pub open spec fn spec_decode(c: Codec, bits: Seq<bool>, pos: int, t: Seq<EntryV>) -> Result<
    (ValView, int, Seq<EntryV>),
    ErrView,
>
    decreases c, 0nat, 0nat,
{
    match c {
        Codec::U8 => if pos + 8 > bits.len() {
            Err(ErrView::InsufficientBits)
        } else {
            Ok((ValView::U8(bits_to_nat(bits.subrange(pos, pos + 8)) as u8), pos + 8, t))
        },
        Codec::U16 => if pos + 16 > bits.len() {
            Err(ErrView::InsufficientBits)
        } else {
            Ok((ValView::U16(bits_to_nat(bits.subrange(pos, pos + 16)) as u16), pos + 16, t))
        },
        Codec::U32 => if pos + 32 > bits.len() {
            Err(ErrView::InsufficientBits)
        } else {
            Ok((ValView::U32(bits_to_nat(bits.subrange(pos, pos + 32)) as u32), pos + 32, t))
        },
        Codec::F32Bits => if pos + 32 > bits.len() {
            Err(ErrView::InsufficientBits)
        } else {
            Ok((ValView::F32Bits(bits_to_nat(bits.subrange(pos, pos + 32)) as u32), pos + 32, t))
        },
        Codec::Bool => if pos + 1 > bits.len() {
            Err(ErrView::InsufficientBits)
        } else {
            Ok((ValView::Bool(bits[pos]), pos + 1, t))
        },
        Codec::ByteBool => if pos + 8 > bits.len() {
            Err(ErrView::InsufficientBits)
        } else {
            Ok((ValView::ByteBool(bits[pos]), pos + 8, t))
        },
        Codec::VarInt => match spec_decode_varint(bits, pos) {
            Ok((x, p)) => Ok((ValView::VarInt(x), p, t)),
            Err(e) => Err(e),
        },
        Codec::Str => match spec_decode_varint(bits, pos) {
            Ok((n, p)) => if p + 8 * (n as int) > bits.len() {
                Err(ErrView::InsufficientBits)
            } else {
                let bytes = bits_to_bytes(bits.subrange(p, p + 8 * (n as int)));
                if valid_utf8(bytes) {
                    Ok((ValView::Str(decode_utf8(bytes)), p + 8 * (n as int), t))
                } else {
                    Err(ErrView::InvalidUtf8(bytes))
                }
            },
            Err(e) => Err(e),
        },
        Codec::Array { elem, count, align } => match spec_decode_elems(
            *elem,
            count as nat,
            align,
            align_reset(align),
            bits,
            pos,
            t,
        ) {
            Ok((vs, p, t2)) => Ok((ValView::List(vs), p, t2)),
            Err(e) => Err(e),
        },
        Codec::VarArray { elem, len, align } => match spec_decode_elems(
            *elem,
            spec_resolve_len(len, t),
            align,
            align_reset(align),
            bits,
            pos,
            t,
        ) {
            Ok((vs, p, t2)) => Ok((ValView::List(vs), p, t2)),
            Err(e) => Err(e),
        },
        Codec::Record { fields } => match spec_decode_fields(fields@, 0, bits, pos, t) {
            Ok((vs, p, t2)) => Ok((ValView::Record(vs), p, t2)),
            Err(e) => Err(e),
        },
    }
}

/// Decoding `n` elements of one codec in a row, applying the padding step
/// after each element.
pub open spec fn spec_decode_elems(
    elem: Codec,
    n: nat,
    al: AlignSpec,
    cnt: nat,
    bits: Seq<bool>,
    pos: int,
    t: Seq<EntryV>,
) -> Result<(Seq<ValView>, int, Seq<EntryV>), ErrView>
    decreases elem, n, 1nat,
{
    if n == 0 {
        Ok((Seq::empty(), pos, t))
    } else {
        match spec_decode(elem, bits, pos, t) {
            Ok((v, p1, t1)) => {
                let (pad, cnt2) = step_pad(al, cnt, p1);
                if p1 + pad > bits.len() {
                    Err(ErrView::InsufficientBits)
                } else {
                    match spec_decode_elems(elem, (n - 1) as nat, al, cnt2, bits, p1 + pad, t1) {
                        Ok((vs, p2, t2)) => Ok((seq![v] + vs, p2, t2)),
                        Err(e) => Err(e),
                    }
                }
            },
            Err(e) => Err(e),
        }
    }
}

/// Decoding a record's fields from `i` on, in declaration order: each
/// decoded value is inserted into the shared table under its field name
/// before the next field is decoded, and field padding is consumed after
/// each field.
pub open spec fn spec_decode_fields(
    fields: Seq<Field>,
    i: int,
    bits: Seq<bool>,
    pos: int,
    t: Seq<EntryV>,
) -> Result<(Seq<ValView>, int, Seq<EntryV>), ErrView>
    decreases fields, fields.len() - i, 2nat,
{
    if i < 0 || i >= fields.len() {
        Ok((Seq::empty(), pos, t))
    } else {
        match spec_decode(fields[i].codec, bits, pos, t) {
            Ok((v, p1, t1)) => {
                let pad = pad_len(p1, fields[i].align as int);
                if p1 + pad > bits.len() {
                    Err(ErrView::InsufficientBits)
                } else {
                    let t2 = t1.push(EntryV { name: fields[i].name@, value: v });
                    match spec_decode_fields(fields, i + 1, bits, p1 + pad, t2) {
                        Ok((vs, p2, t3)) => Ok((seq![v] + vs, p2, t3)),
                        Err(e) => Err(e),
                    }
                }
            },
            Err(e) => Err(e),
        }
    }
}

/// Encoding one field value whose output begins at absolute position
/// `pos`: the bits appended, or nothing where the value cannot be
/// represented (a wrong shape for the codec, a variable-length integer or
/// string length above the two-byte range, or a fixed array of the wrong
/// length). Encoding never consults the sibling table.
pub open spec fn spec_encode(c: Codec, v: ValView, pos: int) -> Option<Seq<bool>>
    decreases c, 0nat, 0nat,
{
    match c {
        Codec::U8 => match v {
            ValView::U8(x) => Some(nat_to_bits(x as nat, 8)),
            _ => None,
        },
        Codec::U16 => match v {
            ValView::U16(x) => Some(nat_to_bits(x as nat, 16)),
            _ => None,
        },
        Codec::U32 => match v {
            ValView::U32(x) => Some(nat_to_bits(x as nat, 32)),
            _ => None,
        },
        Codec::F32Bits => match v {
            ValView::F32Bits(x) => Some(nat_to_bits(x as nat, 32)),
            _ => None,
        },
        Codec::Bool => match v {
            ValView::Bool(b) => Some(seq![b]),
            _ => None,
        },
        Codec::ByteBool => match v {
            ValView::ByteBool(b) => Some(
                nat_to_bits(
                    if b {
                        1nat
                    } else {
                        0nat
                    },
                    8,
                ),
            ),
            _ => None,
        },
        Codec::VarInt => match v {
            ValView::VarInt(x) => if x <= 16383 {
                Some(varint_bits(x))
            } else {
                None
            },
            _ => None,
        },
        Codec::Str => match v {
            ValView::Str(s) => {
                let bytes = encode_utf8(s);
                if bytes.len() > 16383 {
                    None
                } else {
                    Some(varint_bits(bytes.len() as u16) + bytes_to_bits(bytes))
                }
            },
            _ => None,
        },
        Codec::Array { elem, count, align } => match v {
            ValView::List(vs) => if vs.len() == count {
                spec_encode_elems(*elem, vs, align, align_reset(align), pos)
            } else {
                None
            },
            _ => None,
        },
        Codec::VarArray { elem, len, align } => match v {
            ValView::List(vs) => spec_encode_elems(*elem, vs, align, align_reset(align), pos),
            _ => None,
        },
        Codec::Record { fields } => match v {
            ValView::Record(vs) => if vs.len() == fields@.len() {
                spec_encode_fields(fields@, vs, 0, pos)
            } else {
                None
            },
            _ => None,
        },
    }
}

/// Encoding a row of elements of one codec, padding after each element as
/// the countdown dictates.
pub open spec fn spec_encode_elems(
    elem: Codec,
    vs: Seq<ValView>,
    al: AlignSpec,
    cnt: nat,
    pos: int,
) -> Option<Seq<bool>>
    decreases elem, vs.len(), 1nat,
{
    if vs.len() == 0 {
        Some(Seq::empty())
    } else {
        match spec_encode(elem, vs[0], pos) {
            Some(e1) => {
                let p1 = pos + e1.len();
                let (pad, cnt2) = step_pad(al, cnt, p1);
                match spec_encode_elems(elem, vs.drop_first(), al, cnt2, p1 + pad) {
                    Some(rest) => Some(e1 + zero_bits(pad) + rest),
                    None => None,
                }
            },
            None => None,
        }
    }
}

/// Encoding a record's fields from `i` on, concatenating each field's bits
/// and its padding in declaration order.
pub open spec fn spec_encode_fields(
    fields: Seq<Field>,
    vs: Seq<ValView>,
    i: int,
    pos: int,
) -> Option<Seq<bool>>
    decreases fields, fields.len() - i, 2nat,
{
    if i < 0 || i >= fields.len() {
        Some(Seq::empty())
    } else {
        match spec_encode(fields[i].codec, vs[i], pos) {
            Some(e1) => {
                let p1 = pos + e1.len();
                let pad = pad_len(p1, fields[i].align as int);
                match spec_encode_fields(fields, vs, i + 1, p1 + pad) {
                    Some(rest) => Some(e1 + zero_bits(pad) + rest),
                    None => None,
                }
            },
            None => None,
        }
    }
}

} // verus!
