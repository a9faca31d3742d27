//! Record schemas: the declarative description a record codec interprets.
//! A schema is built once per record type and never mutated.

use vstd::prelude::*;
use crate::value::{ValView, EntryV, lookup, Value, SiblingTable, val_view};

verus! {

/// Padding declared on a repeated-element field: after every `every`-th
/// element (after every element when `every` is zero or one) the bit offset
/// is padded with zeros up to the next multiple of `align`. `align` zero
/// means no padding.
#[derive(Clone)]
pub struct AlignSpec {
    pub align: usize,
    pub every: usize,
}

impl AlignSpec {
    /// No padding at all.
    pub fn none() -> (r: AlignSpec)
        ensures
            r.align == 0,
            r.every == 0,
    {
        AlignSpec { align: 0, every: 0 }
    }

}

/// How a variable-length array learns its element count during decode:
/// from the numeric value of a named sibling, from that value less one, or
/// from the number of true booleans in a named sibling list. A missing
/// sibling, or one of the wrong shape, silently yields a count of zero,
/// as the reference behaviour demands.
#[derive(Clone)]
pub enum LenPolicy {
    Sibling(String),
    SiblingMinusOne(String),
    CountTrue(String),
}

/// One field of a record: its name, the padding applied after it (zero for
/// none), and the codec for its value.
pub struct Field {
    pub name: String,
    pub align: usize,
    pub codec: Codec,
}

/// A field codec: every decode/encode rule the framework knows. `Array` is
/// a fixed element count; `VarArray` sizes itself from already-decoded
/// siblings; `Record` is an ordered field list sharing one sibling table
/// with the whole record tree.
pub enum Codec {
    U8,
    U16,
    U32,
    F32Bits,
    Bool,
    ByteBool,
    VarInt,
    Str,
    Array { elem: Box<Codec>, count: usize, align: AlignSpec },
    VarArray { elem: Box<Codec>, len: LenPolicy, align: AlignSpec },
    Record { fields: Vec<Field> },
}

/// The numeric reading of a value, for length resolution: any of the
/// integer shapes counts, nothing else does.
pub open spec fn numeric_of(v: ValView) -> Option<u32> {
    match v {
        ValView::U8(x) => Some(x as u32),
        ValView::U16(x) => Some(x as u32),
        ValView::U32(x) => Some(x),
        ValView::VarInt(x) => Some(x as u32),
        _ => None,
    }
}

/// How many values of a list are true booleans, of either width.
pub open spec fn count_true(vs: Seq<ValView>) -> nat
    decreases vs.len(),
{
    if vs.len() == 0 {
        0
    } else {
        (if vs[0] == ValView::Bool(true) || vs[0] == ValView::ByteBool(true) {
            1nat
        } else {
            0nat
        }) + count_true(vs.drop_first())
    }
}

/// The element count a policy yields against a table. Missing names and
/// wrong shapes degrade to zero rather than erroring.
pub open spec fn spec_resolve_len(p: LenPolicy, t: Seq<EntryV>) -> nat {
    match p {
        LenPolicy::Sibling(name) => match lookup(t, name@) {
            Some(v) => match numeric_of(v) {
                Some(x) => x as nat,
                None => 0,
            },
            None => 0,
        },
        LenPolicy::SiblingMinusOne(name) => match lookup(t, name@) {
            Some(v) => match numeric_of(v) {
                Some(x) => if x > 0 {
                    (x - 1) as nat
                } else {
                    0
                },
                None => 0,
            },
            None => 0,
        },
        LenPolicy::CountTrue(name) => match lookup(t, name@) {
            Some(v) => match v {
                ValView::List(vs) => count_true(vs),
                _ => 0,
            },
            None => 0,
        },
    }
}

/// The numeric reading of a value, for length resolution.
pub fn read_numeric(v: &Value) -> (r: Option<u32>)
    ensures
        r == numeric_of(val_view(*v)),
{
    match v {
        Value::U8(x) => Some(*x as u32),
        Value::U16(x) => Some(*x as u32),
        Value::U32(x) => Some(*x),
        Value::VarInt(x) => Some(*x as u32),
        _ => None,
    }
}

/// How many values of a list are true booleans, of either width.
pub fn read_count_true(vs: &Vec<Value>) -> (r: usize)
    ensures
        r == count_true(crate::value::vals_view(vs@)),
{
    broadcast use crate::value::lemma_vals_view;

    let mut i: usize = 0;
    let mut c: usize = 0;
    while i < vs.len()
        invariant
            i <= vs@.len(),
            c <= i,
            c == count_true(crate::value::vals_view(vs@).subrange(0, i as int)),
        decreases vs@.len() - i,
    {
        proof {
            crate::value::lemma_vals_view(vs@);
            lemma_count_true_push(
                crate::value::vals_view(vs@).subrange(0, i as int),
                crate::value::vals_view(vs@)[i as int],
            );
            assert(crate::value::vals_view(vs@).subrange(0, i as int).push(
                crate::value::vals_view(vs@)[i as int],
            ) =~= crate::value::vals_view(vs@).subrange(0, i + 1));
        }
        match &vs[i] {
            Value::Bool(b) => {
                if *b {
                    c = c + 1;
                }
            },
            Value::ByteBool(b) => {
                if *b {
                    c = c + 1;
                }
            },
            _ => {},
        }
        i = i + 1;
    }
    proof {
        assert(crate::value::vals_view(vs@).subrange(0, vs@.len() as int) =~= crate::value::vals_view(
            vs@,
        ));
    }
    c
}

proof fn lemma_count_true_push(vs: Seq<ValView>, v: ValView)
    ensures
        count_true(vs.push(v)) == count_true(vs) + (
        if v == ValView::Bool(true) || v == ValView::ByteBool(true) {
            1nat
        } else {
            0nat
        }),
    decreases vs.len(),
{
    if vs.len() == 0 {
        assert(vs.push(v).drop_first() =~= Seq::<ValView>::empty());
        assert(vs.push(v)[0] == v);
        assert(count_true(vs.push(v)) == (
        if v == ValView::Bool(true) || v == ValView::ByteBool(true) {
            1nat
        } else {
            0nat
        }) + count_true(Seq::<ValView>::empty()));
    } else {
        lemma_count_true_push(vs.drop_first(), v);
        assert(vs.push(v).drop_first() =~= vs.drop_first().push(v));
        assert(vs.push(v)[0] == vs[0]);
        assert(count_true(vs.push(v)) == (
        if vs[0] == ValView::Bool(true) || vs[0] == ValView::ByteBool(true) {
            1nat
        } else {
            0nat
        }) + count_true(vs.drop_first().push(v)));
    }
}

/// The element count a policy yields against a table.
pub fn resolve_len(p: &LenPolicy, t: &SiblingTable) -> (r: usize)
    ensures
        r == spec_resolve_len(*p, t@),
{
    match p {
        LenPolicy::Sibling(name) => match t.find(name) {
            Some(v) => match read_numeric(v) {
                Some(x) => x as usize,
                None => 0,
            },
            None => 0,
        },
        LenPolicy::SiblingMinusOne(name) => match t.find(name) {
            Some(v) => match read_numeric(v) {
                Some(x) => if x > 0 {
                    (x - 1) as usize
                } else {
                    0
                },
                None => 0,
            },
            None => 0,
        },
        LenPolicy::CountTrue(name) => match t.find(name) {
            Some(v) => match v {
                Value::List(vs) => read_count_true(vs),
                _ => 0,
            },
            None => 0,
        },
    }
}

} // verus!
