//! Decoded field values, the error type, and the sibling-value table that a
//! record decode threads from field to field.

use vstd::prelude::*;

verus! {

broadcast use
    vstd::seq::axiom_seq_index_decreases,
    vstd::seq::axiom_seq_subrange_decreases,
    vstd::std_specs::vec::axiom_vec_decreases_to_view;

/// Failure conditions of the codec.
///
/// `InsufficientBits`: fewer bits remain in the buffer than a field needs.
/// `InvalidUtf8` carries the offending raw bytes of a string field.
/// `OutOfRange`: a value does not fit what the encoding can represent (a
/// variable-length integer above its two-byte range, a string longer than
/// that integer can count, a fixed-size array of the wrong length, a value
/// of the wrong shape for its field, or an output past the buffer cap).
#[derive(Debug, PartialEq)]
pub enum CodecError {
    InsufficientBits,
    InvalidUtf8(Vec<u8>),
    OutOfRange,
}

/// The mathematical image of a `CodecError`.
pub enum ErrView {
    InsufficientBits,
    InvalidUtf8(Seq<u8>),
    OutOfRange,
}

/// The error an exec result stands for.
pub open spec fn err_view(e: CodecError) -> ErrView {
    match e {
        CodecError::InsufficientBits => ErrView::InsufficientBits,
        CodecError::InvalidUtf8(bytes) => ErrView::InvalidUtf8(bytes@),
        CodecError::OutOfRange => ErrView::OutOfRange,
    }
}

/// One decoded field value. The closed set of shapes the framework knows:
/// fixed-width integers, the raw bits of a single-precision float, the two
/// boolean encodings (one bit wide and one byte wide), the two-tier
/// variable-length integer, a length-prefixed string, an element list, and
/// a nested record holding one value per field in declaration order.
#[derive(Debug, PartialEq)]
pub enum Value {
    U8(u8),
    U16(u16),
    U32(u32),
    F32Bits(u32),
    Bool(bool),
    ByteBool(bool),
    VarInt(u16),
    Str(String),
    List(Vec<Value>),
    Record(Vec<Value>),
}

/// The mathematical image of a `Value`.
pub enum ValView {
    U8(u8),
    U16(u16),
    U32(u32),
    F32Bits(u32),
    Bool(bool),
    ByteBool(bool),
    VarInt(u16),
    Str(Seq<char>),
    List(Seq<ValView>),
    Record(Seq<ValView>),
}

/// The mathematical value an exec value stands for.
pub open spec fn val_view(v: Value) -> ValView
    decreases v, 0nat,
{
    match v {
        Value::U8(x) => ValView::U8(x),
        Value::U16(x) => ValView::U16(x),
        Value::U32(x) => ValView::U32(x),
        Value::F32Bits(x) => ValView::F32Bits(x),
        Value::Bool(b) => ValView::Bool(b),
        Value::ByteBool(b) => ValView::ByteBool(b),
        Value::VarInt(x) => ValView::VarInt(x),
        Value::Str(s) => ValView::Str(s@),
        Value::List(vs) => ValView::List(vals_view(vs@)),
        Value::Record(vs) => ValView::Record(vals_view(vs@)),
    }
}

/// The mathematical values a sequence of exec values stands for, in order.
pub open spec fn vals_view(vs: Seq<Value>) -> Seq<ValView>
    decreases vs, 1nat,
{
    if vs.len() == 0 {
        Seq::empty()
    } else {
        seq![val_view(vs[0])] + vals_view(vs.drop_first())
    }
}

/// `vals_view` maps `val_view` over the sequence, element by element.
pub broadcast proof fn lemma_vals_view(vs: Seq<Value>)
    ensures
        #[trigger] vals_view(vs).len() == vs.len(),
        forall|i: int| 0 <= i < vs.len() ==> vals_view(vs)[i] == val_view(vs[i]),
    decreases vs.len(),
{
    if vs.len() > 0 {
        lemma_vals_view(vs.drop_first());
        assert forall|i: int| 0 <= i < vs.len() implies vals_view(vs)[i] == val_view(
            vs[i],
        ) by {
            if i > 0 {
                assert(vals_view(vs)[i] == vals_view(vs.drop_first())[i - 1]);
                assert(vs.drop_first()[i - 1] == vs[i]);
            }
        }
    }
}

impl Value {
    /// A structural copy, equal to the original in every field.
    pub fn duplicate(&self) -> (r: Value)
        ensures
            val_view(r) == val_view(*self),
        decreases *self,
    {
        broadcast use vstd::std_specs::vec::axiom_vec_index_decreases;

        match self {
            Value::U8(x) => Value::U8(*x),
            Value::U16(x) => Value::U16(*x),
            Value::U32(x) => Value::U32(*x),
            Value::F32Bits(x) => Value::F32Bits(*x),
            Value::Bool(b) => Value::Bool(*b),
            Value::ByteBool(b) => Value::ByteBool(*b),
            Value::VarInt(x) => Value::VarInt(*x),
            Value::Str(s) => Value::Str(s.clone()),
            Value::List(vs) => Value::List(duplicate_all(vs)),
            Value::Record(vs) => Value::Record(duplicate_all(vs)),
        }
    }
}

/// Copies every element of a value list.
fn duplicate_all(vs: &Vec<Value>) -> (r: Vec<Value>)
    ensures
        vals_view(r@) == vals_view(vs@),
    decreases *vs,
{
    broadcast use vstd::std_specs::vec::axiom_vec_index_decreases;
    broadcast use lemma_vals_view;

    let mut out: Vec<Value> = Vec::new();
    let mut i: usize = 0;
    while i < vs.len()
        invariant
            i <= vs@.len(),
            out@.len() == i,
            forall|j: int| 0 <= j < i ==> val_view(out@[j]) == val_view(vs@[j]),
        decreases vs@.len() - i,
    {
        let d = vs[i].duplicate();
        out.push(d);
        i = i + 1;
    }
    proof {
        assert(vals_view(out@) =~= vals_view(vs@));
    }
    out
}

/// One named entry of the sibling-value table.
pub struct Entry {
    pub name: String,
    pub value: Value,
}

/// The mathematical image of an `Entry`.
pub struct EntryV {
    pub name: Seq<char>,
    pub value: ValView,
}

/// The entry an exec entry stands for.
pub open spec fn entry_view(e: Entry) -> EntryV {
    EntryV { name: e.name@, value: val_view(e.value) }
}

/// The entries an entry list stands for, in order.
pub open spec fn entries_view(es: Seq<Entry>) -> Seq<EntryV> {
    Seq::new(es.len(), |i: int| entry_view(es[i]))
}

/// The sibling-value table: the values decoded so far in the current record
/// tree, in decode order. A later entry under the same name shadows an
/// earlier one, as the reference behaviour of a flat shared table demands.
pub struct SiblingTable {
    pub entries: Vec<Entry>,
}

impl View for SiblingTable {
    type V = Seq<EntryV>;

    open spec fn view(&self) -> Seq<EntryV> {
        entries_view(self.entries@)
    }
}

/// The value a name resolves to in a table: the value of the latest entry
/// under the name, if any.
pub open spec fn lookup(t: Seq<EntryV>, name: Seq<char>) -> Option<ValView>
    decreases t.len(),
{
    if t.len() == 0 {
        None
    } else if t.last().name == name {
        Some(t.last().value)
    } else {
        lookup(t.drop_last(), name)
    }
}

impl SiblingTable {
    /// A table with no entries.
    pub fn new() -> (r: SiblingTable)
        ensures
            r@ == Seq::<EntryV>::empty(),
    {
        let r = SiblingTable { entries: Vec::new() };
        proof {
            assert(r@ =~= Seq::<EntryV>::empty());
        }
        r
    }

    /// Appends an entry; under an already-present name the new entry
    /// shadows the old.
    pub fn insert(&mut self, name: String, value: Value)
        ensures
            final (self)@ == old(self)@.push(
                EntryV { name: name@, value: val_view(value) },
            ),
    {
        let ghost expected = self@.push(EntryV { name: name@, value: val_view(value) });
        self.entries.push(Entry { name, value });
        proof {
            assert(self@ =~= expected);
        }
    }

    /// The value the name resolves to, if any entry carries it.
    pub fn find(&self, name: &String) -> (r: Option<&Value>)
        ensures
            match r {
                Some(v) => lookup(self@, name@) == Some(val_view(*v)),
                None => lookup(self@, name@) is None,
            },
    {
        let n = self.entries.len();
        let mut i: usize = n;
        proof {
            assert(self@.subrange(0, n as int) =~= self@);
        }
        while i > 0
            invariant
                i <= self@.len(),
                n == self@.len(),
                lookup(self@, name@) == lookup(self@.subrange(0, i as int), name@),
            decreases i,
        {
            i = i - 1;
            proof {
                assert(self@.subrange(0, i + 1).last() == self@[i as int]);
                assert(self@.subrange(0, i + 1).drop_last() =~= self@.subrange(0, i as int));
            }
            if self.entries[i].name.eq(name) {
                return Some(&self.entries[i].value);
            }
        }
        proof {
            assert(self@.subrange(0, 0) =~= Seq::<EntryV>::empty());
        }
        None
    }
}

} // verus!
