//! PDF objects as plain values.

use crate::bytes::spells;
use crate::single::Single;
use vstd::prelude::*;
use vstd::utf8::encode_utf8;

verus! {

/// The number and generation of an indirect object.
pub type ObjectId = (u32, u16);

/// A PDF object.
pub enum PdfObject {
    Null,
    Boolean(bool),
    Integer(i64),
    Real(Single),
    Name(Vec<u8>),
    String(Vec<u8>),
    Array(Vec<PdfObject>),
    Dictionary(PdfDict),
    Stream(PdfStream),
    Reference(ObjectId),
}

/// A dictionary: keys and values, in order.
pub struct PdfDict {
    pub entries: Vec<(Vec<u8>, PdfObject)>,
}

/// A stream: its dictionary and its bytes as they are stored.
pub struct PdfStream {
    pub dict: PdfDict,
    pub content: Vec<u8>,
}

/// An operator of a content stream with its operands.
pub struct Operation {
    pub operator: String,
    pub operands: Vec<PdfObject>,
}

/// What a `PdfObject` holds.
pub enum ObjectView {
    Null,
    Boolean(bool),
    Integer(i64),
    Real(Single),
    Name(Seq<u8>),
    String(Seq<u8>),
    Array(Seq<ObjectView>),
    Dictionary(Seq<(Seq<u8>, ObjectView)>),
    Stream(Seq<(Seq<u8>, ObjectView)>, Seq<u8>),
    Reference(ObjectId),
}

/// What an `Operation` holds.
pub struct OperationView {
    pub operator: Seq<char>,
    pub operands: Seq<ObjectView>,
}

pub open spec fn object_view(o: PdfObject) -> ObjectView
    decreases o, 0int,
{
    match o {
        PdfObject::Null => ObjectView::Null,
        PdfObject::Boolean(b) => ObjectView::Boolean(b),
        PdfObject::Integer(i) => ObjectView::Integer(i),
        PdfObject::Real(r) => ObjectView::Real(r),
        PdfObject::Name(n) => ObjectView::Name(n@),
        PdfObject::String(s) => ObjectView::String(s@),
        PdfObject::Array(a) => ObjectView::Array(
            Seq::new(
                a@.len(),
                |i: int|
                    if 0 <= i < a@.len() {
                        object_view(a@[i])
                    } else {
                        ObjectView::Null
                    },
            ),
        ),
        PdfObject::Dictionary(d) => ObjectView::Dictionary(dict_view(d)),
        PdfObject::Stream(s) => ObjectView::Stream(dict_view(s.dict), s.content@),
        PdfObject::Reference(id) => ObjectView::Reference(id),
    }
}

pub open spec fn dict_view(d: PdfDict) -> Seq<(Seq<u8>, ObjectView)>
    decreases d, 0int,
{
    Seq::new(
        d.entries@.len(),
        |i: int|
            if 0 <= i < d.entries@.len() {
                (d.entries@[i].0@, object_view(d.entries@[i].1))
            } else {
                (Seq::empty(), ObjectView::Null)
            },
    )
}

/// The objects of a sequence.
pub open spec fn object_views(objects: Seq<PdfObject>) -> Seq<ObjectView> {
    Seq::new(objects.len(), |i: int| object_view(objects[i]))
}

impl View for PdfObject {
    type V = ObjectView;

    open spec fn view(&self) -> ObjectView {
        object_view(*self)
    }
}

impl View for PdfDict {
    type V = Seq<(Seq<u8>, ObjectView)>;

    open spec fn view(&self) -> Seq<(Seq<u8>, ObjectView)> {
        dict_view(*self)
    }
}

impl View for Operation {
    type V = OperationView;

    open spec fn view(&self) -> OperationView {
        OperationView { operator: self.operator@, operands: object_views(self.operands@) }
    }
}

/// The operations of a sequence.
pub open spec fn operation_views(operations: Seq<Operation>) -> Seq<OperationView> {
    Seq::new(operations.len(), |i: int| operations[i]@)
}

/// The value of the first entry with a key.
pub open spec fn lookup(entries: Seq<(Seq<u8>, ObjectView)>, key: Seq<u8>) -> Option<ObjectView>
    decreases entries.len(),
{
    if entries.len() == 0 {
        None
    } else if entries[0].0 == key {
        Some(entries[0].1)
    } else {
        lookup(entries.drop_first(), key)
    }
}

/// The value of a key that is spelled out.
pub open spec fn entry(entries: Seq<(Seq<u8>, ObjectView)>, key: Seq<char>) -> Option<ObjectView> {
    lookup(entries, encode_utf8(key))
}

/// The object that an optional reference points to.
pub open spec fn viewed(o: Option<&PdfObject>) -> Option<ObjectView> {
    match o {
        Some(o) => Some(o@),
        None => None,
    }
}

impl PdfDict {
    /// The value of a key.
    pub fn get(&self, key: &str) -> (r: Option<&PdfObject>)
        ensures
            viewed(r) == entry(self@, key@),
    {
        let mut i: usize = 0;
        assert(self@.skip(0) =~= self@);
        while i < self.entries.len()
            invariant
                i <= self.entries@.len(),
                entry(self@, key@) == entry(self@.skip(i as int), key@),
            decreases self.entries@.len() - i,
        {
            assert(self@.skip(i as int)[0] == self@[i as int]);
            assert(self@.skip(i as int).drop_first() =~= self@.skip(i + 1));
            if spells(self.entries[i].0.as_slice(), key) {
                return Some(&self.entries[i].1);
            }
            i = i + 1;
        }
        assert(self@.skip(i as int).len() == 0);
        None
    }

    /// The integer that is the value of a key.
    pub fn integer(&self, key: &str) -> (r: Option<i64>)
        ensures
            r == integer_entry(self@, key@),
    {
        match self.get(key) {
            Some(PdfObject::Integer(n)) => Some(*n),
            _ => None,
        }
    }
}

/// The integer that is the value of a key.
pub open spec fn integer_entry(entries: Seq<(Seq<u8>, ObjectView)>, key: Seq<char>) -> Option<i64> {
    match entry(entries, key) {
        Some(ObjectView::Integer(n)) => Some(n),
        _ => None,
    }
}

/// The number that an object is.
pub open spec fn number(o: ObjectView) -> Option<Single> {
    match o {
        ObjectView::Integer(n) => Some(crate::single::single_of_int(n as int)),
        ObjectView::Real(r) => Some(r),
        _ => None,
    }
}

/// The number that an object is, an integer rounded to single precision.
pub fn get_number(o: &PdfObject) -> (r: Option<Single>)
    ensures
        r == number(o@),
{
    match o {
        PdfObject::Integer(n) => Some(Single::from_i64(*n)),
        PdfObject::Real(r) => Some(*r),
        _ => None,
    }
}

} // verus!
