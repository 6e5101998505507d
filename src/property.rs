use vstd::prelude::*;

use crate::codec::{
    at, enc_text, parse_span, parse_text, parse_u32, read_span, read_text, read_u32,
    text_is, text_matches, u32_bytes, u32_of, write_text, write_u32, Dummy,
    ImguiString,
};
use crate::error::Error;

verus! {

broadcast use vstd::std_specs::vec::group_vec_axioms, vstd::seq::group_seq_axioms;

// ---------------------------------------------------------------------------
// Name table
// ---------------------------------------------------------------------------

/// The per-file table of interned names, addressed by index.
#[derive(Clone, Debug, Default)]
pub struct NameTable {
    pub names: Vec<ImguiString>,
}

impl NameTable {
    pub open spec fn view(&self) -> Seq<Seq<u8>> {
        Seq::new(self.names@.len(), |i: int| self.names@[i]@)
    }
}

/// Resolves a name index.
pub fn get_name(names: &NameTable, id: u32) -> (r: Result<&ImguiString, Error>)
    ensures
        (id as int) < names@.len() ==> r is Ok && r->Ok_0@ == names@[id as int],
        (id as int) >= names@.len() ==> r == Err::<&ImguiString, Error>(Error::NameIndexOutOfRange),
{
    if (id as usize) < names.names.len() {
        Ok(&names.names[id as usize])
    } else {
        Err(Error::NameIndexOutOfRange)
    }
}

// ---------------------------------------------------------------------------
// Values
// ---------------------------------------------------------------------------

/// Three components of a vector, kept as their IEEE-754 bit patterns.
#[derive(Clone, Copy, Debug, PartialEq, Eq, Structural)]
pub struct Vector {
    pub x: u32,
    pub y: u32,
    pub z: u32,
}

/// Pitch, yaw and roll.
#[derive(Clone, Copy, Debug, PartialEq, Eq, Structural)]
pub struct Rotator {
    pub pitch: i32,
    pub yaw: i32,
    pub roll: i32,
}

/// Four color components, kept as their IEEE-754 bit patterns.
#[derive(Clone, Copy, Debug, PartialEq, Eq, Structural)]
pub struct LinearColor {
    pub r: u32,
    pub g: u32,
    pub b: u32,
    pub a: u32,
}

/// The prefix shared by every property that is not a terminator.
#[derive(Clone, Debug)]
pub struct PropertyHeader {
    pub name_id: u32,
    pub pad1: Dummy<4>,
    pub type_id: u32,
    pub pad2: Dummy<4>,
    /// The payload size as the file records it.
    pub size: u32,
    pub pad3: Dummy<4>,
}

/// One node of a property list.
#[derive(Debug)]
pub enum Property {
    Array { header: PropertyHeader, array: Vec<ArrayType> },
    Bool { header: PropertyHeader, value: bool },
    Byte { header: PropertyHeader, value: u8 },
    /// The value as its IEEE-754 bit pattern.
    Float { header: PropertyHeader, value: u32 },
    Int { header: PropertyHeader, value: i32 },
    Name { header: PropertyHeader, value_name_id: u32, pad4: Dummy<4> },
    Object { header: PropertyHeader, object_id: i32 },
    Str { header: PropertyHeader, string: ImguiString },
    StringRef { header: PropertyHeader, value: i32 },
    Struct {
        header: PropertyHeader,
        struct_name_id: u32,
        pad4: Dummy<4>,
        properties: StructType,
    },
    /// The terminator of a list.
    Terminator { name_id: u32, pad: Dummy<4> },
}

/// One element of an array property.
#[derive(Debug)]
pub enum ArrayType {
    Int(i32),
    Object(i32),
    Vector(Vector),
    String(ImguiString),
    Properties(Vec<Property>),
}

/// The payload of a struct property.
#[derive(Debug)]
pub enum StructType {
    LinearColor(LinearColor),
    Vector(Vector),
    Rotator(Rotator),
    Properties(Vec<Property>),
}

/// How the elements of an array property are laid out.
#[derive(Clone, Copy, Debug, PartialEq, Eq, Structural)]
pub enum ArrayKind {
    Int,
    Object,
    Vector,
    String,
    Properties,
}

// ---------------------------------------------------------------------------
// Mathematical model
// ---------------------------------------------------------------------------

/// Model of `PropertyHeader`.
pub struct HeaderV {
    pub name_id: u32,
    pub pad1: Seq<u8>,
    pub type_id: u32,
    pub pad2: Seq<u8>,
    pub size: u32,
    pub pad3: Seq<u8>,
}

/// Model of `Property`.
pub enum PropV {
    Array(HeaderV, Seq<ElemV>),
    Bool(HeaderV, bool),
    Byte(HeaderV, u8),
    Float(HeaderV, u32),
    Int(HeaderV, i32),
    Name(HeaderV, u32, Seq<u8>),
    Object(HeaderV, i32),
    Str(HeaderV, Seq<u8>),
    StringRef(HeaderV, i32),
    Struct(HeaderV, u32, Seq<u8>, StructV),
    End(u32, Seq<u8>),
}

/// Model of `ArrayType`.
pub enum ElemV {
    Int(i32),
    Object(i32),
    Vector(Vector),
    Str(Seq<u8>),
    Props(Seq<PropV>),
}

/// Model of `StructType`.
pub enum StructV {
    LinearColor(LinearColor),
    Vector(Vector),
    Rotator(Rotator),
    Props(Seq<PropV>),
}

impl PropertyHeader {
    pub open spec fn view(&self) -> HeaderV {
        HeaderV {
            name_id: self.name_id,
            pad1: self.pad1@,
            type_id: self.type_id,
            pad2: self.pad2@,
            size: self.size,
            pad3: self.pad3@,
        }
    }
}

impl Property {
    pub open spec fn view(&self) -> PropV
        decreases self,
    {
        match self {
            Property::Array { header, array } => PropV::Array(header@, view_elems(array@)),
            Property::Bool { header, value } => PropV::Bool(header@, *value),
            Property::Byte { header, value } => PropV::Byte(header@, *value),
            Property::Float { header, value } => PropV::Float(header@, *value),
            Property::Int { header, value } => PropV::Int(header@, *value),
            Property::Name { header, value_name_id, pad4 } => PropV::Name(
                header@,
                *value_name_id,
                pad4@,
            ),
            Property::Object { header, object_id } => PropV::Object(header@, *object_id),
            Property::Str { header, string } => PropV::Str(header@, string@),
            Property::StringRef { header, value } => PropV::StringRef(header@, *value),
            Property::Struct { header, struct_name_id, pad4, properties } => PropV::Struct(
                header@,
                *struct_name_id,
                pad4@,
                properties.view(),
            ),
            Property::Terminator { name_id, pad } => PropV::End(*name_id, pad@),
        }
    }
}

impl ArrayType {
    pub open spec fn view(&self) -> ElemV
        decreases self,
    {
        match self {
            ArrayType::Int(v) => ElemV::Int(*v),
            ArrayType::Object(v) => ElemV::Object(*v),
            ArrayType::Vector(v) => ElemV::Vector(*v),
            ArrayType::String(s) => ElemV::Str(s@),
            ArrayType::Properties(ps) => ElemV::Props(view_props(ps@)),
        }
    }
}

impl StructType {
    pub open spec fn view(&self) -> StructV
        decreases self,
    {
        match self {
            StructType::LinearColor(c) => StructV::LinearColor(*c),
            StructType::Vector(v) => StructV::Vector(*v),
            StructType::Rotator(r) => StructV::Rotator(*r),
            StructType::Properties(ps) => StructV::Props(view_props(ps@)),
        }
    }
}

/// Model of a sequence of properties.
pub open spec fn view_props(s: Seq<Property>) -> Seq<PropV>
    decreases s,
{
    if s.len() == 0 {
        Seq::empty()
    } else {
        view_props(s.drop_last()).push(s.last().view())
    }
}

/// Model of a sequence of array elements.
pub open spec fn view_elems(s: Seq<ArrayType>) -> Seq<ElemV>
    decreases s,
{
    if s.len() == 0 {
        Seq::empty()
    } else {
        view_elems(s.drop_last()).push(s.last().view())
    }
}

// ---------------------------------------------------------------------------
// The wire format, as a parser over bytes
// ---------------------------------------------------------------------------

/// The element layout of an array property, fixed by the property's name: the format
/// itself does not tag it.
pub open spec fn array_kind(name: Seq<u8>) -> ArrayKind {
    if text_matches(name, "m_PrereqTalentIDArray"@) || text_matches(name, "m_PrereqTalentRankArray"@) {
        ArrayKind::Int
    } else if text_matches(name, "m_aItem"@) || text_matches(name, "m_aXMod"@)
        || text_matches(name, "m_aEquipped"@) || text_matches(name, "m_QuickSlotArray"@)
        || text_matches(name, "m_savedBuybackItems"@) {
        ArrayKind::Object
    } else if text_matches(name, "m_vPosition"@) {
        ArrayKind::Vector
    } else if text_matches(name, "m_DependentPackages"@) {
        ArrayKind::String
    } else {
        ArrayKind::Properties
    }
}

/// The start of a node: a terminator, or the header of a typed property.
pub enum Head {
    End(u32, Seq<u8>),
    Node(HeaderV),
}

/// Reads the start of a node; the name and type indices must address the table.
pub open spec fn parse_head(names: Seq<Seq<u8>>, d: Seq<u8>, pos: int) -> Result<(Head, int), Error> {
    match parse_u32(d, pos) {
        Err(e) => Err(e),
        Ok((name_id, p1)) => match parse_span(d, p1, 4) {
            Err(e) => Err(e),
            Ok((pad1, p2)) => if name_id as int >= names.len() {
                Err(Error::NameIndexOutOfRange)
            } else if text_matches(names[name_id as int], "None"@) {
                Ok((Head::End(name_id, pad1), p2))
            } else {
                match parse_u32(d, p2) {
                    Err(e) => Err(e),
                    Ok((type_id, p3)) => match parse_span(d, p3, 4) {
                        Err(e) => Err(e),
                        Ok((pad2, p4)) => match parse_u32(d, p4) {
                            Err(e) => Err(e),
                            Ok((size, p5)) => match parse_span(d, p5, 4) {
                                Err(e) => Err(e),
                                Ok((pad3, p6)) => if type_id as int >= names.len() {
                                    Err(Error::NameIndexOutOfRange)
                                } else {
                                    Ok((
                                        Head::Node(
                                            HeaderV { name_id, pad1, type_id, pad2, size, pad3 },
                                        ),
                                        p6,
                                    ))
                                },
                            },
                        },
                    },
                }
            },
        },
    }
}

/// A `bool` stored in four bytes: 0 or 1.
pub open spec fn parse_bool(d: Seq<u8>, pos: int) -> Result<(bool, int), Error> {
    match parse_u32(d, pos) {
        Err(e) => Err(e),
        Ok((v, p)) => if v == 0 {
            Ok((false, p))
        } else if v == 1 {
            Ok((true, p))
        } else {
            Err(Error::InvalidValue)
        },
    }
}

/// A little-endian `i32`.
pub open spec fn parse_i32(d: Seq<u8>, pos: int) -> Result<(i32, int), Error> {
    match parse_u32(d, pos) {
        Err(e) => Err(e),
        Ok((v, p)) => Ok((v as i32, p)),
    }
}

/// Three `u32` components.
pub open spec fn parse_vector(d: Seq<u8>, pos: int) -> Result<(Vector, int), Error> {
    match parse_u32(d, pos) {
        Err(e) => Err(e),
        Ok((x, p1)) => match parse_u32(d, p1) {
            Err(e) => Err(e),
            Ok((y, p2)) => match parse_u32(d, p2) {
                Err(e) => Err(e),
                Ok((z, p3)) => Ok((Vector { x, y, z }, p3)),
            },
        },
    }
}

/// Three `i32` components.
pub open spec fn parse_rotator(d: Seq<u8>, pos: int) -> Result<(Rotator, int), Error> {
    match parse_vector(d, pos) {
        Err(e) => Err(e),
        Ok((v, p)) => Ok((Rotator { pitch: v.x as i32, yaw: v.y as i32, roll: v.z as i32 }, p)),
    }
}

/// Four `u32` components.
pub open spec fn parse_color(d: Seq<u8>, pos: int) -> Result<(LinearColor, int), Error> {
    match parse_vector(d, pos) {
        Err(e) => Err(e),
        Ok((v, p)) => match parse_u32(d, p) {
            Err(e) => Err(e),
            Ok((a, q)) => Ok((LinearColor { r: v.x, g: v.y, b: v.z, a }, q)),
        },
    }
}

/// Puts `acc` in front of the sequence that a parse returned.
pub open spec fn prepend<T>(acc: Seq<T>, r: Result<(Seq<T>, int), Error>) -> Result<(Seq<T>, int), Error> {
    match r {
        Ok((s, p)) => Ok((acc + s, p)),
        Err(e) => Err(e),
    }
}

/// A property list: nodes up to and including the first terminator.
pub open spec fn parse_list(names: Seq<Seq<u8>>, d: Seq<u8>, pos: int) -> Result<(Seq<PropV>, int), Error>
    decreases d.len() - pos, 3int,
{
    match parse_prop(names, d, pos) {
        Err(e) => Err(e),
        Ok((x, p)) => if x is End {
            Ok((seq![x], p))
        } else if pos < p <= d.len() {
            prepend(seq![x], parse_list(names, d, p))
        } else {
            Err(Error::TruncatedInput)
        },
    }
}

/// One node of a property list.
pub open spec fn parse_prop(names: Seq<Seq<u8>>, d: Seq<u8>, pos: int) -> Result<(PropV, int), Error>
    decreases d.len() - pos, 2int,
{
    match parse_head(names, d, pos) {
        Err(e) => Err(e),
        Ok((Head::End(id, pad), p)) => Ok((PropV::End(id, pad), p)),
        Ok((Head::Node(h), p)) => if pos < p {
            parse_value(names, d, p, h)
        } else {
            Err(Error::TruncatedInput)
        },
    }
}

/// The payload of a typed property, dispatched on its type name.
pub open spec fn parse_value(names: Seq<Seq<u8>>, d: Seq<u8>, pos: int, h: HeaderV) -> Result<(PropV, int), Error>
    decreases d.len() - pos, 1int,
{
    let tname = names[h.type_id as int];
    if text_matches(tname, "ArrayProperty"@) {
        parse_array(names, d, pos, h)
    } else if text_matches(tname, "BoolProperty"@) {
        match parse_bool(d, pos) {
            Err(e) => Err(e),
            Ok((v, p)) => Ok((PropV::Bool(h, v), p)),
        }
    } else if text_matches(tname, "ByteProperty"@) && h.size == 1 {
        match parse_span(d, pos, 1) {
            Err(e) => Err(e),
            Ok((b, p)) => Ok((PropV::Byte(h, b[0]), p)),
        }
    } else if text_matches(tname, "ByteProperty"@) || text_matches(tname, "NameProperty"@) {
        match parse_u32(d, pos) {
            Err(e) => Err(e),
            Ok((id, p)) => match parse_span(d, p, 4) {
                Err(e) => Err(e),
                Ok((pad, q)) => Ok((PropV::Name(h, id, pad), q)),
            },
        }
    } else if text_matches(tname, "FloatProperty"@) {
        match parse_u32(d, pos) {
            Err(e) => Err(e),
            Ok((v, p)) => Ok((PropV::Float(h, v), p)),
        }
    } else if text_matches(tname, "IntProperty"@) {
        match parse_i32(d, pos) {
            Err(e) => Err(e),
            Ok((v, p)) => Ok((PropV::Int(h, v), p)),
        }
    } else if text_matches(tname, "ObjectProperty"@) {
        match parse_i32(d, pos) {
            Err(e) => Err(e),
            Ok((v, p)) => Ok((PropV::Object(h, v), p)),
        }
    } else if text_matches(tname, "StrProperty"@) {
        match parse_text(d, pos) {
            Err(e) => Err(e),
            Ok((s, p)) => Ok((PropV::Str(h, s), p)),
        }
    } else if text_matches(tname, "StringRefProperty"@) {
        match parse_i32(d, pos) {
            Err(e) => Err(e),
            Ok((v, p)) => Ok((PropV::StringRef(h, v), p)),
        }
    } else if text_matches(tname, "StructProperty"@) {
        parse_struct_prop(names, d, pos, h)
    } else {
        Err(Error::UnknownPropertyType)
    }
}

/// The payload of an array property: a count, then that many elements whose layout the
/// property's name decides.
pub open spec fn parse_array(names: Seq<Seq<u8>>, d: Seq<u8>, pos: int, h: HeaderV) -> Result<(PropV, int), Error>
    decreases d.len() - pos, 0int,
{
    match parse_u32(d, pos) {
        Err(e) => Err(e),
        Ok((count, p)) => if pos < p {
            match parse_elems(names, d, p, array_kind(names[h.name_id as int]), count as nat) {
                Err(e) => Err(e),
                Ok((elems, q)) => Ok((PropV::Array(h, elems), q)),
            }
        } else {
            Err(Error::TruncatedInput)
        },
    }
}

/// The payload of a struct property: the struct's name index, a padding span, then the
/// struct's own payload.
pub open spec fn parse_struct_prop(names: Seq<Seq<u8>>, d: Seq<u8>, pos: int, h: HeaderV) -> Result<(PropV, int), Error>
    decreases d.len() - pos, 0int,
{
    match parse_u32(d, pos) {
        Err(e) => Err(e),
        Ok((sid, p1)) => match parse_span(d, p1, 4) {
            Err(e) => Err(e),
            Ok((pad, p2)) => if sid as int >= names.len() {
                Err(Error::NameIndexOutOfRange)
            } else if pos < p2 {
                match parse_struct(names, d, p2, names[sid as int]) {
                    Err(e) => Err(e),
                    Ok((st, q)) => Ok((PropV::Struct(h, sid, pad, st), q)),
                }
            } else {
                Err(Error::TruncatedInput)
            },
        },
    }
}

/// The payload of a struct property, chosen by the struct's name.
pub open spec fn parse_struct(names: Seq<Seq<u8>>, d: Seq<u8>, pos: int, struct_name: Seq<u8>) -> Result<(StructV, int), Error>
    decreases d.len() - pos, 4int,
{
    if text_matches(struct_name, "LinearColor"@) {
        match parse_color(d, pos) {
            Err(e) => Err(e),
            Ok((c, p)) => Ok((StructV::LinearColor(c), p)),
        }
    } else if text_matches(struct_name, "Vector"@) {
        match parse_vector(d, pos) {
            Err(e) => Err(e),
            Ok((v, p)) => Ok((StructV::Vector(v), p)),
        }
    } else if text_matches(struct_name, "Rotator"@) {
        match parse_rotator(d, pos) {
            Err(e) => Err(e),
            Ok((r, p)) => Ok((StructV::Rotator(r), p)),
        }
    } else {
        match parse_list(names, d, pos) {
            Err(e) => Err(e),
            Ok((s, p)) => Ok((StructV::Props(s), p)),
        }
    }
}

/// One array element of the given layout.
pub open spec fn parse_elem(names: Seq<Seq<u8>>, d: Seq<u8>, pos: int, kind: ArrayKind) -> Result<(ElemV, int), Error>
    decreases d.len() - pos, 4int,
{
    match kind {
        ArrayKind::Int => match parse_i32(d, pos) {
            Err(e) => Err(e),
            Ok((v, p)) => Ok((ElemV::Int(v), p)),
        },
        ArrayKind::Object => match parse_i32(d, pos) {
            Err(e) => Err(e),
            Ok((v, p)) => Ok((ElemV::Object(v), p)),
        },
        ArrayKind::Vector => match parse_vector(d, pos) {
            Err(e) => Err(e),
            Ok((v, p)) => Ok((ElemV::Vector(v), p)),
        },
        ArrayKind::String => match parse_text(d, pos) {
            Err(e) => Err(e),
            Ok((s, p)) => Ok((ElemV::Str(s), p)),
        },
        ArrayKind::Properties => match parse_list(names, d, pos) {
            Err(e) => Err(e),
            Ok((s, p)) => Ok((ElemV::Props(s), p)),
        },
    }
}

/// `count` array elements of the given layout.
pub open spec fn parse_elems(names: Seq<Seq<u8>>, d: Seq<u8>, pos: int, kind: ArrayKind, count: nat) -> Result<(Seq<ElemV>, int), Error>
    decreases d.len() - pos, 5int,
{
    if count == 0 {
        Ok((Seq::empty(), pos))
    } else {
        match parse_elem(names, d, pos, kind) {
            Err(e) => Err(e),
            Ok((x, p)) => if pos < p <= d.len() {
                prepend(seq![x], parse_elems(names, d, p, kind, (count - 1) as nat))
            } else {
                Err(Error::TruncatedInput)
            },
        }
    }
}

// ---------------------------------------------------------------------------
// The wire format, as an encoding of the model
// ---------------------------------------------------------------------------

/// Joins two encodings; `None` stands for a length that its prefix cannot record.
pub open spec fn cat(a: Option<Seq<u8>>, b: Option<Seq<u8>>) -> Option<Seq<u8>> {
    match (a, b) {
        (Some(x), Some(y)) => Some(x + y),
        _ => None,
    }
}

pub open spec fn enc_header(h: HeaderV) -> Seq<u8> {
    u32_bytes(h.name_id) + h.pad1 + u32_bytes(h.type_id) + h.pad2 + u32_bytes(h.size) + h.pad3
}

pub open spec fn enc_vector(v: Vector) -> Seq<u8> {
    u32_bytes(v.x) + u32_bytes(v.y) + u32_bytes(v.z)
}

pub open spec fn enc_rotator(r: Rotator) -> Seq<u8> {
    u32_bytes(r.pitch as u32) + u32_bytes(r.yaw as u32) + u32_bytes(r.roll as u32)
}

pub open spec fn enc_color(c: LinearColor) -> Seq<u8> {
    u32_bytes(c.r) + u32_bytes(c.g) + u32_bytes(c.b) + u32_bytes(c.a)
}

/// The bytes of one node.
pub open spec fn enc_prop(p: PropV) -> Option<Seq<u8>>
    decreases p,
{
    match p {
        PropV::Array(h, elems) => if elems.len() <= u32::MAX {
            cat(Some(enc_header(h) + u32_bytes(elems.len() as u32)), enc_elems(elems))
        } else {
            None
        },
        PropV::Bool(h, b) => Some(enc_header(h) + u32_bytes(if b { 1u32 } else { 0u32 })),
        PropV::Byte(h, b) => Some(enc_header(h) + seq![b]),
        PropV::Float(h, v) => Some(enc_header(h) + u32_bytes(v)),
        PropV::Int(h, v) => Some(enc_header(h) + u32_bytes(v as u32)),
        PropV::Name(h, id, pad) => Some(enc_header(h) + u32_bytes(id) + pad),
        PropV::Object(h, v) => Some(enc_header(h) + u32_bytes(v as u32)),
        PropV::Str(h, t) => if t.len() <= u32::MAX {
            Some(enc_header(h) + enc_text(t))
        } else {
            None
        },
        PropV::StringRef(h, v) => Some(enc_header(h) + u32_bytes(v as u32)),
        PropV::Struct(h, sid, pad, st) => cat(
            Some(enc_header(h) + u32_bytes(sid) + pad),
            enc_struct(st),
        ),
        PropV::End(id, pad) => Some(u32_bytes(id) + pad),
    }
}

/// The bytes of a struct payload.
pub open spec fn enc_struct(st: StructV) -> Option<Seq<u8>>
    decreases st,
{
    match st {
        StructV::LinearColor(c) => Some(enc_color(c)),
        StructV::Vector(v) => Some(enc_vector(v)),
        StructV::Rotator(r) => Some(enc_rotator(r)),
        StructV::Props(s) => enc_list(s),
    }
}

/// The bytes of a sequence of nodes, one after the other.
pub open spec fn enc_list(s: Seq<PropV>) -> Option<Seq<u8>>
    decreases s,
{
    if s.len() == 0 {
        Some(Seq::empty())
    } else {
        cat(enc_list(s.drop_last()), enc_prop(s.last()))
    }
}

/// The bytes of one array element.
pub open spec fn enc_elem(e: ElemV) -> Option<Seq<u8>>
    decreases e,
{
    match e {
        ElemV::Int(v) => Some(u32_bytes(v as u32)),
        ElemV::Object(v) => Some(u32_bytes(v as u32)),
        ElemV::Vector(v) => Some(enc_vector(v)),
        ElemV::Str(t) => if t.len() <= u32::MAX {
            Some(enc_text(t))
        } else {
            None
        },
        ElemV::Props(s) => enc_list(s),
    }
}

/// The bytes of a sequence of array elements, one after the other.
pub open spec fn enc_elems(s: Seq<ElemV>) -> Option<Seq<u8>>
    decreases s,
{
    if s.len() == 0 {
        Some(Seq::empty())
    } else {
        cat(enc_elems(s.drop_last()), enc_elem(s.last()))
    }
}

// ---------------------------------------------------------------------------
// Decoding then encoding gives back the bytes
// ---------------------------------------------------------------------------

proof fn lemma_cat_assoc(a: Option<Seq<u8>>, b: Option<Seq<u8>>, c: Option<Seq<u8>>)
    ensures
        cat(cat(a, b), c) == cat(a, cat(b, c)),
{
    if a is Some && b is Some && c is Some {
        assert(a->0 + b->0 + c->0 =~= a->0 + (b->0 + c->0));
    }
}

proof fn lemma_enc_list_prepend(x: PropV, s: Seq<PropV>)
    ensures
        enc_list(seq![x] + s) == cat(enc_prop(x), enc_list(s)),
    decreases s.len(),
{
    let xs = seq![x] + s;
    if s.len() == 0 {
        assert(xs.drop_last() =~= Seq::<PropV>::empty());
        assert(xs.last() == x);
        assert(enc_list(xs) == cat(enc_list(xs.drop_last()), enc_prop(xs.last())));
        assert(s =~= Seq::<PropV>::empty());
        if enc_prop(x) is Some {
            assert(Seq::<u8>::empty() + enc_prop(x)->0 =~= enc_prop(x)->0);
            assert(enc_prop(x)->0 + Seq::<u8>::empty() =~= enc_prop(x)->0);
        }
    } else {
        assert(xs.drop_last() =~= seq![x] + s.drop_last());
        assert(xs.last() == s.last());
        assert(enc_list(xs) == cat(enc_list(xs.drop_last()), enc_prop(xs.last())));
        assert(enc_list(s) == cat(enc_list(s.drop_last()), enc_prop(s.last())));
        lemma_enc_list_prepend(x, s.drop_last());
        lemma_cat_assoc(enc_prop(x), enc_list(s.drop_last()), enc_prop(s.last()));
    }
}

proof fn lemma_enc_elems_prepend(x: ElemV, s: Seq<ElemV>)
    ensures
        enc_elems(seq![x] + s) == cat(enc_elem(x), enc_elems(s)),
    decreases s.len(),
{
    let xs = seq![x] + s;
    if s.len() == 0 {
        assert(xs.drop_last() =~= Seq::<ElemV>::empty());
        assert(xs.last() == x);
        assert(enc_elems(xs) == cat(enc_elems(xs.drop_last()), enc_elem(xs.last())));
        assert(s =~= Seq::<ElemV>::empty());
        if enc_elem(x) is Some {
            assert(Seq::<u8>::empty() + enc_elem(x)->0 =~= enc_elem(x)->0);
            assert(enc_elem(x)->0 + Seq::<u8>::empty() =~= enc_elem(x)->0);
        }
    } else {
        assert(xs.drop_last() =~= seq![x] + s.drop_last());
        assert(xs.last() == s.last());
        assert(enc_elems(xs) == cat(enc_elems(xs.drop_last()), enc_elem(xs.last())));
        assert(enc_elems(s) == cat(enc_elems(s.drop_last()), enc_elem(s.last())));
        lemma_enc_elems_prepend(x, s.drop_last());
        lemma_cat_assoc(enc_elem(x), enc_elems(s.drop_last()), enc_elem(s.last()));
    }
}

proof fn lemma_join(d: Seq<u8>, a: int, b: int, c: int)
    requires
        0 <= a <= b <= c <= d.len(),
    ensures
        d.subrange(a, b) + d.subrange(b, c) == d.subrange(a, c),
{
    assert(d.subrange(a, b) + d.subrange(b, c) =~= d.subrange(a, c));
}

proof fn lemma_u32_at(d: Seq<u8>, pos: int)
    ensures
        parse_u32(d, pos) matches Ok((v, p)) ==> 0 <= pos && p == pos + 4 && p <= d.len()
            && u32_bytes(v) == d.subrange(pos, p),
        parse_i32(d, pos) matches Ok((v, p)) ==> 0 <= pos && p == pos + 4 && p <= d.len()
            && u32_bytes(v as u32) == d.subrange(pos, p),
{
    if parse_u32(d, pos) is Ok {
        crate::codec::lemma_u32_bytes_of(d.subrange(pos, pos + 4));
        crate::codec::lemma_i32_bits(u32_of(d.subrange(pos, pos + 4)));
    }
}

proof fn lemma_text_at(d: Seq<u8>, pos: int)
    ensures
        parse_text(d, pos) matches Ok((t, p)) ==> 0 <= pos && pos < p <= d.len() && t.len() <= u32::MAX
            && enc_text(t) == d.subrange(pos, p),
{
    lemma_u32_at(d, pos);
    if parse_text(d, pos) is Ok {
        lemma_join(d, pos, pos + 4, parse_text(d, pos)->Ok_0.1);
    }
}

proof fn lemma_vector_at(d: Seq<u8>, pos: int)
    ensures
        parse_vector(d, pos) matches Ok((v, p)) ==> 0 <= pos && p == pos + 12 && p <= d.len()
            && enc_vector(v) == d.subrange(pos, p),
        parse_rotator(d, pos) matches Ok((r, p)) ==> 0 <= pos && p == pos + 12 && p <= d.len()
            && enc_rotator(r) == d.subrange(pos, p),
        parse_color(d, pos) matches Ok((c, p)) ==> 0 <= pos && p == pos + 16 && p <= d.len()
            && enc_color(c) == d.subrange(pos, p),
{
    lemma_u32_at(d, pos);
    lemma_u32_at(d, pos + 4);
    lemma_u32_at(d, pos + 8);
    lemma_u32_at(d, pos + 12);
    if parse_vector(d, pos) is Ok {
        lemma_join(d, pos, pos + 4, pos + 8);
        lemma_join(d, pos, pos + 8, pos + 12);
        crate::codec::lemma_i32_bits(u32_of(d.subrange(pos, pos + 4)));
        crate::codec::lemma_i32_bits(u32_of(d.subrange(pos + 4, pos + 8)));
        crate::codec::lemma_i32_bits(u32_of(d.subrange(pos + 8, pos + 12)));
        if parse_color(d, pos) is Ok {
            lemma_join(d, pos, pos + 12, pos + 16);
        }
    }
}

pub(crate) proof fn lemma_head_at(names: Seq<Seq<u8>>, d: Seq<u8>, pos: int)
    ensures
        parse_head(names, d, pos) matches Ok((Head::End(id, pad), p)) ==> 0 <= pos < p <= d.len()
            && u32_bytes(id) + pad == d.subrange(pos, p),
        parse_head(names, d, pos) matches Ok((Head::Node(h), p)) ==> 0 <= pos < p <= d.len()
            && enc_header(h) == d.subrange(pos, p) && (h.name_id as int) < names.len()
            && (h.type_id as int) < names.len(),
{
    lemma_u32_at(d, pos);
    lemma_u32_at(d, pos + 8);
    lemma_u32_at(d, pos + 16);
    if parse_head(names, d, pos) is Ok {
        lemma_join(d, pos, pos + 4, pos + 8);
        if parse_head(names, d, pos)->Ok_0.0 is Node {
            lemma_join(d, pos + 8, pos + 12, pos + 16);
            lemma_join(d, pos + 16, pos + 20, pos + 24);
            lemma_join(d, pos, pos + 8, pos + 16);
            lemma_join(d, pos, pos + 16, pos + 24);
            let h = parse_head(names, d, pos)->Ok_0.0->Node_0;
            assert(enc_header(h) =~= (u32_bytes(h.name_id) + h.pad1) + (u32_bytes(h.type_id) + h.pad2)
                + (u32_bytes(h.size) + h.pad3));
        }
    }
}

/// Decoding a property list and encoding the result gives back exactly the bytes that
/// the decode consumed.
pub proof fn lemma_list_round_trip(names: Seq<Seq<u8>>, d: Seq<u8>, pos: int)
    ensures
        parse_list(names, d, pos) matches Ok((s, p)) ==> 0 <= pos < p <= d.len()
            && enc_list(s) == Some(d.subrange(pos, p)),
    decreases d.len() - pos, 3int,
{
    lemma_prop_round_trip(names, d, pos);
    if let Ok((x, p)) = parse_prop(names, d, pos) {
        if x is End {
            let one = seq![x];
            assert(one.drop_last() =~= Seq::<PropV>::empty());
            assert(enc_list(one) == cat(enc_list(one.drop_last()), enc_prop(one.last())));
            assert(Seq::<u8>::empty() + d.subrange(pos, p) =~= d.subrange(pos, p));
        } else if pos < p <= d.len() {
            lemma_list_round_trip(names, d, p);
            if let Ok((rest, q)) = parse_list(names, d, p) {
                lemma_enc_list_prepend(x, rest);
                lemma_join(d, pos, p, q);
            }
        }
    }
}

/// Round trip of one node.
pub proof fn lemma_prop_round_trip(names: Seq<Seq<u8>>, d: Seq<u8>, pos: int)
    ensures
        parse_prop(names, d, pos) matches Ok((x, p)) ==> 0 <= pos < p <= d.len()
            && enc_prop(x) == Some(d.subrange(pos, p)),
    decreases d.len() - pos, 2int,
{
    lemma_head_at(names, d, pos);
    if let Ok((Head::Node(h), p)) = parse_head(names, d, pos) {
        if pos < p {
            lemma_value_round_trip(names, d, p, h);
            if let Ok((v, q)) = parse_value(names, d, p, h) {
                lemma_join(d, pos, p, q);
            }
        }
    }
}

proof fn lemma_value_round_trip(names: Seq<Seq<u8>>, d: Seq<u8>, pos: int, h: HeaderV)
    requires
        (h.type_id as int) < names.len(),
        (h.name_id as int) < names.len(),
    ensures
        parse_value(names, d, pos, h) matches Ok((v, q)) ==> 0 <= pos < q <= d.len()
            && enc_prop(v) == Some(enc_header(h) + d.subrange(pos, q)),
    decreases d.len() - pos, 1int,
{
    let tname = names[h.type_id as int];
    let e = enc_header(h);
    lemma_u32_at(d, pos);
    lemma_text_at(d, pos);
    if text_matches(tname, "ArrayProperty"@) {
        lemma_array_round_trip(names, d, pos, h);
    } else if text_matches(tname, "StructProperty"@) {
        lemma_struct_prop_round_trip(names, d, pos, h);
    } else if let Ok((v, q)) = parse_value(names, d, pos, h) {
        if text_matches(tname, "BoolProperty"@) {
            assert(u32_of(d.subrange(pos, pos + 4)) == 0 || u32_of(d.subrange(pos, pos + 4)) == 1);
        } else if text_matches(tname, "ByteProperty"@) && h.size == 1 {
            assert(seq![d.subrange(pos, pos + 1)[0]] =~= d.subrange(pos, pos + 1));
        } else if text_matches(tname, "ByteProperty"@) || text_matches(tname, "NameProperty"@) {
            lemma_join(d, pos, pos + 4, pos + 8);
            let id = parse_u32(d, pos)->Ok_0.0;
            let pad = d.subrange(pos + 4, pos + 8);
            assert(e + u32_bytes(id) + pad =~= e + (u32_bytes(id) + pad));
        }
    }
}

proof fn lemma_array_round_trip(names: Seq<Seq<u8>>, d: Seq<u8>, pos: int, h: HeaderV)
    requires
        (h.type_id as int) < names.len(),
        (h.name_id as int) < names.len(),
    ensures
        parse_array(names, d, pos, h) matches Ok((v, q)) ==> 0 <= pos < q <= d.len()
            && enc_prop(v) == Some(enc_header(h) + d.subrange(pos, q)),
    decreases d.len() - pos, 0int,
{
    lemma_u32_at(d, pos);
    if let Ok((count, p)) = parse_u32(d, pos) {
        let e = enc_header(h);
        let kind = array_kind(names[h.name_id as int]);
        lemma_elems_round_trip(names, d, p, kind, count as nat);
        if let Ok((elems, q)) = parse_elems(names, d, p, kind, count as nat) {
            lemma_join(d, pos, p, q);
            assert(e + u32_bytes(count) + d.subrange(p, q) =~= e + (d.subrange(pos, p) + d.subrange(p, q)));
        }
    }
}

proof fn lemma_struct_prop_round_trip(names: Seq<Seq<u8>>, d: Seq<u8>, pos: int, h: HeaderV)
    requires
        (h.type_id as int) < names.len(),
        (h.name_id as int) < names.len(),
    ensures
        parse_struct_prop(names, d, pos, h) matches Ok((v, q)) ==> 0 <= pos < q <= d.len()
            && enc_prop(v) == Some(enc_header(h) + d.subrange(pos, q)),
    decreases d.len() - pos, 0int,
{
    lemma_u32_at(d, pos);
    if let Ok((sid, p1)) = parse_u32(d, pos) {
        if let Ok((pad, p2)) = parse_span(d, p1, 4) {
            if (sid as int) < names.len() {
                let e = enc_header(h);
                lemma_struct_round_trip(names, d, p2, names[sid as int]);
                if let Ok((st, q)) = parse_struct(names, d, p2, names[sid as int]) {
                    lemma_join(d, pos, p1, p2);
                    lemma_join(d, pos, p2, q);
                    assert(e + u32_bytes(sid) + pad + d.subrange(p2, q) =~= e + (d.subrange(pos, p2)
                        + d.subrange(p2, q)));
                }
            }
        }
    }
}

proof fn lemma_struct_round_trip(names: Seq<Seq<u8>>, d: Seq<u8>, pos: int, struct_name: Seq<u8>)
    ensures
        parse_struct(names, d, pos, struct_name) matches Ok((st, q)) ==> 0 <= pos < q <= d.len()
            && enc_struct(st) == Some(d.subrange(pos, q)),
    decreases d.len() - pos, 4int,
{
    lemma_vector_at(d, pos);
    lemma_list_round_trip(names, d, pos);
}

proof fn lemma_elem_round_trip(names: Seq<Seq<u8>>, d: Seq<u8>, pos: int, kind: ArrayKind)
    ensures
        parse_elem(names, d, pos, kind) matches Ok((x, q)) ==> 0 <= pos < q <= d.len()
            && enc_elem(x) == Some(d.subrange(pos, q)),
    decreases d.len() - pos, 4int,
{
    lemma_u32_at(d, pos);
    lemma_text_at(d, pos);
    lemma_vector_at(d, pos);
    lemma_list_round_trip(names, d, pos);
}

proof fn lemma_elems_round_trip(names: Seq<Seq<u8>>, d: Seq<u8>, pos: int, kind: ArrayKind, count: nat)
    requires
        0 <= pos <= d.len(),
    ensures
        parse_elems(names, d, pos, kind, count) matches Ok((es, q)) ==> 0 <= pos <= q <= d.len()
            && es.len() == count && enc_elems(es) == Some(d.subrange(pos, q)),
    decreases d.len() - pos, 5int,
{
    if count == 0 {
        assert(d.subrange(pos, pos) =~= Seq::<u8>::empty());
    } else {
        lemma_elem_round_trip(names, d, pos, kind);
        if let Ok((x, p)) = parse_elem(names, d, pos, kind) {
            if pos < p <= d.len() {
                lemma_elems_round_trip(names, d, p, kind, (count - 1) as nat);
                if let Ok((rest, q)) = parse_elems(names, d, p, kind, (count - 1) as nat) {
                    lemma_enc_elems_prepend(x, rest);
                    lemma_join(d, pos, p, q);
                }
            }
        }
    }
}

// ---------------------------------------------------------------------------
// Decoding
// ---------------------------------------------------------------------------

/// The decoded start of a node.
enum DecodedHead {
    End(u32, Dummy<4>),
    Node(PropertyHeader),
}

spec fn head_matches(r: Result<(DecodedHead, usize), Error>, s: Result<(Head, int), Error>) -> bool {
    match (r, s) {
        (Ok((DecodedHead::End(id, pad), p)), Ok((Head::End(id2, pad2), q))) => id == id2 && pad@ == pad2
            && p == q,
        (Ok((DecodedHead::Node(h), p)), Ok((Head::Node(h2), q))) => h@ == h2 && p == q,
        (Err(e), Err(f)) => e == f,
        _ => false,
    }
}

/// A decode result seen through the model.
pub open spec fn prop_at(r: Result<(Property, usize), Error>) -> Result<(PropV, int), Error> {
    match r {
        Ok((v, p)) => Ok((v@, p as int)),
        Err(e) => Err(e),
    }
}

/// A decode result seen through the model.
pub open spec fn list_at(r: Result<(Vec<Property>, usize), Error>) -> Result<(Seq<PropV>, int), Error> {
    match r {
        Ok((v, p)) => Ok((view_props(v@), p as int)),
        Err(e) => Err(e),
    }
}

spec fn elem_at(r: Result<(ArrayType, usize), Error>) -> Result<(ElemV, int), Error> {
    match r {
        Ok((v, p)) => Ok((v@, p as int)),
        Err(e) => Err(e),
    }
}

spec fn struct_at(r: Result<(StructType, usize), Error>) -> Result<(StructV, int), Error> {
    match r {
        Ok((v, p)) => Ok((v.view(), p as int)),
        Err(e) => Err(e),
    }
}

proof fn lemma_prepend_push<T>(a: Seq<T>, x: T, r: Result<(Seq<T>, int), Error>)
    ensures
        prepend(a, prepend(seq![x], r)) == prepend(a.push(x), r),
{
    if let Ok((s, p)) = r {
        assert(a + (seq![x] + s) =~= a.push(x) + s);
    }
}

proof fn lemma_view_props_push(s: Seq<Property>, x: Property)
    ensures
        view_props(s.push(x)) == view_props(s).push(x@),
{
    assert(s.push(x).drop_last() =~= s);
}

proof fn lemma_view_elems_push(s: Seq<ArrayType>, x: ArrayType)
    ensures
        view_elems(s.push(x)) == view_elems(s).push(x@),
{
    assert(s.push(x).drop_last() =~= s);
}

proof fn lemma_elems_step(names: Seq<Seq<u8>>, d: Seq<u8>, pos: int, kind: ArrayKind, count: nat)
    requires
        count > 0,
        0 <= pos <= d.len(),
    ensures
        parse_elem(names, d, pos, kind) matches Err(e) ==> parse_elems(names, d, pos, kind, count) == Err::<(Seq<ElemV>, int), Error>(e),
        parse_elem(names, d, pos, kind) matches Ok((x, p)) ==> pos < p <= d.len() && parse_elems(names, d, pos, kind, count)
            == prepend(seq![x], parse_elems(names, d, p, kind, (count - 1) as nat)),
{
    lemma_elem_round_trip(names, d, pos, kind);
}

fn read_i32(d: &Vec<u8>, pos: usize) -> (r: Result<(i32, usize), Error>)
    ensures
        at(r) == parse_i32(d@, pos as int),
{
    let (v, p) = read_u32(d, pos)?;
    Ok((v as i32, p))
}

fn read_vector(d: &Vec<u8>, pos: usize) -> (r: Result<(Vector, usize), Error>)
    ensures
        at(r) == parse_vector(d@, pos as int),
{
    let (x, p1) = read_u32(d, pos)?;
    let (y, p2) = read_u32(d, p1)?;
    let (z, p3) = read_u32(d, p2)?;
    Ok((Vector { x, y, z }, p3))
}

fn decode_head(names: &NameTable, d: &Vec<u8>, pos: usize) -> (r: Result<(DecodedHead, usize), Error>)
    ensures
        head_matches(r, parse_head(names@, d@, pos as int)),
{
    let (name_id, p1) = read_u32(d, pos)?;
    let (pad1, p2) = Dummy::<4>::decode(d, p1)?;
    let name = get_name(names, name_id)?;
    proof {
        reveal_strlit("None");
    }
    if text_is(&name.bytes, "None") {
        return Ok((DecodedHead::End(name_id, pad1), p2));
    }
    let (type_id, p3) = read_u32(d, p2)?;
    let (pad2, p4) = Dummy::<4>::decode(d, p3)?;
    let (size, p5) = read_u32(d, p4)?;
    let (pad3, p6) = Dummy::<4>::decode(d, p5)?;
    let _ = get_name(names, type_id)?;
    Ok((DecodedHead::Node(PropertyHeader { name_id, pad1, type_id, pad2, size, pad3 }), p6))
}

impl Property {
    /// Decodes one node at `pos`.
    pub fn visit_seq(names: &NameTable, d: &Vec<u8>, pos: usize) -> (r: Result<(Property, usize), Error>)
        requires
            pos <= d@.len(),
        ensures
            prop_at(r) == parse_prop(names@, d@, pos as int),
        decreases d@.len() - pos, 2int,
    {
        proof {
            lemma_head_at(names@, d@, pos as int);
        }
        match decode_head(names, d, pos)? {
            (DecodedHead::End(name_id, pad), p) => Ok((Property::Terminator { name_id, pad }, p)),
            (DecodedHead::Node(header), p) => decode_value(names, d, p, header),
        }
    }
}

/// Decodes a property list at `pos`: nodes up to and including the first terminator.
pub fn decode_list(names: &NameTable, d: &Vec<u8>, pos: usize) -> (r: Result<(Vec<Property>, usize), Error>)
    requires
        pos <= d@.len(),
    ensures
        list_at(r) == parse_list(names@, d@, pos as int),
    decreases d@.len() - pos, 3int,
{
    let mut props: Vec<Property> = Vec::new();
    let mut cur = pos;
    assert(view_props(props@) =~= Seq::<PropV>::empty());
    assert(prepend(Seq::<PropV>::empty(), parse_list(names@, d@, pos as int)) == parse_list(names@, d@, pos as int)) by {
        if let Ok((s, p)) = parse_list(names@, d@, pos as int) {
            assert(Seq::<PropV>::empty() + s =~= s);
        }
    }
    loop
        invariant
            pos <= cur <= d@.len(),
            parse_list(names@, d@, pos as int) == prepend(view_props(props@), parse_list(names@, d@, cur as int)),
        decreases d@.len() - cur,
    {
        let (x, next) = match Property::visit_seq(names, d, cur) {
            Ok(v) => v,
            Err(e) => {
                return Err(e);
            },
        };
        proof {
            lemma_prop_round_trip(names@, d@, cur as int);
            lemma_view_props_push(props@, x);
            lemma_prepend_push(view_props(props@), x@, parse_list(names@, d@, next as int));
        }
        let end = matches!(x, Property::Terminator { .. });
        let ghost before = view_props(props@);
        props.push(x);
        if end {
            proof {
                assert(before + seq![x@] =~= before.push(x@));
            }
            return Ok((props, next));
        }
        cur = next;
    }
}

fn decode_value(names: &NameTable, d: &Vec<u8>, pos: usize, header: PropertyHeader) -> (r: Result<(Property, usize), Error>)
    requires
        pos <= d@.len(),
        (header.type_id as int) < names@.len(),
        (header.name_id as int) < names@.len(),
    ensures
        prop_at(r) == parse_value(names@, d@, pos as int, header@),
    decreases d@.len() - pos, 1int,
{
    let tname = &names.names[header.type_id as usize].bytes;
    proof {
        reveal_strlit("ArrayProperty");
        reveal_strlit("BoolProperty");
        reveal_strlit("ByteProperty");
        reveal_strlit("NameProperty");
        reveal_strlit("FloatProperty");
        reveal_strlit("IntProperty");
        reveal_strlit("ObjectProperty");
        reveal_strlit("StrProperty");
        reveal_strlit("StringRefProperty");
        reveal_strlit("StructProperty");
    }
    if text_is(tname, "ArrayProperty") {
        decode_array(names, d, pos, header)
    } else if text_is(tname, "BoolProperty") {
        let (v, p) = read_u32(d, pos)?;
        if v == 0 {
            Ok((Property::Bool { header, value: false }, p))
        } else if v == 1 {
            Ok((Property::Bool { header, value: true }, p))
        } else {
            Err(Error::InvalidValue)
        }
    } else if text_is(tname, "ByteProperty") && header.size == 1 {
        let (b, p) = read_span(d, pos, 1)?;
        Ok((Property::Byte { header, value: b[0] }, p))
    } else if text_is(tname, "ByteProperty") || text_is(tname, "NameProperty") {
        let (value_name_id, p) = read_u32(d, pos)?;
        let (pad4, q) = Dummy::<4>::decode(d, p)?;
        Ok((Property::Name { header, value_name_id, pad4 }, q))
    } else if text_is(tname, "FloatProperty") {
        let (value, p) = read_u32(d, pos)?;
        Ok((Property::Float { header, value }, p))
    } else if text_is(tname, "IntProperty") {
        let (value, p) = read_i32(d, pos)?;
        Ok((Property::Int { header, value }, p))
    } else if text_is(tname, "ObjectProperty") {
        let (object_id, p) = read_i32(d, pos)?;
        Ok((Property::Object { header, object_id }, p))
    } else if text_is(tname, "StrProperty") {
        let (bytes, p) = read_text(d, pos)?;
        Ok((Property::Str { header, string: ImguiString { bytes } }, p))
    } else if text_is(tname, "StringRefProperty") {
        let (value, p) = read_i32(d, pos)?;
        Ok((Property::StringRef { header, value }, p))
    } else if text_is(tname, "StructProperty") {
        decode_struct_prop(names, d, pos, header)
    } else {
        Err(Error::UnknownPropertyType)
    }
}

fn decode_array(names: &NameTable, d: &Vec<u8>, pos: usize, header: PropertyHeader) -> (r: Result<(Property, usize), Error>)
    requires
        pos <= d@.len(),
        (header.type_id as int) < names@.len(),
        (header.name_id as int) < names@.len(),
    ensures
        prop_at(r) == parse_array(names@, d@, pos as int, header@),
    decreases d@.len() - pos, 0int,
{
    let (count, start) = read_u32(d, pos)?;
    let kind = array_kind_of(&names.names[header.name_id as usize].bytes);
    let (array, q) = decode_elems(names, d, start, kind, count)?;
    Ok((Property::Array { header, array }, q))
}

spec fn elems_at(r: Result<(Vec<ArrayType>, usize), Error>) -> Result<(Seq<ElemV>, int), Error> {
    match r {
        Ok((v, p)) => Ok((view_elems(v@), p as int)),
        Err(e) => Err(e),
    }
}

fn decode_elems(names: &NameTable, d: &Vec<u8>, start: usize, kind: ArrayKind, count: u32) -> (r: Result<(Vec<ArrayType>, usize), Error>)
    requires
        start <= d@.len(),
    ensures
        elems_at(r) == parse_elems(names@, d@, start as int, kind, count as nat),
    decreases d@.len() - start, 5int,
{
    let ghost n = names@;
    let mut array: Vec<ArrayType> = Vec::new();
    let mut cur = start;
    let mut i: u32 = 0;
    assert(prepend(Seq::<ElemV>::empty(), parse_elems(n, d@, start as int, kind, count as nat))
        == parse_elems(n, d@, start as int, kind, count as nat)) by {
        if let Ok((s, p)) = parse_elems(n, d@, start as int, kind, count as nat) {
            assert(Seq::<ElemV>::empty() + s =~= s);
        }
    }
    assert(view_elems(array@) =~= Seq::<ElemV>::empty());
    while i < count
        invariant
            n == names@,
            start <= cur <= d@.len(),
            i <= count,
            parse_elems(n, d@, start as int, kind, count as nat) == prepend(
                view_elems(array@),
                parse_elems(n, d@, cur as int, kind, (count - i) as nat),
            ),
        decreases count - i,
    {
        let ghost left = (count - i) as nat;
        let res = decode_elem(names, d, cur, kind);
        proof {
            lemma_elems_step(n, d@, cur as int, kind, left);
        }
        match res {
            Ok((x, next)) => {
                proof {
                    lemma_view_elems_push(array@, x);
                    lemma_prepend_push(view_elems(array@), x@, parse_elems(n, d@, next as int, kind, (left - 1) as nat));
                }
                array.push(x);
                cur = next;
                i += 1;
            },
            Err(e) => {
                return Err(e);
            },
        }
    }
    assert(view_elems(array@) + Seq::<ElemV>::empty() =~= view_elems(array@));
    assert(parse_elems(n, d@, cur as int, kind, 0) == Ok::<(Seq<ElemV>, int), Error>((Seq::<ElemV>::empty(), cur as int))) by {
        }
    Ok((array, cur))
}

fn decode_struct_prop(names: &NameTable, d: &Vec<u8>, pos: usize, header: PropertyHeader) -> (r: Result<(Property, usize), Error>)
    requires
        pos <= d@.len(),
        (header.type_id as int) < names@.len(),
        (header.name_id as int) < names@.len(),
    ensures
        prop_at(r) == parse_struct_prop(names@, d@, pos as int, header@),
    decreases d@.len() - pos, 0int,
{
    let (struct_name_id, p1) = read_u32(d, pos)?;
    let (pad4, p2) = Dummy::<4>::decode(d, p1)?;
    let struct_name = get_name(names, struct_name_id)?;
    let (properties, q) = decode_struct(names, d, p2, &struct_name.bytes)?;
    Ok((Property::Struct { header, struct_name_id, pad4, properties }, q))
}

fn decode_struct(names: &NameTable, d: &Vec<u8>, pos: usize, struct_name: &Vec<u8>) -> (r: Result<(StructType, usize), Error>)
    requires
        pos <= d@.len(),
    ensures
        struct_at(r) == parse_struct(names@, d@, pos as int, struct_name@),
    decreases d@.len() - pos, 4int,
{
    proof {
        reveal_strlit("LinearColor");
        reveal_strlit("Vector");
        reveal_strlit("Rotator");
    }
    if text_is(struct_name, "LinearColor") {
        let (v, p) = read_vector(d, pos)?;
        let (a, q) = read_u32(d, p)?;
        Ok((StructType::LinearColor(LinearColor { r: v.x, g: v.y, b: v.z, a }), q))
    } else if text_is(struct_name, "Vector") {
        let (v, p) = read_vector(d, pos)?;
        Ok((StructType::Vector(v), p))
    } else if text_is(struct_name, "Rotator") {
        let (v, p) = read_vector(d, pos)?;
        Ok((StructType::Rotator(Rotator { pitch: v.x as i32, yaw: v.y as i32, roll: v.z as i32 }), p))
    } else {
        let (ps, p) = decode_list(names, d, pos)?;
        Ok((StructType::Properties(ps), p))
    }
}

fn decode_elem(names: &NameTable, d: &Vec<u8>, pos: usize, kind: ArrayKind) -> (r: Result<(ArrayType, usize), Error>)
    requires
        pos <= d@.len(),
    ensures
        elem_at(r) == parse_elem(names@, d@, pos as int, kind),
    decreases d@.len() - pos, 4int,
{
    match kind {
        ArrayKind::Int => {
            let (v, p) = read_i32(d, pos)?;
            Ok((ArrayType::Int(v), p))
        },
        ArrayKind::Object => {
            let (v, p) = read_i32(d, pos)?;
            Ok((ArrayType::Object(v), p))
        },
        ArrayKind::Vector => {
            let (v, p) = read_vector(d, pos)?;
            Ok((ArrayType::Vector(v), p))
        },
        ArrayKind::String => {
            let (bytes, p) = read_text(d, pos)?;
            Ok((ArrayType::String(ImguiString { bytes }), p))
        },
        ArrayKind::Properties => {
            let (ps, p) = decode_list(names, d, pos)?;
            Ok((ArrayType::Properties(ps), p))
        },
    }
}

/// The element layout of the array property named `name`.
pub fn array_kind_of(name: &Vec<u8>) -> (r: ArrayKind)
    ensures
        r == array_kind(name@),
{
    proof {
        reveal_strlit("m_PrereqTalentIDArray");
        reveal_strlit("m_PrereqTalentRankArray");
        reveal_strlit("m_aItem");
        reveal_strlit("m_aXMod");
        reveal_strlit("m_aEquipped");
        reveal_strlit("m_QuickSlotArray");
        reveal_strlit("m_savedBuybackItems");
        reveal_strlit("m_vPosition");
        reveal_strlit("m_DependentPackages");
    }
    if text_is(name, "m_PrereqTalentIDArray") || text_is(name, "m_PrereqTalentRankArray") {
        ArrayKind::Int
    } else if text_is(name, "m_aItem") || text_is(name, "m_aXMod") || text_is(name, "m_aEquipped")
        || text_is(name, "m_QuickSlotArray") || text_is(name, "m_savedBuybackItems") {
        ArrayKind::Object
    } else if text_is(name, "m_vPosition") {
        ArrayKind::Vector
    } else if text_is(name, "m_DependentPackages") {
        ArrayKind::String
    } else {
        ArrayKind::Properties
    }
}

// ---------------------------------------------------------------------------
// Encoding
// ---------------------------------------------------------------------------

/// What an encode into `out` owes, given the encoding of the value.
pub open spec fn wrote(e: Option<Seq<u8>>, r: Result<(), Error>, before: Seq<u8>, after: Seq<u8>) -> bool {
    match e {
        Some(b) => r is Ok && after == before + b,
        None => r == Err::<(), Error>(Error::ValueOutOfRange),
    }
}

/// What a size computation owes, given the encoding of the value.
pub open spec fn sized(e: Option<Seq<u8>>, r: Result<usize, Error>) -> bool {
    match e {
        Some(b) => r == Ok::<usize, Error>(b.len() as usize),
        None => r == Err::<usize, Error>(Error::ValueOutOfRange),
    }
}

proof fn lemma_view_props_index(s: Seq<Property>)
    ensures
        view_props(s).len() == s.len(),
        forall|i: int| 0 <= i < s.len() ==> view_props(s)[i] == s[i]@,
    decreases s.len(),
{
    if s.len() > 0 {
        lemma_view_props_index(s.drop_last());
    }
}

proof fn lemma_view_elems_index(s: Seq<ArrayType>)
    ensures
        view_elems(s).len() == s.len(),
        forall|i: int| 0 <= i < s.len() ==> view_elems(s)[i] == s[i]@,
    decreases s.len(),
{
    if s.len() > 0 {
        lemma_view_elems_index(s.drop_last());
    }
}

proof fn lemma_enc_list_none(s: Seq<PropV>, i: int)
    requires
        0 <= i < s.len(),
        enc_prop(s[i]) is None,
    ensures
        enc_list(s) is None,
    decreases s.len(),
{
    if i < s.len() - 1 {
        lemma_enc_list_none(s.drop_last(), i);
    }
}

proof fn lemma_enc_elems_none(s: Seq<ElemV>, i: int)
    requires
        0 <= i < s.len(),
        enc_elem(s[i]) is None,
    ensures
        enc_elems(s) is None,
    decreases s.len(),
{
    if i < s.len() - 1 {
        lemma_enc_elems_none(s.drop_last(), i);
    }
}

fn write_i32(out: &mut Vec<u8>, v: i32)
    ensures
        final(out)@ == old(out)@ + u32_bytes(v as u32),
{
    write_u32(out, v as u32);
}

fn write_vector(out: &mut Vec<u8>, v: &Vector)
    ensures
        final(out)@ == old(out)@ + enc_vector(*v),
{
    write_u32(out, v.x);
    write_u32(out, v.y);
    write_u32(out, v.z);
    assert(final(out)@ =~= old(out)@ + enc_vector(*v));
}

impl PropertyHeader {
    /// Appends the header, with its recorded size replayed as it is.
    pub fn encode(&self, out: &mut Vec<u8>)
        ensures
            final(out)@ == old(out)@ + enc_header(self@),
    {
        write_u32(out, self.name_id);
        self.pad1.encode(out);
        write_u32(out, self.type_id);
        self.pad2.encode(out);
        write_u32(out, self.size);
        self.pad3.encode(out);
        assert(final(out)@ =~= old(out)@ + enc_header(self@));
    }
}

/// Appends a sequence of nodes; fails when a length does not fit in its prefix.
pub fn encode_list(props: &Vec<Property>, out: &mut Vec<u8>) -> (r: Result<(), Error>)
    ensures
        wrote(enc_list(view_props(props@)), r, old(out)@, final(out)@),
    decreases props,
{
    let ghost start = out@;
    let mut i: usize = 0;
    proof {
        lemma_view_props_index(props@);
        assert(props@.subrange(0, 0) =~= Seq::<Property>::empty());
        assert(start + Seq::<u8>::empty() =~= start);
    }
    while i < props.len()
        invariant
            0 <= i <= props@.len(),
            view_props(props@).len() == props@.len(),
            forall|j: int| 0 <= j < props@.len() ==> view_props(props@)[j] == props@[j]@,
            enc_list(view_props(props@.subrange(0, i as int))) == Some(out@.subrange(start.len() as int, out@.len() as int)),
            out@.len() >= start.len(),
            out@.subrange(0, start.len() as int) == start,
        decreases props@.len() - i,
    {
        let ghost before = out@;
        let ghost prefix = props@.subrange(0, i as int);
        match props[i].encode(out) {
            Ok(()) => {},
            Err(e) => {
                proof {
                    lemma_enc_list_none(view_props(props@), i as int);
                }
                return Err(e);
            },
        }
        proof {
            let next = props@.subrange(0, i + 1);
            assert(next.drop_last() =~= prefix);
            assert(view_props(next) == view_props(prefix).push(props@[i as int]@));
            assert(view_props(next).drop_last() =~= view_props(prefix));
            assert(out@.subrange(start.len() as int, out@.len() as int) =~= before.subrange(start.len() as int, before.len() as int) + enc_prop(props@[i as int]@)->0);
            assert(out@.subrange(0, start.len() as int) =~= before.subrange(0, start.len() as int));
        }
        i += 1;
    }
    proof {
        assert(props@.subrange(0, props@.len() as int) =~= props@);
        assert(final(out)@ =~= start + final(out)@.subrange(start.len() as int, final(out)@.len() as int));
    }
    Ok(())
}

impl Property {
    /// Appends the node; fails when a length does not fit in its prefix.
    pub fn encode(&self, out: &mut Vec<u8>) -> (r: Result<(), Error>)
        ensures
            wrote(enc_prop(self@), r, old(out)@, final(out)@),
        decreases self,
    {
        match self {
            Property::Array { header, array } => {
                proof {
                    lemma_view_elems_index(array@);
                }
                if array.len() > 0xffff_ffffusize {
                    return Err(Error::ValueOutOfRange);
                }
                header.encode(out);
                write_u32(out, array.len() as u32);
                let ghost mid = out@;
                proof {
                    lemma_view_elems_index(array@);
                }
                let r = encode_elems(array, out);
                proof {
                    if r is Ok {
                        assert(final(out)@ =~= old(out)@ + (enc_header(header@) + u32_bytes(array.len() as u32) + enc_elems(view_elems(array@))->0));
                    }
                }
                r
            },
            Property::Bool { header, value } => {
                header.encode(out);
                write_u32(out, if *value { 1u32 } else { 0u32 });
                assert(final(out)@ =~= old(out)@ + enc_prop(self@)->0);
                Ok(())
            },
            Property::Byte { header, value } => {
                header.encode(out);
                out.push(*value);
                assert(final(out)@ =~= old(out)@ + enc_prop(self@)->0);
                Ok(())
            },
            Property::Float { header, value } => {
                header.encode(out);
                write_u32(out, *value);
                assert(final(out)@ =~= old(out)@ + enc_prop(self@)->0);
                Ok(())
            },
            Property::Int { header, value } => {
                header.encode(out);
                write_i32(out, *value);
                assert(final(out)@ =~= old(out)@ + enc_prop(self@)->0);
                Ok(())
            },
            Property::Name { header, value_name_id, pad4 } => {
                header.encode(out);
                write_u32(out, *value_name_id);
                pad4.encode(out);
                assert(final(out)@ =~= old(out)@ + enc_prop(self@)->0);
                Ok(())
            },
            Property::Object { header, object_id } => {
                header.encode(out);
                write_i32(out, *object_id);
                assert(final(out)@ =~= old(out)@ + enc_prop(self@)->0);
                Ok(())
            },
            Property::Str { header, string } => {
                if string.bytes.len() > 0xffff_ffffusize {
                    return Err(Error::ValueOutOfRange);
                }
                header.encode(out);
                let r = write_text(out, &string.bytes);
                assert(final(out)@ =~= old(out)@ + enc_prop(self@)->0);
                r
            },
            Property::StringRef { header, value } => {
                header.encode(out);
                write_i32(out, *value);
                assert(final(out)@ =~= old(out)@ + enc_prop(self@)->0);
                Ok(())
            },
            Property::Struct { header, struct_name_id, pad4, properties } => {
                header.encode(out);
                write_u32(out, *struct_name_id);
                pad4.encode(out);
                let r = properties.encode(out);
                proof {
                    if r is Ok {
                        assert(final(out)@ =~= old(out)@ + (enc_header(header@) + u32_bytes(*struct_name_id) + pad4@ + enc_struct(properties.view())->0));
                    }
                }
                r
            },
            Property::Terminator { name_id, pad } => {
                write_u32(out, *name_id);
                pad.encode(out);
                assert(final(out)@ =~= old(out)@ + enc_prop(self@)->0);
                Ok(())
            },
        }
    }

    /// The number of bytes that `encode` appends: 8 for a terminator, otherwise the
    /// 24-byte header and the payload.
    pub fn size(&self) -> (r: Result<usize, Error>)
        ensures
            sized(enc_prop(self@), r),
            self is Terminator ==> r == Ok::<usize, Error>(8),
            self is Bool || self is Float || self is Int || self is Object || self is StringRef ==> r
                == Ok::<usize, Error>(28),
            self is Byte ==> r == Ok::<usize, Error>(25),
            self is Name ==> r == Ok::<usize, Error>(32),
            self matches Property::Str { string, .. } ==> (string@.len() <= u32::MAX ==> r == Ok::<usize, Error>(
                (28 + string@.len()) as usize,
            )),
            self matches Property::Array { array, .. } ==> (r matches Ok(n) ==> n == 28 + enc_elems(view_elems(array@))->0.len()),
            self matches Property::Struct { properties, .. } ==> (r matches Ok(n) ==> n == 32 + enc_struct(properties.view())->0.len()),
    {
        proof {
            broadcast use crate::codec::lemma_u32_bytes_len, Dummy::lemma_len;
            match self {
                Property::Terminator { pad, .. } => {
                    use_type_invariant(pad);
                },
                Property::Name { header, pad4, .. } => {
                    use_type_invariant(&header.pad1);
                    use_type_invariant(&header.pad2);
                    use_type_invariant(&header.pad3);
                    use_type_invariant(pad4);
                },
                Property::Struct { header, pad4, .. } => {
                    use_type_invariant(&header.pad1);
                    use_type_invariant(&header.pad2);
                    use_type_invariant(&header.pad3);
                    use_type_invariant(pad4);
                },
                Property::Array { header, .. } | Property::Bool { header, .. } | Property::Byte { header, .. }
                | Property::Float { header, .. } | Property::Int { header, .. } | Property::Object { header, .. }
                | Property::Str { header, .. } | Property::StringRef { header, .. } => {
                    use_type_invariant(&header.pad1);
                    use_type_invariant(&header.pad2);
                    use_type_invariant(&header.pad3);
                },
            }
        }
        let mut buf: Vec<u8> = Vec::new();
        self.encode(&mut buf)?;
        assert(buf@ =~= Seq::<u8>::empty() + enc_prop(self@)->0);
        proof {
            broadcast use crate::codec::lemma_u32_bytes_len, Dummy::lemma_len;
        }
        Ok(buf.len())
    }
}

impl StructType {
    /// Appends the struct payload; fails when a length does not fit in its prefix.
    pub fn encode(&self, out: &mut Vec<u8>) -> (r: Result<(), Error>)
        ensures
            wrote(enc_struct(self.view()), r, old(out)@, final(out)@),
        decreases self,
    {
        match self {
            StructType::LinearColor(c) => {
                write_u32(out, c.r);
                write_u32(out, c.g);
                write_u32(out, c.b);
                write_u32(out, c.a);
                assert(final(out)@ =~= old(out)@ + enc_color(*c));
                Ok(())
            },
            StructType::Vector(v) => {
                write_vector(out, v);
                Ok(())
            },
            StructType::Rotator(rot) => {
                write_i32(out, rot.pitch);
                write_i32(out, rot.yaw);
                write_i32(out, rot.roll);
                assert(final(out)@ =~= old(out)@ + enc_rotator(*rot));
                Ok(())
            },
            StructType::Properties(ps) => encode_list(ps, out),
        }
    }

    /// The number of bytes that `encode` appends.
    pub fn size(&self) -> (r: Result<usize, Error>)
        ensures
            sized(enc_struct(self.view()), r),
    {
        let mut buf: Vec<u8> = Vec::new();
        self.encode(&mut buf)?;
        assert(buf@ =~= Seq::<u8>::empty() + enc_struct(self.view())->0);
        Ok(buf.len())
    }
}

impl ArrayType {
    /// Appends the element; fails when a length does not fit in its prefix.
    pub fn encode(&self, out: &mut Vec<u8>) -> (r: Result<(), Error>)
        ensures
            wrote(enc_elem(self@), r, old(out)@, final(out)@),
        decreases self,
    {
        match self {
            ArrayType::Int(v) => {
                write_i32(out, *v);
                Ok(())
            },
            ArrayType::Object(v) => {
                write_i32(out, *v);
                Ok(())
            },
            ArrayType::Vector(v) => {
                write_vector(out, v);
                Ok(())
            },
            ArrayType::String(t) => write_text(out, &t.bytes),
            ArrayType::Properties(ps) => encode_list(ps, out),
        }
    }

    /// The number of bytes that `encode` appends.
    pub fn size(&self) -> (r: Result<usize, Error>)
        ensures
            sized(enc_elem(self@), r),
    {
        let mut buf: Vec<u8> = Vec::new();
        self.encode(&mut buf)?;
        assert(buf@ =~= Seq::<u8>::empty() + enc_elem(self@)->0);
        Ok(buf.len())
    }
}

fn encode_elems(elems: &Vec<ArrayType>, out: &mut Vec<u8>) -> (r: Result<(), Error>)
    ensures
        wrote(enc_elems(view_elems(elems@)), r, old(out)@, final(out)@),
    decreases elems,
{
    let ghost start = out@;
    let mut i: usize = 0;
    proof {
        lemma_view_elems_index(elems@);
        assert(elems@.subrange(0, 0) =~= Seq::<ArrayType>::empty());
    }
    while i < elems.len()
        invariant
            0 <= i <= elems@.len(),
            view_elems(elems@).len() == elems@.len(),
            forall|j: int| 0 <= j < elems@.len() ==> view_elems(elems@)[j] == elems@[j]@,
            enc_elems(view_elems(elems@.subrange(0, i as int))) == Some(out@.subrange(start.len() as int, out@.len() as int)),
            out@.len() >= start.len(),
            out@.subrange(0, start.len() as int) == start,
        decreases elems@.len() - i,
    {
        let ghost before = out@;
        let ghost prefix = elems@.subrange(0, i as int);
        match elems[i].encode(out) {
            Ok(()) => {},
            Err(e) => {
                proof {
                    lemma_enc_elems_none(view_elems(elems@), i as int);
                }
                return Err(e);
            },
        }
        proof {
            let next = elems@.subrange(0, i + 1);
            assert(next.drop_last() =~= prefix);
            assert(view_elems(next) == view_elems(prefix).push(elems@[i as int]@));
            assert(view_elems(next).drop_last() =~= view_elems(prefix));
            assert(out@.subrange(start.len() as int, out@.len() as int) =~= before.subrange(start.len() as int, before.len() as int) + enc_elem(elems@[i as int]@)->0);
            assert(out@.subrange(0, start.len() as int) =~= before.subrange(0, start.len() as int));
        }
        i += 1;
    }
    proof {
        assert(elems@.subrange(0, elems@.len() as int) =~= elems@);
        assert(final(out)@ =~= start + final(out)@.subrange(start.len() as int, final(out)@.len() as int));
    }
    Ok(())
}

// ---------------------------------------------------------------------------
// A data block: a padding span, then a property list
// ---------------------------------------------------------------------------

/// A padding span followed by a property list.
#[derive(Debug)]
pub struct Data {
    pub pad: Dummy<4>,
    pub properties: Vec<Property>,
}

/// Model of `Data`.
pub struct DataV {
    pub pad: Seq<u8>,
    pub properties: Seq<PropV>,
}

pub open spec fn parse_data(names: Seq<Seq<u8>>, d: Seq<u8>, pos: int) -> Result<(DataV, int), Error> {
    match parse_span(d, pos, 4) {
        Err(e) => Err(e),
        Ok((pad, p)) => match parse_list(names, d, p) {
            Err(e) => Err(e),
            Ok((properties, q)) => Ok((DataV { pad, properties }, q)),
        },
    }
}

pub open spec fn enc_data(v: DataV) -> Option<Seq<u8>> {
    cat(Some(v.pad), enc_list(v.properties))
}

pub open spec fn data_at(r: Result<(Data, usize), Error>) -> Result<(DataV, int), Error> {
    match r {
        Ok((v, p)) => Ok((v@, p as int)),
        Err(e) => Err(e),
    }
}

impl Data {
    pub open spec fn view(&self) -> DataV {
        DataV { pad: self.pad@, properties: view_props(self.properties@) }
    }

    /// Decodes a data block at `pos`.
    pub fn visit_seq(names: &NameTable, d: &Vec<u8>, pos: usize) -> (r: Result<(Data, usize), Error>)
        ensures
            data_at(r) == parse_data(names@, d@, pos as int),
    {
        let (pad, p) = Dummy::<4>::decode(d, pos)?;
        let (properties, q) = decode_list(names, d, p)?;
        Ok((Data { pad, properties }, q))
    }

    /// Appends the data block; fails when a length does not fit in its prefix.
    pub fn encode(&self, out: &mut Vec<u8>) -> (r: Result<(), Error>)
        ensures
            wrote(enc_data(self@), r, old(out)@, final(out)@),
    {
        self.pad.encode(out);
        let ghost mid = out@;
        let r = encode_list(&self.properties, out);
        proof {
            if r is Ok {
                assert(final(out)@ =~= old(out)@ + (self.pad@ + enc_list(view_props(self.properties@))->0));
            }
        }
        r
    }

    /// The number of bytes that `encode` appends: 4 for the padding span, then the
    /// property list.
    pub fn size(&self) -> (r: Result<usize, Error>)
        ensures
            sized(enc_data(self@), r),
            r matches Ok(n) ==> n == 4 + enc_list(view_props(self.properties@))->0.len(),
    {
        proof {
            use_type_invariant(&self.pad);
            self.pad.lemma_len();
        }
        let mut buf: Vec<u8> = Vec::new();
        self.encode(&mut buf)?;
        assert(buf@ =~= Seq::<u8>::empty() + enc_data(self@)->0);
        Ok(buf.len())
    }
}

/// Decoding a data block and encoding the result gives back exactly the bytes that the
/// decode consumed.
pub proof fn lemma_data_round_trip(names: Seq<Seq<u8>>, d: Seq<u8>, pos: int)
    ensures
        parse_data(names, d, pos) matches Ok((v, p)) ==> 0 <= pos < p <= d.len()
            && enc_data(v) == Some(d.subrange(pos, p)),
{
    if let Ok((pad, p)) = parse_span(d, pos, 4) {
        lemma_list_round_trip(names, d, p);
        if let Ok((s, q)) = parse_list(names, d, p) {
            lemma_join(d, pos, p, q);
        }
    }
}

} // verus!
