use vstd::prelude::*;

use crate::codec::text_matches;
use crate::property::{
    array_kind, enc_header, enc_prop, lemma_head_at, lemma_prop_round_trip, parse_array,
    parse_elem, parse_elems, parse_head, parse_list, parse_prop, parse_value, ArrayKind, ElemV,
    Head, HeaderV, PropV,
};

verus! {

/// The header of a typed node.
pub open spec fn header_of(p: PropV) -> Option<HeaderV> {
    match p {
        PropV::Array(h, _) => Some(h),
        PropV::Bool(h, _) => Some(h),
        PropV::Byte(h, _) => Some(h),
        PropV::Float(h, _) => Some(h),
        PropV::Int(h, _) => Some(h),
        PropV::Name(h, _, _) => Some(h),
        PropV::Object(h, _) => Some(h),
        PropV::Str(h, _) => Some(h),
        PropV::StringRef(h, _) => Some(h),
        PropV::Struct(h, _, _, _) => Some(h),
        PropV::End(_, _) => None,
    }
}

/// The names that the array layout table lists.
pub open spec fn in_array_table(name: Seq<u8>) -> bool {
    text_matches(name, "m_PrereqTalentIDArray"@) || text_matches(name, "m_PrereqTalentRankArray"@)
        || text_matches(name, "m_aItem"@) || text_matches(name, "m_aXMod"@)
        || text_matches(name, "m_aEquipped"@) || text_matches(name, "m_QuickSlotArray"@)
        || text_matches(name, "m_savedBuybackItems"@) || text_matches(name, "m_vPosition"@)
        || text_matches(name, "m_DependentPackages"@)
}

proof fn lemma_value_header(names: Seq<Seq<u8>>, d: Seq<u8>, pos: int, h: HeaderV)
    requires
        (h.type_id as int) < names.len(),
    ensures
        parse_value(names, d, pos, h) matches Ok((v, q)) ==> header_of(v) == Some(h)
            && names[h.type_id as int].len() > 0,
{
    reveal_strlit("ArrayProperty");
    reveal_strlit("BoolProperty");
    reveal_strlit("ByteProperty");
    reveal_strlit("NameProperty");
    reveal_strlit("FloatProperty");
    reveal_strlit("IntProperty");
    reveal_strlit("ObjectProperty");
    reveal_strlit("StrProperty");
    reveal_strlit("StringRefProperty");
    reveal_strlit("StructProperty");
}

/// Every node of a decoded list has name and type indices that address the name table,
/// and the type index resolves to a non-empty name; where the table holds no empty name,
/// the name index resolves to a non-empty name too.
pub proof fn lemma_names_resolve(names: Seq<Seq<u8>>, d: Seq<u8>, pos: int)
    ensures
        parse_list(names, d, pos) matches Ok((s, p)) ==> forall|i: int| 0 <= i < s.len() ==> {
            &&& (#[trigger] s[i] matches PropV::End(id, _) ==> (id as int) < names.len()
                && names[id as int].len() > 0)
            &&& (header_of(s[i]) matches Some(h) ==> (h.name_id as int) < names.len()
                && (h.type_id as int) < names.len() && names[h.type_id as int].len() > 0)
            &&& ((forall|k: int| 0 <= k < names.len() ==> names[k].len() > 0) ==> (header_of(s[i]) matches Some(h)
                ==> names[h.name_id as int].len() > 0))
        },
    decreases d.len() - pos,
{
    reveal_strlit("None");
    lemma_head_at(names, d, pos);
    if let Ok((Head::Node(h), p)) = parse_head(names, d, pos) {
        lemma_value_header(names, d, p, h);
    }
    if let Ok((x, p)) = parse_prop(names, d, pos) {
        lemma_prop_round_trip(names, d, pos);
        if !(x is End) && pos < p <= d.len() {
            lemma_names_resolve(names, d, p);
        }
    }
}

/// A decoded list holds exactly one terminator, and it is the last node.
pub proof fn lemma_terminator_last(names: Seq<Seq<u8>>, d: Seq<u8>, pos: int)
    ensures
        parse_list(names, d, pos) matches Ok((s, p)) ==> s.len() >= 1 && s.last() is End
            && forall|i: int| 0 <= i < s.len() - 1 ==> !(#[trigger] s[i] is End),
    decreases d.len() - pos,
{
    if let Ok((x, p)) = parse_prop(names, d, pos) {
        if !(x is End) && pos < p <= d.len() {
            lemma_terminator_last(names, d, p);
            if let Ok((rest, q)) = parse_list(names, d, p) {
                let s = seq![x] + rest;
                assert forall|i: int| 0 <= i < s.len() - 1 implies !(#[trigger] s[i] is End) by {
                    if i > 0 {
                        assert(s[i] == rest[i - 1]);
                    }
                }
                assert(s.last() == rest.last());
            }
        }
    }
}

/// A byte-typed node whose recorded size is 1 decodes to a one-byte value, any other
/// size to a name reference; either way the re-encoded node keeps the header, its size
/// included, and a payload of that shape.
pub proof fn lemma_byte_branch(names: Seq<Seq<u8>>, d: Seq<u8>, pos: int, h: HeaderV)
    requires
        (h.type_id as int) < names.len(),
        text_matches(names[h.type_id as int], "ByteProperty"@),
        h.pad1.len() == 4,
        h.pad2.len() == 4,
        h.pad3.len() == 4,
    ensures
        parse_value(names, d, pos, h) matches Ok((v, q)) ==> {
            &&& h.size == 1 ==> v is Byte
            &&& h.size != 1 ==> v is Name
            &&& header_of(v) == Some(h)
            &&& enc_prop(v) is Some
            &&& enc_prop(v)->0.subrange(0, 24) == enc_header(h)
            &&& enc_prop(v)->0.len() == 24 + if h.size == 1 { 1int } else { 8int }
        },
{
    reveal_strlit("ArrayProperty");
    reveal_strlit("BoolProperty");
    reveal_strlit("ByteProperty");
    let t = names[h.type_id as int];
    assert(t[0] == ("ByteProperty"@)[0] as u8);
    assert(t[1] == ("ByteProperty"@)[1] as u8);
    assert(!text_matches(t, "ArrayProperty"@));
    assert(!text_matches(t, "BoolProperty"@));
    if let Ok((v, q)) = parse_value(names, d, pos, h) {
        assert(crate::codec::u32_bytes(h.size).len() == 4);
        assert(enc_header(h).len() == 24);
        assert(enc_prop(v)->0.subrange(0, 24) =~= enc_header(h));
    }
}

/// The layout of a decoded array element.
pub open spec fn elem_kind(e: ElemV) -> ArrayKind {
    match e {
        ElemV::Int(_) => ArrayKind::Int,
        ElemV::Object(_) => ArrayKind::Object,
        ElemV::Vector(_) => ArrayKind::Vector,
        ElemV::Str(_) => ArrayKind::String,
        ElemV::Props(_) => ArrayKind::Properties,
    }
}

proof fn lemma_elems_kind(names: Seq<Seq<u8>>, d: Seq<u8>, pos: int, kind: ArrayKind, count: nat)
    ensures
        parse_elems(names, d, pos, kind, count) matches Ok((es, q)) ==> forall|i: int| 0 <= i < es.len() ==> elem_kind(#[trigger] es[i]) == kind,
    decreases count,
{
    if count > 0 {
        if let Ok((x, p)) = parse_elem(names, d, pos, kind) {
            if pos < p <= d.len() {
                lemma_elems_kind(names, d, p, kind, (count - 1) as nat);
                if let Ok((rest, q)) = parse_elems(names, d, p, kind, (count - 1) as nat) {
                    let es = seq![x] + rest;
                    assert forall|i: int| 0 <= i < es.len() implies elem_kind(#[trigger] es[i]) == kind by {
                        if i > 0 {
                            assert(es[i] == rest[i - 1]);
                        }
                    }
                }
            }
        }
    }
}

/// An array property whose name the layout table lists never decodes an element as a
/// nested property list.
pub proof fn lemma_array_table_complete(names: Seq<Seq<u8>>, d: Seq<u8>, pos: int, h: HeaderV)
    requires
        (h.name_id as int) < names.len(),
        in_array_table(names[h.name_id as int]),
    ensures
        array_kind(names[h.name_id as int]) != ArrayKind::Properties,
        parse_array(names, d, pos, h) matches Ok((PropV::Array(_, es), q)) ==> forall|i: int| 0 <= i < es.len() ==> !(#[trigger] es[i] is Props),
{
    let kind = array_kind(names[h.name_id as int]);
    if let Ok((count, p)) = crate::codec::parse_u32(d, pos) {
        lemma_elems_kind(names, d, p, kind, count as nat);
    }
}

} // verus!
