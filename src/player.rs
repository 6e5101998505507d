use vstd::prelude::*;

use crate::codec::{read_span, read_u32, u32_bytes, write_u32, Dummy};
use crate::error::Error;

verus! {

/// A talent with its rank.
#[derive(Clone, Copy, Debug, Default, PartialEq, Eq, Structural)]
pub struct SimpleTalent {
    pub talent_id: i32,
    pub ranks: i32,
}

pub open spec fn enc_i32(v: i32) -> Seq<u8> {
    u32_bytes(v as u32)
}

pub open spec fn enc_simple_talent(t: SimpleTalent) -> Seq<u8> {
    enc_i32(t.talent_id) + enc_i32(t.ranks)
}

/// A sequence of `i32` values, each in four bytes.
pub open spec fn enc_i32s(s: Seq<i32>) -> Seq<u8>
    decreases s.len(),
{
    if s.len() == 0 {
        Seq::empty()
    } else {
        enc_i32s(s.drop_last()) + enc_i32(s.last())
    }
}

/// A length-prefixed sequence of `i32` values.
pub open spec fn enc_i32_list(s: Seq<i32>) -> Seq<u8> {
    u32_bytes(s.len() as u32) + enc_i32s(s)
}

/// The `u32` count stored at `p`.
pub open spec fn count_at(d: Seq<u8>, p: int) -> int {
    crate::codec::u32_of(d.subrange(p, p + 4)) as int
}

/// A length-prefixed list of `i32` fits in `d` at `p`.
pub open spec fn i32_list_ok(d: Seq<u8>, p: int) -> bool {
    p + 4 <= d.len() && p + 4 + 4 * count_at(d, p) <= d.len()
}

pub open spec fn i32_list_end(d: Seq<u8>, p: int) -> int {
    p + 4 + 4 * count_at(d, p)
}

fn read_i32(d: &Vec<u8>, pos: usize) -> (r: Result<(i32, usize), Error>)
    ensures
        r matches Ok((v, p)) ==> pos + 4 <= d@.len() && p == pos + 4 && enc_i32(v) == d@.subrange(pos as int, p as int),
        r is Ok <==> pos + 4 <= d@.len(),
        r matches Err(e) ==> e == Error::TruncatedInput,
{
    let (v, p) = read_u32(d, pos)?;
    proof {
        crate::codec::lemma_u32_bytes_of(d@.subrange(pos as int, pos + 4));
        crate::codec::lemma_i32_bits(v);
    }
    Ok((v as i32, p))
}

fn write_i32(out: &mut Vec<u8>, v: i32)
    ensures
        final(out)@ == old(out)@ + enc_i32(v),
{
    write_u32(out, v as u32);
}

fn read_i32_list(d: &Vec<u8>, pos: usize) -> (r: Result<(Vec<i32>, usize), Error>)
    ensures
        r is Ok <==> i32_list_ok(d@, pos as int),
        r matches Ok((v, p)) ==> p == i32_list_end(d@, pos as int),
        r matches Ok((v, p)) ==> pos <= p <= d@.len() && v@.len() <= u32::MAX && enc_i32_list(v@) == d@.subrange(pos as int, p as int),
        r matches Err(e) ==> e == Error::TruncatedInput,
{
    let (count, start) = read_u32(d, pos)?;
    proof {
        crate::codec::lemma_u32_bytes_of(d@.subrange(pos as int, pos + 4));
    }
    let mut v: Vec<i32> = Vec::new();
    let mut cur = start;
    let mut i: u32 = 0;
    assert(d@.subrange(start as int, start as int) =~= enc_i32s(v@));
    while i < count
        invariant
            start == pos + 4,
            count == count_at(d@, pos as int),
            start <= cur <= d@.len(),
            cur == start + 4 * i,
            i <= count,
            v@.len() == i,
            enc_i32s(v@) == d@.subrange(start as int, cur as int),
        decreases count - i,
    {
        let (x, next) = read_i32(d, cur)?;
        proof {
            assert(v@.push(x).drop_last() =~= v@);
            assert(d@.subrange(start as int, cur as int) + d@.subrange(cur as int, next as int) =~= d@.subrange(start as int, next as int));
        }
        v.push(x);
        cur = next;
        i += 1;
    }
    assert(d@.subrange(pos as int, start as int) + d@.subrange(start as int, cur as int) =~= d@.subrange(pos as int, cur as int));
    Ok((v, cur))
}

fn write_i32_list(out: &mut Vec<u8>, v: &Vec<i32>) -> (r: Result<(), Error>)
    ensures
        r is Ok <==> v@.len() <= u32::MAX,
        r is Ok ==> final(out)@ == old(out)@ + enc_i32_list(v@),
        r is Err ==> r == Err::<(), Error>(Error::ValueOutOfRange),
{
    if v.len() > 0xffff_ffffusize {
        return Err(Error::ValueOutOfRange);
    }
    write_u32(out, v.len() as u32);
    let ghost start = out@;
    let mut i: usize = 0;
    assert(v@.subrange(0, 0) =~= Seq::<i32>::empty());
    assert(out@ =~= start + enc_i32s(v@.subrange(0, 0)));
    while i < v.len()
        invariant
            0 <= i <= v@.len(),
            out@ == start + enc_i32s(v@.subrange(0, i as int)),
        decreases v@.len() - i,
    {
        write_i32(out, v[i]);
        proof {
            assert(v@.subrange(0, i + 1).drop_last() =~= v@.subrange(0, i as int));
        }
        i += 1;
    }
    assert(v@.subrange(0, v@.len() as int) =~= v@);
    assert(final(out)@ =~= old(out)@ + enc_i32_list(v@));
    Ok(())
}

impl SimpleTalent {
    /// Reads the two fields in order.
    pub fn decode(d: &Vec<u8>, pos: usize) -> (r: Result<(SimpleTalent, usize), Error>)
        ensures
            r is Ok <==> pos + 8 <= d@.len(),
            r matches Ok((t, p)) ==> p == pos + 8 && enc_simple_talent(t) == d@.subrange(pos as int, p as int),
            r matches Err(e) ==> e == Error::TruncatedInput,
    {
        if pos > d.len() || 8 > d.len() - pos {
            return Err(Error::TruncatedInput);
        }
        let (talent_id, p) = read_i32(d, pos)?;
        let (ranks, q) = read_i32(d, p)?;
        assert(d@.subrange(pos as int, p as int) + d@.subrange(p as int, q as int) =~= d@.subrange(pos as int, q as int));
        Ok((SimpleTalent { talent_id, ranks }, q))
    }

    /// Appends the two fields in order.
    pub fn encode(&self, out: &mut Vec<u8>)
        ensures
            final(out)@ == old(out)@ + enc_simple_talent(*self),
    {
        write_i32(out, self.talent_id);
        write_i32(out, self.ranks);
        assert(final(out)@ =~= old(out)@ + enc_simple_talent(*self));
    }
}

/// A talent with its rank progression and prerequisites.
#[derive(Clone, Debug, Default, PartialEq, Eq)]
pub struct ComplexTalent {
    pub talent_id: i32,
    pub ranks: i32,
    pub max_rank: i32,
    pub level_offset: i32,
    pub levels_per_rank: i32,
    pub visual_order: i32,
    pub prereq_talent_id_array: Vec<i32>,
    pub prereq_talent_rank_array: Vec<i32>,
}

pub open spec fn enc_complex_talent(t: ComplexTalent) -> Seq<u8> {
    enc_i32(t.talent_id) + enc_i32(t.ranks) + enc_i32(t.max_rank) + enc_i32(t.level_offset)
        + enc_i32(t.levels_per_rank) + enc_i32(t.visual_order) + enc_i32_list(t.prereq_talent_id_array@)
        + enc_i32_list(t.prereq_talent_rank_array@)
}

impl ComplexTalent {
    /// Reads the fields in order.
    pub fn decode(d: &Vec<u8>, pos: usize) -> (r: Result<(ComplexTalent, usize), Error>)
        ensures
            r is Ok <==> pos + 24 <= d@.len() && i32_list_ok(d@, pos + 24) && i32_list_ok(d@, i32_list_end(d@, pos + 24)),
            r matches Ok((t, p)) ==> pos <= p <= d@.len() && enc_complex_talent(t) == d@.subrange(pos as int, p as int),
            r matches Err(e) ==> e == Error::TruncatedInput,
    {
        let (talent_id, p1) = read_i32(d, pos)?;
        let (ranks, p2) = read_i32(d, p1)?;
        let (max_rank, p3) = read_i32(d, p2)?;
        let (level_offset, p4) = read_i32(d, p3)?;
        let (levels_per_rank, p5) = read_i32(d, p4)?;
        let (visual_order, p6) = read_i32(d, p5)?;
        let (prereq_talent_id_array, p7) = read_i32_list(d, p6)?;
        let (prereq_talent_rank_array, p8) = read_i32_list(d, p7)?;
        let t = ComplexTalent {
            talent_id,
            ranks,
            max_rank,
            level_offset,
            levels_per_rank,
            visual_order,
            prereq_talent_id_array,
            prereq_talent_rank_array,
        };
        proof {
            let s = d@;
            assert(s.subrange(pos as int, p8 as int) =~= s.subrange(pos as int, p1 as int) + s.subrange(p1 as int, p2 as int)
                + s.subrange(p2 as int, p3 as int) + s.subrange(p3 as int, p4 as int) + s.subrange(p4 as int, p5 as int)
                + s.subrange(p5 as int, p6 as int) + s.subrange(p6 as int, p7 as int) + s.subrange(p7 as int, p8 as int));
        }
        Ok((t, p8))
    }

    /// Appends the fields in order; fails when a list is too long for its count.
    pub fn encode(&self, out: &mut Vec<u8>) -> (r: Result<(), Error>)
        ensures
            r is Ok <==> self.prereq_talent_id_array@.len() <= u32::MAX && self.prereq_talent_rank_array@.len() <= u32::MAX,
            r is Ok ==> final(out)@ == old(out)@ + enc_complex_talent(*self),
            r is Err ==> r == Err::<(), Error>(Error::ValueOutOfRange),
    {
        if self.prereq_talent_id_array.len() > 0xffff_ffffusize || self.prereq_talent_rank_array.len() > 0xffff_ffffusize {
            return Err(Error::ValueOutOfRange);
        }
        write_i32(out, self.talent_id);
        write_i32(out, self.ranks);
        write_i32(out, self.max_rank);
        write_i32(out, self.level_offset);
        write_i32(out, self.levels_per_rank);
        write_i32(out, self.visual_order);
        write_i32_list(out, &self.prereq_talent_id_array)?;
        write_i32_list(out, &self.prereq_talent_rank_array)?;
        assert(final(out)@ =~= old(out)@ + enc_complex_talent(*self));
        Ok(())
    }
}

/// The grade of an item, stored as one byte.
#[derive(Clone, Copy, Debug, Default, PartialEq, Eq, Structural)]
pub enum ItemLevel {
    #[default]
    Unset,
    I,
    II,
    III,
    IV,
    V,
    VI,
    VII,
    VIII,
    IX,
    X,
}

impl ItemLevel {
    /// The byte that stands for the grade.
    pub open spec fn code_spec(self) -> u8 {
        match self {
            ItemLevel::Unset => 0,
            ItemLevel::I => 1,
            ItemLevel::II => 2,
            ItemLevel::III => 3,
            ItemLevel::IV => 4,
            ItemLevel::V => 5,
            ItemLevel::VI => 6,
            ItemLevel::VII => 7,
            ItemLevel::VIII => 8,
            ItemLevel::IX => 9,
            ItemLevel::X => 10,
        }
    }

    pub fn code(&self) -> (r: u8)
        ensures
            r == self.code_spec(),
    {
        match self {
            ItemLevel::Unset => 0,
            ItemLevel::I => 1,
            ItemLevel::II => 2,
            ItemLevel::III => 3,
            ItemLevel::IV => 4,
            ItemLevel::V => 5,
            ItemLevel::VI => 6,
            ItemLevel::VII => 7,
            ItemLevel::VIII => 8,
            ItemLevel::IX => 9,
            ItemLevel::X => 10,
        }
    }

    /// The grade that `b` stands for; bytes above 10 stand for none.
    pub fn from_code(b: u8) -> (r: Result<ItemLevel, Error>)
        ensures
            r is Ok <==> b <= 10,
            r matches Ok(l) ==> l.code_spec() == b,
            r matches Err(e) ==> e == Error::InvalidValue,
    {
        match b {
            0 => Ok(ItemLevel::Unset),
            1 => Ok(ItemLevel::I),
            2 => Ok(ItemLevel::II),
            3 => Ok(ItemLevel::III),
            4 => Ok(ItemLevel::IV),
            5 => Ok(ItemLevel::V),
            6 => Ok(ItemLevel::VI),
            7 => Ok(ItemLevel::VII),
            8 => Ok(ItemLevel::VIII),
            9 => Ok(ItemLevel::IX),
            10 => Ok(ItemLevel::X),
            _ => Err(Error::InvalidValue),
        }
    }
}

pub open spec fn enc_bool(b: bool) -> Seq<u8> {
    u32_bytes(if b { 1u32 } else { 0u32 })
}

fn read_bool(d: &Vec<u8>, pos: usize) -> (r: Result<(bool, usize), Error>)
    ensures
        r is Ok <==> pos + 4 <= d@.len() && count_at(d@, pos as int) <= 1,
        r matches Ok((v, p)) ==> pos + 4 <= d@.len() && p == pos + 4 && enc_bool(v) == d@.subrange(pos as int, p as int),
        r matches Err(e) ==> e == Error::TruncatedInput || e == Error::InvalidValue,
{
    let (v, p) = read_u32(d, pos)?;
    proof {
        crate::codec::lemma_u32_bytes_of(d@.subrange(pos as int, pos + 4));
    }
    if v == 0 {
        Ok((false, p))
    } else if v == 1 {
        Ok((true, p))
    } else {
        Err(Error::InvalidValue)
    }
}

fn read_level(d: &Vec<u8>, pos: usize) -> (r: Result<(ItemLevel, usize), Error>)
    ensures
        r is Ok <==> pos + 1 <= d@.len() && d@[pos as int] <= 10,
        r matches Ok((v, p)) ==> pos + 1 <= d@.len() && p == pos + 1 && seq![v.code_spec()] == d@.subrange(pos as int, p as int),
        r matches Err(e) ==> e == Error::TruncatedInput || e == Error::InvalidValue,
{
    let (b, p) = read_span(d, pos, 1)?;
    let level = ItemLevel::from_code(b[0])?;
    assert(seq![level.code_spec()] =~= d@.subrange(pos as int, p as int));
    Ok((level, p))
}

/// A modification attached to an item.
#[derive(Clone, Debug, Default)]
pub struct ItemMod {
    pub item_id: i32,
    pub item_level: ItemLevel,
    pub manufacturer_id: i32,
    pub pad: Dummy<4>,
}

pub open spec fn enc_item_mod(m: ItemMod) -> Seq<u8> {
    enc_i32(m.item_id) + seq![m.item_level.code_spec()] + enc_i32(m.manufacturer_id) + m.pad@
}

pub open spec fn enc_item_mods(s: Seq<ItemMod>) -> Seq<u8>
    decreases s.len(),
{
    if s.len() == 0 {
        Seq::empty()
    } else {
        enc_item_mods(s.drop_last()) + enc_item_mod(s.last())
    }
}

impl ItemMod {
    /// Reads the fields in order.
    pub fn decode(d: &Vec<u8>, pos: usize) -> (r: Result<(ItemMod, usize), Error>)
        ensures
            r is Ok <==> pos + 13 <= d@.len() && d@[pos + 4] <= 10,
            r matches Ok((m, p)) ==> p == pos + 13 && p <= d@.len() && enc_item_mod(m) == d@.subrange(pos as int, p as int),
            r matches Err(e) ==> e == Error::TruncatedInput || e == Error::InvalidValue,
    {
        let (item_id, p1) = read_i32(d, pos)?;
        let (item_level, p2) = read_level(d, p1)?;
        let (manufacturer_id, p3) = read_i32(d, p2)?;
        let (pad, p4) = Dummy::<4>::decode(d, p3)?;
        let m = ItemMod { item_id, item_level, manufacturer_id, pad };
        proof {
            let s = d@;
            assert(s.subrange(pos as int, p4 as int) =~= s.subrange(pos as int, p1 as int) + s.subrange(p1 as int, p2 as int)
                + s.subrange(p2 as int, p3 as int) + s.subrange(p3 as int, p4 as int));
        }
        Ok((m, p4))
    }

    /// Appends the fields in order.
    pub fn encode(&self, out: &mut Vec<u8>)
        ensures
            final(out)@ == old(out)@ + enc_item_mod(*self),
    {
        write_i32(out, self.item_id);
        out.push(self.item_level.code());
        write_i32(out, self.manufacturer_id);
        self.pad.encode(out);
        assert(final(out)@ =~= old(out)@ + enc_item_mod(*self));
    }
}

/// `count` mods fit in `d` at `p`, each with a valid grade.
pub open spec fn mods_ok(d: Seq<u8>, p: int, count: nat) -> bool
    decreases count,
{
    count == 0 || (p + 13 <= d.len() && d[p + 4] <= 10 && mods_ok(d, p + 13, (count - 1) as nat))
}

/// An item fits in `d` at `p`: fixed fields with a valid grade and flags, then its mods.
pub open spec fn item_ok(d: Seq<u8>, p: int) -> bool {
    &&& p + 25 <= d.len()
    &&& d[p + 4] <= 10
    &&& count_at(d, p + 13) <= 1
    &&& count_at(d, p + 17) <= 1
    &&& mods_ok(d, p + 25, count_at(d, p + 21) as nat)
}

pub open spec fn item_end(d: Seq<u8>, p: int) -> int {
    p + 25 + 13 * count_at(d, p + 21)
}

/// `count` items fit in `d` at `p`.
pub open spec fn items_ok(d: Seq<u8>, p: int, count: nat) -> bool
    decreases count,
{
    count == 0 || (item_ok(d, p) && items_ok(d, item_end(d, p), (count - 1) as nat))
}

pub open spec fn items_end(d: Seq<u8>, p: int, count: nat) -> int
    decreases count,
{
    if count == 0 {
        p
    } else {
        items_end(d, item_end(d, p), (count - 1) as nat)
    }
}

/// A length-prefixed list of items fits in `d` at `p`.
pub open spec fn item_list_ok(d: Seq<u8>, p: int) -> bool {
    p + 4 <= d.len() && items_ok(d, p + 4, count_at(d, p) as nat)
}

pub open spec fn item_list_end(d: Seq<u8>, p: int) -> int {
    items_end(d, p + 4, count_at(d, p) as nat)
}

/// An item of the inventory.
#[derive(Clone, Debug, Default)]
pub struct Item {
    pub item_id: i32,
    pub item_level: ItemLevel,
    pub manufacturer_id: i32,
    pub plot_conditional_id: i32,
    pub unknown_bool: bool,
    pub is_junk: bool,
    pub attached_mods: Vec<ItemMod>,
}

pub open spec fn enc_item(t: Item) -> Seq<u8> {
    enc_i32(t.item_id) + seq![t.item_level.code_spec()] + enc_i32(t.manufacturer_id)
        + enc_i32(t.plot_conditional_id) + enc_bool(t.unknown_bool) + enc_bool(t.is_junk)
        + u32_bytes(t.attached_mods@.len() as u32) + enc_item_mods(t.attached_mods@)
}

pub open spec fn item_fits(t: Item) -> bool {
    t.attached_mods@.len() <= u32::MAX
}

pub open spec fn enc_items(s: Seq<Item>) -> Seq<u8>
    decreases s.len(),
{
    if s.len() == 0 {
        Seq::empty()
    } else {
        enc_items(s.drop_last()) + enc_item(s.last())
    }
}

/// A length-prefixed sequence of items.
pub open spec fn enc_item_list(s: Seq<Item>) -> Seq<u8> {
    u32_bytes(s.len() as u32) + enc_items(s)
}

pub open spec fn items_fit(s: Seq<Item>) -> bool {
    s.len() <= u32::MAX && forall|i: int| 0 <= i < s.len() ==> item_fits(#[trigger] s[i])
}

impl Item {
    /// Reads the fields in order.
    pub fn decode(d: &Vec<u8>, pos: usize) -> (r: Result<(Item, usize), Error>)
        ensures
            r is Ok <==> item_ok(d@, pos as int),
            r matches Ok((t, p)) ==> p == item_end(d@, pos as int) && pos <= p <= d@.len() && item_fits(t) && enc_item(t) == d@.subrange(pos as int, p as int),
            r matches Err(e) ==> e == Error::TruncatedInput || e == Error::InvalidValue,
    {
        let (item_id, p1) = read_i32(d, pos)?;
        let (item_level, p2) = read_level(d, p1)?;
        let (manufacturer_id, p3) = read_i32(d, p2)?;
        let (plot_conditional_id, p4) = read_i32(d, p3)?;
        let (unknown_bool, p5) = read_bool(d, p4)?;
        let (is_junk, p6) = read_bool(d, p5)?;
        let (count, p7) = read_u32(d, p6)?;
        proof {
            crate::codec::lemma_u32_bytes_of(d@.subrange(p6 as int, p6 + 4));
        }
        let mut mods: Vec<ItemMod> = Vec::new();
        let mut cur = p7;
        let mut i: u32 = 0;
        assert(d@.subrange(p7 as int, p7 as int) =~= enc_item_mods(mods@));
        while i < count
            invariant
                p7 == pos + 25,
                count == count_at(d@, pos + 21),
                mods_ok(d@, p7 as int, count as nat) == mods_ok(d@, cur as int, (count - i) as nat),
                cur == p7 + 13 * i,
                p7 <= cur <= d@.len(),
                i <= count,
                mods@.len() == i,
                enc_item_mods(mods@) == d@.subrange(p7 as int, cur as int),
            decreases count - i,
        {
            let (m, next) = ItemMod::decode(d, cur)?;
            proof {
                assert(mods@.push(m).drop_last() =~= mods@);
                assert(d@.subrange(p7 as int, cur as int) + d@.subrange(cur as int, next as int) =~= d@.subrange(p7 as int, next as int));
            }
            mods.push(m);
            cur = next;
            i += 1;
        }
        let t = Item { item_id, item_level, manufacturer_id, plot_conditional_id, unknown_bool, is_junk, attached_mods: mods };
        proof {
            let s = d@;
            assert(s.subrange(pos as int, cur as int) =~= s.subrange(pos as int, p1 as int) + s.subrange(p1 as int, p2 as int)
                + s.subrange(p2 as int, p3 as int) + s.subrange(p3 as int, p4 as int) + s.subrange(p4 as int, p5 as int)
                + s.subrange(p5 as int, p6 as int) + s.subrange(p6 as int, p7 as int) + s.subrange(p7 as int, cur as int));
        }
        Ok((t, cur))
    }

    /// Appends the fields in order; fails when the list of mods is too long for its count.
    pub fn encode(&self, out: &mut Vec<u8>) -> (r: Result<(), Error>)
        ensures
            r is Ok <==> item_fits(*self),
            r is Ok ==> final(out)@ == old(out)@ + enc_item(*self),
            r is Err ==> r == Err::<(), Error>(Error::ValueOutOfRange),
    {
        if self.attached_mods.len() > 0xffff_ffffusize {
            return Err(Error::ValueOutOfRange);
        }
        write_i32(out, self.item_id);
        out.push(self.item_level.code());
        write_i32(out, self.manufacturer_id);
        write_i32(out, self.plot_conditional_id);
        write_u32(out, if self.unknown_bool { 1u32 } else { 0u32 });
        write_u32(out, if self.is_junk { 1u32 } else { 0u32 });
        write_u32(out, self.attached_mods.len() as u32);
        let ghost start = out@;
        let mut i: usize = 0;
        assert(self.attached_mods@.subrange(0, 0) =~= Seq::<ItemMod>::empty());
        assert(out@ =~= start + enc_item_mods(self.attached_mods@.subrange(0, 0)));
        while i < self.attached_mods.len()
            invariant
                0 <= i <= self.attached_mods@.len(),
                out@ == start + enc_item_mods(self.attached_mods@.subrange(0, i as int)),
            decreases self.attached_mods@.len() - i,
        {
            self.attached_mods[i].encode(out);
            proof {
                assert(self.attached_mods@.subrange(0, i + 1).drop_last() =~= self.attached_mods@.subrange(0, i as int));
            }
            i += 1;
        }
        assert(self.attached_mods@.subrange(0, self.attached_mods@.len() as int) =~= self.attached_mods@);
        assert(final(out)@ =~= old(out)@ + enc_item(*self));
        Ok(())
    }
}

fn read_items(d: &Vec<u8>, pos: usize) -> (r: Result<(Vec<Item>, usize), Error>)
    ensures
        r is Ok <==> item_list_ok(d@, pos as int),
        r matches Ok((v, p)) ==> p == item_list_end(d@, pos as int) && pos <= p <= d@.len() && items_fit(v@) && enc_item_list(v@) == d@.subrange(pos as int, p as int),
        r matches Err(e) ==> e == Error::TruncatedInput || e == Error::InvalidValue,
{
    let (count, start) = read_u32(d, pos)?;
    proof {
        crate::codec::lemma_u32_bytes_of(d@.subrange(pos as int, pos + 4));
    }
    let mut v: Vec<Item> = Vec::new();
    let mut cur = start;
    let mut i: u32 = 0;
    assert(d@.subrange(start as int, start as int) =~= enc_items(v@));
    while i < count
        invariant
            start == pos + 4,
            count == count_at(d@, pos as int),
            items_ok(d@, start as int, count as nat) == items_ok(d@, cur as int, (count - i) as nat),
            items_end(d@, start as int, count as nat) == items_end(d@, cur as int, (count - i) as nat),
            start <= cur <= d@.len(),
            i <= count,
            v@.len() == i,
            forall|j: int| 0 <= j < v@.len() ==> item_fits(#[trigger] v@[j]),
            enc_items(v@) == d@.subrange(start as int, cur as int),
        decreases count - i,
    {
        let (x, next) = Item::decode(d, cur)?;
        proof {
            assert(v@.push(x).drop_last() =~= v@);
            assert(d@.subrange(start as int, cur as int) + d@.subrange(cur as int, next as int) =~= d@.subrange(start as int, next as int));
        }
        v.push(x);
        cur = next;
        i += 1;
    }
    assert(d@.subrange(pos as int, start as int) + d@.subrange(start as int, cur as int) =~= d@.subrange(pos as int, cur as int));
    Ok((v, cur))
}

fn write_items(out: &mut Vec<u8>, v: &Vec<Item>) -> (r: Result<(), Error>)
    ensures
        r is Ok <==> items_fit(v@),
        r is Ok ==> final(out)@ == old(out)@ + enc_item_list(v@),
        r is Err ==> r == Err::<(), Error>(Error::ValueOutOfRange),
{
    if v.len() > 0xffff_ffffusize {
        return Err(Error::ValueOutOfRange);
    }
    write_u32(out, v.len() as u32);
    let ghost start = out@;
    let mut i: usize = 0;
    assert(v@.subrange(0, 0) =~= Seq::<Item>::empty());
    assert(out@ =~= start + enc_items(v@.subrange(0, 0)));
    while i < v.len()
        invariant
            0 <= i <= v@.len(),
            v@.len() <= u32::MAX,
            forall|j: int| 0 <= j < i ==> item_fits(#[trigger] v@[j]),
            out@ == start + enc_items(v@.subrange(0, i as int)),
        decreases v@.len() - i,
    {
        match v[i].encode(out) {
            Ok(()) => {},
            Err(e) => {
                return Err(e);
            },
        }
        proof {
            assert(v@.subrange(0, i + 1).drop_last() =~= v@.subrange(0, i as int));
        }
        i += 1;
    }
    assert(v@.subrange(0, v@.len() as int) =~= v@);
    assert(final(out)@ =~= old(out)@ + enc_item_list(v@));
    Ok(())
}

proof fn lemma_join4(s: Seq<u8>, a: int, b: int, c: int, e: int, f: int)
    requires
        0 <= a <= b <= c <= e <= f <= s.len(),
    ensures
        s.subrange(a, f) == s.subrange(a, b) + s.subrange(b, c) + s.subrange(c, e) + s.subrange(e, f),
{
    assert(s.subrange(a, f) =~= s.subrange(a, b) + s.subrange(b, c) + s.subrange(c, e) + s.subrange(e, f));
}

/// The four item lists of a player.
#[derive(Clone, Debug, Default)]
pub struct Inventory {
    pub equipped: Vec<Item>,
    pub quick_slots: Vec<Item>,
    pub inventory: Vec<Item>,
    pub saved_backpack_items: Vec<Item>,
}

pub open spec fn enc_inventory(v: Inventory) -> Seq<u8> {
    enc_item_list(v.equipped@) + enc_item_list(v.quick_slots@) + enc_item_list(v.inventory@)
        + enc_item_list(v.saved_backpack_items@)
}

pub open spec fn inventory_fits(v: Inventory) -> bool {
    items_fit(v.equipped@) && items_fit(v.quick_slots@) && items_fit(v.inventory@) && items_fit(
        v.saved_backpack_items@,
    )
}

impl Inventory {
    /// Reads the four lists in order.
    pub fn decode(d: &Vec<u8>, pos: usize) -> (r: Result<(Inventory, usize), Error>)
        ensures
            r is Ok <==> {
                let e1 = item_list_end(d@, pos as int);
                let e2 = item_list_end(d@, e1);
                let e3 = item_list_end(d@, e2);
                item_list_ok(d@, pos as int) && item_list_ok(d@, e1) && item_list_ok(d@, e2) && item_list_ok(d@, e3)
            },
            r matches Ok((v, p)) ==> pos <= p <= d@.len() && inventory_fits(v) && enc_inventory(v) == d@.subrange(pos as int, p as int),
            r matches Err(e) ==> e == Error::TruncatedInput || e == Error::InvalidValue,
    {
        let (equipped, p1) = read_items(d, pos)?;
        let (quick_slots, p2) = read_items(d, p1)?;
        let (inventory, p3) = read_items(d, p2)?;
        let (saved_backpack_items, p4) = read_items(d, p3)?;
        let v = Inventory { equipped, quick_slots, inventory, saved_backpack_items };
        proof {
            let s = d@;
            lemma_join4(s, pos as int, p1 as int, p2 as int, p3 as int, p4 as int);
        }
        Ok((v, p4))
    }

    /// Appends the four lists in order; fails when a list is too long for its count.
    pub fn encode(&self, out: &mut Vec<u8>) -> (r: Result<(), Error>)
        ensures
            r is Ok <==> inventory_fits(*self),
            r is Ok ==> final(out)@ == old(out)@ + enc_inventory(*self),
            r is Err ==> r == Err::<(), Error>(Error::ValueOutOfRange),
    {
        write_items(out, &self.equipped)?;
        write_items(out, &self.quick_slots)?;
        write_items(out, &self.inventory)?;
        write_items(out, &self.saved_backpack_items)?;
        assert(final(out)@ =~= old(out)@ + enc_inventory(*self));
        Ok(())
    }
}

} // verus!
