use vstd::prelude::*;

use crate::codec::{
    enc_text, parse_text, parse_u32, read_span, read_text, read_u32, u32_bytes,
    write_bytes, write_text, write_u32, ImguiString,
};
use crate::error::Error;
use crate::property::{
    cat, enc_data, lemma_data_round_trip, parse_data, prepend, wrote, Data, DataV, NameTable,
};

verus! {

/// A record that carries its own name table: the table, a data block whose property
/// list indexes into it, then the bytes that follow, kept as they are.
#[derive(Debug)]
pub struct Package {
    pub names: NameTable,
    pub data: Data,
    pub trailing: Vec<u8>,
}

/// Model of `Package`.
pub struct PackageV {
    pub names: Seq<Seq<u8>>,
    pub data: DataV,
    pub trailing: Seq<u8>,
}

impl Package {
    pub open spec fn view(&self) -> PackageV {
        PackageV { names: self.names@, data: self.data@, trailing: self.trailing@ }
    }
}

/// `count` text fields, one after the other.
pub open spec fn parse_names(d: Seq<u8>, pos: int, count: nat) -> Result<(Seq<Seq<u8>>, int), Error>
    decreases count,
{
    if count == 0 {
        Ok((Seq::empty(), pos))
    } else {
        match parse_text(d, pos) {
            Err(e) => Err(e),
            Ok((t, p)) => prepend(seq![t], parse_names(d, p, (count - 1) as nat)),
        }
    }
}

/// A whole package: a `u32` count, that many names, a data block, then the rest.
pub open spec fn parse_package(d: Seq<u8>) -> Result<PackageV, Error> {
    match parse_u32(d, 0) {
        Err(e) => Err(e),
        Ok((count, p)) => match parse_names(d, p, count as nat) {
            Err(e) => Err(e),
            Ok((names, q)) => match parse_data(names, d, q) {
                Err(e) => Err(e),
                Ok((data, t)) => Ok(PackageV { names, data, trailing: d.subrange(t, d.len() as int) }),
            },
        },
    }
}

pub open spec fn enc_names(s: Seq<Seq<u8>>) -> Option<Seq<u8>>
    decreases s.len(),
{
    if s.len() == 0 {
        Some(Seq::empty())
    } else if s.last().len() <= u32::MAX {
        cat(enc_names(s.drop_last()), Some(enc_text(s.last())))
    } else {
        None
    }
}

pub open spec fn enc_package(v: PackageV) -> Option<Seq<u8>> {
    if v.names.len() <= u32::MAX {
        cat(cat(cat(Some(u32_bytes(v.names.len() as u32)), enc_names(v.names)), enc_data(v.data)), Some(v.trailing))
    } else {
        None
    }
}

proof fn lemma_enc_names_prepend(x: Seq<u8>, s: Seq<Seq<u8>>)
    requires
        x.len() <= u32::MAX,
    ensures
        enc_names(seq![x] + s) == cat(Some(enc_text(x)), enc_names(s)),
    decreases s.len(),
{
    let xs = seq![x] + s;
    if s.len() == 0 {
        assert(xs.drop_last() =~= Seq::<Seq<u8>>::empty());
        assert(Seq::<u8>::empty() + enc_text(x) =~= enc_text(x) + Seq::<u8>::empty());
    } else {
        assert(xs.drop_last() =~= seq![x] + s.drop_last());
        assert(xs.last() == s.last());
        lemma_enc_names_prepend(x, s.drop_last());
        if s.last().len() <= u32::MAX && enc_names(s.drop_last()) is Some {
            assert(enc_text(x) + enc_names(s.drop_last())->0 + enc_text(s.last()) =~= enc_text(x) + (
            enc_names(s.drop_last())->0 + enc_text(s.last())));
        }
    }
}

proof fn lemma_names_round_trip(d: Seq<u8>, pos: int, count: nat)
    requires
        0 <= pos <= d.len(),
    ensures
        parse_names(d, pos, count) matches Ok((s, p)) ==> pos <= p <= d.len() && s.len() == count
            && enc_names(s) == Some(d.subrange(pos, p)),
    decreases count,
{
    if count == 0 {
        assert(d.subrange(pos, pos) =~= Seq::<u8>::empty());
    } else if let Ok((t, p)) = parse_text(d, pos) {
        crate::codec::lemma_u32_bytes_of(d.subrange(pos, pos + 4));
        assert(enc_text(t) =~= d.subrange(pos, p));
        lemma_names_round_trip(d, p, (count - 1) as nat);
        if let Ok((rest, q)) = parse_names(d, p, (count - 1) as nat) {
            lemma_enc_names_prepend(t, rest);
            assert(d.subrange(pos, p) + d.subrange(p, q) =~= d.subrange(pos, q));
        }
    }
}

/// Decoding a package and encoding the result gives back the input, byte for byte.
pub proof fn lemma_package_round_trip(f: Seq<u8>)
    ensures
        parse_package(f) matches Ok(v) ==> enc_package(v) == Some(f),
{
    if let Ok((count, p)) = parse_u32(f, 0) {
        crate::codec::lemma_u32_bytes_of(f.subrange(0, 4));
        lemma_names_round_trip(f, p, count as nat);
        if let Ok((names, q)) = parse_names(f, p, count as nat) {
            lemma_data_round_trip(names, f, q);
            if let Ok((data, t)) = parse_data(names, f, q) {
                assert(f.subrange(0, p) + f.subrange(p, q) + f.subrange(q, t) + f.subrange(t, f.len() as int) =~= f);
            }
        }
    }
}

/// Decoding, encoding and decoding again gives the same value as the first decode.
pub proof fn lemma_package_redecode(f: Seq<u8>)
    ensures
        parse_package(f) matches Ok(v) ==> enc_package(v) matches Some(g) && parse_package(g) == Ok::<PackageV, Error>(v),
{
    lemma_package_round_trip(f);
}

fn decode_names(d: &Vec<u8>, start: usize, count: u32) -> (r: Result<(Vec<ImguiString>, usize), Error>)
    requires
        start <= d@.len(),
    ensures
        match (r, parse_names(d@, start as int, count as nat)) {
            (Ok((v, p)), Ok((s, q))) => p == q && v@.len() == s.len() && forall|i: int| 0 <= i < s.len() ==> #[trigger] v@[i]@ == s[i],
            (Err(e), Err(f)) => e == f,
            _ => false,
        },
{
    let mut names: Vec<ImguiString> = Vec::new();
    let mut cur = start;
    let mut i: u32 = 0;
    let ghost target = parse_names(d@, start as int, count as nat);
    assert(prepend(Seq::<Seq<u8>>::empty(), target) == target) by {
        if let Ok((s, p)) = target {
            assert(Seq::<Seq<u8>>::empty() + s =~= s);
        }
    }
    while i < count
        invariant
            target == parse_names(d@, start as int, count as nat),
            start <= cur <= d@.len(),
            i <= count,
            target == prepend(Seq::new(names@.len(), |j: int| names@[j]@), parse_names(d@, cur as int, (count - i) as nat)),
        decreases count - i,
    {
        let ghost before = Seq::new(names@.len(), |j: int| names@[j]@);
        let (bytes, next) = match read_text(d, cur) {
            Ok(v) => v,
            Err(e) => {
                return Err(e);
            },
        };
        let ghost t = bytes@;
        names.push(ImguiString { bytes });
        proof {
            assert(Seq::new(names@.len(), |j: int| names@[j]@) =~= before.push(t));
            if let Ok((s, p)) = parse_names(d@, next as int, (count - i - 1) as nat) {
                assert(before + (seq![t] + s) =~= before.push(t) + s);
            }
        }
        cur = next;
        i += 1;
    }
    proof {
        let v = Seq::new(names@.len(), |j: int| names@[j]@);
        assert(v + Seq::<Seq<u8>>::empty() =~= v);
    }
    Ok((names, cur))
}

fn encode_names(names: &Vec<ImguiString>, out: &mut Vec<u8>) -> (r: Result<(), Error>)
    ensures
        wrote(enc_names(Seq::new(names@.len(), |j: int| names@[j]@)), r, old(out)@, final(out)@),
{
    let ghost start = out@;
    let ghost all = Seq::new(names@.len(), |j: int| names@[j]@);
    let mut i: usize = 0;
    assert(all.subrange(0, 0) =~= Seq::<Seq<u8>>::empty());
    assert(out@.subrange(start.len() as int, out@.len() as int) =~= Seq::<u8>::empty());
    assert(out@.subrange(0, start.len() as int) =~= start);
    while i < names.len()
        invariant
            all == Seq::new(names@.len(), |j: int| names@[j]@),
            0 <= i <= names@.len(),
            enc_names(all.subrange(0, i as int)) == Some(out@.subrange(start.len() as int, out@.len() as int)),
            out@.len() >= start.len(),
            out@.subrange(0, start.len() as int) == start,
        decreases names@.len() - i,
    {
        let ghost before = out@;
        let ghost next = all.subrange(0, i + 1);
        proof {
            assert(next.drop_last() =~= all.subrange(0, i as int));
            assert(next.last() == names@[i as int]@);
        }
        match write_text(out, &names[i].bytes) {
            Ok(()) => {},
            Err(e) => {
                proof {
                    lemma_enc_names_none(all, i as int);
                }
                return Err(e);
            },
        }
        proof {
            assert(out@.subrange(start.len() as int, out@.len() as int) =~= before.subrange(start.len() as int, before.len() as int) + enc_text(names@[i as int]@));
            assert(out@.subrange(0, start.len() as int) =~= before.subrange(0, start.len() as int));
        }
        i += 1;
    }
    proof {
        assert(all.subrange(0, all.len() as int) =~= all);
        assert(final(out)@ =~= start + final(out)@.subrange(start.len() as int, final(out)@.len() as int));
    }
    Ok(())
}

proof fn lemma_enc_names_none(s: Seq<Seq<u8>>, i: int)
    requires
        0 <= i < s.len(),
        s[i].len() > u32::MAX,
    ensures
        enc_names(s) is None,
    decreases s.len(),
{
    if i < s.len() - 1 {
        lemma_enc_names_none(s.drop_last(), i);
    }
}

impl Package {
    /// Decodes a whole package from `d`.
    pub fn decode(d: &Vec<u8>) -> (r: Result<Package, Error>)
        ensures
            match (r, parse_package(d@)) {
                (Ok(v), Ok(w)) => v@ == w,
                (Err(e), Err(f)) => e == f,
                _ => false,
            },
    {
        let (count, p) = read_u32(d, 0)?;
        let (list, q) = decode_names(d, p, count)?;
        let names = NameTable { names: list };
        proof {
            assert(names@ =~= parse_names(d@, p as int, count as nat)->Ok_0.0);
        }
        let (data, t) = Data::visit_seq(&names, d, q)?;
        proof {
            crate::property::lemma_data_round_trip(names@, d@, q as int);
        }
        let (trailing, _) = read_span(d, t, d.len() - t)?;
        Ok(Package { names, data, trailing })
    }

    /// Encodes the package; fails when a length does not fit in its prefix.
    pub fn encode(&self) -> (r: Result<Vec<u8>, Error>)
        ensures
            match enc_package(self@) {
                Some(b) => r is Ok && r->Ok_0@ == b,
                None => r == Err::<Vec<u8>, Error>(Error::ValueOutOfRange),
            },
    {
        if self.names.names.len() > 0xffff_ffffusize {
            return Err(Error::ValueOutOfRange);
        }
        let mut out: Vec<u8> = Vec::new();
        write_u32(&mut out, self.names.names.len() as u32);
        let ghost a = out@;
        encode_names(&self.names.names, &mut out)?;
        let ghost b = out@;
        self.data.encode(&mut out)?;
        let ghost c = out@;
        write_bytes(&mut out, &self.trailing);
        proof {
            assert(self.names@ =~= Seq::new(self.names.names@.len(), |j: int| self.names.names@[j]@));
            assert(out@ =~= u32_bytes(self.names@.len() as u32) + enc_names(self.names@)->0 + enc_data(self.data@)->0 + self.trailing@);
        }
        Ok(out)
    }
}

} // verus!
