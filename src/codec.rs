use vstd::prelude::*;

use crate::error::Error;
use vstd::string::StringSliceAdditionalSpecFns;

verus! {

/// The four little-endian bytes of `v`.
pub open spec fn u32_bytes(v: u32) -> Seq<u8> {
    seq![(v & 0xff) as u8, ((v >> 8u32) & 0xff) as u8, ((v >> 16u32) & 0xff) as u8, ((v >> 24u32) & 0xff) as u8]
}

/// The value of four little-endian bytes.
pub open spec fn u32_of(b: Seq<u8>) -> u32 {
    (b[0] as u32) | ((b[1] as u32) << 8u32) | ((b[2] as u32) << 16u32) | ((b[3] as u32) << 24u32)
}

/// Writing back the value of four bytes gives the same four bytes.
pub proof fn lemma_u32_bytes_of(b: Seq<u8>)
    requires
        b.len() == 4,
    ensures
        u32_bytes(u32_of(b)) == b,
{
    let (b0, b1, b2, b3) = (b[0], b[1], b[2], b[3]);
    let v = u32_of(b);
    assert((((b0 as u32) | ((b1 as u32) << 8u32) | ((b2 as u32) << 16u32) | ((b3 as u32) << 24u32)) & 0xff) as u8 == b0) by (bit_vector);
    assert(((((b0 as u32) | ((b1 as u32) << 8u32) | ((b2 as u32) << 16u32) | ((b3 as u32) << 24u32)) >> 8u32) & 0xff) as u8 == b1) by (bit_vector);
    assert(((((b0 as u32) | ((b1 as u32) << 8u32) | ((b2 as u32) << 16u32) | ((b3 as u32) << 24u32)) >> 16u32) & 0xff) as u8 == b2) by (bit_vector);
    assert(((((b0 as u32) | ((b1 as u32) << 8u32) | ((b2 as u32) << 16u32) | ((b3 as u32) << 24u32)) >> 24u32) & 0xff) as u8 == b3) by (bit_vector);
    assert(u32_bytes(v) =~= b);
}

/// Four bytes per `u32`.
pub broadcast proof fn lemma_u32_bytes_len(v: u32)
    ensures
        #[trigger] u32_bytes(v).len() == 4,
{
}

/// Reading back the four bytes of a value gives the value.
pub proof fn lemma_u32_of_bytes(v: u32)
    ensures
        u32_of(u32_bytes(v)) == v,
{
    assert((((v & 0xff) as u8) as u32) | (((((v >> 8u32) & 0xff) as u8) as u32) << 8u32) | (((((v >> 16u32) & 0xff) as u8) as u32) << 16u32)
        | (((((v >> 24u32) & 0xff) as u8) as u32) << 24u32) == v) by (bit_vector);
}

/// Reading four bytes as `i32` and writing it back as `u32` keeps the bits.
pub proof fn lemma_i32_bits(x: u32)
    ensures
        (x as i32) as u32 == x,
{
    assert((x as i32) as u32 == x) by (bit_vector);
}

/// Whether the stored bytes spell the ASCII text `lit`, with or without one closing NUL byte.
pub open spec fn text_matches(raw: Seq<u8>, lit: Seq<char>) -> bool {
    (raw.len() == lit.len() || (raw.len() == lit.len() + 1 && raw[lit.len() as int] == 0u8))
        && forall|i: int| 0 <= i < lit.len() ==> raw[i] == lit[i] as u8
}

/// Whether the stored text `raw` is the ASCII name `lit`.
pub fn text_is(raw: &Vec<u8>, lit: &str) -> (r: bool)
    requires
        vstd::string::is_ascii(lit),
    ensures
        r == text_matches(raw@, lit@),
{
    broadcast use vstd::string::is_ascii_spec_bytes;

    let b = lit.as_bytes();
    let n = b.len();
    if !(raw.len() == n || (raw.len() > n && raw.len() - 1 == n && raw[n] == 0u8)) {
        return false;
    }
    let mut i: usize = 0;
    while i < n
        invariant
            b@ == lit.spec_bytes(),
            lit.spec_bytes() =~= Seq::new(lit@.len(), |j| lit@[j] as u8),
            n == b@.len(),
            raw@.len() >= n,
            0 <= i <= n,
            forall|j: int| 0 <= j < i ==> raw@[j] == lit@[j] as u8,
        decreases n - i,
    {
        if raw[i] != b[i] {
            return false;
        }
        i += 1;
    }
    true
}

/// A fixed-width read of `n` bytes at `pos`: the bytes and the position after them.
pub open spec fn parse_span(d: Seq<u8>, pos: int, n: int) -> Result<(Seq<u8>, int), Error> {
    if 0 <= pos && 0 <= n && pos + n <= d.len() {
        Ok((d.subrange(pos, pos + n), pos + n))
    } else {
        Err(Error::TruncatedInput)
    }
}

/// A little-endian `u32` at `pos`.
pub open spec fn parse_u32(d: Seq<u8>, pos: int) -> Result<(u32, int), Error> {
    match parse_span(d, pos, 4) {
        Ok((b, p)) => Ok((u32_of(b), p)),
        Err(e) => Err(e),
    }
}

/// A length-prefixed text field at `pos`: a `u32` byte count, then that many bytes.
pub open spec fn parse_text(d: Seq<u8>, pos: int) -> Result<(Seq<u8>, int), Error> {
    match parse_u32(d, pos) {
        Ok((n, p)) => parse_span(d, p, n as int),
        Err(e) => Err(e),
    }
}

/// The encoding of a text field.
pub open spec fn enc_text(s: Seq<u8>) -> Seq<u8> {
    u32_bytes(s.len() as u32) + s
}

/// Forgets the machine width of a position in a decode result.
pub open spec fn at<T>(r: Result<(T, usize), Error>) -> Result<(T, int), Error> {
    match r {
        Ok((v, p)) => Ok((v, p as int)),
        Err(e) => Err(e),
    }
}

/// Like `at`, with the bytes of a `Vec` seen as a sequence.
pub open spec fn bytes_at(r: Result<(Vec<u8>, usize), Error>) -> Result<(Seq<u8>, int), Error> {
    match r {
        Ok((v, p)) => Ok((v@, p as int)),
        Err(e) => Err(e),
    }
}

/// Reads `n` bytes of `d` at `pos`.
pub fn read_span(d: &Vec<u8>, pos: usize, n: usize) -> (r: Result<(Vec<u8>, usize), Error>)
    ensures
        bytes_at(r) == parse_span(d@, pos as int, n as int),
{
    if pos > d.len() || n > d.len() - pos {
        return Err(Error::TruncatedInput);
    }
    let mut out: Vec<u8> = Vec::with_capacity(n);
    let mut i: usize = 0;
    while i < n
        invariant
            pos + n <= d.len(),
            0 <= i <= n,
            out@ =~= d@.subrange(pos as int, pos + i),
        decreases n - i,
    {
        out.push(d[pos + i]);
        i += 1;
    }
    Ok((out, pos + n))
}

/// Reads a little-endian `u32` at `pos`.
pub fn read_u32(d: &Vec<u8>, pos: usize) -> (r: Result<(u32, usize), Error>)
    ensures
        at(r) == parse_u32(d@, pos as int),
{
    if pos > d.len() || 4 > d.len() - pos {
        return Err(Error::TruncatedInput);
    }
    let v = (d[pos] as u32) | ((d[pos + 1] as u32) << 8u32) | ((d[pos + 2] as u32) << 16u32)
        | ((d[pos + 3] as u32) << 24u32);
    proof {
        let b = d@.subrange(pos as int, pos + 4);
        assert(b[0] == d@[pos as int] && b[1] == d@[pos + 1] && b[2] == d@[pos + 2] && b[3] == d@[pos + 3]);
    }
    Ok((v, pos + 4))
}

/// Reads a length-prefixed text field at `pos`.
pub fn read_text(d: &Vec<u8>, pos: usize) -> (r: Result<(Vec<u8>, usize), Error>)
    ensures
        bytes_at(r) == parse_text(d@, pos as int),
{
    let (n, p) = read_u32(d, pos)?;
    read_span(d, p, n as usize)
}

/// Appends the four little-endian bytes of `v`.
pub fn write_u32(out: &mut Vec<u8>, v: u32)
    ensures
        final(out)@ == old(out)@ + u32_bytes(v),
{
    out.push((v & 0xff) as u8);
    out.push(((v >> 8u32) & 0xff) as u8);
    out.push(((v >> 16u32) & 0xff) as u8);
    out.push(((v >> 24u32) & 0xff) as u8);
    assert(final(out)@ =~= old(out)@ + u32_bytes(v));
}

/// Appends `b` unchanged.
pub fn write_bytes(out: &mut Vec<u8>, b: &Vec<u8>)
    ensures
        final(out)@ == old(out)@ + b@,
{
    let ghost start = out@;
    let mut i: usize = 0;
    while i < b.len()
        invariant
            0 <= i <= b@.len(),
            out@ =~= start + b@.subrange(0, i as int),
        decreases b@.len() - i,
    {
        out.push(b[i]);
        i += 1;
    }
    assert(b@.subrange(0, b@.len() as int) =~= b@);
}

/// Appends a length-prefixed text field; fails when its length does not fit in the prefix.
pub fn write_text(out: &mut Vec<u8>, s: &Vec<u8>) -> (r: Result<(), Error>)
    ensures
        r is Ok <==> s@.len() <= u32::MAX,
        r is Ok ==> final(out)@ == old(out)@ + enc_text(s@),
        r is Err ==> r == Err::<(), Error>(Error::ValueOutOfRange) && final(out)@ == old(out)@,
{
    if s.len() > 0xffff_ffffusize {
        return Err(Error::ValueOutOfRange);
    }
    write_u32(out, s.len() as u32);
    write_bytes(out, s);
    assert(final(out)@ =~= old(out)@ + enc_text(s@));
    Ok(())
}

/// A byte span of fixed length whose content is kept as it was read.
#[derive(Debug)]
pub struct Dummy<const LEN: usize> {
    bytes: Vec<u8>,
}

impl<const LEN: usize> Dummy<LEN> {
    pub closed spec fn view(&self) -> Seq<u8> {
        self.bytes@
    }

    /// The span always holds `LEN` bytes.
    #[verifier::type_invariant]
    pub closed spec fn inv(&self) -> bool {
        self.bytes@.len() == LEN
    }

    /// What the invariant says of the view.
    pub broadcast proof fn lemma_len(&self)
        requires
            self.inv(),
        ensures
            #[trigger] self@.len() == LEN,
    {
    }

    /// Reads `LEN` bytes at `pos`.
    pub fn decode(d: &Vec<u8>, pos: usize) -> (r: Result<(Dummy<LEN>, usize), Error>)
        ensures
            match (r, parse_span(d@, pos as int, LEN as int)) {
                (Ok((v, p)), Ok((b, q))) => v@ == b && p == q && v@.len() == LEN,
                (Err(e), Err(f)) => e == f,
                _ => false,
            },
    {
        let (bytes, p) = read_span(d, pos, LEN)?;
        Ok((Dummy { bytes }, p))
    }

    /// Appends the span unchanged: `LEN` bytes.
    pub fn encode(&self, out: &mut Vec<u8>)
        ensures
            self@.len() == LEN,
            final(out)@ == old(out)@ + self@,
    {
        proof {
            use_type_invariant(self);
        }
        write_bytes(out, &self.bytes);
    }

    /// The span's bytes.
    pub fn as_bytes(&self) -> (r: &Vec<u8>)
        ensures
            r@ == self@,
            r@.len() == LEN,
    {
        proof {
            use_type_invariant(self);
        }
        &self.bytes
    }
}

impl<const LEN: usize> Clone for Dummy<LEN> {
    fn clone(&self) -> (r: Self)
        ensures
            r@ == self@,
    {
        proof {
            use_type_invariant(self);
        }
        let (bytes, _) = match read_span(&self.bytes, 0, LEN) {
            Ok(v) => v,
            Err(_) => (Vec::new(), 0),
        };
        assert(self.bytes@.subrange(0, LEN as int) =~= self.bytes@);
        Dummy { bytes }
    }
}

impl<const LEN: usize> Default for Dummy<LEN> {
    fn default() -> (r: Self)
        ensures
            r@ == Seq::new(LEN as nat, |i: int| 0u8),
    {
        let mut bytes: Vec<u8> = Vec::with_capacity(LEN);
        let mut i: usize = 0;
        while i < LEN
            invariant
                0 <= i <= LEN,
                bytes@ =~= Seq::new(i as nat, |j: int| 0u8),
            decreases LEN - i,
        {
            bytes.push(0u8);
            i += 1;
        }
        Dummy { bytes }
    }
}

/// A length-prefixed text value, held as the bytes that the file stores.
#[derive(Clone, Debug, Default, PartialEq, Eq, Hash)]
pub struct ImguiString {
    pub bytes: Vec<u8>,
}

impl ImguiString {
    pub open spec fn view(&self) -> Seq<u8> {
        self.bytes@
    }
}

/// A byte buffer with a read offset that never passes its end.
#[derive(Debug)]
pub struct SaveCursor {
    data: Vec<u8>,
    pos: usize,
}

impl SaveCursor {
    pub closed spec fn bytes(&self) -> Seq<u8> {
        self.data@
    }

    pub closed spec fn offset(&self) -> int {
        self.pos as int
    }

    pub closed spec fn wf(&self) -> bool {
        self.pos <= self.data@.len()
    }

    /// A cursor at the start of `data`.
    pub fn new(data: Vec<u8>) -> (r: SaveCursor)
        ensures
            r.wf(),
            r.bytes() == data@,
            r.offset() == 0,
    {
        SaveCursor { data, pos: 0 }
    }

    /// The current offset.
    pub fn position(&self) -> (r: usize)
        ensures
            r == self.offset(),
    {
        self.pos
    }

    /// Reads exactly `n` bytes; fails, without moving, when fewer remain.
    pub fn read(&mut self, n: usize) -> (r: Result<Vec<u8>, Error>)
        requires
            old(self).wf(),
        ensures
            final(self).wf(),
            final(self).bytes() == old(self).bytes(),
            old(self).offset() + n <= old(self).bytes().len() ==> r is Ok && r->Ok_0@ == old(self).bytes().subrange(
                old(self).offset(),
                old(self).offset() + n,
            ) && final(self).offset() == old(self).offset() + n,
            old(self).offset() + n > old(self).bytes().len() ==> r == Err::<Vec<u8>, Error>(Error::TruncatedInput)
                && final(self).offset() == old(self).offset(),
    {
        let (bytes, p) = read_span(&self.data, self.pos, n)?;
        self.pos = p;
        Ok(bytes)
    }

    /// Reads everything that remains and leaves the offset at the end.
    pub fn read_to_end(&mut self) -> (r: Vec<u8>)
        requires
            old(self).wf(),
        ensures
            final(self).wf(),
            final(self).bytes() == old(self).bytes(),
            r@ == old(self).bytes().subrange(old(self).offset(), old(self).bytes().len() as int),
            final(self).offset() == final(self).bytes().len(),
    {
        let n = self.data.len() - self.pos;
        match read_span(&self.data, self.pos, n) {
            Ok((bytes, p)) => {
                self.pos = p;
                bytes
            },
            Err(_) => Vec::new(),
        }
    }
}

} // verus!
