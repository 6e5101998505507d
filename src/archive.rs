use vstd::prelude::*;

use std::io::{Cursor, Write};
use zip::result::ZipError;
use zip::ZipWriter;

use crate::codec::{parse_span, parse_u32, read_span, read_u32, u32_bytes, write_bytes, write_u32, Dummy};
use crate::error::Error;
use crate::package::{enc_package, parse_package, Package, PackageV};

verus! {

#[verifier::external_type_specification]
#[verifier::external_body]
pub struct ExZipError(zip::result::ZipError);

/// A deflating archive writer over an in-memory buffer. Verus refuses a declaration of
/// `zip::ZipWriter` (its `Write + Seek` bounds), so the writer is held here.
#[verifier::external_body]
pub struct ArchiveWriter {
    inner: ZipWriter<Cursor<Vec<u8>>>,
}

/// The entries that a writer holds so far, in the order they were added: name and content.
pub uninterp spec fn entries_of(w: ArchiveWriter) -> Seq<(Seq<char>, Seq<u8>)>;

/// Whether a writer can still take entries and be finished.
pub uninterp spec fn writer_open(w: ArchiveWriter) -> bool;

/// The bytes of the archive that a writer produces from these entries.
pub uninterp spec fn deflated_archive(entries: Seq<(Seq<char>, Seq<u8>)>) -> Seq<u8>;

/// Whether the archive opens and the entry named `name` is absent or can be read whole.
pub uninterp spec fn entry_readable(archive: Seq<u8>, name: Seq<char>) -> bool;

/// The content of the entry named `name` in `archive`, or none where there is no such entry.
pub uninterp spec fn archive_entry(archive: Seq<u8>, name: Seq<char>) -> Option<Seq<u8>>;

/// The largest entry that the writer takes without switching to large-file records: its
/// deflated size then stays under the 32-bit size fields as well.
pub const ENTRY_LIMIT: usize = 0x4000_0000;

pub open spec fn opt_bytes(e: Option<Vec<u8>>) -> Option<Seq<u8>> {
    match e {
        Some(v) => Some(v@),
        None => None,
    }
}

/// The content of the last entry named `n`.
pub open spec fn lookup(es: Seq<(Seq<char>, Seq<u8>)>, n: Seq<char>) -> Option<Seq<u8>>
    decreases es.len(),
{
    if es.len() == 0 {
        None
    } else if es.last().0 == n {
        Some(es.last().1)
    } else {
        lookup(es.drop_last(), n)
    }
}

/// No two entries share a name.
pub open spec fn distinct_names(es: Seq<(Seq<char>, Seq<u8>)>) -> bool {
    forall|i: int, j: int| 0 <= i < j < es.len() ==> es[i].0 != es[j].0
}

/// Every name is short enough for the 16-bit name length of a zip header.
pub open spec fn short_names(es: Seq<(Seq<char>, Seq<u8>)>) -> bool {
    forall|i: int| 0 <= i < es.len() ==> #[trigger] es[i].0.len() <= 255
}

/// Relies on zip::ZipWriter::new: a writer over an empty buffer holds no entry yet.
#[verifier::external_body]
fn new_writer() -> (w: ArchiveWriter)
    ensures
        entries_of(w) == Seq::<(Seq<char>, Seq<u8>)>::empty(),
        writer_open(w),
{
    ArchiveWriter { inner: ZipWriter::new(Cursor::new(Vec::new())) }
}

/// Relies on zip::ZipWriter::start_file and its std::io::Write impl: on success the writer
/// holds one more deflated entry, with this name and content. Writing into memory fails
/// only on an entry whose raw or deflated size passes the 32-bit limit.
#[verifier::external_body]
fn add_entry(w: &mut ArchiveWriter, name: &str, data: &Vec<u8>) -> (r: Result<(), ZipError>)
    ensures
        r is Ok ==> entries_of(*final(w)) == entries_of(*old(w)).push((name@, data@)),
        writer_open(*old(w)) && data@.len() <= ENTRY_LIMIT ==> r is Ok && writer_open(*final(w)),
{
    let options = zip::write::FileOptions::default().compression_method(zip::CompressionMethod::Deflated);
    w.inner.start_file(name, options)?;
    w.inner.write_all(data).map_err(ZipError::from)
}

/// Relies on zip::ZipWriter::finish: the archive bytes, which depend on the entries written;
/// reading the archive back by name gives each entry's content, and none for other names.
#[verifier::external_body]
fn finish(w: &mut ArchiveWriter) -> (r: Result<Vec<u8>, ZipError>)
    ensures
        writer_open(*old(w)) ==> r is Ok,
        r matches Ok(b) ==> b@ == deflated_archive(entries_of(*old(w))),
        r matches Ok(b) ==> distinct_names(entries_of(*old(w))) && short_names(entries_of(*old(w))) ==> forall|n: Seq<char>|
            #![trigger entry_readable(b@, n)]
            #![trigger archive_entry(b@, n)]
            entry_readable(b@, n) && archive_entry(b@, n) == lookup(entries_of(*old(w)), n),
{
    w.inner.finish().map(|c| c.into_inner())
}

/// Relies on zip::ZipArchive::new and zip::ZipArchive::by_name_decrypt, with no password:
/// the content of the named entry, or none where the archive has no entry of that name.
/// An entry that asks for a password is an error.
#[verifier::external_body]
fn read_entry(archive: &Vec<u8>, name: &str) -> (r: Result<Option<Vec<u8>>, ZipError>)
    ensures
        r is Ok <==> entry_readable(archive@, name@),
        r matches Ok(e) ==> opt_bytes(e) == archive_entry(archive@, name@),
{
    let mut zip = zip::ZipArchive::new(Cursor::new(archive.as_slice()))?;
    let mut file = match zip.by_name_decrypt(name, &[]) {
        Ok(Ok(f)) => f,
        Ok(Err(_)) => return Err(ZipError::UnsupportedArchive(ZipError::PASSWORD_REQUIRED)),
        Err(ZipError::FileNotFound) => return Ok(None),
        Err(e) => return Err(e),
    };
    let mut bytes = Vec::new();
    std::io::Read::read_to_end(&mut file, &mut bytes)?;
    Ok(Some(bytes))
}

/// The leading region of a save file and the archive that follows it.
pub struct ContainerV {
    pub begin: Seq<u8>,
    pub zip_offset: u32,
    pub no_mans_land: Seq<u8>,
    pub archive: Seq<u8>,
}

/// An 8-byte span, the archive's offset, the bytes up to that offset, then the archive.
pub open spec fn parse_container(d: Seq<u8>) -> Result<ContainerV, Error> {
    match parse_span(d, 0, 8) {
        Err(e) => Err(e),
        Ok((begin, p)) => match parse_u32(d, p) {
            Err(e) => Err(e),
            Ok((zip_offset, q)) => if zip_offset < 12 {
                Err(Error::TruncatedInput)
            } else {
                match parse_span(d, q, zip_offset - 12) {
                    Err(e) => Err(e),
                    Ok((no_mans_land, t)) => Ok(ContainerV {
                        begin,
                        zip_offset,
                        no_mans_land,
                        archive: d.subrange(t, d.len() as int),
                    }),
                }
            },
        },
    }
}

/// The names of the archive's entries.
pub open spec fn player_entry() -> Seq<char> {
    "player.sav"@
}

pub open spec fn state_entry() -> Seq<char> {
    "state.sav"@
}

pub open spec fn world_entry() -> Seq<char> {
    "WorldSavePackage.sav"@
}

/// A save file: a leading region kept as it was read, then an archive that holds the
/// player package, the state record and, where the file had one, the world package.
#[derive(Debug)]
pub struct Me1SaveGame {
    pub begin: Dummy<8>,
    pub zip_offset: u32,
    pub no_mans_land: Vec<u8>,
    pub player: Package,
    pub state: Vec<u8>,
    pub world_save_package: Option<Vec<u8>>,
}

/// Model of `Me1SaveGame`.
pub struct SaveV {
    pub begin: Seq<u8>,
    pub zip_offset: u32,
    pub no_mans_land: Seq<u8>,
    pub player: PackageV,
    pub state: Seq<u8>,
    pub world: Option<Seq<u8>>,
}

impl Me1SaveGame {
    pub open spec fn view(&self) -> SaveV {
        SaveV {
            begin: self.begin@,
            zip_offset: self.zip_offset,
            no_mans_land: self.no_mans_land@,
            player: self.player@,
            state: self.state@,
            world: opt_bytes(self.world_save_package),
        }
    }
}

pub open spec fn save_at(r: Result<Me1SaveGame, Error>) -> Result<SaveV, Error> {
    match r {
        Ok(g) => Ok(g@),
        Err(e) => Err(e),
    }
}

/// A save from its leading region and the contents of its archive entries: the player
/// and state entries are required, the world entry is optional.
pub open spec fn assemble(
    begin: Seq<u8>,
    zip_offset: u32,
    no_mans_land: Seq<u8>,
    player: Option<Seq<u8>>,
    state: Option<Seq<u8>>,
    world: Option<Seq<u8>>,
) -> Result<SaveV, Error> {
    match player {
        None => Err(Error::MissingRequiredArchiveEntry),
        Some(p) => match parse_package(p) {
            Err(e) => Err(e),
            Ok(pv) => match state {
                None => Err(Error::MissingRequiredArchiveEntry),
                Some(s) => Ok(SaveV { begin, zip_offset, no_mans_land, player: pv, state: s, world }),
            },
        },
    }
}

/// A whole save file: the leading region, then the three entries read by name. An archive
/// that does not open, or an entry that cannot be read, is a container error.
pub open spec fn parse_save(d: Seq<u8>) -> Result<SaveV, Error> {
    match parse_container(d) {
        Err(e) => Err(e),
        Ok(c) => if entry_readable(c.archive, player_entry()) && entry_readable(c.archive, state_entry())
            && entry_readable(c.archive, world_entry()) {
            assemble(
                c.begin,
                c.zip_offset,
                c.no_mans_land,
                archive_entry(c.archive, player_entry()),
                archive_entry(c.archive, state_entry()),
                archive_entry(c.archive, world_entry()),
            )
        } else {
            Err(Error::ContainerFormatError)
        },
    }
}

/// What the archive of a save holds, in order.
pub open spec fn save_entries(player: Seq<u8>, state: Seq<u8>, world: Option<Seq<u8>>) -> Seq<(Seq<char>, Seq<u8>)> {
    match world {
        Some(w) => seq![(player_entry(), player), (state_entry(), state), (world_entry(), w)],
        None => seq![(player_entry(), player), (state_entry(), state)],
    }
}

/// Every entry of a save fits the writer.
pub open spec fn entries_fit(player: Seq<u8>, state: Seq<u8>, world: Option<Seq<u8>>) -> bool {
    player.len() <= ENTRY_LIMIT && state.len() <= ENTRY_LIMIT && (world matches Some(w) ==> w.len()
        <= ENTRY_LIMIT)
}

/// The bytes of a save whose player package encodes to `player`.
pub open spec fn enc_save(g: SaveV, player: Seq<u8>) -> Seq<u8> {
    g.begin + u32_bytes(g.zip_offset) + g.no_mans_land + deflated_archive(save_entries(player, g.state, g.world))
}

/// A save that decoding can have produced: its leading region runs up to the archive
/// offset, and its player package decodes back from its own encoding.
pub open spec fn reencodable(g: SaveV) -> bool {
    &&& g.begin.len() == 8
    &&& g.no_mans_land.len() + 12 == g.zip_offset
    &&& enc_package(g.player) matches Some(p) && parse_package(p) == Ok::<PackageV, Error>(g.player)
}

/// Splits a save file into its leading region and its archive.
pub fn split_container(d: &Vec<u8>) -> (r: Result<(Dummy<8>, u32, Vec<u8>, Vec<u8>), Error>)
    ensures
        match (r, parse_container(d@)) {
            (Ok((b, o, n, a)), Ok(c)) => b@ == c.begin && o == c.zip_offset && n@ == c.no_mans_land && a@ == c.archive,
            (Err(e), Err(f)) => e == f,
            _ => false,
        },
{
    let (begin, p) = Dummy::<8>::decode(d, 0)?;
    let (zip_offset, q) = read_u32(d, p)?;
    if zip_offset < 12 {
        return Err(Error::TruncatedInput);
    }
    let (no_mans_land, t) = read_span(d, q, (zip_offset - 12) as usize)?;
    let (archive, _) = read_span(d, t, d.len() - t)?;
    Ok((begin, zip_offset, no_mans_land, archive))
}

/// Every save that decoding gives can be encoded and decoded back to itself.
pub proof fn lemma_decoded_save_reencodable(d: Seq<u8>)
    ensures
        parse_save(d) matches Ok(g) ==> reencodable(g),
{
    if let Ok(c) = parse_container(d) {
        if let Some(p) = archive_entry(c.archive, player_entry()) {
            crate::package::lemma_package_round_trip(p);
        }
    }
}

impl Me1SaveGame {
    /// Builds a save from its leading region and the contents of its archive entries:
    /// the player and state entries are required, the world entry is optional.
    pub fn from_entries(
        begin: Dummy<8>,
        zip_offset: u32,
        no_mans_land: Vec<u8>,
        player: Option<Vec<u8>>,
        state: Option<Vec<u8>>,
        world: Option<Vec<u8>>,
    ) -> (r: Result<Me1SaveGame, Error>)
        ensures
            save_at(r) == assemble(begin@, zip_offset, no_mans_land@, opt_bytes(player), opt_bytes(state), opt_bytes(world)),
    {
        let player = match player {
            Some(p) => Package::decode(&p)?,
            None => return Err(Error::MissingRequiredArchiveEntry),
        };
        let state = match state {
            Some(s) => s,
            None => return Err(Error::MissingRequiredArchiveEntry),
        };
        Ok(Me1SaveGame { begin, zip_offset, no_mans_land, player, state, world_save_package: world })
    }

    /// Decodes a save file.
    pub fn decode(d: &Vec<u8>) -> (r: Result<Me1SaveGame, Error>)
        ensures
            save_at(r) == parse_save(d@),
    {
        let (begin, zip_offset, no_mans_land, archive) = split_container(d)?;
        proof {
            reveal_strlit("player.sav");
            reveal_strlit("state.sav");
            reveal_strlit("WorldSavePackage.sav");
        }
        let player = match read_entry(&archive, "player.sav") {
            Ok(e) => e,
            Err(_) => return Err(Error::ContainerFormatError),
        };
        let state = match read_entry(&archive, "state.sav") {
            Ok(e) => e,
            Err(_) => return Err(Error::ContainerFormatError),
        };
        let world = match read_entry(&archive, "WorldSavePackage.sav") {
            Ok(e) => e,
            Err(_) => return Err(Error::ContainerFormatError),
        };
        Me1SaveGame::from_entries(begin, zip_offset, no_mans_land, player, state, world)
    }

    /// Encodes the save: the leading region as it was read, then a new archive of the
    /// player package, the state record and, where present, the world package. Fails with
    /// `ValueOutOfRange` exactly when the player package cannot be encoded or an entry
    /// is larger than the writer takes.
    pub fn encode(&self) -> (r: Result<Vec<u8>, Error>)
        ensures
            enc_package(self.player@) is None ==> r == Err::<Vec<u8>, Error>(Error::ValueOutOfRange),
            enc_package(self.player@) matches Some(p) ==> if entries_fit(p, self.state@, self@.world) {
                r is Ok && r->Ok_0@ == enc_save(self@, p)
            } else {
                r == Err::<Vec<u8>, Error>(Error::ValueOutOfRange)
            },
            r matches Ok(b) ==> reencodable(self@) ==> parse_save(b@) == Ok::<SaveV, Error>(self@),
    {
        let player = self.player.encode()?;
        if player.len() > ENTRY_LIMIT || self.state.len() > ENTRY_LIMIT {
            return Err(Error::ValueOutOfRange);
        }
        match &self.world_save_package {
            Some(world) => {
                if world.len() > ENTRY_LIMIT {
                    return Err(Error::ValueOutOfRange);
                }
            },
            None => {},
        }
        proof {
            reveal_strlit("player.sav");
            reveal_strlit("state.sav");
            reveal_strlit("WorldSavePackage.sav");
        }
        let mut w = new_writer();
        if add_entry(&mut w, "player.sav", &player).is_err() {
            return Err(Error::ContainerFormatError);
        }
        if add_entry(&mut w, "state.sav", &self.state).is_err() {
            return Err(Error::ContainerFormatError);
        }
        match &self.world_save_package {
            Some(world) => {
                if add_entry(&mut w, "WorldSavePackage.sav", world).is_err() {
                    return Err(Error::ContainerFormatError);
                }
            },
            None => {},
        }
        let ghost entries = entries_of(w);
        let archive = match finish(&mut w) {
            Ok(a) => a,
            Err(_) => return Err(Error::ContainerFormatError),
        };
        let ghost es = save_entries(player@, self.state@, self@.world);
        proof {
            assert(entries =~= es);
            assert(player_entry() != state_entry() && player_entry() != world_entry() && state_entry() != world_entry()) by {
                assert(player_entry().len() != state_entry().len());
                assert(player_entry().len() != world_entry().len());
                assert(state_entry().len() != world_entry().len());
            }
            assert(distinct_names(es));
            assert(short_names(es));
        }
        let mut out: Vec<u8> = Vec::new();
        self.begin.encode(&mut out);
        write_u32(&mut out, self.zip_offset);
        write_bytes(&mut out, &self.no_mans_land);
        write_bytes(&mut out, &archive);
        assert(out@ =~= self.begin@ + u32_bytes(self.zip_offset) + self.no_mans_land@ + archive@);
        proof {
            if reencodable(self@) {
                let d = out@;
                let lead = self.begin@ + u32_bytes(self.zip_offset);
                assert(d.subrange(0, 8) =~= self.begin@);
                assert(d.subrange(8, 12) =~= u32_bytes(self.zip_offset));
                crate::codec::lemma_u32_of_bytes(self.zip_offset);
                assert(d.subrange(12, 12 + self.no_mans_land@.len() as int) =~= self.no_mans_land@);
                assert(d.subrange(12 + self.no_mans_land@.len() as int, d.len() as int) =~= archive@);
                reveal_with_fuel(lookup, 4);
                if let Some(wv) = self@.world {
                    assert(es.drop_last() =~= seq![(player_entry(), player@), (state_entry(), self.state@)]);
                    assert(es.drop_last().drop_last() =~= seq![(player_entry(), player@)]);
                    assert(es.drop_last().drop_last().drop_last() =~= Seq::<(Seq<char>, Seq<u8>)>::empty());
                } else {
                    assert(es.drop_last() =~= seq![(player_entry(), player@)]);
                    assert(es.drop_last().drop_last() =~= Seq::<(Seq<char>, Seq<u8>)>::empty());
                }
                assert(lookup(es, player_entry()) == Some(player@));
                assert(lookup(es, state_entry()) == Some(self.state@));
                assert(lookup(es, world_entry()) == self@.world);
                assert(entry_readable(archive@, player_entry()));
                assert(entry_readable(archive@, state_entry()));
                assert(entry_readable(archive@, world_entry()));
                assert(archive_entry(archive@, player_entry()) == Some(player@));
                assert(archive_entry(archive@, state_entry()) == Some(self.state@));
                assert(archive_entry(archive@, world_entry()) == self@.world);
            }
        }
        Ok(out)
    }
}

} // verus!
