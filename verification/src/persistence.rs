//! How the catalog is kept on disk.
//!
//! A JSON file holds a checksum beside the entries; a binary file starts with the
//! checksum of what follows it.

use vstd::prelude::*;
use vstd::string::*;
use crate::catalog;
use crate::digest;
use crate::digest::{checksum_string, crc32c};
use crate::string_map;

verus! {

/// Strategy for persisting the placement catalog.
#[derive(Debug)]
pub enum CatalogPersistence {
    /// The catalog lives only in memory.
    Memory,
    /// Human-readable JSON file, with an embedded checksum.
    Json { path: String },
    /// Compact binary file: `[CRC-32C: u32 LE] [payload]`.
    Bincode { path: String },
}

/// What a persistence strategy says.
pub enum Persistence {
    Memory,
    Json(Seq<char>),
    Bincode(Seq<char>),
}

impl View for CatalogPersistence {
    type V = Persistence;

    open spec fn view(&self) -> Persistence {
        match *self {
            CatalogPersistence::Memory => Persistence::Memory,
            CatalogPersistence::Json { path } => Persistence::Json(path@),
            CatalogPersistence::Bincode { path } => Persistence::Bincode(path@),
        }
    }
}

impl Default for CatalogPersistence {
    fn default() -> (p: Self)
        ensures
            p@ == Persistence::Memory,
    {
        CatalogPersistence::Memory
    }
}

impl Clone for CatalogPersistence {
    fn clone(&self) -> (r: Self)
        ensures
            r@ == self@,
    {
        match self {
            CatalogPersistence::Memory => CatalogPersistence::Memory,
            CatalogPersistence::Json { path } => CatalogPersistence::Json { path: path.clone() },
            CatalogPersistence::Bincode { path } => CatalogPersistence::Bincode {
                path: path.clone(),
            },
        }
    }
}

/// What to do with the file of a catalog.
#[derive(Clone, Copy, Debug, PartialEq, Eq, Structural)]
pub enum CatalogFormat {
    /// No file: an empty catalog when loading, nothing when saving.
    Nothing,
    /// A JSON envelope.
    Json,
    /// A binary frame.
    Bincode,
}

impl CatalogPersistence {
    /// JSON persistence in a file.
    pub fn json(path: &str) -> (p: Self)
        ensures
            p@ == Persistence::Json(path@),
    {
        CatalogPersistence::Json { path: path.to_owned() }
    }

    /// Binary persistence in a file.
    pub fn bincode(path: &str) -> (p: Self)
        ensures
            p@ == Persistence::Bincode(path@),
    {
        CatalogPersistence::Bincode { path: path.to_owned() }
    }

    /// The file, if there is one.
    pub fn path(&self) -> (r: Option<&str>)
        ensures
            match r {
                Some(p) => self@ == Persistence::Json(p@) || self@ == Persistence::Bincode(p@),
                None => self@ == Persistence::Memory,
            },
    {
        match self {
            CatalogPersistence::Memory => None,
            CatalogPersistence::Json { path } => Some(path.as_str()),
            CatalogPersistence::Bincode { path } => Some(path.as_str()),
        }
    }

    /// Whether persistence is disabled.
    pub fn is_none(&self) -> (r: bool)
        ensures
            r == (self@ == Persistence::Memory),
    {
        match self {
            CatalogPersistence::Memory => true,
            _ => false,
        }
    }

    /// The format to save in.
    pub fn save_format(&self) -> (f: CatalogFormat)
        ensures
            f == (match self@ {
                Persistence::Memory => CatalogFormat::Nothing,
                Persistence::Json(_) => CatalogFormat::Json,
                Persistence::Bincode(_) => CatalogFormat::Bincode,
            }),
    {
        match self {
            CatalogPersistence::Memory => CatalogFormat::Nothing,
            CatalogPersistence::Json { .. } => CatalogFormat::Json,
            CatalogPersistence::Bincode { .. } => CatalogFormat::Bincode,
        }
    }

    /// The format to load from: nothing is loaded where there is no file.
    pub fn load_format(&self, file_exists: bool) -> (f: CatalogFormat)
        ensures
            f == (match self@ {
                Persistence::Memory => CatalogFormat::Nothing,
                Persistence::Json(_) => if file_exists {
                    CatalogFormat::Json
                } else {
                    CatalogFormat::Nothing
                },
                Persistence::Bincode(_) => if file_exists {
                    CatalogFormat::Bincode
                } else {
                    CatalogFormat::Nothing
                },
            }),
    {
        if file_exists {
            self.save_format()
        } else {
            CatalogFormat::Nothing
        }
    }
}

/// The four bytes of a checksum, low byte first.
pub open spec fn le32(n: u32) -> Seq<u8> {
    seq![
        (n % 256) as u8,
        (n / 256 % 256) as u8,
        (n / 65536 % 256) as u8,
        (n / 16777216) as u8,
    ]
}

/// The checksum at the start of a binary file.
pub open spec fn stored_checksum(file: Seq<u8>) -> u32 {
    (file[0] as nat + 256 * (file[1] as nat) + 65536 * (file[2] as nat) + 16777216 * (
    file[3] as nat)) as u32
}

/// A binary file: the checksum of a payload, then the payload.
pub open spec fn frame(payload: Seq<u8>) -> Seq<u8> {
    le32(digest::crc32c_of(payload)) + payload
}

/// The message about a checksum that does not match.
pub open spec fn mismatch_message(expected: u32, actual: u32) -> Seq<char> {
    "catalog checksum mismatch: expected "@ + digest::checksum_text(expected, true) + ", got "@
        + digest::checksum_text(actual, true)
}

/// Compares a stored checksum with that of the payload.
pub open spec fn compared(stored: u32, actual: u32) -> Result<(), Seq<char>> {
    if stored == actual {
        Ok(())
    } else {
        Err(mismatch_message(stored, actual))
    }
}

/// The payload of a binary file: what follows the checksum, if that is the checksum
/// `actual` of what follows.
pub open spec fn unframed(file: Seq<u8>, actual: u32) -> Result<Seq<u8>, Seq<char>> {
    if file.len() < 4 {
        Err("catalog file too short for checksum header"@)
    } else {
        match compared(stored_checksum(file), actual) {
            Ok(_) => Ok(file.skip(4)),
            Err(e) => Err(e),
        }
    }
}

/// The checksum of a payload.
pub fn payload_checksum(payload: &[u8]) -> (crc: u32)
    ensures
        crc == digest::crc32c_of(payload@),
{
    crc32c(payload)
}

/// Compares a stored checksum with that of the payload; an error is a message.
pub fn compare_checksum(stored: u32, actual: u32) -> (r: Result<(), String>)
    ensures
        match r {
            Ok(_) => compared(stored, actual) is Ok,
            Err(e) => compared(stored, actual) == Err::<(), Seq<char>>(e@),
        },
{
    if stored == actual {
        Ok(())
    } else {
        let mut m = "catalog checksum mismatch: expected ".to_owned();
        m.append(checksum_string(stored, true).as_str());
        m.append(", got ");
        m.append(checksum_string(actual, true).as_str());
        Err(m)
    }
}

/// Checks the payload of a JSON file against the checksum beside it.
pub fn check_envelope(stored: u32, payload: &[u8]) -> (r: Result<(), String>)
    ensures
        match r {
            Ok(_) => stored == digest::crc32c_of(payload@),
            Err(e) => stored != digest::crc32c_of(payload@) && e@ == mismatch_message(
                stored,
                digest::crc32c_of(payload@),
            ),
        },
{
    compare_checksum(stored, payload_checksum(payload))
}

/// Appends bytes.
fn extend(buf: &mut Vec<u8>, bytes: &[u8])
    ensures
        final(buf)@ == old(buf)@ + bytes@,
{
    buf.extend_from_slice(bytes);
    assert(buf@ =~= old(buf)@ + bytes@);
}

/// A binary file for a payload.
pub fn frame_payload(payload: &[u8]) -> (file: Vec<u8>)
    ensures
        file@ == frame(payload@),
{
    frame_with(payload_checksum(payload), payload)
}

/// A binary file for a payload, with the given checksum.
pub fn frame_with(crc: u32, payload: &[u8]) -> (file: Vec<u8>)
    ensures
        file@ == le32(crc) + payload@,
{
    let mut file: Vec<u8> = Vec::new();
    file.push((crc % 256) as u8);
    file.push((crc / 256 % 256) as u8);
    file.push((crc / 65536 % 256) as u8);
    file.push((crc / 16777216) as u8);
    assert(file@ =~= le32(crc));
    extend(&mut file, payload);
    file
}

/// The payload of a binary file; an error is a message.
pub fn unframe_payload(file: &[u8]) -> (r: Result<Vec<u8>, String>)
    ensures
        match r {
            Ok(p) => unframed(file@, digest::crc32c_of(file@.skip(4))) == Ok::<
                Seq<u8>,
                Seq<char>,
            >(p@),
            Err(e) => unframed(file@, digest::crc32c_of(file@.skip(4))) == Err::<
                Seq<u8>,
                Seq<char>,
            >(e@),
        },
{
    if file.len() < 4 {
        return Err("catalog file too short for checksum header".to_owned());
    }
    let mut payload: Vec<u8> = Vec::new();
    extend(&mut payload, &file[4..file.len()]);
    assert(payload@ =~= file@.skip(4));
    let actual: u32 = payload_checksum(payload.as_slice());
    unframe_with(file, actual)
}

/// The payload of a binary file, given the checksum of what follows its header; an
/// error is a message.
pub fn unframe_with(file: &[u8], actual: u32) -> (r: Result<Vec<u8>, String>)
    ensures
        match r {
            Ok(p) => unframed(file@, actual) == Ok::<Seq<u8>, Seq<char>>(p@),
            Err(e) => unframed(file@, actual) == Err::<Seq<u8>, Seq<char>>(e@),
        },
{
    if file.len() < 4 {
        return Err("catalog file too short for checksum header".to_owned());
    }
    let stored: u32 = file[0] as u32 + 256 * (file[1] as u32) + 65536 * (file[2] as u32) + 16777216
        * (file[3] as u32);
    compare_checksum(stored, actual)?;
    let mut payload: Vec<u8> = Vec::new();
    extend(&mut payload, &file[4..file.len()]);
    assert(payload@ =~= file@.skip(4));
    Ok(payload)
}

proof fn lemma_le32(n: u32, rest: Seq<u8>)
    ensures
        stored_checksum(le32(n) + rest) == n,
{
    let f = le32(n) + rest;
    assert(f[0] == (n % 256) as u8 && f[1] == (n / 256 % 256) as u8 && f[2] == (n / 65536
        % 256) as u8 && f[3] == (n / 16777216) as u8);
    assert(n == n % 256 + 256 * (n / 256 % 256) + 65536 * (n / 65536 % 256) + 16777216 * (n
        / 16777216));
}

/// A payload is read back from the binary file that was written for it.
pub proof fn unframing_gives_back_what_framing_wrote(payload: Seq<u8>)
    ensures
        frame(payload).len() == payload.len() + 4,
        unframed(frame(payload), digest::crc32c_of(frame(payload).skip(4))) == Ok::<
            Seq<u8>,
            Seq<char>,
        >(payload),
{
    lemma_le32(digest::crc32c_of(payload), payload);
    assert(frame(payload).skip(4) =~= payload);
}

/// A binary file is accepted only if its header is the checksum of its payload.
pub proof fn an_accepted_file_has_the_checksum_of_its_payload(file: Seq<u8>)
    ensures
        unframed(file, digest::crc32c_of(file.skip(4))) is Ok <==> file.len() >= 4
            && stored_checksum(file) == digest::crc32c_of(file.skip(4)),
{
}

/// What a catalog writes of itself: its entries, in the order of their keys.
pub open spec fn written(entries: catalog::Entries) -> Seq<(Seq<char>, catalog::Placement)> {
    catalog::pairs(entries, string_map::sorted(entries.dom()))
}

/// A catalog that was saved is loaded back, with the same entries. This holds of both
/// kinds of file and of every way to write entries as bytes that gives them back: the
/// checksum of a binary file is accepted and what follows it gives the entries; the
/// checksum in a JSON file is that of the entries in it when these are written again.
pub proof fn a_saved_catalog_is_loaded_back(
    entries: catalog::Entries,
    encode: spec_fn(Seq<(Seq<char>, catalog::Placement)>) -> Seq<u8>,
    decode: spec_fn(Seq<u8>) -> Option<Seq<(Seq<char>, catalog::Placement)>>,
)
    requires
        entries.dom().finite(),
        decode(encode(written(entries))) == Some(written(entries)),
    ensures
        ({
            let file = frame(encode(written(entries)));
            unframed(file, digest::crc32c_of(file.skip(4))) matches Ok(payload) && decode(
                payload,
            ) matches Some(read) && catalog::gathered(read) == entries
        }),
        ({
            let checksum = digest::crc32c_of(encode(written(entries)));
            decode(encode(written(entries))) matches Some(read) && compared(
                checksum,
                digest::crc32c_of(encode(read)),
            ) is Ok && catalog::gathered(read) == entries
        }),
{
    unframing_gives_back_what_framing_wrote(encode(written(entries)));
    catalog::gathering_all_entries_gives_them_back(entries);
}

} // verus!
