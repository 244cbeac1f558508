use vstd::prelude::*;
use std::io::Cursor;
use zip::result::ZipError;
use zip::ZipArchive;
use crate::url::is_directory_entry;

verus! {

#[verifier::external_type_specification]
#[verifier::external_body]
#[verifier::reject_recursive_types(R)]
pub struct ExZipArchive<R>(ZipArchive<R>);

#[verifier::external_type_specification]
#[verifier::external_body]
#[verifier::reject_recursive_types(T)]
pub struct ExCursor<T>(Cursor<T>);

#[verifier::external_type_specification]
#[verifier::external_body]
pub struct ExZipError(ZipError);

/// Whether zip reads the bytes as an archive (it finds and parses the
/// central directory).
pub uninterp spec fn zip_opens(bytes: Seq<u8>) -> bool;

/// The entries of the archive in the bytes, in the order of its central
/// directory: the name and unpacked content of each entry that zip reads
/// without a password other than the empty one, `None` for the others.
pub uninterp spec fn zip_entries(bytes: Seq<u8>) -> Seq<Option<(Seq<char>, Seq<u8>)>>;

/// The entries held by an opened archive, as `zip_entries` describes them.
pub uninterp spec fn archive_entries(a: ZipArchive<Cursor<Vec<u8>>>) -> Seq<
    Option<(Seq<char>, Seq<u8>)>,
>;

/// Relies on zip::ZipArchive::new over an in-memory cursor: it succeeds
/// exactly when it can parse the bytes' central directory, and the archive
/// then holds the entries listed there.
#[verifier::external_body]
fn open_archive(bytes: Vec<u8>) -> (r: Result<ZipArchive<Cursor<Vec<u8>>>, ZipError>)
    ensures
        r is Ok <==> zip_opens(bytes@),
        r matches Ok(a) ==> archive_entries(a) == zip_entries(bytes@),
{
    ZipArchive::new(Cursor::new(bytes))
}

/// Relies on zip::ZipArchive::len: the number of entries.
#[verifier::external_body]
fn archive_len(a: &ZipArchive<Cursor<Vec<u8>>>) -> (r: usize)
    ensures
        r == archive_entries(*a).len(),
{
    a.len()
}

/// Relies on zip::ZipArchive::by_index_decrypt with the empty password (for
/// an entry without encryption the password is not used),
/// zip::read::ZipFile::name and std::io::Read::read_to_end: the name and
/// unpacked content of entry `i`; `Ok(None)` where zip refuses the password.
/// Reading moves the cursor and leaves the entries as they are.
#[verifier::external_body]
fn read_entry(a: &mut ZipArchive<Cursor<Vec<u8>>>, i: usize) -> (r: Result<
    Option<(String, Vec<u8>)>,
    ZipError,
>)
    ensures
        archive_entries(*final(a)) == archive_entries(*old(a)),
        (r matches Ok(Some(_))) <==> archive_entries(*old(a))[i as int] is Some,
        r matches Ok(Some(e)) ==> e.0@ == (archive_entries(*old(a))[i as int]->0).0 && e.1@
            == (archive_entries(*old(a))[i as int]->0).1,
{
    match a.by_index_decrypt(i, b"")? {
        Ok(mut file) => {
            let name = file.name().to_string();
            let mut data = Vec::new();
            std::io::Read::read_to_end(&mut file, &mut data)?;
            Ok(Some((name, data)))
        },
        Err(_) => Ok(None),
    }
}

/// Why an archive could not be read.
#[derive(Debug)]
pub enum ArchiveError {
    /// zip rejected the bytes or an entry.
    Zip(ZipError),
    /// An entry is protected by a password.
    Encrypted,
}

/// One entry of a repository archive.
pub struct ArchiveEntry {
    pub name: String,
    pub is_dir: bool,
    pub data: Vec<u8>,
}

/// The entry `e` was read from the archive entry `z`.
pub open spec fn entry_matches(e: ArchiveEntry, z: Option<(Seq<char>, Seq<u8>)>) -> bool {
    &&& z is Some
    &&& e.name@ == (z->0).0
    &&& e.data@ == (z->0).1
    &&& e.is_dir == ((z->0).0.len() > 0 && (z->0).0.last() == '/')
}

/// zip opens the bytes and reads every entry of them.
pub open spec fn zip_reads(bytes: Seq<u8>) -> bool {
    zip_opens(bytes) && forall|k: int|
        0 <= k < zip_entries(bytes).len() ==> (#[trigger] zip_entries(bytes)[k]) is Some
}

/// Reads every entry of a zip archive, in order, marking those whose name
/// ends in `/` as directories. Fails exactly when zip cannot read the
/// archive or one of its entries.
pub fn read_archive(bytes: Vec<u8>) -> (r: Result<Vec<ArchiveEntry>, ArchiveError>)
    ensures
        r is Ok <==> zip_reads(bytes@),
        r matches Ok(v) ==> v@.len() == zip_entries(bytes@).len() && forall|k: int|
            0 <= k < v@.len() ==> #[trigger] entry_matches(v@[k], zip_entries(bytes@)[k]),
{
    let ghost all = zip_entries(bytes@);
    let ghost b = bytes@;
    let mut archive = match open_archive(bytes) {
        Ok(a) => a,
        Err(e) => return Err(ArchiveError::Zip(e)),
    };
    let n = archive_len(&archive);
    let mut out: Vec<ArchiveEntry> = Vec::new();
    let mut i: usize = 0;
    while i < n
        invariant
            all == zip_entries(b),
            b == bytes@,
            zip_opens(b),
            n == all.len(),
            archive_entries(archive) == all,
            i <= n,
            out@.len() == i,
            forall|k: int| 0 <= k < i ==> #[trigger] entry_matches(out@[k], all[k]),
        decreases n - i,
    {
        let read = read_entry(&mut archive, i);
        if !(read matches Ok(Some(_))) {
            proof {
                assert(!(zip_entries(b)[i as int] is Some));
                assert(!zip_reads(b));
            }
        }
        let (name, data) = match read {
            Ok(Some(e)) => e,
            Ok(None) => return Err(ArchiveError::Encrypted),
            Err(e) => return Err(ArchiveError::Zip(e)),
        };
        let is_dir = is_directory_entry(name.as_str());
        out.push(ArchiveEntry { name, is_dir, data });
        i = i + 1;
    }
    proof {
        assert forall|k: int| 0 <= k < all.len() implies (#[trigger] all[k]) is Some by {
            assert(entry_matches(out@[k], all[k]));
        }
    }
    Ok(out)
}

} // verus!
