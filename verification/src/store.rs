//! The object database: objects are kept compressed, each under its digest,
//! in a two-level layout, and are written once and never changed.
//!
//! The database itself lives on disk. Its content is modelled here as a map
//! from digests in text form to the compressed bytes kept under them; the
//! functions of this module decide what a read or a write does given what
//! was found there.

use vstd::prelude::*;
use vstd::string::{StrSliceExecFns, StringExecFns};
use crate::codec::{compress, compressed, decompress, decompressed, zlib_deflated};
use crate::error::StoreError;
use crate::hasher::{digest_hex, lemma_digest_is_hex};
use crate::hex::{is_hex_sha, is_valid_hex_sha, lemma_hex_is_ascii};
use crate::object::{framed, lemma_payload_of_framed, payload_of, Kind};

verus! {

/// Where an object is kept below the object-database directory.
#[derive(Debug, Clone)]
pub struct ObjectPath {
    /// The directory: the first two characters of the digest.
    pub dir: String,
    /// The file in it: the other 38 characters.
    pub file: String,
}

impl ObjectPath {
    /// The path relative to the repository, with `/` between its parts.
    pub open spec fn spec_relative(self) -> Seq<char> {
        ".git/objects/"@ + self.dir@ + "/"@ + self.file@
    }

    /// The path relative to the repository, with `/` between its parts.
    pub fn relative(&self) -> (path: String)
        ensures
            path@ == self.spec_relative(),
    {
        let mut path = String::from_str(".git/objects/");
        path.append(self.dir.as_str());
        path.append("/");
        path.append(self.file.as_str());
        path
    }
}

/// The object-database directory, relative to the repository.
pub fn objects_dir() -> (path: String)
    ensures
        path@ == ".git/objects"@,
{
    String::from_str(".git/objects")
}

/// Every store operation needs the object-database directory:
/// `NotARepository` where it is absent.
pub fn ensure_git_dir(objects_dir_present: bool) -> (out: Result<(), StoreError>)
    ensures
        out == if objects_dir_present {
            Ok::<(), StoreError>(())
        } else {
            Err::<(), StoreError>(StoreError::NotARepository)
        },
{
    if objects_dir_present {
        Ok(())
    } else {
        Err(StoreError::NotARepository)
    }
}

/// The place of the object with digest `sha`: a directory named by the first
/// two characters and a file named by the other 38.
pub fn object_path_from_sha(sha: &str) -> (path: ObjectPath)
    requires
        is_hex_sha(sha@),
    ensures
        path.dir@ == sha@.subrange(0, 2),
        path.file@ == sha@.subrange(2, 40),
{
    proof {
        lemma_hex_is_ascii(sha@);
    }
    ObjectPath {
        dir: String::from_str(sha.substring_ascii(0, 2)),
        file: String::from_str(sha.substring_ascii(2, 40)),
    }
}

/// What a write of the object `store` that succeeded puts on disk: nothing
/// where the database already holds its digest, else the compressed stream
/// of `store`, which decompresses to `store`.
pub open spec fn is_write_of(store: Seq<u8>, present: bool, written: Option<Seq<u8>>) -> bool {
    if present {
        written is None
    } else {
        written matches Some(stream) && zlib_deflated(store) == Some(stream) && decompressed(
            stream,
        ) == Ok::<Seq<u8>, StoreError>(store)
    }
}

/// What a write of the object `store` decides, given whether the
/// object-database directory is there and whether a file for the digest of
/// `store` is: `NotARepository` without the directory, before anything else;
/// nothing to put on disk where the file is there; else the compressed
/// stream of `store`, or `Io` where the encoder reports a failure.
pub open spec fn write_outcome(store: Seq<u8>, objects_dir_present: bool, present: bool) -> Result<
    Option<Seq<u8>>,
    StoreError,
> {
    if !objects_dir_present {
        Err(StoreError::NotARepository)
    } else if present {
        Ok(None)
    } else {
        match compressed(store) {
            Ok(stream) => Ok(Some(stream)),
            Err(e) => Err(e),
        }
    }
}

/// The bytes handed back by a write, as a value.
pub open spec fn written_view(written: Option<Vec<u8>>) -> Option<Seq<u8>> {
    match written {
        Some(stream) => Some(stream@),
        None => None,
    }
}

/// Decides a write of the object `store`, given whether the object-database
/// directory is there and whether a file for the digest of `store` is
/// already in it. Without the directory the write fails with
/// `NotARepository` and nothing is to be created. An object that is present
/// is left alone and nothing is compressed. Else the compressed bytes to put
/// in the file come back; they decompress to `store`.
pub fn compress_and_write_object(store: &[u8], objects_dir_present: bool, present: bool) -> (out:
    Result<Option<Vec<u8>>, StoreError>)
    ensures
        match out {
            Ok(written) => write_outcome(store@, objects_dir_present, present) == Ok::<
                Option<Seq<u8>>,
                StoreError,
            >(written_view(written)) && is_write_of(store@, present, written_view(written)),
            Err(e) => write_outcome(store@, objects_dir_present, present) == Err::<
                Option<Seq<u8>>,
                StoreError,
            >(e),
        },
{
    if !objects_dir_present {
        return Err(StoreError::NotARepository);
    }
    if present {
        return Ok(None);
    }
    match compress(store) {
        Ok(stream) => Ok(Some(stream)),
        Err(e) => Err(e),
    }
}

/// What a read of `sha` gives, given whether the object-database directory
/// is there and what the file for `sha` holds, if there is one. In this
/// order: `InvalidDigest` where `sha` is not 40 hexadecimal characters,
/// `NotARepository` without the directory, `NotFound` where there is no
/// file, `CorruptObject` where the file does not decompress; else the framed
/// bytes of the object.
pub open spec fn read_outcome(
    sha: Seq<char>,
    objects_dir_present: bool,
    stored: Option<Seq<u8>>,
) -> Result<Seq<u8>, StoreError> {
    if !is_hex_sha(sha) {
        Err(StoreError::InvalidDigest)
    } else if !objects_dir_present {
        Err(StoreError::NotARepository)
    } else {
        match stored {
            None => Err(StoreError::NotFound),
            Some(stream) => decompressed(stream),
        }
    }
}

/// What was found on disk, as a value.
pub open spec fn stored_view(stored: Option<&[u8]>) -> Option<Seq<u8>> {
    match stored {
        Some(stream) => Some(stream@),
        None => None,
    }
}

/// Reads the object with digest `sha`, given whether the object-database
/// directory is there and what the file for `sha` holds, if there is one.
pub fn read_and_decompress_object(
    sha: &str,
    objects_dir_present: bool,
    stored: Option<&[u8]>,
) -> (out: Result<Vec<u8>, StoreError>)
    ensures
        match out {
            Ok(raw) => read_outcome(sha@, objects_dir_present, stored_view(stored)) == Ok::<
                Seq<u8>,
                StoreError,
            >(raw@),
            Err(e) => read_outcome(sha@, objects_dir_present, stored_view(stored)) == Err::<
                Seq<u8>,
                StoreError,
            >(e),
        },
{
    if !is_valid_hex_sha(sha) {
        return Err(StoreError::InvalidDigest);
    }
    if !objects_dir_present {
        return Err(StoreError::NotARepository);
    }
    match stored {
        None => Err(StoreError::NotFound),
        Some(stream) => decompress(stream),
    }
}

/// What the database holds under `sha`, if anything.
pub open spec fn lookup(db: Map<Seq<char>, Seq<u8>>, sha: Seq<char>) -> Option<Seq<u8>> {
    if db.dom().contains(sha) {
        Some(db[sha])
    } else {
        None
    }
}

/// What a read of `sha` gives from a database that is there and holds `db`.
pub open spec fn db_read(db: Map<Seq<char>, Seq<u8>>, sha: Seq<char>) -> Result<
    Seq<u8>,
    StoreError,
> {
    read_outcome(sha, true, lookup(db, sha))
}

/// What a write of the object `store` decides in a database that is there
/// and holds `db`.
pub open spec fn db_write(db: Map<Seq<char>, Seq<u8>>, store: Seq<u8>) -> Result<
    Option<Seq<u8>>,
    StoreError,
> {
    write_outcome(store, true, db.dom().contains(digest_hex(store)))
}

/// The database after the bytes that a write handed back, if any, were put
/// under `sha`.
pub open spec fn db_after(
    db: Map<Seq<char>, Seq<u8>>,
    sha: Seq<char>,
    written: Option<Seq<u8>>,
) -> Map<Seq<char>, Seq<u8>> {
    match written {
        Some(stream) => db.insert(sha, stream),
        None => db,
    }
}

/// Every key of the database is the digest of the object that the bytes
/// under it decompress to.
pub open spec fn content_addressed(db: Map<Seq<char>, Seq<u8>>) -> bool {
    forall|sha: Seq<char>| #[trigger]
        db.dom().contains(sha) ==> (decompressed(db[sha]) matches Ok(object) && digest_hex(
            object,
        ) == sha)
}

/// A write keeps the database content-addressed.
pub proof fn lemma_write_keeps_addressing(
    db: Map<Seq<char>, Seq<u8>>,
    store: Seq<u8>,
    written: Option<Seq<u8>>,
)
    requires
        content_addressed(db),
        is_write_of(store, db.dom().contains(digest_hex(store)), written),
    ensures
        content_addressed(db_after(db, digest_hex(store), written)),
{
    let next = db_after(db, digest_hex(store), written);
    assert forall|sha: Seq<char>| #[trigger] next.dom().contains(sha) implies (decompressed(
        next[sha],
    ) matches Ok(object) && digest_hex(object) == sha) by {
        if sha != digest_hex(store) {
            assert(db.dom().contains(sha));
        } else if db.dom().contains(sha) {
            assert(next[sha] == db[sha]);
        }
    }
}

/// Writing the same object twice is writing it once: after a write that
/// succeeded, a second write of the same object decides that nothing is to
/// be put on disk and leaves the database as the first one left it, with at
/// most the one key added.
pub proof fn lemma_write_idempotent(
    db: Map<Seq<char>, Seq<u8>>,
    store: Seq<u8>,
    first: Option<Seq<u8>>,
)
    requires
        db_write(db, store) == Ok::<Option<Seq<u8>>, StoreError>(first),
    ensures
        db_write(db_after(db, digest_hex(store), first), store) == Ok::<
            Option<Seq<u8>>,
            StoreError,
        >(None),
        db_after(db_after(db, digest_hex(store), first), digest_hex(store), None) == db_after(
            db,
            digest_hex(store),
            first,
        ),
        db_after(db, digest_hex(store), first).dom() == db.dom().insert(digest_hex(store)),
{
    let sha = digest_hex(store);
    assert(db_after(db, sha, first).dom() =~= db.dom().insert(sha));
}

/// Without the object-database directory every store operation fails with
/// `NotARepository`, whatever else it is given; a read does so once the
/// digest is seen to be one.
pub proof fn lemma_no_repository(sha: Seq<char>, store: Seq<u8>, present: bool, stored: Option<Seq<u8>>)
    ensures
        write_outcome(store, false, present) == Err::<Option<Seq<u8>>, StoreError>(
            StoreError::NotARepository,
        ),
        is_hex_sha(sha) ==> read_outcome(sha, false, stored) == Err::<Seq<u8>, StoreError>(
            StoreError::NotARepository,
        ),
        !is_hex_sha(sha) ==> read_outcome(sha, false, stored) == Err::<Seq<u8>, StoreError>(
            StoreError::InvalidDigest,
        ),
{
}

/// After a write of the object `store`, a read of its digest gives `store`
/// back, provided that whatever the database held under that digest before
/// was this same object.
pub proof fn lemma_read_after_write(
    db: Map<Seq<char>, Seq<u8>>,
    store: Seq<u8>,
    written: Option<Seq<u8>>,
)
    requires
        is_write_of(store, db.dom().contains(digest_hex(store)), written),
        db.dom().contains(digest_hex(store)) ==> decompressed(db[digest_hex(store)]) == Ok::<
            Seq<u8>,
            StoreError,
        >(store),
    ensures
        db_read(db_after(db, digest_hex(store), written), digest_hex(store)) == Ok::<
            Seq<u8>,
            StoreError,
        >(store),
{
    lemma_digest_is_hex(store);
}

/// A blob that was written reads back as its content: the read of its digest
/// gives the framed bytes, and these hold the content that went in.
pub proof fn lemma_blob_read_back(
    db: Map<Seq<char>, Seq<u8>>,
    content: Seq<u8>,
    written: Option<Seq<u8>>,
)
    requires
        is_write_of(
            framed(Kind::Blob, content),
            db.dom().contains(digest_hex(framed(Kind::Blob, content))),
            written,
        ),
        db.dom().contains(digest_hex(framed(Kind::Blob, content))) ==> decompressed(
            db[digest_hex(framed(Kind::Blob, content))],
        ) == Ok::<Seq<u8>, StoreError>(framed(Kind::Blob, content)),
    ensures
        db_read(
            db_after(db, digest_hex(framed(Kind::Blob, content)), written),
            digest_hex(framed(Kind::Blob, content)),
        ) matches Ok(raw) && payload_of(raw, Kind::Blob) == Some(content),
{
    lemma_read_after_write(db, framed(Kind::Blob, content), written);
    lemma_payload_of_framed(Kind::Blob, content, Kind::Blob);
}

} // verus!
