use std::collections::HashMap;

use git_objects::codec::{compress, decompress};
use git_objects::error::{StoreError, TreeFault};
use git_objects::object::{decode_blob, write_blob_from_bytes};
use git_objects::store::{
    compress_and_write_object, ensure_git_dir, object_path_from_sha, objects_dir,
    read_and_decompress_object,
};

/// A database in memory: what the files under the object directory hold.
fn write(db: &mut HashMap<String, Vec<u8>>, content: &[u8]) -> (String, bool) {
    let object = write_blob_from_bytes(content);
    let present = db.contains_key(&object.sha);
    match compress_and_write_object(&object.store, true, present).unwrap() {
        Some(stream) => {
            db.insert(object.sha.clone(), stream);
            (object.sha, true)
        }
        None => (object.sha, false),
    }
}

fn read(db: &HashMap<String, Vec<u8>>, sha: &str) -> Result<Vec<u8>, StoreError> {
    read_and_decompress_object(sha, true, db.get(sha).map(|stream| &stream[..]))
}

#[test]
fn the_repository_needs_its_object_directory() {
    assert_eq!(ensure_git_dir(true), Ok(()));
    assert_eq!(ensure_git_dir(false), Err(StoreError::NotARepository));
    assert_eq!(objects_dir(), ".git/objects");
}

#[test]
fn a_digest_splits_into_directory_and_file() {
    let path = object_path_from_sha("3b18e512dba79e4c8300dd08aeb37f8e728b8dad");
    assert_eq!(path.dir, "3b");
    assert_eq!(path.file, "18e512dba79e4c8300dd08aeb37f8e728b8dad");
    assert_eq!(path.file.len(), 38);
    assert_eq!(path.relative(), ".git/objects/3b/18e512dba79e4c8300dd08aeb37f8e728b8dad");
}

#[test]
fn an_object_that_is_present_is_left_alone() {
    assert_eq!(compress_and_write_object(b"blob 0\0", true, true), Ok(None));
}

#[test]
fn an_object_that_is_absent_is_compressed() {
    let written = compress_and_write_object(b"blob 12\0hello world\n", true, false).unwrap().unwrap();
    assert_ne!(written, b"blob 12\0hello world\n".to_vec());
    assert_eq!(decompress(&written), Ok(b"blob 12\0hello world\n".to_vec()));
    assert_eq!(Ok(written), compress(b"blob 12\0hello world\n"));
}

#[test]
fn reading_what_is_no_digest_is_an_invalid_digest() {
    assert_eq!(read_and_decompress_object("not-a-sha", true, None), Err(StoreError::InvalidDigest));
    let stream = compress(b"blob 0\0").unwrap();
    assert_eq!(
        read_and_decompress_object("not-a-sha", true, Some(&stream)),
        Err(StoreError::InvalidDigest)
    );
    assert_eq!(read_and_decompress_object("", true, None), Err(StoreError::InvalidDigest));
}

#[test]
fn reading_what_is_absent_is_not_found() {
    assert_eq!(
        read_and_decompress_object("3b18e512dba79e4c8300dd08aeb37f8e728b8dad", true, None),
        Err(StoreError::NotFound)
    );
}

#[test]
fn reading_what_does_not_decompress_is_corrupt() {
    assert_eq!(
        read_and_decompress_object("3b18e512dba79e4c8300dd08aeb37f8e728b8dad", true, Some(b"junk")),
        Err(StoreError::CorruptObject)
    );
}

#[test]
fn writing_twice_keeps_one_file_and_one_digest() {
    let mut db = HashMap::new();
    let (first, wrote_first) = write(&mut db, b"hello world\n");
    let kept = db.clone();
    let (second, wrote_second) = write(&mut db, b"hello world\n");
    assert_eq!(first, "3b18e512dba79e4c8300dd08aeb37f8e728b8dad");
    assert_eq!(first, second);
    assert!(wrote_first);
    assert!(!wrote_second);
    assert_eq!(db.len(), 1);
    assert_eq!(db, kept);
}

#[test]
fn a_written_blob_reads_back() {
    let mut db = HashMap::new();
    let contents: Vec<Vec<u8>> = vec![vec![], b"hello world\n".to_vec(), vec![0u8; 5000], vec![255, 0, 10]];
    let mut shas = Vec::new();
    for content in &contents {
        shas.push(write(&mut db, content).0);
    }
    assert_eq!(db.len(), contents.len());
    for (sha, content) in shas.iter().zip(contents.iter()) {
        let raw = read(&db, sha).unwrap();
        assert_eq!(decode_blob(&raw), Ok(content.clone()));
    }
    assert_eq!(read(&db, "0000000000000000000000000000000000000000"), Err(StoreError::NotFound));
}

#[test]
fn every_failure_has_its_message() {
    assert_eq!(
        StoreError::NotARepository.message(),
        "not a git repository (missing .git/objects)"
    );
    assert_eq!(StoreError::NotFound.message(), "object not found");
    assert_eq!(StoreError::InvalidDigest.message(), "invalid object hash");
    assert_eq!(StoreError::CorruptObject.message(), "corrupt object (bad compressed stream)");
    assert_eq!(
        StoreError::MalformedTree(TreeFault::MissingSpace).message(),
        "invalid tree entry (missing space)"
    );
    assert_eq!(
        StoreError::MalformedTree(TreeFault::MissingNul).message(),
        "invalid tree entry (missing NUL)"
    );
    assert_eq!(
        StoreError::MalformedTree(TreeFault::TruncatedDigest).message(),
        "invalid tree entry (truncated sha)"
    );
    assert_eq!(StoreError::NotATree.message(), "object is not a tree");
    assert_eq!(StoreError::WrongKind.message(), "object is not of the expected kind");
    assert_eq!(StoreError::Io.message(), "i/o failure");
}

#[test]
fn a_write_without_the_object_directory_is_refused() {
    assert_eq!(
        compress_and_write_object(b"blob 12\0hello world\n", false, false),
        Err(StoreError::NotARepository)
    );
    assert_eq!(compress_and_write_object(b"", false, false), Err(StoreError::NotARepository));
    // The directory is looked at before anything else.
    assert_eq!(compress_and_write_object(b"blob 0\0", false, true), Err(StoreError::NotARepository));
}

#[test]
fn a_write_of_an_absent_object_succeeds() {
    let inputs: Vec<Vec<u8>> = vec![vec![], b"blob 0\0".to_vec(), vec![7u8; 100_000]];
    for input in inputs {
        let written = compress_and_write_object(&input, true, false);
        assert!(matches!(written, Ok(Some(_))));
        assert_eq!(decompress(&written.unwrap().unwrap()), Ok(input));
    }
}

#[test]
fn a_read_without_the_object_directory_is_refused() {
    let sha = "3b18e512dba79e4c8300dd08aeb37f8e728b8dad";
    assert_eq!(read_and_decompress_object(sha, false, None), Err(StoreError::NotARepository));
    let stream = compress(b"blob 0\0").unwrap();
    assert_eq!(
        read_and_decompress_object(sha, false, Some(&stream)),
        Err(StoreError::NotARepository)
    );
}

#[test]
fn the_digest_is_looked_at_before_the_object_directory() {
    assert_eq!(read_and_decompress_object("not-a-sha", false, None), Err(StoreError::InvalidDigest));
    assert_eq!(
        read_and_decompress_object("3b18e512dba79e4c8300dd08aeb37f8e728b8dag", false, None),
        Err(StoreError::InvalidDigest)
    );
}
