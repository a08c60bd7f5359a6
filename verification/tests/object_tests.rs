use git_objects::error::StoreError;
use git_objects::hasher::sha1_hex;
use git_objects::object::{
    decode_blob, encode_blob, encode_commit, frame, payload_start, write_blob_from_bytes,
    write_commit_object, Identity, Kind, PendingObject,
};

const TREE: &str = "4b825dc642cb6eb9a060e54bf8d69288fbee4904";
const PARENT: &str = "3b18e512dba79e4c8300dd08aeb37f8e728b8dad";

fn count(haystack: &[u8], needle: &[u8]) -> usize {
    haystack.windows(needle.len()).filter(|w| *w == needle).count()
}

#[test]
fn encode_blob_frames_the_content() {
    assert_eq!(encode_blob(b"hello world\n"), b"blob 12\0hello world\n".to_vec());
    assert_eq!(encode_blob(b""), b"blob 0\0".to_vec());
    assert_eq!(encode_blob(&[0, 0, 0]), b"blob 3\0\0\0\0".to_vec());
}

#[test]
fn frame_writes_kind_length_and_payload() {
    assert_eq!(frame(Kind::Blob, b"ab"), b"blob 2\0ab".to_vec());
    assert_eq!(frame(Kind::Tree, b""), b"tree 0\0".to_vec());
    assert_eq!(frame(Kind::Commit, b"0123456789"), b"commit 10\x000123456789".to_vec());
    let long = vec![b'x'; 1234];
    let framed = frame(Kind::Blob, &long);
    assert_eq!(&framed[..10], b"blob 1234\0");
    assert_eq!(&framed[10..], &long[..]);
}

#[test]
fn hello_world_has_the_known_digest() {
    let object = write_blob_from_bytes(b"hello world\n");
    assert_eq!(object.sha, "3b18e512dba79e4c8300dd08aeb37f8e728b8dad");
    assert_eq!(object.store, b"blob 12\0hello world\n".to_vec());
}

#[test]
fn the_empty_blob_has_the_known_digest() {
    let object = write_blob_from_bytes(b"");
    assert_eq!(object.sha, "e69de29bb2d1d6434b8b29ae775ad8c2e48c5391");
}

#[test]
fn a_pending_object_carries_the_digest_of_its_bytes() {
    let object = PendingObject::new(b"tree 0\0".to_vec());
    assert_eq!(object.sha, "4b825dc642cb6eb9a060e54bf8d69288fbee4904");
    assert_eq!(object.sha, sha1_hex(&object.store));
}

#[test]
fn decode_blob_gives_the_content_back() {
    let contents: Vec<Vec<u8>> =
        vec![vec![], b"hello world\n".to_vec(), vec![0, 1, 0, 2], b"blob 3\0abc".to_vec()];
    for content in contents {
        assert_eq!(decode_blob(&encode_blob(&content)), Ok(content));
    }
}

#[test]
fn decode_blob_refuses_other_kinds() {
    assert_eq!(decode_blob(b"tree 0\0"), Err(StoreError::WrongKind));
    assert_eq!(decode_blob(b"commit 3\0abc"), Err(StoreError::WrongKind));
    assert_eq!(decode_blob(b"blob 3 abc"), Err(StoreError::WrongKind));
    assert_eq!(decode_blob(b"blob\0abc"), Err(StoreError::WrongKind));
    assert_eq!(decode_blob(b""), Err(StoreError::WrongKind));
    assert_eq!(decode_blob(b"\0blob 3"), Err(StoreError::WrongKind));
}

#[test]
fn payload_start_follows_the_first_nul() {
    assert_eq!(payload_start(b"blob 12\0hello world\n", Kind::Blob), Some(8));
    assert_eq!(payload_start(b"tree 0\0", Kind::Tree), Some(7));
    assert_eq!(payload_start(b"tree 5\0a\0b\0c", Kind::Tree), Some(7));
    assert_eq!(payload_start(b"tree 0\0", Kind::Blob), None);
    assert_eq!(payload_start(b"tree 0", Kind::Tree), None);
    // The length is not looked at.
    assert_eq!(payload_start(b"tree nonsense\0x", Kind::Tree), Some(14));
}

#[test]
fn commit_lines_are_in_order() {
    let object = write_commit_object(TREE, PARENT, "initial").ok().unwrap();
    let text = "tree 4b825dc642cb6eb9a060e54bf8d69288fbee4904\n\
                parent 3b18e512dba79e4c8300dd08aeb37f8e728b8dad\n\
                author John Doe <john@example.com> 1234567890 +0000\n\
                committer John Doe <john@example.com> 1234567890 +0000\n\
                \n\
                initial\n";
    let mut expected = b"commit 210\0".to_vec();
    expected.extend_from_slice(text.as_bytes());
    assert_eq!(object.store, expected);
    assert_eq!(object.sha, "30b35b28a961aa8c71fdc261c735d4745a24893e");
}

#[test]
fn commit_has_one_line_of_each() {
    let object = write_commit_object(TREE, PARENT, "initial").ok().unwrap();
    let start = payload_start(&object.store, Kind::Commit).unwrap();
    let payload = &object.store[start..];
    assert!(payload.starts_with(b"tree "));
    assert_eq!(count(payload, b"tree "), 1);
    assert_eq!(count(payload, b"\nparent "), 1);
    assert_eq!(count(payload, b"\nauthor "), 1);
    assert_eq!(count(payload, b"\ncommitter "), 1);
    assert!(payload.ends_with(b"\n\ninitial\n"));
    assert_eq!(count(payload, b"\n\n"), 1);
}

#[test]
fn commit_refuses_what_is_no_digest() {
    assert_eq!(write_commit_object("not-a-sha", PARENT, "m").err(), Some(StoreError::InvalidDigest));
    assert_eq!(write_commit_object(TREE, "not-a-sha", "m").err(), Some(StoreError::InvalidDigest));
    assert_eq!(write_commit_object("", "", "m").err(), Some(StoreError::InvalidDigest));
    assert_eq!(write_commit_object(&TREE[..39], PARENT, "m").err(), Some(StoreError::InvalidDigest));
}

#[test]
fn commit_takes_any_identity_and_message() {
    let who = Identity {
        name: "Zo\u{eb}".to_string(),
        email: "zoe@example.org".to_string(),
        timestamp: "42 +0100".to_string(),
    };
    let store = encode_commit(TREE, PARENT, &who, "h\u{e9}llo\n\nmore").unwrap();
    let text = format!(
        "tree {}\nparent {}\nauthor Zo\u{eb} <zoe@example.org> 42 +0100\ncommitter Zo\u{eb} <zoe@example.org> 42 +0100\n\nh\u{e9}llo\n\nmore\n",
        TREE, PARENT
    );
    let mut expected = format!("commit {}\0", text.len()).into_bytes();
    expected.extend_from_slice(text.as_bytes());
    assert_eq!(store, expected);
}

#[test]
fn the_placeholder_identity_is_fixed() {
    let who = Identity::placeholder();
    assert_eq!(who.name, "John Doe");
    assert_eq!(who.email, "john@example.com");
    assert_eq!(who.timestamp, "1234567890 +0000");
}

#[test]
fn commit_with_an_empty_message_ends_in_a_newline() {
    let object = write_commit_object(TREE, PARENT, "").ok().unwrap();
    assert!(object.store.ends_with(b"+0000\n\n\n"));
}
