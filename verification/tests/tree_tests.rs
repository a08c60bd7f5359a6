use git_objects::error::{StoreError, TreeFault};
use git_objects::hex::hex_to_20_bytes;
use git_objects::tree::{
    decode_entries, decode_tree, encode_entries, encode_tree, is_sorted_by_name, list_names,
    ls_tree_name_only, sort_entries, Mode, TreeEntry,
};

const FOO_BLOB: &str = "d079c37b6e828bab2b2142ae2ab5c519156470e1";
const BAR_BLOB: &str = "5716ca5987cbf97d6bb54920bea6adde242d87e6";
const FOO_TREE: &str = "601e10a11d5c19f6b331bc517668541efdd7eee9";

fn entry(name: &[u8], mode: Mode, sha: &str) -> TreeEntry {
    TreeEntry { name: name.to_vec(), mode, sha_hex: sha.to_string() }
}

fn names(entries: &[TreeEntry]) -> Vec<Vec<u8>> {
    entries.iter().map(|e| e.name.clone()).collect()
}

#[test]
fn encode_entries_writes_mode_name_and_raw_digest() {
    let body = encode_entries(&vec![entry(b"foo.txt", Mode::Regular, FOO_BLOB)]).unwrap();
    let mut expected = b"100644 foo.txt\0".to_vec();
    expected.extend_from_slice(&hex_to_20_bytes(FOO_BLOB).unwrap());
    assert_eq!(body, expected);
    assert_eq!(body.len(), 35);
}

#[test]
fn encode_entries_puts_nothing_between_records() {
    let body = encode_entries(&vec![
        entry(b"bar", Mode::Regular, BAR_BLOB),
        entry(b"foo", Mode::Directory, FOO_TREE),
    ])
    .unwrap();
    let mut expected = b"100644 bar\0".to_vec();
    expected.extend_from_slice(&hex_to_20_bytes(BAR_BLOB).unwrap());
    expected.extend_from_slice(b"40000 foo\0");
    expected.extend_from_slice(&hex_to_20_bytes(FOO_TREE).unwrap());
    assert_eq!(body, expected);
}

#[test]
fn every_mode_has_its_digits() {
    let modes: Vec<(Mode, &[u8])> = vec![
        (Mode::Regular, b"100644"),
        (Mode::Executable, b"100755"),
        (Mode::Symlink, b"120000"),
        (Mode::Directory, b"40000"),
    ];
    for (mode, digits) in modes {
        let mut buf = Vec::new();
        mode.push_digits(&mut buf);
        assert_eq!(buf, digits.to_vec());
        let body = encode_entries(&vec![entry(b"n", mode, FOO_BLOB)]).unwrap();
        assert!(body.starts_with(digits));
        assert_eq!(body[digits.len()], b' ');
    }
}

#[test]
fn encode_tree_frames_the_records() {
    let store = encode_tree(&vec![entry(b"foo.txt", Mode::Regular, FOO_BLOB)]).unwrap();
    let mut expected = b"tree 35\0100644 foo.txt\0".to_vec();
    expected.extend_from_slice(&hex_to_20_bytes(FOO_BLOB).unwrap());
    assert_eq!(store, expected);
    assert_eq!(git_objects::hasher::sha1_hex(&store), FOO_TREE);
}

#[test]
fn the_empty_tree_has_the_known_digest() {
    let store = encode_tree(&vec![]).unwrap();
    assert_eq!(store, b"tree 0\0".to_vec());
    assert_eq!(git_objects::hasher::sha1_hex(&store), "4b825dc642cb6eb9a060e54bf8d69288fbee4904");
}

#[test]
fn encode_tree_refuses_what_is_no_digest() {
    let entries = vec![entry(b"a", Mode::Regular, FOO_BLOB), entry(b"b", Mode::Regular, "not-a-sha")];
    assert_eq!(encode_tree(&entries), Err(StoreError::InvalidDigest));
    assert_eq!(encode_entries(&entries), Err(StoreError::InvalidDigest));
}

#[test]
fn sorting_is_by_bytes() {
    let sorted = sort_entries(vec![
        entry(b"a", Mode::Regular, FOO_BLOB),
        entry(b"b", Mode::Regular, FOO_BLOB),
        entry(b"ab", Mode::Regular, FOO_BLOB),
    ]);
    assert_eq!(names(&sorted), vec![b"a".to_vec(), b"ab".to_vec(), b"b".to_vec()]);
    let body = encode_entries(&sorted).unwrap();
    let a = body.windows(3).position(|w| w == b" a\0").unwrap();
    let ab = body.windows(4).position(|w| w == b" ab\0").unwrap();
    let b = body.windows(3).position(|w| w == b" b\0").unwrap();
    assert!(a < ab && ab < b);
}

#[test]
fn sorting_puts_upper_case_first_and_high_bytes_last() {
    let sorted = sort_entries(vec![
        entry(&[0xc3, 0xa9], Mode::Regular, FOO_BLOB),
        entry(b"b", Mode::Regular, FOO_BLOB),
        entry(b"B", Mode::Regular, FOO_BLOB),
        entry(b"a.txt", Mode::Regular, FOO_BLOB),
        entry(b"a", Mode::Directory, FOO_TREE),
    ]);
    assert_eq!(
        names(&sorted),
        vec![b"B".to_vec(), b"a".to_vec(), b"a.txt".to_vec(), b"b".to_vec(), vec![0xc3, 0xa9]]
    );
    assert!(is_sorted_by_name(&sorted));
}

#[test]
fn sorting_keeps_every_entry_and_the_order_of_equal_names() {
    let sorted = sort_entries(vec![
        entry(b"x", Mode::Regular, FOO_BLOB),
        entry(b"a", Mode::Regular, BAR_BLOB),
        entry(b"x", Mode::Directory, FOO_TREE),
        entry(b"a", Mode::Symlink, FOO_BLOB),
    ]);
    assert_eq!(sorted.len(), 4);
    assert_eq!(names(&sorted), vec![b"a".to_vec(), b"a".to_vec(), b"x".to_vec(), b"x".to_vec()]);
    assert_eq!(sorted[0].sha_hex, BAR_BLOB);
    assert_eq!(sorted[1].mode, Mode::Symlink);
    assert_eq!(sorted[2].mode, Mode::Regular);
    assert_eq!(sorted[3].mode, Mode::Directory);
}

#[test]
fn sorting_agrees_with_the_standard_sort() {
    let mut seed: u32 = 12345;
    for round in 0..50 {
        let mut entries = Vec::new();
        for _ in 0..(round % 9) {
            let mut name = Vec::new();
            seed = seed.wrapping_mul(1103515245).wrapping_add(12345);
            for k in 0..(1 + (seed >> 16) % 3) {
                seed = seed.wrapping_mul(1103515245).wrapping_add(12345);
                name.push(b'a' + ((seed >> 16) % 3) as u8 + k as u8 * 0);
            }
            entries.push(entry(&name, Mode::Regular, FOO_BLOB));
        }
        let mut expected = names(&entries);
        expected.sort();
        let sorted = sort_entries(entries);
        assert_eq!(names(&sorted), expected);
        assert!(is_sorted_by_name(&sorted));
    }
}

#[test]
fn is_sorted_by_name_sees_a_descent() {
    assert!(is_sorted_by_name(&vec![]));
    assert!(is_sorted_by_name(&vec![entry(b"z", Mode::Regular, FOO_BLOB)]));
    assert!(is_sorted_by_name(&vec![
        entry(b"a", Mode::Regular, FOO_BLOB),
        entry(b"a", Mode::Regular, FOO_BLOB),
        entry(b"b", Mode::Regular, FOO_BLOB)
    ]));
    assert!(!is_sorted_by_name(&vec![
        entry(b"a", Mode::Regular, FOO_BLOB),
        entry(b"c", Mode::Regular, FOO_BLOB),
        entry(b"b", Mode::Regular, FOO_BLOB)
    ]));
    assert!(!is_sorted_by_name(&vec![
        entry(b"b", Mode::Regular, FOO_BLOB),
        entry(b"a", Mode::Regular, FOO_BLOB)
    ]));
}

#[test]
fn entries_come_back_as_they_went_in() {
    let entries = sort_entries(vec![
        entry(b"run.sh", Mode::Executable, BAR_BLOB),
        entry(b"with space", Mode::Regular, FOO_BLOB),
        entry(b"dir", Mode::Directory, FOO_TREE),
        entry(b"link", Mode::Symlink, FOO_BLOB),
        entry(b"", Mode::Regular, "AAAAAAAAAAAAAAAAAAAAAAAAAAAAAAAAAAAAAAAA"),
    ]);
    let store = encode_tree(&entries).unwrap();
    let records = decode_tree(&store).unwrap();
    assert_eq!(records.len(), entries.len());
    for (record, entry) in records.iter().zip(entries.iter()) {
        let mut digits = Vec::new();
        entry.mode.push_digits(&mut digits);
        assert_eq!(record.mode, digits);
        assert_eq!(record.name, entry.name);
        assert_eq!(record.sha, hex_to_20_bytes(&entry.sha_hex).unwrap());
    }
    assert_eq!(records[0].name, b"".to_vec());
    assert_eq!(records[0].sha, [0xaa; 20]);
    assert_eq!(records[4].name, b"with space".to_vec());
}

#[test]
fn listing_prints_bar_then_foo() {
    let store = encode_tree(&vec![
        entry(b"bar", Mode::Regular, BAR_BLOB),
        entry(b"foo", Mode::Directory, FOO_TREE),
    ])
    .unwrap();
    assert_eq!(git_objects::hasher::sha1_hex(&store), "e806d2c521e960e150806d8f8dea6c3d912520d5");
    assert_eq!(list_names(&store), Ok(b"bar\nfoo\n".to_vec()));
}

#[test]
fn listing_of_the_empty_tree_is_empty() {
    assert_eq!(list_names(b"tree 0\0"), Ok(vec![]));
    assert_eq!(decode_tree(b"tree 0\0").unwrap().len(), 0);
}

#[test]
fn listing_refuses_what_is_no_tree() {
    assert_eq!(list_names(b"blob 12\0hello world\n"), Err(StoreError::NotATree));
    assert_eq!(list_names(b"commit 0\0"), Err(StoreError::NotATree));
    assert_eq!(list_names(b"tree 0"), Err(StoreError::NotATree));
    assert_eq!(list_names(b""), Err(StoreError::NotATree));
    assert_eq!(list_names(b"tree\0"), Err(StoreError::NotATree));
    assert_eq!(decode_tree(b"blob 0\0").err(), Some(StoreError::NotATree));
}

#[test]
fn a_record_without_a_space_is_malformed() {
    assert_eq!(decode_entries(b"100644").err(), Some(TreeFault::MissingSpace));
    assert_eq!(decode_entries(b"100644foo\0").err(), Some(TreeFault::MissingSpace));
    assert_eq!(
        list_names(b"tree 6\0100644"),
        Err(StoreError::MalformedTree(TreeFault::MissingSpace))
    );
}

#[test]
fn a_record_without_a_nul_is_malformed() {
    assert_eq!(decode_entries(b"100644 foo").err(), Some(TreeFault::MissingNul));
    assert_eq!(decode_entries(b"100644 ").err(), Some(TreeFault::MissingNul));
    // A NUL before the space does not close the name.
    assert_eq!(decode_entries(b"1\0 foo").err(), Some(TreeFault::MissingNul));
    assert_eq!(
        list_names(b"tree 10\0100644 foo"),
        Err(StoreError::MalformedTree(TreeFault::MissingNul))
    );
}

#[test]
fn a_record_with_a_short_digest_is_malformed() {
    let mut payload = b"100644 foo\0".to_vec();
    assert_eq!(decode_entries(&payload).err(), Some(TreeFault::TruncatedDigest));
    payload.extend_from_slice(&[7u8; 19]);
    assert_eq!(decode_entries(&payload).err(), Some(TreeFault::TruncatedDigest));
    payload.push(7);
    let records = decode_entries(&payload).unwrap();
    assert_eq!(records.len(), 1);
    assert_eq!(records[0].mode, b"100644".to_vec());
    assert_eq!(records[0].name, b"foo".to_vec());
    assert_eq!(records[0].sha, [7u8; 20]);
}

#[test]
fn the_first_bad_record_decides() {
    let mut payload = b"100644 ok\0".to_vec();
    payload.extend_from_slice(&[1u8; 20]);
    payload.extend_from_slice(b"trailing");
    assert_eq!(decode_entries(&payload).err(), Some(TreeFault::MissingSpace));
    let mut store = format!("tree {}\0", payload.len()).into_bytes();
    store.extend_from_slice(&payload);
    assert_eq!(list_names(&store), Err(StoreError::MalformedTree(TreeFault::MissingSpace)));
}

#[test]
fn a_digest_may_hold_spaces_and_nuls() {
    let mut payload = b"40000 d\0".to_vec();
    payload.extend_from_slice(&[0x20, 0x00, 0x20, 0x00, 0x20, 0x00, 0x20, 0x00, 0x20, 0x00]);
    payload.extend_from_slice(&[0x00; 10]);
    payload.extend_from_slice(b"100644 f\0");
    payload.extend_from_slice(&[0x20; 20]);
    let records = decode_entries(&payload).unwrap();
    assert_eq!(records.len(), 2);
    assert_eq!(records[0].name, b"d".to_vec());
    assert_eq!(records[1].name, b"f".to_vec());
    assert_eq!(records[1].sha, [0x20; 20]);
}

#[test]
fn an_entry_is_well_formed_without_nul_and_with_a_digest() {
    assert!(entry(b"foo.txt", Mode::Regular, FOO_BLOB).is_well_formed());
    assert!(entry(b"", Mode::Directory, FOO_TREE).is_well_formed());
    assert!(!entry(b"foo\0bar", Mode::Regular, FOO_BLOB).is_well_formed());
    assert!(!entry(b"\0", Mode::Regular, FOO_BLOB).is_well_formed());
    assert!(!entry(b"foo", Mode::Regular, "not-a-sha").is_well_formed());
    assert!(!entry(b"foo\0", Mode::Regular, "").is_well_formed());
}

#[test]
fn a_record_holds_the_digest_of_its_entry() {
    let store = encode_tree(&vec![entry(b"foo.txt", Mode::Regular, FOO_BLOB)]).unwrap();
    let records = decode_tree(&store).unwrap();
    assert_eq!(git_objects::hex::to_hex(&records[0].sha), FOO_BLOB);
}

#[test]
fn ls_tree_reads_and_lists() {
    let store = encode_tree(&vec![
        entry(b"bar", Mode::Regular, BAR_BLOB),
        entry(b"foo", Mode::Directory, FOO_TREE),
    ])
    .unwrap();
    let sha = git_objects::hasher::sha1_hex(&store);
    let stream = git_objects::codec::compress(&store).unwrap();
    assert_eq!(ls_tree_name_only(&sha, true, Some(&stream)), Ok(b"bar\nfoo\n".to_vec()));
}

#[test]
fn ls_tree_fails_in_the_order_of_its_steps() {
    let blob = git_objects::codec::compress(b"blob 0\0").unwrap();
    let broken = git_objects::codec::compress(b"tree 3\0abc").unwrap();
    assert_eq!(ls_tree_name_only("not-a-sha", true, Some(&blob)), Err(StoreError::InvalidDigest));
    assert_eq!(ls_tree_name_only("not-a-sha", true, None), Err(StoreError::InvalidDigest));
    assert_eq!(ls_tree_name_only(FOO_TREE, true, None), Err(StoreError::NotFound));
    assert_eq!(ls_tree_name_only(FOO_TREE, true, Some(b"junk")), Err(StoreError::CorruptObject));
    assert_eq!(ls_tree_name_only(FOO_TREE, true, Some(&blob)), Err(StoreError::NotATree));
    assert_eq!(
        ls_tree_name_only(FOO_TREE, true, Some(&broken)),
        Err(StoreError::MalformedTree(TreeFault::MissingSpace))
    );
}

#[test]
fn ls_tree_without_the_object_directory_is_refused() {
    let store = encode_tree(&vec![entry(b"bar", Mode::Regular, BAR_BLOB)]).unwrap();
    let stream = git_objects::codec::compress(&store).unwrap();
    assert_eq!(ls_tree_name_only(FOO_TREE, false, None), Err(StoreError::NotARepository));
    assert_eq!(ls_tree_name_only(FOO_TREE, false, Some(&stream)), Err(StoreError::NotARepository));
    // A string that is no digest is refused as such, directory or not.
    assert_eq!(ls_tree_name_only("not-a-sha", false, None), Err(StoreError::InvalidDigest));
}
