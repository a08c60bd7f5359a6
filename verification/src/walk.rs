//! Turning a directory into tree objects: every file and link becomes a
//! blob, every directory a tree over its sorted entries.
//!
//! The directory is given as a snapshot that was read beforehand; what comes
//! back is the list of objects to store and the digest of the root tree.

use vstd::prelude::*;
use vstd::slice::slice_to_vec;
use crate::bytes::{ascii, push_ascii, same_bytes};
use crate::hasher::{digest_hex, lemma_digest_is_hex};
use crate::hex::is_hex_sha;
use crate::object::{framed, write_blob_from_bytes, Kind, PendingObject};
use crate::error::StoreError;
use crate::tree::{
    digests_valid, encode_tree, entry_views, lemma_decode_encoded, lemma_sort_by_name,
    names_sorted, record_of, sort_by_name, sort_entries, tree_object, tree_records, well_formed,
    EntryView, Mode, RecordView, TreeEntry,
};

verus! {

/// What stands at a path.
pub enum Node {
    /// A directory and what it holds, in the order in which it was listed.
    Directory(Vec<DirItem>),
    /// A regular file: its bytes and its permission bits.
    File { content: Vec<u8>, permissions: u32 },
    /// A symbolic link and the text of the path it points to.
    Symlink { target: Vec<u8> },
    /// A device, a socket or anything else that no object stands for.
    Other,
}

/// A name in a directory and what stands under it.
pub struct DirItem {
    pub name: Vec<u8>,
    pub node: Node,
}

/// Whether any of the three execute bits is set in `permissions`.
pub open spec fn executable(permissions: u32) -> bool {
    permissions & 0o111 != 0
}

/// Whether any of the three execute bits is set in `permissions`.
pub fn is_executable(permissions: u32) -> (yes: bool)
    ensures
        yes == executable(permissions),
{
    permissions & 0o111 != 0
}

/// The name of the repository's own directory, which no tree lists.
pub open spec fn git_dir_name() -> Seq<u8> {
    ascii(".git"@)
}

/// Whether `name` is the name of the repository's own directory.
pub fn is_git_dir(name: &[u8]) -> (yes: bool)
    ensures
        yes == (name@ == git_dir_name()),
{
    let mut dot_git: Vec<u8> = Vec::new();
    proof {
        reveal_strlit(".git");
    }
    push_ascii(&mut dot_git, ".git");
    assert(dot_git@ =~= git_dir_name());
    same_bytes(name, dot_git.as_slice())
}

/// The mode under which a node is listed: `40000` for a directory, `100755`
/// for a file with an execute bit and `100644` for one without, `120000`
/// for a symbolic link. Nothing else is listed.
pub open spec fn node_mode(node: Node) -> Option<Mode> {
    match node {
        Node::Directory(_) => Some(Mode::Directory),
        Node::File { permissions, .. } => Some(
            if executable(permissions) {
                Mode::Executable
            } else {
                Mode::Regular
            },
        ),
        Node::Symlink { .. } => Some(Mode::Symlink),
        Node::Other => None,
    }
}

/// The object that stands for a node: a blob of the bytes of a file or of
/// the target of a link, the tree of a directory, nothing for the rest.
pub open spec fn node_object(node: Node) -> Option<Seq<u8>>
    decreases node,
{
    match node {
        Node::Directory(items) => Some(tree_object(sort_by_name(dir_entries(items@)))),
        Node::File { content, .. } => Some(framed(Kind::Blob, content@)),
        Node::Symlink { target } => Some(framed(Kind::Blob, target@)),
        Node::Other => None,
    }
}

/// The object of a node for which one stands.
pub open spec fn framed_of(node: Node) -> Seq<u8> {
    node_object(node).unwrap()
}

/// The entries that the items of a directory give, in the order of the
/// items: one for each item but the repository's own directory and what no
/// object stands for.
pub open spec fn dir_entries(items: Seq<DirItem>) -> Seq<EntryView>
    decreases items,
{
    if items.len() == 0 {
        Seq::empty()
    } else {
        let before = dir_entries(items.drop_last());
        let item = items.last();
        match (node_mode(item.node), node_object(item.node)) {
            (Some(mode), Some(object)) if item.name@ != git_dir_name() => before.push(
                EntryView { name: item.name@, mode, sha_hex: digest_hex(object) },
            ),
            _ => before,
        }
    }
}

/// The tree object of a directory: its entries, sorted by name.
pub open spec fn dir_object(items: Seq<DirItem>) -> Seq<u8> {
    tree_object(sort_by_name(dir_entries(items)))
}

/// The objects that a node brings into the store, in the order in which
/// they are written: for a directory those of its items and then its tree.
pub open spec fn node_writes(node: Node) -> Seq<Seq<u8>>
    decreases node,
{
    match node {
        Node::Directory(items) => items_writes(items@).push(
            tree_object(sort_by_name(dir_entries(items@))),
        ),
        Node::File { content, .. } => seq![framed(Kind::Blob, content@)],
        Node::Symlink { target } => seq![framed(Kind::Blob, target@)],
        Node::Other => Seq::empty(),
    }
}

/// The objects that the items of a directory bring into the store, one item
/// after the other; the repository's own directory brings none.
pub open spec fn items_writes(items: Seq<DirItem>) -> Seq<Seq<u8>>
    decreases items,
{
    if items.len() == 0 {
        Seq::empty()
    } else if items.last().name@ == git_dir_name() {
        items_writes(items.drop_last())
    } else {
        items_writes(items.drop_last()) + node_writes(items.last().node)
    }
}

/// The objects that a directory brings into the store: those of its items,
/// then its own tree.
pub open spec fn dir_writes(items: Seq<DirItem>) -> Seq<Seq<u8>> {
    items_writes(items).push(dir_object(items))
}

/// No name among `items` holds a NUL byte.
pub open spec fn names_nul_free(items: Seq<DirItem>) -> bool {
    forall|i: int, j: int|
        0 <= i < items.len() && 0 <= j < items[i].name@.len() ==> #[trigger] items[i].name@[j] != 0
}

/// The entries of a directory whose names hold no NUL byte are well formed:
/// each carries a name of the directory and the digest of an object.
pub proof fn lemma_dir_entries_well_formed(items: Seq<DirItem>)
    requires
        names_nul_free(items),
    ensures
        forall|k: int|
            0 <= k < dir_entries(items).len() ==> well_formed(#[trigger] dir_entries(items)[k]),
    decreases items.len(),
{
    if items.len() > 0 {
        let before = items.drop_last();
        let item = items.last();
        assert forall|i: int, j: int|
            0 <= i < before.len() && 0 <= j < before[i].name@.len() implies #[trigger] before[i].name@[j]
            != 0 by {
            assert(before[i] == items[i]);
        }
        lemma_dir_entries_well_formed(before);
        let earlier = dir_entries(before);
        let all = dir_entries(items);
        assert forall|k: int| 0 <= k < all.len() implies well_formed(#[trigger] all[k]) by {
            if k < earlier.len() {
                assert(all[k] == earlier[k]);
            } else {
                let object = node_object(item.node).unwrap();
                lemma_digest_is_hex(object);
                assert(all[k].name == item.name@);
                assert(all[k].sha_hex == digest_hex(object));
                assert forall|j: int| 0 <= j < all[k].name.len() implies #[trigger] all[k].name[j]
                    != 0 by {
                    assert(items[items.len() - 1].name@[j] != 0);
                }
            }
        }
    }
}

/// The tree of a directory reads back as its entries in the order of their
/// names, and as nothing else, where no name holds a NUL byte.
pub proof fn lemma_dir_tree_reads_back(items: Seq<DirItem>)
    requires
        names_nul_free(items),
    ensures
        names_sorted(sort_by_name(dir_entries(items))),
        tree_records(dir_object(items)) == Ok::<Seq<RecordView>, StoreError>(
            sort_by_name(dir_entries(items)).map_values(|e: EntryView| record_of(e)),
        ),
{
    let listed = dir_entries(items);
    let ordered = sort_by_name(listed);
    lemma_dir_entries_well_formed(items);
    lemma_sort_by_name(listed);
    ordered.to_multiset_ensures();
    listed.to_multiset_ensures();
    assert forall|k: int| 0 <= k < ordered.len() implies well_formed(#[trigger] ordered[k]) by {
        assert(ordered.contains(ordered[k]));
        assert(ordered.to_multiset().count(ordered[k]) > 0);
        assert(listed.to_multiset().count(ordered[k]) > 0);
        assert(listed.contains(ordered[k]));
    }
    lemma_decode_encoded(ordered);
}

/// The framed bytes of a list of objects.
pub open spec fn stores(objects: Seq<PendingObject>) -> Seq<Seq<u8>> {
    objects.map_values(|o: PendingObject| o.store@)
}

/// Every object of the list carries the digest of its own bytes.
pub open spec fn all_wf(objects: Seq<PendingObject>) -> bool {
    forall|i: int| 0 <= i < objects.len() ==> (#[trigger] objects[i]).wf()
}

/// The objects of a directory and the digest of its tree.
pub struct TreeWrite {
    /// The digest of the directory's tree.
    pub sha: String,
    /// Every object to store, in the order in which they are written; the
    /// directory's tree is the last.
    pub objects: Vec<PendingObject>,
}

/// Adds the objects of `node` to `objects` and gives the mode and the digest
/// under which `node` is listed, if it is.
fn store_node(node: &Node, objects: &mut Vec<PendingObject>) -> (listed: Option<(Mode, String)>)
    requires
        all_wf(old(objects)@),
    ensures
        all_wf(final(objects)@),
        stores(final(objects)@) == stores(old(objects)@) + node_writes(*node),
        match listed {
            Some((mode, sha)) => node_mode(*node) == Some(mode) && node_object(*node)
                == Some(framed_of(*node)) && sha@ == digest_hex(framed_of(*node)),
            None => node_mode(*node) is None && node_object(*node) is None,
        },
    decreases node,
{
    match node {
        Node::Directory(items) => {
            let sha = store_dir(items, objects);
            Some((Mode::Directory, sha))
        },
        Node::File { content, permissions } => {
            let mode = if is_executable(*permissions) {
                Mode::Executable
            } else {
                Mode::Regular
            };
            let sha = store_blob(content.as_slice(), objects);
            Some((mode, sha))
        },
        Node::Symlink { target } => {
            let sha = store_blob(target.as_slice(), objects);
            Some((Mode::Symlink, sha))
        },
        Node::Other => {
            assert(stores(objects@) =~= stores(old(objects)@) + node_writes(*node));
            None
        },
    }
}

/// Adds the blob of `content` to `objects` and gives its digest.
fn store_blob(content: &[u8], objects: &mut Vec<PendingObject>) -> (sha: String)
    requires
        all_wf(old(objects)@),
    ensures
        all_wf(final(objects)@),
        stores(final(objects)@) == stores(old(objects)@).push(framed(Kind::Blob, content@)),
        sha@ == digest_hex(framed(Kind::Blob, content@)),
{
    let object = write_blob_from_bytes(content);
    let sha = object.sha.clone();
    objects.push(object);
    assert(stores(objects@) =~= stores(old(objects)@).push(framed(Kind::Blob, content@)));
    sha
}

/// Adds the objects of the directory that holds `items` to `objects`, its
/// own tree last, and gives the digest of that tree.
fn store_dir(items: &Vec<DirItem>, objects: &mut Vec<PendingObject>) -> (sha: String)
    requires
        all_wf(old(objects)@),
    ensures
        all_wf(final(objects)@),
        stores(final(objects)@) == stores(old(objects)@) + dir_writes(items@),
        sha@ == digest_hex(dir_object(items@)),
    decreases items,
{
    let mut entries: Vec<TreeEntry> = Vec::new();
    let mut i: usize = 0;
    assert(items@.take(0) =~= Seq::<DirItem>::empty());
    assert(entry_views(entries@) =~= dir_entries(items@.take(0)));
    assert(stores(objects@) =~= stores(old(objects)@) + items_writes(items@.take(0)));
    while i < items.len()
        invariant
            i <= items.len(),
            all_wf(objects@),
            stores(objects@) == stores(old(objects)@) + items_writes(items@.take(i as int)),
            entry_views(entries@) == dir_entries(items@.take(i as int)),
            digests_valid(entry_views(entries@)),
        decreases items.len() - i,
    {
        let item = &items[i];
        let ghost grown = items@.take(i + 1);
        let ghost seen = entry_views(entries@);
        proof {
            assert(grown.drop_last() =~= items@.take(i as int));
            assert(grown.last() == items@[i as int]);
        }
        if !is_git_dir(item.name.as_slice()) {
            match store_node(&item.node, objects) {
                Some((mode, sha)) => {
                    proof {
                        lemma_digest_is_hex(node_object(item.node).unwrap());
                    }
                    let entry = TreeEntry { name: slice_to_vec(item.name.as_slice()), mode, sha_hex: sha };
                    let ghost added = entry@;
                    entries.push(entry);
                    assert(entry_views(entries@) =~= seen.push(added));
                },
                None => {},
            }
            assert(stores(objects@) =~= stores(old(objects)@) + items_writes(grown));
        } else {
            assert(stores(objects@) =~= stores(old(objects)@) + items_writes(grown));
        }
        assert(entry_views(entries@) =~= dir_entries(grown));
        i += 1;
    }
    assert(items@.take(i as int) =~= items@);
    let ghost listed = entry_views(entries@);
    let sorted = sort_entries(entries);
    proof {
        let ordered = entry_views(sorted@);
        ordered.to_multiset_ensures();
        listed.to_multiset_ensures();
        assert forall|k: int| 0 <= k < ordered.len() implies is_hex_sha(
            #[trigger] ordered[k].sha_hex,
        ) by {
            assert(ordered.contains(ordered[k]));
            assert(ordered.to_multiset().count(ordered[k]) > 0);
            assert(listed.to_multiset().count(ordered[k]) > 0);
            assert(listed.contains(ordered[k]));
        }
    }
    let store = match encode_tree(&sorted) {
        Ok(store) => store,
        Err(_) => {
            assert(false);
            Vec::new()
        },
    };
    let object = PendingObject::new(store);
    let sha = object.sha.clone();
    let ghost kept = stores(objects@);
    objects.push(object);
    assert(stores(objects@) =~= kept.push(dir_object(items@)));
    assert(stores(objects@) =~= stores(old(objects)@) + dir_writes(items@));
    sha
}

/// The tree of a directory, given what it holds. Every item is looked at
/// but the repository's own directory: a directory gives a tree of its own,
/// a file a blob of its bytes, a symbolic link a blob of its target, and
/// anything else is passed over. The entries are sorted by name and make
/// the directory's tree, whose digest comes back with all objects to store.
pub fn write_tree_for_dir(items: &Vec<DirItem>) -> (out: TreeWrite)
    ensures
        out.sha@ == digest_hex(dir_object(items@)),
        stores(out.objects@) == dir_writes(items@),
        all_wf(out.objects@),
{
    let mut objects: Vec<PendingObject> = Vec::new();
    let sha = store_dir(items, &mut objects);
    assert(stores(objects@) =~= dir_writes(items@));
    TreeWrite { sha, objects }
}

} // verus!
