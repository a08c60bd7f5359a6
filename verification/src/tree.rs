//! Tree payloads: a run of `<mode> <name>\0<20-byte digest>` records, sorted
//! by name in byte order, with nothing between two records.

use vstd::prelude::*;
use vstd::slice::{slice_subrange, slice_to_vec};
use crate::bytes::{
    append_bytes, ascii, bytes_le, find_byte, lemma_lex_le_antisymmetric, lemma_lex_le_total,
    lemma_lex_le_transitive, lemma_position_from, lemma_position_from_unique, lex_le,
    position_from, push_ascii,
};
use crate::error::{StoreError, TreeFault};
use crate::hex::{
    hex_decode, hex_lower, hex_to_20_bytes, is_hex_sha, is_lower_hex, is_valid_hex_sha,
    lemma_hex_text_round_trip,
};
use crate::object::{frame, framed, lemma_payload_of_framed, payload_of, payload_start, Kind};
use crate::store::{read_and_decompress_object, read_outcome, stored_view};

verus! {

/// What a tree entry points at, as its mode says.
#[derive(Debug, Clone, Copy, PartialEq, Eq, Structural)]
pub enum Mode {
    /// `100644`: a regular file.
    Regular,
    /// `100755`: an executable file.
    Executable,
    /// `120000`: a symbolic link.
    Symlink,
    /// `40000`: a directory.
    Directory,
}

impl Mode {
    /// The digits that stand for this mode.
    pub open spec fn text(self) -> Seq<char> {
        match self {
            Mode::Regular => "100644"@,
            Mode::Executable => "100755"@,
            Mode::Symlink => "120000"@,
            Mode::Directory => "40000"@,
        }
    }

    /// The digits that stand for this mode, in ASCII.
    pub open spec fn digits(self) -> Seq<u8> {
        ascii(self.text())
    }

    /// Appends the digits of this mode.
    pub fn push_digits(self, buf: &mut Vec<u8>)
        ensures
            final(buf)@ == old(buf)@ + self.digits(),
    {
        proof {
            reveal_strlit("100644");
            reveal_strlit("100755");
            reveal_strlit("120000");
            reveal_strlit("40000");
        }
        match self {
            Mode::Regular => push_ascii(buf, "100644"),
            Mode::Executable => push_ascii(buf, "100755"),
            Mode::Symlink => push_ascii(buf, "120000"),
            Mode::Directory => push_ascii(buf, "40000"),
        }
    }
}

/// The digits of a mode are five or six bytes, none of them a space or NUL.
pub proof fn lemma_mode_digits(mode: Mode)
    ensures
        5 <= mode.digits().len() <= 6,
        forall|i: int|
            0 <= i < mode.digits().len() ==> 48 <= #[trigger] mode.digits()[i] <= 55,
{
    reveal_strlit("100644");
    reveal_strlit("100755");
    reveal_strlit("120000");
    reveal_strlit("40000");
}

/// One entry of a tree: a name, a mode, and the digest of what it names.
#[derive(Debug, Clone)]
pub struct TreeEntry {
    /// The name, as raw bytes.
    pub name: Vec<u8>,
    pub mode: Mode,
    /// The digest of the object named, as 40 hexadecimal characters.
    pub sha_hex: String,
}

/// A tree entry as a value.
pub struct EntryView {
    pub name: Seq<u8>,
    pub mode: Mode,
    pub sha_hex: Seq<char>,
}

impl View for TreeEntry {
    type V = EntryView;

    open spec fn view(&self) -> EntryView {
        EntryView { name: self.name@, mode: self.mode, sha_hex: self.sha_hex@ }
    }
}

impl TreeEntry {
    /// Whether this entry can be written and read back: its name holds no
    /// NUL byte and its digest is 40 hexadecimal characters.
    pub fn is_well_formed(&self) -> (yes: bool)
        ensures
            yes == well_formed(self@),
    {
        let nul = find_byte(self.name.as_slice(), 0u8, 0);
        proof {
            lemma_position_from(self.name@, 0u8, 0);
        }
        nul == self.name.len() && is_valid_hex_sha(self.sha_hex.as_str())
    }
}

/// The entries of a vector as values.
pub open spec fn entry_views(entries: Seq<TreeEntry>) -> Seq<EntryView> {
    entries.map_values(|e: TreeEntry| e@)
}

/// An entry can be written and read back: its name holds no NUL byte and its
/// digest is 40 hexadecimal characters.
pub open spec fn well_formed(e: EntryView) -> bool {
    is_hex_sha(e.sha_hex) && forall|i: int| 0 <= i < e.name.len() ==> #[trigger] e.name[i] != 0
}

/// Every digest among `es` is 40 hexadecimal characters.
pub open spec fn digests_valid(es: Seq<EntryView>) -> bool {
    forall|i: int| 0 <= i < es.len() ==> is_hex_sha(#[trigger] es[i].sha_hex)
}

/// The names of `es` ascend in byte order.
pub open spec fn names_sorted(es: Seq<EntryView>) -> bool {
    forall|i: int, j: int| 0 <= i < j < es.len() ==> lex_le(#[trigger] es[i].name, #[trigger] es[j].name)
}

/// The record of one entry: mode digits, a space, the name, NUL, and the 20
/// raw bytes of the digest.
pub open spec fn entry_bytes(e: EntryView) -> Seq<u8> {
    e.mode.digits() + seq![32u8] + e.name + seq![0u8] + hex_decode(e.sha_hex)
}

/// The records of `es`, one after the other.
pub open spec fn entries_bytes(es: Seq<EntryView>) -> Seq<u8>
    decreases es.len(),
{
    if es.len() == 0 {
        Seq::empty()
    } else {
        entry_bytes(es.first()) + entries_bytes(es.drop_first())
    }
}

/// The tree object that lists `es`.
pub open spec fn tree_object(es: Seq<EntryView>) -> Seq<u8> {
    framed(Kind::Tree, entries_bytes(es))
}

/// Adding an entry at the end adds its record at the end.
pub proof fn lemma_entries_bytes_push(es: Seq<EntryView>, e: EntryView)
    ensures
        entries_bytes(es.push(e)) == entries_bytes(es) + entry_bytes(e),
    decreases es.len(),
{
    if es.len() == 0 {
        reveal_with_fuel(entries_bytes, 2);
        assert(es.push(e).drop_first() =~= Seq::<EntryView>::empty());
        assert(entries_bytes(es.push(e)) =~= entries_bytes(es) + entry_bytes(e));
    } else {
        lemma_entries_bytes_push(es.drop_first(), e);
        assert(es.push(e).drop_first() =~= es.drop_first().push(e));
        assert(entries_bytes(es.push(e)) =~= entries_bytes(es) + entry_bytes(e));
    }
}

/// The payload of a tree that lists `entries` in the order given;
/// `InvalidDigest` where the digest of an entry is not 40 hexadecimal
/// characters.
pub fn encode_entries(entries: &Vec<TreeEntry>) -> (out: Result<Vec<u8>, StoreError>)
    ensures
        match out {
            Ok(body) => digests_valid(entry_views(entries@)) && body@ == entries_bytes(
                entry_views(entries@),
            ),
            Err(e) => !digests_valid(entry_views(entries@)) && e == StoreError::InvalidDigest,
        },
{
    let ghost es = entry_views(entries@);
    let mut body: Vec<u8> = Vec::new();
    let mut i: usize = 0;
    assert(es.take(0) =~= Seq::<EntryView>::empty());
    while i < entries.len()
        invariant
            i <= entries.len(),
            es == entry_views(entries@),
            digests_valid(es.take(i as int)),
            body@ == entries_bytes(es.take(i as int)),
        decreases entries.len() - i,
    {
        let entry = &entries[i];
        assert(entry@ == es[i as int]);
        let raw = match hex_to_20_bytes(entry.sha_hex.as_str()) {
            Ok(raw) => raw,
            Err(e) => {
                assert(!is_hex_sha(es[i as int].sha_hex));
                return Err(e);
            },
        };
        entry.mode.push_digits(&mut body);
        body.push(32u8);
        append_bytes(&mut body, entry.name.as_slice());
        body.push(0u8);
        append_bytes(&mut body, raw.as_slice());
        proof {
            lemma_entries_bytes_push(es.take(i as int), es[i as int]);
            assert(es.take(i + 1) =~= es.take(i as int).push(es[i as int]));
            assert(body@ =~= entries_bytes(es.take(i as int)) + entry_bytes(es[i as int]));
        }
        i += 1;
    }
    assert(es.take(i as int) =~= es);
    Ok(body)
}

/// The tree object that lists `entries`, which come sorted by name;
/// `InvalidDigest` where the digest of an entry is not 40 hexadecimal
/// characters.
pub fn encode_tree(entries: &Vec<TreeEntry>) -> (out: Result<Vec<u8>, StoreError>)
    requires
        names_sorted(entry_views(entries@)),
    ensures
        match out {
            Ok(store) => digests_valid(entry_views(entries@)) && store@ == tree_object(
                entry_views(entries@),
            ),
            Err(e) => !digests_valid(entry_views(entries@)) && e == StoreError::InvalidDigest,
        },
{
    match encode_entries(entries) {
        Ok(body) => Ok(frame(Kind::Tree, body.as_slice())),
        Err(e) => Err(e),
    }
}

/// Whether the names of `entries` ascend in byte order.
pub fn is_sorted_by_name(entries: &Vec<TreeEntry>) -> (sorted: bool)
    ensures
        sorted == names_sorted(entry_views(entries@)),
{
    let ghost es = entry_views(entries@);
    if entries.len() < 2 {
        return true;
    }
    let mut i: usize = 1;
    while i < entries.len()
        invariant
            1 <= i <= entries.len(),
            es == entry_views(entries@),
            names_sorted(es.take(i as int)),
        decreases entries.len() - i,
    {
        if !bytes_le(entries[i - 1].name.as_slice(), entries[i].name.as_slice()) {
            assert(!lex_le(es[i - 1].name, es[i as int].name));
            return false;
        }
        proof {
            let grown = es.take(i + 1);
            assert forall|a: int, b: int| 0 <= a < b < grown.len() implies lex_le(
                #[trigger] grown[a].name,
                #[trigger] grown[b].name,
            ) by {
                if b == i {
                    if a < i - 1 {
                        assert(lex_le(es.take(i as int)[a].name, es.take(i as int)[i - 1].name));
                        lemma_lex_le_transitive(es[a].name, es[i - 1].name, es[i as int].name);
                    }
                } else {
                    assert(lex_le(es.take(i as int)[a].name, es.take(i as int)[b].name));
                }
            }
        }
        i += 1;
    }
    assert(es.take(i as int) =~= es);
    true
}

/// Where an entry named `name` goes into the sorted `sorted`, looking from
/// `from` on: before the first entry whose name does not come before `name`.
pub open spec fn slot_from(name: Seq<u8>, sorted: Seq<EntryView>, from: int) -> int
    decreases sorted.len() - from,
{
    if from < 0 || from >= sorted.len() {
        sorted.len() as int
    } else if lex_le(name, sorted[from].name) {
        from
    } else {
        slot_from(name, sorted, from + 1)
    }
}

/// `es` sorted by name: each entry, the last one first, is put before the
/// first entry already placed whose name does not come before its own, so
/// entries of one name keep their order.
pub open spec fn sort_by_name(es: Seq<EntryView>) -> Seq<EntryView>
    decreases es.len(),
{
    if es.len() == 0 {
        Seq::empty()
    } else {
        let rest = sort_by_name(es.drop_first());
        rest.insert(slot_from(es.first().name, rest, 0), es.first())
    }
}

/// `slot_from` lies between `from` and the length; every name before it
/// comes strictly before `name`, and the name at it does not.
pub proof fn lemma_slot_from(name: Seq<u8>, sorted: Seq<EntryView>, from: int)
    requires
        0 <= from <= sorted.len(),
    ensures
        from <= slot_from(name, sorted, from) <= sorted.len(),
        slot_from(name, sorted, from) < sorted.len() ==> lex_le(
            name,
            sorted[slot_from(name, sorted, from)].name,
        ),
        forall|i: int| from <= i < slot_from(name, sorted, from) ==> !lex_le(name, sorted[i].name),
    decreases sorted.len() - from,
{
    if from < sorted.len() && !lex_le(name, sorted[from].name) {
        lemma_slot_from(name, sorted, from + 1);
    }
}

/// Putting an entry into its slot keeps the names sorted and adds that one
/// entry to what is held.
pub proof fn lemma_insert_sorted(e: EntryView, sorted: Seq<EntryView>)
    requires
        names_sorted(sorted),
    ensures
        names_sorted(sorted.insert(slot_from(e.name, sorted, 0), e)),
        sorted.insert(slot_from(e.name, sorted, 0), e).to_multiset() == sorted.to_multiset().insert(
            e,
        ),
        sorted.insert(slot_from(e.name, sorted, 0), e).len() == sorted.len() + 1,
{
    let at = slot_from(e.name, sorted, 0);
    lemma_slot_from(e.name, sorted, 0);
    let grown = sorted.insert(at, e);
    assert(grown.len() == sorted.len() + 1);
    assert forall|i: int, j: int| 0 <= i < j < grown.len() implies lex_le(
        #[trigger] grown[i].name,
        #[trigger] grown[j].name,
    ) by {
        if j < at {
            assert(grown[i] == sorted[i] && grown[j] == sorted[j]);
        } else if j == at {
            assert(grown[i] == sorted[i]);
            lemma_lex_le_total(e.name, sorted[i].name);
        } else if i < at {
            assert(grown[i] == sorted[i] && grown[j] == sorted[j - 1]);
            if at <= j - 1 && i < j - 1 {
                assert(lex_le(sorted[i].name, sorted[j - 1].name));
            }
        } else if i == at {
            assert(grown[j] == sorted[j - 1]);
            if at < j - 1 {
                assert(lex_le(sorted[at].name, sorted[j - 1].name));
                lemma_lex_le_transitive(e.name, sorted[at].name, sorted[j - 1].name);
            }
        } else {
            assert(grown[i] == sorted[i - 1] && grown[j] == sorted[j - 1]);
        }
    }
    grown.to_multiset_ensures();
    assert(grown.remove(at) =~= sorted);
    assert(grown[at] == e);
    assert(grown.contains(e));
    assert(grown.to_multiset() =~= sorted.to_multiset().insert(e));
}

/// Sorting gives the same entries, as many times each, with their names in
/// ascending byte order.
pub proof fn lemma_sort_by_name(es: Seq<EntryView>)
    ensures
        names_sorted(sort_by_name(es)),
        sort_by_name(es).to_multiset() == es.to_multiset(),
        sort_by_name(es).len() == es.len(),
    decreases es.len(),
{
    if es.len() == 0 {
        assert(es =~= Seq::<EntryView>::empty());
    } else {
        let rest = sort_by_name(es.drop_first());
        lemma_sort_by_name(es.drop_first());
        lemma_insert_sorted(es.first(), rest);
        let tail = es.drop_first();
        let whole = seq![es.first()] + tail;
        assert(whole =~= es);
        whole.to_multiset_ensures();
        assert(whole.remove(0) =~= tail);
        assert(whole.contains(whole[0]));
        assert(es.to_multiset() =~= tail.to_multiset().insert(es.first()));
        assert(sort_by_name(es).to_multiset() =~= es.to_multiset());
    }
}

/// No two of `es` have the same name.
pub open spec fn names_distinct(es: Seq<EntryView>) -> bool {
    forall|i: int, j: int| 0 <= i < j < es.len() ==> (#[trigger] es[i]).name != (#[trigger] es[j]).name
}

/// Two sorted lists of the same entries, no name twice, are one list.
pub proof fn lemma_sorted_unique(a: Seq<EntryView>, b: Seq<EntryView>)
    requires
        names_sorted(a),
        names_sorted(b),
        names_distinct(a),
        a.to_multiset() == b.to_multiset(),
    ensures
        a == b,
    decreases a.len(),
{
    a.to_multiset_ensures();
    b.to_multiset_ensures();
    assert(a.len() == b.len());
    if a.len() == 0 {
        assert(a =~= b);
    } else {
        assert(a.contains(a[0]));
        assert(b.to_multiset().count(a[0]) > 0);
        assert(b.contains(a[0]));
        let j = choose|j: int| 0 <= j < b.len() && b[j] == a[0];
        assert(b.contains(b[0]));
        assert(a.to_multiset().count(b[0]) > 0);
        assert(a.contains(b[0]));
        let i = choose|i: int| 0 <= i < a.len() && a[i] == b[0];
        if i != 0 && j != 0 {
            assert(lex_le(a[0].name, a[i].name));
            assert(lex_le(b[0].name, b[j].name));
            lemma_lex_le_antisymmetric(a[0].name, b[0].name);
            assert(a[0].name == a[i].name);
        }
        assert(a[0] == b[0]);
        let rest_a = a.drop_first();
        let rest_b = b.drop_first();
        assert(rest_a =~= a.remove(0));
        assert(rest_b =~= b.remove(0));
        assert(rest_a.to_multiset() =~= rest_b.to_multiset());
        assert forall|p: int, q: int| 0 <= p < q < rest_a.len() implies lex_le(
            #[trigger] rest_a[p].name,
            #[trigger] rest_a[q].name,
        ) && rest_a[p].name != rest_a[q].name by {
            assert(rest_a[p] == a[p + 1] && rest_a[q] == a[q + 1]);
        }
        assert forall|p: int, q: int| 0 <= p < q < rest_b.len() implies lex_le(
            #[trigger] rest_b[p].name,
            #[trigger] rest_b[q].name,
        ) by {
            assert(rest_b[p] == b[p + 1] && rest_b[q] == b[q + 1]);
        }
        lemma_sorted_unique(rest_a, rest_b);
        assert(a =~= seq![a[0]] + rest_a);
        assert(b =~= seq![b[0]] + rest_b);
    }
}

/// Entries of which no two have the same name keep that under any other
/// order.
pub proof fn lemma_names_distinct_permuted(a: Seq<EntryView>, b: Seq<EntryView>)
    requires
        names_distinct(a),
        a.to_multiset() == b.to_multiset(),
    ensures
        names_distinct(b),
{
    a.to_multiset_ensures();
    b.to_multiset_ensures();
    assert(a.no_duplicates());
    a.lemma_multiset_has_no_duplicates();
    b.lemma_multiset_has_no_duplicates_conv();
    assert forall|i: int, j: int| 0 <= i < j < b.len() implies (#[trigger] b[i]).name != (
    #[trigger] b[j]).name by {
        assert(b[i] != b[j]);
        assert(b.contains(b[i]) && b.contains(b[j]));
        assert(a.to_multiset().count(b[i]) > 0 && a.to_multiset().count(b[j]) > 0);
        assert(a.contains(b[i]) && a.contains(b[j]));
        let p = choose|p: int| 0 <= p < a.len() && a[p] == b[i];
        let q = choose|q: int| 0 <= q < a.len() && a[q] == b[j];
        assert(p != q);
        if p < q {
            assert(a[p].name != a[q].name);
        } else {
            assert(a[q].name != a[p].name);
        }
    }
}

/// Sorting is determined by the entries alone: where no two of them have
/// the same name, the order in which they come does not show in the result.
pub proof fn lemma_sort_ignores_order(a: Seq<EntryView>, b: Seq<EntryView>)
    requires
        names_distinct(a),
        a.to_multiset() == b.to_multiset(),
    ensures
        sort_by_name(a) == sort_by_name(b),
{
    lemma_sort_by_name(a);
    lemma_sort_by_name(b);
    lemma_names_distinct_permuted(a, sort_by_name(a));
    lemma_sorted_unique(sort_by_name(a), sort_by_name(b));
}

/// Sorts `entries` by name in byte order; entries of one name keep their order.
pub fn sort_entries(entries: Vec<TreeEntry>) -> (sorted: Vec<TreeEntry>)
    ensures
        entry_views(sorted@) == sort_by_name(entry_views(entries@)),
        names_sorted(entry_views(sorted@)),
        entry_views(sorted@).to_multiset() == entry_views(entries@).to_multiset(),
{
    let ghost all = entry_views(entries@);
    let mut input = entries;
    let mut sorted: Vec<TreeEntry> = Vec::new();
    assert(all.skip(all.len() as int) =~= Seq::<EntryView>::empty());
    assert(all.take(all.len() as int) =~= all);
    while input.len() > 0
        invariant
            input@.len() <= all.len(),
            entry_views(input@) == all.take(input@.len() as int),
            entry_views(sorted@) == sort_by_name(all.skip(input@.len() as int)),
        decreases input@.len(),
    {
        let ghost before = input@;
        let ghost placed = entry_views(sorted@);
        let entry = match input.pop() {
            Some(entry) => entry,
            None => {
                assert(false);
                return sorted;
            },
        };
        let ghost k = input@.len() as int;
        assert(entry@ == all[k]) by {
            assert(entry_views(before)[k] == before[k]@);
        }
        assert(entry_views(input@) =~= all.take(k));
        let mut at: usize = 0;
        while at < sorted.len() && !bytes_le(entry.name.as_slice(), sorted[at].name.as_slice())
            invariant
                at <= sorted@.len(),
                placed == entry_views(sorted@),
                slot_from(entry@.name, placed, 0) == slot_from(entry@.name, placed, at as int),
            decreases sorted@.len() - at,
        {
            at += 1;
        }
        assert(at == slot_from(entry@.name, placed, 0));
        sorted.insert(at, entry);
        proof {
            assert(entry_views(sorted@) =~= placed.insert(at as int, all[k]));
            assert(all.skip(k).drop_first() =~= all.skip(k + 1));
            assert(all.skip(k).first() == all[k]);
        }
    }
    proof {
        assert(all.skip(0) =~= all);
        lemma_sort_by_name(all);
    }
    sorted
}

/// One record read out of a tree payload.
#[derive(Debug, Clone)]
pub struct TreeRecord {
    /// The bytes of the mode field, as they stand in the payload.
    pub mode: Vec<u8>,
    /// The name.
    pub name: Vec<u8>,
    /// The 20 raw bytes of the digest.
    pub sha: [u8; 20],
}

/// A record as a value.
pub struct RecordView {
    pub mode: Seq<u8>,
    pub name: Seq<u8>,
    pub sha: Seq<u8>,
}

impl View for TreeRecord {
    type V = RecordView;

    open spec fn view(&self) -> RecordView {
        RecordView { mode: self.mode@, name: self.name@, sha: self.sha@ }
    }
}

/// The records of a vector as values.
pub open spec fn record_views(records: Seq<TreeRecord>) -> Seq<RecordView> {
    records.map_values(|r: TreeRecord| r@)
}

/// The record that an entry is written as.
pub open spec fn record_of(e: EntryView) -> RecordView {
    RecordView { mode: e.mode.digits(), name: e.name, sha: hex_decode(e.sha_hex) }
}

/// `done` followed by what the rest of the payload decodes to.
pub open spec fn after(done: Seq<RecordView>, rest: Result<Seq<RecordView>, TreeFault>) -> Result<
    Seq<RecordView>,
    TreeFault,
> {
    match rest {
        Ok(more) => Ok(done + more),
        Err(fault) => Err(fault),
    }
}

/// The records of a tree payload. Each record runs to the first space (the
/// mode), then to the first NUL (the name), then over 20 bytes (the digest);
/// the payload is read until nothing is left. The first record that cannot
/// be read decides the fault.
pub open spec fn decode_records(payload: Seq<u8>) -> Result<Seq<RecordView>, TreeFault>
    decreases payload.len(),
    via decode_records_decreases
{
    if payload.len() == 0 {
        Ok(Seq::empty())
    } else {
        let space = position_from(payload, 32u8, 0);
        let nul = position_from(payload, 0u8, space + 1);
        if space >= payload.len() {
            Err(TreeFault::MissingSpace)
        } else if nul >= payload.len() {
            Err(TreeFault::MissingNul)
        } else if payload.len() - nul < 21 {
            Err(TreeFault::TruncatedDigest)
        } else {
            after(
                seq![
                    RecordView {
                        mode: payload.subrange(0, space),
                        name: payload.subrange(space + 1, nul),
                        sha: payload.subrange(nul + 1, nul + 21),
                    },
                ],
                decode_records(payload.skip(nul + 21)),
            )
        }
    }
}

#[via_fn]
proof fn decode_records_decreases(payload: Seq<u8>) {
    if payload.len() != 0 {
        lemma_position_from(payload, 32u8, 0);
        let space = position_from(payload, 32u8, 0);
        if space < payload.len() {
            lemma_position_from(payload, 0u8, space + 1);
        }
    }
}

/// The records of a tree object: `NotATree` where `raw` has no tree header,
/// `MalformedTree` where its payload breaks the record framing.
pub open spec fn tree_records(raw: Seq<u8>) -> Result<Seq<RecordView>, StoreError> {
    match payload_of(raw, Kind::Tree) {
        None => Err(StoreError::NotATree),
        Some(payload) => match decode_records(payload) {
            Ok(records) => Ok(records),
            Err(fault) => Err(StoreError::MalformedTree(fault)),
        },
    }
}

/// Copies the 20 bytes of `raw`.
fn digest_array(raw: &[u8]) -> (out: [u8; 20])
    requires
        raw@.len() == 20,
    ensures
        out@ == raw@,
{
    let mut out: [u8; 20] = [0u8; 20];
    let mut i: usize = 0;
    while i < 20
        invariant
            i <= 20,
            raw@.len() == 20,
            forall|j: int| 0 <= j < i ==> #[trigger] out@[j] == raw@[j],
        decreases 20 - i,
    {
        out[i] = raw[i];
        i += 1;
    }
    assert(out@ =~= raw@);
    out
}

/// Reads the records of the tree payload `payload`.
pub fn decode_entries(payload: &[u8]) -> (out: Result<Vec<TreeRecord>, TreeFault>)
    ensures
        match out {
            Ok(records) => decode_records(payload@) == Ok::<Seq<RecordView>, TreeFault>(
                record_views(records@),
            ),
            Err(fault) => decode_records(payload@) == Err::<Seq<RecordView>, TreeFault>(fault),
        },
{
    let mut rest = payload;
    let mut records: Vec<TreeRecord> = Vec::new();
    assert(record_views(records@) =~= Seq::<RecordView>::empty());
    assert(decode_records(payload@) == after(record_views(records@), decode_records(rest@))) by {
        lemma_after_nothing(decode_records(payload@));
    }
    while rest.len() > 0
        invariant
            decode_records(payload@) == after(record_views(records@), decode_records(rest@)),
        decreases rest@.len(),
    {
        let space = find_byte(rest, 32u8, 0);
        if space == rest.len() {
            return Err(TreeFault::MissingSpace);
        }
        let nul = find_byte(rest, 0u8, space + 1);
        if nul == rest.len() {
            return Err(TreeFault::MissingNul);
        }
        if rest.len() - nul < 21 {
            return Err(TreeFault::TruncatedDigest);
        }
        let record = TreeRecord {
            mode: slice_to_vec(slice_subrange(rest, 0, space)),
            name: slice_to_vec(slice_subrange(rest, space + 1, nul)),
            sha: digest_array(slice_subrange(rest, nul + 1, nul + 21)),
        };
        let ghost done = record_views(records@);
        let ghost tail = decode_records(rest@.skip(nul + 21));
        proof {
            assert(decode_records(rest@) == after(seq![record@], tail));
            lemma_after_after(done, record@, tail);
        }
        records.push(record);
        assert(record_views(records@) =~= done.push(record@));
        let next = slice_subrange(rest, nul + 21, rest.len());
        assert(next@ =~= rest@.skip(nul + 21));
        rest = next;
    }
    proof {
        assert(decode_records(rest@) == Ok::<Seq<RecordView>, TreeFault>(Seq::empty()));
        assert(record_views(records@) + Seq::<RecordView>::empty() =~= record_views(records@));
    }
    Ok(records)
}

/// Nothing followed by a result is that result.
pub proof fn lemma_after_nothing(rest: Result<Seq<RecordView>, TreeFault>)
    ensures
        after(Seq::empty(), rest) == rest,
{
    match rest {
        Ok(more) => {
            assert(Seq::<RecordView>::empty() + more =~= more);
        },
        Err(_) => {},
    }
}

/// A record may be counted with what is done or with what follows.
pub proof fn lemma_after_after(
    done: Seq<RecordView>,
    record: RecordView,
    rest: Result<Seq<RecordView>, TreeFault>,
)
    ensures
        after(done, after(seq![record], rest)) == after(done.push(record), rest),
{
    match rest {
        Ok(more) => {
            assert(done + (seq![record] + more) =~= done.push(record) + more);
        },
        Err(_) => {},
    }
}

/// Reads the records of the tree object `raw`: `NotATree` where it has no
/// tree header, `MalformedTree` where a record cannot be read.
pub fn decode_tree(raw: &[u8]) -> (out: Result<Vec<TreeRecord>, StoreError>)
    ensures
        match out {
            Ok(records) => tree_records(raw@) == Ok::<Seq<RecordView>, StoreError>(
                record_views(records@),
            ),
            Err(e) => tree_records(raw@) == Err::<Seq<RecordView>, StoreError>(e),
        },
{
    let start = match payload_start(raw, Kind::Tree) {
        Some(at) => at,
        None => {
            return Err(StoreError::NotATree);
        },
    };
    let payload = slice_subrange(raw, start, raw.len());
    assert(payload@ =~= raw@.skip(start as int));
    match decode_entries(payload) {
        Ok(records) => Ok(records),
        Err(fault) => Err(StoreError::MalformedTree(fault)),
    }
}

/// The names of `records`, each followed by a newline.
pub open spec fn name_lines(records: Seq<RecordView>) -> Seq<u8>
    decreases records.len(),
{
    if records.len() == 0 {
        Seq::empty()
    } else {
        name_lines(records.drop_last()) + records.last().name + seq![10u8]
    }
}

/// The listing of a tree object: the name of each entry in the order of
/// the tree, one to a line. `NotATree` where `raw` has no tree header,
/// `MalformedTree` where a record cannot be read.
pub open spec fn listing_of(raw: Seq<u8>) -> Result<Seq<u8>, StoreError> {
    match tree_records(raw) {
        Ok(records) => Ok(name_lines(records)),
        Err(e) => Err(e),
    }
}

/// Lists the names in the tree object `raw`, one to a line.
pub fn list_names(raw: &[u8]) -> (out: Result<Vec<u8>, StoreError>)
    ensures
        match out {
            Ok(listing) => listing_of(raw@) == Ok::<Seq<u8>, StoreError>(listing@),
            Err(e) => listing_of(raw@) == Err::<Seq<u8>, StoreError>(e),
        },
{
    let records = match decode_tree(raw) {
        Ok(records) => records,
        Err(e) => {
            return Err(e);
        },
    };
    let ghost all = record_views(records@);
    let mut listing: Vec<u8> = Vec::new();
    let mut i: usize = 0;
    assert(all.take(0) =~= Seq::<RecordView>::empty());
    while i < records.len()
        invariant
            i <= records.len(),
            all == record_views(records@),
            listing@ == name_lines(all.take(i as int)),
        decreases records.len() - i,
    {
        append_bytes(&mut listing, records[i].name.as_slice());
        listing.push(10u8);
        proof {
            let grown = all.take(i + 1);
            assert(grown.drop_last() =~= all.take(i as int));
            assert(grown.last() == all[i as int]);
            assert(listing@ =~= name_lines(grown));
        }
        i += 1;
    }
    assert(all.take(i as int) =~= all);
    Ok(listing)
}

/// What listing the tree with digest `sha` gives, given whether the
/// object-database directory is there and what the file for `sha` holds, if
/// there is one: the failure of the read, if it fails, else the listing of
/// what was read.
pub open spec fn ls_tree_outcome(
    sha: Seq<char>,
    objects_dir_present: bool,
    stored: Option<Seq<u8>>,
) -> Result<Seq<u8>, StoreError> {
    match read_outcome(sha, objects_dir_present, stored) {
        Ok(raw) => listing_of(raw),
        Err(e) => Err(e),
    }
}

/// Lists the names in the tree with digest `sha`, given whether the
/// object-database directory is there and what the file for `sha` holds, if
/// there is one. In this order: `InvalidDigest` where `sha` is not 40
/// hexadecimal characters, `NotARepository` without the directory,
/// `NotFound` where there is no file, `CorruptObject` where the file does
/// not decompress, `NotATree` where the object has no tree header,
/// `MalformedTree` where a record cannot be read; else the names, each
/// followed by a newline.
pub fn ls_tree_name_only(sha: &str, objects_dir_present: bool, stored: Option<&[u8]>) -> (out:
    Result<Vec<u8>, StoreError>)
    ensures
        match out {
            Ok(listing) => ls_tree_outcome(sha@, objects_dir_present, stored_view(stored)) == Ok::<
                Seq<u8>,
                StoreError,
            >(listing@),
            Err(e) => ls_tree_outcome(sha@, objects_dir_present, stored_view(stored)) == Err::<
                Seq<u8>,
                StoreError,
            >(e),
        },
{
    match read_and_decompress_object(sha, objects_dir_present, stored) {
        Ok(raw) => list_names(raw.as_slice()),
        Err(e) => Err(e),
    }
}

/// The record of an entry whose digest is written in lower case holds that
/// digest: its 20 bytes, written out again, are the text of the entry.
pub proof fn lemma_record_digest_text(e: EntryView)
    requires
        is_hex_sha(e.sha_hex),
        is_lower_hex(e.sha_hex),
    ensures
        record_of(e).sha.len() == 20,
        hex_lower(record_of(e).sha) == e.sha_hex,
{
    lemma_hex_text_round_trip(e.sha_hex);
}

/// Writing well-formed entries and reading the payload back gives the same
/// modes, names and digests in the same order.
pub proof fn lemma_decode_encoded(es: Seq<EntryView>)
    requires
        forall|i: int| 0 <= i < es.len() ==> well_formed(#[trigger] es[i]),
    ensures
        decode_records(entries_bytes(es)) == Ok::<Seq<RecordView>, TreeFault>(
            es.map_values(|e: EntryView| record_of(e)),
        ),
        tree_records(tree_object(es)) == Ok::<Seq<RecordView>, StoreError>(
            es.map_values(|e: EntryView| record_of(e)),
        ),
    decreases es.len(),
{
    let records = es.map_values(|e: EntryView| record_of(e));
    if es.len() == 0 {
        assert(records =~= Seq::<RecordView>::empty());
    } else {
        let e = es.first();
        let tail = es.drop_first();
        let payload = entries_bytes(es);
        let digits = e.mode.digits();
        let space = digits.len() as int;
        let nul = space + 1 + e.name.len();
        assert(well_formed(es[0]));
        lemma_mode_digits(e.mode);
        assert(hex_decode(e.sha_hex).len() == 20);
        assert(entry_bytes(e).len() == nul + 21);
        assert forall|j: int| 0 <= j < space implies payload[j] != 32 by {
            assert(payload[j] == digits[j]);
        }
        assert(payload[space] == 32);
        lemma_position_from_unique(payload, 32u8, 0, space);
        assert forall|j: int| space + 1 <= j < nul implies payload[j] != 0 by {
            assert(payload[j] == e.name[j - space - 1]);
        }
        assert(payload[nul] == 0);
        lemma_position_from_unique(payload, 0u8, space + 1, nul);
        assert(payload.skip(nul + 21) =~= entries_bytes(tail));
        assert(payload.subrange(0, space) =~= digits);
        assert(payload.subrange(space + 1, nul) =~= e.name);
        assert(payload.subrange(nul + 1, nul + 21) =~= hex_decode(e.sha_hex));
        assert forall|i: int| 0 <= i < tail.len() implies well_formed(#[trigger] tail[i]) by {
            assert(tail[i] == es[i + 1]);
        }
        lemma_decode_encoded(tail);
        assert(seq![record_of(e)] + tail.map_values(|e: EntryView| record_of(e)) =~= records);
    }
    lemma_payload_of_framed(Kind::Tree, entries_bytes(es), Kind::Tree);
}

} // verus!
