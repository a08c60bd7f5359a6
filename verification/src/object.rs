//! Object framing: every object is `<kind> <length>\0<payload>`, and its
//! digest is taken over the whole framed sequence.

use vstd::prelude::*;
use vstd::string::StringExecFns;
use vstd::utf8::encode_utf8;
use crate::bytes::{
    append_bytes, ascii, decimal, find_byte, has_prefix, lemma_position_from_unique,
    position_from, push_ascii, push_decimal,
};
use crate::error::StoreError;
use crate::hasher::{digest_hex, sha1_hex};
use crate::hex::{is_hex_sha, is_valid_hex_sha};

verus! {

/// The three kinds of object.
#[derive(Debug, Clone, Copy, PartialEq, Eq, Structural)]
pub enum Kind {
    Blob,
    Tree,
    Commit,
}

impl Kind {
    /// The word that names this kind in an object's header.
    pub open spec fn label(self) -> Seq<char> {
        match self {
            Kind::Blob => "blob"@,
            Kind::Tree => "tree"@,
            Kind::Commit => "commit"@,
        }
    }

    /// The start of every header of this kind: the label and a space.
    pub open spec fn tag(self) -> Seq<u8> {
        ascii(self.label()).push(32u8)
    }

    /// Appends the label and the space that follows it.
    pub fn push_tag(self, buf: &mut Vec<u8>)
        ensures
            final(buf)@ == old(buf)@ + self.tag(),
    {
        proof {
            reveal_strlit("blob");
            reveal_strlit("tree");
            reveal_strlit("commit");
        }
        match self {
            Kind::Blob => push_ascii(buf, "blob"),
            Kind::Tree => push_ascii(buf, "tree"),
            Kind::Commit => push_ascii(buf, "commit"),
        }
        buf.push(32u8);
        assert(buf@ =~= old(buf)@ + self.tag());
    }
}

/// The header of an object of kind `kind` with a payload of `size` bytes.
pub open spec fn header(kind: Kind, size: nat) -> Seq<u8> {
    kind.tag() + decimal(size) + seq![0u8]
}

/// The object of kind `kind` that holds `payload`.
pub open spec fn framed(kind: Kind, payload: Seq<u8>) -> Seq<u8> {
    header(kind, payload.len()) + payload
}

/// The payload of `raw` read as an object of kind `kind`: what follows the
/// first NUL byte, provided that the bytes before it start with the kind's
/// label and a space. The declared length is not looked at.
pub open spec fn payload_of(raw: Seq<u8>, kind: Kind) -> Option<Seq<u8>> {
    let nul = position_from(raw, 0u8, 0);
    if nul < raw.len() && kind.tag().is_prefix_of(raw.take(nul)) {
        Some(raw.skip(nul + 1))
    } else {
        None
    }
}

/// Frames `payload` as an object of kind `kind`.
pub fn frame(kind: Kind, payload: &[u8]) -> (store: Vec<u8>)
    ensures
        store@ == framed(kind, payload@),
{
    let mut store: Vec<u8> = Vec::new();
    kind.push_tag(&mut store);
    push_decimal(&mut store, payload.len());
    store.push(0u8);
    append_bytes(&mut store, payload);
    assert(store@ =~= framed(kind, payload@));
    store
}

/// Where the payload of `raw` starts when `raw` is read as an object of kind
/// `kind`, or `None` where `raw` has no header of that kind.
pub fn payload_start(raw: &[u8], kind: Kind) -> (start: Option<usize>)
    ensures
        match start {
            Some(at) => at <= raw@.len() && payload_of(raw@, kind) == Some(raw@.skip(at as int)),
            None => payload_of(raw@, kind) is None,
        },
{
    let nul = find_byte(raw, 0u8, 0);
    if nul == raw.len() {
        return None;
    }
    let mut tag: Vec<u8> = Vec::new();
    kind.push_tag(&mut tag);
    assert(tag@ =~= kind.tag());
    let head = vstd::slice::slice_subrange(raw, 0, nul);
    assert(head@ =~= raw@.take(nul as int));
    if has_prefix(head, tag.as_slice()) {
        Some(nul + 1)
    } else {
        None
    }
}

/// Every digit of a decimal number is an ASCII digit, and there is at least one.
pub proof fn lemma_decimal_digits(n: nat)
    ensures
        decimal(n).len() >= 1,
        forall|i: int| 0 <= i < decimal(n).len() ==> 48 <= #[trigger] decimal(n)[i] <= 57,
    decreases n,
{
    if n >= 10 {
        lemma_decimal_digits(n / 10);
    }
}

/// No byte of a kind's tag is NUL, and the tags of two kinds differ in their
/// first byte.
pub proof fn lemma_tags(kind: Kind, other: Kind)
    ensures
        kind.tag().len() >= 5,
        forall|i: int| 0 <= i < kind.tag().len() ==> #[trigger] kind.tag()[i] != 0,
        kind != other ==> kind.tag()[0] != other.tag()[0],
{
    reveal_strlit("blob");
    reveal_strlit("tree");
    reveal_strlit("commit");
}

/// Reading a framed object as its own kind gives the payload back, and
/// reading it as another kind gives nothing.
pub proof fn lemma_payload_of_framed(kind: Kind, payload: Seq<u8>, asked: Kind)
    ensures
        payload_of(framed(kind, payload), asked) == if asked == kind {
            Some(payload)
        } else {
            None
        },
{
    let raw = framed(kind, payload);
    let size = decimal(payload.len());
    let nul: int = (kind.tag().len() + size.len()) as int;
    lemma_tags(kind, asked);
    lemma_decimal_digits(payload.len());
    assert(raw[nul] == 0);
    assert forall|j: int| 0 <= j < nul implies raw[j] != 0 by {
        if j < kind.tag().len() {
            assert(raw[j] == kind.tag()[j]);
        } else {
            assert(raw[j] == size[j - kind.tag().len()]);
        }
    }
    lemma_position_from_unique(raw, 0u8, 0, nul);
    assert(raw.skip(nul + 1) =~= payload);
    if asked == kind {
        assert(kind.tag() =~= raw.take(nul).subrange(0, kind.tag().len() as int));
    } else {
        assert(raw.take(nul)[0] == kind.tag()[0]);
        assert(asked.tag()[0] == raw.take(nul).subrange(0, asked.tag().len() as int)[0]
            || !asked.tag().is_prefix_of(raw.take(nul)));
    }
}

/// The blob object that holds `content`: `blob <length>\0<content>`.
pub fn encode_blob(content: &[u8]) -> (store: Vec<u8>)
    ensures
        store@ == framed(Kind::Blob, content@),
{
    frame(Kind::Blob, content)
}

/// The content of a blob object; `WrongKind` where `raw` has no blob header.
pub fn decode_blob(raw: &[u8]) -> (out: Result<Vec<u8>, StoreError>)
    ensures
        match out {
            Ok(content) => payload_of(raw@, Kind::Blob) == Some(content@),
            Err(e) => payload_of(raw@, Kind::Blob) is None && e == StoreError::WrongKind,
        },
{
    match payload_start(raw, Kind::Blob) {
        Some(at) => {
            let rest = vstd::slice::slice_subrange(raw, at, raw.len());
            assert(rest@ =~= raw@.skip(at as int));
            Ok(vstd::slice::slice_to_vec(rest))
        },
        None => Err(StoreError::WrongKind),
    }
}

/// An object that is ready to be stored: its framed bytes, and the digest
/// under which the database keeps them.
pub struct PendingObject {
    /// The digest of `store`, in text form.
    pub sha: String,
    /// The framed bytes of the object.
    pub store: Vec<u8>,
}

impl PendingObject {
    /// The digest is the one of the framed bytes.
    pub open spec fn wf(self) -> bool {
        self.sha@ == digest_hex(self.store@)
    }

    /// Takes the digest of `store`.
    pub fn new(store: Vec<u8>) -> (object: PendingObject)
        ensures
            object.wf(),
            object.store@ == store@,
    {
        let sha = sha1_hex(store.as_slice());
        PendingObject { sha, store }
    }
}

/// The blob object for `content` and its digest.
pub fn write_blob_from_bytes(content: &[u8]) -> (object: PendingObject)
    ensures
        object.store@ == framed(Kind::Blob, content@),
        object.sha@ == digest_hex(framed(Kind::Blob, content@)),
{
    PendingObject::new(encode_blob(content))
}

/// Who made a commit, and when.
pub struct Identity {
    pub name: String,
    pub email: String,
    /// Seconds since the epoch and a time zone, as in `1234567890 +0000`.
    pub timestamp: String,
}

impl Identity {
    /// The fixed identity and timestamp that commits carry where no other is
    /// given.
    pub fn placeholder() -> (who: Identity)
        ensures
            who.name@ == "John Doe"@,
            who.email@ == "john@example.com"@,
            who.timestamp@ == "1234567890 +0000"@,
    {
        Identity {
            name: String::from_str("John Doe"),
            email: String::from_str("john@example.com"),
            timestamp: String::from_str("1234567890 +0000"),
        }
    }

    /// `<name> <<email>> <timestamp>`, as it follows `author` or `committer`.
    pub open spec fn stamp(self) -> Seq<char> {
        self.name@ + " <"@ + self.email@ + "> "@ + self.timestamp@
    }
}

/// The stamp of the placeholder identity.
pub open spec fn placeholder_stamp() -> Seq<char> {
    "John Doe"@ + " <"@ + "john@example.com"@ + "> "@ + "1234567890 +0000"@
}

/// The text of a commit: the tree, the one parent, author and committer
/// with the same stamp, a blank line, then the message and a closing newline.
pub open spec fn commit_text(
    tree: Seq<char>,
    parent: Seq<char>,
    stamp: Seq<char>,
    message: Seq<char>,
) -> Seq<char> {
    "tree "@ + tree + "\n"@ + "parent "@ + parent + "\n"@ + "author "@ + stamp + "\n"@
        + "committer "@ + stamp + "\n"@ + "\n"@ + message + "\n"@
}

/// The commit object for a tree, a parent, a stamp and a message: the text
/// in UTF-8, framed.
pub open spec fn commit_object(
    tree: Seq<char>,
    parent: Seq<char>,
    stamp: Seq<char>,
    message: Seq<char>,
) -> Seq<u8> {
    framed(Kind::Commit, encode_utf8(commit_text(tree, parent, stamp, message)))
}

/// Appends `<name> <<email>> <timestamp>` to `text`.
fn push_stamp(text: &mut String, who: &Identity)
    ensures
        final(text)@ == old(text)@ + who.stamp(),
{
    text.append(who.name.as_str());
    text.append(" <");
    text.append(who.email.as_str());
    text.append("> ");
    text.append(who.timestamp.as_str());
    assert(text@ =~= old(text)@ + who.stamp());
}

/// The commit object that records `tree_sha` with the parent `parent_sha`;
/// `InvalidDigest` where either is not a digest in text form.
pub fn encode_commit(tree_sha: &str, parent_sha: &str, who: &Identity, message: &str) -> (out:
    Result<Vec<u8>, StoreError>)
    ensures
        match out {
            Ok(store) => is_hex_sha(tree_sha@) && is_hex_sha(parent_sha@) && store@
                == commit_object(tree_sha@, parent_sha@, who.stamp(), message@),
            Err(e) => !(is_hex_sha(tree_sha@) && is_hex_sha(parent_sha@)) && e
                == StoreError::InvalidDigest,
        },
{
    if !is_valid_hex_sha(tree_sha) {
        return Err(StoreError::InvalidDigest);
    }
    if !is_valid_hex_sha(parent_sha) {
        return Err(StoreError::InvalidDigest);
    }
    let mut text = String::new();
    text.append("tree ");
    text.append(tree_sha);
    text.append("\n");
    text.append("parent ");
    text.append(parent_sha);
    text.append("\n");
    text.append("author ");
    push_stamp(&mut text, who);
    text.append("\n");
    text.append("committer ");
    push_stamp(&mut text, who);
    text.append("\n");
    text.append("\n");
    text.append(message);
    text.append("\n");
    assert(text@ =~= commit_text(tree_sha@, parent_sha@, who.stamp(), message@));
    Ok(frame(Kind::Commit, text.as_str().as_bytes()))
}

/// The commit object for `tree_sha`, `parent_sha` and `message` under the
/// placeholder identity, and its digest; `InvalidDigest` where either digest
/// is not 40 hexadecimal characters.
pub fn write_commit_object(tree_sha: &str, parent_sha: &str, message: &str) -> (out: Result<
    PendingObject,
    StoreError,
>)
    ensures
        match out {
            Ok(object) => is_hex_sha(tree_sha@) && is_hex_sha(parent_sha@) && object.store@
                == commit_object(tree_sha@, parent_sha@, placeholder_stamp(), message@)
                && object.sha@ == digest_hex(object.store@),
            Err(e) => !(is_hex_sha(tree_sha@) && is_hex_sha(parent_sha@)) && e
                == StoreError::InvalidDigest,
        },
{
    let who = Identity::placeholder();
    match encode_commit(tree_sha, parent_sha, &who, message) {
        Ok(store) => Ok(PendingObject::new(store)),
        Err(e) => Err(e),
    }
}

} // verus!
