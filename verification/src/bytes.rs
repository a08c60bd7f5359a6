//! Byte sequences: ASCII text, searching, decimal numbers and the
//! lexicographic order.

use vstd::prelude::*;
use vstd::string::is_ascii_spec_bytes;
use vstd::utf8::is_ascii_chars;

verus! {

/// The bytes of an ASCII text, one per character.
pub open spec fn ascii(text: Seq<char>) -> Seq<u8> {
    Seq::new(text.len(), |i: int| text[i] as u8)
}

/// Appends `src` to `buf`.
pub fn append_bytes(buf: &mut Vec<u8>, src: &[u8])
    ensures
        final(buf)@ == old(buf)@ + src@,
{
    let n = src.len();
    let mut i: usize = 0;
    while i < n
        invariant
            n == src@.len(),
            i <= n,
            buf@ == old(buf)@ + src@.take(i as int),
        decreases n - i,
    {
        buf.push(src[i]);
        i += 1;
        assert(src@.take(i as int) =~= src@.take(i - 1).push(src@[i - 1]));
    }
    assert(src@.take(n as int) =~= src@);
}

/// Appends the bytes of an ASCII text to `buf`.
pub fn push_ascii(buf: &mut Vec<u8>, text: &str)
    requires
        is_ascii_chars(text@),
    ensures
        final(buf)@ == old(buf)@ + ascii(text@),
{
    let raw = text.as_bytes();
    proof {
        is_ascii_spec_bytes(text);
        assert(raw@ =~= ascii(text@));
    }
    append_bytes(buf, raw);
}

/// The least index at or after `from` at which `s` holds `b`, or the length
/// of `s` where there is none.
pub open spec fn position_from(s: Seq<u8>, b: u8, from: int) -> int
    decreases s.len() - from,
{
    if from < 0 || from >= s.len() {
        s.len() as int
    } else if s[from] == b {
        from
    } else {
        position_from(s, b, from + 1)
    }
}

/// `position_from` is the first occurrence: it lies between `from` and the
/// length, `b` stands there when it is an index, and nowhere before it.
pub proof fn lemma_position_from(s: Seq<u8>, b: u8, from: int)
    requires
        0 <= from <= s.len(),
    ensures
        from <= position_from(s, b, from) <= s.len(),
        position_from(s, b, from) < s.len() ==> s[position_from(s, b, from)] == b,
        forall|j: int| from <= j < position_from(s, b, from) ==> s[j] != b,
    decreases s.len() - from,
{
    if from < s.len() && s[from] != b {
        lemma_position_from(s, b, from + 1);
    }
}

/// Any index that holds `b` with none before it is the one `position_from` gives.
pub proof fn lemma_position_from_unique(s: Seq<u8>, b: u8, from: int, p: int)
    requires
        0 <= from <= p <= s.len(),
        p < s.len() ==> s[p] == b,
        forall|j: int| from <= j < p ==> s[j] != b,
    ensures
        position_from(s, b, from) == p,
    decreases p - from,
{
    if from < p {
        lemma_position_from_unique(s, b, from + 1, p);
    }
}

/// Finds the first `b` in `s` at or after `from`; the length of `s` says that
/// there is none.
pub fn find_byte(s: &[u8], b: u8, from: usize) -> (p: usize)
    requires
        from <= s@.len(),
    ensures
        p == position_from(s@, b, from as int),
        from <= p <= s@.len(),
{
    let n = s.len();
    let mut i: usize = from;
    while i < n && s[i] != b
        invariant
            n == s@.len(),
            from <= i <= n,
            position_from(s@, b, from as int) == position_from(s@, b, i as int),
        decreases n - i,
    {
        i += 1;
    }
    i
}

/// Whether `a` and `b` hold the same bytes.
pub fn same_bytes(a: &[u8], b: &[u8]) -> (same: bool)
    ensures
        same == (a@ == b@),
{
    if a.len() != b.len() {
        return false;
    }
    let n = a.len();
    let mut i: usize = 0;
    while i < n
        invariant
            n == a@.len(),
            n == b@.len(),
            i <= n,
            forall|j: int| 0 <= j < i ==> a@[j] == b@[j],
        decreases n - i,
    {
        if a[i] != b[i] {
            return false;
        }
        i += 1;
    }
    assert(a@ =~= b@);
    true
}

/// Whether `s` starts with `prefix`.
pub fn has_prefix(s: &[u8], prefix: &[u8]) -> (yes: bool)
    ensures
        yes == prefix@.is_prefix_of(s@),
{
    let n = prefix.len();
    if n > s.len() {
        return false;
    }
    let mut i: usize = 0;
    while i < n
        invariant
            n == prefix@.len(),
            n <= s@.len(),
            i <= n,
            forall|j: int| 0 <= j < i ==> prefix@[j] == s@[j],
        decreases n - i,
    {
        if s[i] != prefix[i] {
            assert(s@.subrange(0, n as int)[i as int] != prefix@[i as int]);
            return false;
        }
        i += 1;
    }
    assert(prefix@ =~= s@.subrange(0, n as int));
    true
}

/// The decimal digits of `n` in ASCII, without leading zeros.
pub open spec fn decimal(n: nat) -> Seq<u8>
    decreases n,
{
    if n < 10 {
        seq![(48 + n) as u8]
    } else {
        decimal(n / 10).push((48 + n % 10) as u8)
    }
}

/// Appends the decimal digits of `n` to `buf`.
pub fn push_decimal(buf: &mut Vec<u8>, n: usize)
    ensures
        final(buf)@ == old(buf)@ + decimal(n as nat),
{
    let mut low_first: Vec<u8> = Vec::new();
    let mut m: usize = n;
    while m >= 10
        invariant
            decimal(n as nat) == decimal(m as nat) + low_first@.reverse(),
        decreases m,
    {
        let d: u8 = 48u8 + (m % 10) as u8;
        let ghost before = low_first@;
        low_first.push(d);
        assert(low_first@.reverse() =~= seq![d] + before.reverse());
        assert(decimal(m as nat) =~= decimal((m / 10) as nat) + seq![d]);
        m = m / 10;
    }
    let d: u8 = 48u8 + m as u8;
    let ghost before = low_first@;
    low_first.push(d);
    assert(low_first@.reverse() =~= seq![d] + before.reverse());
    assert(low_first@.reverse() =~= decimal(n as nat));
    let mut k: usize = low_first.len();
    while k > 0
        invariant
            k <= low_first@.len(),
            low_first@.reverse() == decimal(n as nat),
            buf@ == old(buf)@ + low_first@.reverse().take(low_first@.len() - k),
        decreases k,
    {
        k -= 1;
        buf.push(low_first[k]);
        assert(low_first@.reverse().take(low_first@.len() - k) =~= low_first@.reverse().take(
            low_first@.len() - k - 1,
        ).push(low_first@[k as int]));
    }
    assert(low_first@.reverse().take(low_first@.len() as int) =~= low_first@.reverse());
}

/// The lexicographic order on byte strings: the first differing byte decides,
/// and a proper prefix comes first.
pub open spec fn lex_le(a: Seq<u8>, b: Seq<u8>) -> bool
    decreases a.len(),
{
    if a.len() == 0 {
        true
    } else if b.len() == 0 {
        false
    } else if a[0] != b[0] {
        a[0] < b[0]
    } else {
        lex_le(a.drop_first(), b.drop_first())
    }
}

/// Of two byte strings one is at most the other.
pub proof fn lemma_lex_le_total(a: Seq<u8>, b: Seq<u8>)
    ensures
        lex_le(a, b) || lex_le(b, a),
    decreases a.len(),
{
    if a.len() > 0 && b.len() > 0 && a[0] == b[0] {
        lemma_lex_le_total(a.drop_first(), b.drop_first());
    }
}

/// The order is transitive.
pub proof fn lemma_lex_le_transitive(a: Seq<u8>, b: Seq<u8>, c: Seq<u8>)
    requires
        lex_le(a, b),
        lex_le(b, c),
    ensures
        lex_le(a, c),
    decreases a.len(),
{
    if a.len() > 0 && b.len() > 0 && c.len() > 0 && a[0] == b[0] && b[0] == c[0] {
        lemma_lex_le_transitive(a.drop_first(), b.drop_first(), c.drop_first());
    }
}

/// Two byte strings that are each at most the other are equal.
pub proof fn lemma_lex_le_antisymmetric(a: Seq<u8>, b: Seq<u8>)
    requires
        lex_le(a, b),
        lex_le(b, a),
    ensures
        a == b,
    decreases a.len(),
{
    if a.len() > 0 && b.len() > 0 {
        lemma_lex_le_antisymmetric(a.drop_first(), b.drop_first());
        assert(a =~= seq![a[0]] + a.drop_first());
        assert(b =~= seq![b[0]] + b.drop_first());
    } else {
        assert(a =~= b);
    }
}

/// Whether `a` comes before `b`, or equals it, in the lexicographic order.
pub fn bytes_le(a: &[u8], b: &[u8]) -> (le: bool)
    ensures
        le == lex_le(a@, b@),
{
    let mut i: usize = 0;
    assert(a@.skip(0) =~= a@ && b@.skip(0) =~= b@);
    loop
        invariant
            i <= a@.len(),
            i <= b@.len(),
            lex_le(a@, b@) == lex_le(a@.skip(i as int), b@.skip(i as int)),
        decreases a@.len() - i,
    {
        if i == a.len() {
            return true;
        }
        if i == b.len() {
            return false;
        }
        if a[i] != b[i] {
            return a[i] < b[i];
        }
        assert(a@.skip(i as int).drop_first() =~= a@.skip(i + 1));
        assert(b@.skip(i as int).drop_first() =~= b@.skip(i + 1));
        i += 1;
    }
}

} // verus!
