//! JSON string literals as bytes: where one ends, and what it may hold.

use vstd::prelude::*;

verus! {

/// The byte that opens and closes a string literal.
pub const QUOTE: u8 = 0x22;

/// The byte that starts an escape in a string literal.
pub const BACKSLASH: u8 = 0x5c;

/// The first byte that is no control byte.
pub const SPACE: u8 = 0x20;

/// Whether `b` may follow a backslash in a string literal: a quote, a
/// backslash, or one of the letters `/`, `b`, `f`, `n`, `r`, `t` and `u`.
pub open spec fn is_escape_letter(b: u8) -> bool {
    b == QUOTE || b == BACKSLASH || b == 0x2f || b == 0x62 || b == 0x66 || b == 0x6e || b == 0x72
        || b == 0x74 || b == 0x75
}

/// Where the string literal whose inside is read from `i` on ends: the
/// position after its closing quote. `None` where a control byte, or a
/// backslash without an escape letter, comes first, or the bytes run out.
pub open spec fn literal_scan(bytes: Seq<u8>, i: int) -> Option<int>
    decreases bytes.len() - i,
{
    if i < 0 || i >= bytes.len() {
        None
    } else if bytes[i] == QUOTE {
        Some(i + 1)
    } else if bytes[i] == BACKSLASH {
        if i + 1 < bytes.len() && is_escape_letter(bytes[i + 1]) {
            literal_scan(bytes, i + 2)
        } else {
            None
        }
    } else if bytes[i] < SPACE {
        None
    } else {
        literal_scan(bytes, i + 1)
    }
}

/// Where the string literal that starts at `start` ends, if one starts there.
pub open spec fn literal_end(bytes: Seq<u8>, start: int) -> Option<int> {
    if 0 <= start < bytes.len() && bytes[start] == QUOTE {
        literal_scan(bytes, start + 1)
    } else {
        None
    }
}

/// `bytes` is one string literal from its first byte to its last.
pub open spec fn is_literal(bytes: Seq<u8>) -> bool {
    literal_end(bytes, 0) == Some(bytes.len() as int)
}

/// A scan that ends, ends within the bytes, and has passed no control byte.
pub proof fn lemma_scan_bounds(bytes: Seq<u8>, i: int)
    requires
        literal_scan(bytes, i) is Some,
    ensures
        0 <= i < literal_scan(bytes, i)->Some_0 <= bytes.len(),
        forall|j: int| i <= j < literal_scan(bytes, i)->Some_0 ==> #[trigger] bytes[j] >= SPACE,
    decreases bytes.len() - i,
{
    if bytes[i] == QUOTE {
    } else if bytes[i] == BACKSLASH {
        lemma_scan_bounds(bytes, i + 2);
    } else {
        lemma_scan_bounds(bytes, i + 1);
    }
}

/// A literal ends within the bytes and holds no control byte, so no line feed.
pub proof fn lemma_literal_bounds(bytes: Seq<u8>, start: int)
    requires
        literal_end(bytes, start) is Some,
    ensures
        0 <= start < literal_end(bytes, start)->Some_0 <= bytes.len(),
        start + 2 <= literal_end(bytes, start)->Some_0,
        forall|j: int|
            start <= j < literal_end(bytes, start)->Some_0 ==> #[trigger] bytes[j] >= SPACE,
{
    lemma_scan_bounds(bytes, start + 1);
}

/// A scan reads only the bytes up to where it ends: it goes the same way in
/// any bytes that hold the same ones from `at` on.
pub proof fn lemma_scan_embedded(part: Seq<u8>, i: int, whole: Seq<u8>, at: int)
    requires
        literal_scan(part, i) is Some,
        has_part(whole, at, part),
    ensures
        literal_scan(whole, at + i) == Some(at + literal_scan(part, i)->Some_0),
    decreases part.len() - i,
{
    assert(whole[at + i] == part[i]);
    if part[i] == QUOTE {
    } else if part[i] == BACKSLASH {
        assert(whole[at + i + 1] == part[i + 1]);
        lemma_scan_embedded(part, i + 2, whole, at);
    } else {
        lemma_scan_embedded(part, i + 1, whole, at);
    }
}

/// `part` stands in `whole` at position `at`, byte for byte.
pub open spec fn has_part(whole: Seq<u8>, at: int, part: Seq<u8>) -> bool {
    &&& 0 <= at
    &&& at + part.len() <= whole.len()
    &&& forall|j: int| 0 <= j < part.len() ==> whole[at + j] == #[trigger] part[j]
}

/// A literal that stands in other bytes is found there, with the same end.
pub proof fn lemma_literal_embedded(part: Seq<u8>, whole: Seq<u8>, at: int)
    requires
        is_literal(part),
        has_part(whole, at, part),
    ensures
        literal_end(whole, at) == Some(at + part.len()),
{
    assert(whole[at + 0] == part[0]);
    lemma_scan_embedded(part, 1, whole, at);
}

/// Finds the end of the string literal that starts at `start`.
pub fn find_literal_end(bytes: &[u8], start: usize) -> (end: Option<usize>)
    ensures
        end is Some <==> literal_end(bytes@, start as int) is Some,
        end is Some ==> literal_end(bytes@, start as int) == Some(end->Some_0 as int),
{
    if start >= bytes.len() || bytes[start] != QUOTE {
        return None;
    }
    let mut i: usize = start + 1;
    while i < bytes.len()
        invariant
            start < i,
            literal_scan(bytes@, i as int) == literal_end(bytes@, start as int),
        decreases bytes.len() - i,
    {
        let b: u8 = bytes[i];
        if b == QUOTE {
            return Some(i + 1);
        } else if b == BACKSLASH {
            if i + 1 < bytes.len() && is_escape(bytes[i + 1]) {
                i += 2;
            } else {
                return None;
            }
        } else if b < SPACE {
            return None;
        } else {
            i += 1;
        }
    }
    None
}

/// Whether `b` may follow a backslash in a string literal.
pub fn is_escape(b: u8) -> (yes: bool)
    ensures
        yes == is_escape_letter(b),
{
    b == QUOTE || b == BACKSLASH || b == 0x2f || b == 0x62 || b == 0x66 || b == 0x6e || b == 0x72
        || b == 0x74 || b == 0x75
}

} // verus!
