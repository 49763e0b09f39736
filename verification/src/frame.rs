//! The fixed parts of a record, and how bytes are matched against them.
//!
//! A record is one line of JSON text. For a `Set` it reads
//! `{"Set":{"key":K,"value":V}}` and for a removal `{"Rm":{"key":K}}`, where
//! `K` and `V` are JSON string literals; a line feed ends it.

use vstd::prelude::*;

verus! {

/// The bytes of an ASCII text.
pub open spec fn ascii(text: Seq<char>) -> Seq<u8> {
    Seq::new(text.len(), |i: int| text[i] as u8)
}

/// What a `Set` record starts with.
pub open spec fn set_head() -> Seq<u8> {
    ascii("{\"Set\":{\"key\":"@)
}

/// What stands between the key and the value of a `Set` record.
pub open spec fn value_sep() -> Seq<u8> {
    ascii(",\"value\":"@)
}

/// What a removal record starts with.
pub open spec fn rm_head() -> Seq<u8> {
    ascii("{\"Rm\":{\"key\":"@)
}

/// What every record ends with: two closing braces and the terminator.
pub open spec fn tail() -> Seq<u8> {
    ascii("}}\n"@)
}

/// The byte that ends a record: a line feed.
pub const TERMINATOR: u8 = 0x0a;

/// `pattern` stands in `bytes` at position `at`.
pub open spec fn has_at(bytes: Seq<u8>, at: int, pattern: Seq<u8>) -> bool {
    &&& 0 <= at
    &&& at + pattern.len() <= bytes.len()
    &&& bytes.subrange(at, at + pattern.len()) == pattern
}

/// The fixed parts, byte by byte.
pub proof fn lemma_frame_parts()
    ensures
        set_head() == seq![
            0x7bu8, 0x22, 0x53, 0x65, 0x74, 0x22, 0x3a, 0x7b, 0x22, 0x6b, 0x65, 0x79, 0x22, 0x3a,
        ],
        value_sep() == seq![0x2cu8, 0x22, 0x76, 0x61, 0x6c, 0x75, 0x65, 0x22, 0x3a],
        rm_head() == seq![
            0x7bu8, 0x22, 0x52, 0x6d, 0x22, 0x3a, 0x7b, 0x22, 0x6b, 0x65, 0x79, 0x22, 0x3a,
        ],
        tail() == seq![0x7du8, 0x7d, 0x0a],
{
    reveal_strlit("{\"Set\":{\"key\":");
    reveal_strlit(",\"value\":");
    reveal_strlit("{\"Rm\":{\"key\":");
    reveal_strlit("}}\n");
    assert(set_head() =~= seq![
        0x7bu8, 0x22, 0x53, 0x65, 0x74, 0x22, 0x3a, 0x7b, 0x22, 0x6b, 0x65, 0x79, 0x22, 0x3a,
    ]);
    assert(value_sep() =~= seq![0x2cu8, 0x22, 0x76, 0x61, 0x6c, 0x75, 0x65, 0x22, 0x3a]);
    assert(rm_head() =~= seq![
        0x7bu8, 0x22, 0x52, 0x6d, 0x22, 0x3a, 0x7b, 0x22, 0x6b, 0x65, 0x79, 0x22, 0x3a,
    ]);
    assert(tail() =~= seq![0x7du8, 0x7d, 0x0a]);
}

pub(crate) fn set_head_bytes() -> (bytes: &'static [u8])
    ensures
        bytes@ == set_head(),
{
    let text = "{\"Set\":{\"key\":";
    proof {
        reveal_strlit("{\"Set\":{\"key\":");
        vstd::string::is_ascii_spec_bytes(text);
    }
    let bytes = text.as_bytes();
    assert(bytes@ =~= set_head());
    bytes
}

pub(crate) fn value_sep_bytes() -> (bytes: &'static [u8])
    ensures
        bytes@ == value_sep(),
{
    let text = ",\"value\":";
    proof {
        reveal_strlit(",\"value\":");
        vstd::string::is_ascii_spec_bytes(text);
    }
    let bytes = text.as_bytes();
    assert(bytes@ =~= value_sep());
    bytes
}

pub(crate) fn rm_head_bytes() -> (bytes: &'static [u8])
    ensures
        bytes@ == rm_head(),
{
    let text = "{\"Rm\":{\"key\":";
    proof {
        reveal_strlit("{\"Rm\":{\"key\":");
        vstd::string::is_ascii_spec_bytes(text);
    }
    let bytes = text.as_bytes();
    assert(bytes@ =~= rm_head());
    bytes
}

pub(crate) fn tail_bytes() -> (bytes: &'static [u8])
    ensures
        bytes@ == tail(),
{
    let text = "}}\n";
    proof {
        reveal_strlit("}}\n");
        vstd::string::is_ascii_spec_bytes(text);
    }
    let bytes = text.as_bytes();
    assert(bytes@ =~= tail());
    bytes
}

/// Whether `pattern` stands in `bytes` at position `at`.
pub fn matches_at(bytes: &[u8], at: usize, pattern: &[u8]) -> (found: bool)
    ensures
        found == has_at(bytes@, at as int, pattern@),
{
    if pattern.len() > bytes.len() || at > bytes.len() - pattern.len() {
        return false;
    }
    let mut i: usize = 0;
    while i < pattern.len()
        invariant
            at + pattern.len() <= bytes.len(),
            i <= pattern.len(),
            forall|j: int| 0 <= j < i ==> bytes@[at + j] == pattern@[j],
        decreases pattern.len() - i,
    {
        if bytes[at + i] != pattern[i] {
            proof {
                let part = bytes@.subrange(at as int, at + pattern.len());
                assert(part[i as int] == bytes@[at + i]);
            }
            return false;
        }
        i += 1;
    }
    assert(bytes@.subrange(at as int, at + pattern.len()) =~= pattern@);
    true
}

/// Puts `source` at the end of `out`.
pub fn append_bytes(out: &mut Vec<u8>, source: &[u8])
    ensures
        final(out)@ == old(out)@ + source@,
{
    let mut i: usize = 0;
    while i < source.len()
        invariant
            i <= source.len(),
            out@ == old(out)@ + source@.subrange(0, i as int),
        decreases source.len() - i,
    {
        out.push(source[i]);
        i += 1;
        assert(out@ =~= old(out)@ + source@.subrange(0, i as int));
    }
    assert(source@.subrange(0, source.len() as int) =~= source@);
}

} // verus!
