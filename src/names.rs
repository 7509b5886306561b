//! Source text and interned names.
use string_interner::{StringInterner, Symbol};
use vstd::prelude::*;

verus! {

/// What `String::from_utf8` makes of a byte sequence: the decoded text, or
/// nothing where the bytes are not UTF-8.
pub uninterp spec fn utf8_decode(b: Seq<u8>) -> Option<Seq<char>>;

/// Relies on `String::from_utf8`: `Ok` exactly for valid UTF-8, holding the
/// decoded text.
#[verifier::external_body]
fn decode_utf8(b: Vec<u8>) -> (r: Option<String>)
    ensures
        match r {
            Some(s) => utf8_decode(b@) == Some(s@),
            None => utf8_decode(b@) is None,
        },
{
    String::from_utf8(b).ok()
}

/// The bytes of `range` in `source`.
pub fn slice_bytes(source: &[u8], start: usize, end: usize) -> (r: Vec<u8>)
    requires
        start <= end <= source@.len(),
    ensures
        r@ == source@.subrange(start as int, end as int),
{
    let mut r: Vec<u8> = Vec::new();
    let mut i: usize = start;
    while i < end
        invariant
            start <= i <= end <= source@.len(),
            r@ == source@.subrange(start as int, i as int),
        decreases end - i,
    {
        r.push(source[i]);
        i = i + 1;
    }
    r
}

/// The text of `source` between `start` and `end`, if it is UTF-8.
pub fn source_text(source: &[u8], start: usize, end: usize) -> (r: Option<String>)
    requires
        start <= end <= source@.len(),
    ensures
        match r {
            Some(s) => utf8_decode(source@.subrange(start as int, end as int)) == Some(s@),
            None => utf8_decode(source@.subrange(start as int, end as int)) is None,
        },
{
    decode_utf8(slice_bytes(source, start, end))
}

/// A per-file table of interned names. A name is identified by its index
/// in the table.
#[verifier::external_body]
pub struct NameTable {
    inner: StringInterner,
}

/// The strings a `NameTable` holds, in the order they were first interned.
pub uninterp spec fn interned(t: NameTable) -> Seq<Seq<char>>;

impl NameTable {
    /// Relies on `StringInterner::new`: a fresh interner holds no strings.
    #[verifier::external_body]
    pub(crate) fn new() -> (r: NameTable)
        ensures
            interned(r) == Seq::<Seq<char>>::empty(),
    {
        NameTable { inner: StringInterner::new() }
    }

    /// Relies on `StringInterner::get_or_intern` with the default string
    /// backend: a string already held keeps its symbol; a new one is
    /// appended and its symbol's index is the number of strings held
    /// before. It panics when the 32-bit symbol space is exhausted.
    #[verifier::external_body]
    pub(crate) fn intern(&mut self, s: &str) -> (r: usize)
        requires
            interned(*old(self)).len() + 1 < 0xffff_ffffusize,
        ensures
            interned(*old(self)).contains(s@) ==> interned(*final(self)) == interned(*old(self)),
            !interned(*old(self)).contains(s@) ==> interned(*final(self)) == interned(
                *old(self),
            ).push(s@),
            r < interned(*final(self)).len(),
            interned(*final(self))[r as int] == s@,
    {
        self.inner.get_or_intern(s).to_usize()
    }
}

} // verus!
