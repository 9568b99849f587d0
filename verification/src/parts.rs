//! The parts of a file name: a raw stem, an optional short secondary
//! extension and an optional primary extension, with the split of a name into
//! its parts and the assembly of a name from them.

use crate::text::{
    find_last, is_utf8, last_index_of, lemma_cut_before_leading_byte, lemma_last_index_of, DOT,
};
use vstd::prelude::*;
use vstd::slice::{slice_subrange, slice_to_vec};
use vstd::utf8::valid_utf8;

verus! {

/// The parts of a file name, as byte sequences.
pub struct NameParts {
    pub raw_stem: Seq<u8>,
    pub secondary_ext: Option<Seq<u8>>,
    pub primary_ext: Option<Seq<u8>>,
}

/// The bytes of an optional owned byte string.
pub open spec fn opt_bytes(o: Option<Vec<u8>>) -> Option<Seq<u8>> {
    match o {
        Some(v) => Some(v@),
        None => None,
    }
}

/// The bytes of an optional borrowed byte string.
pub open spec fn opt_slice_bytes(o: Option<&[u8]>) -> Option<Seq<u8>> {
    match o {
        Some(v) => Some(v@),
        None => None,
    }
}

/// A byte that separates the components of a path.
pub open spec fn is_separator(b: u8) -> bool {
    b == 0x2f || b == 0x5c
}

/// Whether `s` holds a path separator.
pub open spec fn has_separator(s: Seq<u8>) -> bool {
    exists|i: int| 0 <= i < s.len() && is_separator(#[trigger] s[i])
}

/// Where the primary extension of `name` is split off: at the last dot,
/// provided that the name is decodable text and that no path separator stands
/// before that dot.
pub open spec fn primary_dot(name: Seq<u8>) -> Option<int> {
    match last_index_of(name, DOT) {
        Some(i) => if valid_utf8(name) && !has_separator(name.take(i)) {
            Some(i)
        } else {
            None
        },
        None => None,
    }
}

/// The name without its primary extension and the dot before it.
pub open spec fn primary_stem(name: Seq<u8>) -> Seq<u8> {
    match primary_dot(name) {
        Some(i) => name.take(i),
        None => name,
    }
}

/// What follows the last dot of the name, where a primary extension is
/// recognized.
pub open spec fn primary_ext(name: Seq<u8>) -> Option<Seq<u8>> {
    match primary_dot(name) {
        Some(i) => Some(name.skip(i + 1)),
        None => None,
    }
}

/// Where the secondary extension of `name` is split off: at the last dot of
/// what stands before the primary extension, provided that what follows that
/// dot is at most `threshold` bytes long. A threshold of 0 recognizes none.
pub open spec fn secondary_dot(name: Seq<u8>, threshold: int) -> Option<int> {
    if threshold <= 0 || primary_dot(name) is None {
        None
    } else {
        let stem = primary_stem(name);
        match last_index_of(stem, DOT) {
            Some(j) => if stem.len() - (j + 1) <= threshold {
                Some(j)
            } else {
                None
            },
            None => None,
        }
    }
}

/// The parts of `name`, with secondary extensions of up to `threshold` bytes.
pub open spec fn split_name(name: Seq<u8>, threshold: int) -> NameParts {
    let stem = primary_stem(name);
    match secondary_dot(name, threshold) {
        Some(j) => NameParts {
            raw_stem: stem.take(j),
            secondary_ext: Some(stem.skip(j + 1)),
            primary_ext: primary_ext(name),
        },
        None => NameParts { raw_stem: stem, secondary_ext: None, primary_ext: primary_ext(name) },
    }
}

/// A dot and the extension after it, or nothing where there is no extension.
pub open spec fn dotted(ext: Option<Seq<u8>>) -> Seq<u8> {
    match ext {
        Some(e) => seq![DOT] + e,
        None => Seq::empty(),
    }
}

/// The number of bytes that a name's extensions and their dots take.
pub open spec fn ext_overhead(secondary_ext: Option<Seq<u8>>, primary_ext: Option<Seq<u8>>) -> nat {
    dotted(secondary_ext).len() + dotted(primary_ext).len()
}

/// The name made of a stem and its extensions.
pub open spec fn assembled_name(
    stem: Seq<u8>,
    secondary_ext: Option<Seq<u8>>,
    primary_ext: Option<Seq<u8>>,
) -> Seq<u8> {
    stem + dotted(secondary_ext) + dotted(primary_ext)
}

/// Cutting a byte sequence at one of its dots and putting the dot back gives
/// the sequence again.
proof fn lemma_rejoin_at_dot(s: Seq<u8>, i: int)
    requires
        0 <= i < s.len(),
        s[i] == DOT,
    ensures
        s.take(i) + dotted(Some(s.skip(i + 1))) == s,
{
    assert(s.take(i) + (seq![DOT] + s.skip(i + 1)) =~= s);
}

/// The parts of a name put together give the name again, byte for byte.
pub proof fn lemma_split_reassembles(name: Seq<u8>, threshold: int)
    ensures
        ({
            let parts = split_name(name, threshold);
            assembled_name(parts.raw_stem, parts.secondary_ext, parts.primary_ext) == name
        }),
        ({
            let parts = split_name(name, threshold);
            parts.raw_stem.len() + ext_overhead(parts.secondary_ext, parts.primary_ext)
                == name.len()
        }),
{
    let parts = split_name(name, threshold);
    let stem = primary_stem(name);
    lemma_last_index_of(name, DOT);
    lemma_last_index_of(stem, DOT);
    match primary_dot(name) {
        Some(i) => {
            lemma_rejoin_at_dot(name, i);
        },
        None => {
            assert(stem + Seq::<u8>::empty() =~= stem);
        },
    }
    assert(stem + dotted(primary_ext(name)) == name);
    match secondary_dot(name, threshold) {
        Some(j) => {
            lemma_rejoin_at_dot(stem, j);
        },
        None => {
            assert(stem + Seq::<u8>::empty() =~= stem);
        },
    }
    assert(parts.raw_stem + dotted(parts.secondary_ext) == stem);
}

/// A secondary extension is recognized only together with a primary one, is at
/// most `threshold` bytes long, and neither extension holds a dot.
pub proof fn law_extensions_recognized(name: Seq<u8>, threshold: int)
    ensures
        ({
            let parts = split_name(name, threshold);
            &&& parts.raw_stem.is_prefix_of(name)
            &&& (parts.secondary_ext is Some ==> parts.primary_ext is Some)
            &&& (parts.primary_ext is Some ==> valid_utf8(name))
            &&& (threshold <= 0 ==> parts.secondary_ext is None)
            &&& (parts.secondary_ext matches Some(e) ==> e.len() <= threshold && last_index_of(
                e,
                DOT,
            ) is None)
            &&& (parts.primary_ext matches Some(e) ==> last_index_of(e, DOT) is None)
        }),
{
    let parts = split_name(name, threshold);
    let stem = primary_stem(name);
    lemma_last_index_of(name, DOT);
    lemma_last_index_of(stem, DOT);
    match parts.secondary_ext {
        Some(e) => {
            lemma_last_index_of(e, DOT);
        },
        None => {},
    }
    match parts.primary_ext {
        Some(e) => {
            lemma_last_index_of(e, DOT);
        },
        None => {},
    }
}

/// The raw stem of a name that is decodable text is decodable text.
pub proof fn lemma_raw_stem_decodable(name: Seq<u8>, threshold: int)
    requires
        valid_utf8(name),
    ensures
        valid_utf8(split_name(name, threshold).raw_stem),
{
    let stem = primary_stem(name);
    lemma_last_index_of(name, DOT);
    lemma_last_index_of(stem, DOT);
    match primary_dot(name) {
        Some(i) => {
            lemma_cut_before_leading_byte(name, i);
        },
        None => {},
    }
    match secondary_dot(name, threshold) {
        Some(j) => {
            lemma_cut_before_leading_byte(stem, j);
        },
        None => {},
    }
}

/// Whether `bytes` holds a path separator.
fn contains_separator(bytes: &[u8]) -> (found: bool)
    ensures
        found == has_separator(bytes@),
{
    let mut i: usize = 0;
    while i < bytes.len()
        invariant
            i <= bytes.len(),
            forall|j: int| 0 <= j < i ==> !is_separator(#[trigger] bytes@[j]),
        decreases bytes.len() - i,
    {
        if bytes[i] == 0x2f || bytes[i] == 0x5c {
            return true;
        }
        i = i + 1;
    }
    false
}

/// Splits a name at its last dot into what stands before the dot and the
/// primary extension after it. The name is left whole where it has no dot,
/// where a path separator stands before the last dot, or where its bytes are
/// not decodable text.
pub fn split_stem_ext<'a>(name: &'a [u8]) -> (parts: (&'a [u8], Option<&'a [u8]>))
    ensures
        parts.0@ == primary_stem(name@),
        opt_slice_bytes(parts.1) == primary_ext(name@),
{
    match find_last(name, DOT) {
        Some(last_dot) => {
            let stem = slice_subrange(name, 0, last_dot);
            if !contains_separator(stem) && is_utf8(name) {
                let end: usize = name.len();
                let ext = slice_subrange(name, last_dot + 1, end);
                (stem, Some(ext))
            } else {
                (name, None)
            }
        },
        None => (name, None),
    }
}

fn owned(ext: Option<&[u8]>) -> (out: Option<Vec<u8>>)
    ensures
        opt_bytes(out) == opt_slice_bytes(ext),
{
    match ext {
        Some(e) => Some(slice_to_vec(e)),
        None => None,
    }
}

/// Splits a name into its raw stem, its secondary extension and its primary
/// extension. The primary extension is what follows the last dot. The
/// secondary extension is what follows the last dot of the rest, recognized
/// only where a primary extension is and only if it is at most
/// `secondary_ext_len` bytes long; a length of 0 recognizes none.
pub fn split_rstem_ext(name: &[u8], secondary_ext_len: usize) -> (parts: (
    Vec<u8>,
    Option<Vec<u8>>,
    Option<Vec<u8>>,
))
    ensures
        parts.0@ == split_name(name@, secondary_ext_len as int).raw_stem,
        opt_bytes(parts.1) == split_name(name@, secondary_ext_len as int).secondary_ext,
        opt_bytes(parts.2) == split_name(name@, secondary_ext_len as int).primary_ext,
        assembled_name(parts.0@, opt_bytes(parts.1), opt_bytes(parts.2)) == name@,
{
    proof {
        lemma_split_reassembles(name@, secondary_ext_len as int);
    }
    let (stem, primary) = split_stem_ext(name);
    if secondary_ext_len == 0 || primary.is_none() {
        return (slice_to_vec(stem), None, owned(primary));
    }
    match find_last(stem, DOT) {
        Some(second_dot) => {
            if stem.len() - (second_dot + 1) <= secondary_ext_len {
                let rstem = slice_subrange(stem, 0, second_dot);
                let secondary = slice_subrange(stem, second_dot + 1, stem.len());
                return (slice_to_vec(rstem), Some(slice_to_vec(secondary)), owned(primary));
            }
        },
        None => {},
    }
    (slice_to_vec(stem), None, owned(primary))
}

/// Builds a name from a stem and extensions: the stem, then a dot and the
/// secondary extension if there is one, then a dot and the primary extension if
/// there is one.
pub fn build_new_name(
    truncated: Vec<u8>,
    secondary_ext: Option<Vec<u8>>,
    primary_ext: Option<Vec<u8>>,
) -> (new_name: Vec<u8>)
    ensures
        new_name@ == assembled_name(truncated@, opt_bytes(secondary_ext), opt_bytes(primary_ext)),
        new_name@.len() == truncated@.len() + ext_overhead(
            opt_bytes(secondary_ext),
            opt_bytes(primary_ext),
        ),
{
    let mut new_name = truncated;
    let ghost stem = new_name@;
    match secondary_ext {
        Some(se) => {
            new_name.push(DOT);
            push_all(&mut new_name, se.as_slice());
            assert(new_name@ =~= stem + dotted(Some(se@)));
        },
        None => {
            assert(new_name@ =~= stem + dotted(None));
        },
    }
    let ghost front = new_name@;
    match primary_ext {
        Some(pe) => {
            new_name.push(DOT);
            push_all(&mut new_name, pe.as_slice());
            assert(new_name@ =~= front + dotted(Some(pe@)));
        },
        None => {
            assert(new_name@ =~= front + dotted(None));
        },
    }
    new_name
}

/// Appends `bytes` to `out`.
pub fn push_all(out: &mut Vec<u8>, bytes: &[u8])
    ensures
        final(out)@ == old(out)@ + bytes@,
{
    let mut i: usize = 0;
    while i < bytes.len()
        invariant
            i <= bytes.len(),
            out@ == old(out)@ + bytes@.take(i as int),
        decreases bytes.len() - i,
    {
        out.push(bytes[i]);
        assert(bytes@.take(i + 1) =~= bytes@.take(i as int).push(bytes@[i as int]));
        i = i + 1;
    }
    assert(bytes@.take(bytes.len() as int) =~= bytes@);
}

} // verus!
