//! Byte-level text facts: which byte sequences are decodable text, where the
//! last occurrence of a byte lies, and how long the longest decodable prefix
//! within a limit is.

use vstd::prelude::*;
use vstd::slice::slice_subrange;
use vstd::utf8::*;

verus! {

/// The byte that separates a stem from an extension.
pub const DOT: u8 = 0x2e;

/// The byte at which word-boundary snapping cuts.
pub const SPACE: u8 = 0x20;

/// The index of the last occurrence of `b` in `s`, if there is one.
pub open spec fn last_index_of(s: Seq<u8>, b: u8) -> Option<int>
    decreases s.len(),
{
    if s.len() == 0 {
        None
    } else if s.last() == b {
        Some(s.len() - 1)
    } else {
        last_index_of(s.drop_last(), b)
    }
}

/// `last_index_of` finds an occurrence of `b` after which `b` does not occur
/// again, and finds nothing only where `b` does not occur at all.
pub proof fn lemma_last_index_of(s: Seq<u8>, b: u8)
    ensures
        match last_index_of(s, b) {
            Some(i) => {
                &&& 0 <= i < s.len()
                &&& s[i] == b
                &&& forall|j: int| i < j < s.len() ==> s[j] != b
            },
            None => forall|j: int| 0 <= j < s.len() ==> s[j] != b,
        },
    decreases s.len(),
{
    if s.len() > 0 && s.last() != b {
        let front = s.drop_last();
        lemma_last_index_of(front, b);
        assert(forall|j: int| 0 <= j < front.len() ==> front[j] == s[j]);
        match last_index_of(front, b) {
            Some(i) => {
                assert forall|j: int| i < j < s.len() implies s[j] != b by {
                    if j < front.len() {
                        assert(front[j] != b);
                    }
                }
            },
            None => {
                assert forall|j: int| 0 <= j < s.len() implies s[j] != b by {
                    if j < front.len() {
                        assert(front[j] != b);
                    }
                }
            },
        }
    }
}

/// An index that holds `b` and after which `b` does not occur again is the one
/// that `last_index_of` finds.
pub proof fn lemma_last_index_of_unique(s: Seq<u8>, b: u8, i: int)
    requires
        0 <= i < s.len(),
        s[i] == b,
        forall|j: int| i < j < s.len() ==> s[j] != b,
    ensures
        last_index_of(s, b) == Some(i),
{
    lemma_last_index_of(s, b);
}

/// A byte sequence without `b` has no last occurrence of it.
pub proof fn lemma_last_index_of_absent(s: Seq<u8>, b: u8)
    requires
        forall|j: int| 0 <= j < s.len() ==> s[j] != b,
    ensures
        last_index_of(s, b) is None,
{
    lemma_last_index_of(s, b);
}

/// Finds the last occurrence of `b` in `bytes`.
pub fn find_last(bytes: &[u8], b: u8) -> (found: Option<usize>)
    ensures
        match found {
            Some(i) => {
                &&& last_index_of(bytes@, b) == Some(i as int)
                &&& i < bytes@.len()
                &&& bytes@[i as int] == b
                &&& forall|j: int| i < j < bytes@.len() ==> bytes@[j] != b
            },
            None => {
                &&& last_index_of(bytes@, b) is None
                &&& forall|j: int| 0 <= j < bytes@.len() ==> bytes@[j] != b
            },
        },
{
    let mut i: usize = bytes.len();
    while i > 0
        invariant
            i <= bytes.len(),
            forall|j: int| i <= j < bytes.len() ==> bytes@[j] != b,
        decreases i,
    {
        if bytes[i - 1] == b {
            proof {
                lemma_last_index_of_unique(bytes@, b, i - 1);
            }
            return Some(i - 1);
        }
        i = i - 1;
    }
    proof {
        lemma_last_index_of_absent(bytes@, b);
    }
    None
}

/// Compares two byte sequences.
pub fn bytes_eq(a: &[u8], b: &[u8]) -> (same: bool)
    ensures
        same == (a@ == b@),
{
    if a.len() != b.len() {
        return false;
    }
    let mut i: usize = 0;
    while i < a.len()
        invariant
            i <= a.len(),
            a.len() == b.len(),
            forall|j: int| 0 <= j < i ==> a@[j] == b@[j],
        decreases a.len() - i,
    {
        if a[i] != b[i] {
            return false;
        }
        i = i + 1;
    }
    assert(a@ =~= b@);
    true
}

/// Checks a byte sequence with `std::str::from_utf8`, which returns `Ok`
/// exactly when the bytes are well-formed UTF-8. Nothing here is proved: the
/// contract restates the standard library's documentation over `vstd`'s
/// definition of UTF-8.
#[verifier::external_body]
pub(crate) fn is_utf8(bytes: &[u8]) -> (ok: bool)
    ensures
        ok == valid_utf8(bytes@),
{
    match std::str::from_utf8(bytes) {
        Ok(_) => true,
        Err(_) => false,
    }
}

/// The length of the longest prefix of `bytes` that is at most `limit` bytes
/// long and is decodable text.
pub open spec fn valid_prefix_len(bytes: Seq<u8>, limit: int) -> int
    decreases limit,
{
    if limit <= 0 {
        0
    } else if limit <= bytes.len() && valid_utf8(bytes.take(limit)) {
        limit
    } else {
        valid_prefix_len(bytes, limit - 1)
    }
}

/// `valid_prefix_len` is the length of a decodable prefix within the limit, and
/// no longer prefix within the limit is decodable.
pub proof fn lemma_valid_prefix_len(bytes: Seq<u8>, limit: int)
    ensures
        0 <= valid_prefix_len(bytes, limit) <= bytes.len(),
        limit >= 0 ==> valid_prefix_len(bytes, limit) <= limit,
        valid_utf8(bytes.take(valid_prefix_len(bytes, limit))),
        forall|j: int|
            valid_prefix_len(bytes, limit) < j <= limit && j <= bytes.len() ==> !valid_utf8(
                #[trigger] bytes.take(j),
            ),
    decreases limit,
{
    if limit <= 0 {
        assert(bytes.take(0) =~= Seq::<u8>::empty());
    } else if limit <= bytes.len() && valid_utf8(bytes.take(limit)) {
    } else {
        lemma_valid_prefix_len(bytes, limit - 1);
    }
}

/// A limit at or beyond the end of the bytes counts as the whole length.
pub proof fn lemma_valid_prefix_len_clamp(bytes: Seq<u8>, limit: int)
    requires
        limit >= bytes.len(),
    ensures
        valid_prefix_len(bytes, limit) == valid_prefix_len(bytes, bytes.len() as int),
    decreases limit,
{
    if limit > bytes.len() {
        lemma_valid_prefix_len_clamp(bytes, limit - 1);
    }
}

/// Decodable bytes that fit the limit are their own longest decodable prefix.
pub proof fn lemma_valid_prefix_len_whole(bytes: Seq<u8>, limit: int)
    requires
        valid_utf8(bytes),
        bytes.len() <= limit,
    ensures
        valid_prefix_len(bytes, limit) == bytes.len(),
{
    lemma_valid_prefix_len_clamp(bytes, limit);
    assert(bytes.take(bytes.len() as int) =~= bytes);
}

/// Computes the length of the longest decodable prefix of `bytes` within
/// `limit` bytes, by shortening the prefix one byte at a time.
pub fn longest_valid_prefix(bytes: &[u8], limit: usize) -> (k: usize)
    ensures
        k == valid_prefix_len(bytes@, limit as int),
        k <= limit,
        k <= bytes@.len(),
        valid_utf8(bytes@.take(k as int)),
{
    let mut k: usize = if limit < bytes.len() {
        limit
    } else {
        bytes.len()
    };
    proof {
        if limit >= bytes.len() {
            lemma_valid_prefix_len_clamp(bytes@, limit as int);
        }
    }
    while !is_utf8(slice_subrange(bytes, 0, k))
        invariant
            k <= bytes.len(),
            k <= limit,
            valid_prefix_len(bytes@, limit as int) == valid_prefix_len(bytes@, k as int),
        decreases k,
    {
        proof {
            if k == 0 {
                assert(bytes@.subrange(0, 0) =~= Seq::<u8>::empty());
            }
        }
        k = k - 1;
    }
    proof {
        lemma_valid_prefix_len(bytes@, k as int);
    }
    k
}

/// Cutting decodable text just before one of its bytes that does not continue
/// a code point leaves decodable text.
pub proof fn lemma_cut_before_leading_byte(bytes: Seq<u8>, i: int)
    requires
        valid_utf8(bytes),
        0 <= i < bytes.len(),
        !is_continuation_byte(bytes[i]),
    ensures
        valid_utf8(bytes.take(i)),
{
    is_char_boundary_iff_not_is_continuation_byte(bytes, i);
    valid_utf8_split(bytes, i);
}

} // verus!
