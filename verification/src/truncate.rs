//! Truncation of a stem or a directory name to a byte budget, without ever
//! cutting through a code point, and optionally back to a word boundary.

use crate::text::{
    find_last, last_index_of, lemma_cut_before_leading_byte, lemma_last_index_of,
    lemma_valid_prefix_len, longest_valid_prefix, valid_prefix_len, SPACE,
};
use vstd::prelude::*;
use vstd::utf8::valid_utf8;

verus! {

/// How many bytes before the budget a space may lie and still be cut at.
pub const WORD_TOLERANCE: usize = 10;

/// The offset that a space must exceed for the cut to move back to it.
pub open spec fn snap_floor(budget: int) -> int {
    if budget > WORD_TOLERANCE {
        budget - WORD_TOLERANCE
    } else {
        0
    }
}

/// `text` cut at its last space, where that space lies beyond `snap_floor`;
/// otherwise `text` itself.
pub open spec fn snap_to_word(text: Seq<u8>, budget: int) -> Seq<u8> {
    match last_index_of(text, SPACE) {
        Some(i) => if i > snap_floor(budget) {
            text.take(i)
        } else {
            text
        },
        None => text,
    }
}

/// The longest decodable prefix of `bytes` within `budget` bytes, moved back to
/// a word boundary where that is asked for and the loss is small.
pub open spec fn cut_to_budget(bytes: Seq<u8>, budget: int, word_boundaries: bool) -> Seq<u8> {
    let kept = bytes.take(valid_prefix_len(bytes, budget));
    if word_boundaries {
        snap_to_word(kept, budget)
    } else {
        kept
    }
}

/// A stem that fits its budget stays as it is; a longer one is cut.
pub open spec fn truncated_stem(stem: Seq<u8>, budget: int, word_boundaries: bool) -> Seq<u8> {
    if stem.len() <= budget {
        stem
    } else {
        cut_to_budget(stem, budget, word_boundaries)
    }
}

/// A directory name is cut as a whole: it has no extension to set aside, and
/// its budget is the full limit.
pub open spec fn truncated_dir_name(name: Seq<u8>, max_len: int, word_boundaries: bool) -> Seq<
    u8,
> {
    cut_to_budget(name, max_len, word_boundaries)
}

/// Snapping keeps a prefix, and keeps decodable text decodable.
pub proof fn lemma_snap_to_word(text: Seq<u8>, budget: int)
    ensures
        snap_to_word(text, budget).is_prefix_of(text),
        valid_utf8(text) ==> valid_utf8(snap_to_word(text, budget)),
        last_index_of(text, SPACE) is None ==> snap_to_word(text, budget) == text,
{
    lemma_last_index_of(text, SPACE);
    match last_index_of(text, SPACE) {
        Some(i) => {
            if valid_utf8(text) {
                lemma_cut_before_leading_byte(text, i);
            }
        },
        None => {},
    }
}

/// What is cut to a budget is a decodable prefix that fits the budget.
pub proof fn lemma_cut_to_budget(bytes: Seq<u8>, budget: int, word_boundaries: bool)
    requires
        budget >= 0,
    ensures
        cut_to_budget(bytes, budget, word_boundaries).is_prefix_of(bytes),
        cut_to_budget(bytes, budget, word_boundaries).len() <= budget,
        valid_utf8(cut_to_budget(bytes, budget, word_boundaries)),
{
    lemma_valid_prefix_len(bytes, budget);
    let kept = bytes.take(valid_prefix_len(bytes, budget));
    lemma_snap_to_word(kept, budget);
}

/// A truncated stem is a prefix of the stem and fits the budget. It is
/// decodable text whenever the stem was cut, or was decodable to begin with.
pub proof fn lemma_truncated_stem(stem: Seq<u8>, budget: int, word_boundaries: bool)
    requires
        budget >= 0,
    ensures
        truncated_stem(stem, budget, word_boundaries).is_prefix_of(stem),
        truncated_stem(stem, budget, word_boundaries).len() <= budget,
        stem.len() > budget || valid_utf8(stem) ==> valid_utf8(
            truncated_stem(stem, budget, word_boundaries),
        ),
        stem.len() <= budget ==> truncated_stem(stem, budget, word_boundaries) == stem,
{
    if stem.len() > budget {
        lemma_cut_to_budget(stem, budget, word_boundaries);
    }
}

fn cut(name: Vec<u8>, budget: usize, word_boundaries: bool) -> (out: Vec<u8>)
    ensures
        out@ == cut_to_budget(name@, budget as int, word_boundaries),
{
    let mut out = name;
    let kept: usize = longest_valid_prefix(out.as_slice(), budget);
    out.truncate(kept);
    if word_boundaries {
        match find_last(out.as_slice(), SPACE) {
            Some(last_space) => {
                if last_space > budget.saturating_sub(WORD_TOLERANCE) {
                    proof {
                        lemma_last_index_of(out@, SPACE);
                    }
                    out.truncate(last_space);
                }
            },
            None => {},
        }
    }
    out
}

/// Truncates a raw stem to `max_stem_bytes`. A stem that already fits is
/// returned as it is. A longer one is cut to its longest decodable prefix
/// within the budget and then, where `word_boundaries` is set and the last
/// space lies within the tolerance of the budget, cut again at that space.
pub fn truncate_stem(r_stem: Vec<u8>, max_stem_bytes: usize, word_boundaries: bool) -> (out: Vec<
    u8,
>)
    ensures
        out@ == truncated_stem(r_stem@, max_stem_bytes as int, word_boundaries),
        out@.is_prefix_of(r_stem@),
        out@.len() <= max_stem_bytes,
        r_stem@.len() <= max_stem_bytes ==> out@ == r_stem@,
        r_stem@.len() > max_stem_bytes || valid_utf8(r_stem@) ==> valid_utf8(out@),
{
    proof {
        lemma_truncated_stem(r_stem@, max_stem_bytes as int, word_boundaries);
    }
    if r_stem.len() <= max_stem_bytes {
        r_stem
    } else {
        cut(r_stem, max_stem_bytes, word_boundaries)
    }
}

/// Truncates a directory name to `max_len` bytes: the longest decodable prefix
/// within the limit, cut again at the last space where `word_boundaries` is set
/// and that space lies within the tolerance of the limit.
pub fn truncate_dir_name(name: Vec<u8>, max_len: usize, word_boundaries: bool) -> (out: Vec<u8>)
    ensures
        out@ == truncated_dir_name(name@, max_len as int, word_boundaries),
        out@.is_prefix_of(name@),
        out@.len() <= max_len,
        valid_utf8(out@),
{
    proof {
        lemma_cut_to_budget(name@, max_len as int, word_boundaries);
    }
    cut(name, max_len, word_boundaries)
}

} // verus!
