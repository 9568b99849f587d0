//! The byte budget of a sibling group's stem.

use crate::group::{Sibling, SiblingView};
use crate::parts::ext_overhead;
use vstd::prelude::*;

verus! {

/// The bytes that the extensions of a sibling and their dots take.
pub open spec fn sibling_overhead(sibling: SiblingView) -> nat {
    ext_overhead(sibling.secondary_ext, sibling.primary_ext)
}

/// The largest extension overhead among `members`; 0 where there are none.
pub open spec fn max_overhead(members: Seq<SiblingView>) -> nat
    decreases members.len(),
{
    if members.len() == 0 {
        0
    } else {
        let before = max_overhead(members.drop_last());
        let last = sibling_overhead(members.last());
        if last > before {
            last
        } else {
            before
        }
    }
}

/// The bytes that the shared stem of `members` may take: the limit less the
/// largest extension overhead, and 0 where that overhead reaches the limit.
/// No members put no bound on the stem.
pub open spec fn stem_budget(members: Seq<SiblingView>, max_len: usize) -> int {
    if members.len() == 0 {
        usize::MAX as int
    } else if max_overhead(members) >= max_len {
        0
    } else {
        max_len - max_overhead(members)
    }
}

/// No member's overhead exceeds the largest, and where there are members the
/// largest is the overhead of one of them.
pub proof fn lemma_max_overhead(members: Seq<SiblingView>)
    ensures
        forall|i: int|
            0 <= i < members.len() ==> sibling_overhead(#[trigger] members[i]) <= max_overhead(
                members,
            ),
        members.len() > 0 ==> exists|i: int|
            0 <= i < members.len() && sibling_overhead(#[trigger] members[i]) == max_overhead(
                members,
            ),
    decreases members.len(),
{
    if members.len() > 0 {
        let front = members.drop_last();
        lemma_max_overhead(front);
        assert(forall|i: int| 0 <= i < front.len() ==> front[i] == members[i]);
        if sibling_overhead(members.last()) > max_overhead(front) || front.len() == 0 {
            assert(sibling_overhead(members[members.len() - 1]) == max_overhead(members));
        } else {
            let i = choose|i: int|
                0 <= i < front.len() && sibling_overhead(#[trigger] front[i]) == max_overhead(
                    front,
                );
            assert(sibling_overhead(members[i]) == max_overhead(members));
        }
    }
}

/// With the budget of its group as its stem's length, every member's name fits
/// the limit, unless its own extensions already exceed it.
pub proof fn lemma_stem_budget_fits(members: Seq<SiblingView>, max_len: usize, i: int)
    requires
        0 <= i < members.len(),
    ensures
        0 <= stem_budget(members, max_len) <= max_len,
        sibling_overhead(members[i]) <= max_len ==> stem_budget(members, max_len)
            + sibling_overhead(members[i]) <= max_len,
{
    lemma_max_overhead(members);
}

/// What the limit leaves for a stem beside one file's extensions.
fn stem_room(file: &Sibling, max_len: usize) -> (room: usize)
    ensures
        room == if sibling_overhead(file@) >= max_len {
            0
        } else {
            max_len - sibling_overhead(file@)
        },
{
    let mut room: usize = max_len;
    match &file.primary_ext {
        Some(e) => {
            room = room.saturating_sub(e.len()).saturating_sub(1);
        },
        None => {},
    }
    match &file.secondary_ext {
        Some(e) => {
            room = room.saturating_sub(e.len()).saturating_sub(1);
        },
        None => {},
    }
    room
}

/// Computes the number of bytes that the shared stem of a group may take so
/// that every file's name fits `max_len`: `max_len` less the largest extension
/// overhead among the files, or 0 where that overhead reaches `max_len`. The
/// overhead of a file is the length of each of its extensions plus one for the
/// dot before it. Without files the result is `usize::MAX`.
pub fn calculate_max_stem_bytes(files: &[Sibling], max_len: usize) -> (max_stem_bytes: usize)
    ensures
        max_stem_bytes == stem_budget(files.deep_view(), max_len),
        files@.len() > 0 ==> max_stem_bytes <= max_len,
        forall|i: int|
            0 <= i < files@.len() && sibling_overhead(#[trigger] files@[i]@) <= max_len
                ==> max_stem_bytes + sibling_overhead(files@[i]@) <= max_len,
{
    let mut max_stem_bytes: usize = usize::MAX;
    let mut i: usize = 0;
    while i < files.len()
        invariant
            i <= files.len(),
            max_stem_bytes == stem_budget(files.deep_view().take(i as int), max_len),
        decreases files.len() - i,
    {
        let room: usize = stem_room(&files[i], max_len);
        proof {
            let before = files.deep_view().take(i as int);
            let now = files.deep_view().take(i + 1);
            assert(now.drop_last() =~= before);
            assert(now.last() == files@[i as int]@);
        }
        if room < max_stem_bytes {
            max_stem_bytes = room;
        }
        i = i + 1;
    }
    proof {
        assert(files.deep_view().take(files.len() as int) =~= files.deep_view());
        assert forall|i: int|
            0 <= i < files@.len() && sibling_overhead(#[trigger] files@[i]@) <= max_len implies max_stem_bytes
            + sibling_overhead(files@[i]@) <= max_len by {
            assert(files.deep_view()[i] == files@[i]@);
            lemma_stem_budget_fits(files.deep_view(), max_len, i);
        }
        if files@.len() > 0 {
            lemma_stem_budget_fits(files.deep_view(), max_len, 0);
        }
    }
    max_stem_bytes
}

} // verus!
