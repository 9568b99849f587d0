//! What holds of every plan: each file's plan goes by the stem that its group
//! shares, extensions are kept, cut stems are decodable text, and names that
//! fit are left alone.

use crate::budget::{lemma_max_overhead, max_overhead, sibling_overhead, stem_budget};
use crate::entry::{joined_path, lemma_joined_path_injective, PathEntryView};
use crate::group::{
    group_with_key, grouped, key_of, keys_in_order, lemma_file_is_sibling, lemma_keys_cover,
    lemma_keys_distinct, lemma_siblings_with_key, sibling_of, siblings_with_key, SiblingGroupView,
    SiblingView,
};
use crate::parts::{
    assembled_name, dotted, lemma_raw_stem_decodable, lemma_split_reassembles, split_name,
};
use crate::plan::{
    all_group_plans, directory_plan, directory_plans, file_plans, group_plans, sibling_plan, Action,
};
use crate::text::{last_index_of, lemma_last_index_of, lemma_valid_prefix_len_whole, SPACE};
use crate::truncate::{
    lemma_cut_to_budget, lemma_truncated_stem, snap_floor, truncated_dir_name, truncated_stem,
};
use vstd::prelude::*;
use vstd::utf8::valid_utf8;

verus! {

/// The members of all `groups`, group after group.
pub open spec fn all_members(groups: Seq<SiblingGroupView>) -> Seq<SiblingView>
    decreases groups.len(),
{
    if groups.len() == 0 {
        Seq::empty()
    } else {
        all_members(groups.drop_last()) + groups.last().members
    }
}

/// The files among `entries` as siblings, in the order in which they are
/// planned: group after group.
pub open spec fn planned_siblings(entries: Seq<PathEntryView>, threshold: int) -> Seq<SiblingView> {
    all_members(grouped(entries, threshold))
}

/// The truncated stem that the files with `key` share.
pub open spec fn shared_stem(
    entries: Seq<PathEntryView>,
    key: (Seq<u8>, Seq<u8>),
    max_len: usize,
    threshold: int,
    word_boundaries: bool,
) -> Seq<u8> {
    truncated_stem(
        key.1,
        stem_budget(siblings_with_key(entries, key, threshold), max_len),
        word_boundaries,
    )
}

/// The stem of `sibling` once its plan is carried out: its own raw stem where
/// it is skipped, the stem that its group shares otherwise.
pub open spec fn final_stem(
    entries: Seq<PathEntryView>,
    sibling: SiblingView,
    max_len: usize,
    threshold: int,
    word_boundaries: bool,
) -> Seq<u8> {
    let key = key_of(sibling.entry, threshold);
    if sibling_overhead(sibling) > max_len {
        key.1
    } else {
        shared_stem(entries, key, max_len, threshold, word_boundaries)
    }
}

/// The name of `sibling` once its plan is carried out.
pub open spec fn final_name(
    entries: Seq<PathEntryView>,
    sibling: SiblingView,
    max_len: usize,
    threshold: int,
    word_boundaries: bool,
) -> Seq<u8> {
    assembled_name(
        final_stem(entries, sibling, max_len, threshold, word_boundaries),
        sibling.secondary_ext,
        sibling.primary_ext,
    )
}

/// Whether `group` holds exactly the files among `entries` that have its
/// directory and its raw stem.
pub open spec fn is_group_of(
    group: SiblingGroupView,
    entries: Seq<PathEntryView>,
    threshold: int,
) -> bool {
    group == group_with_key(entries, (group.parent, group.raw_stem), threshold)
}

/// Every sibling group of `entries` is non-empty and holds exactly the files
/// that have its directory and its raw stem; no two groups have the same
/// directory and raw stem; and every file is a member of the group of its
/// directory and raw stem.
pub proof fn law_groups(entries: Seq<PathEntryView>, threshold: int)
    ensures
        forall|g: int|
            0 <= g < grouped(entries, threshold).len() ==> {
                &&& is_group_of(#[trigger] grouped(entries, threshold)[g], entries, threshold)
                &&& grouped(entries, threshold)[g].members.len() > 0
            },
        forall|g: int, h: int|
            0 <= g < h < grouped(entries, threshold).len() ==> {
                ||| (#[trigger] grouped(entries, threshold)[g]).parent != (#[trigger] grouped(
                    entries,
                    threshold,
                )[h]).parent
                ||| grouped(entries, threshold)[g].raw_stem != grouped(
                    entries,
                    threshold,
                )[h].raw_stem
            },
        forall|i: int|
            0 <= i < entries.len() && !(#[trigger] entries[i]).is_dir ==> exists|g: int|
                0 <= g < grouped(entries, threshold).len() && (#[trigger] grouped(
                    entries,
                    threshold,
                )[g]).parent == entries[i].parent && grouped(entries, threshold)[g].raw_stem
                    == split_name(entries[i].file_name, threshold).raw_stem,
{
    let keys = keys_in_order(entries, threshold);
    let groups = grouped(entries, threshold);
    lemma_keys_distinct(entries, threshold);
    assert forall|g: int| 0 <= g < groups.len() implies {
        &&& is_group_of(#[trigger] groups[g], entries, threshold)
        &&& groups[g].members.len() > 0
    } by {
        assert(keys.contains(keys[g]));
        lemma_siblings_with_key(entries, keys[g], threshold);
    }
    assert forall|g: int, h: int| 0 <= g < h < groups.len() implies {
        ||| (#[trigger] groups[g]).parent != (#[trigger] groups[h]).parent
        ||| groups[g].raw_stem != groups[h].raw_stem
    } by {
        assert(keys[g] != keys[h]);
    }
    assert forall|i: int| 0 <= i < entries.len() && !(#[trigger] entries[i]).is_dir implies exists|
        g: int,
    |
        0 <= g < groups.len() && (#[trigger] groups[g]).parent == entries[i].parent
            && groups[g].raw_stem == split_name(entries[i].file_name, threshold).raw_stem by {
        let key = key_of(entries[i], threshold);
        lemma_keys_cover(entries, key, threshold);
        let g = choose|g: int| 0 <= g < keys.len() && keys[g] == key;
        assert(groups[g].parent == entries[i].parent);
    }
}

/// Every member of a group of `entries` is one of the files among `entries`,
/// and has the group's directory and raw stem.
pub proof fn lemma_group_members(
    group: SiblingGroupView,
    entries: Seq<PathEntryView>,
    threshold: int,
    m: int,
)
    requires
        is_group_of(group, entries, threshold),
        0 <= m < group.members.len(),
    ensures
        key_of(group.members[m].entry, threshold) == (group.parent, group.raw_stem),
        exists|i: int|
            0 <= i < entries.len() && !(#[trigger] entries[i]).is_dir && group.members[m]
                == sibling_of(entries[i], threshold),
{
    let key = (group.parent, group.raw_stem);
    lemma_siblings_with_key(entries, key, threshold);
    let members = siblings_with_key(entries, key, threshold);
    let i = choose|i: int|
        0 <= i < entries.len() && !(#[trigger] entries[i]).is_dir && key_of(entries[i], threshold)
            == key && members[m] == sibling_of(entries[i], threshold);
    assert(group.members[m] == sibling_of(entries[i], threshold));
}

proof fn lemma_plans_by_member(
    groups: Seq<SiblingGroupView>,
    entries: Seq<PathEntryView>,
    max_len: usize,
    threshold: int,
    word_boundaries: bool,
)
    requires
        forall|g: int| 0 <= g < groups.len() ==> is_group_of(#[trigger] groups[g], entries, threshold),
    ensures
        all_group_plans(groups, max_len, word_boundaries).len() == all_members(groups).len(),
        forall|k: int|
            0 <= k < all_members(groups).len() ==> {
                &&& (#[trigger] all_group_plans(groups, max_len, word_boundaries)[k])
                    == sibling_plan(
                    all_members(groups)[k],
                    shared_stem(
                        entries,
                        key_of(all_members(groups)[k].entry, threshold),
                        max_len,
                        threshold,
                        word_boundaries,
                    ),
                    max_len,
                )
                &&& exists|i: int|
                    0 <= i < entries.len() && !(#[trigger] entries[i]).is_dir && all_members(
                        groups,
                    )[k] == sibling_of(entries[i], threshold)
            },
    decreases groups.len(),
{
    if groups.len() > 0 {
        let front = groups.drop_last();
        let last = groups.last();
        lemma_plans_by_member(front, entries, max_len, threshold, word_boundaries);
        let plans = all_group_plans(groups, max_len, word_boundaries);
        let members = all_members(groups);
        let base = all_members(front).len() as int;
        assert(is_group_of(groups[groups.len() - 1], entries, threshold));
        assert forall|k: int| 0 <= k < members.len() implies {
            &&& (#[trigger] plans[k]) == sibling_plan(
                members[k],
                shared_stem(
                    entries,
                    key_of(members[k].entry, threshold),
                    max_len,
                    threshold,
                    word_boundaries,
                ),
                max_len,
            )
            &&& exists|i: int|
                0 <= i < entries.len() && !(#[trigger] entries[i]).is_dir && members[k]
                    == sibling_of(entries[i], threshold)
        } by {
            if k < base {
                assert(plans[k] == all_group_plans(front, max_len, word_boundaries)[k]);
                assert(members[k] == all_members(front)[k]);
            } else {
                let m = k - base;
                assert(members[k] == last.members[m]);
                assert(plans[k] == group_plans(last, max_len, word_boundaries)[m]);
                lemma_group_members(last, entries, threshold, m);
            }
        }
    }
}

/// The plans for the files among `entries` are the plans of the planned
/// siblings, one for one: each sibling is one of the files, and its plan goes
/// by the stem that the files of its directory and raw stem share.
pub proof fn law_file_plans(
    entries: Seq<PathEntryView>,
    max_len: usize,
    threshold: int,
    word_boundaries: bool,
)
    ensures
        file_plans(entries, max_len, threshold, word_boundaries).len() == planned_siblings(
            entries,
            threshold,
        ).len(),
        forall|k: int|
            0 <= k < planned_siblings(entries, threshold).len() ==> {
                &&& (#[trigger] file_plans(entries, max_len, threshold, word_boundaries)[k])
                    == sibling_plan(
                    planned_siblings(entries, threshold)[k],
                    shared_stem(
                        entries,
                        key_of(planned_siblings(entries, threshold)[k].entry, threshold),
                        max_len,
                        threshold,
                        word_boundaries,
                    ),
                    max_len,
                )
                &&& exists|i: int|
                    0 <= i < entries.len() && !(#[trigger] entries[i]).is_dir && planned_siblings(
                        entries,
                        threshold,
                    )[k] == sibling_of(entries[i], threshold)
            },
{
    law_groups(entries, threshold);
    lemma_plans_by_member(grouped(entries, threshold), entries, max_len, threshold, word_boundaries);
}

proof fn lemma_member_is_planned(groups: Seq<SiblingGroupView>, g: int, m: int)
    requires
        0 <= g < groups.len(),
        0 <= m < groups[g].members.len(),
    ensures
        all_members(groups).contains(groups[g].members[m]),
    decreases groups.len(),
{
    let front = groups.drop_last();
    let base = all_members(front).len() as int;
    if g == groups.len() - 1 {
        assert(all_members(groups)[base + m] == groups[g].members[m]);
    } else {
        assert(front[g] == groups[g]);
        lemma_member_is_planned(front, g, m);
        let k = choose|k: int|
            0 <= k < all_members(front).len() && all_members(front)[k] == front[g].members[m];
        assert(all_members(groups)[k] == groups[g].members[m]);
    }
}

/// Every file among `entries` is planned.
pub proof fn law_every_file_planned(entries: Seq<PathEntryView>, threshold: int, i: int)
    requires
        0 <= i < entries.len(),
        !entries[i].is_dir,
    ensures
        planned_siblings(entries, threshold).contains(sibling_of(entries[i], threshold)),
{
    let key = key_of(entries[i], threshold);
    let keys = keys_in_order(entries, threshold);
    let groups = grouped(entries, threshold);
    lemma_keys_cover(entries, key, threshold);
    let g = choose|g: int| 0 <= g < keys.len() && keys[g] == key;
    lemma_file_is_sibling(entries, i, threshold);
    let m = choose|m: int|
        0 <= m < siblings_with_key(entries, key, threshold).len() && #[trigger] siblings_with_key(
            entries,
            key,
            threshold,
        )[m] == sibling_of(entries[i], threshold);
    assert(groups[g].members[m] == sibling_of(entries[i], threshold));
    lemma_member_is_planned(groups, g, m);
}

/// The number of files among `entries`.
pub open spec fn file_count(entries: Seq<PathEntryView>) -> nat
    decreases entries.len(),
{
    if entries.len() == 0 {
        0
    } else if entries.last().is_dir {
        file_count(entries.drop_last())
    } else {
        file_count(entries.drop_last()) + 1
    }
}

/// The number of files among `entries` that have one of `keys`, each key
/// counted by itself.
spec fn members_total(
    entries: Seq<PathEntryView>,
    keys: Seq<(Seq<u8>, Seq<u8>)>,
    threshold: int,
) -> nat
    decreases keys.len(),
{
    if keys.len() == 0 {
        0
    } else {
        members_total(entries, keys.drop_last(), threshold) + siblings_with_key(
            entries,
            keys.last(),
            threshold,
        ).len()
    }
}

proof fn lemma_members_total_of_groups(
    entries: Seq<PathEntryView>,
    keys: Seq<(Seq<u8>, Seq<u8>)>,
    threshold: int,
)
    ensures
        all_members(
            Seq::new(keys.len(), |g: int| group_with_key(entries, keys[g], threshold)),
        ).len() == members_total(entries, keys, threshold),
    decreases keys.len(),
{
    if keys.len() > 0 {
        let front = keys.drop_last();
        lemma_members_total_of_groups(entries, front, threshold);
        let groups = Seq::new(keys.len(), |g: int| group_with_key(entries, keys[g], threshold));
        assert(groups.drop_last() =~= Seq::new(
            front.len(),
            |g: int| group_with_key(entries, front[g], threshold),
        ));
    }
}

proof fn lemma_members_total_grows(
    entries: Seq<PathEntryView>,
    keys: Seq<(Seq<u8>, Seq<u8>)>,
    threshold: int,
)
    requires
        entries.len() > 0,
        keys.no_duplicates(),
    ensures
        members_total(entries, keys, threshold) == members_total(
            entries.drop_last(),
            keys,
            threshold,
        ) + if !entries.last().is_dir && keys.contains(key_of(entries.last(), threshold)) {
            1nat
        } else {
            0nat
        },
    decreases keys.len(),
{
    if keys.len() > 0 {
        let front = keys.drop_last();
        let key = key_of(entries.last(), threshold);
        lemma_members_total_grows(entries, front, threshold);
        if front.contains(key) {
            let g = choose|g: int| 0 <= g < front.len() && front[g] == key;
            assert(keys[g] == key);
            assert(keys[keys.len() - 1] != key);
        }
        if keys.contains(key) && keys.last() != key {
            let g = choose|g: int| 0 <= g < keys.len() && keys[g] == key;
            assert(front[g] == key);
        }
        if keys.last() == key {
            assert(keys[keys.len() - 1] == key);
        }
    }
}

proof fn lemma_members_total_is_file_count(entries: Seq<PathEntryView>, threshold: int)
    ensures
        members_total(entries, keys_in_order(entries, threshold), threshold) == file_count(entries),
    decreases entries.len(),
{
    if entries.len() > 0 {
        let front = entries.drop_last();
        let before = keys_in_order(front, threshold);
        let keys = keys_in_order(entries, threshold);
        let key = key_of(entries.last(), threshold);
        lemma_members_total_is_file_count(front, threshold);
        lemma_keys_distinct(front, threshold);
        lemma_members_total_grows(entries, before, threshold);
        if !entries.last().is_dir && !before.contains(key) {
            assert(keys.drop_last() =~= before);
            lemma_siblings_with_key(front, key, threshold);
        }
    }
}

/// There are as many plans as there are files among `entries`.
pub proof fn law_one_plan_per_file(
    entries: Seq<PathEntryView>,
    max_len: usize,
    threshold: int,
    word_boundaries: bool,
)
    ensures
        file_plans(entries, max_len, threshold, word_boundaries).len() == file_count(entries),
        planned_siblings(entries, threshold).len() == file_count(entries),
{
    law_file_plans(entries, max_len, threshold, word_boundaries);
    lemma_members_total_of_groups(entries, keys_in_order(entries, threshold), threshold);
    lemma_members_total_is_file_count(entries, threshold);
}

/// The budget of the group of the file `entries[i]` is at most the limit, and
/// leaves room for the extensions of that file unless they alone exceed the
/// limit. Where the names of all files fit the limit, the raw stem fits the
/// budget.
proof fn lemma_budget_of_sibling(
    entries: Seq<PathEntryView>,
    i: int,
    max_len: usize,
    threshold: int,
)
    requires
        0 <= i < entries.len(),
        !entries[i].is_dir,
    ensures
        ({
            let key = key_of(entries[i], threshold);
            let budget = stem_budget(siblings_with_key(entries, key, threshold), max_len);
            let overhead = sibling_overhead(sibling_of(entries[i], threshold));
            &&& 0 <= budget <= max_len
            &&& overhead <= max_len ==> budget + overhead <= max_len
            &&& overhead > max_len ==> budget == 0
            &&& (forall|j: int|
                0 <= j < entries.len() && !(#[trigger] entries[j]).is_dir
                    ==> entries[j].file_name.len() <= max_len) ==> key.1.len() <= budget
        }),
{
    let key = key_of(entries[i], threshold);
    let members = siblings_with_key(entries, key, threshold);
    lemma_file_is_sibling(entries, i, threshold);
    lemma_max_overhead(members);
    lemma_siblings_with_key(entries, key, threshold);
    let m = choose|m: int|
        0 <= m < members.len() && #[trigger] members[m] == sibling_of(entries[i], threshold);
    assert(sibling_overhead(members[m]) <= max_overhead(members));
    if forall|j: int|
        0 <= j < entries.len() && !(#[trigger] entries[j]).is_dir ==> entries[j].file_name.len()
            <= max_len {
        let w = choose|w: int|
            0 <= w < members.len() && sibling_overhead(#[trigger] members[w]) == max_overhead(
                members,
            );
        let j = choose|j: int|
            0 <= j < entries.len() && !(#[trigger] entries[j]).is_dir && key_of(entries[j], threshold)
                == key && members[w] == sibling_of(entries[j], threshold);
        lemma_split_reassembles(entries[j].file_name, threshold);
    }
}

/// A file is skipped exactly if its extensions and their dots alone exceed the
/// limit. Its plan leads from its own path to the path of its final name, and
/// leaves it unchanged exactly if that is the name it has.
pub proof fn law_plan_of_file(
    entries: Seq<PathEntryView>,
    max_len: usize,
    threshold: int,
    word_boundaries: bool,
    k: int,
)
    requires
        0 <= k < planned_siblings(entries, threshold).len(),
    ensures
        ({
            let sibling = planned_siblings(entries, threshold)[k];
            let plan = file_plans(entries, max_len, threshold, word_boundaries)[k];
            let name = final_name(entries, sibling, max_len, threshold, word_boundaries);
            &&& (plan.action == Action::SkippedOversized <==> sibling_overhead(sibling) > max_len)
            &&& (plan.action == Action::Unchanged <==> sibling_overhead(sibling) <= max_len && name
                == sibling.entry.file_name)
            &&& (plan.action == Action::SkippedOversized ==> name == sibling.entry.file_name)
            &&& plan.original_path == joined_path(sibling.entry.parent, sibling.entry.file_name)
            &&& plan.new_path == joined_path(sibling.entry.parent, name)
            &&& (plan.action != Action::SkippedOversized ==> name.len() <= max_len)
        }),
{
    law_file_plans(entries, max_len, threshold, word_boundaries);
    let sibling = planned_siblings(entries, threshold)[k];
    let plan = file_plans(entries, max_len, threshold, word_boundaries)[k];
    let i = choose|i: int|
        0 <= i < entries.len() && !(#[trigger] entries[i]).is_dir && sibling == sibling_of(
            entries[i],
            threshold,
        );
    let key = key_of(entries[i], threshold);
    let budget = stem_budget(siblings_with_key(entries, key, threshold), max_len);
    let stem = shared_stem(entries, key, max_len, threshold, word_boundaries);
    let fitted = assembled_name(stem, sibling.secondary_ext, sibling.primary_ext);
    lemma_budget_of_sibling(entries, i, max_len, threshold);
    lemma_truncated_stem(key.1, budget, word_boundaries);
    lemma_split_reassembles(entries[i].file_name, threshold);
    assert(plan == sibling_plan(sibling, stem, max_len));
    assert(fitted.len() == stem.len() + sibling_overhead(sibling));
    if joined_path(sibling.entry.parent, fitted) == joined_path(
        sibling.entry.parent,
        sibling.entry.file_name,
    ) {
        lemma_joined_path_injective(sibling.entry.parent, fitted, sibling.entry.file_name);
    }
}

/// The primary extension of a file stands unmodified at the end of the name
/// that its plan leads to, after a dot.
pub proof fn law_primary_extension_kept(
    entries: Seq<PathEntryView>,
    max_len: usize,
    threshold: int,
    word_boundaries: bool,
    k: int,
)
    requires
        0 <= k < planned_siblings(entries, threshold).len(),
        planned_siblings(entries, threshold)[k].primary_ext is Some,
    ensures
        ({
            let sibling = planned_siblings(entries, threshold)[k];
            let plan = file_plans(entries, max_len, threshold, word_boundaries)[k];
            let name = final_name(entries, sibling, max_len, threshold, word_boundaries);
            &&& plan.new_path == joined_path(sibling.entry.parent, name)
            &&& dotted(sibling.primary_ext).is_suffix_of(name)
            &&& dotted(sibling.primary_ext).is_suffix_of(plan.new_path)
        }),
{
    law_plan_of_file(entries, max_len, threshold, word_boundaries, k);
    let sibling = planned_siblings(entries, threshold)[k];
    let plan = file_plans(entries, max_len, threshold, word_boundaries)[k];
    let name = final_name(entries, sibling, max_len, threshold, word_boundaries);
    let ext = dotted(sibling.primary_ext);
    assert(ext =~= name.subrange(name.len() - ext.len(), name.len() as int));
    assert(ext =~= plan.new_path.subrange(
        plan.new_path.len() - ext.len(),
        plan.new_path.len() as int,
    ));
}

/// Two files of one directory with one raw stem have the same stem once their
/// plans are carried out, byte for byte and so in length, provided that both
/// are skipped, or neither is, or the stem that the group shares is the raw
/// stem itself.
pub proof fn law_group_shares_stem(
    entries: Seq<PathEntryView>,
    max_len: usize,
    threshold: int,
    word_boundaries: bool,
    k1: int,
    k2: int,
)
    requires
        0 <= k1 < planned_siblings(entries, threshold).len(),
        0 <= k2 < planned_siblings(entries, threshold).len(),
        key_of(planned_siblings(entries, threshold)[k1].entry, threshold) == key_of(
            planned_siblings(entries, threshold)[k2].entry,
            threshold,
        ),
        ({
            let plans = file_plans(entries, max_len, threshold, word_boundaries);
            let key = key_of(planned_siblings(entries, threshold)[k1].entry, threshold);
            ||| (plans[k1].action == Action::SkippedOversized) == (plans[k2].action
                == Action::SkippedOversized)
            ||| shared_stem(entries, key, max_len, threshold, word_boundaries) == key.1
        }),
    ensures
        ({
            let first = planned_siblings(entries, threshold)[k1];
            let second = planned_siblings(entries, threshold)[k2];
            let plans = file_plans(entries, max_len, threshold, word_boundaries);
            let stem = final_stem(entries, first, max_len, threshold, word_boundaries);
            &&& stem == final_stem(entries, second, max_len, threshold, word_boundaries)
            &&& plans[k1].new_path == joined_path(
                first.entry.parent,
                assembled_name(stem, first.secondary_ext, first.primary_ext),
            )
            &&& plans[k2].new_path == joined_path(
                second.entry.parent,
                assembled_name(stem, second.secondary_ext, second.primary_ext),
            )
        }),
{
    law_plan_of_file(entries, max_len, threshold, word_boundaries, k1);
    law_plan_of_file(entries, max_len, threshold, word_boundaries, k2);
}

/// The stem of a file that is renamed is decodable text, whatever bytes the
/// name held; and so is the stem of every file whose name was decodable text.
pub proof fn law_stems_decodable(
    entries: Seq<PathEntryView>,
    max_len: usize,
    threshold: int,
    word_boundaries: bool,
    k: int,
)
    requires
        0 <= k < planned_siblings(entries, threshold).len(),
        ({
            ||| file_plans(entries, max_len, threshold, word_boundaries)[k].action
                == Action::Renamed
            ||| valid_utf8(planned_siblings(entries, threshold)[k].entry.file_name)
        }),
    ensures
        valid_utf8(
            final_stem(
                entries,
                planned_siblings(entries, threshold)[k],
                max_len,
                threshold,
                word_boundaries,
            ),
        ),
{
    law_file_plans(entries, max_len, threshold, word_boundaries);
    law_plan_of_file(entries, max_len, threshold, word_boundaries, k);
    let sibling = planned_siblings(entries, threshold)[k];
    let i = choose|i: int|
        0 <= i < entries.len() && !(#[trigger] entries[i]).is_dir && sibling == sibling_of(
            entries[i],
            threshold,
        );
    let key = key_of(entries[i], threshold);
    let budget = stem_budget(siblings_with_key(entries, key, threshold), max_len);
    lemma_budget_of_sibling(entries, i, max_len, threshold);
    lemma_truncated_stem(key.1, budget, word_boundaries);
    lemma_split_reassembles(entries[i].file_name, threshold);
    if valid_utf8(sibling.entry.file_name) {
        lemma_raw_stem_decodable(entries[i].file_name, threshold);
    }
}

/// Where the name of every file among `entries` fits the limit, every file is
/// left unchanged.
pub proof fn law_fitting_files_unchanged(
    entries: Seq<PathEntryView>,
    max_len: usize,
    threshold: int,
    word_boundaries: bool,
)
    requires
        forall|i: int|
            0 <= i < entries.len() && !(#[trigger] entries[i]).is_dir ==> entries[i].file_name.len()
                <= max_len,
    ensures
        forall|k: int|
            0 <= k < file_plans(entries, max_len, threshold, word_boundaries).len() ==> (
            #[trigger] file_plans(entries, max_len, threshold, word_boundaries)[k]).action
                == Action::Unchanged,
{
    law_file_plans(entries, max_len, threshold, word_boundaries);
    let plans = file_plans(entries, max_len, threshold, word_boundaries);
    assert forall|k: int| 0 <= k < plans.len() implies (#[trigger] plans[k]).action
        == Action::Unchanged by {
        law_plan_of_file(entries, max_len, threshold, word_boundaries, k);
        let sibling = planned_siblings(entries, threshold)[k];
        let i = choose|i: int|
            0 <= i < entries.len() && !(#[trigger] entries[i]).is_dir && sibling == sibling_of(
                entries[i],
                threshold,
            );
        let key = key_of(entries[i], threshold);
        let budget = stem_budget(siblings_with_key(entries, key, threshold), max_len);
        lemma_budget_of_sibling(entries, i, max_len, threshold);
        lemma_truncated_stem(key.1, budget, word_boundaries);
        lemma_split_reassembles(entries[i].file_name, threshold);
    }
}

/// The files among `entries` as the plans leave them: each in its directory,
/// under its final name.
pub open spec fn files_after(
    entries: Seq<PathEntryView>,
    max_len: usize,
    threshold: int,
    word_boundaries: bool,
) -> Seq<PathEntryView> {
    Seq::new(
        planned_siblings(entries, threshold).len(),
        |k: int|
            PathEntryView {
                parent: planned_siblings(entries, threshold)[k].entry.parent,
                file_name: final_name(
                    entries,
                    planned_siblings(entries, threshold)[k],
                    max_len,
                    threshold,
                    word_boundaries,
                ),
                is_dir: false,
            },
    )
}

/// Planning is idempotent on files: where no file is skipped, planning the
/// files as the plans leave them, under the same limit and settings, leaves
/// every file unchanged.
pub proof fn law_files_settle(
    entries: Seq<PathEntryView>,
    max_len: usize,
    threshold: int,
    word_boundaries: bool,
)
    requires
        forall|k: int|
            0 <= k < file_plans(entries, max_len, threshold, word_boundaries).len() ==> (
            #[trigger] file_plans(entries, max_len, threshold, word_boundaries)[k]).action
                != Action::SkippedOversized,
    ensures
        forall|k: int|
            0 <= k < file_plans(
                files_after(entries, max_len, threshold, word_boundaries),
                max_len,
                threshold,
                word_boundaries,
            ).len() ==> (#[trigger] file_plans(
                files_after(entries, max_len, threshold, word_boundaries),
                max_len,
                threshold,
                word_boundaries,
            )[k]).action == Action::Unchanged,
{
    law_file_plans(entries, max_len, threshold, word_boundaries);
    let after = files_after(entries, max_len, threshold, word_boundaries);
    let plans = file_plans(entries, max_len, threshold, word_boundaries);
    assert forall|i: int| 0 <= i < after.len() && !(#[trigger] after[i]).is_dir implies after[i].file_name.len()
        <= max_len by {
        law_plan_of_file(entries, max_len, threshold, word_boundaries, i);
        assert(plans[i].action != Action::SkippedOversized);
    }
    law_fitting_files_unchanged(after, max_len, threshold, word_boundaries);
}

/// The directories among `entries`, in their order.
pub open spec fn directories_of(entries: Seq<PathEntryView>) -> Seq<PathEntryView>
    decreases entries.len(),
{
    if entries.len() == 0 {
        Seq::empty()
    } else if entries.last().is_dir {
        directories_of(entries.drop_last()).push(entries.last())
    } else {
        directories_of(entries.drop_last())
    }
}

/// The plans for the directories among `entries` are the plans of those
/// directories, one for one.
pub proof fn law_directory_plans(entries: Seq<PathEntryView>, max_len: usize, word_boundaries: bool)
    ensures
        directory_plans(entries, max_len, word_boundaries).len() == directories_of(entries).len(),
        forall|d: int|
            0 <= d < directories_of(entries).len() ==> {
                &&& (#[trigger] directory_plans(entries, max_len, word_boundaries)[d])
                    == directory_plan(directories_of(entries)[d], max_len, word_boundaries)
                &&& directories_of(entries)[d].is_dir
                &&& entries.contains(directories_of(entries)[d])
            },
    decreases entries.len(),
{
    if entries.len() > 0 {
        let front = entries.drop_last();
        law_directory_plans(front, max_len, word_boundaries);
        let dirs = directories_of(entries);
        assert forall|d: int| 0 <= d < dirs.len() implies #[trigger] entries.contains(dirs[d]) by {
            if d < directories_of(front).len() {
                assert(directory_plans(front, max_len, word_boundaries)[d] == directory_plan(
                    directories_of(front)[d],
                    max_len,
                    word_boundaries,
                ));
                assert(front.contains(directories_of(front)[d]));
                let i = choose|i: int|
                    0 <= i < front.len() && front[i] == directories_of(front)[d];
                assert(entries[i] == dirs[d]);
            } else {
                assert(entries[entries.len() - 1] == dirs[d]);
            }
        }
    }
}

/// A directory is never skipped. Its plan leads from its own path to the path
/// of its truncated name, which is decodable text and fits the limit, and
/// leaves it unchanged exactly if that is the name it has.
pub proof fn law_plan_of_directory(entry: PathEntryView, max_len: usize, word_boundaries: bool)
    ensures
        ({
            let plan = directory_plan(entry, max_len, word_boundaries);
            let name = truncated_dir_name(entry.file_name, max_len as int, word_boundaries);
            &&& plan.action != Action::SkippedOversized
            &&& (plan.action == Action::Unchanged <==> name == entry.file_name)
            &&& plan.original_path == joined_path(entry.parent, entry.file_name)
            &&& plan.new_path == joined_path(entry.parent, name)
            &&& name.is_prefix_of(entry.file_name)
            &&& name.len() <= max_len
            &&& valid_utf8(name)
        }),
{
    let name = truncated_dir_name(entry.file_name, max_len as int, word_boundaries);
    lemma_cut_to_budget(entry.file_name, max_len as int, word_boundaries);
    if joined_path(entry.parent, name) == joined_path(entry.parent, entry.file_name) {
        lemma_joined_path_injective(entry.parent, name, entry.file_name);
    }
}

/// Whether a truncated directory name still holds a space so near the limit
/// that truncating it again would cut at that space.
pub open spec fn has_space_near_limit(name: Seq<u8>, max_len: usize) -> bool {
    match last_index_of(name, SPACE) {
        Some(i) => i > snap_floor(max_len as int),
        None => false,
    }
}

/// Truncating a truncated directory name again changes nothing, unless word
/// boundaries are asked for and the truncated name still holds a space near
/// the limit; then it is cut again.
pub proof fn law_directory_name_settles(name: Seq<u8>, max_len: usize, word_boundaries: bool)
    ensures
        ({
            let once = truncated_dir_name(name, max_len as int, word_boundaries);
            let twice = truncated_dir_name(once, max_len as int, word_boundaries);
            if word_boundaries && has_space_near_limit(once, max_len) {
                twice != once
            } else {
                twice == once
            }
        }),
{
    let once = truncated_dir_name(name, max_len as int, word_boundaries);
    lemma_cut_to_budget(name, max_len as int, word_boundaries);
    lemma_valid_prefix_len_whole(once, max_len as int);
    assert(once.take(once.len() as int) =~= once);
    lemma_last_index_of(once, SPACE);
}

/// The directories among `entries` as the plans leave them: each in its
/// parent, under its truncated name.
pub open spec fn directories_after(
    entries: Seq<PathEntryView>,
    max_len: usize,
    word_boundaries: bool,
) -> Seq<PathEntryView> {
    Seq::new(
        directories_of(entries).len(),
        |d: int|
            PathEntryView {
                parent: directories_of(entries)[d].parent,
                file_name: truncated_dir_name(
                    directories_of(entries)[d].file_name,
                    max_len as int,
                    word_boundaries,
                ),
                is_dir: true,
            },
    )
}

/// Planning is idempotent on directories: planning the directories as the
/// plans leave them, under the same limit and settings, leaves every directory
/// unchanged, provided that word boundaries are not asked for or that no
/// truncated name still holds a space near the limit.
pub proof fn law_directories_settle(
    entries: Seq<PathEntryView>,
    max_len: usize,
    word_boundaries: bool,
)
    requires
        word_boundaries ==> forall|d: int|
            0 <= d < directories_after(entries, max_len, word_boundaries).len()
                ==> !has_space_near_limit(
                (#[trigger] directories_after(entries, max_len, word_boundaries)[d]).file_name,
                max_len,
            ),
    ensures
        forall|d: int|
            0 <= d < directory_plans(
                directories_after(entries, max_len, word_boundaries),
                max_len,
                word_boundaries,
            ).len() ==> (#[trigger] directory_plans(
                directories_after(entries, max_len, word_boundaries),
                max_len,
                word_boundaries,
            )[d]).action == Action::Unchanged,
{
    let after = directories_after(entries, max_len, word_boundaries);
    let plans = directory_plans(after, max_len, word_boundaries);
    law_directory_plans(after, max_len, word_boundaries);
    assert forall|d: int| 0 <= d < plans.len() implies (#[trigger] plans[d]).action
        == Action::Unchanged by {
        let dir = directories_of(after)[d];
        assert(after.contains(dir));
        let i = choose|i: int| 0 <= i < after.len() && after[i] == dir;
        law_directory_name_settles(directories_of(entries)[i].file_name, max_len, word_boundaries);
        law_plan_of_directory(dir, max_len, word_boundaries);
    }
}

} // verus!
