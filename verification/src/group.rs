//! Sibling groups: the files of one directory that share a raw stem.

use crate::entry::{PathEntry, PathEntryView};
use crate::parts::{opt_bytes, split_name, split_rstem_ext};
use crate::text::bytes_eq;
use vstd::prelude::*;
use vstd::slice::slice_to_vec;

verus! {

/// A file with the extensions that were split from its name.
#[derive(Clone, Debug, PartialEq, Eq)]
pub struct Sibling {
    pub entry: PathEntry,
    pub secondary_ext: Option<Vec<u8>>,
    pub primary_ext: Option<Vec<u8>>,
}

/// A sibling as plain values.
pub struct SiblingView {
    pub entry: PathEntryView,
    pub secondary_ext: Option<Seq<u8>>,
    pub primary_ext: Option<Seq<u8>>,
}

impl View for Sibling {
    type V = SiblingView;

    open spec fn view(&self) -> SiblingView {
        SiblingView {
            entry: self.entry@,
            secondary_ext: opt_bytes(self.secondary_ext),
            primary_ext: opt_bytes(self.primary_ext),
        }
    }
}

impl DeepView for Sibling {
    type V = SiblingView;

    open spec fn deep_view(&self) -> SiblingView {
        self@
    }
}

/// The files of one directory that share one raw stem, in the order in which
/// the traversal gave them.
#[derive(Clone, Debug, PartialEq, Eq)]
pub struct SiblingGroup {
    pub parent: Vec<u8>,
    pub raw_stem: Vec<u8>,
    pub members: Vec<Sibling>,
}

/// A sibling group as plain values.
pub struct SiblingGroupView {
    pub parent: Seq<u8>,
    pub raw_stem: Seq<u8>,
    pub members: Seq<SiblingView>,
}

impl View for SiblingGroup {
    type V = SiblingGroupView;

    open spec fn view(&self) -> SiblingGroupView {
        SiblingGroupView {
            parent: self.parent@,
            raw_stem: self.raw_stem@,
            members: self.members.deep_view(),
        }
    }
}

impl DeepView for SiblingGroup {
    type V = SiblingGroupView;

    open spec fn deep_view(&self) -> SiblingGroupView {
        self@
    }
}

impl SiblingGroupView {
    /// Whether the group is a sibling group: it has a member, and every member
    /// is a file of the group's directory whose name splits into the group's
    /// raw stem and the extensions that the member carries.
    pub open spec fn well_formed(self, threshold: int) -> bool {
        &&& self.members.len() > 0
        &&& forall|m: int|
            0 <= m < self.members.len() ==> {
                &&& !(#[trigger] self.members[m]).entry.is_dir
                &&& self.members[m] == sibling_of(self.members[m].entry, threshold)
                &&& key_of(self.members[m].entry, threshold) == (self.parent, self.raw_stem)
            }
    }
}

/// What a file is grouped by: the directory it lies in and its raw stem.
pub open spec fn key_of(entry: PathEntryView, threshold: int) -> (Seq<u8>, Seq<u8>) {
    (entry.parent, split_name(entry.file_name, threshold).raw_stem)
}

/// A file as a sibling: the entry with the extensions split from its name.
pub open spec fn sibling_of(entry: PathEntryView, threshold: int) -> SiblingView {
    let parts = split_name(entry.file_name, threshold);
    SiblingView { entry, secondary_ext: parts.secondary_ext, primary_ext: parts.primary_ext }
}

/// The files among `entries` that are grouped by `key`, in their order.
pub open spec fn siblings_with_key(
    entries: Seq<PathEntryView>,
    key: (Seq<u8>, Seq<u8>),
    threshold: int,
) -> Seq<SiblingView>
    decreases entries.len(),
{
    if entries.len() == 0 {
        Seq::empty()
    } else {
        let before = siblings_with_key(entries.drop_last(), key, threshold);
        let entry = entries.last();
        if !entry.is_dir && key_of(entry, threshold) == key {
            before.push(sibling_of(entry, threshold))
        } else {
            before
        }
    }
}

/// The keys of the files among `entries`, each once, in the order in which
/// they first appear.
pub open spec fn keys_in_order(entries: Seq<PathEntryView>, threshold: int) -> Seq<
    (Seq<u8>, Seq<u8>),
>
    decreases entries.len(),
{
    if entries.len() == 0 {
        Seq::empty()
    } else {
        let before = keys_in_order(entries.drop_last(), threshold);
        let entry = entries.last();
        if entry.is_dir || before.contains(key_of(entry, threshold)) {
            before
        } else {
            before.push(key_of(entry, threshold))
        }
    }
}

/// The group of the files among `entries` that `key` stands for.
pub open spec fn group_with_key(
    entries: Seq<PathEntryView>,
    key: (Seq<u8>, Seq<u8>),
    threshold: int,
) -> SiblingGroupView {
    SiblingGroupView {
        parent: key.0,
        raw_stem: key.1,
        members: siblings_with_key(entries, key, threshold),
    }
}

/// The sibling groups of `entries`: one group for each key, in the order in
/// which the keys first appear, each with all the files of its key in their
/// order. Directories belong to no group.
pub open spec fn grouped(entries: Seq<PathEntryView>, threshold: int) -> Seq<SiblingGroupView> {
    let keys = keys_in_order(entries, threshold);
    Seq::new(keys.len(), |g: int| group_with_key(entries, keys[g], threshold))
}

/// No key stands twice among the keys of `entries`.
pub proof fn lemma_keys_distinct(entries: Seq<PathEntryView>, threshold: int)
    ensures
        keys_in_order(entries, threshold).no_duplicates(),
    decreases entries.len(),
{
    if entries.len() > 0 {
        lemma_keys_distinct(entries.drop_last(), threshold);
    }
}

/// A key is among the keys of `entries` exactly if one of the files has it.
pub proof fn lemma_keys_cover(entries: Seq<PathEntryView>, key: (Seq<u8>, Seq<u8>), threshold: int)
    ensures
        keys_in_order(entries, threshold).contains(key) <==> exists|i: int|
            0 <= i < entries.len() && !(#[trigger] entries[i]).is_dir && key_of(
                entries[i],
                threshold,
            ) == key,
    decreases entries.len(),
{
    if entries.len() > 0 {
        let front = entries.drop_last();
        let before = keys_in_order(front, threshold);
        let now = keys_in_order(entries, threshold);
        let last = entries.last();
        lemma_keys_cover(front, key, threshold);
        assert(forall|i: int| 0 <= i < front.len() ==> front[i] == entries[i]);
        if now.contains(key) {
            if before.contains(key) {
                let i = choose|i: int|
                    0 <= i < front.len() && !(#[trigger] front[i]).is_dir && key_of(
                        front[i],
                        threshold,
                    ) == key;
                assert(!entries[i].is_dir && key_of(entries[i], threshold) == key);
            } else {
                let g = choose|g: int| 0 <= g < now.len() && now[g] == key;
                assert(g == before.len());
                assert(!entries[entries.len() - 1].is_dir);
            }
        }
        if exists|i: int|
            0 <= i < entries.len() && !(#[trigger] entries[i]).is_dir && key_of(
                entries[i],
                threshold,
            ) == key {
            let i = choose|i: int|
                0 <= i < entries.len() && !(#[trigger] entries[i]).is_dir && key_of(
                    entries[i],
                    threshold,
                ) == key;
            if i < front.len() {
                assert(!front[i].is_dir && key_of(front[i], threshold) == key);
                let g = choose|g: int| 0 <= g < before.len() && before[g] == key;
                assert(now[g] == key);
            } else {
                if before.contains(key) {
                } else {
                    assert(now[before.len() as int] == key);
                }
            }
        }
    }
}

/// Each sibling with a key is one of the files with that key, and a key that
/// no file has has no siblings.
pub proof fn lemma_siblings_with_key(
    entries: Seq<PathEntryView>,
    key: (Seq<u8>, Seq<u8>),
    threshold: int,
)
    ensures
        forall|m: int|
            0 <= m < siblings_with_key(entries, key, threshold).len() ==> exists|i: int|
                0 <= i < entries.len() && !(#[trigger] entries[i]).is_dir && key_of(
                    entries[i],
                    threshold,
                ) == key && #[trigger] siblings_with_key(entries, key, threshold)[m]
                    == sibling_of(entries[i], threshold),
        !keys_in_order(entries, threshold).contains(key) ==> siblings_with_key(
            entries,
            key,
            threshold,
        ).len() == 0,
        keys_in_order(entries, threshold).contains(key) ==> siblings_with_key(
            entries,
            key,
            threshold,
        ).len() > 0,
    decreases entries.len(),
{
    if entries.len() > 0 {
        let front = entries.drop_last();
        let before = siblings_with_key(front, key, threshold);
        let now = siblings_with_key(entries, key, threshold);
        lemma_siblings_with_key(front, key, threshold);
        lemma_keys_cover(entries, key, threshold);
        lemma_keys_cover(front, key, threshold);
        assert(forall|i: int| 0 <= i < front.len() ==> front[i] == entries[i]);
        assert forall|m: int| 0 <= m < now.len() implies exists|i: int|
            0 <= i < entries.len() && !(#[trigger] entries[i]).is_dir && key_of(
                entries[i],
                threshold,
            ) == key && #[trigger] now[m] == sibling_of(entries[i], threshold) by {
            if m < before.len() {
                let i = choose|i: int|
                    0 <= i < front.len() && !(#[trigger] front[i]).is_dir && key_of(
                        front[i],
                        threshold,
                    ) == key && before[m] == sibling_of(front[i], threshold);
                assert(!entries[i].is_dir && key_of(entries[i], threshold) == key && now[m]
                    == sibling_of(entries[i], threshold));
            } else {
                let i = entries.len() - 1;
                assert(!entries[i].is_dir && key_of(entries[i], threshold) == key && now[m]
                    == sibling_of(entries[i], threshold));
            }
        }
        if !keys_in_order(entries, threshold).contains(key) {
            assert(!(!entries[entries.len() - 1].is_dir && key_of(
                entries[entries.len() - 1],
                threshold,
            ) == key));
            if keys_in_order(front, threshold).contains(key) {
                let i = choose|i: int|
                    0 <= i < front.len() && !(#[trigger] front[i]).is_dir && key_of(
                        front[i],
                        threshold,
                    ) == key;
                assert(!entries[i].is_dir && key_of(entries[i], threshold) == key);
            }
        }
    }
}

/// Every file among `entries` is one of the siblings with its key.
pub proof fn lemma_file_is_sibling(entries: Seq<PathEntryView>, i: int, threshold: int)
    requires
        0 <= i < entries.len(),
        !entries[i].is_dir,
    ensures
        exists|m: int|
            0 <= m < siblings_with_key(entries, key_of(entries[i], threshold), threshold).len()
                && #[trigger] siblings_with_key(
                entries,
                key_of(entries[i], threshold),
                threshold,
            )[m] == sibling_of(entries[i], threshold),
    decreases entries.len(),
{
    let key = key_of(entries[i], threshold);
    let front = entries.drop_last();
    let before = siblings_with_key(front, key, threshold);
    let now = siblings_with_key(entries, key, threshold);
    if i == entries.len() - 1 {
        assert(now[before.len() as int] == sibling_of(entries[i], threshold));
    } else {
        assert(front[i] == entries[i]);
        lemma_file_is_sibling(front, i, threshold);
        let m = choose|m: int|
            0 <= m < before.len() && #[trigger] before[m] == sibling_of(front[i], threshold);
        assert(now[m] == sibling_of(entries[i], threshold));
    }
}

/// The group of a key that one of the files has is a sibling group.
pub proof fn lemma_group_well_formed(
    entries: Seq<PathEntryView>,
    key: (Seq<u8>, Seq<u8>),
    threshold: int,
)
    requires
        keys_in_order(entries, threshold).contains(key),
    ensures
        group_with_key(entries, key, threshold).well_formed(threshold),
{
    let group = group_with_key(entries, key, threshold);
    lemma_siblings_with_key(entries, key, threshold);
    assert forall|m: int| 0 <= m < group.members.len() implies {
        &&& !(#[trigger] group.members[m]).entry.is_dir
        &&& group.members[m] == sibling_of(group.members[m].entry, threshold)
        &&& key_of(group.members[m].entry, threshold) == (group.parent, group.raw_stem)
    } by {
        let i = choose|i: int|
            0 <= i < entries.len() && !(#[trigger] entries[i]).is_dir && key_of(
                entries[i],
                threshold,
            ) == key && siblings_with_key(entries, key, threshold)[m] == sibling_of(
                entries[i],
                threshold,
            );
        assert(group.members[m].entry == entries[i]);
    }
}

/// Whether `groups` are the sibling groups of `entries`.
spec fn groups_match(
    groups: Seq<SiblingGroup>,
    entries: Seq<PathEntryView>,
    threshold: int,
) -> bool {
    let keys = keys_in_order(entries, threshold);
    &&& groups.len() == keys.len()
    &&& forall|g: int|
        0 <= g < groups.len() ==> (#[trigger] groups[g])@ == group_with_key(
            entries,
            keys[g],
            threshold,
        )
}

/// Finds the group of the given directory and raw stem.
fn find_group(groups: &Vec<SiblingGroup>, parent: &[u8], raw_stem: &[u8]) -> (found: Option<usize>)
    ensures
        match found {
            Some(g) => {
                &&& g < groups@.len()
                &&& groups@[g as int].parent@ == parent@
                &&& groups@[g as int].raw_stem@ == raw_stem@
            },
            None => forall|g: int|
                0 <= g < groups@.len() ==> !((#[trigger] groups@[g]).parent@ == parent@
                    && groups@[g].raw_stem@ == raw_stem@),
        },
{
    let mut g: usize = 0;
    while g < groups.len()
        invariant
            g <= groups.len(),
            forall|h: int|
                0 <= h < g ==> !((#[trigger] groups@[h]).parent@ == parent@
                    && groups@[h].raw_stem@ == raw_stem@),
        decreases groups.len() - g,
    {
        if bytes_eq(groups[g].parent.as_slice(), parent) && bytes_eq(
            groups[g].raw_stem.as_slice(),
            raw_stem,
        ) {
            return Some(g);
        }
        g = g + 1;
    }
    None
}

/// Groups the files among `entries` by directory and raw stem. Each file is
/// split into its parts with secondary extensions of up to `secondary_ext_len`
/// bytes. The groups come in the order in which their first files come, and
/// each holds its files in the order of `entries`. Directories are passed
/// over.
pub fn group_files(entries: &[PathEntry], secondary_ext_len: usize) -> (groups: Vec<SiblingGroup>)
    ensures
        groups.deep_view() == grouped(entries.deep_view(), secondary_ext_len as int),
        forall|g: int|
            0 <= g < groups@.len() ==> (#[trigger] groups@[g])@.well_formed(
                secondary_ext_len as int,
            ),
{
    let ghost threshold = secondary_ext_len as int;
    let ghost all = entries.deep_view();
    let mut groups: Vec<SiblingGroup> = Vec::new();
    let mut i: usize = 0;
    while i < entries.len()
        invariant
            i <= entries.len(),
            all == entries.deep_view(),
            threshold == secondary_ext_len as int,
            groups_match(groups@, all.take(i as int), threshold),
        decreases entries.len() - i,
    {
        let entry = &entries[i];
        let ghost seen = all.take(i as int);
        let ghost now = all.take(i + 1);
        let ghost keys = keys_in_order(seen, threshold);
        let ghost key = key_of(entry@, threshold);
        let ghost old_groups = groups@;
        proof {
            assert(now.drop_last() =~= seen);
            assert(now.last() == entry@);
            lemma_keys_distinct(seen, threshold);
            lemma_siblings_with_key(seen, key, threshold);
        }
        if !entry.is_dir {
            let (r_stem, secondary_ext, primary_ext) = split_rstem_ext(
                entry.file_name.as_slice(),
                secondary_ext_len,
            );
            let found = find_group(&groups, entry.parent.as_slice(), r_stem.as_slice());
            let sibling = Sibling { entry: entry.duplicate(), secondary_ext, primary_ext };
            assert(sibling@ == sibling_of(entry@, threshold));
            match found {
                Some(g) => {
                    assert(old_groups[g as int]@ == group_with_key(seen, keys[g as int], threshold));
                    assert(keys[g as int] == key);
                    assert(keys.contains(key));
                    let ghost old_members = groups@[g as int].members;
                    groups[g].members.push(sibling);
                    proof {
                        assert(groups@[g as int].members@ == old_members@.push(sibling));
                        assert(groups@[g as int].members.deep_view() =~= old_members.deep_view().push(
                            sibling@,
                        ));
                        assert forall|h: int| 0 <= h < groups@.len() implies (#[trigger] groups@[h])@
                            == group_with_key(now, keys[h], threshold) by {
                            if h != g {
                                assert(groups@[h] == old_groups[h]);
                                assert(keys[h] != key);
                            }
                        }
                    }
                },
                None => {
                    proof {
                        assert forall|h: int| 0 <= h < keys.len() implies keys[h] != key by {
                            assert(old_groups[h]@ == group_with_key(seen, keys[h], threshold));
                        }
                        assert(!keys.contains(key));
                    }
                    let mut members: Vec<Sibling> = Vec::new();
                    members.push(sibling);
                    let group = SiblingGroup {
                        parent: slice_to_vec(entry.parent.as_slice()),
                        raw_stem: r_stem,
                        members,
                    };
                    proof {
                        assert(group.members.deep_view() =~= Seq::<SiblingView>::empty().push(
                            sibling@,
                        ));
                        assert(siblings_with_key(seen, key, threshold) =~= Seq::empty());
                        assert(group@.members =~= siblings_with_key(now, key, threshold));
                        assert(group@ == group_with_key(now, key, threshold));
                    }
                    groups.push(group);
                    proof {
                        assert forall|h: int| 0 <= h < groups@.len() implies (#[trigger] groups@[h])@
                            == group_with_key(now, keys_in_order(now, threshold)[h], threshold) by {
                            if h < old_groups.len() {
                                assert(groups@[h] == old_groups[h]);
                                assert(keys[h] != key);
                            }
                        }
                    }
                },
            }
        } else {
            proof {
                assert forall|h: int| 0 <= h < groups@.len() implies (#[trigger] groups@[h])@
                    == group_with_key(now, keys[h], threshold) by {
                    assert(groups@[h] == old_groups[h]);
                }
            }
        }
        i = i + 1;
    }
    proof {
        assert(all.take(entries.len() as int) =~= all);
        assert(groups.deep_view() =~= grouped(all, threshold));
        let keys = keys_in_order(all, threshold);
        assert forall|g: int| 0 <= g < groups@.len() implies (#[trigger] groups@[g])@.well_formed(
            threshold,
        ) by {
            assert(keys.contains(keys[g]));
            lemma_group_well_formed(all, keys[g], threshold);
        }
    }
    groups
}

} // verus!
