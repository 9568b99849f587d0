//! Rename plans: what becomes of each file of a sibling group and of each
//! directory, given the limit that names have to fit.

use crate::budget::{calculate_max_stem_bytes, stem_budget};
use crate::config::CliArgs;
use crate::entry::{join_path, joined_path, PathEntry, PathEntryView};
use crate::group::{
    group_files, grouped, sibling_of, Sibling, SiblingGroup, SiblingGroupView, SiblingView,
};
use crate::parts::{assembled_name, build_new_name, opt_bytes, split_name, split_rstem_ext};
use crate::text::bytes_eq;
use crate::truncate::{truncate_dir_name, truncate_stem, truncated_dir_name, truncated_stem};
use vstd::prelude::*;
use vstd::slice::slice_to_vec;

verus! {

/// What is done with an entry.
#[derive(Clone, Copy, Debug, PartialEq, Eq, Structural)]
pub enum Action {
    /// The name already is what it would be renamed to; nothing is done.
    Unchanged,
    /// The entry is renamed to the new path.
    Renamed,
    /// Even the fitted name exceeds the limit; the entry keeps its name.
    SkippedOversized,
}

/// The plan for one entry: its path, the path it is to have, and what is done.
/// An entry that is not renamed has its own path as its new path.
#[derive(Clone, Debug, PartialEq, Eq)]
pub struct TruncationPlan {
    pub original_path: Vec<u8>,
    pub new_path: Vec<u8>,
    pub action: Action,
}

/// A plan as plain values.
pub struct PlanView {
    pub original_path: Seq<u8>,
    pub new_path: Seq<u8>,
    pub action: Action,
}

impl View for TruncationPlan {
    type V = PlanView;

    open spec fn view(&self) -> PlanView {
        PlanView {
            original_path: self.original_path@,
            new_path: self.new_path@,
            action: self.action,
        }
    }
}

impl DeepView for TruncationPlan {
    type V = PlanView;

    open spec fn deep_view(&self) -> PlanView {
        self@
    }
}

/// The plan for the entry `name` of the directory `parent` whose fitted name
/// is `new_name`: skipped where the fitted name still exceeds the limit,
/// unchanged where the fitted name makes the path that the entry has, renamed
/// otherwise.
pub open spec fn planned(
    parent: Seq<u8>,
    name: Seq<u8>,
    new_name: Seq<u8>,
    max_len: usize,
) -> PlanView {
    let original = joined_path(parent, name);
    let target = joined_path(parent, new_name);
    if new_name.len() > max_len {
        PlanView { original_path: original, new_path: original, action: Action::SkippedOversized }
    } else if target == original {
        PlanView { original_path: original, new_path: original, action: Action::Unchanged }
    } else {
        PlanView { original_path: original, new_path: target, action: Action::Renamed }
    }
}

/// The plan for a sibling whose group's stem was truncated to `stem`: the
/// fitted name is that stem with the sibling's own extensions.
pub open spec fn sibling_plan(sibling: SiblingView, stem: Seq<u8>, max_len: usize) -> PlanView {
    planned(
        sibling.entry.parent,
        sibling.entry.file_name,
        assembled_name(stem, sibling.secondary_ext, sibling.primary_ext),
        max_len,
    )
}

/// The stem that all members of a group share after truncation: the group's
/// raw stem, truncated to the group's budget.
pub open spec fn group_stem(group: SiblingGroupView, max_len: usize, word_boundaries: bool) -> Seq<
    u8,
> {
    truncated_stem(group.raw_stem, stem_budget(group.members, max_len), word_boundaries)
}

/// The plans for the members of a group, in their order.
pub open spec fn group_plans(group: SiblingGroupView, max_len: usize, word_boundaries: bool) -> Seq<
    PlanView,
> {
    Seq::new(
        group.members.len(),
        |m: int| sibling_plan(group.members[m], group_stem(group, max_len, word_boundaries), max_len),
    )
}

/// The plans for the members of all `groups`, group after group.
pub open spec fn all_group_plans(
    groups: Seq<SiblingGroupView>,
    max_len: usize,
    word_boundaries: bool,
) -> Seq<PlanView>
    decreases groups.len(),
{
    if groups.len() == 0 {
        Seq::empty()
    } else {
        all_group_plans(groups.drop_last(), max_len, word_boundaries) + group_plans(
            groups.last(),
            max_len,
            word_boundaries,
        )
    }
}

/// The plans for the files among `entries`: the files are grouped by
/// directory and raw stem, and the plans come group after group.
pub open spec fn file_plans(
    entries: Seq<PathEntryView>,
    max_len: usize,
    threshold: int,
    word_boundaries: bool,
) -> Seq<PlanView> {
    all_group_plans(grouped(entries, threshold), max_len, word_boundaries)
}

/// The plan for a directory: its whole name is truncated to the limit.
pub open spec fn directory_plan(
    entry: PathEntryView,
    max_len: usize,
    word_boundaries: bool,
) -> PlanView {
    planned(
        entry.parent,
        entry.file_name,
        truncated_dir_name(entry.file_name, max_len as int, word_boundaries),
        max_len,
    )
}

/// The plans for the directories among `entries`, in their order.
pub open spec fn directory_plans(
    entries: Seq<PathEntryView>,
    max_len: usize,
    word_boundaries: bool,
) -> Seq<PlanView>
    decreases entries.len(),
{
    if entries.len() == 0 {
        Seq::empty()
    } else {
        let before = directory_plans(entries.drop_last(), max_len, word_boundaries);
        if entries.last().is_dir {
            before.push(directory_plan(entries.last(), max_len, word_boundaries))
        } else {
            before
        }
    }
}

/// The plan for an entry taken by itself: a directory as a directory, a file
/// as the only member of its group.
pub open spec fn path_plan(
    entry: PathEntryView,
    max_len: usize,
    threshold: int,
    word_boundaries: bool,
) -> PlanView {
    if entry.is_dir {
        directory_plan(entry, max_len, word_boundaries)
    } else {
        let sibling = sibling_of(entry, threshold);
        let stem = truncated_stem(
            split_name(entry.file_name, threshold).raw_stem,
            stem_budget(seq![sibling], max_len),
            word_boundaries,
        );
        sibling_plan(sibling, stem, max_len)
    }
}

/// Decides what is done with the entry `name` of the directory `parent`,
/// given the name that was fitted for it.
pub fn plan_rename(parent: &[u8], name: &[u8], new_name: &[u8], max_len: usize) -> (plan:
    TruncationPlan)
    ensures
        plan@ == planned(parent@, name@, new_name@, max_len),
{
    let original = join_path(parent, name);
    if new_name.len() > max_len {
        let kept = slice_to_vec(original.as_slice());
        return TruncationPlan {
            original_path: original,
            new_path: kept,
            action: Action::SkippedOversized,
        };
    }
    let target = join_path(parent, new_name);
    if bytes_eq(target.as_slice(), original.as_slice()) {
        TruncationPlan { original_path: original, new_path: target, action: Action::Unchanged }
    } else {
        TruncationPlan { original_path: original, new_path: target, action: Action::Renamed }
    }
}

fn copy_ext(ext: &Option<Vec<u8>>) -> (out: Option<Vec<u8>>)
    ensures
        opt_bytes(out) == opt_bytes(*ext),
{
    match ext {
        Some(e) => Some(slice_to_vec(e.as_slice())),
        None => None,
    }
}

/// Plans the rename of one member of a group whose stem was truncated to
/// `truncated`.
fn plan_sibling(sibling: &Sibling, truncated: &[u8], max_len: usize) -> (plan: TruncationPlan)
    ensures
        plan@ == sibling_plan(sibling@, truncated@, max_len),
{
    let new_name = build_new_name(
        slice_to_vec(truncated),
        copy_ext(&sibling.secondary_ext),
        copy_ext(&sibling.primary_ext),
    );
    plan_rename(
        sibling.entry.parent.as_slice(),
        sibling.entry.file_name.as_slice(),
        new_name.as_slice(),
        max_len,
    )
}

/// Plans the renames of the members of one group: the group's stem is
/// truncated once, to the budget that the group's largest extension overhead
/// leaves, and each member gets that stem with its own extensions.
pub fn plan_group(group: &SiblingGroup, max_len: usize, word_boundaries: bool) -> (plans: Vec<
    TruncationPlan,
>)
    ensures
        plans.deep_view() == group_plans(group@, max_len, word_boundaries),
{
    let max_stem_bytes = calculate_max_stem_bytes(group.members.as_slice(), max_len);
    let truncated = truncate_stem(
        slice_to_vec(group.raw_stem.as_slice()),
        max_stem_bytes,
        word_boundaries,
    );
    let mut plans: Vec<TruncationPlan> = Vec::new();
    let mut m: usize = 0;
    while m < group.members.len()
        invariant
            m <= group.members.len(),
            truncated@ == group_stem(group@, max_len, word_boundaries),
            plans@.len() == m,
            forall|n: int|
                0 <= n < m ==> (#[trigger] plans@[n])@ == group_plans(
                    group@,
                    max_len,
                    word_boundaries,
                )[n],
        decreases group.members.len() - m,
    {
        let plan = plan_sibling(&group.members[m], truncated.as_slice(), max_len);
        plans.push(plan);
        m = m + 1;
    }
    assert(plans.deep_view() =~= group_plans(group@, max_len, word_boundaries));
    plans
}

/// Plans the renames of the files among `entries`. The files are grouped by
/// directory and raw stem; all files of a group get the same truncated stem,
/// each with its own extensions. A file whose fitted name still exceeds
/// `max_len` is skipped, one whose fitted name is the name it has is left
/// unchanged, and every other file is renamed within its directory. The plans
/// come group after group, the groups in the order of their first files.
pub fn process_files(args: &CliArgs, entries: &[PathEntry]) -> (plans: Vec<TruncationPlan>)
    ensures
        plans.deep_view() == file_plans(
            entries.deep_view(),
            args.max_len,
            args.secondary_ext_len as int,
            args.word_boundaries,
        ),
{
    let groups = group_files(entries, args.secondary_ext_len);
    let ghost views = groups.deep_view();
    let mut plans: Vec<TruncationPlan> = Vec::new();
    let mut g: usize = 0;
    while g < groups.len()
        invariant
            g <= groups.len(),
            views == groups.deep_view(),
            plans.deep_view() == all_group_plans(
                views.take(g as int),
                args.max_len,
                args.word_boundaries,
            ),
        decreases groups.len() - g,
    {
        let mut more = plan_group(&groups[g], args.max_len, args.word_boundaries);
        let ghost before = plans.deep_view();
        let ghost added = more.deep_view();
        plans.append(&mut more);
        proof {
            assert(views.take(g + 1).drop_last() =~= views.take(g as int));
            assert(views.take(g + 1).last() == groups@[g as int]@);
            assert(plans.deep_view() =~= before + added);
        }
        g = g + 1;
    }
    proof {
        assert(views.take(groups.len() as int) =~= views);
    }
    plans
}

/// Plans the renames of the directories among `entries`, in the order of
/// `entries`. A directory's whole name is truncated to `max_len`; it is left
/// unchanged where that is the name it has, and renamed within its parent
/// otherwise. A directory is never skipped.
pub fn process_directories(args: &CliArgs, entries: &[PathEntry]) -> (plans: Vec<TruncationPlan>)
    ensures
        plans.deep_view() == directory_plans(
            entries.deep_view(),
            args.max_len,
            args.word_boundaries,
        ),
{
    let ghost all = entries.deep_view();
    let mut plans: Vec<TruncationPlan> = Vec::new();
    let mut i: usize = 0;
    while i < entries.len()
        invariant
            i <= entries.len(),
            all == entries.deep_view(),
            plans.deep_view() == directory_plans(
                all.take(i as int),
                args.max_len,
                args.word_boundaries,
            ),
        decreases entries.len() - i,
    {
        let ghost before = plans.deep_view();
        proof {
            assert(all.take(i + 1).drop_last() =~= all.take(i as int));
            assert(all.take(i + 1).last() == entries@[i as int]@);
        }
        if entries[i].is_dir {
            let plan = trunc_path(
                &entries[i],
                args.max_len,
                args.secondary_ext_len,
                args.word_boundaries,
            );
            plans.push(plan);
            assert(plans.deep_view() =~= before.push(plan@));
        }
        i = i + 1;
    }
    proof {
        assert(all.take(entries.len() as int) =~= all);
    }
    plans
}

/// Plans the rename of one entry by itself. A directory's whole name is
/// truncated to `max_len`. A file is handled as a group of its own: its raw
/// stem is truncated to what `max_len` leaves beside its extensions, and it is
/// skipped where even that does not fit.
pub fn trunc_path(
    entry: &PathEntry,
    max_len: usize,
    secondary_ext_len: usize,
    word_boundaries: bool,
) -> (plan: TruncationPlan)
    ensures
        plan@ == path_plan(entry@, max_len, secondary_ext_len as int, word_boundaries),
{
    if entry.is_dir {
        let truncated = truncate_dir_name(
            slice_to_vec(entry.file_name.as_slice()),
            max_len,
            word_boundaries,
        );
        return plan_rename(
            entry.parent.as_slice(),
            entry.file_name.as_slice(),
            truncated.as_slice(),
            max_len,
        );
    }
    let (r_stem, secondary_ext, primary_ext) = split_rstem_ext(
        entry.file_name.as_slice(),
        secondary_ext_len,
    );
    let mut alone: Vec<Sibling> = Vec::new();
    alone.push(Sibling { entry: entry.duplicate(), secondary_ext, primary_ext });
    assert(alone.deep_view() =~= seq![sibling_of(entry@, secondary_ext_len as int)]);
    let max_stem_bytes = calculate_max_stem_bytes(alone.as_slice(), max_len);
    let truncated = truncate_stem(r_stem, max_stem_bytes, word_boundaries);
    plan_sibling(&alone[0], truncated.as_slice(), max_len)
}

} // verus!
