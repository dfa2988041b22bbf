//! Read-only questions to a version. Where a question walks the groups, it
//! walks them in ascending order of their ids.

use vstd::prelude::*;
use std::collections::HashMap;
use std::collections::HashSet;
use crate::delta::{DeltaView, HummockVersionDelta};
use crate::level::{levels_view, Level, LevelView, Levels, LevelsView};
use crate::ordered::ascending_seq;
use crate::split::run_touched;
use crate::sstable::{ SstView, SstableInfo};
use crate::version::{sorted_keys, HummockVersion, VersionView};

verus! {

broadcast use vstd::std_specs::hash::group_hash_axioms;

/// The values of a list of borrowed levels.
pub open spec fn level_refs_view(s: Seq<&Level>) -> Seq<LevelView> {
    s.map_values(|l: &Level| l@)
}

/// The sub-levels of level zero, or none where the group has no level zero.
pub open spec fn sub_levels_of(levels: LevelsView) -> Seq<LevelView> {
    match levels.l0 {
        Some(l0) => l0.sub_levels,
        None => Seq::empty(),
    }
}

/// The levels of a group in the order in which a read meets them: the
/// sub-levels of level zero from the newest to the oldest, then the levels
/// below.
pub open spec fn levels_newest_first(levels: LevelsView) -> Seq<LevelView> {
    sub_levels_of(levels).reverse() + levels.levels
}

/// The levels of a group in the order in which they are stored: the
/// sub-levels of level zero from the oldest to the newest, then the levels
/// below.
pub open spec fn levels_oldest_first(levels: LevelsView) -> Seq<LevelView> {
    sub_levels_of(levels) + levels.levels
}

/// The levels of the first `n` groups of `order`, each group as a read
/// meets it.
pub open spec fn combined_levels(groups: Map<u64, LevelsView>, order: Seq<u64>, n: int) -> Seq<
    LevelView,
>
    decreases n,
{
    if n <= 0 {
        Seq::empty()
    } else {
        combined_levels(groups, order, n - 1) + levels_newest_first(groups[order[n - 1]])
    }
}

/// All levels of a version, group after group.
pub open spec fn spec_combined_levels(v: VersionView) -> Seq<LevelView> {
    let order = ascending_seq(v.levels.dom());
    combined_levels(v.levels, order, order.len() as int)
}

/// The object id and the run id of a run.
pub open spec fn run_ids_of(s: SstView) -> (u64, u64) {
    (s.object_id, s.sst_id)
}

/// The object id and the run id of every run in the first `n` levels.
pub open spec fn run_pairs(ls: Seq<LevelView>, n: int) -> Seq<(u64, u64)>
    decreases n,
{
    if n <= 0 {
        Seq::empty()
    } else {
        run_pairs(ls, n - 1) + ls[n - 1].table_infos.map_values(|s: SstView| run_ids_of(s))
    }
}

/// The object id of every run in a list of levels; an object that several
/// runs share is listed for each of them.
pub open spec fn object_ids_of(ls: Seq<LevelView>) -> Seq<u64> {
    run_pairs(ls, ls.len() as int).map_values(|p: (u64, u64)| p.0)
}

/// The levels of a group as a read meets them.
pub fn group_levels_newest_first(group: &Levels) -> (r: Vec<&Level>)
    ensures
        level_refs_view(r@) == levels_newest_first(group@),
{
    let mut out: Vec<&Level> = Vec::new();
    let ghost subs = sub_levels_of(group@);
    match &group.l0 {
        Some(l0) => {
            let n = l0.sub_levels.len();
            let mut k: usize = n;
            while k > 0
                invariant
                    k <= n,
                    n == l0.sub_levels.len(),
                    subs == levels_view(l0.sub_levels@),
                    out.len() == n - k,
                    forall|j: int| 0 <= j < out.len() ==> (#[trigger] out[j])@ == subs[n - 1 - j],
                decreases k,
            {
                k -= 1;
                out.push(&l0.sub_levels[k]);
            }
        },
        None => {},
    }
    assert(level_refs_view(out@) =~= subs.reverse());
    let ghost head = level_refs_view(out@);
    let mut i: usize = 0;
    while i < group.levels.len()
        invariant
            i <= group.levels.len(),
            level_refs_view(out@) == head + group@.levels.subrange(0, i as int),
        decreases group.levels.len() - i,
    {
        let ghost before = level_refs_view(out@);
        out.push(&group.levels[i]);
        assert(level_refs_view(out@) =~= before.push(group.levels[i as int]@));
        assert(group@.levels[i as int] == group.levels[i as int]@);
        assert(level_refs_view(out@) =~= head + group@.levels.subrange(0, i + 1));
        i += 1;
    }
    assert(group@.levels.subrange(0, i as int) =~= group@.levels);
    out
}

/// The levels of a group as they are stored.
pub fn group_levels_oldest_first(group: &Levels) -> (r: Vec<&Level>)
    ensures
        level_refs_view(r@) == levels_oldest_first(group@),
{
    let mut out: Vec<&Level> = Vec::new();
    let ghost subs = sub_levels_of(group@);
    match &group.l0 {
        Some(l0) => {
            let mut k: usize = 0;
            while k < l0.sub_levels.len()
                invariant
                    k <= l0.sub_levels.len(),
                    subs == levels_view(l0.sub_levels@),
                    level_refs_view(out@) == subs.subrange(0, k as int),
                decreases l0.sub_levels.len() - k,
            {
                let ghost before = level_refs_view(out@);
                out.push(&l0.sub_levels[k]);
                assert(level_refs_view(out@) =~= before.push(l0.sub_levels[k as int]@));
                assert(subs[k as int] == l0.sub_levels[k as int]@);
                assert(level_refs_view(out@) =~= subs.subrange(0, k + 1));
                k += 1;
            }
            assert(subs.subrange(0, k as int) =~= subs);
        },
        None => {
            assert(level_refs_view(out@) =~= subs);
        },
    }
    let ghost head = level_refs_view(out@);
    let mut i: usize = 0;
    assert(level_refs_view(out@) =~= head + group@.levels.subrange(0, 0));
    while i < group.levels.len()
        invariant
            i <= group.levels.len(),
            level_refs_view(out@) == head + group@.levels.subrange(0, i as int),
        decreases group.levels.len() - i,
    {
        let ghost before = level_refs_view(out@);
        out.push(&group.levels[i]);
        assert(level_refs_view(out@) =~= before.push(group.levels[i as int]@));
        assert(group@.levels[i as int] == group.levels[i as int]@);
        assert(level_refs_view(out@) =~= head + group@.levels.subrange(0, i + 1));
        i += 1;
    }
    assert(group@.levels.subrange(0, i as int) =~= group@.levels);
    out
}

/// Appends the object id and the run id of every run in the levels.
fn push_run_pairs(levels: &Vec<&Level>, out: &mut Vec<(u64, u64)>)
    ensures
        final(out)@ == old(out)@ + run_pairs(level_refs_view(levels@), levels.len() as int),
{
    let ghost ls = level_refs_view(levels@);
    let ghost start = out@;
    let mut k: usize = 0;
    assert(out@ =~= start + run_pairs(ls, 0));
    while k < levels.len()
        invariant
            k <= levels.len(),
            ls == level_refs_view(levels@),
            out@ == start + run_pairs(ls, k as int),
        decreases levels.len() - k,
    {
        let level: &Level = levels[k];
        let ghost runs = ls[k as int].table_infos;
        assert(runs == level@.table_infos);
        let ghost before = out@;
        let mut i: usize = 0;
        assert(out@ =~= before + runs.map_values(|s: SstView| run_ids_of(s)).subrange(0, 0));
        while i < level.table_infos.len()
            invariant
                i <= level.table_infos.len(),
                runs == level@.table_infos,
                out@ == before + runs.map_values(|s: SstView| run_ids_of(s)).subrange(0, i as int),
            decreases level.table_infos.len() - i,
        {
            let table_info = &level.table_infos[i];
            assert(runs[i as int] == table_info@);
            out.push((table_info.get_object_id(), table_info.get_sst_id()));
            assert(out@ =~= before + runs.map_values(|s: SstView| run_ids_of(s)).subrange(
                0,
                i + 1,
            ));
            i += 1;
        }
        assert(runs.map_values(|s: SstView| run_ids_of(s)).subrange(0, i as int)
            =~= runs.map_values(|s: SstView| run_ids_of(s)));
        assert(out@ =~= start + run_pairs(ls, k + 1));
        k += 1;
    }
}

/// The first components of a list of pairs.
fn first_components(pairs: &Vec<(u64, u64)>) -> (r: Vec<u64>)
    ensures
        r@ == pairs@.map_values(|p: (u64, u64)| p.0),
{
    let mut out: Vec<u64> = Vec::new();
    let mut i: usize = 0;
    while i < pairs.len()
        invariant
            i <= pairs.len(),
            out@ == pairs@.map_values(|p: (u64, u64)| p.0).subrange(0, i as int),
        decreases pairs.len() - i,
    {
        out.push(pairs[i].0);
        assert(out@ =~= pairs@.map_values(|p: (u64, u64)| p.0).subrange(0, i + 1));
        i += 1;
    }
    assert(pairs@.map_values(|p: (u64, u64)| p.0).subrange(0, i as int) =~= pairs@.map_values(
        |p: (u64, u64)| p.0,
    ));
    out
}

impl HummockVersion {
    /// All levels of the version, group after group, each group as a read
    /// meets it.
    pub fn get_combined_levels(&self) -> (r: Vec<&Level>)
        ensures
            level_refs_view(r@) == spec_combined_levels(self@),
    {
        let ghost groups = self@.levels;
        let mut out: Vec<&Level> = Vec::new();
        let order = sorted_keys(&self.levels);
        assert(groups.dom() =~= self.levels@.dom());
        let mut k: usize = 0;
        assert(level_refs_view(out@) =~= combined_levels(groups, order@, 0));
        while k < order.len()
            invariant
                k <= order.len(),
                groups == self@.levels,
                order@.to_set() == self.levels@.dom(),
                level_refs_view(out@) == combined_levels(groups, order@, k as int),
            decreases order.len() - k,
        {
            let group_id: u64 = order[k];
            assert(order@.to_set().contains(group_id)) by {
                assert(order@[k as int] == group_id);
            }
            match self.levels.get(&group_id) {
                Some(group) => {
                    assert(groups[group_id] == group@);
                    let ghost before = level_refs_view(out@);
                    let mut more = group_levels_newest_first(group);
                    let ghost added = level_refs_view(more@);
                    out.append(&mut more);
                    assert(level_refs_view(out@) =~= before + added);
                },
                None => {
                    assert(false);
                },
            }
            k += 1;
        }
        out
    }

    /// The object id of every run of the version, in the order of
    /// [`HummockVersion::get_combined_levels`]. An object that several runs
    /// share is listed for each of them.
    pub fn get_object_ids(&self) -> (r: Vec<u64>)
        ensures
            r@ == object_ids_of(spec_combined_levels(self@)),
    {
        let levels = self.get_combined_levels();
        let mut pairs: Vec<(u64, u64)> = Vec::new();
        push_run_pairs(&levels, &mut pairs);
        assert(pairs@ =~= run_pairs(level_refs_view(levels@), levels.len() as int));
        first_components(&pairs)
    }
}

/// The ids of all compaction groups of a version, ascending.
pub fn get_compaction_group_ids(version: &HummockVersion) -> (r: Vec<u64>)
    ensures
        r@ == ascending_seq(version@.levels.dom()),
{
    assert(version@.levels.dom() =~= version.levels@.dom());
    sorted_keys(&version.levels)
}

/// The object id and the run id of every run of a group, in the order in
/// which a read meets the runs.
pub fn get_compaction_group_ssts(version: &HummockVersion, group_id: u64) -> (r: Vec<(u64, u64)>)
    requires
        version@.levels.contains_key(group_id),
    ensures
        r@ == run_pairs(
            levels_newest_first(version@.levels[group_id]),
            levels_newest_first(version@.levels[group_id]).len() as int,
        ),
{
    let group_levels = version.get_compaction_group_levels(group_id);
    let levels = group_levels_newest_first(group_levels);
    let mut pairs: Vec<(u64, u64)> = Vec::new();
    push_run_pairs(&levels, &mut pairs);
    assert(pairs@ =~= run_pairs(level_refs_view(levels@), levels.len() as int));
    pairs
}

/// The delta that follows a version and changes nothing but the id.
pub open spec fn delta_after(v: VersionView) -> DeltaView {
    DeltaView {
        id: (v.id + 1) as u64,
        prev_id: v.id,
        group_deltas: Map::empty(),
        max_committed_epoch: v.max_committed_epoch,
        safe_epoch: v.safe_epoch,
        trivial_move: false,
        gc_object_ids: Seq::empty(),
        new_table_watermarks: Map::empty(),
    }
}

/// Builds the empty delta that follows a version.
pub fn build_version_delta_after_version(version: &HummockVersion) -> (r: HummockVersionDelta)
    requires
        version.id < u64::MAX,
    ensures
        r@ == delta_after(version@),
{
    let r = HummockVersionDelta {
        id: version.id + 1,
        prev_id: version.id,
        safe_epoch: version.safe_epoch,
        trivial_move: false,
        max_committed_epoch: version.max_committed_epoch,
        group_deltas: HashMap::new(),
        gc_object_ids: Vec::new(),
        new_table_watermarks: HashMap::new(),
    };
    assert(r@ =~~= delta_after(version@));
    r
}

/// Number of the first `n` runs that hold data of one of the tables.
pub open spec fn touched_runs(runs: Seq<SstView>, members: Set<u32>, n: int) -> int
    decreases n,
{
    if n <= 0 {
        0
    } else {
        touched_runs(runs, members, n - 1) + if run_touched(runs[n - 1], members) {
            1int
        } else {
            0int
        }
    }
}

/// Number of runs in the first `n` levels that hold data of one of the
/// tables.
pub open spec fn touched_in_levels(ls: Seq<LevelView>, members: Set<u32>, n: int) -> int
    decreases n,
{
    if n <= 0 {
        0
    } else {
        touched_in_levels(ls, members, n - 1) + touched_runs(
            ls[n - 1].table_infos,
            members,
            ls[n - 1].table_infos.len() as int,
        )
    }
}

/// Number of run ids that a split of the group `parent_group_id` for the
/// tables `members` may need: two for every run that holds data of one of
/// the tables. A group that the version does not hold needs none.
pub open spec fn spec_count_new_ssts(v: VersionView, parent_group_id: u64, members: Set<u32>) -> int {
    if v.levels.contains_key(parent_group_id) {
        let ls = levels_oldest_first(v.levels[parent_group_id]);
        2 * touched_in_levels(ls, members, ls.len() as int)
    } else {
        0
    }
}

/// Whether the run holds data of one of the tables.
fn is_touched(sst: &SstableInfo, member_table_ids: &HashSet<u32>) -> (r: bool)
    ensures
        r == run_touched(sst@, member_table_ids@),
{
    let ghost ids = sst@.table_ids;
    let mut i: usize = 0;
    while i < sst.table_ids.len()
        invariant
            i <= sst.table_ids.len(),
            ids == sst@.table_ids,
            forall|k: int| 0 <= k < i ==> !member_table_ids@.contains(#[trigger] ids[k]),
        decreases sst.table_ids.len() - i,
    {
        assert(ids[i as int] == sst.table_ids[i as int]);
        if member_table_ids.contains(&sst.table_ids[i]) {
            return true;
        }
        i += 1;
    }
    false
}

impl HummockVersion {
    /// Number of run ids that a split of the group `parent_group_id` for
    /// the given tables may need. A count beyond `u64` is given as
    /// `u64::MAX`.
    pub fn count_new_ssts_in_group_split(
        &self,
        parent_group_id: u64,
        member_table_ids: HashSet<u32>,
    ) -> (r: u64)
        ensures
            r == if spec_count_new_ssts(self@, parent_group_id, member_table_ids@) <= u64::MAX {
                spec_count_new_ssts(self@, parent_group_id, member_table_ids@)
            } else {
                u64::MAX as int
            },
    {
        let ghost members = member_table_ids@;
        let parent_levels = match self.levels.get(&parent_group_id) {
            Some(levels) => levels,
            None => {
                assert(!self@.levels.contains_key(parent_group_id));
                return 0;
            },
        };
        assert(self@.levels.contains_key(parent_group_id));
        assert(self@.levels[parent_group_id] == parent_levels@);
        let levels = group_levels_oldest_first(parent_levels);
        let ghost ls = level_refs_view(levels@);
        let mut count: u64 = 0;
        let mut full = false;
        let mut k: usize = 0;
        while k < levels.len()
            invariant
                k <= levels.len(),
                ls == level_refs_view(levels@),
                members == member_table_ids@,
                !full ==> count == 2 * touched_in_levels(ls, members, k as int),
                full ==> 2 * touched_in_levels(ls, members, k as int) > u64::MAX,
            decreases levels.len() - k,
        {
            let level: &Level = levels[k];
            let ghost runs = ls[k as int].table_infos;
            assert(runs == level@.table_infos);
            let ghost base = touched_in_levels(ls, members, k as int);
            let mut i: usize = 0;
            while i < level.table_infos.len()
                invariant
                    i <= level.table_infos.len(),
                    runs == level@.table_infos,
                    members == member_table_ids@,
                    !full ==> count == 2 * (base + touched_runs(runs, members, i as int)),
                    full ==> 2 * (base + touched_runs(runs, members, i as int)) > u64::MAX,
                decreases level.table_infos.len() - i,
            {
                assert(runs[i as int] == level.table_infos[i as int]@);
                if is_touched(&level.table_infos[i], &member_table_ids) {
                    if !full {
                        match count.checked_add(2) {
                            Some(x) => {
                                count = x;
                            },
                            None => {
                                full = true;
                            },
                        }
                    }
                }
                i += 1;
            }
            k += 1;
        }
        if full {
            u64::MAX
        } else {
            count
        }
    }
}

/// `m` after the first `j` member tables were filed under the group.
pub open spec fn with_members(m: Map<u32, u64>, group_id: u64, members: Seq<u32>, j: int) -> Map<
    u32,
    u64,
>
    decreases j,
{
    if j <= 0 {
        m
    } else {
        with_members(m, group_id, members, j - 1).insert(members[j - 1], group_id)
    }
}

/// The group of every member table of the first `n` groups of `order`. A
/// table that several groups list is filed under the last of them.
pub open spec fn table_groups(groups: Map<u64, LevelsView>, order: Seq<u64>, n: int) -> Map<u32, u64>
    decreases n,
{
    if n <= 0 {
        Map::empty()
    } else {
        let members = groups[order[n - 1]].member_table_ids;
        with_members(table_groups(groups, order, n - 1), order[n - 1], members, members.len() as int)
    }
}

/// The group that each member table of a version belongs to.
pub open spec fn spec_table_groups(v: VersionView) -> Map<u32, u64> {
    let order = ascending_seq(v.levels.dom());
    table_groups(v.levels, order, order.len() as int)
}

/// Files every member table of a version under its group.
pub fn get_table_compaction_group_id_mapping(version: &HummockVersion) -> (r: HashMap<u32, u64>)
    ensures
        r@ == spec_table_groups(version@),
{
    let ghost groups = version@.levels;
    let mut ret: HashMap<u32, u64> = HashMap::new();
    let order = sorted_keys(&version.levels);
    assert(groups.dom() =~= version.levels@.dom());
    let mut k: usize = 0;
    assert(ret@ =~= table_groups(groups, order@, 0));
    while k < order.len()
        invariant
            k <= order.len(),
            groups == version@.levels,
            order@.to_set() == version.levels@.dom(),
            ret@ == table_groups(groups, order@, k as int),
        decreases order.len() - k,
    {
        let group_id: u64 = order[k];
        assert(order@.to_set().contains(group_id)) by {
            assert(order@[k as int] == group_id);
        }
        match version.levels.get(&group_id) {
            Some(levels) => {
                assert(groups[group_id] == levels@);
                let ghost base = ret@;
                let mut j: usize = 0;
                while j < levels.member_table_ids.len()
                    invariant
                        j <= levels.member_table_ids.len(),
                        ret@ == with_members(base, group_id, levels.member_table_ids@, j as int),
                    decreases levels.member_table_ids.len() - j,
                {
                    ret.insert(levels.member_table_ids[j], group_id);
                    j += 1;
                }
            },
            None => {
                assert(false);
            },
        }
        k += 1;
    }
    ret
}

/// The first of the groups `order[k..]` that lists the table.
pub open spec fn first_group_with(
    groups: Map<u64, LevelsView>,
    order: Seq<u64>,
    table_id: u32,
    k: int,
) -> Option<u64>
    decreases order.len() - k,
{
    if k < 0 || k >= order.len() {
        None
    } else if groups[order[k]].member_table_ids.contains(table_id) {
        Some(order[k])
    } else {
        first_group_with(groups, order, table_id, k + 1)
    }
}

/// The group with the lowest id that lists the table as a member.
pub fn try_get_compaction_group_id_by_table_id(version: &HummockVersion, table_id: u32) -> (r: Option<
    u64,
>)
    ensures
        r == first_group_with(version@.levels, ascending_seq(version@.levels.dom()), table_id, 0),
{
    let ghost groups = version@.levels;
    let order = sorted_keys(&version.levels);
    assert(groups.dom() =~= version.levels@.dom());
    let mut k: usize = 0;
    while k < order.len()
        invariant
            k <= order.len(),
            groups == version@.levels,
            order@.to_set() == version.levels@.dom(),
            order@ == ascending_seq(groups.dom()),
            first_group_with(groups, order@, table_id, 0) == first_group_with(
                groups,
                order@,
                table_id,
                k as int,
            ),
        decreases order.len() - k,
    {
        let group_id: u64 = order[k];
        assert(order@.to_set().contains(group_id)) by {
            assert(order@[k as int] == group_id);
        }
        match version.levels.get(&group_id) {
            Some(levels) => {
                assert(groups[group_id] == levels@);
                if crate::members::contains_table(&levels.member_table_ids, table_id) {
                    return Some(group_id);
                }
            },
            None => {
                assert(false);
            },
        }
        k += 1;
    }
    None
}

/// The member tables of all groups of a version.
pub open spec fn spec_member_table_ids(v: VersionView) -> Set<u32> {
    Set::new(
        |t: u32|
            exists|g: u64| #[trigger]
                v.levels.contains_key(g) && v.levels[g].member_table_ids.contains(t),
    )
}

/// The member tables of the first `n` groups of `order`.
pub open spec fn member_tables(groups: Map<u64, LevelsView>, order: Seq<u64>, n: int) -> Set<u32>
    decreases n,
{
    if n <= 0 {
        Set::empty()
    } else {
        member_tables(groups, order, n - 1).union(groups[order[n - 1]].member_table_ids.to_set())
    }
}

/// A table is among the member tables of the first `n` groups exactly if
/// one of these groups lists it.
pub proof fn lemma_member_tables(groups: Map<u64, LevelsView>, order: Seq<u64>, n: int, t: u32)
    requires
        0 <= n <= order.len(),
    ensures
        member_tables(groups, order, n).contains(t) <==> exists|i: int|
            0 <= i < n && groups[#[trigger] order[i]].member_table_ids.contains(t),
    decreases n,
{
    if n > 0 {
        lemma_member_tables(groups, order, n - 1, t);
        if member_tables(groups, order, n).contains(t) {
            if groups[order[n - 1]].member_table_ids.to_set().contains(t) {
                assert(groups[order[n - 1]].member_table_ids.contains(t));
            } else {
                let i = choose|i: int|
                    0 <= i < n - 1 && groups[#[trigger] order[i]].member_table_ids.contains(t);
                assert(groups[order[i]].member_table_ids.contains(t));
            }
        }
        if exists|i: int| 0 <= i < n && groups[#[trigger] order[i]].member_table_ids.contains(t) {
            let i = choose|i: int|
                0 <= i < n && groups[#[trigger] order[i]].member_table_ids.contains(t);
            if i == n - 1 {
                assert(groups[order[n - 1]].member_table_ids.to_set().contains(t));
            }
        }
    }
}

/// Collects the member tables of all groups of a version.
pub fn get_member_table_ids(version: &HummockVersion) -> (r: HashSet<u32>)
    ensures
        r@ == spec_member_table_ids(version@),
{
    let ghost groups = version@.levels;
    let mut ret: HashSet<u32> = HashSet::new();
    let order = sorted_keys(&version.levels);
    assert(groups.dom() =~= version.levels@.dom());
    let mut k: usize = 0;
    while k < order.len()
        invariant
            k <= order.len(),
            groups == version@.levels,
            order@.to_set() == version.levels@.dom(),
            ret@ == member_tables(groups, order@, k as int),
        decreases order.len() - k,
    {
        let group_id: u64 = order[k];
        assert(order@.to_set().contains(group_id)) by {
            assert(order@[k as int] == group_id);
        }
        match version.levels.get(&group_id) {
            Some(levels) => {
                assert(groups[group_id] == levels@);
                let ghost base = ret@;
                let ghost members = levels.member_table_ids@;
                let mut j: usize = 0;
                assert(ret@ =~= base.union(members.subrange(0, 0).to_set()));
                while j < levels.member_table_ids.len()
                    invariant
                        j <= levels.member_table_ids.len(),
                        members == levels.member_table_ids@,
                        ret@ == base.union(members.subrange(0, j as int).to_set()),
                    decreases levels.member_table_ids.len() - j,
                {
                    ret.insert(levels.member_table_ids[j]);
                    proof {
                        let a = members.subrange(0, j as int);
                        assert(members.subrange(0, j + 1) =~= a.push(members[j as int]));
                        a.lemma_push_to_set_commute(members[j as int]);
                        assert(ret@ =~= base.union(members.subrange(0, j + 1).to_set()));
                    }
                    j += 1;
                }
                assert(members.subrange(0, j as int) =~= members);
            },
            None => {
                assert(false);
            },
        }
        k += 1;
    }
    proof {
        assert forall|t: u32| ret@.contains(t) <==> spec_member_table_ids(version@).contains(t) by {
            lemma_member_tables(groups, order@, order@.len() as int, t);
            if ret@.contains(t) {
                let i = choose|i: int|
                    0 <= i < order@.len() && groups[#[trigger] order@[i]].member_table_ids.contains(
                        t,
                    );
                assert(order@.to_set().contains(order@[i]));
                assert(groups.contains_key(order@[i]));
            }
            if spec_member_table_ids(version@).contains(t) {
                let g = choose|g: u64| #[trigger]
                    groups.contains_key(g) && groups[g].member_table_ids.contains(t);
                assert(order@.to_set().contains(g));
                let i = choose|i: int| 0 <= i < order@.len() && order@[i] == g;
                assert(groups[order@[i]].member_table_ids.contains(t));
            }
        }
        assert(ret@ =~= spec_member_table_ids(version@));
    }
    ret
}

/// `m` after the sizes of the first `j` runs were filed under their
/// objects.
pub open spec fn with_run_sizes(m: Map<u64, u64>, runs: Seq<SstView>, j: int) -> Map<u64, u64>
    decreases j,
{
    if j <= 0 {
        m
    } else {
        with_run_sizes(m, runs, j - 1).insert(runs[j - 1].object_id, runs[j - 1].file_size)
    }
}

/// `m` after the sizes of the runs of the first `k` levels were filed.
pub open spec fn with_level_sizes(m: Map<u64, u64>, ls: Seq<LevelView>, k: int) -> Map<u64, u64>
    decreases k,
{
    if k <= 0 {
        m
    } else {
        with_run_sizes(
            with_level_sizes(m, ls, k - 1),
            ls[k - 1].table_infos,
            ls[k - 1].table_infos.len() as int,
        )
    }
}

/// The size of every object in the first `n` groups of `order`.
pub open spec fn object_sizes(groups: Map<u64, LevelsView>, order: Seq<u64>, n: int) -> Map<u64, u64>
    decreases n,
{
    if n <= 0 {
        Map::empty()
    } else {
        let ls = levels_oldest_first(groups[order[n - 1]]);
        with_level_sizes(object_sizes(groups, order, n - 1), ls, ls.len() as int)
    }
}

/// The stored size of every object that a run of the version refers to.
pub fn object_size_map(version: &HummockVersion) -> (r: HashMap<u64, u64>)
    ensures
        r@ == object_sizes(
            version@.levels,
            ascending_seq(version@.levels.dom()),
            ascending_seq(version@.levels.dom()).len() as int,
        ),
{
    let ghost groups = version@.levels;
    let mut ret: HashMap<u64, u64> = HashMap::new();
    let order = sorted_keys(&version.levels);
    assert(groups.dom() =~= version.levels@.dom());
    let mut n: usize = 0;
    assert(ret@ =~= object_sizes(groups, order@, 0));
    while n < order.len()
        invariant
            n <= order.len(),
            groups == version@.levels,
            order@.to_set() == version.levels@.dom(),
            ret@ == object_sizes(groups, order@, n as int),
        decreases order.len() - n,
    {
        let group_id: u64 = order[n];
        assert(order@.to_set().contains(group_id)) by {
            assert(order@[n as int] == group_id);
        }
        match version.levels.get(&group_id) {
            Some(group) => {
                assert(groups[group_id] == group@);
                let levels = group_levels_oldest_first(group);
                let ghost ls = level_refs_view(levels@);
                let ghost base = ret@;
                let mut k: usize = 0;
                while k < levels.len()
                    invariant
                        k <= levels.len(),
                        ls == level_refs_view(levels@),
                        ret@ == with_level_sizes(base, ls, k as int),
                    decreases levels.len() - k,
                {
                    let level: &Level = levels[k];
                    let ghost runs = ls[k as int].table_infos;
                    assert(runs == level@.table_infos);
                    let ghost inner = ret@;
                    let mut j: usize = 0;
                    while j < level.table_infos.len()
                        invariant
                            j <= level.table_infos.len(),
                            runs == level@.table_infos,
                            ret@ == with_run_sizes(inner, runs, j as int),
                        decreases level.table_infos.len() - j,
                    {
                        assert(runs[j as int] == level.table_infos[j as int]@);
                        ret.insert(level.table_infos[j].object_id, level.table_infos[j].file_size);
                        j += 1;
                    }
                    k += 1;
                }
            },
            None => {
                assert(false);
            },
        }
        n += 1;
    }
    ret
}

impl HummockVersion {
    /// The group that each member table belongs to.
    pub fn build_compaction_group_info(&self) -> (r: HashMap<u32, u64>)
        ensures
            r@ == spec_table_groups(self@),
    {
        get_table_compaction_group_id_mapping(self)
    }
}

/// Sizes of the tables of one compaction group.
#[derive(Clone, Default)]
pub struct TableGroupInfo {
    pub group_id: u64,
    pub group_size: u64,
    pub table_statistic: HashMap<u32, u64>,
    pub split_by_table: bool,
}

/// `f` can give the answer `b` when it is shown a level with the value
/// `lv`.
pub open spec fn answered<F: Fn(&Level) -> bool>(f: F, lv: LevelView, b: bool) -> bool {
    exists|level: &Level| level@ == lv && f.ensures((level,), b)
}

/// `HashMap::get_mut`: the value under the key, for writing; what is
/// written to it is what the map holds under the key afterwards, and
/// nothing else changes.
#[verifier::external_body]
fn levels_get_mut(groups: &mut HashMap<u64, Levels>, group_id: u64) -> (r: Option<&mut Levels>)
    ensures
        match r {
            Some(levels) => old(groups)@.contains_key(group_id) && *levels == old(groups)@[group_id]
                && final(groups)@ == old(groups)@.insert(group_id, *final(levels)),
            None => !old(groups)@.contains_key(group_id) && final(groups)@ == old(groups)@,
        },
{
    groups.get_mut(&group_id)
}

impl HummockVersion {
    /// The levels of a compaction group that the version holds, for
    /// writing.
    pub fn get_compaction_group_levels_mut(&mut self, compaction_group_id: u64) -> (r: &mut Levels)
        requires
            old(self)@.levels.contains_key(compaction_group_id),
        ensures
            r@ == old(self)@.levels[compaction_group_id],
            final(self)@ == (VersionView {
                levels: old(self)@.levels.insert(compaction_group_id, final(r)@),
                ..old(self)@
            }),
    {
        let ghost groups = self.levels@;
        assert(groups.contains_key(compaction_group_id));
        match levels_get_mut(&mut self.levels, compaction_group_id) {
            Some(levels) => {
                proof {
                    crate::version::lemma_groups_view_insert(
                        groups,
                        compaction_group_id,
                        *final(levels),
                    );
                }
                levels
            },
            None => vstd::pervasive::unreached(),
        }
    }

    /// Shows the levels of a group to `f` in the order in which they are
    /// stored, the sub-levels of level zero first, until `f` answers
    /// `false`. Returns the number of levels shown. A group that the
    /// version does not hold has no levels to show.
    pub fn level_iter<F: Fn(&Level) -> bool>(&self, compaction_group_id: u64, f: F) -> (r: usize)
        requires
            forall|level: &Level| #[trigger] f.requires((level,)),
        ensures
            !self@.levels.contains_key(compaction_group_id) ==> r == 0,
            self@.levels.contains_key(compaction_group_id) ==> {
                let shown = levels_oldest_first(self@.levels[compaction_group_id]);
                &&& r <= shown.len()
                &&& forall|i: int| 0 <= i < r - 1 ==> #[trigger] answered(f, shown[i], true)
                &&& r < shown.len() ==> r > 0 && answered(f, shown[r - 1], false)
            },
    {
        match self.levels.get(&compaction_group_id) {
            Some(group) => {
                assert(self@.levels[compaction_group_id] == group@);
                let levels = group_levels_oldest_first(group);
                let ghost shown = level_refs_view(levels@);
                let mut k: usize = 0;
                while k < levels.len()
                    invariant
                        k <= levels.len(),
                        shown == level_refs_view(levels@),
                        self@.levels.contains_key(compaction_group_id),
                        shown == levels_oldest_first(self@.levels[compaction_group_id]),
                        forall|level: &Level| #[trigger] f.requires((level,)),
                        forall|i: int| 0 <= i < k ==> #[trigger] answered(f, shown[i], true),
                    decreases levels.len() - k,
                {
                    let level: &Level = levels[k];
                    assert(shown[k as int] == level@);
                    let go_on = f(level);
                    assert(answered(f, shown[k as int], go_on));
                    if !go_on {
                        return k + 1;
                    }
                    k += 1;
                }
                k
            },
            None => {
                assert(!self@.levels.contains_key(compaction_group_id));
                0
            },
        }
    }
}

} // verus!
