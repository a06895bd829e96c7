//! Finding clusters of containers whose items of one group add up to more
//! than a threshold.
use vstd::prelude::*;

use crate::args::{SearchDupeStashes, SearchDupeStashesMode};
use crate::bounds::{Bounded, Bounds};
use crate::config::Config;
use crate::quadtree::{lemma_holds_determines, QuadTree, DEFAULT_CAPACITY, DEFAULT_MAX_DEPTH};

verus! {

broadcast use {
    vstd::seq_lib::group_to_multiset_ensures,
    vstd::multiset::group_multiset_axioms,
};

/// A container in the world: where it is, which group its items belong to,
/// and how many of them it holds.
pub struct StashRecord {
    pub group: String,
    pub count: u64,
    pub bounds: Bounds,
}

impl Bounded for StashRecord {
    open spec fn spec_bounds(&self) -> Bounds {
        self.bounds
    }

    fn bounds(&self) -> (r: Bounds) {
        self.bounds
    }
}

/// One container of a warning: where it is and how many items it holds.
#[derive(Clone, Copy, Debug, PartialEq, Eq, Structural)]
pub struct Member {
    pub bounds: Bounds,
    pub count: u64,
}

/// A cluster of containers whose items of `group` add up to `total`, more
/// than `threshold`.
pub struct Warning {
    pub group: String,
    pub total: u128,
    pub threshold: u64,
    pub members: Vec<Member>,
}

/// A warning as plain values: group, total, threshold, members.
pub type WarningView = (Seq<char>, int, int, Seq<Member>);

impl View for Warning {
    type V = WarningView;

    open spec fn view(&self) -> WarningView {
        (self.group@, self.total as int, self.threshold as int, self.members@)
    }
}

/// The views of a sequence of warnings.
pub open spec fn views(ws: Seq<Warning>) -> Seq<WarningView> {
    ws.map_values(|w: Warning| w@)
}

/// `v` held within the range of `i64`.
pub open spec fn clamp(v: int) -> int {
    if v < i64::MIN {
        i64::MIN as int
    } else if v > i64::MAX {
        i64::MAX as int
    } else {
        v
    }
}

/// The region `b` grown by `radius` on every side, held within `i64`.
pub open spec fn window_of(b: Bounds, radius: u32) -> Bounds {
    Bounds {
        x: clamp(b.x - radius) as i64,
        y: clamp(b.y - radius) as i64,
        width: clamp(b.width + 2 * radius) as i64,
        height: clamp(b.height + 2 * radius) as i64,
    }
}

/// The two regions share some area.
pub open spec fn overlaps(a: Bounds, b: Bounds) -> bool {
    &&& a.x < b.right()
    &&& b.x < a.right()
    &&& a.y < b.bottom()
    &&& b.y < a.bottom()
}

/// The records of `found` that overlap `window`, in order.
pub open spec fn near(found: Seq<&StashRecord>, window: Bounds) -> Seq<&StashRecord>
    decreases found.len(),
{
    if found.len() == 0 {
        Seq::empty()
    } else {
        let before = near(found.drop_last(), window);
        if overlaps(found.last().bounds, window) {
            before.push(found.last())
        } else {
            before
        }
    }
}

pub open spec fn member_of(r: StashRecord) -> Member {
    Member { bounds: r.bounds, count: r.count }
}

/// The records of `c` in group `g`, as members, in order.
pub open spec fn group_members(c: Seq<&StashRecord>, g: Seq<char>) -> Seq<Member>
    decreases c.len(),
{
    if c.len() == 0 {
        Seq::empty()
    } else {
        let before = group_members(c.drop_last(), g);
        if c.last().group@ == g {
            before.push(member_of(*c.last()))
        } else {
            before
        }
    }
}

/// The sum of the counts of the records of `c` in group `g`.
pub open spec fn group_total(c: Seq<&StashRecord>, g: Seq<char>) -> int
    decreases c.len(),
{
    if c.len() == 0 {
        0
    } else {
        let before = group_total(c.drop_last(), g);
        if c.last().group@ == g {
            before + c.last().count
        } else {
            before
        }
    }
}

/// No record before `c[j]` has its group.
pub open spec fn first_of_group(c: Seq<&StashRecord>, j: int) -> bool {
    forall|k: int| 0 <= k < j ==> c[k].group@ != c[j].group@
}

/// The warnings of cluster `c` for the groups that first appear among its
/// first `n` records: one per group whose total exceeds `threshold`, in the
/// order in which the groups first appear.
pub open spec fn cluster_warnings(c: Seq<&StashRecord>, threshold: u64, n: int) -> Seq<WarningView>
    decreases n,
{
    if n <= 0 {
        Seq::empty()
    } else {
        let before = cluster_warnings(c, threshold, n - 1);
        let g = c[n - 1].group@;
        if first_of_group(c, n - 1) && group_total(c, g) > threshold {
            before.push((g, group_total(c, g), threshold as int, group_members(c, g)))
        } else {
            before
        }
    }
}

/// `acc` followed by each warning of `ws` that is not there yet.
pub open spec fn add_new(acc: Seq<WarningView>, ws: Seq<WarningView>) -> Seq<WarningView>
    decreases ws.len(),
{
    if ws.len() == 0 {
        acc
    } else {
        let before = add_new(acc, ws.drop_last());
        if before.contains(ws.last()) {
            before
        } else {
            before.push(ws.last())
        }
    }
}

/// The cluster around `r`: the records that a query of `index` with `r`'s
/// window yields and that overlap that window.
pub open spec fn cluster_of<'a>(index: QuadTree<'a, StashRecord>, r: StashRecord, radius: u32) -> Seq<&'a StashRecord> {
    let w = window_of(r.bounds, radius);
    near(index.query_result(w), w)
}

/// The warnings for the clusters around each record of `recs` in turn,
/// each distinct warning once.
pub open spec fn stash_warnings<'a>(
    index: QuadTree<'a, StashRecord>,
    recs: Seq<&'a StashRecord>,
    radius: u32,
    threshold: u64,
) -> Seq<WarningView>
    decreases recs.len(),
{
    if recs.len() == 0 {
        Seq::empty()
    } else {
        let c = cluster_of(index, *recs.last(), radius);
        add_new(
            stash_warnings(index, recs.drop_last(), radius, threshold),
            cluster_warnings(c, threshold, c.len() as int),
        )
    }
}

/// Two indexes that answer every query alike give the same warnings.
pub proof fn lemma_same_queries_same_warnings<'a>(
    a: QuadTree<'a, StashRecord>,
    b: QuadTree<'a, StashRecord>,
    recs: Seq<&'a StashRecord>,
    radius: u32,
    threshold: u64,
)
    requires
        forall|w: Bounds| #[trigger] a.query_result(w) == b.query_result(w),
    ensures
        stash_warnings(a, recs, radius, threshold) == stash_warnings(b, recs, radius, threshold),
    decreases recs.len(),
{
    if recs.len() > 0 {
        lemma_same_queries_same_warnings(a, b, recs.drop_last(), radius, threshold);
        let w = window_of(recs.last().bounds, radius);
        assert(a.query_result(w) == b.query_result(w));
    }
}

fn clamp_i64(v: i128) -> (r: i64)
    ensures
        r == clamp(v as int),
{
    if v < i64::MIN as i128 {
        i64::MIN
    } else if v > i64::MAX as i128 {
        i64::MAX
    } else {
        v as i64
    }
}

/// Returns the region `b` grown by `radius` on every side.
pub fn window(b: &Bounds, radius: u32) -> (w: Bounds)
    ensures
        w == window_of(*b, radius),
{
    let r = radius as i128;
    Bounds {
        x: clamp_i64(b.x as i128 - r),
        y: clamp_i64(b.y as i128 - r),
        width: clamp_i64(b.width as i128 + 2 * r),
        height: clamp_i64(b.height as i128 + 2 * r),
    }
}

/// Whether the two regions share some area.
pub fn overlap(a: &Bounds, b: &Bounds) -> (r: bool)
    ensures
        r == overlaps(*a, *b),
{
    (a.x as i128) < b.x as i128 + b.width as i128
        && (b.x as i128) < a.x as i128 + a.width as i128
        && (a.y as i128) < b.y as i128 + b.height as i128
        && (b.y as i128) < a.y as i128 + a.height as i128
}

fn near_records<'a>(found: &Vec<&'a StashRecord>, w: &Bounds) -> (r: Vec<&'a StashRecord>)
    ensures
        r@ == near(found@, *w),
{
    let mut r: Vec<&'a StashRecord> = Vec::new();
    let mut i: usize = 0;
    while i < found.len()
        invariant
            i <= found.len(),
            r@ == near(found@.take(i as int), *w),
        decreases found.len() - i,
    {
        proof {
            assert(found@.take(i + 1).drop_last() =~= found@.take(i as int));
        }
        if overlap(&found[i].bounds, w) {
            r.push(found[i]);
        }
        i += 1;
    }
    proof {
        assert(found@.take(i as int) =~= found@);
    }
    r
}

/// Returns the total and the members of group `g` in cluster `c`.
fn group_summary(c: &Vec<&StashRecord>, g: &String) -> (r: (u128, Vec<Member>))
    ensures
        r.0 == group_total(c@, g@),
        r.1@ == group_members(c@, g@),
{
    let mut total: u128 = 0;
    let mut members: Vec<Member> = Vec::new();
    let mut k: usize = 0;
    while k < c.len()
        invariant
            k <= c.len(),
            total == group_total(c@.take(k as int), g@),
            total <= k * (u64::MAX as int),
            members@ == group_members(c@.take(k as int), g@),
        decreases c.len() - k,
    {
        proof {
            assert(c@.take(k + 1).drop_last() =~= c@.take(k as int));
        }
        if c[k].group == *g {
            total = total + c[k].count as u128;
            members.push(Member { bounds: c[k].bounds, count: c[k].count });
        }
        k += 1;
    }
    proof {
        assert(c@.take(k as int) =~= c@);
    }
    (total, members)
}

fn is_first_of_group(c: &Vec<&StashRecord>, j: usize) -> (r: bool)
    requires
        j < c.len(),
    ensures
        r == first_of_group(c@, j as int),
{
    let mut k: usize = 0;
    while k < j
        invariant
            k <= j < c.len(),
            forall|i: int| 0 <= i < k ==> c@[i].group@ != c@[j as int].group@,
        decreases j - k,
    {
        if c[k].group == c[j].group {
            return false;
        }
        k += 1;
    }
    true
}

/// Returns the warnings of one cluster: for each group among its records,
/// in the order in which the groups first appear, one warning where the
/// group's counts add up to more than `threshold`.
pub fn warnings_for_cluster(c: &Vec<&StashRecord>, threshold: u64) -> (r: Vec<Warning>)
    ensures
        views(r@) == cluster_warnings(c@, threshold, c.len() as int),
{
    let mut out: Vec<Warning> = Vec::new();
    let mut j: usize = 0;
    while j < c.len()
        invariant
            j <= c.len(),
            views(out@) == cluster_warnings(c@, threshold, j as int),
        decreases c.len() - j,
    {
        if is_first_of_group(c, j) {
            let (total, members) = group_summary(c, &c[j].group);
            if total > threshold as u128 {
                out.push(Warning { group: c[j].group.clone(), total, threshold, members });
            }
        }
        proof {
            assert(views(out@) =~= cluster_warnings(c@, threshold, j + 1));
        }
        j += 1;
    }
    out
}

fn same_warning(a: &Warning, b: &Warning) -> (r: bool)
    ensures
        r == (a@ == b@),
{
    if a.group != b.group || a.total != b.total || a.threshold != b.threshold
        || a.members.len() != b.members.len() {
        return false;
    }
    let mut i: usize = 0;
    while i < a.members.len()
        invariant
            i <= a.members.len() == b.members.len(),
            forall|k: int| 0 <= k < i ==> a.members@[k] == b.members@[k],
        decreases a.members.len() - i,
    {
        if a.members[i] != b.members[i] {
            return false;
        }
        i += 1;
    }
    proof {
        assert(a.members@ =~= b.members@);
    }
    true
}

fn holds_warning(acc: &Vec<Warning>, w: &Warning) -> (r: bool)
    ensures
        r == views(acc@).contains(w@),
{
    let mut i: usize = 0;
    while i < acc.len()
        invariant
            i <= acc.len(),
            forall|k: int| 0 <= k < i ==> acc@[k]@ != w@,
        decreases acc.len() - i,
    {
        if same_warning(&acc[i], w) {
            proof {
                assert(views(acc@)[i as int] == w@);
            }
            return true;
        }
        i += 1;
    }
    proof {
        if views(acc@).contains(w@) {
            let k = choose|k: int| 0 <= k < views(acc@).len() && views(acc@)[k] == w@;
            assert(acc@[k]@ == w@);
        }
    }
    false
}

/// Appends each warning of `ws` that `acc` does not hold yet.
fn add_new_warnings(acc: &mut Vec<Warning>, ws: Vec<Warning>)
    ensures
        views(final(acc)@) == add_new(views(old(acc)@), views(ws@)),
{
    let mut rest = ws;
    let ghost all = rest@;
    assert(all.len() == rest.len());
    let mut j: usize = 0;
    while rest.len() > 0
        invariant
            j <= all.len() <= usize::MAX,
            rest@ == all.skip(j as int),
            rest.len() == all.len() - j,
            views(acc@) == add_new(views(old(acc)@), views(all.take(j as int))),
        decreases rest.len(),
    {
        let w = rest.remove(0);
        proof {
            assert(w == all[j as int]);
            assert(views(all.take(j + 1)).drop_last() =~= views(all.take(j as int)));
            assert(views(all.take(j + 1)).last() == w@);
            assert(rest@ =~= all.skip(j + 1));
        }
        if !holds_warning(acc, &w) {
            let ghost a0 = acc@;
            acc.push(w);
            proof {
                assert(views(acc@) =~= views(a0).push(w@));
            }
        }
        j += 1;
    }
    proof {
        assert(all.take(j as int) =~= all);
    }
}

/// Builds the index of `records` over `area`.
pub fn build_index<'a>(area: Bounds, records: &Vec<&'a StashRecord>) -> (r: QuadTree<'a, StashRecord>)
    requires
        area.wf(),
    ensures
        r.wf(),
        r.spec_region() == area,
        r.elems().len() == records.len(),
        r.elems().to_multiset() == records@.to_multiset(),
        r.holds(records@),
        r.spec_capacity() == DEFAULT_CAPACITY,
        r.spec_depth() == 0,
        r.spec_max_depth() == DEFAULT_MAX_DEPTH,
{
    let mut index: QuadTree<'a, StashRecord> = QuadTree::new(area);
    let mut i: usize = 0;
    assert(records@.take(0) =~= Seq::<&'a StashRecord>::empty());
    while i < records.len()
        invariant
            i <= records.len(),
            index.wf(),
            index.spec_region() == area,
            index.elems().len() == i,
            index.elems().to_multiset() == records@.take(i as int).to_multiset(),
            index.holds(records@.take(i as int)),
            index.spec_capacity() == DEFAULT_CAPACITY,
            index.spec_depth() == 0,
            index.spec_max_depth() == DEFAULT_MAX_DEPTH,
        decreases records.len() - i,
    {
        index.insert(records[i]);
        proof {
            assert(records@.take(i + 1) =~= records@.take(i as int).push(records@[i as int]));
        }
        i += 1;
    }
    proof {
        assert(records@.take(i as int) =~= records@);
    }
    index
}

/// Returns the warnings for the clusters around each record of `index`, in
/// the order of `iter`, each distinct warning once.
///
/// The cluster around a record is what a query with its window (its region
/// grown by `radius`) yields, narrowed to the records that overlap that
/// window. Its records are grouped by `group`; each group whose counts add
/// up to more than `threshold` gives a warning.
pub fn find_dupe_stashes<'a>(index: &QuadTree<'a, StashRecord>, radius: u32, threshold: u64) -> (r: Vec<Warning>)
    requires
        index.wf(),
    ensures
        views(r@) == stash_warnings(*index, index.elems(), radius, threshold),
{
    let records = index.to_vec();
    let mut out: Vec<Warning> = Vec::new();
    let mut i: usize = 0;
    while i < records.len()
        invariant
            index.wf(),
            i <= records.len(),
            records@ == index.elems(),
            views(out@) == stash_warnings(*index, records@.take(i as int), radius, threshold),
        decreases records.len() - i,
    {
        let w = window(&records[i].bounds, radius);
        let found = index.query_to_vec(&w);
        let c = near_records(&found, &w);
        let ws = warnings_for_cluster(&c, threshold);
        add_new_warnings(&mut out, ws);
        proof {
            assert(records@.take(i + 1).drop_last() =~= records@.take(i as int));
        }
        i += 1;
    }
    proof {
        assert(records@.take(i as int) =~= records@);
    }
    out
}

/// Why a search could not run.
#[derive(Debug, PartialEq, Eq, Structural, Clone, Copy)]
pub enum SearchError {
    /// No area was given.
    MissingArea,
    /// The area's region does not fit in `i64`.
    AreaTooLarge,
    /// The growth-rate mode is declared but has no algorithm.
    NotImplemented,
}

/// Runs a search over `records`: builds the index over the search's area
/// by inserting the records in order and returns the warnings of
/// `find_dupe_stashes`, with the threshold of `config` and the search's
/// radius. Inserting the records fixes the index (`holds`), so the warnings
/// are those of every index that the same insertions give.
pub fn search_dupe_stashes<'a>(
    search: &SearchDupeStashes,
    config: &Config,
    records: &Vec<&'a StashRecord>,
) -> (r: Result<Vec<Warning>, SearchError>)
    ensures
        search.mode matches Some(SearchDupeStashesMode::GrothRate(_)) ==> r == Err::<Vec<Warning>, SearchError>(SearchError::NotImplemented),
        !(search.mode matches Some(SearchDupeStashesMode::GrothRate(_))) ==> match search.area {
            None => r == Err::<Vec<Warning>, SearchError>(SearchError::MissingArea),
            Some(area) => if !area.fits() {
                r == Err::<Vec<Warning>, SearchError>(SearchError::AreaTooLarge)
            } else {
                r matches Ok(ws) && (exists|index: QuadTree<'a, StashRecord>|
                    #[trigger] index.holds(records@) && index.wf() && index.spec_region() == area.spec_bounds()
                        && index.spec_capacity() == DEFAULT_CAPACITY && index.spec_depth() == 0
                        && index.spec_max_depth() == DEFAULT_MAX_DEPTH) && forall|index: QuadTree<'a, StashRecord>|
                    #[trigger] index.holds(records@) && index.wf() && index.spec_region() == area.spec_bounds()
                        && index.spec_capacity() == DEFAULT_CAPACITY && index.spec_depth() == 0
                        && index.spec_max_depth() == DEFAULT_MAX_DEPTH ==> views(ws@) == stash_warnings(
                        index,
                        index.elems(),
                        search.radius,
                        config.search_dupe_stashes.threshold,
                    )
            },
        },
{
    if let Some(SearchDupeStashesMode::GrothRate(_)) = &search.mode {
        return Err(SearchError::NotImplemented);
    }
    let area = match &search.area {
        Some(a) => a,
        None => {
            return Err(SearchError::MissingArea);
        },
    };
    let root = match area.to_bounds() {
        Some(b) => b,
        None => {
            return Err(SearchError::AreaTooLarge);
        },
    };
    let index = build_index(root, records);
    let ws = find_dupe_stashes(&index, search.radius, config.search_dupe_stashes.threshold);
    proof {
        let thr = config.search_dupe_stashes.threshold;
        assert(index.holds(records@) && index.wf() && index.spec_region() == area.spec_bounds()
            && index.spec_capacity() == DEFAULT_CAPACITY && index.spec_depth() == 0
            && index.spec_max_depth() == DEFAULT_MAX_DEPTH);
        assert forall|other: QuadTree<'a, StashRecord>|
            #[trigger] other.holds(records@) && other.wf() && other.spec_region() == area.spec_bounds()
                && other.spec_capacity() == DEFAULT_CAPACITY && other.spec_depth() == 0
                && other.spec_max_depth() == DEFAULT_MAX_DEPTH implies views(ws@) == stash_warnings(
            other,
            other.elems(),
            search.radius,
            thr,
        ) by {
            assert(forall|b: Bounds| #[trigger] other.query_result(b) == index.query_result(b)) by {
                assert forall|b: Bounds| #[trigger] other.query_result(b) == index.query_result(b) by {
                    lemma_holds_determines(other, index, records@, b);
                }
            }
            lemma_holds_determines(other, index, records@, area.spec_bounds());
            lemma_same_queries_same_warnings(other, index, index.elems(), search.radius, thr);
        }
    }
    Ok(ws)
}

} // verus!
