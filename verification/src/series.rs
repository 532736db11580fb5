use vstd::prelude::*;

use crate::types::ResamplePoint;

verus! {

/// Map view of a run of points, a later point overriding an earlier one
/// with the same timestamp.
pub open spec fn points_map(s: Seq<ResamplePoint>) -> Map<int, u64>
    decreases s.len(),
{
    if s.len() == 0 {
        Map::empty()
    } else {
        points_map(s.drop_last()).insert(s.last().timestamp as int, s.last().price)
    }
}

/// Effect of running a plan's upserts in order against a keyed store:
/// insert-or-overwrite, last writer per key wins.
pub open spec fn apply_plan_spec(m: Map<int, u64>, plan: Seq<ResamplePoint>) -> Map<int, u64>
    decreases plan.len(),
{
    if plan.len() == 0 {
        m
    } else {
        apply_plan_spec(m, plan.drop_last()).insert(
            plan.last().timestamp as int,
            plan.last().price,
        )
    }
}

/// The value the plan itself assigns to timestamp `t`: the price of the
/// last plan point at `t`, if there is one.
pub open spec fn plan_value(plan: Seq<ResamplePoint>, t: int) -> Option<u64>
    decreases plan.len(),
{
    if plan.len() == 0 {
        Option::None
    } else if plan.last().timestamp as int == t {
        Option::Some(plan.last().price)
    } else {
        plan_value(plan.drop_last(), t)
    }
}

/// What a finished plan run holds at each timestamp: the plan's own value
/// where the plan names the timestamp, the store's previous value — present
/// or absent exactly as before — where it does not. An upsert plan neither
/// duplicates a row nor disturbs rows it does not name.
pub proof fn lemma_apply_plan_pointwise(m: Map<int, u64>, plan: Seq<ResamplePoint>, t: int)
    ensures
        apply_plan_spec(m, plan).dom().contains(t) == (m.dom().contains(t) || plan_value(plan, t)
            is Some),
        plan_value(plan, t) matches Some(v) ==> apply_plan_spec(m, plan)[t] == v,
        plan_value(plan, t) is None && m.dom().contains(t) ==> apply_plan_spec(m, plan)[t] == m[t],
    decreases plan.len(),
{
    if plan.len() > 0 {
        lemma_apply_plan_pointwise(m, plan.drop_last(), t);
    }
}

/// Idempotence of a pass's writes: running the same upsert plan a second
/// time leaves the store exactly as the first run left it.
pub proof fn lemma_apply_plan_idempotent(m: Map<int, u64>, plan: Seq<ResamplePoint>)
    ensures
        apply_plan_spec(apply_plan_spec(m, plan), plan) == apply_plan_spec(m, plan),
{
    let once = apply_plan_spec(m, plan);
    let twice = apply_plan_spec(once, plan);
    assert forall|t: int| #![all_triggers] true implies {
        &&& twice.dom().contains(t) == once.dom().contains(t)
        &&& twice.dom().contains(t) ==> twice[t] == once[t]
    } by {
        lemma_apply_plan_pointwise(m, plan, t);
        lemma_apply_plan_pointwise(once, plan, t);
    }
    assert(twice =~= once);
}

/// A timestamp that no plan point names is left untouched: data outside the
/// pass's window — in particular anything older than the recheck window —
/// is never rewritten by the pass.
pub proof fn lemma_apply_plan_preserves_unnamed(m: Map<int, u64>, plan: Seq<ResamplePoint>, t: int)
    requires
        forall|k: int| 0 <= k < plan.len() ==> (#[trigger] plan[k]).timestamp as int != t,
    ensures
        apply_plan_spec(m, plan).dom().contains(t) == m.dom().contains(t),
        m.dom().contains(t) ==> apply_plan_spec(m, plan)[t] == m[t],
{
    lemma_plan_value_unnamed(plan, t);
    lemma_apply_plan_pointwise(m, plan, t);
}

/// A plan with no point at `t` assigns no value to `t`.
proof fn lemma_plan_value_unnamed(plan: Seq<ResamplePoint>, t: int)
    requires
        forall|k: int| 0 <= k < plan.len() ==> (#[trigger] plan[k]).timestamp as int != t,
    ensures
        plan_value(plan, t) is None,
    decreases plan.len(),
{
    if plan.len() > 0 {
        assert(plan[plan.len() - 1].timestamp as int != t);
        lemma_plan_value_unnamed(plan.drop_last(), t);
    }
}

/// A value the plan assigns comes from one of its points.
pub proof fn lemma_plan_value_some_index(plan: Seq<ResamplePoint>, t: int)
    requires
        plan_value(plan, t) is Some,
    ensures
        exists|k: int| 0 <= k < plan.len() && (#[trigger] plan[k]).timestamp as int == t,
    decreases plan.len(),
{
    if plan.last().timestamp as int == t {
        assert(plan[plan.len() - 1].timestamp as int == t);
    } else {
        lemma_plan_value_some_index(plan.drop_last(), t);
        let k0: int = choose|k0: int|
            0 <= k0 < plan.drop_last().len() && (#[trigger] plan.drop_last()[k0]).timestamp as int
                == t;
        assert(plan[k0].timestamp as int == t);
    }
}

/// A value the plan assigns comes from one of its points, price included.
pub proof fn lemma_plan_value_some_entry(plan: Seq<ResamplePoint>, t: int)
    requires
        plan_value(plan, t) is Some,
    ensures
        exists|k: int|
            0 <= k < plan.len() && (#[trigger] plan[k]).timestamp as int == t && plan[k].price
                == plan_value(plan, t)->Some_0,
    decreases plan.len(),
{
    if plan.last().timestamp as int == t {
        assert(plan[plan.len() - 1].timestamp as int == t);
    } else {
        lemma_plan_value_some_entry(plan.drop_last(), t);
        let k0: int = choose|k0: int|
            0 <= k0 < plan.drop_last().len() && (#[trigger] plan.drop_last()[k0]).timestamp as int
                == t && plan.drop_last()[k0].price == plan_value(plan.drop_last(), t)->Some_0;
        assert(plan[k0].timestamp as int == t && plan[k0].price == plan_value(plan, t)->Some_0);
    }
}

/// A plan whose every point restates what the store already holds changes
/// nothing when run.
pub proof fn lemma_apply_plan_no_change(m: Map<int, u64>, plan: Seq<ResamplePoint>)
    requires
        forall|k: int|
            0 <= k < plan.len() ==> m.dom().contains((#[trigger] plan[k]).timestamp as int)
                && m[plan[k].timestamp as int] == plan[k].price,
    ensures
        apply_plan_spec(m, plan) == m,
{
    let after = apply_plan_spec(m, plan);
    assert forall|t: int| #![all_triggers] true implies {
        &&& after.dom().contains(t) == m.dom().contains(t)
        &&& after.dom().contains(t) ==> after[t] == m[t]
    } by {
        lemma_apply_plan_pointwise(m, plan, t);
        if plan_value(plan, t) is Some {
            lemma_plan_value_some_entry(plan, t);
        }
    }
    assert(after =~= m);
}

/// When no later plan point repeats its timestamp, a plan point's own price
/// is what the plan assigns to its timestamp.
pub proof fn lemma_plan_value_at(plan: Seq<ResamplePoint>, k: int)
    requires
        0 <= k < plan.len(),
        forall|k2: int|
            k < k2 < plan.len() ==> (#[trigger] plan[k2]).timestamp != plan[k].timestamp,
    ensures
        plan_value(plan, plan[k].timestamp as int) == Option::Some(plan[k].price),
    decreases plan.len(),
{
    if k == plan.len() - 1 {
        assert(plan.last() == plan[k]);
    } else {
        assert(plan[plan.len() - 1].timestamp != plan[k].timestamp);
        assert(plan.drop_last()[k] == plan[k]);
        lemma_plan_value_at(plan.drop_last(), k);
    }
}

/// The points are strictly increasing in time: each grid timestamp holds at
/// most one row.
pub open spec fn sorted_points(s: Seq<ResamplePoint>) -> bool {
    forall|k1: int, k2: int|
        0 <= k1 < k2 < s.len() ==> (#[trigger] s[k1]).timestamp < (#[trigger] s[k2]).timestamp
}

/// Lookup in the map view goes by the rows: a timestamp is present exactly
/// when some row carries it, and it maps to that row's price.
pub proof fn lemma_points_map_lookup(s: Seq<ResamplePoint>, t: int)
    requires
        sorted_points(s),
    ensures
        points_map(s).dom().contains(t) == exists|k: int|
            0 <= k < s.len() && (#[trigger] s[k]).timestamp as int == t,
        forall|k: int|
            0 <= k < s.len() && (#[trigger] s[k]).timestamp as int == t ==> points_map(s)[t]
                == s[k].price,
    decreases s.len(),
{
    if s.len() > 0 {
        lemma_points_map_lookup(s.drop_last(), t);
        if points_map(s).dom().contains(t) {
            if s.last().timestamp as int == t {
                assert(s[s.len() - 1].timestamp as int == t);
            } else {
                let k0: int = choose|k0: int|
                    0 <= k0 < s.drop_last().len() && (#[trigger] s.drop_last()[k0]).timestamp as int
                        == t;
                assert(s[k0].timestamp as int == t);
            }
        }
        if exists|k: int| 0 <= k < s.len() && (#[trigger] s[k]).timestamp as int == t {
            let k0: int = choose|k0: int| 0 <= k0 < s.len() && (#[trigger] s[k0]).timestamp as int == t;
            if k0 < s.len() - 1 {
                assert(s.drop_last()[k0].timestamp as int == t);
            }
        }
    }
}

/// The map view has exactly one binding per row.
pub proof fn lemma_points_map_card(s: Seq<ResamplePoint>)
    requires
        sorted_points(s),
    ensures
        points_map(s).dom().finite(),
        points_map(s).dom().len() == s.len(),
    decreases s.len(),
{
    if s.len() > 0 {
        lemma_points_map_card(s.drop_last());
        lemma_points_map_lookup(s.drop_last(), s.last().timestamp as int);
        assert(!points_map(s.drop_last()).dom().contains(s.last().timestamp as int)) by {
            if exists|k: int|
                0 <= k < s.drop_last().len() && (#[trigger] s.drop_last()[k]).timestamp as int
                    == s.last().timestamp as int {
                let k0: int = choose|k0: int|
                    0 <= k0 < s.drop_last().len() && (#[trigger] s.drop_last()[k0]).timestamp as int
                        == s.last().timestamp as int;
                assert(s[k0].timestamp < s[s.len() - 1].timestamp);
            }
        }
    }
}

/// The derived fixed-grid series of one security: at most one price per grid
/// timestamp, rows kept in increasing time order. Its meaning is the map
/// from grid timestamp to price.
pub struct ResampledSeries {
    points: Vec<ResamplePoint>,
}

impl View for ResampledSeries {
    type V = Map<int, u64>;

    closed spec fn view(&self) -> Map<int, u64> {
        points_map(self.points@)
    }
}

impl ResampledSeries {
    /// Rows are strictly ordered by timestamp, so each key is unique.
    pub closed spec fn wf(&self) -> bool {
        sorted_points(self.points@)
    }

    /// The series' high-water mark: the largest timestamp it holds, if any.
    pub closed spec fn high_ts(&self) -> Option<i64> {
        if self.points@.len() == 0 {
            Option::None
        } else {
            Option::Some(self.points@.last().timestamp)
        }
    }

    /// An empty series: no prior resampled data.
    pub fn new() -> (s: Self)
        ensures
            s.wf(),
            s@ == Map::<int, u64>::empty(),
            s.high_ts() is None,
    {
        ResampledSeries { points: Vec::new() }
    }

    /// The high-water mark is the maximum of the keys: every stored
    /// timestamp is at or below it, and it is itself stored.
    pub proof fn lemma_high_ts_is_max(&self)
        requires
            self.wf(),
        ensures
            self.high_ts() is None ==> self@ == Map::<int, u64>::empty(),
            self.high_ts() matches Some(mt) ==> self@.dom().contains(mt as int) && forall|t: int|
                #[trigger] self@.dom().contains(t) ==> t <= mt,
    {
        if self.points@.len() == 0 {
            assert(self@ =~= Map::<int, u64>::empty());
        } else {
            let mt = self.points@.last().timestamp;
            lemma_points_map_lookup(self.points@, mt as int);
            assert(self.points@[self.points@.len() - 1].timestamp as int == mt as int);
            assert forall|t: int| #[trigger] self@.dom().contains(t) implies t <= mt by {
                lemma_points_map_lookup(self.points@, t);
                let k0: int = choose|k0: int|
                    0 <= k0 < self.points@.len() && (#[trigger] self.points@[k0]).timestamp as int
                        == t;
                if k0 < self.points@.len() - 1 {
                    assert(self.points@[k0].timestamp < self.points@[self.points@.len()
                        - 1].timestamp);
                }
            }
        }
    }

    /// Largest timestamp present, to derive the next pass's low watermark.
    pub fn max_timestamp(&self) -> (r: Option<i64>)
        ensures
            r == self.high_ts(),
    {
        if self.points.len() == 0 {
            None
        } else {
            Some(self.points[self.points.len() - 1].timestamp)
        }
    }

    /// Number of grid intervals that hold a price.
    pub fn len(&self) -> (n: usize)
        requires
            self.wf(),
        ensures
            n == self@.dom().len(),
    {
        proof {
            lemma_points_map_card(self.points@);
        }
        self.points.len()
    }

    /// The price stored for grid timestamp `t`, if any.
    pub fn get(&self, t: i64) -> (r: Option<u64>)
        requires
            self.wf(),
        ensures
            self@.dom().contains(t as int) ==> r == Option::Some(self@[t as int]),
            !self@.dom().contains(t as int) ==> r is None,
    {
        proof {
            lemma_points_map_lookup(self.points@, t as int);
        }
        let mut k: usize = 0;
        while k < self.points.len()
            invariant
                self.wf(),
                k <= self.points@.len(),
                forall|k2: int| 0 <= k2 < k ==> (#[trigger] self.points@[k2]).timestamp != t,
            decreases self.points@.len() - k,
        {
            if self.points[k].timestamp == t {
                proof {
                    lemma_points_map_lookup(self.points@, t as int);
                    assert(self.points@[k as int].timestamp as int == t as int);
                }
                return Some(self.points[k].price);
            }
            k += 1;
        }
        None
    }

    /// Insert-or-overwrite one point, keyed by its grid timestamp: the
    /// store-level upsert, conflict resolved in favour of the new price.
    pub fn upsert(&mut self, p: ResamplePoint)
        requires
            old(self).wf(),
        ensures
            final(self).wf(),
            final(self)@ == old(self)@.insert(p.timestamp as int, p.price),
    {
        let mut idx: usize = 0;
        while idx < self.points.len() && self.points[idx].timestamp < p.timestamp
            invariant
                idx <= self.points@.len(),
                forall|k: int| 0 <= k < idx ==> (#[trigger] self.points@[k]).timestamp < p.timestamp,
                self.points@ == old(self).points@,
            decreases self.points@.len() - idx,
        {
            idx += 1;
        }
        if idx < self.points.len() && self.points[idx].timestamp == p.timestamp {
            proof {
                lemma_points_map_update(self.points@, idx as int, p);
            }
            self.points.set(idx, p);
        } else {
            proof {
                assert(idx == self.points@.len() || self.points@[idx as int].timestamp
                    > p.timestamp);
                lemma_points_map_insert(self.points@, idx as int, p);
            }
            let ghost before = self.points@;
            self.points.insert(idx, p);
            proof {
                assert forall|k1: int, k2: int| 0 <= k1 < k2 < self.points@.len() implies (
                #[trigger] self.points@[k1]).timestamp < (#[trigger] self.points@[k2]).timestamp by {
                    if k1 < idx {
                        assert(self.points@[k1] == before[k1]);
                    }
                    if k2 > idx {
                        assert(self.points@[k2] == before[k2 - 1]);
                        assert(before[k2 - 1].timestamp > p.timestamp) by {
                            if idx < before.len() {
                                assert(before[idx as int].timestamp > p.timestamp);
                            }
                        }
                    }
                }
            }
        }
    }

    /// Run a whole plan against the series, in order: gap-fill writes land
    /// before the selected bucket that triggered them, and the series ends
    /// as the plan's last-writer-wins image over its previous contents.
    pub fn apply_plan(&mut self, plan: &Vec<ResamplePoint>)
        requires
            old(self).wf(),
        ensures
            final(self).wf(),
            final(self)@ == apply_plan_spec(old(self)@, plan@),
    {
        let mut j: usize = 0;
        while j < plan.len()
            invariant
                j <= plan@.len(),
                self.wf(),
                self@ == apply_plan_spec(old(self)@, plan@.take(j as int)),
            decreases plan@.len() - j,
        {
            proof {
                assert(plan@.take(j as int + 1).drop_last() =~= plan@.take(j as int));
                assert(plan@.take(j as int + 1).last() == plan@[j as int]);
            }
            self.upsert(plan[j]);
            j += 1;
        }
        proof {
            assert(plan@.take(plan@.len() as int) =~= plan@);
        }
    }
}

/// Overwriting the row that holds `p`'s timestamp is, in the map view, one
/// keyed insert.
proof fn lemma_points_map_update(s: Seq<ResamplePoint>, idx: int, p: ResamplePoint)
    requires
        sorted_points(s),
        0 <= idx < s.len(),
        s[idx].timestamp == p.timestamp,
    ensures
        points_map(s.update(idx, p)) == points_map(s).insert(p.timestamp as int, p.price),
    decreases s.len(),
{
    let s2 = s.update(idx, p);
    if idx == s.len() - 1 {
        assert(s2.drop_last() =~= s.drop_last());
        assert(s2.last() == p);
        assert(points_map(s.drop_last()).insert(p.timestamp as int, p.price) =~= points_map(
            s.drop_last(),
        ).insert(s.last().timestamp as int, s.last().price).insert(p.timestamp as int, p.price));
    } else {
        assert(s2.drop_last() =~= s.drop_last().update(idx, p));
        assert(s2.last() == s.last());
        lemma_points_map_update(s.drop_last(), idx, p);
        assert(s[idx].timestamp < s[s.len() - 1].timestamp);
        assert(points_map(s.drop_last()).insert(p.timestamp as int, p.price).insert(
            s.last().timestamp as int,
            s.last().price,
        ) =~= points_map(s.drop_last()).insert(s.last().timestamp as int, s.last().price).insert(
            p.timestamp as int,
            p.price,
        ));
    }
}

/// Inserting a new row between its sorted neighbours is, in the map view,
/// one keyed insert.
proof fn lemma_points_map_insert(s: Seq<ResamplePoint>, idx: int, p: ResamplePoint)
    requires
        sorted_points(s),
        0 <= idx <= s.len(),
        forall|k: int| 0 <= k < idx ==> (#[trigger] s[k]).timestamp < p.timestamp,
        forall|k: int| idx <= k < s.len() ==> (#[trigger] s[k]).timestamp > p.timestamp,
    ensures
        points_map(s.insert(idx, p)) == points_map(s).insert(p.timestamp as int, p.price),
    decreases s.len(),
{
    let s2 = s.insert(idx, p);
    if idx == s.len() {
        assert(s2.drop_last() =~= s);
        assert(s2.last() == p);
    } else {
        assert(s2.drop_last() =~= s.drop_last().insert(idx, p));
        assert(s2.last() == s.last());
        lemma_points_map_insert(s.drop_last(), idx, p);
        assert(s[s.len() - 1].timestamp > p.timestamp);
        assert(points_map(s.drop_last()).insert(p.timestamp as int, p.price).insert(
            s.last().timestamp as int,
            s.last().price,
        ) =~= points_map(s.drop_last()).insert(s.last().timestamp as int, s.last().price).insert(
            p.timestamp as int,
            p.price,
        ));
    }
}

} // verus!
