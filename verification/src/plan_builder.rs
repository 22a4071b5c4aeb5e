//! Turning a classified history and a requested operation into an ordered
//! execution plan.

use vstd::prelude::*;

use crate::errors::Error;
use crate::match_maker::Match;
use crate::match_maker::Status;
use crate::match_maker::matches_wf;
use crate::migration::Migration;

verus! {

/// The direction of one plan step.
#[derive(Clone, Copy, Debug, PartialEq, Eq, Structural)]
pub enum Step {
    Up,
    Down,
}

} // verus!

verus! {

/// The budget a `count` option gives over a history of length `len`: the
/// given number, or everything.
pub open spec fn count_of(count: Option<usize>, len: nat) -> nat {
    match count {
        Some(c) => c as nat,
        None => len,
    }
}

pub open spec fn has_unapplied(ms: Seq<Match>) -> bool {
    exists|i: int| 0 <= i < ms.len() && (#[trigger] ms[i]).status is Unapplied
}

/// The up plan over a classified history: the first `n` unapplied entries in
/// ascending key order, each as an `Up` step on the local migration.
pub open spec fn up_steps(ms: Seq<Match>, n: nat) -> Seq<(Step, Migration)>
    decreases ms.len(),
{
    if ms.len() == 0 || n == 0 {
        Seq::<(Step, Migration)>::empty()
    } else if ms[0].status is Unapplied {
        seq![(Step::Up, ms[0].local->Some_0)] + up_steps(ms.drop_first(), (n - 1) as nat)
    } else {
        up_steps(ms.drop_first(), n)
    }
}

/// A divergent or variant entry precedes, in key order, an unapplied entry
/// that the budget would run: the history is dirty for a forward operation.
pub open spec fn up_blocked(ms: Seq<Match>, n: nat) -> bool
    decreases ms.len(),
{
    if ms.len() == 0 || n == 0 {
        false
    } else {
        match ms[0].status {
            Status::Unapplied => up_blocked(ms.drop_first(), (n - 1) as nat),
            Status::Applied => up_blocked(ms.drop_first(), n),
            Status::Divergent | Status::Variant => has_unapplied(ms.drop_first()),
        }
    }
}

proof fn lemma_has_unapplied_cons(ms: Seq<Match>)
    requires
        ms.len() > 0,
    ensures
        has_unapplied(ms) == (ms[0].status is Unapplied || has_unapplied(ms.drop_first())),
{
    let t = ms.drop_first();
    if has_unapplied(ms) {
        let i = choose|i: int| 0 <= i < ms.len() && (#[trigger] ms[i]).status is Unapplied;
        if i > 0 {
            assert(t[i - 1].status is Unapplied);
        }
    }
    if has_unapplied(t) {
        let i = choose|i: int| 0 <= i < t.len() && (#[trigger] t[i]).status is Unapplied;
        assert(ms[i + 1].status is Unapplied);
    }
}

/// Builds the up plan: applies the first `count` unapplied entries, in
/// ascending order, unless drifted history blocks them.
///
/// Fails with `DirtyHistory` exactly when a divergent or variant entry
/// precedes an unapplied entry that would be run.
pub fn plan_up(matches: Vec<Match>, count: Option<usize>) -> (r: Result<
    Vec<(Step, Migration)>,
    Error,
>)
    requires
        matches_wf(matches@),
    ensures
        r is Ok <==> !up_blocked(matches@, count_of(count, matches@.len())),
        r matches Ok(p) ==> p@ == up_steps(matches@, count_of(count, matches@.len())),
        r is Err ==> r matches Err(Error::DirtyHistory),
{
    let mut ms = matches;
    let ghost ms0: Seq<Match> = ms@;
    let ghost n0: nat = count_of(count, ms@.len() as nat);
    let mut budget: usize = match count {
        Some(c) => c,
        None => ms.len(),
    };
    let mut dirty_seen: bool = false;
    let mut out: Vec<(Step, Migration)> = Vec::new();
    while ms.len() > 0 && budget > 0
        invariant
            ms0 == matches@,
            n0 == count_of(count, matches@.len()),
            matches_wf(ms@),
            budget as nat <= n0,
            up_steps(ms0, n0) == out@ + up_steps(ms@, budget as nat),
            up_blocked(ms0, n0) == (if dirty_seen {
                budget > 0 && has_unapplied(ms@)
            } else {
                up_blocked(ms@, budget as nat)
            }),
        decreases ms@.len(),
    {
        let ghost pre: Seq<Match> = ms@;
        proof {
            assert(pre[0].wf_shape());
            lemma_has_unapplied_cons(pre);
        }
        let m = ms.remove(0);
        proof {
            assert(ms@ =~= pre.drop_first());
            assert forall|i: int| 0 <= i < ms@.len() implies (#[trigger] ms@[i]).wf_shape() by {
                assert(pre[i + 1].wf_shape());
            }
        }
        match m.status {
            Status::Unapplied => {
                if dirty_seen {
                    proof {
                        assert(has_unapplied(pre)) by {
                            assert(pre[0].status is Unapplied);
                        }
                        assert(up_blocked(ms0, n0));
                        assert(ms0 == matches@);
                        assert(n0 == count_of(count, matches@.len()));
                    }
                    return Err(Error::DirtyHistory);
                }
                let l = match m.local {
                    Some(l) => l,
                    None => vstd::pervasive::unreached(),
                };
                out.push((Step::Up, l));
                proof {
                    assert(up_steps(pre, budget as nat) == seq![(Step::Up, l)] + up_steps(
                        ms@,
                        (budget - 1) as nat,
                    ));
                    assert(out@ + up_steps(ms@, (budget - 1) as nat) =~= up_steps(ms0, n0));
                }
                budget = budget - 1;
            },
            Status::Applied => {},
            Status::Divergent | Status::Variant => {
                dirty_seen = true;
            },
        }
    }
    proof {
        assert(up_steps(ms@, budget as nat) =~= Seq::<(Step, Migration)>::empty());
        assert(out@ + up_steps(ms@, budget as nat) =~= out@);
        assert(!up_blocked(ms0, n0));
    }
    Ok(out)
}

} // verus!

verus! {

/// Whether a down pass reverts an entry with this status.
pub open spec fn down_included(st: Status, ignore_divergent: bool) -> bool {
    match st {
        Status::Applied => true,
        Status::Variant => true,
        Status::Divergent => !ignore_divergent,
        Status::Unapplied => false,
    }
}

/// The down plan over the reversed history: the first `n` revertable entries
/// in descending key order, each as a `Down` step on the database-side
/// migration, whose `down_sql` the tracking table stored at apply time.
pub open spec fn down_steps(rs: Seq<Match>, n: nat, ignore_divergent: bool) -> Seq<
    (Step, Migration),
>
    decreases rs.len(),
{
    if rs.len() == 0 || n == 0 {
        Seq::<(Step, Migration)>::empty()
    } else if down_included(rs[0].status, ignore_divergent) {
        seq![(Step::Down, rs[0].db->Some_0)] + down_steps(
            rs.drop_first(),
            (n - 1) as nat,
            ignore_divergent,
        )
    } else {
        down_steps(rs.drop_first(), n, ignore_divergent)
    }
}

/// Builds the down plan: reverts applied entries (and divergent ones unless
/// they are ignored, and variants always) from the top of the history down.
pub fn plan_down(matches: Vec<Match>, count: Option<usize>, ignore_divergent: bool) -> (r: Result<
    Vec<(Step, Migration)>,
    Error,
>)
    requires
        matches_wf(matches@),
    ensures
        r is Ok,
        r matches Ok(p) ==> p@ == down_steps(
            matches@.reverse(),
            count_of(count, matches@.len()),
            ignore_divergent,
        ),
{
    let mut ms = matches;
    let ghost ms0: Seq<Match> = ms@;
    let ghost n0: nat = count_of(count, ms@.len() as nat);
    let mut budget: usize = match count {
        Some(c) => c,
        None => ms.len(),
    };
    let mut out: Vec<(Step, Migration)> = Vec::new();
    proof {
        assert(ms@.reverse() =~= ms0.reverse());
    }
    while ms.len() > 0 && budget > 0
        invariant
            matches_wf(ms@),
            down_steps(ms0.reverse(), n0, ignore_divergent) == out@ + down_steps(
                ms@.reverse(),
                budget as nat,
                ignore_divergent,
            ),
        decreases ms@.len(),
    {
        let ghost pre: Seq<Match> = ms@;
        proof {
            assert(pre[pre.len() - 1].wf_shape());
            assert(pre.reverse()[0] == pre[pre.len() - 1]);
            assert(pre.reverse().drop_first() =~= pre.drop_last().reverse());
        }
        let m = match ms.pop() {
            Some(m) => m,
            None => vstd::pervasive::unreached(),
        };
        proof {
            assert forall|i: int| 0 <= i < ms@.len() implies (#[trigger] ms@[i]).wf_shape() by {
                assert(pre[i].wf_shape());
                assert(ms@[i] == pre[i]);
            }
        }
        let included: bool = match m.status {
            Status::Applied => true,
            Status::Variant => true,
            Status::Divergent => !ignore_divergent,
            Status::Unapplied => false,
        };
        if included {
            let d = match m.db {
                Some(d) => d,
                None => vstd::pervasive::unreached(),
            };
            out.push((Step::Down, d));
            proof {
                assert(down_steps(pre.reverse(), budget as nat, ignore_divergent) == seq![
                    (Step::Down, d),
                ] + down_steps(ms@.reverse(), (budget - 1) as nat, ignore_divergent));
                assert(out@ + down_steps(ms@.reverse(), (budget - 1) as nat, ignore_divergent)
                    =~= down_steps(ms0.reverse(), n0, ignore_divergent));
            }
            budget = budget - 1;
        } else {
            proof {
                assert(down_steps(pre.reverse(), budget as nat, ignore_divergent) == down_steps(
                    ms@.reverse(),
                    budget as nat,
                    ignore_divergent,
                ));
            }
        }
    }
    proof {
        assert(down_steps(ms@.reverse(), budget as nat, ignore_divergent) =~= Seq::<
            (Step, Migration),
        >::empty());
        assert(out@ + down_steps(ms@.reverse(), budget as nat, ignore_divergent) =~= out@);
    }
    Ok(out)
}

} // verus!

verus! {

/// The redo budget: the given number, or just the most recent entry.
pub open spec fn redo_count_of(count: Option<usize>) -> nat {
    match count {
        Some(c) => c as nat,
        None => 1,
    }
}

pub open spec fn min_nat(a: nat, b: nat) -> nat {
    if a <= b {
        a
    } else {
        b
    }
}

/// The top `k` entries of the history are all applied.
pub open spec fn redo_ok(ms: Seq<Match>, k: nat) -> bool {
    forall|i: int| ms.len() - k <= i < ms.len() ==> (#[trigger] ms[i]).status is Applied
}

/// The redo plan over the top `k` applied entries: their `Down` steps in
/// descending order, then their `Up` steps in ascending order.
pub open spec fn redo_plan(ms: Seq<Match>, k: nat) -> Seq<(Step, Migration)> {
    Seq::new(k, |i: int| (Step::Down, ms[ms.len() - 1 - i].db->Some_0)) + Seq::new(
        k,
        |i: int| (Step::Up, ms[ms.len() - k + i].local->Some_0),
    )
}

/// Builds the redo plan: reverts the most recent `count` entries (one when no
/// count is given) and re-applies them in ascending order.
///
/// Fails with `DirtyHistory` exactly when one of those entries is not
/// `Applied`: divergent, variant and unapplied entries are not redone.
pub fn plan_redo(matches: Vec<Match>, count: Option<usize>) -> (r: Result<
    Vec<(Step, Migration)>,
    Error,
>)
    requires
        matches_wf(matches@),
    ensures
        r is Ok <==> redo_ok(matches@, min_nat(redo_count_of(count), matches@.len())),
        r matches Ok(p) ==> p@ == redo_plan(
            matches@,
            min_nat(redo_count_of(count), matches@.len()),
        ),
        r is Err ==> r matches Err(Error::DirtyHistory),
{
    let n: usize = matches.len();
    let want: usize = match count {
        Some(c) => c,
        None => 1,
    };
    let k: usize = if want <= n {
        want
    } else {
        n
    };
    let ghost kg: nat = min_nat(redo_count_of(count), matches@.len() as nat);
    proof {
        assert(kg == k as nat);
    }
    let mut i: usize = 0;
    while i < k
        invariant
            0 <= i <= k <= n,
            n == matches@.len(),
            kg == k as nat,
            kg == min_nat(redo_count_of(count), matches@.len()),
            matches_wf(matches@),
            forall|j: int| n - i <= j < n ==> (#[trigger] matches@[j]).status is Applied,
        decreases k - i,
    {
        let ok = match matches[n - 1 - i].status {
            Status::Applied => true,
            _ => false,
        };
        if !ok {
            proof {
                assert(!(matches@[n - 1 - i].status is Applied));
                assert(!redo_ok(matches@, kg)) by {
                    assert(matches@.len() - kg <= n - 1 - i < matches@.len());
                }
            }
            return Err(Error::DirtyHistory);
        }
        i = i + 1;
    }
    let mut out: Vec<(Step, Migration)> = Vec::new();
    let mut d: usize = 0;
    while d < k
        invariant
            0 <= d <= k <= n,
            n == matches@.len(),
            kg == k as nat,
            kg == min_nat(redo_count_of(count), matches@.len()),
            matches_wf(matches@),
            redo_ok(matches@, k as nat),
            out@.len() == d,
            forall|j: int| 0 <= j < d ==> out@[j] == (Step::Down, (#[trigger] matches@[n - 1
                - j]).db->Some_0),
        decreases k - d,
    {
        proof {
            assert(matches@[n - 1 - d].status is Applied);
            assert(matches@[n - 1 - d].wf_shape());
        }
        let dbm = match &matches[n - 1 - d].db {
            Some(m) => m.clone(),
            None => vstd::pervasive::unreached(),
        };
        out.push((Step::Down, dbm));
        d = d + 1;
    }
    let mut u: usize = 0;
    while u < k
        invariant
            0 <= u <= k <= n,
            n == matches@.len(),
            kg == k as nat,
            kg == min_nat(redo_count_of(count), matches@.len()),
            matches_wf(matches@),
            redo_ok(matches@, k as nat),
            out@.len() == k + u,
            forall|j: int| 0 <= j < k ==> out@[j] == (Step::Down, (#[trigger] matches@[n - 1
                - j]).db->Some_0),
            forall|j: int| 0 <= j < u ==> out@[k + j] == (Step::Up, (#[trigger] matches@[n - k
                + j]).local->Some_0),
        decreases k - u,
    {
        proof {
            assert(matches@[n - k + u].status is Applied);
            assert(matches@[n - k + u].wf_shape());
        }
        let lm = match &matches[n - k + u].local {
            Some(m) => m.clone(),
            None => vstd::pervasive::unreached(),
        };
        out.push((Step::Up, lm));
        u = u + 1;
    }
    proof {
        assert(out@ =~= redo_plan(matches@, kg));
    }
    Ok(out)
}

} // verus!

verus! {

/// The `Down` phase of a fix: walking the history from the top, revert every
/// divergent or variant entry, skip unapplied ones, and stop at the first
/// applied entry.
pub open spec fn fix_downs(rs: Seq<Match>) -> Seq<(Step, Migration)>
    decreases rs.len(),
{
    if rs.len() == 0 {
        Seq::<(Step, Migration)>::empty()
    } else {
        match rs[0].status {
            Status::Applied => Seq::<(Step, Migration)>::empty(),
            Status::Divergent | Status::Variant => seq![(Step::Down, rs[0].db->Some_0)]
                + fix_downs(rs.drop_first()),
            Status::Unapplied => fix_downs(rs.drop_first()),
        }
    }
}

/// How far from the top the fix reaches: the entries above the first applied
/// one.
pub open spec fn scan_len(rs: Seq<Match>) -> nat
    decreases rs.len(),
{
    if rs.len() == 0 {
        0
    } else if rs[0].status is Applied {
        0
    } else {
        1 + scan_len(rs.drop_first())
    }
}

/// The `Up` phase of a fix: ascending over the reached region, re-apply every
/// unapplied entry and every divergent entry's local migration.
pub open spec fn fix_ups(region: Seq<Match>) -> Seq<(Step, Migration)>
    decreases region.len(),
{
    if region.len() == 0 {
        Seq::<(Step, Migration)>::empty()
    } else {
        match region[0].status {
            Status::Unapplied | Status::Divergent => seq![(Step::Up, region[0].local->Some_0)]
                + fix_ups(region.drop_first()),
            Status::Applied | Status::Variant => fix_ups(region.drop_first()),
        }
    }
}

pub proof fn lemma_scan_len_bound(rs: Seq<Match>)
    ensures
        scan_len(rs) <= rs.len(),
    decreases rs.len(),
{
    if rs.len() > 0 && !(rs[0].status is Applied) {
        lemma_scan_len_bound(rs.drop_first());
    }
}

/// The fix plan: the `Down` phase from the top, then the `Up` phase over the
/// same region, ascending.
pub open spec fn fix_plan(ms: Seq<Match>) -> Seq<(Step, Migration)> {
    fix_downs(ms.reverse()) + fix_ups(ms.skip(ms.len() - scan_len(ms.reverse())))
}

/// Builds the fix plan: reconciles divergence from the top down, then
/// replays the corrected history upward.
pub fn plan_fix(matches: Vec<Match>) -> (r: Result<Vec<(Step, Migration)>, Error>)
    requires
        matches_wf(matches@),
    ensures
        r is Ok,
        r matches Ok(p) ==> p@ == fix_plan(matches@),
{
    let n: usize = matches.len();
    let ghost rev: Seq<Match> = matches@.reverse();
    proof {
        lemma_scan_len_bound(rev);
        assert(rev.skip(0) =~= rev);
    }
    let mut out: Vec<(Step, Migration)> = Vec::new();
    let mut t: usize = 0;
    let mut stopped: bool = false;
    while t < n && !stopped
        invariant
            0 <= t <= n,
            n == matches@.len(),
            rev == matches@.reverse(),
            matches_wf(matches@),
            !stopped ==> fix_downs(rev) == out@ + fix_downs(rev.skip(t as int)),
            !stopped ==> scan_len(rev) == t + scan_len(rev.skip(t as int)),
            stopped ==> fix_downs(rev) == out@ && scan_len(rev) == t,
        decreases n - t, (if stopped { 0int } else { 1int }),
    {
        proof {
            assert(rev.skip(t as int)[0] == rev[t as int]);
            assert(rev[t as int] == matches@[n - 1 - t]);
            assert(rev.skip(t as int).drop_first() =~= rev.skip(t + 1));
            assert(matches@[n - 1 - t].wf_shape());
        }
        let stop: bool = match matches[n - 1 - t].status {
            Status::Applied => true,
            Status::Divergent | Status::Variant => {
                let d = match &matches[n - 1 - t].db {
                    Some(m) => m.clone(),
                    None => vstd::pervasive::unreached(),
                };
                out.push((Step::Down, d));
                proof {
                    assert(fix_downs(rev.skip(t as int)) == seq![(Step::Down, d)] + fix_downs(
                        rev.skip(t + 1),
                    ));
                    assert(out@ + fix_downs(rev.skip(t + 1)) =~= fix_downs(rev));
                }
                false
            },
            Status::Unapplied => false,
        };
        if stop {
            stopped = true;
        } else {
            t = t + 1;
        }
    }
    proof {
        if !stopped {
            assert(rev.skip(n as int) =~= Seq::<Match>::empty());
            assert(out@ + fix_downs(rev.skip(n as int)) =~= out@);
        }
        assert(fix_downs(rev) == out@);
        assert(scan_len(rev) == t);
    }
    let start: usize = n - t;
    let ghost region: Seq<Match> = matches@.skip(start as int);
    let mut ups: Vec<(Step, Migration)> = Vec::new();
    let mut j: usize = start;
    proof {
        assert(region.skip(0) =~= region);
    }
    while j < n
        invariant
            start <= j <= n,
            n == matches@.len(),
            start as int == matches@.len() - scan_len(matches@.reverse()),
            region == matches@.skip(start as int),
            matches_wf(matches@),
            fix_ups(region) == ups@ + fix_ups(region.skip(j - start)),
        decreases n - j,
    {
        proof {
            assert(region.skip(j - start)[0] == region[j - start]);
            assert(region[j - start] == matches@[j as int]);
            assert(region.skip(j - start).drop_first() =~= region.skip(j + 1 - start));
            assert(matches@[j as int].wf_shape());
        }
        match matches[j].status {
            Status::Unapplied | Status::Divergent => {
                let l = match &matches[j].local {
                    Some(m) => m.clone(),
                    None => vstd::pervasive::unreached(),
                };
                ups.push((Step::Up, l));
                proof {
                    assert(fix_ups(region.skip(j - start)) == seq![(Step::Up, l)] + fix_ups(
                        region.skip(j + 1 - start),
                    ));
                    assert(ups@ + fix_ups(region.skip(j + 1 - start)) =~= fix_ups(region));
                }
            },
            Status::Applied | Status::Variant => {},
        }
        j = j + 1;
    }
    proof {
        assert(region.skip(n - start) =~= Seq::<Match>::empty());
        assert(ups@ + fix_ups(region.skip(n - start)) =~= ups@);
        assert(fix_ups(region) == ups@);
    }
    let mut ups = ups;
    out.append(&mut ups);
    proof {
        assert(out@ =~= fix_plan(matches@));
    }
    Ok(out)
}

} // verus!

verus! {

/// The classified history of a local set against a database set.
pub open spec fn spec_matches(local: Seq<Migration>, db: Seq<Migration>) -> Seq<Match> {
    crate::match_maker::merge_spec(
        crate::match_maker::sort_by_key(local),
        crate::match_maker::sort_by_key(db),
    )
}

/// Collects the inputs and options of one planning run, and builds the plan
/// the requested operation calls for.
pub struct PlanBuilder {
    pub local: Vec<Migration>,
    pub db: Vec<Migration>,
    pub count: Option<usize>,
    pub ignore_divergent: bool,
}

impl PlanBuilder {
    pub fn new() -> (r: PlanBuilder)
        ensures
            r.local@ == Seq::<Migration>::empty(),
            r.db@ == Seq::<Migration>::empty(),
            r.count is None,
            !r.ignore_divergent,
    {
        PlanBuilder { local: Vec::new(), db: Vec::new(), count: None, ignore_divergent: false }
    }

    pub fn local_migrations(self, migrations: Vec<Migration>) -> (r: PlanBuilder)
        ensures
            r == (PlanBuilder { local: migrations, ..self }),
    {
        PlanBuilder { local: migrations, ..self }
    }

    pub fn db_migrations(self, migrations: Vec<Migration>) -> (r: PlanBuilder)
        ensures
            r == (PlanBuilder { db: migrations, ..self }),
    {
        PlanBuilder { db: migrations, ..self }
    }

    pub fn count(self, count: Option<usize>) -> (r: PlanBuilder)
        ensures
            r == (PlanBuilder { count, ..self }),
    {
        PlanBuilder { count, ..self }
    }

    pub fn ignore_divergent(self, ignore_divergent: bool) -> (r: PlanBuilder)
        ensures
            r == (PlanBuilder { ignore_divergent, ..self }),
    {
        PlanBuilder { ignore_divergent, ..self }
    }

    /// The entire classified history, unchanged; no plan is emitted.
    pub fn status(self) -> (r: Result<Vec<Match>, Error>)
        ensures
            r is Ok <==> (crate::match_maker::unique_keys(self.local@)
                && crate::match_maker::unique_keys(self.db@)),
            r matches Ok(ms) ==> ms@ == spec_matches(self.local@, self.db@),
            r is Err ==> r matches Err(Error::BadMigration),
    {
        crate::match_maker::matchmake(self.local, self.db)
    }

    /// The up plan; see [`plan_up`].
    pub fn up(self) -> (r: Result<Vec<(Step, Migration)>, Error>)
        ensures
            r is Ok <==> (crate::match_maker::unique_keys(self.local@)
                && crate::match_maker::unique_keys(self.db@) && !up_blocked(
                spec_matches(self.local@, self.db@),
                count_of(self.count, spec_matches(self.local@, self.db@).len()),
            )),
            r matches Ok(p) ==> p@ == up_steps(
                spec_matches(self.local@, self.db@),
                count_of(self.count, spec_matches(self.local@, self.db@).len()),
            ),
            r matches Err(e) ==> (e is BadMigration || e is DirtyHistory),
            r matches Err(e) && e is BadMigration <==> !(crate::match_maker::unique_keys(
                self.local@,
            ) && crate::match_maker::unique_keys(self.db@)),
    {
        let count = self.count;
        let ms = match crate::match_maker::matchmake(self.local, self.db) {
            Ok(ms) => ms,
            Err(e) => {
                return Err(e);
            },
        };
        plan_up(ms, count)
    }

    /// The down plan; see [`plan_down`].
    pub fn down(self) -> (r: Result<Vec<(Step, Migration)>, Error>)
        ensures
            r is Ok <==> (crate::match_maker::unique_keys(self.local@)
                && crate::match_maker::unique_keys(self.db@)),
            r matches Ok(p) ==> p@ == down_steps(
                spec_matches(self.local@, self.db@).reverse(),
                count_of(self.count, spec_matches(self.local@, self.db@).len()),
                self.ignore_divergent,
            ),
            r is Err ==> r matches Err(Error::BadMigration),
    {
        let count = self.count;
        let ignore_divergent = self.ignore_divergent;
        let ms = match crate::match_maker::matchmake(self.local, self.db) {
            Ok(ms) => ms,
            Err(e) => {
                return Err(e);
            },
        };
        plan_down(ms, count, ignore_divergent)
    }

    /// The redo plan; see [`plan_redo`].
    pub fn redo(self) -> (r: Result<Vec<(Step, Migration)>, Error>)
        ensures
            r is Ok <==> (crate::match_maker::unique_keys(self.local@)
                && crate::match_maker::unique_keys(self.db@) && redo_ok(
                spec_matches(self.local@, self.db@),
                min_nat(redo_count_of(self.count), spec_matches(self.local@, self.db@).len()),
            )),
            r matches Ok(p) ==> p@ == redo_plan(
                spec_matches(self.local@, self.db@),
                min_nat(redo_count_of(self.count), spec_matches(self.local@, self.db@).len()),
            ),
            r matches Err(e) ==> (e is BadMigration || e is DirtyHistory),
            r matches Err(e) && e is BadMigration <==> !(crate::match_maker::unique_keys(
                self.local@,
            ) && crate::match_maker::unique_keys(self.db@)),
    {
        let count = self.count;
        let ms = match crate::match_maker::matchmake(self.local, self.db) {
            Ok(ms) => ms,
            Err(e) => {
                return Err(e);
            },
        };
        plan_redo(ms, count)
    }

    /// The fix plan; see [`plan_fix`].
    pub fn fix(self) -> (r: Result<Vec<(Step, Migration)>, Error>)
        ensures
            r is Ok <==> (crate::match_maker::unique_keys(self.local@)
                && crate::match_maker::unique_keys(self.db@)),
            r matches Ok(p) ==> p@ == fix_plan(spec_matches(self.local@, self.db@)),
            r is Err ==> r matches Err(Error::BadMigration),
    {
        let ms = match crate::match_maker::matchmake(self.local, self.db) {
            Ok(ms) => ms,
            Err(e) => {
                return Err(e);
            },
        };
        plan_fix(ms)
    }
}

} // verus!

verus! {

/// Over an all-unapplied history the up plan runs everything, in order, and
/// nothing blocks it.
pub proof fn lemma_up_all_unapplied(ms: Seq<Match>, n: nat)
    requires
        forall|i: int| 0 <= i < ms.len() ==> (#[trigger] ms[i]).status is Unapplied,
        n >= ms.len(),
    ensures
        !up_blocked(ms, n),
        up_steps(ms, n) == Seq::new(ms.len(), |i: int| (Step::Up, ms[i].local->Some_0)),
    decreases ms.len(),
{
    if ms.len() == 0 {
        assert(up_steps(ms, n) =~= Seq::new(ms.len(), |i: int| (Step::Up, ms[i].local->Some_0)));
    } else {
        let t = ms.drop_first();
        assert forall|i: int| 0 <= i < t.len() implies (#[trigger] t[i]).status is Unapplied by {
            assert(ms[i + 1].status is Unapplied);
        }
        lemma_up_all_unapplied(t, (n - 1) as nat);
        assert(up_steps(ms, n) =~= Seq::new(ms.len(), |i: int| (Step::Up, ms[i].local->Some_0)));
    }
}

/// For any local set against an empty database, the up plan is exactly the
/// local set in ascending key order, as `Up` steps.
pub proof fn lemma_up_on_empty_db(locals: Seq<Migration>)
    ensures
        !up_blocked(
            spec_matches(locals, Seq::<Migration>::empty()),
            spec_matches(locals, Seq::<Migration>::empty()).len(),
        ),
        up_steps(
            spec_matches(locals, Seq::<Migration>::empty()),
            spec_matches(locals, Seq::<Migration>::empty()).len(),
        ) == Seq::new(
            locals.len(),
            |i: int| (Step::Up, crate::match_maker::sort_by_key(locals)[i]),
        ),
{
    let sl = crate::match_maker::sort_by_key(locals);
    crate::match_maker::lemma_sort_props(locals);
    assert(crate::match_maker::sort_by_key(Seq::<Migration>::empty()) =~= Seq::<
        Migration,
    >::empty());
    crate::match_maker::lemma_merge_empty_db(sl);
    let ms = spec_matches(locals, Seq::<Migration>::empty());
    assert forall|i: int| 0 <= i < ms.len() implies (#[trigger] ms[i]).status is Unapplied by {
        assert(ms[i] == crate::match_maker::match_of_local(sl[i]));
    }
    lemma_up_all_unapplied(ms, ms.len());
    assert(up_steps(ms, ms.len()) =~= Seq::new(locals.len(), |i: int| (Step::Up, sl[i])));
}

/// Over a history with nothing left to apply the up plan is empty and never
/// blocked, whatever else the history holds: re-running `up` after every
/// local migration has a matching row does nothing.
pub proof fn lemma_up_no_unapplied(ms: Seq<Match>, n: nat)
    requires
        !has_unapplied(ms),
    ensures
        !up_blocked(ms, n),
        up_steps(ms, n) == Seq::<(Step, Migration)>::empty(),
    decreases ms.len(),
{
    if ms.len() > 0 && n > 0 {
        let t = ms.drop_first();
        assert(!(ms[0].status is Unapplied));
        assert(!has_unapplied(t)) by {
            if has_unapplied(t) {
                let i = choose|i: int| 0 <= i < t.len() && (#[trigger] t[i]).status is Unapplied;
                assert(ms[i + 1].status is Unapplied);
            }
        }
        lemma_up_no_unapplied(t, n);
        lemma_up_no_unapplied(t, (n - 1) as nat);
    }
}

/// The all-applied special case of [`lemma_up_no_unapplied`].
pub proof fn lemma_up_all_applied(ms: Seq<Match>, n: nat)
    requires
        forall|i: int| 0 <= i < ms.len() ==> (#[trigger] ms[i]).status is Applied,
    ensures
        !up_blocked(ms, n),
        up_steps(ms, n) == Seq::<(Step, Migration)>::empty(),
{
    assert(!has_unapplied(ms));
    lemma_up_no_unapplied(ms, n);
}

/// Where the first `k` entries of the reversed history are all revertable,
/// the down plan with budget `k` is exactly those entries as `Down` steps.
pub proof fn lemma_down_prefix_included(rs: Seq<Match>, k: nat, ignore_divergent: bool)
    requires
        k <= rs.len(),
        forall|i: int| 0 <= i < k ==> down_included((#[trigger] rs[i]).status, ignore_divergent),
    ensures
        down_steps(rs, k, ignore_divergent) == Seq::new(
            k,
            |i: int| (Step::Down, rs[i].db->Some_0),
        ),
    decreases k,
{
    if k == 0 {
        assert(down_steps(rs, k, ignore_divergent) =~= Seq::new(
            k,
            |i: int| (Step::Down, rs[i].db->Some_0),
        ));
    } else {
        let t = rs.drop_first();
        assert forall|i: int| 0 <= i < k - 1 implies down_included(
            (#[trigger] t[i]).status,
            ignore_divergent,
        ) by {
            assert(down_included(rs[i + 1].status, ignore_divergent));
        }
        lemma_down_prefix_included(t, (k - 1) as nat, ignore_divergent);
        assert(down_included(rs[0].status, ignore_divergent));
        assert(down_steps(rs, k, ignore_divergent) =~= Seq::new(
            k,
            |i: int| (Step::Down, rs[i].db->Some_0),
        ));
    }
}

/// The applied entries of a history, in order.
pub open spec fn applied_entries(rs: Seq<Match>) -> Seq<Match>
    decreases rs.len(),
{
    if rs.len() == 0 {
        Seq::<Match>::empty()
    } else if rs[0].status is Applied {
        seq![rs[0]] + applied_entries(rs.drop_first())
    } else {
        applied_entries(rs.drop_first())
    }
}

/// Over a reversed history whose entries are all applied or unapplied (the
/// database matches the local tree wherever it has a row), the down plan is
/// exactly the most recent `n` applied entries, top first: the reverse of
/// the applied prefix, with unapplied local extras passed over.
pub proof fn lemma_down_applied_prefix(rs: Seq<Match>, n: nat, ignore_divergent: bool)
    requires
        forall|i: int| 0 <= i < rs.len() ==> ((#[trigger] rs[i]).status is Applied || rs[i].status
            is Unapplied),
    ensures
        down_steps(rs, n, ignore_divergent) == Seq::new(
            min_nat(n, applied_entries(rs).len()),
            |i: int| (Step::Down, applied_entries(rs)[i].db->Some_0),
        ),
    decreases rs.len(),
{
    let ae = applied_entries(rs);
    let goal = Seq::new(min_nat(n, ae.len()), |i: int| (Step::Down, ae[i].db->Some_0));
    if rs.len() == 0 || n == 0 {
        assert(down_steps(rs, n, ignore_divergent) =~= goal);
    } else {
        let t = rs.drop_first();
        assert forall|i: int| 0 <= i < t.len() implies ((#[trigger] t[i]).status is Applied
            || t[i].status is Unapplied) by {
            assert(rs[i + 1].status is Applied || rs[i + 1].status is Unapplied);
        }
        if rs[0].status is Applied {
            lemma_down_applied_prefix(t, (n - 1) as nat, ignore_divergent);
            assert(down_included(rs[0].status, ignore_divergent));
            assert(ae == seq![rs[0]] + applied_entries(t));
            assert(down_steps(rs, n, ignore_divergent) =~= goal);
        } else {
            assert(!down_included(rs[0].status, ignore_divergent));
            lemma_down_applied_prefix(t, n, ignore_divergent);
            assert(ae == applied_entries(t));
            assert(down_steps(rs, n, ignore_divergent) =~= goal);
        }
    }
}

/// The fully applied special case: the down plan is the reverse of the most
/// recent `n` entries.
pub proof fn lemma_down_all_applied(ms: Seq<Match>, n: nat, ignore_divergent: bool)
    requires
        forall|i: int| 0 <= i < ms.len() ==> (#[trigger] ms[i]).status is Applied,
    ensures
        down_steps(ms.reverse(), n, ignore_divergent) == Seq::new(
            min_nat(n, ms.len()),
            |i: int| (Step::Down, ms[ms.len() - 1 - i].db->Some_0),
        ),
{
    let rs = ms.reverse();
    let k = min_nat(n, ms.len());
    assert forall|i: int| 0 <= i < k implies down_included(
        (#[trigger] rs[i]).status,
        ignore_divergent,
    ) by {
        assert(rs[i] == ms[ms.len() - 1 - i]);
        assert(ms[ms.len() - 1 - i].status is Applied);
    }
    if n <= ms.len() {
        lemma_down_prefix_included(rs, k, ignore_divergent);
    } else {
        assert forall|i: int| 0 <= i < rs.len() implies down_included(
            (#[trigger] rs[i]).status,
            ignore_divergent,
        ) by {
            assert(rs[i] == ms[ms.len() - 1 - i]);
        }
        lemma_down_all_budget(rs, n, ignore_divergent);
    }
    assert(down_steps(rs, n, ignore_divergent) =~= Seq::new(
        k,
        |i: int| (Step::Down, ms[ms.len() - 1 - i].db->Some_0),
    ));
}

/// With every entry revertable and budget to spare, the down plan takes the
/// whole reversed history.
proof fn lemma_down_all_budget(rs: Seq<Match>, n: nat, ignore_divergent: bool)
    requires
        n >= rs.len(),
        forall|i: int| 0 <= i < rs.len() ==> down_included(
            (#[trigger] rs[i]).status,
            ignore_divergent,
        ),
    ensures
        down_steps(rs, n, ignore_divergent) == Seq::new(
            rs.len(),
            |i: int| (Step::Down, rs[i].db->Some_0),
        ),
    decreases rs.len(),
{
    if rs.len() == 0 {
        assert(down_steps(rs, n, ignore_divergent) =~= Seq::new(
            rs.len(),
            |i: int| (Step::Down, rs[i].db->Some_0),
        ));
    } else {
        let t = rs.drop_first();
        assert forall|i: int| 0 <= i < t.len() implies down_included(
            (#[trigger] t[i]).status,
            ignore_divergent,
        ) by {
            assert(down_included(rs[i + 1].status, ignore_divergent));
        }
        lemma_down_all_budget(t, (n - 1) as nat, ignore_divergent);
        assert(down_steps(rs, n, ignore_divergent) =~= Seq::new(
            rs.len(),
            |i: int| (Step::Down, rs[i].db->Some_0),
        ));
    }
}

/// The top `k` entries of a history, viewed as a history of their own in
/// which nothing has been applied yet.
pub open spec fn as_unapplied(region: Seq<Match>) -> Seq<Match> {
    Seq::new(
        region.len(),
        |i: int| Match { status: Status::Unapplied, local: region[i].local, db: None },
    )
}

/// A redo plan is the down plan over the top `k` entries followed by the up
/// plan over the same entries as if they were unapplied.
pub proof fn lemma_redo_is_down_then_up(ms: Seq<Match>, k: nat)
    requires
        k <= ms.len(),
        redo_ok(ms, k),
        matches_wf(ms),
    ensures
        redo_plan(ms, k) == down_steps(ms.reverse(), k, false) + up_steps(
            as_unapplied(ms.skip(ms.len() - k)),
            k,
        ),
{
    let rs = ms.reverse();
    assert forall|i: int| 0 <= i < k implies down_included((#[trigger] rs[i]).status, false) by {
        assert(rs[i] == ms[ms.len() - 1 - i]);
        assert(ms[ms.len() - 1 - i].status is Applied);
    }
    lemma_down_prefix_included(rs, k, false);
    let region = ms.skip(ms.len() - k);
    let ua = as_unapplied(region);
    assert forall|i: int| 0 <= i < ua.len() implies (#[trigger] ua[i]).status is Unapplied by {}
    lemma_up_all_unapplied(ua, k);
    assert(Seq::new(k, |i: int| (Step::Down, ms[ms.len() - 1 - i].db->Some_0)) =~= Seq::new(
        k,
        |i: int| (Step::Down, rs[i].db->Some_0),
    ));
    assert(Seq::new(k, |i: int| (Step::Up, ms[ms.len() - k + i].local->Some_0)) =~= Seq::new(
        ua.len(),
        |i: int| (Step::Up, ua[i].local->Some_0),
    ));
}

} // verus!

verus! {

/// The tracking row `run_up` records for a migration: the key, the up-hash,
/// and the down script with its hash; the up script itself is not stored.
pub open spec fn db_record(m: Migration) -> Migration {
    Migration {
        name: m.name,
        stamp: m.stamp,
        up_sql: None,
        down_sql: m.down_sql,
        up_hash: m.up_hash,
        down_hash: m.down_hash,
    }
}

pub open spec fn recs(a: Seq<Migration>) -> Seq<Migration> {
    Seq::new(a.len(), |i: int| db_record(a[i]))
}

/// Removes every row whose key matches `m`'s.
pub open spec fn remove_key(db: Seq<Migration>, m: Migration) -> Seq<Migration>
    decreases db.len(),
{
    if db.len() == 0 {
        Seq::<Migration>::empty()
    } else if db[0].key_eq(m) {
        remove_key(db.drop_first(), m)
    } else {
        seq![db[0]] + remove_key(db.drop_first(), m)
    }
}

/// The database state after a plan runs to completion: each `Up` step
/// inserts its tracking row, each `Down` step deletes its row.
pub open spec fn apply_plan(db: Seq<Migration>, plan: Seq<(Step, Migration)>) -> Seq<Migration>
    decreases plan.len(),
{
    if plan.len() == 0 {
        db
    } else if plan[0].0 is Up {
        apply_plan(db.push(db_record(plan[0].1)), plan.drop_first())
    } else {
        apply_plan(remove_key(db, plan[0].1), plan.drop_first())
    }
}

proof fn lemma_apply_ups(db: Seq<Migration>, a: Seq<Migration>)
    ensures
        apply_plan(db, Seq::new(a.len(), |i: int| (Step::Up, a[i]))) == db + recs(a),
    decreases a.len(),
{
    let plan = Seq::new(a.len(), |i: int| (Step::Up, a[i]));
    if a.len() == 0 {
        assert(apply_plan(db, plan) =~= db + recs(a));
    } else {
        let t = a.drop_first();
        lemma_apply_ups(db.push(db_record(a[0])), t);
        assert(plan.drop_first() =~= Seq::new(t.len(), |i: int| (Step::Up, t[i])));
        assert(db.push(db_record(a[0])) + recs(t) =~= db + recs(a));
    }
}

/// Sorting a strictly sorted sequence changes nothing.
proof fn lemma_sort_of_sorted(s: Seq<Migration>)
    requires
        crate::match_maker::sorted_lt(s),
    ensures
        crate::match_maker::sort_by_key(s) == s,
    decreases s.len(),
{
    if s.len() > 0 {
        let t = s.drop_first();
        assert forall|i: int, j: int| 0 <= i < j < t.len() implies t[i].key_lt(t[j]) by {
            assert(s[i + 1].key_lt(s[j + 1]));
        }
        lemma_sort_of_sorted(t);
        if t.len() > 0 {
            assert(s[0].key_lt(t[0])) by {
                assert(t[0] == s[1]);
            }
            assert(crate::match_maker::spec_insert(s[0], t) == seq![s[0]] + t);
        }
        assert(crate::match_maker::spec_insert(s[0], t) =~= s);
    }
}

/// Matching a sorted set against exactly its own tracking rows classifies
/// every entry `Applied`.
proof fn lemma_merge_with_records(a: Seq<Migration>)
    requires
        crate::match_maker::sorted_lt(a),
    ensures
        crate::match_maker::merge_spec(a, recs(a)) == Seq::new(
            a.len(),
            |i: int| crate::match_maker::match_of_pair(a[i], db_record(a[i])),
        ),
    decreases a.len(),
{
    let b = recs(a);
    if a.len() > 0 {
        crate::migration::lemma_key_trichotomy(a[0], b[0]);
        assert(a[0].key_eq(b[0]));
        assert(!a[0].key_lt(b[0]) && !b[0].key_lt(a[0]));
        let t = a.drop_first();
        assert forall|i: int, j: int| 0 <= i < j < t.len() implies t[i].key_lt(t[j]) by {
            assert(a[i + 1].key_lt(a[j + 1]));
        }
        lemma_merge_with_records(t);
        assert(b.drop_first() =~= recs(t));
        assert(crate::match_maker::merge_spec(a, b) =~= Seq::new(
            a.len(),
            |i: int| crate::match_maker::match_of_pair(a[i], db_record(a[i])),
        ));
    } else {
        assert(crate::match_maker::merge_spec(a, b) =~= Seq::new(
            a.len(),
            |i: int| crate::match_maker::match_of_pair(a[i], db_record(a[i])),
        ));
    }
}

/// Removing the key of the last row, when no other row shares it, drops
/// exactly that row.
proof fn lemma_remove_last(d: Seq<Migration>)
    requires
        d.len() > 0,
        crate::match_maker::unique_keys(d),
    ensures
        remove_key(d, d.last()) == d.drop_last(),
    decreases d.len(),
{
    if d.len() == 1 {
        assert(d[0].key_eq(d.last()));
        assert(d.drop_first().len() == 0);
        assert(remove_key(d.drop_first(), d.last()) =~= Seq::<Migration>::empty());
        assert(remove_key(d, d.last()) =~= d.drop_last());
    } else {
        let t = d.drop_first();
        assert(!d[0].key_eq(d[d.len() - 1]));
        assert(d.last() == t.last());
        assert forall|i: int, j: int| 0 <= i < j < t.len() implies !t[i].key_eq(t[j]) by {
            assert(!d[i + 1].key_eq(d[j + 1]));
        }
        lemma_remove_last(t);
        assert(seq![d[0]] + t.drop_last() =~= d.drop_last());
    }
}

proof fn lemma_apply_downs(d: Seq<Migration>)
    requires
        crate::match_maker::unique_keys(d),
    ensures
        apply_plan(d, Seq::new(d.len(), |i: int| (Step::Down, d[d.len() - 1 - i])))
            == Seq::<Migration>::empty(),
    decreases d.len(),
{
    let plan = Seq::new(d.len(), |i: int| (Step::Down, d[d.len() - 1 - i]));
    if d.len() == 0 {
        assert(apply_plan(d, plan) =~= Seq::<Migration>::empty());
    } else {
        assert(plan[0].1 == d.last());
        lemma_remove_last(d);
        let t = d.drop_last();
        assert forall|i: int, j: int| 0 <= i < j < t.len() implies !t[i].key_eq(t[j]) by {
            assert(!d[i].key_eq(d[j]));
        }
        lemma_apply_downs(t);
        assert(plan.drop_first() =~= Seq::new(t.len(), |i: int| (Step::Down, t[t.len() - 1 - i])));
    }
}

/// Round trip: against an empty database the up plan applies the whole local
/// set; running the down plan over the history that results empties the
/// database again.
pub proof fn lemma_round_trip(locals: Seq<Migration>)
    requires
        crate::match_maker::unique_keys(locals),
    ensures
        ({
            let sa = crate::match_maker::sort_by_key(locals);
            let fresh = spec_matches(locals, Seq::<Migration>::empty());
            let d1 = apply_plan(Seq::<Migration>::empty(), up_steps(fresh, fresh.len()));
            let redone = spec_matches(locals, d1);
            d1 == recs(sa) && apply_plan(d1, down_steps(redone.reverse(), redone.len(), false))
                == Seq::<Migration>::empty()
        }),
{
    let sa = crate::match_maker::sort_by_key(locals);
    let fresh = spec_matches(locals, Seq::<Migration>::empty());
    crate::match_maker::lemma_sort_props(locals);
    crate::match_maker::lemma_sorted_unique_strict(sa);
    lemma_up_on_empty_db(locals);
    let up = up_steps(fresh, fresh.len());
    assert(crate::match_maker::sort_by_key(Seq::<Migration>::empty()) =~= Seq::<
        Migration,
    >::empty());
    crate::match_maker::lemma_merge_empty_db(sa);
    assert(fresh.len() == locals.len());
    assert(up == Seq::new(sa.len(), |i: int| (Step::Up, sa[i])));
    lemma_apply_ups(Seq::<Migration>::empty(), sa);
    let d1 = apply_plan(Seq::<Migration>::empty(), up);
    assert(d1 =~= recs(sa));
    // the new history pairs each local with exactly its own tracking row
    assert forall|i: int, j: int| 0 <= i < j < d1.len() implies d1[i].key_lt(d1[j]) by {
        assert(d1[i] == db_record(sa[i]));
        assert(d1[j] == db_record(sa[j]));
        assert(sa[i].key_lt(sa[j]));
    }
    lemma_sort_of_sorted(d1);
    lemma_merge_with_records(sa);
    assert(recs(sa) =~= d1);
    let redone = spec_matches(locals, d1);
    assert(redone == crate::match_maker::merge_spec(sa, d1));
    assert forall|i: int| 0 <= i < redone.len() implies (#[trigger] redone[i]).status
        is Applied by {
        assert(redone[i] == crate::match_maker::match_of_pair(sa[i], db_record(sa[i])));
    }
    lemma_down_all_applied(redone, redone.len(), false);
    let downs = down_steps(redone.reverse(), redone.len(), false);
    assert(downs == Seq::new(
        min_nat(redone.len(), redone.len()),
        |i: int| (Step::Down, redone[redone.len() - 1 - i].db->Some_0),
    ));
    assert forall|i: int, j: int| 0 <= i < j < d1.len() implies !d1[i].key_eq(d1[j]) by {
        crate::migration::lemma_key_trichotomy(d1[i], d1[j]);
        assert(d1[i].key_lt(d1[j]));
    }
    lemma_apply_downs(d1);
    assert(downs =~= Seq::new(d1.len(), |i: int| (Step::Down, d1[d1.len() - 1 - i]))) by {
        assert forall|i: int| 0 <= i < d1.len() implies downs[i] == (
        Step::Down,
        d1[d1.len() - 1 - i],
        ) by {
            assert(redone[redone.len() - 1 - i] == crate::match_maker::match_of_pair(
                sa[sa.len() - 1 - i],
                db_record(sa[sa.len() - 1 - i]),
            ));
        }
    }
}

} // verus!

verus! {

/// Every divergent or variant entry the scan reaches gets a `Down` step on
/// its stored row, and every `Down` step of the phase is such an entry's
/// row: nothing below the first applied entry is touched.
pub proof fn lemma_fix_downs_cover(rs: Seq<Match>)
    ensures
        forall|j: int|
            0 <= j < scan_len(rs) && ((#[trigger] rs[j]).status is Divergent || rs[j].status
                is Variant) ==> fix_downs(rs).contains((Step::Down, rs[j].db->Some_0)),
        forall|k: int|
            0 <= k < fix_downs(rs).len() ==> ((#[trigger] fix_downs(rs)[k]).0 is Down && (exists|
                j: int,
            |
                0 <= j < scan_len(rs) && (rs[j].status is Divergent || rs[j].status is Variant)
                    && fix_downs(rs)[k].1 == rs[j].db->Some_0)),
    decreases rs.len(),
{
    lemma_scan_len_bound(rs);
    if rs.len() == 0 || rs[0].status is Applied {
        // the scan reaches nothing and the phase is empty
    } else {
        let t = rs.drop_first();
        lemma_fix_downs_cover(t);
        lemma_scan_len_bound(t);
        let d = fix_downs(rs);
        let dt = fix_downs(t);
        assert forall|j: int|
            0 <= j < scan_len(rs) && ((#[trigger] rs[j]).status is Divergent || rs[j].status
                is Variant) implies d.contains((Step::Down, rs[j].db->Some_0)) by {
            if j == 0 {
                assert(d[0] == (Step::Down, rs[0].db->Some_0));
            } else {
                assert(t[j - 1] == rs[j]);
                assert(dt.contains((Step::Down, rs[j].db->Some_0)));
                let k = choose|k: int|
                    0 <= k < dt.len() && dt[k] == (Step::Down, rs[j].db->Some_0);
                if rs[0].status is Unapplied {
                    assert(d[k] == (Step::Down, rs[j].db->Some_0));
                } else {
                    assert(d[k + 1] == (Step::Down, rs[j].db->Some_0));
                }
            }
        }
        assert forall|k: int| 0 <= k < d.len() implies ((#[trigger] d[k]).0 is Down && (exists|
            j: int,
        |
            0 <= j < scan_len(rs) && (rs[j].status is Divergent || rs[j].status is Variant)
                && d[k].1 == rs[j].db->Some_0)) by {
            if rs[0].status is Unapplied {
                assert(d[k] == dt[k]);
                let j = choose|j: int|
                    0 <= j < scan_len(t) && (t[j].status is Divergent || t[j].status is Variant)
                        && dt[k].1 == t[j].db->Some_0;
                assert(rs[j + 1] == t[j]);
                assert(0 <= j + 1 < scan_len(rs) && (rs[j + 1].status is Divergent || rs[j
                    + 1].status is Variant) && d[k].1 == rs[j + 1].db->Some_0);
            } else {
                if k == 0 {
                    assert(0 <= 0 < scan_len(rs) && (rs[0].status is Divergent || rs[0].status
                        is Variant) && d[0].1 == rs[0].db->Some_0);
                } else {
                    assert(d[k] == dt[k - 1]);
                    let j = choose|j: int|
                        0 <= j < scan_len(t) && (t[j].status is Divergent || t[j].status
                            is Variant) && dt[k - 1].1 == t[j].db->Some_0;
                    assert(rs[j + 1] == t[j]);
                    assert(0 <= j + 1 < scan_len(rs) && (rs[j + 1].status is Divergent || rs[j
                        + 1].status is Variant) && d[k].1 == rs[j + 1].db->Some_0);
                }
            }
        }
    }
}

/// Every unapplied and every divergent entry of the region gets an `Up` step
/// on its local migration, and every `Up` step of the phase is such an
/// entry's local migration.
pub proof fn lemma_fix_ups_cover(region: Seq<Match>)
    ensures
        forall|j: int|
            0 <= j < region.len() && ((#[trigger] region[j]).status is Unapplied
                || region[j].status is Divergent) ==> fix_ups(region).contains(
                (Step::Up, region[j].local->Some_0),
            ),
        forall|k: int|
            0 <= k < fix_ups(region).len() ==> ((#[trigger] fix_ups(region)[k]).0 is Up && (
            exists|j: int|
                0 <= j < region.len() && (region[j].status is Unapplied || region[j].status
                    is Divergent) && fix_ups(region)[k].1 == region[j].local->Some_0)),
    decreases region.len(),
{
    if region.len() == 0 {
    } else {
        let t = region.drop_first();
        lemma_fix_ups_cover(t);
        let u = fix_ups(region);
        let ut = fix_ups(t);
        let head_up = region[0].status is Unapplied || region[0].status is Divergent;
        assert forall|j: int|
            0 <= j < region.len() && ((#[trigger] region[j]).status is Unapplied
                || region[j].status is Divergent) implies u.contains(
            (Step::Up, region[j].local->Some_0),
        ) by {
            if j == 0 {
                assert(u[0] == (Step::Up, region[0].local->Some_0));
            } else {
                assert(t[j - 1] == region[j]);
                assert(ut.contains((Step::Up, region[j].local->Some_0)));
                let k = choose|k: int|
                    0 <= k < ut.len() && ut[k] == (Step::Up, region[j].local->Some_0);
                if head_up {
                    assert(u[k + 1] == (Step::Up, region[j].local->Some_0));
                } else {
                    assert(u[k] == (Step::Up, region[j].local->Some_0));
                }
            }
        }
        assert forall|k: int| 0 <= k < u.len() implies ((#[trigger] u[k]).0 is Up && (exists|
            j: int,
        |
            0 <= j < region.len() && (region[j].status is Unapplied || region[j].status
                is Divergent) && u[k].1 == region[j].local->Some_0)) by {
            if head_up && k == 0 {
                assert(0 <= 0 < region.len() && (region[0].status is Unapplied
                    || region[0].status is Divergent) && u[0].1 == region[0].local->Some_0);
            } else {
                let kt = if head_up {
                    k - 1
                } else {
                    k
                };
                assert(u[k] == ut[kt]);
                let j = choose|j: int|
                    0 <= j < t.len() && (t[j].status is Unapplied || t[j].status is Divergent)
                        && ut[kt].1 == t[j].local->Some_0;
                assert(region[j + 1] == t[j]);
                assert(0 <= j + 1 < region.len() && (region[j + 1].status is Unapplied
                    || region[j + 1].status is Divergent) && u[k].1 == region[j + 1].local->Some_0);
            }
        }
    }
}

/// What a completed fix leaves behind, read off the plan: within the region
/// the scan reaches (everything above the first applied entry), every
/// divergent and every variant entry has its stored row reverted, every
/// unapplied and every divergent entry has its local migration applied, and
/// no step of the plan touches anything else. So no divergent or variant
/// entry remains there, and every unapplied entry up to the fixed point is
/// applied.
pub proof fn lemma_fix_reconciles(ms: Seq<Match>)
    ensures
        ({
            let rs = ms.reverse();
            let region = ms.skip(ms.len() - scan_len(rs));
            &&& (forall|j: int|
                0 <= j < scan_len(rs) && ((#[trigger] rs[j]).status is Divergent || rs[j].status
                    is Variant) ==> fix_plan(ms).contains((Step::Down, rs[j].db->Some_0)))
            &&& (forall|j: int|
                0 <= j < region.len() && ((#[trigger] region[j]).status is Unapplied
                    || region[j].status is Divergent) ==> fix_plan(ms).contains(
                    (Step::Up, region[j].local->Some_0),
                ))
            &&& (forall|k: int|
                0 <= k < fix_plan(ms).len() ==> ((#[trigger] fix_plan(ms)[k]).0 is Down ==> (
                exists|j: int|
                    0 <= j < scan_len(rs) && (rs[j].status is Divergent || rs[j].status
                        is Variant) && fix_plan(ms)[k].1 == rs[j].db->Some_0)))
            &&& (forall|k: int|
                0 <= k < fix_plan(ms).len() ==> ((#[trigger] fix_plan(ms)[k]).0 is Up ==> (exists|
                    j: int,
                |
                    0 <= j < region.len() && (region[j].status is Unapplied || region[j].status
                        is Divergent) && fix_plan(ms)[k].1 == region[j].local->Some_0)))
        }),
{
    let rs = ms.reverse();
    let region = ms.skip(ms.len() - scan_len(rs));
    let d = fix_downs(rs);
    let u = fix_ups(region);
    let p = fix_plan(ms);
    lemma_scan_len_bound(rs);
    lemma_fix_downs_cover(rs);
    lemma_fix_ups_cover(region);
    assert(p == d + u);
    assert forall|j: int|
        0 <= j < scan_len(rs) && ((#[trigger] rs[j]).status is Divergent || rs[j].status
            is Variant) implies p.contains((Step::Down, rs[j].db->Some_0)) by {
        let k = choose|k: int| 0 <= k < d.len() && d[k] == (Step::Down, rs[j].db->Some_0);
        assert(p[k] == (Step::Down, rs[j].db->Some_0));
    }
    assert forall|j: int|
        0 <= j < region.len() && ((#[trigger] region[j]).status is Unapplied || region[j].status
            is Divergent) implies p.contains((Step::Up, region[j].local->Some_0)) by {
        let k = choose|k: int| 0 <= k < u.len() && u[k] == (Step::Up, region[j].local->Some_0);
        assert(p[d.len() + k] == (Step::Up, region[j].local->Some_0));
    }
    assert forall|k: int| 0 <= k < p.len() implies (((#[trigger] p[k]).0 is Down ==> (exists|
        j: int,
    |
        0 <= j < scan_len(rs) && (rs[j].status is Divergent || rs[j].status is Variant) && p[k].1
            == rs[j].db->Some_0)) && (p[k].0 is Up ==> (exists|j: int|
        0 <= j < region.len() && (region[j].status is Unapplied || region[j].status is Divergent)
            && p[k].1 == region[j].local->Some_0))) by {
        if k < d.len() {
            assert(p[k] == d[k]);
            assert(d[k].0 is Down);
        } else {
            assert(p[k] == u[k - d.len()]);
            assert(u[k - d.len()].0 is Up);
        }
    }
}

} // verus!

verus! {

/// The migrations a plan carries, in order.
pub open spec fn migs_of(plan: Seq<(Step, Migration)>) -> Seq<Migration> {
    Seq::new(plan.len(), |i: int| plan[i].1)
}

/// A plan of `Up` steps only appends its tracking rows.
proof fn lemma_apply_all_ups(db: Seq<Migration>, plan: Seq<(Step, Migration)>)
    requires
        forall|k: int| 0 <= k < plan.len() ==> (#[trigger] plan[k]).0 is Up,
    ensures
        apply_plan(db, plan) == db + recs(migs_of(plan)),
    decreases plan.len(),
{
    if plan.len() == 0 {
        assert(apply_plan(db, plan) =~= db + recs(migs_of(plan)));
    } else {
        let t = plan.drop_first();
        assert forall|k: int| 0 <= k < t.len() implies (#[trigger] t[k]).0 is Up by {
            assert(plan[k + 1].0 is Up);
        }
        lemma_apply_all_ups(db.push(db_record(plan[0].1)), t);
        assert(db.push(db_record(plan[0].1)) + recs(migs_of(t)) =~= db + recs(migs_of(plan)));
    }
}

/// Every step of an up plan is an `Up` step, and each carries the local
/// migration of some unapplied entry.
proof fn lemma_up_steps_from(ms: Seq<Match>, n: nat)
    ensures
        forall|k: int|
            0 <= k < up_steps(ms, n).len() ==> ((#[trigger] up_steps(ms, n)[k]).0 is Up && (
            exists|j: int|
                0 <= j < ms.len() && (#[trigger] ms[j]).status is Unapplied && up_steps(ms, n)[k].1
                    == ms[j].local->Some_0)),
    decreases ms.len(),
{
    if ms.len() == 0 || n == 0 {
    } else {
        let t = ms.drop_first();
        let u = up_steps(ms, n);
        if ms[0].status is Unapplied {
            lemma_up_steps_from(t, (n - 1) as nat);
            let ut = up_steps(t, (n - 1) as nat);
            assert forall|k: int| 0 <= k < u.len() implies ((#[trigger] u[k]).0 is Up && (exists|
                j: int,
            |
                0 <= j < ms.len() && (#[trigger] ms[j]).status is Unapplied && u[k].1
                    == ms[j].local->Some_0)) by {
                if k == 0 {
                    assert(ms[0].status is Unapplied && u[0].1 == ms[0].local->Some_0);
                } else {
                    assert(u[k] == ut[k - 1]);
                    let j = choose|j: int|
                        0 <= j < t.len() && (#[trigger] t[j]).status is Unapplied && ut[k - 1].1
                            == t[j].local->Some_0;
                    assert(ms[j + 1] == t[j]);
                    assert(ms[j + 1].status is Unapplied && u[k].1 == ms[j + 1].local->Some_0);
                }
            }
        } else {
            lemma_up_steps_from(t, n);
            let ut = up_steps(t, n);
            assert forall|k: int| 0 <= k < u.len() implies ((#[trigger] u[k]).0 is Up && (exists|
                j: int,
            |
                0 <= j < ms.len() && (#[trigger] ms[j]).status is Unapplied && u[k].1
                    == ms[j].local->Some_0)) by {
                assert(u[k] == ut[k]);
                let j = choose|j: int|
                    0 <= j < t.len() && (#[trigger] t[j]).status is Unapplied && ut[k].1
                        == t[j].local->Some_0;
                assert(ms[j + 1] == t[j]);
                assert(ms[j + 1].status is Unapplied && u[k].1 == ms[j + 1].local->Some_0);
            }
        }
    }
}

/// With budget for the whole history, the up plan carries every unapplied
/// entry's local migration.
proof fn lemma_up_steps_cover(ms: Seq<Match>, n: nat)
    requires
        n >= ms.len(),
    ensures
        forall|j: int|
            0 <= j < ms.len() && (#[trigger] ms[j]).status is Unapplied ==> migs_of(
                up_steps(ms, n),
            ).contains(ms[j].local->Some_0),
    decreases ms.len(),
{
    if ms.len() == 0 {
    } else {
        let t = ms.drop_first();
        let u = up_steps(ms, n);
        if ms[0].status is Unapplied {
            lemma_up_steps_cover(t, (n - 1) as nat);
            let ut = up_steps(t, (n - 1) as nat);
            assert forall|j: int|
                0 <= j < ms.len() && (#[trigger] ms[j]).status is Unapplied implies migs_of(
                u,
            ).contains(ms[j].local->Some_0) by {
                if j == 0 {
                    assert(migs_of(u)[0] == ms[0].local->Some_0);
                } else {
                    assert(t[j - 1] == ms[j]);
                    let k = choose|k: int|
                        0 <= k < migs_of(ut).len() && migs_of(ut)[k] == ms[j].local->Some_0;
                    assert(migs_of(u)[k + 1] == ut[k].1);
                    assert(migs_of(u)[k + 1] == ms[j].local->Some_0);
                }
            }
        } else {
            lemma_up_steps_cover(t, n);
            let ut = up_steps(t, n);
            assert forall|j: int|
                0 <= j < ms.len() && (#[trigger] ms[j]).status is Unapplied implies migs_of(
                u,
            ).contains(ms[j].local->Some_0) by {
                assert(t[j - 1] == ms[j]);
                let k = choose|k: int|
                    0 <= k < migs_of(ut).len() && migs_of(ut)[k] == ms[j].local->Some_0;
                assert(migs_of(u)[k] == ut[k].1);
                assert(migs_of(u)[k] == ms[j].local->Some_0);
            }
        }
    }
}

proof fn lemma_has_key_append(u: Seq<Migration>, v: Seq<Migration>, m: Migration)
    ensures
        crate::match_maker::has_key(u + v, m) == (crate::match_maker::has_key(u, m)
            || crate::match_maker::has_key(v, m)),
{
    let w = u + v;
    if crate::match_maker::has_key(w, m) {
        let i = choose|i: int| 0 <= i < w.len() && w[i].key_eq(m);
        if i < u.len() {
            assert(u[i].key_eq(m));
        } else {
            assert(v[i - u.len()].key_eq(m));
        }
    }
    if crate::match_maker::has_key(u, m) {
        let i = choose|i: int| 0 <= i < u.len() && u[i].key_eq(m);
        assert(w[i].key_eq(m));
    }
    if crate::match_maker::has_key(v, m) {
        let i = choose|i: int| 0 <= i < v.len() && v[i].key_eq(m);
        assert(w[u.len() + i].key_eq(m));
    }
}

} // verus!

verus! {

/// The migrations of an up plan ascend strictly by key.
proof fn lemma_up_migs_strict(ms: Seq<Match>, n: nat)
    requires
        crate::match_maker::matches_sorted(ms),
        matches_wf(ms),
    ensures
        crate::match_maker::sorted_lt(migs_of(up_steps(ms, n))),
    decreases ms.len(),
{
    if ms.len() == 0 || n == 0 {
    } else {
        let t = ms.drop_first();
        assert forall|i: int, j: int|
            0 <= i < j < t.len() implies (#[trigger] t[i]).rep().key_lt((#[trigger] t[j]).rep()) by {
            assert(ms[i + 1].rep().key_lt(ms[j + 1].rep()));
        }
        assert forall|i: int| 0 <= i < t.len() implies (#[trigger] t[i]).wf_shape() by {
            assert(ms[i + 1].wf_shape());
        }
        let u = up_steps(ms, n);
        let gs = migs_of(u);
        if ms[0].status is Unapplied {
            lemma_up_migs_strict(t, (n - 1) as nat);
            lemma_up_steps_from(t, (n - 1) as nat);
            let ut = up_steps(t, (n - 1) as nat);
            assert(ms[0].wf_shape());
            assert forall|k1: int, k2: int| 0 <= k1 < k2 < gs.len() implies gs[k1].key_lt(
                gs[k2],
            ) by {
                if k1 == 0 {
                    assert(gs[k2] == ut[k2 - 1].1);
                    let j = choose|j: int|
                        0 <= j < t.len() && (#[trigger] t[j]).status is Unapplied && ut[k2 - 1].1
                            == t[j].local->Some_0;
                    assert(t[j].wf_shape());
                    assert(t[j].rep() == t[j].local->Some_0);
                    assert(ms[0].rep().key_lt(ms[j + 1].rep()));
                    assert(ms[j + 1] == t[j]);
                    assert(gs[0] == ms[0].local->Some_0);
                    assert(ms[0].rep() == ms[0].local->Some_0);
                } else {
                    assert(gs[k1] == migs_of(ut)[k1 - 1]);
                    assert(gs[k2] == migs_of(ut)[k2 - 1]);
                    assert(migs_of(ut)[k1 - 1].key_lt(migs_of(ut)[k2 - 1]));
                }
            }
        } else {
            lemma_up_migs_strict(t, n);
            assert(gs =~= migs_of(up_steps(t, n)));
        }
    }
}

/// Idempotence over any starting database: once the full up plan for
/// `(locals, db)` has run, nothing remains unapplied, so a second `up`
/// plans nothing and nothing blocks it.
pub proof fn lemma_up_idempotent_general(locals: Seq<Migration>, db: Seq<Migration>, n: nat)
    requires
        crate::match_maker::unique_keys(locals),
        crate::match_maker::unique_keys(db),
    ensures
        ({
            let ms1 = spec_matches(locals, db);
            let d2 = apply_plan(db, up_steps(ms1, ms1.len()));
            let ms2 = spec_matches(locals, d2);
            !up_blocked(ms2, n) && up_steps(ms2, n) == Seq::<(Step, Migration)>::empty()
        }),
{
    let sa = crate::match_maker::sort_by_key(locals);
    let sd = crate::match_maker::sort_by_key(db);
    crate::match_maker::lemma_sort_props(locals);
    crate::match_maker::lemma_sort_props(db);
    crate::match_maker::lemma_sorted_unique_strict(sa);
    crate::match_maker::lemma_sorted_unique_strict(sd);
    let ms1 = spec_matches(locals, db);
    crate::match_maker::lemma_merge_props(sa, sd);
    crate::match_maker::lemma_merge_unapplied_absent(sa, sd);
    let plan = up_steps(ms1, ms1.len());
    lemma_up_steps_from(ms1, ms1.len());
    lemma_up_steps_cover(ms1, ms1.len());
    lemma_up_migs_strict(ms1, ms1.len());
    lemma_apply_all_ups(db, plan);
    let new = migs_of(plan);
    let d2 = apply_plan(db, plan);
    assert(d2 == db + recs(new));
    // each new row keeps the key of the unapplied local it records, and that
    // key is absent from the database side
    assert forall|k: int| 0 <= k < new.len() implies ((#[trigger] recs(new)[k]).key_eq(new[k])
        && !crate::match_maker::has_key(db, new[k])) by {
        assert(recs(new)[k] == db_record(new[k]));
        let j = choose|j: int|
            0 <= j < ms1.len() && (#[trigger] ms1[j]).status is Unapplied && plan[k].1
                == ms1[j].local->Some_0;
        assert(!crate::match_maker::has_key(sd, ms1[j].local->Some_0));
        assert(new[k] == plan[k].1);
    }
    // the updated database still has pairwise distinct keys
    assert forall|i: int, j: int| 0 <= i < j < d2.len() implies !(#[trigger] d2[i]).key_eq(
        (#[trigger] d2[j]),
    ) by {
        if j < db.len() {
            assert(d2[i] == db[i] && d2[j] == db[j]);
        } else if i >= db.len() {
            let ki = i - db.len();
            let kj = j - db.len();
            assert(d2[i] == recs(new)[ki] && d2[j] == recs(new)[kj]);
            assert(new[ki].key_lt(new[kj]));
            crate::migration::lemma_key_trichotomy(new[ki], new[kj]);
            if d2[i].key_eq(d2[j]) {
                assert(new[ki].key_eq(new[kj]));
            }
        } else {
            let kj = j - db.len();
            assert(d2[i] == db[i] && d2[j] == recs(new)[kj]);
            if d2[i].key_eq(d2[j]) {
                assert(db[i].key_eq(new[kj]));
                assert(crate::match_maker::has_key(db, new[kj]));
            }
        }
    }
    let sd2 = crate::match_maker::sort_by_key(d2);
    crate::match_maker::lemma_sort_props(d2);
    crate::match_maker::lemma_sorted_unique_strict(sd2);
    let ms2 = spec_matches(locals, d2);
    crate::match_maker::lemma_merge_props(sa, sd2);
    crate::match_maker::lemma_merge_unapplied_absent(sa, sd2);
    // every local key now has a row, so nothing in ms2 is unapplied
    assert(!has_unapplied(ms2)) by {
        if has_unapplied(ms2) {
            let j = choose|j: int|
                0 <= j < ms2.len() && (#[trigger] ms2[j]).status is Unapplied;
            let x = ms2[j].local->Some_0;
            assert(ms2[j].local == Some(x));
            assert(sa.contains(x));
            assert(!crate::match_maker::has_key(sd2, x));
            assert(!crate::match_maker::has_key(d2, x));
            lemma_has_key_append(db, recs(new), x);
            // find x's entry in the first history
            let j1 = choose|j1: int| 0 <= j1 < ms1.len() && (#[trigger] ms1[j1]).local == Some(x);
            assert(ms1[j1].wf_shape());
            match ms1[j1].status {
                Status::Unapplied => {
                    assert(new.contains(x));
                    let k = choose|k: int| 0 <= k < new.len() && new[k] == x;
                    assert(recs(new)[k].key_eq(x));
                    assert(crate::match_maker::has_key(recs(new), x));
                },
                Status::Applied | Status::Divergent => {
                    let d = ms1[j1].db->Some_0;
                    assert(x.key_eq(d));
                    assert(ms1[j1].db == Some(d));
                    assert(sd.contains(d));
                    let k = choose|k: int| 0 <= k < sd.len() && sd[k] == d;
                    assert(sd[k].key_eq(x));
                    assert(crate::match_maker::has_key(sd, x));
                    assert(crate::match_maker::has_key(db, x));
                },
                Status::Variant => {
                    assert(ms1[j1].local is None);
                },
            }
        }
    }
    lemma_up_no_unapplied(ms2, n);
}

} // verus!
