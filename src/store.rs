//! The store itself: a cluster registry keyed by name, an append-only trace
//! recorder and an execution tracker with a two-state lifecycle.
use vstd::prelude::*;
use vstd::set_lib::{lemma_int_range, lemma_len_subset, set_int_range};
use crate::model::{Cluster, CommandExecution, StoreError, Trace, copy_text};
use crate::ordering::{comes_before, is_newest_first, newest_first_indices, taken};

verus! {

/// What the store holds, table by table, in the order the rows were written.
pub struct StoreContents {
    pub clusters: Seq<Cluster>,
    pub traces: Seq<Trace>,
    pub executions: Seq<CommandExecution>,
}

/// An in-memory store of clusters, trace spans and command executions.
pub struct DatabaseClient {
    clusters: Vec<Cluster>,
    traces: Vec<Trace>,
    executions: Vec<CommandExecution>,
}

impl View for DatabaseClient {
    type V = StoreContents;

    closed spec fn view(&self) -> StoreContents {
        StoreContents { clusters: self.clusters@, traces: self.traces@, executions: self.executions@ }
    }
}

pub open spec fn names_unique(s: Seq<Cluster>) -> bool {
    forall|i: int, j: int| 0 <= i < j < s.len() ==> (#[trigger] s[i]).name@ != (#[trigger] s[j]).name@
}

pub open spec fn cluster_ids_unique(s: Seq<Cluster>) -> bool {
    forall|i: int, j: int| 0 <= i < j < s.len() ==> (#[trigger] s[i]).id != (#[trigger] s[j]).id
}

pub open spec fn trace_ids_unique(s: Seq<Trace>) -> bool {
    forall|i: int, j: int| 0 <= i < j < s.len() ==> (#[trigger] s[i]).id != (#[trigger] s[j]).id
}

pub open spec fn execution_ids_unique(s: Seq<CommandExecution>) -> bool {
    forall|i: int, j: int| 0 <= i < j < s.len() ==> (#[trigger] s[i]).id != (#[trigger] s[j]).id
}

pub open spec fn has_cluster_named(s: Seq<Cluster>, name: Seq<char>) -> bool {
    exists|i: int| 0 <= i < s.len() && (#[trigger] s[i]).name@ == name
}

pub open spec fn has_cluster_id(s: Seq<Cluster>, id: u128) -> bool {
    exists|i: int| 0 <= i < s.len() && (#[trigger] s[i]).id == id
}

pub open spec fn has_trace_id(s: Seq<Trace>, id: u128) -> bool {
    exists|i: int| 0 <= i < s.len() && (#[trigger] s[i]).id == id
}

pub open spec fn has_execution_id(s: Seq<CommandExecution>, id: u128) -> bool {
    exists|i: int| 0 <= i < s.len() && (#[trigger] s[i]).id == id
}

/// The position of the cluster named `name` (meaningful when there is one).
pub open spec fn cluster_named(s: Seq<Cluster>, name: Seq<char>) -> int {
    choose|i: int| 0 <= i < s.len() && (#[trigger] s[i]).name@ == name
}

/// The position of the execution with identifier `id` (meaningful when there is one).
pub open spec fn execution_with_id(s: Seq<CommandExecution>, id: u128) -> int {
    choose|i: int| 0 <= i < s.len() && (#[trigger] s[i]).id == id
}

/// A cluster registered for the first time at `now`.
pub open spec fn fresh_cluster(c: Cluster, now: i64) -> Cluster {
    Cluster { created_at: now, updated_at: now, ..c }
}

/// The row `existing` after `c` was registered again under its name at `now`:
/// identifier, name and creation time stay, every other field is replaced.
pub open spec fn refreshed_cluster(existing: Cluster, c: Cluster, now: i64) -> Cluster {
    Cluster { id: existing.id, name: existing.name, created_at: existing.created_at, updated_at: now, ..c }
}

/// The cluster table after registering `c` at `now`.
pub open spec fn after_register(s: Seq<Cluster>, c: Cluster, now: i64) -> Seq<Cluster> {
    if has_cluster_named(s, c.name@) {
        let i = cluster_named(s, c.name@);
        s.update(i, refreshed_cluster(s[i], c, now))
    } else if has_cluster_id(s, c.id) {
        s
    } else {
        s.push(fresh_cluster(c, now))
    }
}

/// A span as the recorder stores it, written at `now`.
pub open spec fn recorded_trace(t: Trace, now: i64) -> Trace {
    Trace { created_at: now, ..t }
}

/// An execution as it is opened at `now`: no outcome recorded yet.
pub open spec fn opened_execution(e: CommandExecution, now: i64) -> CommandExecution {
    CommandExecution {
        exit_code: None,
        stdout: None,
        stderr: None,
        end_time: None,
        duration_ms: None,
        created_at: now,
        ..e
    }
}

/// `after` is `before` closed with the given outcome: the duration is the time
/// from the recorded start to `end_time`, in milliseconds.
pub open spec fn closed_as(
    before: CommandExecution,
    after: CommandExecution,
    exit_code: i32,
    stdout: Seq<char>,
    stderr: Seq<char>,
    end_time: i64,
) -> bool {
    &&& after.exit_code == Some(exit_code)
    &&& after.stdout is Some && after.stdout->0@ == stdout
    &&& after.stderr is Some && after.stderr->0@ == stderr
    &&& after.end_time == Some(end_time)
    &&& after.duration_ms == Some((end_time - before.start_time) as i64)
    &&& after.id == before.id
    &&& after.cluster_id == before.cluster_id
    &&& after.command == before.command
    &&& after.script_name == before.script_name
    &&& after.arguments == before.arguments
    &&& after.start_time == before.start_time
    &&& after.user_id == before.user_id
    &&& after.session_id == before.session_id
    &&& after.created_at == before.created_at
}

pub open spec fn cluster_keys(s: Seq<Cluster>) -> Seq<i64> {
    Seq::new(s.len(), |i: int| s[i].created_at)
}

pub open spec fn trace_keys(s: Seq<Trace>) -> Seq<i64> {
    Seq::new(s.len(), |i: int| s[i].start_time)
}

pub open spec fn execution_keys(s: Seq<CommandExecution>) -> Seq<i64> {
    Seq::new(s.len(), |i: int| s[i].start_time)
}

pub open spec fn all_rows(n: nat) -> Seq<bool> {
    Seq::new(n, |i: int| true)
}

/// Whether a row owned by `owner` passes the cluster filter.
pub open spec fn passes(filter: Option<u128>, owner: Option<u128>) -> bool {
    filter is None || owner == filter
}

pub open spec fn trace_mask(s: Seq<Trace>, filter: Option<u128>) -> Seq<bool> {
    Seq::new(s.len(), |i: int| passes(filter, s[i].cluster_id))
}

pub open spec fn execution_mask(s: Seq<CommandExecution>, filter: Option<u128>) -> Seq<bool> {
    Seq::new(s.len(), |i: int| passes(filter, s[i].cluster_id))
}

/// `r` is every cluster, most recently created first.
pub open spec fn lists_clusters(s: Seq<Cluster>, r: Seq<Cluster>) -> bool {
    exists|p: Seq<usize>|
        is_newest_first(cluster_keys(s), all_rows(s.len()), s.len(), p)
            && r == p.map_values(|k: usize| s[k as int])
}

/// `r` is what a listing of spans for `filter`, capped at `limit`, returns:
/// the latest started first.
pub open spec fn lists_traces(s: Seq<Trace>, filter: Option<u128>, limit: nat, r: Seq<Trace>) -> bool {
    exists|p: Seq<usize>|
        is_newest_first(trace_keys(s), trace_mask(s, filter), limit, p)
            && r == p.map_values(|k: usize| s[k as int])
}

/// `r` is what a listing of executions for `filter`, capped at `limit`,
/// returns: the latest started first.
pub open spec fn lists_executions(
    s: Seq<CommandExecution>,
    filter: Option<u128>,
    limit: nat,
    r: Seq<CommandExecution>,
) -> bool {
    exists|p: Seq<usize>|
        is_newest_first(execution_keys(s), execution_mask(s, filter), limit, p)
            && r == p.map_values(|k: usize| s[k as int])
}

/// Registering a cluster twice under one new name leaves exactly one row of
/// that name, added at the end: it carries the first registration's identifier
/// and creation time, and every other field of the second registration, which
/// also set its update time.
pub proof fn lemma_register_twice(s: Seq<Cluster>, first: Cluster, second: Cluster, t1: i64, t2: i64)
    requires
        first.name@ == second.name@,
        !has_cluster_named(s, first.name@),
        !has_cluster_id(s, first.id),
    ensures
        ({
            let s2 = after_register(after_register(s, first, t1), second, t2);
            &&& s2.len() == s.len() + 1
            &&& forall|i: int| 0 <= i < s.len() ==> s2[i] == s[i]
            &&& forall|i: int| 0 <= i < s2.len() ==> (s2[i].name@ == first.name@ <==> i == s.len())
            &&& s2[s.len() as int] == refreshed_cluster(fresh_cluster(first, t1), second, t2)
            &&& s2[s.len() as int].id == first.id
            &&& s2[s.len() as int].created_at == t1
            &&& s2[s.len() as int].updated_at == t2
        }),
{
    let s1 = after_register(s, first, t1);
    assert(s1 == s.push(fresh_cluster(first, t1)));
    let n = s.len() as int;
    assert(s1[n].name@ == second.name@);
    assert(has_cluster_named(s1, second.name@));
    let i = cluster_named(s1, second.name@);
    if i != n {
        assert(s1[i] == s[i]);
        assert(has_cluster_named(s, first.name@));
    }
    let s2 = after_register(s1, second, t2);
    assert forall|k: int| 0 <= k < s2.len() implies (s2[k].name@ == first.name@ <==> k == n) by {
        if k < n {
            assert(s2[k] == s[k]);
            if s[k].name@ == first.name@ {
                assert(has_cluster_named(s, first.name@));
            }
        }
    }
}

/// An execution opened at any time and then closed has as its duration the
/// time from its start to the close, whatever outcome was recorded with it.
pub proof fn lemma_duration_is_elapsed(
    e: CommandExecution,
    now: i64,
    after: CommandExecution,
    exit_code: i32,
    stdout: Seq<char>,
    stderr: Seq<char>,
    end_time: i64,
)
    requires
        closed_as(opened_execution(e, now), after, exit_code, stdout, stderr, end_time),
        i64::MIN <= end_time - e.start_time <= i64::MAX,
    ensures
        after.duration_ms == Some((end_time - e.start_time) as i64),
        after.duration_ms->0 == end_time - e.start_time,
        after.start_time == e.start_time,
{
}

/// A listing of the executions of one cluster holds only that cluster's rows,
/// no more than `limit`, the latest started first; it holds all of them when it
/// is shorter than `limit`, and no row of the cluster left out started later
/// than the last one listed.
pub proof fn lemma_filtered_listing(s: Seq<CommandExecution>, a: u128, limit: nat, r: Seq<CommandExecution>)
    requires
        lists_executions(s, Some(a), limit, r),
    ensures
        r.len() <= limit,
        forall|k: int| 0 <= k < r.len() ==> (#[trigger] r[k]).cluster_id == Some(a),
        forall|k: int, l: int| 0 <= k < l < r.len() ==> (#[trigger] r[k]).start_time >= (#[trigger] r[l]).start_time,
        forall|i: int|
            0 <= i < s.len() && (#[trigger] s[i]).cluster_id == Some(a) && !r.contains(s[i]) ==> {
                &&& r.len() == limit
                &&& limit > 0 ==> r.last().start_time >= s[i].start_time
            },
{
    let p = choose|p: Seq<usize>|
        is_newest_first(execution_keys(s), execution_mask(s, Some(a)), limit, p)
            && r == p.map_values(|k: usize| s[k as int]);
    lemma_listing_facts(s, Some(a), limit, r, p);
}

/// A listing of executions of every cluster holds the `limit` latest started
/// rows, or all rows where there are fewer, the latest started first; a row
/// left out started no later than any of those listed.
pub proof fn lemma_unfiltered_listing(s: Seq<CommandExecution>, limit: nat, r: Seq<CommandExecution>)
    requires
        lists_executions(s, None, limit, r),
    ensures
        r.len() <= limit,
        r.len() == if limit <= s.len() { limit } else { s.len() },
        forall|k: int, l: int| 0 <= k < l < r.len() ==> (#[trigger] r[k]).start_time >= (#[trigger] r[l]).start_time,
        forall|i: int|
            0 <= i < s.len() && !r.contains(#[trigger] s[i]) ==> {
                &&& r.len() == limit
                &&& forall|k: int| 0 <= k < r.len() ==> (#[trigger] r[k]).start_time >= s[i].start_time
            },
{
    let p = choose|p: Seq<usize>|
        is_newest_first(execution_keys(s), execution_mask(s, None), limit, p)
            && r == p.map_values(|k: usize| s[k as int]);
    lemma_listing_facts(s, None, limit, r, p);
    lemma_every_row_counted(s, limit, p);
    assert forall|i: int| 0 <= i < s.len() && !r.contains(#[trigger] s[i]) implies {
        &&& r.len() == limit
        &&& forall|k: int| 0 <= k < r.len() ==> (#[trigger] r[k]).start_time >= s[i].start_time
    } by {
        assert(execution_mask(s, None)[i]);
        assert forall|k: int| 0 <= k < r.len() implies (#[trigger] r[k]).start_time >= s[i].start_time by {
            if k < r.len() - 1 {
                assert(r[k].start_time >= r[r.len() - 1].start_time);
            }
        }
    }
}

/// A listing of every row takes `limit` of them, or all where there are fewer.
proof fn lemma_every_row_counted(s: Seq<CommandExecution>, limit: nat, p: Seq<usize>)
    requires
        is_newest_first(execution_keys(s), execution_mask(s, None), limit, p),
    ensures
        p.len() == if limit <= s.len() { limit } else { s.len() },
{
    let keys = execution_keys(s);
    let q = p.map_values(|x: usize| x as int);
    let taken_set = q.to_set();
    let rows = set_int_range(0, s.len() as int);
    lemma_int_range(0, s.len() as int);
    q.lemma_cardinality_of_set();
    assert forall|a: int, b: int| 0 <= a < b < q.len() implies q[a] != q[b] by {
        assert(comes_before(keys, p[a] as int, p[b] as int));
    }
    assert(q.no_duplicates());
    q.unique_seq_to_set();
    assert(taken_set.subset_of(rows)) by {
        assert forall|x: int| taken_set.contains(x) implies rows.contains(x) by {
            let k = choose|k: int| 0 <= k < q.len() && q[k] == x;
            assert((p[k] as int) < s.len());
        }
    }
    lemma_len_subset(taken_set, rows);
    if p.len() < limit {
        assert(rows.subset_of(taken_set)) by {
            assert forall|i: int| rows.contains(i) implies taken_set.contains(i) by {
                assert(execution_mask(s, None)[i]);
                let k = choose|k: int| 0 <= k < p.len() && #[trigger] p[k] as int == i;
                assert(q[k] == i);
            }
        }
        lemma_len_subset(rows, taken_set);
    }
}

/// What a listing of executions shows of the rows it was chosen from.
proof fn lemma_listing_facts(
    s: Seq<CommandExecution>,
    filter: Option<u128>,
    limit: nat,
    r: Seq<CommandExecution>,
    p: Seq<usize>,
)
    requires
        is_newest_first(execution_keys(s), execution_mask(s, filter), limit, p),
        r == p.map_values(|k: usize| s[k as int]),
    ensures
        r.len() <= limit,
        forall|k: int| 0 <= k < r.len() ==> passes(filter, (#[trigger] r[k]).cluster_id),
        forall|k: int, l: int| 0 <= k < l < r.len() ==> (#[trigger] r[k]).start_time >= (#[trigger] r[l]).start_time,
        forall|i: int|
            0 <= i < s.len() && passes(filter, (#[trigger] s[i]).cluster_id) && !r.contains(s[i]) ==> {
                &&& r.len() == limit
                &&& limit > 0 ==> r.last().start_time >= s[i].start_time
            },
{
    let keys = execution_keys(s);
    let mask = execution_mask(s, filter);
    assert forall|k: int| 0 <= k < r.len() implies passes(filter, (#[trigger] r[k]).cluster_id) by {
        assert(mask[p[k] as int]);
    }
    assert forall|k: int, l: int| 0 <= k < l < r.len() implies (#[trigger] r[k]).start_time >= (#[trigger] r[l]).start_time by {
        assert(comes_before(keys, p[k] as int, p[l] as int));
    }
    assert forall|i: int|
        0 <= i < s.len() && passes(filter, (#[trigger] s[i]).cluster_id) && !r.contains(s[i]) implies {
            &&& r.len() == limit
            &&& limit > 0 ==> r.last().start_time >= s[i].start_time
        } by {
        assert(mask[i]);
        if taken(p, i) {
            let k = choose|k: int| 0 <= k < p.len() && #[trigger] p[k] as int == i;
            assert(r[k] == s[p[k] as int]);
            assert(r.contains(s[i]));
        }
        if limit > 0 {
            assert(comes_before(keys, p.last() as int, i));
        }
    }
}

impl DatabaseClient {
    /// The store's invariant: names and identifiers are unique in each table.
    pub open spec fn wf(&self) -> bool {
        &&& names_unique(self@.clusters)
        &&& cluster_ids_unique(self@.clusters)
        &&& trace_ids_unique(self@.traces)
        &&& execution_ids_unique(self@.executions)
    }

    /// An empty store.
    pub fn new() -> (r: DatabaseClient)
        ensures
            r.wf(),
            r@.clusters.len() == 0,
            r@.traces.len() == 0,
            r@.executions.len() == 0,
    {
        DatabaseClient { clusters: Vec::new(), traces: Vec::new(), executions: Vec::new() }
    }

    /// Registers `cluster` at `now`. A cluster of the same name is updated in
    /// place: it keeps its identifier, name and creation time, takes every other
    /// field from `cluster`, and its update time becomes `now`. Otherwise the
    /// cluster is added, created and updated at `now`, unless its identifier is
    /// taken.
    pub fn insert_cluster(&mut self, cluster: &Cluster, now: i64) -> (r: Result<(), StoreError>)
        requires
            old(self).wf(),
        ensures
            final(self).wf(),
            final(self)@.clusters == after_register(old(self)@.clusters, *cluster, now),
            final(self)@.traces == old(self)@.traces,
            final(self)@.executions == old(self)@.executions,
            r is Err <==> !has_cluster_named(old(self)@.clusters, cluster.name@) && has_cluster_id(
                old(self)@.clusters,
                cluster.id,
            ),
            r is Err ==> r == Err::<(), StoreError>(StoreError::DuplicateId),
    {
        let n = self.clusters.len();
        let mut i: usize = 0;
        while i < n
            invariant
                n == self.clusters.len(),
                self@ == old(self)@,
                old(self).wf(),
                i <= n,
                forall|k: int| 0 <= k < i ==> (#[trigger] self.clusters@[k]).name@ != cluster.name@,
            decreases n - i,
        {
            if self.clusters[i].name == cluster.name {
                let existing = &self.clusters[i];
                let updated = Cluster {
                    id: existing.id,
                    name: existing.name.clone(),
                    environment: cluster.environment.clone(),
                    cluster_type: cluster.cluster_type.clone(),
                    region: copy_text(&cluster.region),
                    zone: copy_text(&cluster.zone),
                    node_count: cluster.node_count,
                    node_size: cluster.node_size.clone(),
                    status: cluster.status.clone(),
                    cost_budget: cluster.cost_budget,
                    cost_threshold: cluster.cost_threshold,
                    created_at: existing.created_at,
                    updated_at: now,
                };
                proof {
                    let s = old(self)@.clusters;
                    assert(has_cluster_named(s, cluster.name@));
                    let c = cluster_named(s, cluster.name@);
                    assert(c == i as int);
                }
                self.clusters.set(i, updated);
                proof {
                    let s = old(self)@.clusters;
                    assert forall|a: int, b: int| 0 <= a < b < self.clusters@.len() implies (#[trigger] self.clusters@[a]).name@
                        != (#[trigger] self.clusters@[b]).name@ by {
                        assert(s[a].name@ != s[b].name@);
                    }
                    assert forall|a: int, b: int| 0 <= a < b < self.clusters@.len() implies (#[trigger] self.clusters@[a]).id
                        != (#[trigger] self.clusters@[b]).id by {
                        assert(s[a].id != s[b].id);
                    }
                }
                return Ok(());
            }
            i = i + 1;
        }
        let mut j: usize = 0;
        while j < n
            invariant
                n == self.clusters.len(),
                self@ == old(self)@,
                old(self).wf(),
                j <= n,
                forall|k: int| 0 <= k < n ==> (#[trigger] self.clusters@[k]).name@ != cluster.name@,
                forall|k: int| 0 <= k < j ==> (#[trigger] self.clusters@[k]).id != cluster.id,
            decreases n - j,
        {
            if self.clusters[j].id == cluster.id {
                proof {
                    assert(old(self)@.clusters[j as int].id == cluster.id);
                    assert(has_cluster_id(old(self)@.clusters, cluster.id));
                }
                return Err(StoreError::DuplicateId);
            }
            j = j + 1;
        }
        let mut added = cluster.duplicate();
        added.created_at = now;
        added.updated_at = now;
        self.clusters.push(added);
        proof {
            let s = old(self)@.clusters;
            assert(self.clusters@ == s.push(fresh_cluster(*cluster, now)));
            assert forall|a: int, b: int| 0 <= a < b < self.clusters@.len() implies (#[trigger] self.clusters@[a]).name@
                != (#[trigger] self.clusters@[b]).name@ by {
                if b < n {
                    assert(s[a].name@ != s[b].name@);
                }
            }
            assert forall|a: int, b: int| 0 <= a < b < self.clusters@.len() implies (#[trigger] self.clusters@[a]).id
                != (#[trigger] self.clusters@[b]).id by {
                if b < n {
                    assert(s[a].id != s[b].id);
                }
            }
        }
        Ok(())
    }

    /// Every cluster, most recently created first.
    pub fn get_clusters(&self) -> (r: Vec<Cluster>)
        ensures
            lists_clusters(self@.clusters, r@),
    {
        let n = self.clusters.len();
        let mut keys: Vec<i64> = Vec::new();
        let mut mask: Vec<bool> = Vec::new();
        let mut i: usize = 0;
        while i < n
            invariant
                n == self.clusters.len(),
                i <= n,
                keys@ == cluster_keys(self@.clusters).subrange(0, i as int),
                mask@ == all_rows(n as nat).subrange(0, i as int),
            decreases n - i,
        {
            keys.push(self.clusters[i].created_at);
            mask.push(true);
            i = i + 1;
            proof {
                assert(keys@ =~= cluster_keys(self@.clusters).subrange(0, i as int));
                assert(mask@ =~= all_rows(n as nat).subrange(0, i as int));
            }
        }
        proof {
            assert(keys@ =~= cluster_keys(self@.clusters));
            assert(mask@ =~= all_rows(n as nat));
        }
        let picked = newest_first_indices(&keys, &mask, n as u64);
        let mut r: Vec<Cluster> = Vec::new();
        let mut k: usize = 0;
        while k < picked.len()
            invariant
                n == self.clusters.len(),
                is_newest_first(cluster_keys(self@.clusters), all_rows(n as nat), n as nat, picked@),
                k <= picked.len(),
                r@ == picked@.subrange(0, k as int).map_values(|p: usize| self@.clusters[p as int]),
            decreases picked.len() - k,
        {
            let row = self.clusters[picked[k]].duplicate();
            r.push(row);
            k = k + 1;
            proof {
                assert(r@ =~= picked@.subrange(0, k as int).map_values(|p: usize| self@.clusters[p as int]));
            }
        }
        proof {
            assert(picked@.subrange(0, picked.len() as int) =~= picked@);
        }
        r
    }

    /// The cluster named `name`, or `None` when there is none.
    pub fn get_cluster_by_name(&self, name: &str) -> (r: Option<Cluster>)
        ensures
            r is None <==> !has_cluster_named(self@.clusters, name@),
            r is Some ==> exists|i: int|
                0 <= i < self@.clusters.len() && self@.clusters[i].name@ == name@ && r == Some(
                    #[trigger] self@.clusters[i],
                ),
    {
        let target = name.to_owned();
        let n = self.clusters.len();
        let mut i: usize = 0;
        while i < n
            invariant
                n == self.clusters.len(),
                target@ == name@,
                i <= n,
                forall|k: int| 0 <= k < i ==> (#[trigger] self.clusters@[k]).name@ != name@,
            decreases n - i,
        {
            if self.clusters[i].name == target {
                return Some(self.clusters[i].duplicate());
            }
            i = i + 1;
        }
        None
    }

    /// Records the span `trace`, written at `now`, unless its identifier is taken.
    pub fn insert_trace(&mut self, trace: &Trace, now: i64) -> (r: Result<(), StoreError>)
        requires
            old(self).wf(),
        ensures
            final(self).wf(),
            final(self)@.clusters == old(self)@.clusters,
            final(self)@.executions == old(self)@.executions,
            r is Err <==> has_trace_id(old(self)@.traces, trace.id),
            r is Err ==> r == Err::<(), StoreError>(StoreError::DuplicateId) && final(self)@.traces
                == old(self)@.traces,
            r is Ok ==> final(self)@.traces == old(self)@.traces.push(recorded_trace(*trace, now)),
    {
        let n = self.traces.len();
        let mut j: usize = 0;
        while j < n
            invariant
                n == self.traces.len(),
                self@ == old(self)@,
                old(self).wf(),
                j <= n,
                forall|k: int| 0 <= k < j ==> (#[trigger] self.traces@[k]).id != trace.id,
            decreases n - j,
        {
            if self.traces[j].id == trace.id {
                proof {
                    assert(self@.traces[j as int].id == trace.id);
                }
                return Err(StoreError::DuplicateId);
            }
            j = j + 1;
        }
        let mut added = trace.duplicate();
        added.created_at = now;
        self.traces.push(added);
        proof {
            let s = old(self)@.traces;
            assert(self.traces@ == s.push(recorded_trace(*trace, now)));
            assert forall|a: int, b: int| 0 <= a < b < self.traces@.len() implies (#[trigger] self.traces@[a]).id
                != (#[trigger] self.traces@[b]).id by {
                if b < n {
                    assert(s[a].id != s[b].id);
                }
            }
        }
        Ok(())
    }

    /// Opens the execution `execution` at `now`, with no outcome recorded, and
    /// returns its identifier, unless that identifier is taken.
    pub fn insert_command_execution(&mut self, execution: &CommandExecution, now: i64) -> (r: Result<
        u128,
        StoreError,
    >)
        requires
            old(self).wf(),
        ensures
            final(self).wf(),
            final(self)@.clusters == old(self)@.clusters,
            final(self)@.traces == old(self)@.traces,
            r is Err <==> has_execution_id(old(self)@.executions, execution.id),
            r is Err ==> r == Err::<u128, StoreError>(StoreError::DuplicateId)
                && final(self)@.executions == old(self)@.executions,
            r is Ok ==> r == Ok::<u128, StoreError>(execution.id) && final(self)@.executions == old(
                self,
            )@.executions.push(opened_execution(*execution, now)),
    {
        let n = self.executions.len();
        let mut j: usize = 0;
        while j < n
            invariant
                n == self.executions.len(),
                self@ == old(self)@,
                old(self).wf(),
                j <= n,
                forall|k: int| 0 <= k < j ==> (#[trigger] self.executions@[k]).id != execution.id,
            decreases n - j,
        {
            if self.executions[j].id == execution.id {
                proof {
                    assert(self@.executions[j as int].id == execution.id);
                }
                return Err(StoreError::DuplicateId);
            }
            j = j + 1;
        }
        let mut added = execution.duplicate();
        added.exit_code = None;
        added.stdout = None;
        added.stderr = None;
        added.end_time = None;
        added.duration_ms = None;
        added.created_at = now;
        self.executions.push(added);
        proof {
            let s = old(self)@.executions;
            assert(self.executions@ == s.push(opened_execution(*execution, now)));
            assert forall|a: int, b: int| 0 <= a < b < self.executions@.len() implies (#[trigger] self.executions@[a]).id
                != (#[trigger] self.executions@[b]).id by {
                if b < n {
                    assert(s[a].id != s[b].id);
                }
            }
        }
        Ok(execution.id)
    }

    /// Closes the open execution `id` with its outcome. The duration is derived
    /// from the recorded start time and `end_time`; it is never taken from the
    /// caller. An unknown `id`, an execution closed already, and a duration that
    /// does not fit in 64 bits are refused, and then nothing changes.
    pub fn update_command_execution(
        &mut self,
        id: u128,
        exit_code: i32,
        stdout: &str,
        stderr: &str,
        end_time: i64,
    ) -> (r: Result<(), StoreError>)
        requires
            old(self).wf(),
        ensures
            final(self).wf(),
            final(self)@.clusters == old(self)@.clusters,
            final(self)@.traces == old(self)@.traces,
            !has_execution_id(old(self)@.executions, id) ==> r == Err::<(), StoreError>(
                StoreError::NotFound,
            ),
            has_execution_id(old(self)@.executions, id) ==> {
                let i = execution_with_id(old(self)@.executions, id);
                let e = old(self)@.executions[i];
                &&& !e.is_open() ==> r == Err::<(), StoreError>(StoreError::AlreadyClosed)
                &&& e.is_open() && !(i64::MIN <= end_time - e.start_time <= i64::MAX) ==> r == Err::<
                    (),
                    StoreError,
                >(StoreError::TimeOutOfRange)
                &&& e.is_open() && i64::MIN <= end_time - e.start_time <= i64::MAX ==> {
                    &&& r == Ok::<(), StoreError>(())
                    &&& final(self)@.executions.len() == old(self)@.executions.len()
                    &&& closed_as(e, final(self)@.executions[i], exit_code, stdout@, stderr@, end_time)
                    &&& forall|j: int|
                        0 <= j < old(self)@.executions.len() && j != i ==> final(self)@.executions[j]
                            == old(self)@.executions[j]
                }
            },
            r is Err ==> final(self)@.executions == old(self)@.executions,
    {
        let n = self.executions.len();
        let mut i: usize = 0;
        while i < n
            invariant
                n == self.executions.len(),
                self@ == old(self)@,
                old(self).wf(),
                i <= n,
                forall|k: int| 0 <= k < i ==> (#[trigger] self.executions@[k]).id != id,
            decreases n - i,
        {
            if self.executions[i].id == id {
                proof {
                    let s = old(self)@.executions;
                    assert(s[i as int].id == id);
                    assert(has_execution_id(s, id));
                    assert(execution_with_id(s, id) == i as int);
                }
                let e = &self.executions[i];
                if e.end_time.is_some() {
                    return Err(StoreError::AlreadyClosed);
                }
                let elapsed: i128 = end_time as i128 - e.start_time as i128;
                if elapsed < i64::MIN as i128 || elapsed > i64::MAX as i128 {
                    return Err(StoreError::TimeOutOfRange);
                }
                let closed = CommandExecution {
                    id: e.id,
                    cluster_id: e.cluster_id,
                    command: e.command.clone(),
                    script_name: copy_text(&e.script_name),
                    arguments: e.arguments.clone(),
                    exit_code: Some(exit_code),
                    stdout: Some(stdout.to_owned()),
                    stderr: Some(stderr.to_owned()),
                    start_time: e.start_time,
                    end_time: Some(end_time),
                    duration_ms: Some(elapsed as i64),
                    user_id: copy_text(&e.user_id),
                    session_id: e.session_id,
                    created_at: e.created_at,
                };
                self.executions.set(i, closed);
                proof {
                    let s = old(self)@.executions;
                    assert forall|a: int, b: int| 0 <= a < b < self.executions@.len() implies (#[trigger] self.executions@[a]).id
                        != (#[trigger] self.executions@[b]).id by {
                        assert(s[a].id != s[b].id);
                    }
                }
                return Ok(());
            }
            i = i + 1;
        }
        Err(StoreError::NotFound)
    }

    /// Up to `limit` spans, the latest started first; with `cluster_id`,
    /// only those of that cluster. A negative `limit` is refused.
    pub fn get_recent_traces(&self, cluster_id: Option<u128>, limit: i64) -> (r: Result<
        Vec<Trace>,
        StoreError,
    >)
        ensures
            r is Err <==> limit < 0,
            r is Err ==> r == Err::<Vec<Trace>, StoreError>(StoreError::InvalidLimit),
            r is Ok ==> lists_traces(self@.traces, cluster_id, limit as nat, r->Ok_0@),
    {
        if limit < 0 {
            return Err(StoreError::InvalidLimit);
        }
        let n = self.traces.len();
        let mut keys: Vec<i64> = Vec::new();
        let mut mask: Vec<bool> = Vec::new();
        let mut i: usize = 0;
        while i < n
            invariant
                n == self.traces.len(),
                i <= n,
                keys@ == trace_keys(self@.traces).subrange(0, i as int),
                mask@ == trace_mask(self@.traces, cluster_id).subrange(0, i as int),
            decreases n - i,
        {
            let row = &self.traces[i];
            keys.push(row.start_time);
            let wanted = match cluster_id {
                None => true,
                Some(c) => row.cluster_id == Some(c),
            };
            mask.push(wanted);
            i = i + 1;
            proof {
                assert(keys@ =~= trace_keys(self@.traces).subrange(0, i as int));
                assert(mask@ =~= trace_mask(self@.traces, cluster_id).subrange(0, i as int));
            }
        }
        proof {
            assert(keys@ =~= trace_keys(self@.traces));
            assert(mask@ =~= trace_mask(self@.traces, cluster_id));
        }
        let picked = newest_first_indices(&keys, &mask, limit as u64);
        let mut r: Vec<Trace> = Vec::new();
        let mut k: usize = 0;
        while k < picked.len()
            invariant
                n == self.traces.len(),
                is_newest_first(trace_keys(self@.traces), trace_mask(self@.traces, cluster_id), limit as nat, picked@),
                k <= picked.len(),
                r@ == picked@.subrange(0, k as int).map_values(|p: usize| self@.traces[p as int]),
            decreases picked.len() - k,
        {
            let row = self.traces[picked[k]].duplicate();
            r.push(row);
            k = k + 1;
            proof {
                assert(r@ =~= picked@.subrange(0, k as int).map_values(|p: usize| self@.traces[p as int]));
            }
        }
        proof {
            assert(picked@.subrange(0, picked.len() as int) =~= picked@);
        }
        Ok(r)
    }

    /// Up to `limit` executions, the latest started first; with `cluster_id`,
    /// only those of that cluster. A negative `limit` is refused.
    pub fn get_command_executions(&self, cluster_id: Option<u128>, limit: i64) -> (r: Result<
        Vec<CommandExecution>,
        StoreError,
    >)
        ensures
            r is Err <==> limit < 0,
            r is Err ==> r == Err::<Vec<CommandExecution>, StoreError>(StoreError::InvalidLimit),
            r is Ok ==> lists_executions(self@.executions, cluster_id, limit as nat, r->Ok_0@),
    {
        if limit < 0 {
            return Err(StoreError::InvalidLimit);
        }
        let n = self.executions.len();
        let mut keys: Vec<i64> = Vec::new();
        let mut mask: Vec<bool> = Vec::new();
        let mut i: usize = 0;
        while i < n
            invariant
                n == self.executions.len(),
                i <= n,
                keys@ == execution_keys(self@.executions).subrange(0, i as int),
                mask@ == execution_mask(self@.executions, cluster_id).subrange(0, i as int),
            decreases n - i,
        {
            let row = &self.executions[i];
            keys.push(row.start_time);
            let wanted = match cluster_id {
                None => true,
                Some(c) => row.cluster_id == Some(c),
            };
            mask.push(wanted);
            i = i + 1;
            proof {
                assert(keys@ =~= execution_keys(self@.executions).subrange(0, i as int));
                assert(mask@ =~= execution_mask(self@.executions, cluster_id).subrange(0, i as int));
            }
        }
        proof {
            assert(keys@ =~= execution_keys(self@.executions));
            assert(mask@ =~= execution_mask(self@.executions, cluster_id));
        }
        let picked = newest_first_indices(&keys, &mask, limit as u64);
        let mut r: Vec<CommandExecution> = Vec::new();
        let mut k: usize = 0;
        while k < picked.len()
            invariant
                n == self.executions.len(),
                is_newest_first(execution_keys(self@.executions), execution_mask(self@.executions, cluster_id), limit as nat, picked@),
                k <= picked.len(),
                r@ == picked@.subrange(0, k as int).map_values(|p: usize| self@.executions[p as int]),
            decreases picked.len() - k,
        {
            let row = self.executions[picked[k]].duplicate();
            r.push(row);
            k = k + 1;
            proof {
                assert(r@ =~= picked@.subrange(0, k as int).map_values(|p: usize| self@.executions[p as int]));
            }
        }
        proof {
            assert(picked@.subrange(0, picked.len() as int) =~= picked@);
        }
        Ok(r)
    }
}

} // verus!
