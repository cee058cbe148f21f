//! A worker's state and the commands that change it.

use vstd::prelude::*;
use crate::frontier::{Timestamp, frontier_advanced, frontier_le, peek_ready};
use crate::peek::{
    Arrangement, Diff, PendingPeek, RowSetFinishing, collect_finished_data, compacted_from,
    counts_nonnegative, finished, rows_view, snapshot,
};
use crate::row::Row;

verus! {

/// An arranged trace published under a view name.
pub struct NamedTrace {
    pub name: String,
    pub trace: Arrangement,
}

/// A source fed through this worker, with the time of its capability: updates
/// may be given at that time or later.
pub struct LocalInput {
    pub name: String,
    pub capability: Timestamp,
}

/// One update for a local input.
pub struct Update {
    pub row: Row,
    pub timestamp: Timestamp,
    pub diff: Diff,
}

/// What a dataflow declares: the views it publishes, the local inputs it
/// reads from, and the sinks it writes to.
pub struct DataflowDesc {
    pub views: Vec<String>,
    pub local_inputs: Vec<String>,
    pub sinks: Vec<String>,
}

/// An event the worker logs about itself.
pub enum MaterializedEvent {
    /// A view was created (`true`) or dropped (`false`).
    Dataflow(String, bool),
    /// A peek on `name` at `timestamp` for `conn_id` started (`true`) or
    /// was retired (`false`).
    Peek { name: String, timestamp: Timestamp, conn_id: u32, started: bool },
}

/// The answer to a peek.
pub enum PeekResponse {
    Rows(Vec<Row>),
    Canceled,
    /// Reserved for failures reported to the peek's originator.
    Error(String),
}

/// The pending peeks with connection `conn_id`.
pub open spec fn of_conn(conn_id: u32) -> spec_fn(PendingPeek) -> bool {
    |p: PendingPeek| p.conn_id == conn_id
}

/// The pending peeks with another connection than `conn_id`.
pub open spec fn not_of_conn(conn_id: u32) -> spec_fn(PendingPeek) -> bool {
    |p: PendingPeek| p.conn_id != conn_id
}

/// Instructions for a worker, in the order every worker receives them.
pub enum SequencedCommand {
    /// Install a sequence of dataflows.
    CreateDataflows(Vec<DataflowDesc>),
    /// Drop the local inputs bound to these names.
    DropSources(Vec<String>),
    /// Drop the views bound to these names.
    DropViews(Vec<String>),
    /// Drop the sinks bound to these names.
    DropSinks(Vec<String>),
    /// Read a view at a timestamp.
    Peek { name: String, conn_id: u32, timestamp: Timestamp, finishing: RowSetFinishing },
    /// Cancel the peeks of a connection.
    CancelPeek { conn_id: u32 },
    /// Insert updates into a local input.
    Insert { name: String, updates: Vec<Update> },
    /// Advance the capability of a local input.
    AdvanceTime { name: String, to: Timestamp },
    /// Let views compact up to a frontier.
    AllowCompaction(Vec<(String, Vec<Timestamp>)>),
    /// Append an event to the self-log.
    AppendLog(MaterializedEvent),
    /// Start reporting progress.
    EnableFeedback,
    /// Drop every trace, stop self-logging, and stop.
    Shutdown,
}

/// What the caller of `handle_command` is left to do.
pub enum CommandEffect {
    Nothing,
    /// Answer each of these peeks `Canceled`.
    Canceled(Vec<PendingPeek>),
    /// Give these updates to the local input `name` at time `at`.
    Give { name: String, at: Timestamp, updates: Vec<Update> },
    /// Install the feedback sink (`true`), or drop the offered one (`false`).
    Feedback(bool),
}

/// The view names of a sequence of dataflows, in order.
pub open spec fn all_views(descs: Seq<DataflowDesc>) -> Seq<Seq<char>>
    decreases descs.len(),
{
    if descs.len() == 0 {
        Seq::empty()
    } else {
        string_views(descs[0].views@) + all_views(descs.drop_first())
    }
}

/// The local input names of a sequence of dataflows, in order.
pub open spec fn all_inputs(descs: Seq<DataflowDesc>) -> Seq<Seq<char>>
    decreases descs.len(),
{
    if descs.len() == 0 {
        Seq::empty()
    } else {
        string_views(descs[0].local_inputs@) + all_inputs(descs.drop_first())
    }
}

/// The sink names of a sequence of dataflows, in order.
pub open spec fn all_sinks(descs: Seq<DataflowDesc>) -> Seq<Seq<char>>
    decreases descs.len(),
{
    if descs.len() == 0 {
        Seq::empty()
    } else {
        string_views(descs[0].sinks@) + all_sinks(descs.drop_first())
    }
}

/// Names fresh as a whole are fresh in two parts, the second against the
/// existing names and the first part together.
proof fn lemma_fresh_split(existing: Seq<Seq<char>>, a: Seq<Seq<char>>, b: Seq<Seq<char>>)
    requires
        fresh(existing, a + b),
    ensures
        fresh(existing, a),
        fresh(existing + a, b),
{
    let ab = a + b;
    assert forall|i: int, j: int| 0 <= i < j < a.len() implies a[i] != a[j] by {
        assert(ab[i] == a[i] && ab[j] == a[j]);
    }
    assert forall|i: int| 0 <= i < a.len() implies !existing.contains(#[trigger] a[i]) by {
        assert(ab[i] == a[i]);
    }
    assert forall|i: int, j: int| 0 <= i < j < b.len() implies b[i] != b[j] by {
        assert(ab[a.len() + i] == b[i] && ab[a.len() + j] == b[j]);
    }
    assert forall|i: int| 0 <= i < b.len() implies !(existing + a).contains(#[trigger] b[i]) by {
        assert(ab[a.len() + i] == b[i]);
        assert(!existing.contains(ab[a.len() + i]));
        if (existing + a).contains(b[i]) {
            let j = choose|j: int| 0 <= j < (existing + a).len() && (existing + a)[j] == b[i];
            if j >= existing.len() {
                assert(ab[j - existing.len()] == b[i]);
            } else {
                assert(existing[j] == b[i]);
            }
        }
    }
}

/// Permits broadcasting commands to the workers.
pub struct BroadcastToken;

impl BroadcastToken {
    /// Broadcasts are looped back, so that the workers in the coordinator's own
    /// process see them too.
    pub fn loopback(&self) -> (r: bool)
        ensures
            r,
    {
        true
    }
}

/// Information from a worker.
pub enum WorkerFeedback {
    /// The upper frontier of each trace, by name.
    FrontierUppers(Vec<(String, Vec<Timestamp>)>),
}

/// Feedback tagged with the worker that sent it.
pub struct WorkerFeedbackWithMeta {
    pub worker_id: usize,
    pub message: WorkerFeedback,
}

/// The names in a sequence are pairwise distinct.
pub open spec fn distinct(names: Seq<Seq<char>>) -> bool {
    forall|i: int, j: int| 0 <= i < j < names.len() ==> names[i] != names[j]
}

/// Position of `name` in `names`, where it occurs.
pub open spec fn index_of(names: Seq<Seq<char>>, name: Seq<char>) -> int {
    choose|i: int| 0 <= i < names.len() && names[i] == name
}

pub open spec fn trace_names(ts: Seq<NamedTrace>) -> Seq<Seq<char>> {
    ts.map_values(|t: NamedTrace| t.name@)
}

pub open spec fn input_names(ins: Seq<LocalInput>) -> Seq<Seq<char>> {
    ins.map_values(|l: LocalInput| l.name@)
}

pub open spec fn string_views(ss: Seq<String>) -> Seq<Seq<char>> {
    ss.map_values(|s: String| s@)
}

/// With distinct names, the position at which a name was found is its only one.
proof fn lemma_index_of_distinct(names: Seq<Seq<char>>, i: int)
    requires
        distinct(names),
        0 <= i < names.len(),
    ensures
        index_of(names, names[i]) == i,
{
    let j = index_of(names, names[i]);
    assert(0 <= j < names.len() && names[j] == names[i]);
}

/// Removing an entry keeps names distinct.
proof fn lemma_distinct_remove(names: Seq<Seq<char>>, i: int)
    requires
        distinct(names),
        0 <= i < names.len(),
    ensures
        distinct(names.remove(i)),
{
    let r = names.remove(i);
    assert forall|a: int, b: int| 0 <= a < b < r.len() implies r[a] != r[b] by {
        let a0 = if a < i { a } else { a + 1 };
        let b0 = if b < i { b } else { b + 1 };
        assert(r[a] == names[a0] && r[b] == names[b0]);
    }
}

/// Where a name stands among the traces.
fn find_trace(traces: &Vec<NamedTrace>, name: &String) -> (r: Option<usize>)
    ensures
        match r {
            Some(i) => i < traces@.len() && traces@[i as int].name@ == name@,
            None => !trace_names(traces@).contains(name@),
        },
{
    let mut i: usize = 0;
    while i < traces.len()
        invariant
            i <= traces@.len(),
            forall|k: int| 0 <= k < i ==> traces@[k].name@ != name@,
        decreases traces@.len() - i,
    {
        if traces[i].name == *name {
            return Some(i);
        }
        i = i + 1;
    }
    assert forall|k: int| 0 <= k < trace_names(traces@).len() implies trace_names(traces@)[k]
        != name@ by {
        assert(trace_names(traces@)[k] == traces@[k].name@);
    }
    None
}

/// Where a name stands among the local inputs.
fn find_input(inputs: &Vec<LocalInput>, name: &String) -> (r: Option<usize>)
    ensures
        match r {
            Some(i) => i < inputs@.len() && inputs@[i as int].name@ == name@,
            None => !input_names(inputs@).contains(name@),
        },
{
    let mut i: usize = 0;
    while i < inputs.len()
        invariant
            i <= inputs@.len(),
            forall|k: int| 0 <= k < i ==> inputs@[k].name@ != name@,
        decreases inputs@.len() - i,
    {
        if inputs[i].name == *name {
            return Some(i);
        }
        i = i + 1;
    }
    assert forall|k: int| 0 <= k < input_names(inputs@).len() implies input_names(inputs@)[k]
        != name@ by {
        assert(input_names(inputs@)[k] == inputs@[k].name@);
    }
    None
}

/// Where a name stands among the sink names.
fn find_name(names: &Vec<String>, name: &String) -> (r: Option<usize>)
    ensures
        match r {
            Some(i) => i < names@.len() && names@[i as int]@ == name@,
            None => !string_views(names@).contains(name@),
        },
{
    let mut i: usize = 0;
    while i < names.len()
        invariant
            i <= names@.len(),
            forall|k: int| 0 <= k < i ==> names@[k]@ != name@,
        decreases names@.len() - i,
    {
        if names[i] == *name {
            return Some(i);
        }
        i = i + 1;
    }
    assert forall|k: int| 0 <= k < string_views(names@).len() implies string_views(names@)[k]
        != name@ by {
        assert(string_views(names@)[k] == names@[k]@);
    }
    None
}

/// With distinct names, removing the entry at `i` removes exactly its name.
proof fn lemma_remove_contains(names: Seq<Seq<char>>, i: int)
    requires
        distinct(names),
        0 <= i < names.len(),
    ensures
        forall|n: Seq<char>|
            #[trigger] names.remove(i).contains(n) <==> names.contains(n) && n != names[i],
{
    let r = names.remove(i);
    assert forall|n: Seq<char>| #[trigger] r.contains(n) <==> names.contains(n) && n != names[i] by {
        if r.contains(n) {
            let k = choose|k: int| 0 <= k < r.len() && r[k] == n;
            let k0 = if k < i { k } else { k + 1 };
            assert(names[k0] == n);
        }
        if names.contains(n) && n != names[i] {
            let k = choose|k: int| 0 <= k < names.len() && names[k] == n;
            if k < i {
                assert(r[k] == n);
            } else {
                assert(r[k - 1] == n);
            }
        }
    }
}

/// `after` holds exactly the names of `before` that are not in `dropped`.
pub open spec fn names_dropped(
    before: Seq<Seq<char>>,
    after: Seq<Seq<char>>,
    dropped: Seq<Seq<char>>,
) -> bool {
    forall|n: Seq<char>| #[trigger] after.contains(n) <==> before.contains(n) && !dropped.contains(n)
}

/// `new` names distinct things, none of which is in `existing`.
pub open spec fn fresh(existing: Seq<Seq<char>>, new: Seq<Seq<char>>) -> bool {
    &&& distinct(new)
    &&& forall|i: int| 0 <= i < new.len() ==> !existing.contains(#[trigger] new[i])
}

/// Appending a fresh name keeps names distinct.
proof fn lemma_distinct_push(names: Seq<Seq<char>>, n: Seq<char>)
    requires
        distinct(names),
        !names.contains(n),
    ensures
        distinct(names.push(n)),
{
    let r = names.push(n);
    assert forall|a: int, b: int| 0 <= a < b < r.len() implies r[a] != r[b] by {
        if b == names.len() {
            assert(names[a] == r[a]);
        }
    }
}

/// A name of a fresh sequence is in neither the existing names nor the part of
/// the sequence before it.
proof fn lemma_fresh_step(existing: Seq<Seq<char>>, new: Seq<Seq<char>>, k: int)
    requires
        fresh(existing, new),
        0 <= k < new.len(),
    ensures
        !(existing + new.subrange(0, k)).contains(new[k]),
        (existing + new.subrange(0, k)).push(new[k]) =~= existing + new.subrange(0, k + 1),
{
    let c = existing + new.subrange(0, k);
    if c.contains(new[k]) {
        let j = choose|j: int| 0 <= j < c.len() && c[j] == new[k];
        if j < existing.len() {
            assert(existing[j] == new[k]);
        } else {
            assert(new[j - existing.len()] == new[k]);
        }
    }
}

/// One worker's state.
pub struct Worker {
    /// This worker's position among its peers.
    pub index: usize,
    /// Arranged traces by view name.
    pub traces: Vec<NamedTrace>,
    /// Local inputs by source name.
    pub local_inputs: Vec<LocalInput>,
    /// Names of the sinks this worker runs.
    pub sink_tokens: Vec<String>,
    /// Peeks waiting for their traces, in the order they came.
    pub pending_peeks: Vec<PendingPeek>,
    /// A feedback sink is installed.
    pub feedback_enabled: bool,
    /// Self-logging is on.
    pub logging: bool,
    /// Self-log events not yet handed to the logger.
    pub events: Vec<MaterializedEvent>,
    /// Shutdown has been processed.
    pub shutdown: bool,
}

/// `events` after logging `e`: it is kept only where logging is on.
pub open spec fn logged(
    events: Seq<MaterializedEvent>,
    logging: bool,
    e: MaterializedEvent,
) -> Seq<MaterializedEvent> {
    if logging {
        events.push(e)
    } else {
        events
    }
}

/// `after` has the traces of `before` followed by an empty trace, final at no
/// time yet, for each view of `desc`, and has logged each view as created.
pub open spec fn views_created(before: Worker, after: Worker, desc: DataflowDesc) -> bool {
    &&& trace_names(after.traces@) == trace_names(before.traces@) + string_views(desc.views@)
    &&& after.traces@.subrange(0, before.traces@.len() as int) == before.traces@
    &&& forall|i: int|
        before.traces@.len() <= i < after.traces@.len() ==> (#[trigger] after.traces@[i]).trace.rows@.len()
            == 0 && after.traces@[i].trace.upper@ == seq![0u64]
    &&& after.events@ == before.events@ + if before.logging {
        desc.views@.map_values(|v: String| MaterializedEvent::Dataflow(v, true))
    } else {
        Seq::empty()
    }
}

/// `after` has the local inputs of `before` followed by one for each local
/// source of `desc`, with its capability at time 0.
pub open spec fn inputs_created(before: Worker, after: Worker, desc: DataflowDesc) -> bool {
    &&& input_names(after.local_inputs@) == input_names(before.local_inputs@) + string_views(
        desc.local_inputs@,
    )
    &&& after.local_inputs@.subrange(0, before.local_inputs@.len() as int)
        == before.local_inputs@
    &&& forall|i: int|
        before.local_inputs@.len() <= i < after.local_inputs@.len() ==> (
        #[trigger] after.local_inputs@[i]).capability == 0
}

/// The trace published under `name`.
pub open spec fn trace_of(traces: Seq<NamedTrace>, name: Seq<char>) -> Arrangement {
    traces[index_of(trace_names(traces), name)].trace
}

/// A pending peek is ready when its view is installed and the view's upper
/// frontier has passed its timestamp.
pub open spec fn is_ready(traces: Seq<NamedTrace>) -> spec_fn(PendingPeek) -> bool {
    |p: PendingPeek|
        trace_names(traces).contains(p.name@) && !frontier_le(
            trace_of(traces, p.name@).upper@,
            p.timestamp,
        )
}

pub open spec fn not_ready(traces: Seq<NamedTrace>) -> spec_fn(PendingPeek) -> bool {
    |p: PendingPeek| !is_ready(traces)(p)
}

/// No ready peek would read a negative count; a peek that is not ready yet
/// may still see counts that later updates bring back up.
pub open spec fn peeks_readable(w: Worker) -> bool {
    forall|i: int|
        0 <= i < w.pending_peeks@.len() && #[trigger] is_ready(w.traces@)(w.pending_peeks@[i])
            ==> counts_nonnegative(
            trace_of(w.traces@, w.pending_peeks@[i].name@).rows@,
            w.pending_peeks@[i].finishing.filter@,
            w.pending_peeks@[i].timestamp,
        )
}

/// The event logged when `p` is retired, answered or canceled.
pub open spec fn retired_event(p: PendingPeek) -> MaterializedEvent {
    MaterializedEvent::Peek {
        name: p.name,
        timestamp: p.timestamp,
        conn_id: p.conn_id,
        started: false,
    }
}

/// The retirement events of `ps`, in order.
pub open spec fn retired_events(ps: Seq<PendingPeek>) -> Seq<MaterializedEvent> {
    ps.map_values(|p: PendingPeek| retired_event(p))
}

/// `events` after logging the retirement of `ps`, where logging is on.
pub open spec fn logged_retired(
    events: Seq<MaterializedEvent>,
    logging: bool,
    ps: Seq<PendingPeek>,
) -> Seq<MaterializedEvent> {
    if logging {
        events + retired_events(ps)
    } else {
        events
    }
}

/// `rows` is what `p` returns from `traces`.
pub open spec fn answers(traces: Seq<NamedTrace>, p: PendingPeek, rows: Seq<Row>) -> bool {
    finished(
        snapshot(trace_of(traces, p.name@).rows@, p.finishing.filter@, p.timestamp),
        rows_view(rows),
        p.finishing,
    )
}

/// A copy of a list of times.
pub fn copy_times(times: &Vec<Timestamp>) -> (r: Vec<Timestamp>)
    ensures
        r@ == times@,
{
    let mut r: Vec<Timestamp> = Vec::new();
    let mut i: usize = 0;
    while i < times.len()
        invariant
            i <= times@.len(),
            r@ == times@.subrange(0, i as int),
        decreases times@.len() - i,
    {
        r.push(times[i]);
        i = i + 1;
    }
    assert(r@ =~= times@);
    r
}

/// What a command asks of the state it meets: new names are new, a peek
/// reads an installed view, updates come no earlier than their input's
/// capability, and a capability only moves forward.
pub open spec fn command_allowed(w: Worker, cmd: SequencedCommand) -> bool {
    match cmd {
        SequencedCommand::CreateDataflows(descs) => {
            &&& fresh(trace_names(w.traces@), all_views(descs@))
            &&& fresh(input_names(w.local_inputs@), all_inputs(descs@))
            &&& fresh(string_views(w.sink_tokens@), all_sinks(descs@))
        },
        SequencedCommand::Peek { name, .. } => trace_names(w.traces@).contains(name@),
        SequencedCommand::Insert { name, updates } => forall|i: int|
            0 <= i < w.local_inputs@.len() && w.local_inputs@[i].name@ == name@ ==> forall|k: int|
                0 <= k < updates@.len() ==> #[trigger] updates@[k].timestamp
                    >= w.local_inputs@[i].capability,
        SequencedCommand::AdvanceTime { name, to } => forall|i: int|
            0 <= i < w.local_inputs@.len() && w.local_inputs@[i].name@ == name@
                ==> w.local_inputs@[i].capability <= to,
        _ => true,
    }
}

/// `r` is the progress report of `traces`, as `Worker::frontier_uppers` gives it.
pub open spec fn reports(r: Seq<(String, Vec<Timestamp>)>, traces: Seq<NamedTrace>) -> bool {
    &&& r.len() == traces.len()
    &&& forall|i: int|
        0 <= i < r.len() ==> (#[trigger] r[i]).0@ == traces[i].name@ && r[i].1@
            == traces[i].trace.upper@
}

/// Successive progress reports do not retreat: where the upper frontier of each
/// trace has not retreated between two reports, the entry of each name in the
/// later report has not retreated from its entry in the earlier one.
pub proof fn lemma_feedback_monotone(
    r1: Seq<(String, Vec<Timestamp>)>,
    t1: Seq<NamedTrace>,
    r2: Seq<(String, Vec<Timestamp>)>,
    t2: Seq<NamedTrace>,
    i: int,
    j: int,
)
    requires
        reports(r1, t1),
        reports(r2, t2),
        0 <= i < r1.len(),
        0 <= j < r2.len(),
        r1[i].0@ == r2[j].0@,
        forall|a: int, b: int|
            0 <= a < t1.len() && 0 <= b < t2.len() && #[trigger] t1[a].name@ == #[trigger] t2[b].name@
                ==> frontier_advanced(t1[a].trace.upper@, t2[b].trace.upper@),
    ensures
        frontier_advanced(r1[i].1@, r2[j].1@),
{
    assert(t1[i].name@ == t2[j].name@);
}

/// Without a limit the answer to a peek is determined: two answers of the same
/// peek on the same traces are the same rows in the same order.
pub proof fn lemma_answers_agree(traces: Seq<NamedTrace>, p: PendingPeek, a: Seq<Row>, b: Seq<Row>)
    requires
        p.finishing.limit.is_none(),
        answers(traces, p, a),
        answers(traces, p, b),
    ensures
        rows_view(a) == rows_view(b),
{
}

/// With a limit the answers of a peek agree in size, and each is drawn from
/// the same bag.
pub proof fn lemma_limited_answers_agree(
    traces: Seq<NamedTrace>,
    p: PendingPeek,
    a: Seq<Row>,
    b: Seq<Row>,
)
    requires
        answers(traces, p, a),
        answers(traces, p, b),
    ensures
        rows_view(a).len() == rows_view(b).len(),
        rows_view(a).to_multiset().subset_of(
            snapshot(trace_of(traces, p.name@).rows@, p.finishing.filter@, p.timestamp).to_multiset(),
        ),
{
    broadcast use vstd::seq_lib::group_to_multiset_ensures;
    let full = snapshot(trace_of(traces, p.name@).rows@, p.finishing.filter@, p.timestamp);
    if !(p.finishing.limit.is_some() && full.len() > p.finishing.limit.unwrap() + p.finishing.offset) {
        assert(rows_view(a) == full);
    }
}

/// The events of dropping views `names` one after the other from views
/// `installed`: one `Dataflow(n, false)` for each name that is installed at its
/// turn.
pub open spec fn drop_events(installed: Seq<Seq<char>>, names: Seq<String>) -> Seq<MaterializedEvent>
    decreases names.len(),
{
    if names.len() == 0 {
        Seq::empty()
    } else {
        let n = names.last();
        let earlier = names.drop_last();
        drop_events(installed, earlier) + if installed.contains(n@) && !string_views(
            earlier,
        ).contains(n@) {
            seq![MaterializedEvent::Dataflow(n, false)]
        } else {
            Seq::empty()
        }
    }
}

/// The creation events of a sequence of dataflows: one per view, in order.
pub open spec fn created_events(descs: Seq<DataflowDesc>) -> Seq<MaterializedEvent>
    decreases descs.len(),
{
    if descs.len() == 0 {
        Seq::empty()
    } else {
        descs[0].views@.map_values(|v: String| MaterializedEvent::Dataflow(v, true))
            + created_events(descs.drop_first())
    }
}

/// `after` keeps the entries of `before` as its prefix and adds only empty
/// traces, final at no time yet, and local inputs with their capability at 0.
pub open spec fn only_new_entries(before: Worker, after: Worker) -> bool {
    &&& after.traces@.len() >= before.traces@.len()
    &&& after.traces@.subrange(0, before.traces@.len() as int) == before.traces@
    &&& forall|i: int|
        before.traces@.len() <= i < after.traces@.len() ==> (#[trigger] after.traces@[i]).trace.rows@.len()
            == 0 && after.traces@[i].trace.upper@ == seq![0u64]
    &&& after.local_inputs@.len() >= before.local_inputs@.len()
    &&& after.local_inputs@.subrange(0, before.local_inputs@.len() as int) == before.local_inputs@
    &&& forall|i: int|
        before.local_inputs@.len() <= i < after.local_inputs@.len() ==> (
        #[trigger] after.local_inputs@[i]).capability == 0
}

impl Worker {
    /// Names are unique in each registry.
    pub open spec fn wf(&self) -> bool {
        &&& distinct(trace_names(self.traces@))
        &&& distinct(input_names(self.local_inputs@))
        &&& distinct(string_views(self.sink_tokens@))
    }

    /// A worker with nothing installed.
    pub fn new(index: usize, logging: bool) -> (w: Worker)
        ensures
            w.wf(),
            w.index == index,
            w.logging == logging,
            w.traces@.len() == 0,
            w.local_inputs@.len() == 0,
            w.sink_tokens@.len() == 0,
            w.pending_peeks@.len() == 0,
            w.events@.len() == 0,
            !w.feedback_enabled,
            !w.shutdown,
    {
        Worker {
            index,
            traces: Vec::new(),
            local_inputs: Vec::new(),
            sink_tokens: Vec::new(),
            pending_peeks: Vec::new(),
            feedback_enabled: false,
            logging,
            events: Vec::new(),
            shutdown: false,
        }
    }

    /// Drops the views named in `names`; each one found is logged as dropped.
    /// Names not installed are passed over.
    pub fn drop_views(&mut self, names: &Vec<String>)
        requires
            old(self).wf(),
        ensures
            final(self).wf(),
            names_dropped(
                trace_names(old(self).traces@),
                trace_names(final(self).traces@),
                string_views(names@),
            ),
            forall|i: int|
                0 <= i < final(self).traces@.len() ==> old(self).traces@.contains(
                    #[trigger] final(self).traces@[i],
                ),
            final(self).local_inputs == old(self).local_inputs,
            final(self).sink_tokens == old(self).sink_tokens,
            final(self).pending_peeks == old(self).pending_peeks,
            final(self).events@ == old(self).events@ + if old(self).logging {
                drop_events(trace_names(old(self).traces@), names@)
            } else {
                Seq::empty()
            },
            final(self).index == old(self).index,
            final(self).logging == old(self).logging,
            final(self).feedback_enabled == old(self).feedback_enabled,
            final(self).shutdown == old(self).shutdown,
    {
        let mut k: usize = 0;
        while k < names.len()
            invariant
                k <= names@.len(),
                self.wf(),
                names_dropped(
                    trace_names(old(self).traces@),
                    trace_names(self.traces@),
                    string_views(names@.subrange(0, k as int)),
                ),
                forall|i: int|
                    0 <= i < self.traces@.len() ==> old(self).traces@.contains(
                        #[trigger] self.traces@[i],
                    ),
                self.local_inputs == old(self).local_inputs,
                self.sink_tokens == old(self).sink_tokens,
                self.pending_peeks == old(self).pending_peeks,
                self.events@ == old(self).events@ + if old(self).logging {
                    drop_events(trace_names(old(self).traces@), names@.subrange(0, k as int))
                } else {
                    Seq::empty()
                },
                self.index == old(self).index,
                self.logging == old(self).logging,
                self.feedback_enabled == old(self).feedback_enabled,
                self.shutdown == old(self).shutdown,
            decreases names@.len() - k,
        {
            let ghost before = self.traces@;
            let ghost prefix = string_views(names@.subrange(0, k as int));
            let ghost next = string_views(names@.subrange(0, k + 1));
            assert(next =~= prefix.push(names@[k as int]@));
            assert forall|n: Seq<char>| #[trigger] next.contains(n) <==> prefix.contains(n) || n
                == names@[k as int]@ by {
                if next.contains(n) {
                    let j = choose|j: int| 0 <= j < next.len() && next[j] == n;
                    if j < prefix.len() {
                        assert(prefix[j] == n);
                    }
                }
                if prefix.contains(n) {
                    let j = choose|j: int| 0 <= j < prefix.len() && prefix[j] == n;
                    assert(next[j] == n);
                }
                if n == names@[k as int]@ {
                    assert(next[prefix.len() as int] == n);
                }
            }
            let ghost ev_before = self.events@;
            proof {
                let sub = names@.subrange(0, k + 1);
                assert(sub.drop_last() =~= names@.subrange(0, k as int));
                assert(sub.last() == names@[k as int]);
            }
            match find_trace(&self.traces, &names[k]) {
                Some(i) => {
                    proof {
                        assert(trace_names(before)[i as int] == before[i as int].name@);
                        assert(trace_names(before).contains(names@[k as int]@));
                        lemma_remove_contains(trace_names(before), i as int);
                        lemma_distinct_remove(trace_names(before), i as int);
                        assert(trace_names(before).remove(i as int) =~= trace_names(
                            before.remove(i as int),
                        ));
                    }
                    self.traces.remove(i);
                    assert forall|j: int|
                        0 <= j < self.traces@.len() implies old(self).traces@.contains(
                        #[trigger] self.traces@[j],
                    ) by {
                        let j0 = if j < i { j } else { j + 1 };
                        assert(self.traces@[j] == before[j0]);
                    }
                    if self.logging {
                        self.events.push(MaterializedEvent::Dataflow(names[k].clone(), false));
                    }
                },
                None => {},
            }
            proof {
                let n = names@[k as int];
                let found = trace_names(before).contains(n@);
                assert(found == (trace_names(old(self).traces@).contains(n@) && !prefix.contains(n@)));
                assert(string_views(names@.subrange(0, k as int)) == prefix);
                assert(drop_events(trace_names(old(self).traces@), names@.subrange(0, k + 1))
                    == drop_events(trace_names(old(self).traces@), names@.subrange(0, k as int))
                    + if found {
                    seq![MaterializedEvent::Dataflow(n, false)]
                } else {
                    Seq::<MaterializedEvent>::empty()
                });
                if self.logging {
                    assert(self.events@ =~= old(self).events@ + drop_events(
                        trace_names(old(self).traces@),
                        names@.subrange(0, k + 1),
                    ));
                } else {
                    assert(self.events@ =~= old(self).events@ + Seq::<MaterializedEvent>::empty());
                }
            }
            k = k + 1;
        }
        assert(names@.subrange(0, k as int) =~= names@);
    }

    /// Drops the local inputs named in `names`; names not installed are passed over.
    pub fn drop_sources(&mut self, names: &Vec<String>)
        requires
            old(self).wf(),
        ensures
            final(self).wf(),
            names_dropped(
                input_names(old(self).local_inputs@),
                input_names(final(self).local_inputs@),
                string_views(names@),
            ),
            forall|i: int|
                0 <= i < final(self).local_inputs@.len() ==> old(self).local_inputs@.contains(
                    #[trigger] final(self).local_inputs@[i],
                ),
            final(self).traces == old(self).traces,
            final(self).sink_tokens == old(self).sink_tokens,
            final(self).pending_peeks == old(self).pending_peeks,
            final(self).events == old(self).events,
            final(self).index == old(self).index,
            final(self).logging == old(self).logging,
            final(self).feedback_enabled == old(self).feedback_enabled,
            final(self).shutdown == old(self).shutdown,
    {
        let mut k: usize = 0;
        while k < names.len()
            invariant
                k <= names@.len(),
                self.wf(),
                names_dropped(
                    input_names(old(self).local_inputs@),
                    input_names(self.local_inputs@),
                    string_views(names@.subrange(0, k as int)),
                ),
                forall|i: int|
                    0 <= i < self.local_inputs@.len() ==> old(self).local_inputs@.contains(
                        #[trigger] self.local_inputs@[i],
                    ),
                self.traces == old(self).traces,
                self.sink_tokens == old(self).sink_tokens,
                self.pending_peeks == old(self).pending_peeks,
                self.events == old(self).events,
                self.index == old(self).index,
                self.logging == old(self).logging,
                self.feedback_enabled == old(self).feedback_enabled,
                self.shutdown == old(self).shutdown,
            decreases names@.len() - k,
        {
            let ghost before = self.local_inputs@;
            let ghost prefix = string_views(names@.subrange(0, k as int));
            let ghost next = string_views(names@.subrange(0, k + 1));
            assert(next =~= prefix.push(names@[k as int]@));
            assert forall|n: Seq<char>| #[trigger] next.contains(n) <==> prefix.contains(n) || n
                == names@[k as int]@ by {
                if next.contains(n) {
                    let j = choose|j: int| 0 <= j < next.len() && next[j] == n;
                    if j < prefix.len() {
                        assert(prefix[j] == n);
                    }
                }
                if prefix.contains(n) {
                    let j = choose|j: int| 0 <= j < prefix.len() && prefix[j] == n;
                    assert(next[j] == n);
                }
                if n == names@[k as int]@ {
                    assert(next[prefix.len() as int] == n);
                }
            }
            match find_input(&self.local_inputs, &names[k]) {
                Some(i) => {
                    proof {
                        lemma_remove_contains(input_names(before), i as int);
                        lemma_distinct_remove(input_names(before), i as int);
                        assert(input_names(before).remove(i as int) =~= input_names(
                            before.remove(i as int),
                        ));
                    }
                    self.local_inputs.remove(i);
                    assert forall|j: int|
                        0 <= j < self.local_inputs@.len() implies old(self).local_inputs@.contains(
                        #[trigger] self.local_inputs@[j],
                    ) by {
                        let j0 = if j < i { j } else { j + 1 };
                        assert(self.local_inputs@[j] == before[j0]);
                    }
                },
                None => {},
            }
            k = k + 1;
        }
        assert(names@.subrange(0, k as int) =~= names@);
    }

    /// Drops the sinks named in `names`, which ends them; names not installed are
    /// passed over.
    pub fn drop_sinks(&mut self, names: &Vec<String>)
        requires
            old(self).wf(),
        ensures
            final(self).wf(),
            names_dropped(
                string_views(old(self).sink_tokens@),
                string_views(final(self).sink_tokens@),
                string_views(names@),
            ),
            forall|i: int|
                0 <= i < final(self).sink_tokens@.len() ==> old(self).sink_tokens@.contains(
                    #[trigger] final(self).sink_tokens@[i],
                ),
            final(self).local_inputs == old(self).local_inputs,
            final(self).traces == old(self).traces,
            final(self).pending_peeks == old(self).pending_peeks,
            final(self).events == old(self).events,
            final(self).index == old(self).index,
            final(self).logging == old(self).logging,
            final(self).feedback_enabled == old(self).feedback_enabled,
            final(self).shutdown == old(self).shutdown,
    {
        let mut k: usize = 0;
        while k < names.len()
            invariant
                k <= names@.len(),
                self.wf(),
                names_dropped(
                    string_views(old(self).sink_tokens@),
                    string_views(self.sink_tokens@),
                    string_views(names@.subrange(0, k as int)),
                ),
                forall|i: int|
                    0 <= i < self.sink_tokens@.len() ==> old(self).sink_tokens@.contains(
                        #[trigger] self.sink_tokens@[i],
                    ),
                self.local_inputs == old(self).local_inputs,
                self.traces == old(self).traces,
                self.pending_peeks == old(self).pending_peeks,
                self.events == old(self).events,
                self.index == old(self).index,
                self.logging == old(self).logging,
                self.feedback_enabled == old(self).feedback_enabled,
                self.shutdown == old(self).shutdown,
            decreases names@.len() - k,
        {
            let ghost before = self.sink_tokens@;
            let ghost prefix = string_views(names@.subrange(0, k as int));
            let ghost next = string_views(names@.subrange(0, k + 1));
            assert(next =~= prefix.push(names@[k as int]@));
            assert forall|n: Seq<char>| #[trigger] next.contains(n) <==> prefix.contains(n) || n
                == names@[k as int]@ by {
                if next.contains(n) {
                    let j = choose|j: int| 0 <= j < next.len() && next[j] == n;
                    if j < prefix.len() {
                        assert(prefix[j] == n);
                    }
                }
                if prefix.contains(n) {
                    let j = choose|j: int| 0 <= j < prefix.len() && prefix[j] == n;
                    assert(next[j] == n);
                }
                if n == names@[k as int]@ {
                    assert(next[prefix.len() as int] == n);
                }
            }
            match find_name(&self.sink_tokens, &names[k]) {
                Some(i) => {
                    proof {
                        lemma_remove_contains(string_views(before), i as int);
                        lemma_distinct_remove(string_views(before), i as int);
                        assert(string_views(before).remove(i as int) =~= string_views(
                            before.remove(i as int),
                        ));
                    }
                    self.sink_tokens.remove(i);
                    assert forall|j: int|
                        0 <= j < self.sink_tokens@.len() implies old(self).sink_tokens@.contains(
                        #[trigger] self.sink_tokens@[j],
                    ) by {
                        let j0 = if j < i { j } else { j + 1 };
                        assert(self.sink_tokens@[j] == before[j0]);
                    }
                },
                None => {},
            }
            k = k + 1;
        }
        assert(names@.subrange(0, k as int) =~= names@);
    }

    /// Installs what a dataflow declares: an empty trace, not yet final at any
    /// time, for each view (logged as created), a local input with its
    /// capability at time 0 for each local source, and each sink.
    pub fn create_dataflow(&mut self, desc: &DataflowDesc)
        requires
            old(self).wf(),
            fresh(trace_names(old(self).traces@), string_views(desc.views@)),
            fresh(input_names(old(self).local_inputs@), string_views(desc.local_inputs@)),
            fresh(string_views(old(self).sink_tokens@), string_views(desc.sinks@)),
        ensures
            final(self).wf(),
            views_created(*old(self), *final(self), *desc),
            inputs_created(*old(self), *final(self), *desc),
            string_views(final(self).sink_tokens@) == string_views(old(self).sink_tokens@)
                + string_views(desc.sinks@),
            final(self).pending_peeks == old(self).pending_peeks,
            final(self).index == old(self).index,
            final(self).logging == old(self).logging,
            final(self).feedback_enabled == old(self).feedback_enabled,
            final(self).shutdown == old(self).shutdown,
    {
        let ghost ev = if self.logging {
            desc.views@.map_values(|v: String| MaterializedEvent::Dataflow(v, true))
        } else {
            Seq::empty()
        };
        let mut k: usize = 0;
        while k < desc.views.len()
            invariant
                k <= desc.views@.len(),
                distinct(trace_names(self.traces@)),
                fresh(trace_names(old(self).traces@), string_views(desc.views@)),
                ev == if old(self).logging {
                    desc.views@.map_values(|v: String| MaterializedEvent::Dataflow(v, true))
                } else {
                    Seq::<MaterializedEvent>::empty()
                },
                trace_names(self.traces@) == trace_names(old(self).traces@) + string_views(
                    desc.views@,
                ).subrange(0, k as int),
                self.traces@.subrange(0, old(self).traces@.len() as int) == old(self).traces@,
                forall|i: int|
                    old(self).traces@.len() <= i < self.traces@.len() ==> (
                    #[trigger] self.traces@[i]).trace.rows@.len() == 0
                        && self.traces@[i].trace.upper@ == seq![0u64],
                self.events@ == old(self).events@ + ev.subrange(0, if old(self).logging {
                    k as int
                } else {
                    0
                }),
                self.local_inputs == old(self).local_inputs,
                self.sink_tokens == old(self).sink_tokens,
                self.pending_peeks == old(self).pending_peeks,
                self.index == old(self).index,
                self.logging == old(self).logging,
                self.feedback_enabled == old(self).feedback_enabled,
                self.shutdown == old(self).shutdown,
            decreases desc.views@.len() - k,
        {
            let ghost before = self.traces@;
            proof {
                lemma_fresh_step(trace_names(old(self).traces@), string_views(desc.views@), k as int);
            }
            let name = desc.views[k].clone();
            if self.logging {
                self.events.push(MaterializedEvent::Dataflow(desc.views[k].clone(), true));
                assert(ev.subrange(0, k + 1) =~= ev.subrange(0, k as int).push(
                    MaterializedEvent::Dataflow(desc.views@[k as int], true),
                ));
            }
            let mut upper: Vec<Timestamp> = Vec::new();
            upper.push(0);
            self.traces.push(NamedTrace { name, trace: Arrangement { rows: Vec::new(), upper } });
            proof {
                assert(trace_names(self.traces@) =~= trace_names(before).push(desc.views@[k as int]@));
                assert(string_views(desc.views@)[k as int] == desc.views@[k as int]@);
                lemma_distinct_push(trace_names(before), desc.views@[k as int]@);
                assert(string_views(desc.views@).subrange(0, k + 1) =~= string_views(
                    desc.views@.subrange(0, k + 1),
                ));
                assert(string_views(desc.views@).subrange(0, k as int) =~= string_views(
                    desc.views@.subrange(0, k as int),
                ));
                assert(self.traces@.subrange(0, old(self).traces@.len() as int) =~= before.subrange(
                    0,
                    old(self).traces@.len() as int,
                ));
                assert(self.traces@[self.traces@.len() - 1].trace.upper@ =~= seq![0u64]);
            }
            k = k + 1;
        }
        assert(string_views(desc.views@).subrange(0, k as int) =~= string_views(desc.views@));
        assert(ev.subrange(0, if old(self).logging { k as int } else { 0 }) =~= ev);
        let mut k: usize = 0;
        while k < desc.local_inputs.len()
            invariant
                k <= desc.local_inputs@.len(),
                distinct(input_names(self.local_inputs@)),
                fresh(input_names(old(self).local_inputs@), string_views(desc.local_inputs@)),
                distinct(trace_names(self.traces@)),
                views_created(*old(self), *self, *desc),
                self.pending_peeks == old(self).pending_peeks,
                self.index == old(self).index,
                self.logging == old(self).logging,
                self.feedback_enabled == old(self).feedback_enabled,
                self.shutdown == old(self).shutdown,
                input_names(self.local_inputs@) == input_names(old(self).local_inputs@)
                    + string_views(desc.local_inputs@).subrange(0, k as int),
                self.local_inputs@.subrange(0, old(self).local_inputs@.len() as int) == old(
                    self,
                ).local_inputs@,
                forall|i: int|
                    old(self).local_inputs@.len() <= i < self.local_inputs@.len() ==> (
                    #[trigger] self.local_inputs@[i]).capability == 0,
                self.sink_tokens == old(self).sink_tokens,
            decreases desc.local_inputs@.len() - k,
        {
            let ghost before = self.local_inputs@;
            proof {
                lemma_fresh_step(
                    input_names(old(self).local_inputs@),
                    string_views(desc.local_inputs@),
                    k as int,
                );
            }
            let name = desc.local_inputs[k].clone();
            self.local_inputs.push(LocalInput { name, capability: 0 });
            proof {
                assert(input_names(self.local_inputs@) =~= input_names(before).push(
                    desc.local_inputs@[k as int]@,
                ));
                assert(string_views(desc.local_inputs@)[k as int] == desc.local_inputs@[k as int]@);
                lemma_distinct_push(input_names(before), desc.local_inputs@[k as int]@);
                assert(string_views(desc.local_inputs@).subrange(0, k + 1) =~= string_views(
                    desc.local_inputs@.subrange(0, k + 1),
                ));
                assert(string_views(desc.local_inputs@).subrange(0, k as int) =~= string_views(
                    desc.local_inputs@.subrange(0, k as int),
                ));
                assert(self.local_inputs@.subrange(0, old(self).local_inputs@.len() as int)
                    =~= before.subrange(0, old(self).local_inputs@.len() as int));
            }
            k = k + 1;
        }
        assert(string_views(desc.local_inputs@).subrange(0, k as int) =~= string_views(
            desc.local_inputs@,
        ));
        let mut k: usize = 0;
        while k < desc.sinks.len()
            invariant
                k <= desc.sinks@.len(),
                distinct(string_views(self.sink_tokens@)),
                fresh(string_views(old(self).sink_tokens@), string_views(desc.sinks@)),
                distinct(trace_names(self.traces@)),
                distinct(input_names(self.local_inputs@)),
                views_created(*old(self), *self, *desc),
                inputs_created(*old(self), *self, *desc),
                self.pending_peeks == old(self).pending_peeks,
                self.index == old(self).index,
                self.logging == old(self).logging,
                self.feedback_enabled == old(self).feedback_enabled,
                self.shutdown == old(self).shutdown,
                string_views(self.sink_tokens@) == string_views(old(self).sink_tokens@)
                    + string_views(desc.sinks@).subrange(0, k as int),
            decreases desc.sinks@.len() - k,
        {
            let ghost before = self.sink_tokens@;
            proof {
                lemma_fresh_step(
                    string_views(old(self).sink_tokens@),
                    string_views(desc.sinks@),
                    k as int,
                );
            }
            let name = desc.sinks[k].clone();
            self.sink_tokens.push(name);
            proof {
                assert(string_views(self.sink_tokens@) =~= string_views(before).push(
                    desc.sinks@[k as int]@,
                ));
                assert(string_views(desc.sinks@)[k as int] == desc.sinks@[k as int]@);
                lemma_distinct_push(string_views(before), desc.sinks@[k as int]@);
                assert(string_views(desc.sinks@).subrange(0, k + 1) =~= string_views(
                    desc.sinks@.subrange(0, k + 1),
                ));
                assert(string_views(desc.sinks@).subrange(0, k as int) =~= string_views(
                    desc.sinks@.subrange(0, k as int),
                ));
            }
            k = k + 1;
        }
        assert(string_views(desc.sinks@).subrange(0, k as int) =~= string_views(desc.sinks@));
    }


    /// Queues a peek on an installed view and logs it as started.
    pub fn peek(&mut self, peek: PendingPeek)
        requires
            trace_names(old(self).traces@).contains(peek.name@),
        ensures
            final(self).pending_peeks@ == old(self).pending_peeks@.push(peek),
            final(self).events@ == logged(
                old(self).events@,
                old(self).logging,
                MaterializedEvent::Peek {
                    name: peek.name,
                    timestamp: peek.timestamp,
                    conn_id: peek.conn_id,
                    started: true,
                },
            ),
            final(self).traces == old(self).traces,
            final(self).local_inputs == old(self).local_inputs,
            final(self).sink_tokens == old(self).sink_tokens,
            final(self).index == old(self).index,
            final(self).logging == old(self).logging,
            final(self).feedback_enabled == old(self).feedback_enabled,
            final(self).shutdown == old(self).shutdown,
    {
        if self.logging {
            self.events.push(
                MaterializedEvent::Peek {
                    name: peek.name.clone(),
                    timestamp: peek.timestamp,
                    conn_id: peek.conn_id,
                    started: true,
                },
            );
        }
        self.pending_peeks.push(peek);
    }

    /// Removes every pending peek of connection `conn_id` and returns them, in
    /// the order they came, each to be answered `Canceled`; each is logged as
    /// retired.
    pub fn cancel_peek(&mut self, conn_id: u32) -> (canceled: Vec<PendingPeek>)
        ensures
            final(self).pending_peeks@ == old(self).pending_peeks@.filter(not_of_conn(conn_id)),
            canceled@ == old(self).pending_peeks@.filter(of_conn(conn_id)),
            final(self).events@ == logged_retired(old(self).events@, old(self).logging, canceled@),
            final(self).traces == old(self).traces,
            final(self).local_inputs == old(self).local_inputs,
            final(self).sink_tokens == old(self).sink_tokens,
            final(self).index == old(self).index,
            final(self).logging == old(self).logging,
            final(self).feedback_enabled == old(self).feedback_enabled,
            final(self).shutdown == old(self).shutdown,
    {
        let mut rest: Vec<PendingPeek> = Vec::new();
        std::mem::swap(&mut rest, &mut self.pending_peeks);
        let ghost all = rest@;
        let mut canceled: Vec<PendingPeek> = Vec::new();
        let mut i: usize = 0;
        let n = rest.len();
        while rest.len() > 0
            invariant
                all == old(self).pending_peeks@,
                all.len() == n,
                i + rest@.len() == all.len(),
                rest@ == all.subrange(i as int, all.len() as int),
                self.pending_peeks@ == all.subrange(0, i as int).filter(not_of_conn(conn_id)),
                canceled@ == all.subrange(0, i as int).filter(of_conn(conn_id)),
                self.events@ == logged_retired(old(self).events@, old(self).logging, canceled@),
                self.traces == old(self).traces,
                self.local_inputs == old(self).local_inputs,
                self.sink_tokens == old(self).sink_tokens,
                self.index == old(self).index,
                self.logging == old(self).logging,
                self.feedback_enabled == old(self).feedback_enabled,
                self.shutdown == old(self).shutdown,
            decreases rest@.len(),
        {
            let p = rest.remove(0);
            assert(p == all[i as int]);
            assert(all.subrange(0, i + 1).drop_last() =~= all.subrange(0, i as int));
            assert(all.subrange(0, i + 1).last() == p);
            proof {
                reveal(Seq::filter);
            }
            assert(rest@ =~= all.subrange(i + 1, all.len() as int));
            if p.conn_id == conn_id {
                if self.logging {
                    self.events.push(
                        MaterializedEvent::Peek {
                            name: p.name.clone(),
                            timestamp: p.timestamp,
                            conn_id: p.conn_id,
                            started: false,
                        },
                    );
                }
                let ghost c0 = canceled@;
                canceled.push(p);
                assert(retired_events(canceled@) =~= retired_events(c0).push(retired_event(p)));
            } else {
                self.pending_peeks.push(p);
            }
            i = i + 1;
        }
        assert(all.subrange(0, i as int) =~= all);
        canceled
    }

    /// The updates of an insert into the local input `name`, to be given to it
    /// at its capability; `None` where no such input is installed.
    pub fn insert(&self, name: &String, updates: Vec<Update>) -> (r: Option<(Timestamp, Vec<Update>)>)
        requires
            forall|i: int|
                0 <= i < self.local_inputs@.len() && self.local_inputs@[i].name@ == name@
                    ==> forall|k: int|
                    0 <= k < updates@.len() ==> #[trigger] updates@[k].timestamp
                        >= self.local_inputs@[i].capability,
        ensures
            match r {
                Some((at, given)) => input_names(self.local_inputs@).contains(name@) && exists|i: int|
                    0 <= i < self.local_inputs@.len() && self.local_inputs@[i].name@ == name@
                        && at == self.local_inputs@[i].capability && given == updates,
                None => !input_names(self.local_inputs@).contains(name@),
            },
    {
        match find_input(&self.local_inputs, name) {
            Some(i) => {
                assert(input_names(self.local_inputs@)[i as int] == self.local_inputs@[i as int].name@);
                Some((self.local_inputs[i].capability, updates))
            },
            None => None,
        }
    }

    /// Moves the capability of the local input `name` to `to`; nothing happens
    /// where no such input is installed.
    pub fn advance_time(&mut self, name: &String, to: Timestamp)
        requires
            old(self).wf(),
            forall|i: int|
                0 <= i < old(self).local_inputs@.len() && old(self).local_inputs@[i].name@ == name@
                    ==> old(self).local_inputs@[i].capability <= to,
        ensures
            final(self).wf(),
            input_names(final(self).local_inputs@) == input_names(old(self).local_inputs@),
            forall|i: int|
                0 <= i < final(self).local_inputs@.len() ==> (
                #[trigger] final(self).local_inputs@[i]).capability == if old(self).local_inputs@[i].name@ == name@ {
                    to
                } else {
                    old(self).local_inputs@[i].capability
                },
            final(self).traces == old(self).traces,
            final(self).sink_tokens == old(self).sink_tokens,
            final(self).pending_peeks == old(self).pending_peeks,
            final(self).events == old(self).events,
            final(self).index == old(self).index,
            final(self).logging == old(self).logging,
            final(self).feedback_enabled == old(self).feedback_enabled,
            final(self).shutdown == old(self).shutdown,
    {
        match find_input(&self.local_inputs, name) {
            Some(i) => {
                let ghost before = self.local_inputs@;
                let input = LocalInput { name: self.local_inputs[i].name.clone(), capability: to };
                self.local_inputs.set(i, input);
                assert forall|k: int| 0 <= k < before.len() && k != i implies before[k].name@
                    != name@ by {
                    assert(input_names(before)[k] == before[k].name@);
                    assert(input_names(before)[i as int] == before[i as int].name@);
                }
                assert(input_names(self.local_inputs@) =~= input_names(before));
            },
            None => {
                assert forall|k: int| 0 <= k < self.local_inputs@.len() implies self.local_inputs@[k].name@
                    != name@ by {
                    assert(input_names(self.local_inputs@)[k] == self.local_inputs@[k].name@);
                }
            },
        }
    }

    /// Logs an event handed down by the coordinator; only worker 0 does, so
    /// that each event is logged once over all workers.
    pub fn append_log(&mut self, event: MaterializedEvent)
        ensures
            final(self).events@ == if old(self).index == 0 {
                logged(old(self).events@, old(self).logging, event)
            } else {
                old(self).events@
            },
            final(self).traces == old(self).traces,
            final(self).local_inputs == old(self).local_inputs,
            final(self).sink_tokens == old(self).sink_tokens,
            final(self).pending_peeks == old(self).pending_peeks,
            final(self).index == old(self).index,
            final(self).logging == old(self).logging,
            final(self).feedback_enabled == old(self).feedback_enabled,
            final(self).shutdown == old(self).shutdown,
    {
        if self.index == 0 && self.logging {
            self.events.push(event);
        }
    }

    /// Installs the feedback sink; only the first installation counts.
    /// Returns whether this one was installed.
    pub fn enable_feedback(&mut self) -> (installed: bool)
        ensures
            installed == !old(self).feedback_enabled,
            final(self).feedback_enabled,
            final(self).traces == old(self).traces,
            final(self).local_inputs == old(self).local_inputs,
            final(self).sink_tokens == old(self).sink_tokens,
            final(self).pending_peeks == old(self).pending_peeks,
            final(self).events == old(self).events,
            final(self).index == old(self).index,
            final(self).logging == old(self).logging,
            final(self).shutdown == old(self).shutdown,
    {
        let installed = !self.feedback_enabled;
        self.feedback_enabled = true;
        installed
    }

    /// Deletes every trace, turns self-logging off, and marks the worker as
    /// shut down.
    pub fn shutdown(&mut self)
        requires
            old(self).wf(),
        ensures
            final(self).wf(),
            final(self).traces@.len() == 0,
            !final(self).logging,
            final(self).shutdown,
            final(self).local_inputs == old(self).local_inputs,
            final(self).sink_tokens == old(self).sink_tokens,
            final(self).pending_peeks == old(self).pending_peeks,
            final(self).events == old(self).events,
            final(self).index == old(self).index,
            final(self).feedback_enabled == old(self).feedback_enabled,
    {
        self.traces = Vec::new();
        assert(trace_names(self.traces@) =~= Seq::<Seq<char>>::empty());
        self.logging = false;
        self.shutdown = true;
    }


    /// Answers every pending peek that is ready, in the order they came, and
    /// keeps the others pending in their order. Each answer holds the rows of
    /// the peek's trace at its timestamp after the peek's finishing; each
    /// answered peek is logged as retired.
    pub fn process_peeks(&mut self) -> (answered: Vec<(PendingPeek, Vec<Row>)>)
        requires
            old(self).wf(),
            peeks_readable(*old(self)),
        ensures
            final(self).pending_peeks@ == old(self).pending_peeks@.filter(
                not_ready(old(self).traces@),
            ),
            answered@.len() == old(self).pending_peeks@.filter(is_ready(old(self).traces@)).len(),
            forall|k: int|
                0 <= k < answered@.len() ==> (#[trigger] answered@[k]).0 == old(
                    self,
                ).pending_peeks@.filter(is_ready(old(self).traces@))[k] && answers(
                    old(self).traces@,
                    answered@[k].0,
                    answered@[k].1@,
                ),
            final(self).events@ == logged_retired(
                old(self).events@,
                old(self).logging,
                old(self).pending_peeks@.filter(is_ready(old(self).traces@)),
            ),
            final(self).traces == old(self).traces,
            final(self).local_inputs == old(self).local_inputs,
            final(self).sink_tokens == old(self).sink_tokens,
            final(self).index == old(self).index,
            final(self).logging == old(self).logging,
            final(self).feedback_enabled == old(self).feedback_enabled,
            final(self).shutdown == old(self).shutdown,
    {
        let mut rest: Vec<PendingPeek> = Vec::new();
        std::mem::swap(&mut rest, &mut self.pending_peeks);
        let ghost all = rest@;
        let ghost traces = self.traces@;
        let mut answered: Vec<(PendingPeek, Vec<Row>)> = Vec::new();
        let mut i: usize = 0;
        let n = rest.len();
        while rest.len() > 0
            invariant
                all == old(self).pending_peeks@,
                traces == old(self).traces@,
                self.wf(),
                peeks_readable(*old(self)),
                all.len() == n,
                i + rest@.len() == all.len(),
                rest@ == all.subrange(i as int, all.len() as int),
                self.pending_peeks@ == all.subrange(0, i as int).filter(not_ready(traces)),
                answered@.len() == all.subrange(0, i as int).filter(is_ready(traces)).len(),
                forall|k: int|
                    0 <= k < answered@.len() ==> (#[trigger] answered@[k]).0 == all.subrange(
                        0,
                        i as int,
                    ).filter(is_ready(traces))[k] && answers(
                        traces,
                        answered@[k].0,
                        answered@[k].1@,
                    ),
                self.events@ == logged_retired(
                    old(self).events@,
                    old(self).logging,
                    all.subrange(0, i as int).filter(is_ready(traces)),
                ),
                self.traces == old(self).traces,
                self.local_inputs == old(self).local_inputs,
                self.sink_tokens == old(self).sink_tokens,
                self.index == old(self).index,
                self.logging == old(self).logging,
                self.feedback_enabled == old(self).feedback_enabled,
                self.shutdown == old(self).shutdown,
            decreases rest@.len(),
        {
            let p = rest.remove(0);
            assert(p == all[i as int]);
            assert(all.subrange(0, i + 1).drop_last() =~= all.subrange(0, i as int));
            assert(all.subrange(0, i + 1).last() == p);
            assert(rest@ =~= all.subrange(i + 1, all.len() as int));
            proof {
                reveal(Seq::filter);
            }
            let ghost ready_before = all.subrange(0, i as int).filter(is_ready(traces));
            match find_trace(&self.traces, &p.name) {
                Some(ti) => {
                    proof {
                        assert(trace_names(traces)[ti as int] == traces[ti as int].name@);
                        lemma_index_of_distinct(trace_names(traces), ti as int);
                        assert(trace_names(traces).contains(p.name@));
                    }
                    if peek_ready(&self.traces[ti].trace.upper, p.timestamp) {
                        assert(is_ready(traces)(all[i as int]));
                        let rows = collect_finished_data(&p, &self.traces[ti].trace);
                        assert(retired_events(all.subrange(0, i + 1).filter(is_ready(traces)))
                            =~= retired_events(ready_before).push(retired_event(p)));
                        if self.logging {
                            self.events.push(
                                MaterializedEvent::Peek {
                                    name: p.name.clone(),
                                    timestamp: p.timestamp,
                                    conn_id: p.conn_id,
                                    started: false,
                                },
                            );
                        }
                        answered.push((p, rows));
                        assert forall|k: int| 0 <= k < answered@.len() implies (
                        #[trigger] answered@[k]).0 == all.subrange(0, i + 1).filter(
                            is_ready(traces),
                        )[k] && answers(traces, answered@[k].0, answered@[k].1@) by {
                            if k < answered@.len() - 1 {
                                assert(ready_before[k] == all.subrange(0, i + 1).filter(
                                    is_ready(traces),
                                )[k]);
                            }
                        }
                    } else {
                        self.pending_peeks.push(p);
                    }
                },
                None => {
                    self.pending_peeks.push(p);
                },
            }
            i = i + 1;
        }
        assert(all.subrange(0, i as int) =~= all);
        answered
    }

    /// The upper frontier of each installed trace, under its name, in the order
    /// the traces were installed: the progress a feedback message reports.
    pub fn frontier_uppers(&self) -> (r: Vec<(String, Vec<Timestamp>)>)
        ensures
            r@.len() == self.traces@.len(),
            forall|i: int|
                0 <= i < r@.len() ==> (#[trigger] r@[i]).0@ == self.traces@[i].name@ && r@[i].1@
                    == self.traces@[i].trace.upper@,
    {
        let mut r: Vec<(String, Vec<Timestamp>)> = Vec::new();
        let mut i: usize = 0;
        while i < self.traces.len()
            invariant
                i <= self.traces@.len(),
                r@.len() == i,
                forall|k: int|
                    0 <= k < i ==> (#[trigger] r@[k]).0@ == self.traces@[k].name@ && r@[k].1@
                        == self.traces@[k].trace.upper@,
            decreases self.traces@.len() - i,
        {
            r.push((self.traces[i].name.clone(), copy_times(&self.traces[i].trace.upper)));
            i = i + 1;
        }
        r
    }


    /// Lets the trace of view `name` compact up to `frontier`, but never past
    /// the timestamp of a peek pending on that view: the trace is compacted up to
    /// the least of the frontier's elements and those timestamps, which is
    /// returned. Nothing happens, and `None` is returned, where the view is not
    /// installed or the frontier is empty.
    pub fn allow_compaction(&mut self, name: &String, frontier: &Vec<Timestamp>) -> (since: Option<
        Timestamp,
    >)
        requires
            old(self).wf(),
        ensures
            final(self).wf(),
            since.is_some() == (trace_names(old(self).traces@).contains(name@) && frontier@.len()
                > 0),
            since.is_none() ==> final(self).traces == old(self).traces,
            since.is_some() ==> {
                let s = since.unwrap();
                let ti = index_of(trace_names(old(self).traces@), name@);
                &&& forall|k: int| 0 <= k < frontier@.len() ==> s <= #[trigger] frontier@[k]
                &&& forall|k: int|
                    0 <= k < old(self).pending_peeks@.len()
                        && old(self).pending_peeks@[k].name@ == name@ ==> s
                        <= #[trigger] old(self).pending_peeks@[k].timestamp
                &&& frontier@.contains(s) || exists|k: int|
                    0 <= k < old(self).pending_peeks@.len()
                        && old(self).pending_peeks@[k].name@ == name@
                        && old(self).pending_peeks@[k].timestamp == s
                &&& final(self).traces@.len() == old(self).traces@.len()
                &&& trace_names(final(self).traces@) == trace_names(old(self).traces@)
                &&& forall|k: int|
                    0 <= k < old(self).traces@.len() && k != ti ==> #[trigger] final(self).traces@[k]
                        == old(self).traces@[k]
                &&& final(self).traces@[ti].trace.upper@ == old(self).traces@[ti].trace.upper@
                &&& compacted_from(
                    final(self).traces@[ti].trace.rows@,
                    old(self).traces@[ti].trace.rows@,
                    s,
                )
            },
            final(self).local_inputs == old(self).local_inputs,
            final(self).sink_tokens == old(self).sink_tokens,
            final(self).pending_peeks == old(self).pending_peeks,
            final(self).events == old(self).events,
            final(self).index == old(self).index,
            final(self).logging == old(self).logging,
            final(self).feedback_enabled == old(self).feedback_enabled,
            final(self).shutdown == old(self).shutdown,
    {
        let ti = match find_trace(&self.traces, name) {
            Some(ti) => ti,
            None => {
                return None;
            },
        };
        if frontier.len() == 0 {
            return None;
        }
        proof {
            assert(trace_names(self.traces@)[ti as int] == self.traces@[ti as int].name@);
            lemma_index_of_distinct(trace_names(self.traces@), ti as int);
        }
        let mut s: Timestamp = frontier[0];
        let mut k: usize = 1;
        while k < frontier.len()
            invariant
                1 <= k <= frontier@.len(),
                frontier@.contains(s),
                forall|j: int| 0 <= j < k ==> s <= #[trigger] frontier@[j],
            decreases frontier@.len() - k,
        {
            if frontier[k] < s {
                s = frontier[k];
            }
            k = k + 1;
        }
        let ghost from_frontier = s;
        let mut k: usize = 0;
        while k < self.pending_peeks.len()
            invariant
                k <= self.pending_peeks@.len(),
                s <= from_frontier,
                frontier@.contains(from_frontier),
                forall|j: int| 0 <= j < frontier@.len() ==> from_frontier <= #[trigger] frontier@[j],
                s == from_frontier || exists|j: int|
                    0 <= j < self.pending_peeks@.len() && self.pending_peeks@[j].name@ == name@
                        && self.pending_peeks@[j].timestamp == s,
                forall|j: int|
                    0 <= j < k && self.pending_peeks@[j].name@ == name@ ==> s
                        <= #[trigger] self.pending_peeks@[j].timestamp,
            decreases self.pending_peeks@.len() - k,
        {
            if self.pending_peeks[k].name == *name && self.pending_peeks[k].timestamp < s {
                s = self.pending_peeks[k].timestamp;
            }
            k = k + 1;
        }
        let ghost before = self.traces@;
        let mut entry = self.traces.remove(ti);
        entry.trace.compact(s);
        self.traces.insert(ti, entry);
        proof {
            assert(trace_names(self.traces@) =~= trace_names(before));
            assert forall|j: int| 0 <= j < before.len() && j != ti implies #[trigger] self.traces@[j]
                == before[j] by {}
        }
        Some(s)
    }


    /// Installs a sequence of dataflows, one after the other.
    pub fn create_dataflows(&mut self, descs: &Vec<DataflowDesc>)
        requires
            old(self).wf(),
            fresh(trace_names(old(self).traces@), all_views(descs@)),
            fresh(input_names(old(self).local_inputs@), all_inputs(descs@)),
            fresh(string_views(old(self).sink_tokens@), all_sinks(descs@)),
        ensures
            final(self).wf(),
            trace_names(final(self).traces@) == trace_names(old(self).traces@) + all_views(descs@),
            input_names(final(self).local_inputs@) == input_names(old(self).local_inputs@)
                + all_inputs(descs@),
            string_views(final(self).sink_tokens@) == string_views(old(self).sink_tokens@)
                + all_sinks(descs@),
            only_new_entries(*old(self), *final(self)),
            final(self).events@ == old(self).events@ + if old(self).logging {
                created_events(descs@)
            } else {
                Seq::empty()
            },
            final(self).pending_peeks == old(self).pending_peeks,
            final(self).index == old(self).index,
            final(self).logging == old(self).logging,
            final(self).feedback_enabled == old(self).feedback_enabled,
            final(self).shutdown == old(self).shutdown,
    {
        let mut k: usize = 0;
        assert(descs@.subrange(0, descs@.len() as int) =~= descs@);
        assert(self.traces@.subrange(0, self.traces@.len() as int) =~= self.traces@);
        assert(self.local_inputs@.subrange(0, self.local_inputs@.len() as int) =~= self.local_inputs@);
        while k < descs.len()
            invariant
                k <= descs@.len(),
                self.wf(),
                trace_names(self.traces@) + all_views(descs@.subrange(k as int, descs@.len() as int))
                    == trace_names(old(self).traces@) + all_views(descs@),
                input_names(self.local_inputs@) + all_inputs(descs@.subrange(k as int, descs@.len() as int))
                    == input_names(old(self).local_inputs@) + all_inputs(descs@),
                string_views(self.sink_tokens@) + all_sinks(descs@.subrange(k as int, descs@.len() as int))
                    == string_views(old(self).sink_tokens@) + all_sinks(descs@),
                fresh(trace_names(self.traces@), all_views(descs@.subrange(k as int, descs@.len() as int))),
                fresh(input_names(self.local_inputs@), all_inputs(descs@.subrange(k as int, descs@.len() as int))),
                fresh(string_views(self.sink_tokens@), all_sinks(descs@.subrange(k as int, descs@.len() as int))),
                only_new_entries(*old(self), *self),
                self.events@ + if old(self).logging {
                    created_events(descs@.subrange(k as int, descs@.len() as int))
                } else {
                    Seq::empty()
                } == old(self).events@ + if old(self).logging {
                    created_events(descs@)
                } else {
                    Seq::empty()
                },
                self.pending_peeks == old(self).pending_peeks,
                self.index == old(self).index,
                self.logging == old(self).logging,
                self.feedback_enabled == old(self).feedback_enabled,
                self.shutdown == old(self).shutdown,
            decreases descs@.len() - k,
        {
            let ghost rest = descs@.subrange(k as int, descs@.len() as int);
            let ghost w0 = *self;
            let ghost d = descs@[k as int];
            assert(rest.drop_first() =~= descs@.subrange(k + 1, descs@.len() as int));
            assert(rest[0] == d);
            proof {
                lemma_fresh_split(trace_names(self.traces@), string_views(d.views@), all_views(rest.drop_first()));
                lemma_fresh_split(input_names(self.local_inputs@), string_views(d.local_inputs@), all_inputs(rest.drop_first()));
                lemma_fresh_split(string_views(self.sink_tokens@), string_views(d.sinks@), all_sinks(rest.drop_first()));
            }
            let ghost t0 = trace_names(self.traces@);
            let ghost i0 = input_names(self.local_inputs@);
            let ghost s0 = string_views(self.sink_tokens@);
            self.create_dataflow(&descs[k]);
            assert(t0 + all_views(rest) =~= (t0 + string_views(d.views@)) + all_views(rest.drop_first()));
            assert(i0 + all_inputs(rest) =~= (i0 + string_views(d.local_inputs@)) + all_inputs(rest.drop_first()));
            assert(s0 + all_sinks(rest) =~= (s0 + string_views(d.sinks@)) + all_sinks(rest.drop_first()));
            proof {
                let e0 = w0.events@;
                let dv = d.views@.map_values(|v: String| MaterializedEvent::Dataflow(v, true));
                if self.logging {
                    assert(e0 + created_events(rest) =~= (e0 + dv) + created_events(rest.drop_first()));
                } else {
                    assert(self.events@ =~= e0 + Seq::<MaterializedEvent>::empty());
                }
                assert forall|j: int| 0 <= j < old(self).traces@.len() implies self.traces@[j]
                    == old(self).traces@[j] by {
                    assert(self.traces@.subrange(0, w0.traces@.len() as int)[j] == w0.traces@[j]);
                    assert(w0.traces@.subrange(0, old(self).traces@.len() as int)[j] == old(self).traces@[j]);
                }
                assert(self.traces@.subrange(0, old(self).traces@.len() as int) =~= old(self).traces@);
                assert forall|j: int| 0 <= j < old(self).local_inputs@.len() implies self.local_inputs@[j]
                    == old(self).local_inputs@[j] by {
                    assert(self.local_inputs@.subrange(0, w0.local_inputs@.len() as int)[j] == w0.local_inputs@[j]);
                    assert(w0.local_inputs@.subrange(0, old(self).local_inputs@.len() as int)[j] == old(self).local_inputs@[j]);
                }
                assert(self.local_inputs@.subrange(0, old(self).local_inputs@.len() as int) =~= old(self).local_inputs@);
                assert forall|j: int| old(self).traces@.len() <= j < self.traces@.len() implies (#[trigger] self.traces@[j]).trace.rows@.len()
                    == 0 && self.traces@[j].trace.upper@ == seq![0u64] by {
                    if j < w0.traces@.len() {
                        assert(self.traces@.subrange(0, w0.traces@.len() as int)[j] == w0.traces@[j]);
                    }
                }
                assert forall|j: int| old(self).local_inputs@.len() <= j < self.local_inputs@.len() implies (#[trigger] self.local_inputs@[j]).capability == 0 by {
                    if j < w0.local_inputs@.len() {
                        assert(self.local_inputs@.subrange(0, w0.local_inputs@.len() as int)[j] == w0.local_inputs@[j]);
                    }
                }
            }
            k = k + 1;
        }
        assert(descs@.subrange(k as int, descs@.len() as int) =~= Seq::<DataflowDesc>::empty());
        assert(all_views(descs@.subrange(k as int, descs@.len() as int)) == Seq::<Seq<char>>::empty());
        assert(all_inputs(descs@.subrange(k as int, descs@.len() as int)) == Seq::<Seq<char>>::empty());
        assert(all_sinks(descs@.subrange(k as int, descs@.len() as int)) == Seq::<Seq<char>>::empty());
        assert(trace_names(self.traces@) =~= trace_names(self.traces@) + Seq::<Seq<char>>::empty());
        assert(input_names(self.local_inputs@) =~= input_names(self.local_inputs@) + Seq::<Seq<char>>::empty());
        assert(string_views(self.sink_tokens@) =~= string_views(self.sink_tokens@) + Seq::<Seq<char>>::empty());
        assert(created_events(descs@.subrange(k as int, descs@.len() as int)) == Seq::<MaterializedEvent>::empty());
        assert(self.events@ =~= self.events@ + Seq::<MaterializedEvent>::empty());
    }

    /// Applies one command to the worker's state and says what is left to do.
    /// Once the worker has shut down, no command changes anything.
    pub fn handle_command(&mut self, cmd: SequencedCommand) -> (effect: CommandEffect)
        requires
            old(self).wf(),
            command_allowed(*old(self), cmd),
        ensures
            final(self).wf(),
            final(self).index == old(self).index,
            old(self).shutdown ==> *final(self) == *old(self) && effect is Nothing,
            !old(self).shutdown ==> final(self).shutdown == cmd is Shutdown,
            !old(self).shutdown ==> match cmd {
                SequencedCommand::CreateDataflows(descs) => {
                    &&& trace_names(final(self).traces@) == trace_names(old(self).traces@)
                        + all_views(descs@)
                    &&& input_names(final(self).local_inputs@) == input_names(
                        old(self).local_inputs@,
                    ) + all_inputs(descs@)
                    &&& string_views(final(self).sink_tokens@) == string_views(
                        old(self).sink_tokens@,
                    ) + all_sinks(descs@)
                    &&& only_new_entries(*old(self), *final(self))
                    &&& final(self).events@ == old(self).events@ + if old(self).logging {
                        created_events(descs@)
                    } else {
                        Seq::empty()
                    }
                    &&& final(self).pending_peeks == old(self).pending_peeks
                    &&& final(self).logging == old(self).logging
                    &&& final(self).feedback_enabled == old(self).feedback_enabled
                    &&& effect is Nothing
                },
                SequencedCommand::DropSources(names) => {
                    &&& names_dropped(
                        input_names(old(self).local_inputs@),
                        input_names(final(self).local_inputs@),
                        string_views(names@),
                    )
                    &&& forall|i: int|
                        0 <= i < final(self).local_inputs@.len() ==> old(
                            self,
                        ).local_inputs@.contains(#[trigger] final(self).local_inputs@[i])
                    &&& final(self).traces == old(self).traces
                    &&& final(self).sink_tokens == old(self).sink_tokens
                    &&& final(self).pending_peeks == old(self).pending_peeks
                    &&& final(self).events == old(self).events
                    &&& final(self).logging == old(self).logging
                    &&& final(self).feedback_enabled == old(self).feedback_enabled
                    &&& effect is Nothing
                },
                SequencedCommand::DropViews(names) => {
                    &&& names_dropped(
                        trace_names(old(self).traces@),
                        trace_names(final(self).traces@),
                        string_views(names@),
                    )
                    &&& forall|i: int|
                        0 <= i < final(self).traces@.len() ==> old(self).traces@.contains(
                            #[trigger] final(self).traces@[i],
                        )
                    &&& final(self).events@ == old(self).events@ + if old(self).logging {
                        drop_events(trace_names(old(self).traces@), names@)
                    } else {
                        Seq::empty()
                    }
                    &&& final(self).local_inputs == old(self).local_inputs
                    &&& final(self).sink_tokens == old(self).sink_tokens
                    &&& final(self).pending_peeks == old(self).pending_peeks
                    &&& final(self).logging == old(self).logging
                    &&& final(self).feedback_enabled == old(self).feedback_enabled
                    &&& effect is Nothing
                },
                SequencedCommand::DropSinks(names) => {
                    &&& names_dropped(
                        string_views(old(self).sink_tokens@),
                        string_views(final(self).sink_tokens@),
                        string_views(names@),
                    )
                    &&& forall|i: int|
                        0 <= i < final(self).sink_tokens@.len() ==> old(self).sink_tokens@.contains(
                            #[trigger] final(self).sink_tokens@[i],
                        )
                    &&& final(self).traces == old(self).traces
                    &&& final(self).local_inputs == old(self).local_inputs
                    &&& final(self).pending_peeks == old(self).pending_peeks
                    &&& final(self).events == old(self).events
                    &&& final(self).logging == old(self).logging
                    &&& final(self).feedback_enabled == old(self).feedback_enabled
                    &&& effect is Nothing
                },
                SequencedCommand::Peek { name, conn_id, timestamp, finishing } => {
                    &&& final(self).pending_peeks@ == old(self).pending_peeks@.push(
                        (PendingPeek { name, conn_id, timestamp, finishing }),
                    )
                    &&& final(self).events@ == logged(
                        old(self).events@,
                        old(self).logging,
                        (MaterializedEvent::Peek { name, timestamp, conn_id, started: true }),
                    )
                    &&& final(self).traces == old(self).traces
                    &&& final(self).local_inputs == old(self).local_inputs
                    &&& final(self).sink_tokens == old(self).sink_tokens
                    &&& final(self).logging == old(self).logging
                    &&& final(self).feedback_enabled == old(self).feedback_enabled
                    &&& effect is Nothing
                },
                SequencedCommand::CancelPeek { conn_id } => {
                    &&& final(self).pending_peeks@ == old(self).pending_peeks@.filter(
                        not_of_conn(conn_id),
                    )
                    &&& effect matches CommandEffect::Canceled(c) && c@
                        == old(self).pending_peeks@.filter(of_conn(conn_id))
                    &&& final(self).events@ == logged_retired(
                        old(self).events@,
                        old(self).logging,
                        old(self).pending_peeks@.filter(of_conn(conn_id)),
                    )
                    &&& final(self).traces == old(self).traces
                    &&& final(self).local_inputs == old(self).local_inputs
                    &&& final(self).sink_tokens == old(self).sink_tokens
                    &&& final(self).logging == old(self).logging
                    &&& final(self).feedback_enabled == old(self).feedback_enabled
                },
                SequencedCommand::Insert { name, updates } => {
                    &&& final(self).traces == old(self).traces
                    &&& final(self).local_inputs == old(self).local_inputs
                    &&& final(self).sink_tokens == old(self).sink_tokens
                    &&& final(self).pending_peeks == old(self).pending_peeks
                    &&& final(self).events == old(self).events
                    &&& final(self).logging == old(self).logging
                    &&& final(self).feedback_enabled == old(self).feedback_enabled
                    &&& input_names(old(self).local_inputs@).contains(name@) <==> effect is Give
                    &&& effect matches CommandEffect::Give { name: n, at, updates: u } ==> n == name
                        && u == updates && exists|i: int|
                        0 <= i < old(self).local_inputs@.len()
                            && old(self).local_inputs@[i].name@ == name@
                            && old(self).local_inputs@[i].capability == at
                },
                SequencedCommand::AdvanceTime { name, to } => {
                    &&& input_names(final(self).local_inputs@) == input_names(
                        old(self).local_inputs@,
                    )
                    &&& forall|i: int|
                        0 <= i < final(self).local_inputs@.len() ==> (
                        #[trigger] final(self).local_inputs@[i]).capability == if old(
                            self,
                        ).local_inputs@[i].name@ == name@ {
                            to
                        } else {
                            old(self).local_inputs@[i].capability
                        }
                    &&& final(self).traces == old(self).traces
                    &&& final(self).sink_tokens == old(self).sink_tokens
                    &&& final(self).pending_peeks == old(self).pending_peeks
                    &&& final(self).events == old(self).events
                    &&& final(self).logging == old(self).logging
                    &&& final(self).feedback_enabled == old(self).feedback_enabled
                    &&& effect is Nothing
                },
                SequencedCommand::AllowCompaction(_) => {
                    &&& trace_names(final(self).traces@) == trace_names(old(self).traces@)
                    &&& final(self).traces@.len() == old(self).traces@.len()
                    &&& forall|i: int|
                        0 <= i < final(self).traces@.len() ==> (
                        #[trigger] final(self).traces@[i]).trace.upper@
                            == old(self).traces@[i].trace.upper@
                    &&& final(self).local_inputs == old(self).local_inputs
                    &&& final(self).sink_tokens == old(self).sink_tokens
                    &&& final(self).pending_peeks == old(self).pending_peeks
                    &&& final(self).events == old(self).events
                    &&& final(self).logging == old(self).logging
                    &&& final(self).feedback_enabled == old(self).feedback_enabled
                    &&& effect is Nothing
                },
                SequencedCommand::AppendLog(event) => {
                    &&& final(self).events@ == if old(self).index == 0 {
                        logged(old(self).events@, old(self).logging, event)
                    } else {
                        old(self).events@
                    }
                    &&& final(self).traces == old(self).traces
                    &&& final(self).local_inputs == old(self).local_inputs
                    &&& final(self).sink_tokens == old(self).sink_tokens
                    &&& final(self).pending_peeks == old(self).pending_peeks
                    &&& final(self).logging == old(self).logging
                    &&& final(self).feedback_enabled == old(self).feedback_enabled
                    &&& effect is Nothing
                },
                SequencedCommand::EnableFeedback => {
                    &&& final(self).feedback_enabled
                    &&& effect == CommandEffect::Feedback(!old(self).feedback_enabled)
                    &&& final(self).traces == old(self).traces
                    &&& final(self).local_inputs == old(self).local_inputs
                    &&& final(self).sink_tokens == old(self).sink_tokens
                    &&& final(self).pending_peeks == old(self).pending_peeks
                    &&& final(self).events == old(self).events
                    &&& final(self).logging == old(self).logging
                },
                SequencedCommand::Shutdown => {
                    &&& final(self).traces@.len() == 0
                    &&& !final(self).logging
                    &&& final(self).local_inputs == old(self).local_inputs
                    &&& final(self).sink_tokens == old(self).sink_tokens
                    &&& final(self).pending_peeks == old(self).pending_peeks
                    &&& final(self).events == old(self).events
                    &&& final(self).feedback_enabled == old(self).feedback_enabled
                    &&& effect is Nothing
                },
            },
    {
        if self.shutdown {
            return CommandEffect::Nothing;
        }
        match cmd {
            SequencedCommand::CreateDataflows(descs) => {
                self.create_dataflows(&descs);
                CommandEffect::Nothing
            },
            SequencedCommand::DropSources(names) => {
                self.drop_sources(&names);
                CommandEffect::Nothing
            },
            SequencedCommand::DropViews(names) => {
                self.drop_views(&names);
                CommandEffect::Nothing
            },
            SequencedCommand::DropSinks(names) => {
                self.drop_sinks(&names);
                CommandEffect::Nothing
            },
            SequencedCommand::Peek { name, conn_id, timestamp, finishing } => {
                self.peek(PendingPeek { name, conn_id, timestamp, finishing });
                CommandEffect::Nothing
            },
            SequencedCommand::CancelPeek { conn_id } => {
                CommandEffect::Canceled(self.cancel_peek(conn_id))
            },
            SequencedCommand::Insert { name, updates } => {
                match self.insert(&name, updates) {
                    Some((at, updates)) => CommandEffect::Give { name, at, updates },
                    None => CommandEffect::Nothing,
                }
            },
            SequencedCommand::AdvanceTime { name, to } => {
                self.advance_time(&name, to);
                CommandEffect::Nothing
            },
            SequencedCommand::AllowCompaction(list) => {
                let mut k: usize = 0;
                while k < list.len()
                    invariant
                        k <= list@.len(),
                        self.wf(),
                        trace_names(self.traces@) == trace_names(old(self).traces@),
                        self.traces@.len() == old(self).traces@.len(),
                        forall|i: int|
                            0 <= i < self.traces@.len() ==> (#[trigger] self.traces@[i]).trace.upper@
                                == old(self).traces@[i].trace.upper@,
                        self.local_inputs == old(self).local_inputs,
                        self.sink_tokens == old(self).sink_tokens,
                        self.pending_peeks == old(self).pending_peeks,
                        self.events == old(self).events,
                        self.index == old(self).index,
                        self.logging == old(self).logging,
                        self.feedback_enabled == old(self).feedback_enabled,
                        self.shutdown == old(self).shutdown,
                    decreases list@.len() - k,
                {
                    let _ = self.allow_compaction(&list[k].0, &list[k].1);
                    k = k + 1;
                }
                CommandEffect::Nothing
            },
            SequencedCommand::AppendLog(event) => {
                self.append_log(event);
                CommandEffect::Nothing
            },
            SequencedCommand::EnableFeedback => CommandEffect::Feedback(self.enable_feedback()),
            SequencedCommand::Shutdown => {
                self.shutdown();
                CommandEffect::Nothing
            },
        }
    }

    /// The last step of an iteration of the worker loop: answer the ready peeks,
    /// unless the worker has shut down, in which case no peek is answered.
    pub fn finish_iteration(&mut self) -> (answered: Vec<(PendingPeek, Vec<Row>)>)
        requires
            old(self).wf(),
            peeks_readable(*old(self)),
        ensures
            old(self).shutdown ==> answered@.len() == 0 && *final(self) == *old(self),
            !old(self).shutdown ==> final(self).pending_peeks@ == old(self).pending_peeks@.filter(
                not_ready(old(self).traces@),
            ) && answered@.len() == old(self).pending_peeks@.filter(
                is_ready(old(self).traces@),
            ).len() && forall|k: int|
                0 <= k < answered@.len() ==> (#[trigger] answered@[k]).0 == old(
                    self,
                ).pending_peeks@.filter(is_ready(old(self).traces@))[k] && answers(
                    old(self).traces@,
                    answered@[k].0,
                    answered@[k].1@,
                ) && final(self).events@ == logged_retired(
                old(self).events@,
                old(self).logging,
                old(self).pending_peeks@.filter(is_ready(old(self).traces@)),
            ),
            final(self).traces == old(self).traces,
            final(self).local_inputs == old(self).local_inputs,
            final(self).sink_tokens == old(self).sink_tokens,
            final(self).index == old(self).index,
            final(self).logging == old(self).logging,
            final(self).feedback_enabled == old(self).feedback_enabled,
            final(self).shutdown == old(self).shutdown,
    {
        if self.shutdown {
            Vec::new()
        } else {
            self.process_peeks()
        }
    }


    /// The progress message of this iteration: where a feedback sink is
    /// installed, the upper frontier of every trace, tagged with this worker's
    /// index; otherwise nothing.
    pub fn feedback(&self) -> (r: Option<WorkerFeedbackWithMeta>)
        ensures
            r.is_some() == self.feedback_enabled,
            r matches Some(m) ==> m.worker_id == self.index && (m.message matches WorkerFeedback::FrontierUppers(u) && reports(u@, self.traces@)),
    {
        if self.feedback_enabled {
            let u = self.frontier_uppers();
            Some(WorkerFeedbackWithMeta { worker_id: self.index, message: WorkerFeedback::FrontierUppers(u) })
        } else {
            None
        }
    }


    /// Publishes a trace that the worker maintains itself, such as one of its
    /// log views, under a name not yet in use.
    pub fn publish_trace(&mut self, name: String, trace: Arrangement)
        requires
            old(self).wf(),
            !trace_names(old(self).traces@).contains(name@),
        ensures
            final(self).wf(),
            final(self).traces@ == old(self).traces@.push((NamedTrace { name, trace })),
            final(self).local_inputs == old(self).local_inputs,
            final(self).sink_tokens == old(self).sink_tokens,
            final(self).pending_peeks == old(self).pending_peeks,
            final(self).events == old(self).events,
            final(self).index == old(self).index,
            final(self).logging == old(self).logging,
            final(self).feedback_enabled == old(self).feedback_enabled,
            final(self).shutdown == old(self).shutdown,
    {
        let ghost before = self.traces@;
        let ghost n = name@;
        self.traces.push(NamedTrace { name, trace });
        proof {
            assert(trace_names(self.traces@) =~= trace_names(before).push(n));
            lemma_distinct_push(trace_names(before), n);
        }
    }

}

} // verus!
