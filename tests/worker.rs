use dataflow_worker::frontier::{less_equal, peek_ready};
use dataflow_worker::peek::{
    collect_finished_data, count_at, ArrangedRow, Arrangement, PendingPeek, RowSetFinishing,
};
use dataflow_worker::row::{
    compare_columns, passes_filter, ColumnOrder, CompareOp, Datum, Predicate, Row,
};
use dataflow_worker::worker::{
    BroadcastToken, CommandEffect, DataflowDesc, MaterializedEvent, SequencedCommand, Update,
    Worker, WorkerFeedback,
};
use std::cmp::Ordering;

fn s(x: &str) -> String {
    x.to_string()
}

fn row(v: i64) -> Row {
    vec![Datum::Int64(v)]
}

fn plain() -> RowSetFinishing {
    RowSetFinishing { filter: vec![], order_by: vec![], limit: None, offset: 0 }
}

/// Stands in for the dataflow engine: the view `view` is the local input
/// itself, so given updates land in the view's trace.
fn engine_give(w: &mut Worker, view: &str, updates: Vec<Update>) {
    let t = w.traces.iter_mut().find(|t| t.name == view).unwrap();
    for u in updates {
        match t.trace.rows.iter_mut().find(|e| e.row == u.row) {
            Some(e) => e.history.push((u.timestamp, u.diff)),
            None => t.trace.rows.push(ArrangedRow { row: u.row, history: vec![(u.timestamp, u.diff)] }),
        }
    }
}

fn engine_advance(w: &mut Worker, view: &str, upper: Vec<u64>) {
    let t = w.traces.iter_mut().find(|t| t.name == view).unwrap();
    t.trace.upper = upper;
}

fn create(w: &mut Worker, views: &[&str], inputs: &[&str]) {
    let desc = DataflowDesc {
        views: views.iter().map(|v| s(v)).collect(),
        local_inputs: inputs.iter().map(|v| s(v)).collect(),
        sinks: vec![],
    };
    let e = w.handle_command(SequencedCommand::CreateDataflows(vec![desc]));
    assert!(matches!(e, CommandEffect::Nothing));
}

fn insert_abba(w: &mut Worker) {
    let updates = vec![
        Update { row: row(97), timestamp: 0, diff: 1 },
        Update { row: row(98), timestamp: 0, diff: 1 },
        Update { row: row(97), timestamp: 0, diff: -1 },
    ];
    match w.handle_command(SequencedCommand::Insert { name: s("src"), updates }) {
        CommandEffect::Give { name, at, updates } => {
            assert_eq!(name, "src");
            assert_eq!(at, 0);
            assert_eq!(updates.len(), 3);
            engine_give(w, "v", updates);
        }
        _ => panic!("insert into an installed input must give its updates"),
    }
}

fn peek_cmd(name: &str, conn_id: u32, timestamp: u64) -> SequencedCommand {
    SequencedCommand::Peek { name: s(name), conn_id, timestamp, finishing: plain() }
}

#[test]
fn peek_after_advance_returns_surviving_row() {
    let mut w = Worker::new(0, true);
    create(&mut w, &["v"], &["src"]);
    insert_abba(&mut w);
    w.handle_command(SequencedCommand::AdvanceTime { name: s("src"), to: 1 });
    assert_eq!(w.local_inputs[0].capability, 1);
    engine_advance(&mut w, "v", vec![1]);
    w.handle_command(peek_cmd("v", 7, 0));
    let answered = w.finish_iteration();
    assert_eq!(answered.len(), 1);
    assert_eq!(answered[0].0.conn_id, 7);
    assert_eq!(answered[0].1, vec![row(98)]);
    assert!(w.pending_peeks.is_empty());
}

#[test]
fn peek_waits_for_advance() {
    let mut w = Worker::new(0, false);
    create(&mut w, &["v"], &["src"]);
    insert_abba(&mut w);
    w.handle_command(peek_cmd("v", 7, 0));
    assert!(w.finish_iteration().is_empty());
    assert_eq!(w.pending_peeks.len(), 1);
    w.handle_command(SequencedCommand::AdvanceTime { name: s("src"), to: 1 });
    engine_advance(&mut w, "v", vec![1]);
    let answered = w.finish_iteration();
    assert_eq!(answered.len(), 1);
    assert_eq!(answered[0].1, vec![row(98)]);
}

#[test]
fn cancel_before_advance_answers_nothing() {
    let mut w = Worker::new(0, true);
    create(&mut w, &["v"], &["src"]);
    insert_abba(&mut w);
    w.handle_command(peek_cmd("v", 7, 0));
    match w.handle_command(SequencedCommand::CancelPeek { conn_id: 7 }) {
        CommandEffect::Canceled(c) => {
            assert_eq!(c.len(), 1);
            assert_eq!(c[0].conn_id, 7);
        }
        _ => panic!("cancel must hand back the canceled peeks"),
    }
    w.handle_command(SequencedCommand::AdvanceTime { name: s("src"), to: 1 });
    engine_advance(&mut w, "v", vec![1]);
    assert!(w.finish_iteration().is_empty());
    // Created, peek started, peek retired.
    assert_eq!(w.events.len(), 3);
}

#[test]
fn dropped_view_is_gone() {
    let mut w = Worker::new(0, true);
    create(&mut w, &["v1", "v2"], &[]);
    w.handle_command(SequencedCommand::DropViews(vec![s("v1")]));
    let names: Vec<String> = w.traces.iter().map(|t| t.name.clone()).collect();
    assert_eq!(names, vec![s("v2")]);
    match &w.events[w.events.len() - 1] {
        MaterializedEvent::Dataflow(n, created) => {
            assert_eq!(n, "v1");
            assert!(!created);
        }
        _ => panic!("dropping a view logs it"),
    }
}

#[test]
fn limit_keeps_ten_smallest() {
    let rows: Vec<ArrangedRow> = (0..100)
        .map(|i| ArrangedRow { row: row((i * 37) % 100), history: vec![(0, 1)] })
        .collect();
    let trace = Arrangement { rows, upper: vec![1] };
    let peek = PendingPeek {
        name: s("v"),
        conn_id: 1,
        timestamp: 0,
        finishing: RowSetFinishing {
            filter: vec![],
            order_by: vec![ColumnOrder { column: 0, desc: false }],
            limit: Some(10),
            offset: 0,
        },
    };
    let mut out: Vec<i64> = collect_finished_data(&peek, &trace)
        .iter()
        .map(|r| match r[0] {
            Datum::Int64(v) => v,
            _ => panic!("integer rows only"),
        })
        .collect();
    out.sort();
    assert_eq!(out, (0..10).collect::<Vec<i64>>());
}

#[test]
fn shutdown_with_pending_peeks() {
    let mut w = Worker::new(0, true);
    create(&mut w, &["v"], &["src"]);
    w.handle_command(peek_cmd("v", 1, 0));
    w.handle_command(peek_cmd("v", 2, 0));
    w.handle_command(SequencedCommand::Shutdown);
    assert!(w.shutdown);
    assert!(w.traces.is_empty());
    assert!(!w.logging);
    assert!(w.finish_iteration().is_empty());
    assert_eq!(w.pending_peeks.len(), 2);
}

#[test]
fn frontier_less_equal_and_readiness() {
    assert!(less_equal(&vec![3, 9], 5));
    assert!(!less_equal(&vec![6, 9], 5));
    assert!(!less_equal(&vec![], 5));
    assert!(peek_ready(&vec![1], 0));
    assert!(!peek_ready(&vec![0], 0));
    assert!(peek_ready(&vec![], 0));
}

#[test]
fn count_sums_diffs_up_to_time() {
    assert_eq!(count_at(&vec![(0, 2), (1, 3), (2, -1), (5, 7)], 2), 4);
    assert_eq!(count_at(&vec![], 2), 0);
    assert_eq!(count_at(&vec![(0, i64::MAX), (0, i64::MAX)], 0), 2 * i64::MAX as i128);
}

#[test]
fn compare_columns_orders_lexicographically() {
    let asc = vec![ColumnOrder { column: 0, desc: false }, ColumnOrder { column: 1, desc: true }];
    let a = vec![Datum::Int64(1), Datum::Int64(5)];
    let b = vec![Datum::Int64(1), Datum::Int64(9)];
    let c = vec![Datum::Int64(2), Datum::Int64(0)];
    assert_eq!(compare_columns(&asc, &a, &b), Ordering::Greater);
    assert_eq!(compare_columns(&asc, &a, &c), Ordering::Less);
    assert_eq!(compare_columns(&asc, &a, &a), Ordering::Equal);
    assert_eq!(compare_columns(&vec![], &a, &c), Ordering::Equal);
    let n = vec![Datum::Null];
    assert_eq!(compare_columns(&asc, &n, &a), Ordering::Less);
}

#[test]
fn filters_keep_matching_rows() {
    let f = vec![
        Predicate { column: 0, op: CompareOp::Ge, literal: Datum::Int64(2) },
        Predicate { column: 1, op: CompareOp::Eq, literal: Datum::True },
    ];
    assert!(passes_filter(&f, &vec![Datum::Int64(3), Datum::True]));
    assert!(!passes_filter(&f, &vec![Datum::Int64(1), Datum::True]));
    assert!(!passes_filter(&f, &vec![Datum::Int64(3), Datum::False]));
    assert!(passes_filter(&vec![], &vec![]));
}

#[test]
fn peek_applies_filter_and_multiplicity() {
    let trace = Arrangement {
        rows: vec![
            ArrangedRow { row: row(1), history: vec![(0, 2), (3, 1)] },
            ArrangedRow { row: row(2), history: vec![(0, 1), (1, -1)] },
            ArrangedRow { row: row(5), history: vec![(1, 1)] },
        ],
        upper: vec![4],
    };
    let mut peek = PendingPeek { name: s("v"), conn_id: 0, timestamp: 2, finishing: plain() };
    assert_eq!(collect_finished_data(&peek, &trace), vec![row(1), row(1), row(5)]);
    peek.finishing.filter = vec![Predicate { column: 0, op: CompareOp::Gt, literal: Datum::Int64(1) }];
    assert_eq!(collect_finished_data(&peek, &trace), vec![row(5)]);
}

#[test]
fn limit_with_offset_and_short_results() {
    let trace = Arrangement {
        rows: vec![
            ArrangedRow { row: row(9), history: vec![(0, 1)] },
            ArrangedRow { row: row(3), history: vec![(0, 1)] },
            ArrangedRow { row: row(7), history: vec![(0, 1)] },
            ArrangedRow { row: row(1), history: vec![(0, 1)] },
        ],
        upper: vec![1],
    };
    let desc = vec![ColumnOrder { column: 0, desc: true }];
    let mut peek = PendingPeek {
        name: s("v"),
        conn_id: 0,
        timestamp: 0,
        finishing: RowSetFinishing { filter: vec![], order_by: desc, limit: Some(1), offset: 1 },
    };
    let mut out = collect_finished_data(&peek, &trace);
    out.sort_by_key(|r| match r[0] {
        Datum::Int64(v) => v,
        _ => 0,
    });
    assert_eq!(out, vec![row(7), row(9)]);
    peek.finishing.limit = Some(10);
    assert_eq!(collect_finished_data(&peek, &trace).len(), 4);
}

#[test]
fn compaction_is_held_back_by_pending_peeks() {
    let mut w = Worker::new(0, false);
    create(&mut w, &["v"], &["src"]);
    engine_give(
        &mut w,
        "v",
        vec![Update { row: row(1), timestamp: 1, diff: 1 }, Update { row: row(1), timestamp: 4, diff: 1 }],
    );
    w.handle_command(peek_cmd("v", 1, 2));
    assert_eq!(w.allow_compaction(&s("v"), &vec![6, 5]), Some(2));
    assert_eq!(w.traces[0].trace.rows[0].history, vec![(2, 1), (4, 1)]);
    engine_advance(&mut w, "v", vec![3]);
    let answered = w.finish_iteration();
    assert_eq!(answered[0].1, vec![row(1)]);
    assert_eq!(w.allow_compaction(&s("v"), &vec![5]), Some(5));
    assert_eq!(w.traces[0].trace.rows[0].history, vec![(5, 1), (5, 1)]);
    assert_eq!(w.allow_compaction(&s("v"), &vec![]), None);
    assert_eq!(w.allow_compaction(&s("missing"), &vec![1]), None);
}

#[test]
fn insert_into_missing_input_does_nothing() {
    let mut w = Worker::new(0, false);
    let e = w.handle_command(SequencedCommand::Insert {
        name: s("nope"),
        updates: vec![Update { row: row(1), timestamp: 0, diff: 1 }],
    });
    assert!(matches!(e, CommandEffect::Nothing));
    w.handle_command(SequencedCommand::AdvanceTime { name: s("nope"), to: 3 });
    assert!(w.local_inputs.is_empty());
}

#[test]
fn drop_sources_and_sinks() {
    let mut w = Worker::new(0, false);
    let desc = DataflowDesc { views: vec![], local_inputs: vec![s("a"), s("b")], sinks: vec![s("k")] };
    w.handle_command(SequencedCommand::CreateDataflows(vec![desc]));
    w.handle_command(SequencedCommand::DropSources(vec![s("a"), s("zz")]));
    w.handle_command(SequencedCommand::DropSinks(vec![s("k")]));
    assert_eq!(w.local_inputs.len(), 1);
    assert_eq!(w.local_inputs[0].name, "b");
    assert!(w.sink_tokens.is_empty());
}

#[test]
fn feedback_first_installation_wins_and_reports_uppers() {
    let mut w = Worker::new(3, false);
    assert!(w.feedback().is_none());
    create(&mut w, &["v"], &[]);
    assert!(matches!(w.handle_command(SequencedCommand::EnableFeedback), CommandEffect::Feedback(true)));
    assert!(matches!(w.handle_command(SequencedCommand::EnableFeedback), CommandEffect::Feedback(false)));
    engine_advance(&mut w, "v", vec![4]);
    let m = w.feedback().unwrap();
    assert_eq!(m.worker_id, 3);
    match m.message {
        WorkerFeedback::FrontierUppers(u) => assert_eq!(u, vec![(s("v"), vec![4])]),
    }
}

#[test]
fn append_log_only_on_worker_zero() {
    let mut w0 = Worker::new(0, true);
    let mut w1 = Worker::new(1, true);
    w0.handle_command(SequencedCommand::AppendLog(MaterializedEvent::Dataflow(s("x"), true)));
    w1.handle_command(SequencedCommand::AppendLog(MaterializedEvent::Dataflow(s("x"), true)));
    assert_eq!(w0.events.len(), 1);
    assert_eq!(w1.events.len(), 0);
}

#[test]
fn broadcast_loops_back() {
    assert!(BroadcastToken.loopback());
}

#[test]
fn dropping_views_logs_each_installed_name_once() {
    let mut w = Worker::new(0, true);
    create(&mut w, &["v1", "v2"], &[]);
    assert_eq!(w.events.len(), 2);
    w.handle_command(SequencedCommand::DropViews(vec![s("v1"), s("zz"), s("v1")]));
    assert_eq!(w.events.len(), 3);
    assert_eq!(w.traces.len(), 1);
    let mut quiet = Worker::new(0, false);
    create(&mut quiet, &["v1"], &[]);
    quiet.handle_command(SequencedCommand::DropViews(vec![s("v1")]));
    assert!(quiet.events.is_empty());
}

#[test]
fn commands_after_shutdown_change_nothing() {
    let mut w = Worker::new(0, true);
    create(&mut w, &["v"], &["src"]);
    w.handle_command(SequencedCommand::Shutdown);
    let events = w.events.len();
    let e = w.handle_command(SequencedCommand::DropSources(vec![s("src")]));
    assert!(matches!(e, CommandEffect::Nothing));
    w.handle_command(SequencedCommand::EnableFeedback);
    assert_eq!(w.local_inputs.len(), 1);
    assert!(!w.feedback_enabled);
    assert_eq!(w.events.len(), events);
}

#[test]
fn negative_count_before_readiness_is_legal() {
    let mut w = Worker::new(0, false);
    create(&mut w, &["v"], &["src"]);
    engine_give(&mut w, "v", vec![Update { row: row(97), timestamp: 0, diff: -1 }]);
    w.handle_command(peek_cmd("v", 1, 0));
    assert!(w.finish_iteration().is_empty());
    engine_give(&mut w, "v", vec![Update { row: row(97), timestamp: 0, diff: 2 }]);
    engine_advance(&mut w, "v", vec![1]);
    let answered = w.finish_iteration();
    assert_eq!(answered[0].1, vec![row(97)]);
}

#[test]
fn retired_peeks_log_their_completion() {
    let mut w = Worker::new(0, true);
    create(&mut w, &["v"], &[]);
    w.handle_command(peek_cmd("v", 4, 0));
    w.handle_command(peek_cmd("v", 5, 9));
    engine_advance(&mut w, "v", vec![1]);
    w.finish_iteration();
    match &w.events[w.events.len() - 1] {
        MaterializedEvent::Peek { name, timestamp, conn_id, started } => {
            assert_eq!(name, "v");
            assert_eq!(*timestamp, 0);
            assert_eq!(*conn_id, 4);
            assert!(!started);
        }
        _ => panic!("an answered peek logs its completion"),
    }
    assert_eq!(w.pending_peeks.len(), 1);
    assert_eq!(w.pending_peeks[0].conn_id, 5);
}

#[test]
fn published_log_view_can_be_peeked() {
    let mut w = Worker::new(0, true);
    w.publish_trace(
        s("logs"),
        Arrangement { rows: vec![ArrangedRow { row: row(1), history: vec![(0, 1)] }], upper: vec![2] },
    );
    w.handle_command(peek_cmd("logs", 1, 1));
    assert_eq!(w.finish_iteration()[0].1, vec![row(1)]);
}
