use xi_editor::trace::{sort_traces, trace_report, PrettyDuration, Trace};

fn tr(timestamp: u64, label: &str, parent: Option<u64>) -> Trace {
    Trace { timestamp, proc_name: "p".to_string(), label: label.to_string(), parent }
}

#[test]
fn from_nanos_splits() {
    let d = PrettyDuration::from_nanos(1_234_567_891);
    assert_eq!((d.secs, d.millis, d.micros, d.nanos), (1, 234, 567, 891));
    assert_eq!(d.secs * 1_000_000_000 + d.millis * 1_000_000 + d.micros * 1_000 + d.nanos, 1_234_567_891);
    let z = PrettyDuration::from_nanos(0);
    assert_eq!((z.secs, z.millis, z.micros, z.nanos), (0, 0, 0, 0));
    let m = PrettyDuration::from_nanos(u64::MAX);
    assert_eq!((m.secs, m.millis, m.micros, m.nanos), (18_446_744_073, 709, 551, 615));
}

#[test]
fn duration_text() {
    assert_eq!(PrettyDuration::from_nanos(1_234_567_891).to_text(), "1.2s");
    assert_eq!(PrettyDuration::from_nanos(234_567_891).to_text(), "234.5ms");
    assert_eq!(PrettyDuration::from_nanos(567_891).to_text(), "567µs");
    assert_eq!(PrettyDuration::from_nanos(891).to_text(), "891ns");
    assert_eq!(PrettyDuration::from_nanos(0).to_text(), "0ns");
    assert_eq!(PrettyDuration::from_nanos(3_050_000_000).to_text(), "3.0s");
}

#[test]
fn trace_at_and_orphans() {
    let t = Trace::at("work".to_string(), Some(5), Some(42), 7);
    assert_eq!(t.timestamp, 42);
    assert_eq!(t.proc_name, "xi-rpc");
    assert_eq!(t.label, "work");
    assert_eq!(t.parent, Some(5));
    assert!(!t.is_orphan());
    let clocked = Trace::at("clock".to_string(), None, None, 99);
    assert_eq!(clocked.timestamp, 99);
    assert!(clocked.is_orphan());
    assert!(Trace::at("a".to_string(), Some(0), Some(1), 0).is_orphan());
}

#[test]
fn sort_is_stable_by_time() {
    let traces = vec![
        vec![tr(5, "a", None), tr(3, "b", None)],
        vec![tr(5, "c", None), tr(1, "d", None), tr(3, "e", None)],
    ];
    let sorted = sort_traces(traces);
    let labels: Vec<&str> = sorted.iter().map(|t| t.label.as_str()).collect();
    assert_eq!(labels, vec!["d", "b", "e", "a", "c"]);
    assert!(sort_traces(vec![]).is_empty());
}

#[test]
fn report_measures_from_tree_start() {
    let traces = vec![vec![
        tr(1_000, "root", None),
        tr(1_500, "child", Some(1_000)),
        tr(2_000_000, "root2", Some(0)),
        tr(2_000_250, "leaf", Some(2_000_000)),
    ]];
    let lines = trace_report(&sort_traces(traces));
    assert_eq!(
        lines,
        vec![
            "\n### new tree ###".to_string(),
            "  0ns p.root".to_string(),
            "500ns p.child".to_string(),
            "\n### new tree ###".to_string(),
            "  0ns p.root2".to_string(),
            "250ns p.leaf".to_string(),
        ]
    );
}

#[test]
fn report_without_orphan_starts_at_first() {
    let lines = trace_report(&vec![tr(10, "x", Some(3)), tr(2_000_010, "y", Some(3))]);
    assert_eq!(lines, vec!["  0ns p.x".to_string(), "2.0ms p.y".to_string()]);
    assert!(trace_report(&vec![]).is_empty());
}
