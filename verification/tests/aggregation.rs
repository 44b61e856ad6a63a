use spanlog::logs::truncate_to_char_boundary;
use spanlog::{Collector, FieldSnapshot, LogStream};

fn snapshot(pairs: &[(&str, &str)]) -> FieldSnapshot {
    let mut s = FieldSnapshot::new();
    for (name, value) in pairs {
        s.insert(name.to_string(), value.to_string());
    }
    s
}

#[test]
fn truncating_never_splits_a_character() {
    let text = "a✌️b";
    for max in 0..=text.len() {
        let (cut, prefix) = truncate_to_char_boundary(text, max);
        assert!(prefix.len() <= max);
        assert!(text.is_char_boundary(prefix.len()));
        assert!(text.starts_with(prefix));
        assert_eq!(cut, max < text.len());
        // Truncating again at the same budget is a no-op.
        let (again_cut, again) = truncate_to_char_boundary(prefix, max);
        assert!(!again_cut);
        assert_eq!(prefix, again);
    }
    let (cut, prefix) = truncate_to_char_boundary("a✌️b", 3);
    assert!(cut);
    assert_eq!("a", prefix);
}

#[test]
fn update_snapshots_are_deltas_not_merges() {
    let mut collector = Collector::new();
    let mut sink = LogStream::with_capacity(1024);
    collector.on_scope_created(1, snapshot(&[("a", "1")]));
    collector.on_fields_updated(1, snapshot(&[("b", "2")]));
    collector.on_scope_closed(1, &mut sink);
    let lines = sink.lines();
    assert_eq!(2, lines.len());
    assert_eq!("{a=1}", lines[0]);
    assert_eq!("{b=2}", lines[1]);
}

#[test]
fn event_without_active_scope_is_dropped() {
    let mut collector = Collector::new();
    let mut sink = LogStream::with_capacity(1024);
    collector.on_event_recorded(None, snapshot(&[("lost", "event")]));
    collector.on_scope_created(7, snapshot(&[("a", "1")]));
    collector.on_scope_closed(7, &mut sink);
    // The dropped event left no stored line anywhere: only the scope's own
    // snapshot was drained.
    assert_eq!(1, sink.lines().len());
    assert_eq!("{a=1}", sink.lines()[0]);
}

#[test]
fn event_on_active_scope_joins_its_history() {
    let mut collector = Collector::new();
    let mut sink = LogStream::with_capacity(1024);
    collector.on_scope_created(3, snapshot(&[("op", "start")]));
    collector.on_event_recorded(Some(3), snapshot(&[("msg", "hi")]));
    collector.on_scope_closed(3, &mut sink);
    let lines = sink.lines();
    assert_eq!(2, lines.len());
    assert_eq!("{op=start}", lines[0]);
    assert_eq!("{msg=hi}", lines[1]);
}

#[test]
fn insert_overwrites_existing_name_in_place() {
    let mut s = FieldSnapshot::new();
    s.insert("k".to_string(), "1".to_string());
    s.insert("other".to_string(), "x".to_string());
    s.insert("k".to_string(), "2".to_string());
    assert_eq!("{k=2, other=x}", s.format_line());
}

#[test]
fn format_line_renders_entries_in_insertion_order() {
    assert_eq!("{}", FieldSnapshot::new().format_line());
    assert_eq!("{a=1}", snapshot(&[("a", "1")]).format_line());
    assert_eq!("{b=2, a=1}", snapshot(&[("b", "2"), ("a", "1")]).format_line());
}

#[test]
fn timestamped_snapshot_holds_one_time_field() {
    let s = FieldSnapshot::new_timestamped();
    let line = s.format_line();
    assert!(line.starts_with("{time="));
    assert!(line.ends_with("}"));
    assert!(line.len() > "{time=}".len());
}

#[test]
fn event_base_holds_the_four_metadata_fields() {
    let s = FieldSnapshot::event_base(
        "INFO".to_string(),
        "12".to_string(),
        "main.rs".to_string(),
    );
    let line = s.format_line();
    assert!(line.starts_with("{level=INFO, line=12, file=main.rs, time="));
}

#[test]
fn has_scope_follows_creation_and_closure() {
    let mut collector = Collector::new();
    let mut sink = LogStream::with_capacity(64);
    assert!(!collector.has_scope(5));
    collector.on_scope_created(5, snapshot(&[("a", "1")]));
    assert!(collector.has_scope(5));
    collector.on_scope_closed(5, &mut sink);
    assert!(!collector.has_scope(5));
}

#[test]
fn drained_lines_obey_the_sink_capacity() {
    let mut collector = Collector::new();
    let mut sink = LogStream::with_capacity(5);
    collector.on_scope_created(1, snapshot(&[("a", "1")]));
    collector.on_fields_updated(1, snapshot(&[("b", "2")]));
    collector.on_fields_updated(1, snapshot(&[("c", "3")]));
    collector.on_scope_closed(1, &mut sink);
    let lines = sink.lines();
    // The first line exactly fills the 5-byte budget; the second is cut to
    // an empty budget and stored as the bare marker, which closes the
    // stream; the third is dropped entirely.
    assert_eq!(2, lines.len());
    assert_eq!("{a=1}", lines[0]);
    assert_eq!("...[TRUNCATED]", lines[1]);
}
