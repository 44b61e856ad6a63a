use spanlog::LogStream;

#[test]
fn default_does_not_stackoverflow() {
    let _l = LogStream::default();
    let _l = LogStream::with_capacity(42);
}

#[test]
fn test_bounded_log() {
    let mut bounded_log = LogStream::with_capacity(15);
    let log = b"hello world";
    bounded_log.append(log).unwrap();
    assert_eq!(Some("hello world"), bounded_log.last_message());
}

#[test]
fn test_bounded_log_when_truncated() {
    let mut bounded_log = LogStream::with_capacity(10);
    let log = b"hello world";
    bounded_log.append(log).unwrap();
    assert_eq!(Some("hello worl...[TRUNCATED]"), bounded_log.last_message());
}

#[test]
fn test_bounded_log_when_truncated_nearest_valid_utf8() {
    let mut bounded_log = LogStream::with_capacity(15);
    bounded_log.append("✌️✌️✌️".as_bytes()).unwrap(); // ✌️ is 6 bytes, ✌ is 3;
    assert_eq!(Some("✌️✌️✌...[TRUNCATED]"), bounded_log.last_message());
}

#[test]
fn test_display() {
    let mut logs = LogStream::with_capacity(10);
    assert_eq!("".to_string(), logs.contents());

    logs.append(b"hello").unwrap();
    logs.append(b"world").unwrap();

    assert_eq!("helloworld", logs.contents());
}

#[test]
fn fills_to_capacity_then_stores_bare_marker() {
    let mut logs = LogStream::with_capacity(10);
    assert_eq!(5, logs.append(b"hello").unwrap());
    assert_eq!(Some("hello"), logs.last_message());
    assert_eq!(5, logs.append(b"world").unwrap());
    assert_eq!("helloworld", logs.contents());
    // The counter now equals the capacity, which does not yet close the
    // stream: the next write truncates to an empty budget, so the stored
    // line is just the marker.
    let written = logs.append(b"!").unwrap();
    assert_eq!("...[TRUNCATED]".len(), written);
    assert_eq!(Some("...[TRUNCATED]"), logs.last_message());
    assert_eq!("helloworld...[TRUNCATED]", logs.contents());
}

#[test]
fn closed_stream_drops_every_later_append() {
    let mut logs = LogStream::with_capacity(4);
    let first = logs.append(b"toolong").unwrap();
    assert_eq!("tool...[TRUNCATED]".len(), first);
    assert_eq!(Some("tool...[TRUNCATED]"), logs.last_message());
    // The marker pushed the counter past the capacity: the stream is closed.
    assert_eq!(0, logs.append(b"x").unwrap());
    assert_eq!(0, logs.append(b"more text").unwrap());
    assert_eq!(1, logs.lines().len());
    assert_eq!("tool...[TRUNCATED]", logs.contents());
}

#[test]
fn empty_input_is_a_no_op() {
    let mut logs = LogStream::with_capacity(8);
    assert_eq!(0, logs.append(b"").unwrap());
    assert_eq!(None, logs.last_message());
    assert_eq!(None, logs.last());
    assert_eq!(0, logs.lines().len());
}

#[test]
fn invalid_bytes_are_replaced_not_dropped() {
    let mut logs = LogStream::with_capacity(100);
    let written = logs.append(&[0xff, 0xfe]).unwrap();
    assert_eq!("\u{fffd}\u{fffd}".len(), written);
    assert_eq!(Some("\u{fffd}\u{fffd}"), logs.last_message());
}

#[test]
fn truncation_reports_stored_line_length() {
    let mut logs = LogStream::with_capacity(6);
    let written = logs.append("naïveté".as_bytes()).unwrap();
    // "naïveté" is 9 bytes; the 6-byte budget ends inside no character, so
    // the prefix "naïve" (6 bytes) is kept and the marker appended.
    assert_eq!(Some("naïve...[TRUNCATED]"), logs.last_message());
    assert_eq!("naïve...[TRUNCATED]".len(), written);
}
