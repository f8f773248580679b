use shaken::conn::{diagnostic_form, ConnError, StreamEvent, TestConn};
use shaken::framer::split;

#[test]
fn read_returns_preloaded_line_then_nothing() {
    let mut conn = TestConn::new(vec!["PING :abc\r\n".to_string()]);
    assert_eq!(conn.read(), Some("PING :abc".to_string()));
    assert_eq!(conn.read(), None);
    assert_eq!(conn.read(), None);
}

#[test]
fn read_strips_lone_line_feed() {
    let mut conn = TestConn::new(vec!["PING :x\n".to_string()]);
    assert_eq!(conn.read(), Some("PING :x".to_string()));
}

#[test]
fn read_keeps_unterminated_line() {
    let mut conn = TestConn::new(vec!["partial".to_string()]);
    assert_eq!(conn.read(), Some("partial".to_string()));
}

#[test]
fn read_returns_lines_in_order() {
    let mut conn = TestConn::new(vec![
        "001 :welcome\r\n".to_string(),
        "PING :tok\r\n".to_string(),
    ]);
    assert_eq!(conn.read(), Some("001 :welcome".to_string()));
    assert_eq!(conn.read(), Some("PING :tok".to_string()));
    assert_eq!(conn.read(), None);
}

#[test]
fn write_records_each_line_then_one_flush() {
    // A 600-byte message with one colon at byte 10 frames to at least two
    // lines; each becomes one write on the double, in order, and the write
    // side is flushed once after the whole sequence.
    let head = "COMMANDXYZ";
    let msg = format!("{}:{}", head, "y".repeat(589));
    assert_eq!(msg.len(), 600);
    let expected = split(&msg);
    assert!(expected.len() >= 2);

    let mut conn = TestConn::new(Vec::new());
    conn.write(&msg);
    assert_eq!(conn.events.len(), expected.len() + 1);
    for (event, line) in conn.events.iter().zip(expected.iter()) {
        match event {
            StreamEvent::Line(l) => {
                assert_eq!(l, line);
                assert!(l.len() <= 512);
            }
            StreamEvent::Flush => panic!("flushed before the sequence ended"),
        }
    }
    assert!(matches!(conn.events.last(), Some(StreamEvent::Flush)));
}

#[test]
fn write_flushes_once_per_message() {
    let mut conn = TestConn::new(Vec::new());
    conn.write("JOIN #museun");
    conn.write("PONG :token");
    let flushes = conn
        .events
        .iter()
        .filter(|e| matches!(e, StreamEvent::Flush))
        .count();
    assert_eq!(flushes, 2);
    assert_eq!(conn.events.len(), 4);
}

#[test]
fn write_surfaces_plain_lines_without_terminator() {
    let mut conn = TestConn::new(Vec::new());
    conn.write("NICK shaken");
    assert_eq!(conn.log, vec!["NICK shaken".to_string()]);
}

#[test]
fn password_write_never_reaches_the_log() {
    let mut conn = TestConn::new(Vec::new());
    conn.write("PASS hunter2");
    conn.write("NICK shaken");
    assert!(!conn.log.is_empty());
    for entry in &conn.log {
        assert!(!entry.contains("PASS"));
        assert!(!entry.contains("hunter2"));
    }
    // The line itself still went out on the wire.
    assert!(matches!(&conn.events[0], StreamEvent::Line(l) if l.starts_with("PASS")));
}

#[test]
fn write_does_not_disturb_the_read_side() {
    let mut conn = TestConn::new(vec!["PING :a\r\n".to_string()]);
    conn.write("PONG :a");
    assert_eq!(conn.read(), Some("PING :a".to_string()));
}

#[test]
fn diagnostic_form_strips_terminator() {
    assert_eq!(
        diagnostic_form("NICK x\r\n"),
        Some("NICK x".to_string())
    );
}

#[test]
fn diagnostic_form_hides_auth_lines() {
    assert_eq!(diagnostic_form("PASS abc\r\n"), None);
    assert_eq!(diagnostic_form("PASSING\r\n"), None);
}

#[test]
fn diagnostic_form_keeps_short_lines() {
    assert_eq!(diagnostic_form("PAS\r\n"), Some("PAS".to_string()));
    assert_eq!(diagnostic_form("\r\n"), Some("".to_string()));
}

#[test]
fn conn_error_descriptions() {
    assert_eq!(ConnError::InvalidAddress.describe(), "invalid address");
    assert_eq!(ConnError::CannotConnect.describe(), "cannot connect");
}
