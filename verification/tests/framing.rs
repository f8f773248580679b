use shaken::framer::split;

#[test]
fn short_message_single_line() {
    let lines = split("PONG :hello");
    assert_eq!(lines, vec!["PONG :hello\r\n".to_string()]);
}

#[test]
fn empty_message_single_line() {
    let lines = split("");
    assert_eq!(lines, vec!["\r\n".to_string()]);
}

#[test]
fn long_message_without_colon_single_line() {
    let msg = "a".repeat(600);
    let lines = split(&msg);
    assert_eq!(lines.len(), 1);
    assert_eq!(lines[0], format!("{}\r\n", msg));
}

#[test]
fn colon_message_at_threshold_single_line() {
    // 508 bytes exactly: still one line, colon or not.
    let msg = format!("CMD :{}", "x".repeat(503));
    assert_eq!(msg.len(), 508);
    let lines = split(&msg);
    assert_eq!(lines, vec![format!("{}\r\n", msg)]);
}

#[test]
fn colon_message_over_threshold_splits() {
    // 509 bytes: the head/tail split kicks in.
    let msg = format!("CMD :{}", "x".repeat(504));
    assert_eq!(msg.len(), 509);
    let lines = split(&msg);
    assert_eq!(lines, vec![format!("CMD :{}\r\n", "x".repeat(504))]);
}

#[test]
fn splits_at_first_colon_not_last() {
    // Head is everything before the *first* colon; later colons belong to
    // the tail.
    let tail = format!("b:c{}", "x".repeat(520));
    let msg = format!("CMD a:{}", tail);
    let lines = split(&msg);
    assert_eq!(lines.len(), 2);
    // budget: 508 - "CMD a".len() == 503
    assert_eq!(lines[0], format!("CMD a :{}\r\n", &tail[..503]));
    assert_eq!(lines[1], format!("CMD a :{}\r\n", &tail[503..]));
    assert!(lines[0].starts_with("CMD a :b:c"));
}

#[test]
fn split_lines_respect_length_limit() {
    // A 600-byte message with one colon at byte 10.
    let head = "COMMANDXYZ";
    assert_eq!(head.len(), 10);
    let tail = "y".repeat(589);
    let msg = format!("{}:{}", head, tail);
    assert_eq!(msg.len(), 600);
    let lines = split(&msg);
    assert!(lines.len() >= 2);
    let mut rebuilt = String::new();
    for line in &lines {
        assert!(line.len() <= 512);
        assert!(line.ends_with("\r\n"));
        let body = &line[..line.len() - 2];
        assert!(body.len() <= 510);
        assert!(body.starts_with("COMMANDXYZ :"));
        rebuilt.push_str(&body["COMMANDXYZ :".len()..]);
    }
    assert_eq!(rebuilt, tail);
}

#[test]
fn head_and_tail_are_trimmed() {
    let msg = format!("CMD :  {}", "x".repeat(510));
    let lines = split(&msg);
    assert_eq!(lines.len(), 2);
    // budget: 508 - "CMD".len() == 505
    assert_eq!(lines[0], format!("CMD :{}\r\n", "x".repeat(505)));
    assert_eq!(lines[1], format!("CMD :{}\r\n", "x".repeat(5)));
}

#[test]
fn chunk_cutting_a_character_is_dropped() {
    // Head "AB" leaves a budget of 506 tail bytes per chunk.  The two-byte
    // character straddles the first chunk boundary, so the first chunk ends
    // mid-character and the second starts mid-character: both are dropped.
    // The third chunk is clean and survives.
    let tail = format!("{}\u{e9}{}{}", "x".repeat(505), "y".repeat(505), "z".repeat(5));
    assert_eq!(tail.len(), 1017);
    let msg = format!("AB:{}", tail);
    let lines = split(&msg);
    assert_eq!(lines, vec![format!("AB :{}\r\n", "z".repeat(5))]);
}

#[test]
fn oversized_head_sends_message_whole() {
    // A trimmed head of 508 bytes or more leaves no room for tail bytes:
    // the message goes out as one line, like one without a colon.
    let msg = format!("{}:tail", "H".repeat(520));
    let lines = split(&msg);
    assert_eq!(lines, vec![format!("{}\r\n", msg)]);
}

#[test]
fn whitespace_tail_yields_no_lines() {
    // An oversized message whose trailing parameter trims to nothing has
    // no chunks at all, so nothing is framed.
    let msg = format!("CMD:{}", " ".repeat(505));
    assert_eq!(msg.len(), 509);
    let lines = split(&msg);
    assert!(lines.is_empty());
}

#[test]
fn leading_colon_gives_empty_head() {
    // A first colon at byte 0 makes the head empty; each line is just the
    // separator, a chunk and the terminator, with a budget of 508.
    let msg = format!(":{}", "x".repeat(520));
    let lines = split(&msg);
    assert_eq!(lines.len(), 2);
    assert_eq!(lines[0], format!(" :{}\r\n", "x".repeat(508)));
    assert_eq!(lines[1], format!(" :{}\r\n", "x".repeat(12)));
}
