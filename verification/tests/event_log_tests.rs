use x4mp::event_log::{frame_line, frame_lines, last_line, tail_lines, EVENT_LOG_TAIL_LIMIT};
use x4mp::text::split_lines;

fn sample_line(seq: u64) -> String {
    format!(
        "{{\"v\":1,\"type\":\"session.ping\",\"session_id\":\"00000000-0000-0000-0000-000000000001\",\"seq\":{seq},\"timestamp_sim\":0.0,\"sender_id\":\"00000000-0000-0000-0000-000000000002\",\"authority\":\"client\",\"payload\":{{}}}}"
    )
}

fn seq_of(line: &str) -> u64 {
    let v: serde_json::Value = serde_json::from_str(line).unwrap();
    v["seq"].as_u64().unwrap()
}

#[test]
fn append_and_read_last() {
    let mut content = String::new();
    content.push_str(&frame_line(&sample_line(1)));
    let last = last_line(&content).unwrap();
    assert_eq!(seq_of(&last), 1);
}

#[test]
fn tail_returns_last_n_lines() {
    let mut content = String::new();
    for seq in 1..=5 {
        content.push_str(&frame_line(&sample_line(seq)));
    }
    let tail = tail_lines(&content, 2);
    assert_eq!(tail.len(), 2);
    assert_eq!(seq_of(&tail[0]), 4);
    assert_eq!(seq_of(&tail[1]), 5);
}

#[test]
fn tail_keeps_at_most_the_limit() {
    let lines: Vec<String> = (1..=205).map(sample_line).collect();
    let content = frame_lines(&lines);
    let tail = tail_lines(&content, EVENT_LOG_TAIL_LIMIT);
    assert_eq!(tail.len(), 200);
    assert_eq!(seq_of(&tail[0]), 6);
    let all = tail_lines(&content, usize::MAX);
    assert_eq!(all, lines);
}

#[test]
fn tail_skips_blank_lines() {
    let content = "a\n   \n\t\nb\r\n\nc";
    assert_eq!(tail_lines(content, 10), vec!["a", "b", "c"]);
    assert_eq!(tail_lines(content, 1), vec!["c"]);
    assert_eq!(tail_lines("", 3), Vec::<String>::new());
}

#[test]
fn read_last_of_empty_or_blank_end() {
    assert_eq!(last_line(""), None);
    assert_eq!(last_line("a\n\n"), None);
    assert_eq!(last_line("a\nb\n"), Some("b".to_string()));
    assert_eq!(last_line("a\nb"), Some("b".to_string()));
}

#[test]
fn split_lines_matches_str_lines() {
    for s in ["", "\n", "a", "a\n", "a\r\nb", "a\r", "a\r\r\n", "\r\n\r\n", "x\ny\n\nz\r"] {
        let expected: Vec<String> = s.lines().map(|l| l.to_string()).collect();
        assert_eq!(split_lines(s), expected, "input {:?}", s);
    }
}

#[test]
fn framed_lines_read_back_unchanged() {
    let lines = vec!["{}".to_string(), "".to_string(), "x y".to_string()];
    let content = frame_lines(&lines);
    assert_eq!(content, "{}\n\nx y\n");
    assert_eq!(split_lines(&content), lines);
}
