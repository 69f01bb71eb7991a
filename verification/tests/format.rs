use chargelog::codec::{encode_row, header_line, parse_line};
use chargelog::database::recover_last;
use chargelog::records::Record;

fn rec(timestamp: &str, value: &str) -> Record {
    Record { timestamp: String::from(timestamp), value: String::from(value) }
}

#[test]
fn header_line_text() {
    assert_eq!(header_line(), "timestamp,value");
}

#[test]
fn encode_row_joins_with_comma() {
    assert_eq!(encode_row(&rec("2024-01-01T00:00:00Z", "Fast")), "2024-01-01T00:00:00Z,Fast");
}

#[test]
fn parse_line_two_fields() {
    assert_eq!(parse_line("a,b"), Some(rec("a", "b")));
    assert_eq!(parse_line("2024-01-01T00:00:00Z,Fast"), Some(rec("2024-01-01T00:00:00Z", "Fast")));
}

#[test]
fn parse_line_empty_fields() {
    assert_eq!(parse_line(",b"), Some(rec("", "b")));
    assert_eq!(parse_line("a,"), Some(rec("a", "")));
    assert_eq!(parse_line(","), Some(rec("", "")));
}

#[test]
fn parse_line_rejects_other_field_counts() {
    assert_eq!(parse_line(""), None);
    assert_eq!(parse_line("no comma"), None);
    assert_eq!(parse_line("a,b,c"), None);
    assert_eq!(parse_line(",,"), None);
}

#[test]
fn parse_inverts_encode() {
    let r = rec("t9", "some value");
    assert_eq!(parse_line(&encode_row(&r)), Some(r));
}

#[test]
fn recover_last_skips_header_and_takes_last_row() {
    let lines = vec![String::from("timestamp,value")];
    assert_eq!(recover_last(&lines), Ok(None));

    let lines = vec![
        String::from("timestamp,value"),
        String::from("t1,v1"),
        String::from("t2,v2"),
    ];
    assert_eq!(recover_last(&lines), Ok(Some(rec("t2", "v2"))));
}
