use fairlead::guard::events::{timestamp, EventLog};
use fairlead::replay::window::civil_exec;

#[test]
fn timestamps_are_utc_with_milliseconds() {
    assert_eq!(timestamp(1_790_450_651_221), "2026-09-26T19:24:11.221Z");
    assert_eq!(timestamp(0), "1970-01-01T00:00:00.000Z");
    assert_eq!(civil_exec(11_016), (2000, 2, 29));
}

#[test]
fn the_log_file_sits_in_its_directory() {
    assert_eq!(EventLog::at("repo/.git/fairlead".to_string()).path(), "repo/.git/fairlead/events.jsonl");
    assert_eq!(EventLog::at("d/".to_string()).path(), "d/events.jsonl");
    assert_eq!(EventLog::at(String::new()).path(), "events.jsonl");
}
