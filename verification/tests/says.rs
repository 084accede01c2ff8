use fairlead::config;
use fairlead::guard::comments::says::{agent_phrase, History, ItemCodes};
use fairlead::matcher::Matcher;

fn history() -> History {
    History::new(&config::History {
        dates: true,
        names: vec!["Ada".into()],
        phrases: vec!["used to".into(), "on 2026".into()],
        measured: true,
    })
    .unwrap()
}

#[test]
fn history_finds_dates_names_whole_word_phrases_and_measurements() {
    let h = history();
    assert_eq!(h.check("since 2026-01-02").as_deref(), Some("a date"));
    assert_eq!(h.check("ask Ada").as_deref(), Some("\"Ada\""));
    assert_eq!(h.check("ask Adam"), None);
    assert_eq!(h.check("it Used To wait").as_deref(), Some("\"used to\""));
    assert_eq!(h.check("it refused toast"), None);
    assert_eq!(h.check("measured at 40 ms").as_deref(), Some("a measurement beside \"measured\""));
    assert_eq!(h.check("waits 40 ms"), None);
}

fn codes() -> ItemCodes {
    ItemCodes::new(&config::ItemCodes { pattern: r"(?-u:\b)T[0-9]{4}(?-u:\b)".into(), pointer: true }).unwrap()
}

#[test]
fn a_code_in_a_pointer_at_the_end_or_before_a_full_stop_is_allowed() {
    let c = codes();
    assert!(c.check("why this is so (T1024)").is_empty());
    assert!(c.check("why (T1024, T1025). More words").is_empty());
    assert_eq!(c.check("see (T1024) for more"), ["T1024"]);
    assert_eq!(c.check("T1024 and T1024 and T1025"), ["T1024", "T1025"]);
    assert_eq!(c.check("(T1024 and more)"), ["T1024"]);
}

#[test]
fn without_pointers_every_code_counts() {
    let c = ItemCodes::new(&config::ItemCodes { pattern: "T[0-9]+".into(), pointer: false }).unwrap();
    assert_eq!(c.check("done (T12)."), ["T12"]);
    assert!(c.pointers("done (T12).").is_empty());
    assert!(ItemCodes::new(&config::ItemCodes { pattern: "(".into(), pointer: false }).is_err());
}

#[test]
fn the_first_agent_phrase_is_reported_as_written() {
    let phrases = vec![Matcher::new("(?i)make sure to").unwrap(), Matcher::new("(?i)do not").unwrap()];
    assert_eq!(agent_phrase(&phrases, "Do not touch; Make Sure To ask").as_deref(), Some("Make Sure To"));
    assert_eq!(agent_phrase(&phrases, "counts the rows"), None);
}
