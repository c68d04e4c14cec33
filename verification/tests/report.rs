use error_report::add;
use error_report::ChainError;
use error_report::LimitedSink;
use error_report::Report;
use error_report::SinkError;
use error_report::Sources;
use error_report::StringSink;

const EEE: &str = "test EEE";
const EE: &str = "test EE";
const E: &str = "test E";

fn three() -> ChainError {
    let eee = ChainError::new(EEE);
    let ee = ChainError::with_cause(EE, eee);
    ChainError::with_cause(E, ee)
}

#[test]
fn sources_works() {
    let e = three();
    let mut sources = Sources::new(Some(&e));
    let mut i: u8 = 0;
    while let Some(o) = sources.next() {
        match i {
            0 => assert_eq!(o.to_string(), E),
            1 => assert_eq!(o.to_string(), EE),
            2 => assert_eq!(o.to_string(), EEE),
            _ => panic!("Unexpected variant: {}", i),
        };
        i += 1;
    }
    assert_eq!(i, 3);
    let r = Report::new(&e);
    assert_eq!(r.to_string(), format!("{E}: {EE}: {EEE}"))
}

#[test]
fn report_of_three_is_one_line() {
    let e = three();
    assert_eq!(Report::new(&e).to_string(), "test E: test EE: test EEE");
}

#[test]
fn single_error_has_no_delimiter() {
    let e = ChainError::new("alone");
    let r = Report::new(&e);
    assert_eq!(r.to_string(), "alone");
    assert!(!r.to_string().contains(": "));
}

#[test]
fn single_error_has_no_sources() {
    let e = ChainError::new("alone");
    let r = Report::new(&e);
    let mut sources = r.sources();
    assert!(sources.next().is_none());
    assert_eq!(r.sources().collect().len(), 0);
}

#[test]
fn report_sources_leave_out_the_root() {
    let e = three();
    let r = Report::new(&e);
    let found = r.sources().collect();
    assert_eq!(found.len(), 2);
    assert_eq!(found[0].message(), EE);
    assert_eq!(found[1].message(), EEE);
}

#[test]
fn sources_from_nothing_are_empty() {
    let mut sources = Sources::new(None);
    assert!(sources.next().is_none());
    assert!(sources.next().is_none());
    assert_eq!(Sources::new(None).collect().len(), 0);
}

#[test]
fn sources_stay_ended() {
    let e = three();
    let mut sources = Sources::new(Some(&e));
    assert_eq!(sources.next().map(|o| o.to_string()), Some(E.to_string()));
    assert_eq!(sources.next().map(|o| o.to_string()), Some(EE.to_string()));
    assert_eq!(sources.next().map(|o| o.to_string()), Some(EEE.to_string()));
    for _ in 0..5 {
        assert!(sources.next().is_none());
    }
}

#[test]
fn collect_keeps_chain_order() {
    let e = three();
    let found = Sources::new(Some(&e)).collect();
    let texts: Vec<String> = found.iter().map(|o| o.to_string()).collect();
    assert_eq!(texts, vec![E.to_string(), EE.to_string(), EEE.to_string()]);
}

#[test]
fn rendering_twice_gives_the_same_text() {
    let e = three();
    let r = Report::new(&e);
    let first = r.to_string();
    let second = r.to_string();
    assert_eq!(first, second);
    assert_eq!(Report::new(&e).to_string(), first);
}

#[test]
fn empty_texts_keep_their_delimiters() {
    let e = ChainError::with_cause("", ChainError::with_cause("", ChainError::new("")));
    assert_eq!(Report::new(&e).to_string(), ": : ");
}

#[test]
fn texts_with_delimiters_are_kept_as_they_are() {
    let e = ChainError::with_cause("a: b", ChainError::new("c: d"));
    assert_eq!(Report::new(&e).to_string(), "a: b: c: d");
}

#[test]
fn text_beyond_ascii_is_kept() {
    let e = ChainError::with_cause("données illisibles", ChainError::new("fin de fichier — tôt"));
    assert_eq!(Report::new(&e).to_string(), "données illisibles: fin de fichier — tôt");
}

#[test]
fn source_gives_the_immediate_cause() {
    let e = three();
    let first = e.source().expect("the root has a cause");
    assert_eq!(first.message(), EE);
    let second = first.source().expect("the cause has a cause");
    assert_eq!(second.message(), EEE);
    assert!(second.source().is_none());
    assert_eq!(e.message(), E);
}

#[test]
fn fmt_appends_to_what_the_sink_holds() {
    let e = three();
    let mut sink = StringSink::new();
    let head = ChainError::new("error: ");
    assert_eq!(Report::new(&head).fmt(&mut sink), Ok(()));
    assert_eq!(Report::new(&e).fmt(&mut sink), Ok(()));
    assert_eq!(sink.into_string(), "error: test E: test EE: test EEE");
}

#[test]
fn fmt_fills_a_sink_that_is_just_large_enough() {
    let e = three();
    let mut sink = LimitedSink::new(25);
    assert_eq!(Report::new(&e).fmt(&mut sink), Ok(()));
    assert_eq!(sink.as_str(), "test E: test EE: test EEE");
}

#[test]
fn fmt_passes_on_the_failure_of_the_sink() {
    let e = three();
    let mut sink = LimitedSink::new(24);
    assert_eq!(Report::new(&e).fmt(&mut sink), Err(SinkError));
    assert_eq!(sink.as_str(), "test E: test EE: ");
}

#[test]
fn fmt_keeps_what_was_written_before_the_failure() {
    let e = three();
    let mut sink = LimitedSink::new(10);
    assert_eq!(Report::new(&e).fmt(&mut sink), Err(SinkError));
    assert_eq!(sink.as_str(), "test E: ");
}

#[test]
fn fmt_fails_at_once_where_the_root_does_not_fit() {
    let e = three();
    let mut sink = LimitedSink::new(5);
    assert_eq!(Report::new(&e).fmt(&mut sink), Err(SinkError));
    assert_eq!(sink.as_str(), "");
}

#[test]
fn limited_sink_counts_characters() {
    let e = ChainError::new("tôt");
    let mut sink = LimitedSink::new(3);
    assert_eq!(Report::new(&e).fmt(&mut sink), Ok(()));
    assert_eq!(sink.as_str(), "tôt");
    let mut small = LimitedSink::new(2);
    assert_eq!(Report::new(&e).fmt(&mut small), Err(SinkError));
}

#[test]
fn add_gives_the_sum() {
    assert_eq!(add(2, 2), 4);
    assert_eq!(add(0, 0), 0);
    assert_eq!(add(usize::MAX - 1, 1), usize::MAX);
    assert_eq!(add(0, usize::MAX), usize::MAX);
}
