use memcache_response::logger::{LogLevel, SimpleLogger};

#[test]
fn traces_are_not_taken() {
    let sink = SimpleLogger;
    assert!(sink.enabled(LogLevel::Error));
    assert!(sink.enabled(LogLevel::Warn));
    assert!(sink.enabled(LogLevel::Info));
    assert!(sink.enabled(LogLevel::Debug));
    assert!(!sink.enabled(LogLevel::Trace));
}

#[test]
fn only_the_program_itself_is_written() {
    let sink = SimpleLogger;
    assert!(sink.accepts(LogLevel::Info, "rpc_perf"));
    assert!(sink.accepts(LogLevel::Debug, "rpc_perf"));
    assert!(!sink.accepts(LogLevel::Trace, "rpc_perf"));
    assert!(!sink.accepts(LogLevel::Info, "rpc_perf::client"));
    assert!(!sink.accepts(LogLevel::Info, "rpc_per"));
    assert!(!sink.accepts(LogLevel::Info, "mio"));
    assert!(!sink.accepts(LogLevel::Error, ""));
}

#[test]
fn level_names_fill_five_columns() {
    assert_eq!(LogLevel::Error.padded(), "ERROR");
    assert_eq!(LogLevel::Warn.padded(), "WARN ");
    assert_eq!(LogLevel::Info.padded(), "INFO ");
    assert_eq!(LogLevel::Debug.padded(), "DEBUG");
    assert_eq!(LogLevel::Trace.padded(), "TRACE");
}

#[test]
fn a_line_has_time_level_program_and_message() {
    let sink = SimpleLogger;
    assert_eq!(
        sink.render("2015-10-21 07:28:00", LogLevel::Warn, "connection reset"),
        "2015-10-21 07:28:00 WARN  [rpc-perf] connection reset"
    );
    assert_eq!(
        sink.render("2015-10-21 07:28:00", LogLevel::Error, ""),
        "2015-10-21 07:28:00 ERROR [rpc-perf] "
    );
    assert_eq!(sink.render("", LogLevel::Info, "x"), " INFO  [rpc-perf] x");
}

#[test]
fn refused_records_give_no_line() {
    let sink = SimpleLogger;
    assert_eq!(sink.log(LogLevel::Trace, "rpc_perf", "noise"), None);
    assert_eq!(sink.log(LogLevel::Error, "other", "failure"), None);
}

#[test]
fn written_records_are_stamped() {
    let sink = SimpleLogger;
    let line = sink.log(LogLevel::Debug, "rpc_perf", "connected").unwrap();
    let tail = " DEBUG [rpc-perf] connected";
    assert!(line.ends_with(tail));
    let stamp: Vec<char> = line[..line.len() - tail.len()].chars().collect();
    assert_eq!(stamp.len(), 19);
    for (i, c) in stamp.iter().enumerate() {
        match i {
            4 | 7 => assert_eq!(*c, '-'),
            10 => assert_eq!(*c, ' '),
            13 | 16 => assert_eq!(*c, ':'),
            _ => assert!(c.is_ascii_digit()),
        }
    }
}

#[test]
fn a_given_time_is_written_as_it_is() {
    let sink = SimpleLogger;
    assert_eq!(
        sink.stamped(Ok("2015-10-21 07:28:00".to_owned()), LogLevel::Info, "ready"),
        Some("2015-10-21 07:28:00 INFO  [rpc-perf] ready".to_owned())
    );
    assert_eq!(
        sink.stamped(Ok(String::new()), LogLevel::Trace, ""),
        Some(" TRACE [rpc-perf] ".to_owned())
    );
}

#[test]
fn a_refused_format_gives_no_line() {
    let sink = SimpleLogger;
    let refused = time::strftime("%Q", &time::now_utc());
    assert!(refused.is_err());
    assert_eq!(sink.stamped(refused, LogLevel::Info, "ready"), None);
    assert_eq!(
        sink.stamped(Err(time::ParseError::MissingFormatConverter), LogLevel::Error, "x"),
        None
    );
}

#[test]
fn every_accepted_record_gets_its_line() {
    let sink = SimpleLogger;
    for level in [LogLevel::Error, LogLevel::Warn, LogLevel::Info, LogLevel::Debug] {
        let line = sink.log(level, "rpc_perf", "tick").unwrap();
        let tail = format!(" {} [rpc-perf] tick", level.padded());
        assert!(line.ends_with(&tail));
        assert_eq!(line.len(), 19 + tail.len());
        assert!(!line.contains('%'));
    }
}
