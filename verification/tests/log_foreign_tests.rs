use privatium_core::log::foreign::{
    check_opening, complete, envelope_seq, receive, tail_seq, validate, ForeignError, Opening, Problem,
};

fn line(seq: u64, dev: &str) -> String {
    format!(
        "{{\"seq\":{seq},\"lam\":{seq},\"ts\":\"2026-01-01T00:00:00.000Z\",\"dev\":\"{dev}\",\"app\":\"notes\",\"op\":\"put\",\"tbl\":\"t\",\"id\":\"a\",\"d\":{{}}}}\n"
    )
}

#[test]
fn an_envelope_of_this_destination_gives_its_seq() {
    assert_eq!(envelope_seq(line(3, "dev1").as_bytes(), "notes", "dev1"), Ok(Some(3)));
    assert_eq!(envelope_seq(b"not json\n", "notes", "dev1"), Ok(None));
    assert_eq!(envelope_seq(b"{\"x\":1}\n", "notes", "dev1"), Ok(None));
    assert_eq!(
        envelope_seq(line(3, "dev2").as_bytes(), "notes", "dev1"),
        Err(ForeignError::Envelope { seq: 3, problem: Problem::OtherDevice })
    );
    assert_eq!(
        envelope_seq(b"{\"seq\":0}\n", "notes", "dev1"),
        Err(ForeignError::Line(Problem::InvalidSequence))
    );
    let no_d = "{\"seq\":1,\"lam\":1,\"ts\":\"2026-01-01T00:00:00.000Z\",\"dev\":\"dev1\",\"app\":\"notes\",\"op\":\"put\",\"tbl\":\"t\",\"id\":\"a\"}\n";
    assert_eq!(
        envelope_seq(no_d.as_bytes(), "notes", "dev1"),
        Err(ForeignError::Envelope { seq: 1, problem: Problem::InvalidShape })
    );
}

#[test]
fn a_range_must_continue_the_sequence() {
    let two = format!("{}{}", line(5, "d"), line(6, "d"));
    assert_eq!(validate(two.as_bytes(), 4, 4096, "notes", "d"), Ok(6));
    assert_eq!(
        validate(two.as_bytes(), 3, 4096, "notes", "d"),
        Err(ForeignError::OutOfOrder { expected: 4, found: 5 })
    );
    assert_eq!(
        validate(b"{\"seq\":5", 4, 4096, "notes", "d"),
        Err(ForeignError::Line(Problem::EndsInsideLine))
    );
    assert_eq!(validate(two.as_bytes(), 4, 10, "notes", "d"), Err(ForeignError::LineTooLong { limit: 10 }));
    let with_blank = format!("\n{}", line(5, "d"));
    assert_eq!(validate(with_blank.as_bytes(), 4, 4096, "notes", "d"), Ok(5));
}

#[test]
fn an_append_waits_for_the_torn_line() {
    let l = line(1, "d");
    assert_eq!(receive(0, b"", 4096, "notes", "d", b""), Ok((0, Vec::new())));
    assert_eq!(receive(0, b"", 4096, "notes", "d", l.as_bytes()), Ok((1, l.as_bytes().to_vec())));
    assert_eq!(
        receive(0, b"{\"se", 4096, "notes", "d", l.as_bytes()),
        Err(ForeignError::Line(Problem::TornLineFirst))
    );
}

#[test]
fn completing_a_torn_line_writes_only_what_it_lacks() {
    let l = line(1, "d");
    let torn = &l.as_bytes()[..10];
    let (head, written) = complete(0, torn, 512, 4096, "notes", "d", l.as_bytes()).unwrap();
    assert_eq!(head, 1);
    assert_eq!(written, l.as_bytes()[10..].to_vec());
    assert_eq!(complete(0, b"", 512, 4096, "notes", "d", l.as_bytes()), Err(ForeignError::Diverged { offset: 512 }));
    assert_eq!(complete(0, b"xx", 77, 4096, "notes", "d", l.as_bytes()), Err(ForeignError::Diverged { offset: 77 }));
    assert_eq!(complete(0, l.as_bytes(), 0, 4096, "notes", "d", l.as_bytes()), Err(ForeignError::Diverged { offset: 0 }));
}

#[test]
fn the_head_of_a_stream_is_its_last_seq() {
    assert_eq!(tail_seq(b"{\"seq\":12,\"x\":1}"), Some(12));
    assert_eq!(tail_seq(b"garbage"), None);
    assert_eq!(tail_seq(b"[1,2]"), None);
}

#[test]
fn opening_takes_the_torn_bytes_of_the_last_segment_and_the_first_head_found() {
    let o = Opening::new().take_tail(true, None, b"{\"seq\":9".to_vec(), 120).unwrap();
    assert_eq!((o.head, o.torn.as_slice(), o.offset, o.found), (0, &b"{\"seq\":9"[..], 120, false));
    let o = o.take_tail(false, Some(8), Vec::new(), 400).unwrap();
    assert_eq!((o.head, o.torn.as_slice(), o.offset, o.found), (8, &b"{\"seq\":9"[..], 120, true));
    let refused = Opening::new().take_tail(true, None, Vec::new(), 0).unwrap().take_tail(false, Some(3), b"x".to_vec(), 10);
    assert_eq!(refused.err(), Some(ForeignError::Line(Problem::EarlierSegmentTorn)));
    assert_eq!(Problem::EarlierSegmentTorn.text(), "an earlier segment has an incomplete line");
}

#[test]
fn this_nodes_own_log_and_a_zero_bound_are_refused() {
    assert_eq!(check_opening("d1", "d1", 4096), Err(ForeignError::Line(Problem::OwnLog)));
    assert_eq!(check_opening("d2", "d1", 0), Err(ForeignError::Line(Problem::NoLineBound)));
    let own = check_opening("d1", "d1", 4096).unwrap_err();
    assert_eq!(own.problem().map(|p| p.text()), Some("cannot receive this node's own log"));
    let unbounded = check_opening("d2", "d1", 0).unwrap_err();
    assert_eq!(unbounded.problem().map(|p| p.text()), Some("line bound must be positive"));
    assert_eq!(ForeignError::Diverged { offset: 4 }.problem(), None);
    assert_eq!(check_opening("d2", "d1", 4096), Ok(()));
}
