use currentcost::framer::{received_bytes_to_string, FramerAction, ReadOutcome, StreamFramer};

#[test]
fn bytes_are_decoded_as_text() {
    assert_eq!(received_bytes_to_string(b"<msg>"), "<msg>");
    assert_eq!(received_bytes_to_string("21.4°C".as_bytes()), "21.4°C");
    assert_eq!(received_bytes_to_string(b""), "");
}

#[test]
fn bytes_that_are_no_text_give_nothing() {
    assert_eq!(received_bytes_to_string(&[0x3c, 0xff, 0x3e]), "");
    assert_eq!(received_bytes_to_string(&[0xc2]), "");
    assert_eq!(received_bytes_to_string(&[0xed, 0xa0, 0x80]), "");
}

fn candidate(action: FramerAction) -> String {
    match action {
        FramerAction::Candidate(text) => text,
        other => panic!("no candidate: {:?}", other),
    }
}

#[test]
fn a_read_with_a_line_feed_completes_a_candidate() {
    let mut framer = StreamFramer::new();
    assert!(matches!(framer.step(&ReadOutcome::Data(b"<msg><src>a")), FramerAction::ReadAgain));
    assert!(matches!(framer.step(&ReadOutcome::Data(b"</src>")), FramerAction::ReadAgain));
    let text = candidate(framer.step(&ReadOutcome::Data(b"</msg>\r\n")));
    assert_eq!(text, "<msg><src>a</src></msg>\r\n");
    let text = candidate(framer.step(&ReadOutcome::Data(b"\n")));
    assert_eq!(text, "\n");
}

#[test]
fn what_follows_the_line_feed_goes_out_with_the_candidate() {
    let mut framer = StreamFramer::new();
    let text = candidate(framer.step(&ReadOutcome::Data(b"<a/>\n<b>")));
    assert_eq!(text, "<a/>\n<b>");
    let text = candidate(framer.step(&ReadOutcome::Data(b"</b>\n")));
    assert_eq!(text, "</b>\n");
}

#[test]
fn timeouts_and_failures_leave_the_buffer() {
    let mut framer = StreamFramer::new();
    assert!(matches!(framer.step(&ReadOutcome::Data(b"<a>")), FramerAction::ReadAgain));
    assert!(matches!(framer.step(&ReadOutcome::TimedOut), FramerAction::ReadAgain));
    assert!(matches!(framer.step(&ReadOutcome::Failed), FramerAction::ReportFailure));
    assert!(matches!(
        framer.step(&ReadOutcome::Data(&[0x0a, 0xff])),
        FramerAction::ReportUndecodable
    ));
    assert!(matches!(framer.step(&ReadOutcome::Data(b"")), FramerAction::ReadAgain));
    let text = candidate(framer.step(&ReadOutcome::Data(b"</a>\n")));
    assert_eq!(text, "<a></a>\n");
}

#[test]
fn no_text_is_lost_between_candidates() {
    let reads: [&[u8]; 8] = [b"<a>", b"1", b"</a>\n<b", b">2</b>", b"\n", b"\n\n", b"tail", b"!\n"];
    let mut framer = StreamFramer::new();
    let mut handed_out = String::new();
    let mut candidates = 0;
    for read in reads {
        if let FramerAction::Candidate(text) = framer.step(&ReadOutcome::Data(read)) {
            assert!(text.contains('\n'));
            handed_out.push_str(&text);
            candidates += 1;
        }
    }
    assert_eq!(candidates, 4);
    assert_eq!(handed_out, "<a>1</a>\n<b>2</b>\n\n\ntail!\n");
}
