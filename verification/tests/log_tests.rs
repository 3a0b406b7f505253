use privatium_core::log::batch::{covered, incomplete, Head};
use privatium_core::log::lamport::Lamport;
use privatium_core::log::envelope::Meta;
use privatium_core::log::reader::{parse_segment_name, recover, scan_line, segment_lines, Reader, ScannedLine};

#[test]
fn a_fresh_counter_starts_at_one() {
    let mut lamport = Lamport::default();
    assert_eq!(lamport.get(), 0);
    assert_eq!(lamport.tick(), 1);
    assert_eq!(lamport.tick(), 2);
}

#[test]
fn observing_a_higher_value_jumps_the_counter() {
    let mut lamport = Lamport::new(3);
    lamport.observe(8830);
    assert_eq!(lamport.tick(), 8831);
}

#[test]
fn observing_a_lower_value_does_nothing() {
    let mut lamport = Lamport::new(100);
    lamport.observe(4);
    assert_eq!(lamport.get(), 100);
    assert_eq!(lamport.tick(), 101);
}

#[test]
fn the_counter_saturates_rather_than_wrapping() {
    let mut lamport = Lamport::new(u64::MAX);
    assert_eq!(lamport.tick(), u64::MAX);
}

fn head(seq: u64, ts: &str, batch: Option<u64>) -> Head {
    Head {
        seq,
        ts: Some(ts.to_string()),
        batch,
    }
}

#[test]
fn complete_batches_and_single_lines_are_left_alone() {
    let heads = [
        head(1, "a", None),
        head(2, "b", Some(3)),
        head(3, "b", None),
        head(4, "b", None),
        head(5, "c", None),
    ];
    assert!(incomplete(&heads).is_empty());
}

#[test]
fn a_batch_cut_at_the_end_of_the_segment_is_incomplete() {
    let heads = [
        head(1, "a", None),
        head(2, "b", Some(3)),
        head(3, "b", None),
    ];
    assert_eq!(incomplete(&heads), vec![1..3]);
    assert!(!covered(&incomplete(&heads), 0));
    assert!(covered(&incomplete(&heads), 2));
}

#[test]
fn a_batch_cut_mid_file_is_incomplete_and_what_follows_is_not() {
    let heads = [
        head(2, "b", Some(3)),
        head(3, "b", None),
        head(4, "c", None),
        head(5, "d", Some(2)),
        head(6, "d", None),
    ];
    assert_eq!(incomplete(&heads), vec![0..2]);
}

#[test]
fn a_new_header_or_a_seq_gap_ends_the_batch() {
    let heads = [
        head(1, "b", Some(3)),
        head(2, "b", None),
        head(3, "b", Some(2)),
        head(4, "b", None),
    ];
    assert_eq!(incomplete(&heads), vec![0..2]);
    let gap = [head(1, "b", Some(2)), head(3, "b", None)];
    assert_eq!(incomplete(&gap), vec![0..1]);
}

#[test]
fn a_count_below_two_is_not_a_marker() {
    let heads = [head(1, "a", Some(1)), head(2, "a", Some(0))];
    assert!(incomplete(&heads).is_empty());
}

fn seg(name: &str) -> Option<(String, u32)> {
    parse_segment_name(name)
}

fn some(dev: &str, n: u32) -> Option<(String, u32)> {
    Some((dev.to_string(), n))
}

#[test]
fn the_live_tail_is_index_one_and_rolled_files_start_at_two() {
    assert_eq!(seg("k7m2q9xf.jsonl"), some("k7m2q9xf", 1));
    assert_eq!(seg("k7m2q9xf.2.jsonl"), some("k7m2q9xf", 2));
    assert_eq!(seg("k7m2q9xf.10.jsonl"), some("k7m2q9xf", 10));
}

#[test]
fn a_file_claiming_index_one_or_zero_is_not_a_segment() {
    assert_eq!(seg("k7m2q9xf.1.jsonl"), None);
    assert_eq!(seg("k7m2q9xf.0.jsonl"), None);
}

#[test]
fn anything_that_is_not_a_segment_is_ignored() {
    assert_eq!(seg("k7m2q9xf.jsonl.tmp"), None);
    assert_eq!(seg("k7m2q9xf.bak.jsonl"), None);
    assert_eq!(seg("README.md"), None);
    assert_eq!(seg(".jsonl"), None);
}

#[test]
fn segments_order_numerically_not_lexically() {
    let files: Vec<(String, String)> = ["dev.10.jsonl", "dev.2.jsonl", "dev.jsonl"]
        .iter()
        .map(|n| (format!("log/{n}"), n.to_string()))
        .collect();
    let reader = Reader::from_files(&files);
    let order: Vec<u32> = reader.segments().iter().map(|s| s.index()).collect();
    assert_eq!(order, vec![1, 2, 10]);
}

#[test]
fn segments_group_by_device_and_skip_strays() {
    let files: Vec<(String, String)> = ["b.jsonl", "a.3.jsonl", "notes.txt", "a.jsonl", "b.2.jsonl"]
        .iter()
        .map(|n| (format!("log/{n}"), n.to_string()))
        .collect();
    let reader = Reader::from_files(&files);
    let got: Vec<(String, u32)> = reader
        .segments()
        .iter()
        .map(|s| (s.dev().to_string(), s.index()))
        .collect();
    assert_eq!(
        got,
        vec![
            ("a".to_string(), 1),
            ("a".to_string(), 3),
            ("b".to_string(), 1),
            ("b".to_string(), 2)
        ]
    );
    assert_eq!(reader.segments_for("b").len(), 2);
    assert_eq!(reader.segments()[1].path(), "log/a.3.jsonl");
}

#[test]
fn a_plus_sign_and_leading_zeros_read_as_u32_does() {
    assert_eq!(seg("d.+7.jsonl"), some("d", 7));
    assert_eq!(seg("d.007.jsonl"), some("d", 7));
    assert_eq!(seg("d.4294967296.jsonl"), None);
    assert_eq!(seg("d.4294967295.jsonl"), some("d", 4294967295));
}

#[test]
fn lines_keep_their_offsets_skip_blanks_and_report_a_torn_tail() {
    let (lines, partial) = segment_lines(b"{\"a\":1}\n  \r\n{\"b\":2}\r\n{\"c\"");
    assert_eq!(lines.len(), 2);
    assert_eq!(lines[0].raw(), b"{\"a\":1}");
    assert_eq!(lines[0].offset(), 0);
    assert_eq!(lines[1].raw(), b"{\"b\":2}\r");
    assert_eq!(lines[1].offset(), 12);
    assert_eq!(partial, Some(21));
    let (lines, partial) = segment_lines(b"x\n");
    assert_eq!(lines.len(), 1);
    assert_eq!(partial, None);
    assert_eq!(segment_lines(b"").0.len(), 0);
}

fn event(dev: &str, seq: u64, lam: u64, ts: &str) -> ScannedLine {
    ScannedLine {
        segment: format!("log/{dev}.jsonl"),
        offset: seq * 10,
        meta: Ok(Meta {
            seq,
            lam,
            ts: ts.to_string(),
            dev: dev.to_string(),
            batch: None,
        }),
    }
}

const NOW: i128 = 1_756_000_000_000_000_000;

#[test]
fn recovery_folds_accepted_events_and_excludes_the_future() {
    let lines = vec![
        event("me", 1, 4, "2025-08-24T01:46:00Z"),
        event("peer", 7, 9, "2025-08-24T01:46:10Z"),
        ScannedLine {
            segment: "log/peer.jsonl".to_string(),
            offset: 99,
            meta: Err("expected value".to_string()),
        },
        event("peer", 8, 500, "2025-08-26T01:46:40Z"),
        event("me", 2, 10, "not a time"),
    ];
    let r = recover(&lines, "me", 3, &[], NOW);
    assert_eq!(r.own_seq, 2);
    assert_eq!(r.lam.get(), 10);
    assert_eq!(r.heads, vec![("me".to_string(), 2), ("peer".to_string(), 8)]);
    assert_eq!(r.malformed.len(), 1);
    assert_eq!(r.malformed[0].offset, 99);
    assert_eq!(r.rejected.len(), 1);
    assert_eq!(r.rejected[0].seq, 8);
    assert_eq!(r.rejected[0].ahead_secs, 2 * 86400);
    assert!(r.skew.is_none());
    let again = recover(&lines, "me", 3, &[("peer".to_string(), 8)], NOW);
    assert!(again.rejected.is_empty(), "a rejection is reported once");
    assert_eq!(again.lam.get(), 10);
}

#[test]
fn a_clock_behind_its_own_last_event_is_reported() {
    let lines = vec![event("me", 1, 1, "2025-08-24T01:48:40Z")];
    let r = recover(&lines, "me", 0, &[], NOW);
    let skew = r.skew.unwrap();
    assert_eq!(skew.behind_secs, 120);
    assert_eq!(skew.tail_ts, "2025-08-24T01:48:40Z");
    let near = vec![event("me", 1, 1, "2025-08-24T01:47:00Z")];
    assert!(recover(&near, "me", 0, &[], NOW).skew.is_none());
}

#[test]
fn a_line_is_read_for_its_envelope_fields_or_said_to_be_none() {
    let line = br#"{"seq":3,"lam":9,"ts":"2025-01-01T00:00:00Z","dev":"d1","app":"notes","batch":2}"#;
    let scanned = scan_line("log/d1.jsonl", 7, line);
    assert_eq!(scanned.segment, "log/d1.jsonl");
    assert_eq!(scanned.offset, 7);
    let meta = scanned.meta.unwrap();
    assert_eq!((meta.seq, meta.lam, meta.ts.as_str(), meta.dev.as_str(), meta.batch), (3, 9, "2025-01-01T00:00:00Z", "d1", Some(2)));
    let plain = scan_line("s", 0, br#"{"seq":1,"lam":1,"ts":"t","dev":"d"}"#).meta.unwrap();
    assert_eq!(plain.batch, None);
    assert_eq!(scan_line("s", 0, b"{not json").meta, Err("not JSON".to_string()));
    let wrong = scan_line("s", 0, br#"{"seq":"3","lam":1,"ts":"t","dev":"d"}"#).meta.unwrap_err();
    assert!(wrong.starts_with("not an envelope"));
    assert!(scan_line("s", 0, br#"[1,2]"#).meta.is_err());
    assert!(scan_line("s", 0, br#"{"seq":1,"lam":-1,"ts":"t","dev":"d"}"#).meta.is_err());
}
