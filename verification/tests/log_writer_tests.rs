use std::cell::RefCell;
use std::rc::Rc;

use privatium_core::log::lamport::Lamport;
use privatium_core::log::envelope::{envelope_line, Op};
use privatium_core::log::foreign::validate;
use privatium_core::log::reader::scan_line;
use privatium_core::log::writer::{format_ts, log_is_ours, now, Durability, Sink, Writer};
use privatium_core::log::reader::Recovered;
use privatium_core::log::{AppLog, LogError};

/// A file held in memory.
struct Memory(Rc<RefCell<Vec<u8>>>);

impl Sink for Memory {
    fn write_all(&mut self, bytes: &[u8]) -> Result<(), String> {
        self.0.borrow_mut().extend_from_slice(bytes);
        Ok(())
    }

    fn sync_all(&self) -> Result<(), String> {
        Ok(())
    }
}

#[test]
fn a_row_that_is_not_json_is_refused_and_nothing_is_written() {
    let bytes = Rc::new(RefCell::new(Vec::new()));
    let mut w = Writer::attach(Memory(bytes.clone()), "notes/log/dev.jsonl", "notes", "dev", 0, Durability::Sync);
    let mut lam = Lamport::new(0);
    let r = w.put(&mut lam, "notes", "n1", "{not json");
    assert!(matches!(r, Err(LogError::Json(_))));
    assert_eq!(w.seq(), 0);
    assert_eq!(lam.get(), 0);
    assert!(bytes.borrow().is_empty());
    assert!(w.poisoned().is_none());
    let r = w.put(&mut lam, "notes", "n1", "{\"text\":\"hi\"}");
    assert_eq!(r.unwrap(), 1);
    assert_eq!(w.seq(), 1);
    assert_eq!(lam.get(), 1);
    let written = String::from_utf8(bytes.borrow().clone()).unwrap();
    assert!(written.ends_with('\n'));
    assert!(written.contains("\"seq\":1"));
}

#[test]
fn a_batch_through_the_app_log_takes_contiguous_seqs_and_moves_the_head() {
    let bytes = Rc::new(RefCell::new(Vec::new()));
    let w = Writer::attach(Memory(bytes.clone()), "notes/log/dev.jsonl", "notes", "dev", 0, Durability::Sync);
    let recovered = Recovered {
        own_seq: 0,
        lam: Lamport::new(5),
        heads: Vec::new(),
        rejected: Vec::new(),
        malformed: Vec::new(),
        skew: None,
    };
    let mut log = AppLog::new("notes", "dev", "notes/log", w, &recovered);
    let mut batch = log.begin_batch();
    batch.put("notes", "a", "{\"text\":\"one\"}");
    batch.del("notes", "b");
    let lines = log.commit_batch(batch).unwrap();
    assert_eq!(lines.len(), 2);
    assert_eq!(log.seq(), 2);
    assert_eq!(log.lam(), 7);
    assert_eq!(log.heads(), &[("dev".to_string(), 2)]);
    let first = String::from_utf8(lines[0].clone()).unwrap();
    assert!(first.contains("\"seq\":1") && first.contains("\"batch\":2"));
    assert_eq!(bytes.borrow().len(), lines[0].len() + lines[1].len() + 2);

    let mut refused = log.begin_batch();
    refused.put("notes", "c", "{broken");
    assert!(matches!(log.commit_batch(refused), Err(LogError::Json(_))));
    assert_eq!(log.seq(), 2);
}

/// A sink that takes some of each write and then fails, or whose flush fails: what a full
/// disk or a dying device does to an append.
struct Failing {
    accept: Option<usize>,
    sync_fails: bool,
    landed: Rc<RefCell<Vec<u8>>>,
}

impl Sink for Failing {
    fn write_all(&mut self, bytes: &[u8]) -> Result<(), String> {
        match self.accept {
            Some(n) if n < bytes.len() => {
                self.landed.borrow_mut().extend_from_slice(&bytes[..n]);
                Err("no space left on device".to_string())
            }
            _ => {
                self.landed.borrow_mut().extend_from_slice(bytes);
                Ok(())
            }
        }
    }

    fn sync_all(&self) -> Result<(), String> {
        if self.sync_fails {
            Err("input/output error".to_string())
        } else {
            Ok(())
        }
    }
}

const OWN: &str = "9bq4vy2m";

fn writer_over(accept: Option<usize>, sync_fails: bool) -> Writer<Failing> {
    let sink = Failing { accept, sync_fails, landed: Rc::new(RefCell::new(Vec::new())) };
    Writer::attach(sink, &format!("root/data/hello/log/{OWN}.jsonl"), "hello", OWN, 0, Durability::Sync)
}

#[test]
fn a_write_that_fails_part_way_closes_the_writer() {
    let mut writer = writer_over(Some(10), false);
    let mut lam = Lamport::new(0);
    let error = writer.put(&mut lam, "note", "a", "{}").unwrap_err();
    assert!(matches!(error, LogError::Io { .. }), "{error:?}");
    assert_eq!(writer.seq(), 0, "seq did not advance over a failed write");
    assert_eq!(lam.get(), 0, "a line that did not land consumed no lam");
    assert!(writer.poisoned().unwrap().contains("write failed"));

    let again = writer.put(&mut lam, "note", "b", "{}").unwrap_err();
    assert!(matches!(again, LogError::Poisoned { .. }), "{again:?}");
    let mut batch = writer.begin_batch(&lam);
    batch.put("note", "c", "{}");
    let batch = writer.commit_batch(&mut lam, batch).unwrap_err();
    assert!(matches!(batch, LogError::Poisoned { .. }), "{batch:?}");
    assert_eq!(writer.seq(), 0);

    writer.reconcile(0);
    assert!(writer.poisoned().is_none());
}

#[test]
fn a_flush_that_fails_closes_the_writer() {
    let mut writer = writer_over(None, true);
    let mut lam = Lamport::new(0);
    let error = writer.put(&mut lam, "note", "a", "{}").unwrap_err();
    assert!(matches!(error, LogError::Io { .. }), "{error:?}");
    assert!(writer.poisoned().unwrap().contains("flush failed"));
    assert_eq!(writer.seq(), 0);
    assert!(matches!(writer.del(&mut lam, "note", "a").unwrap_err(), LogError::Poisoned { .. }));
}

#[test]
fn our_own_log_and_our_own_rolled_segments_are_accepted() {
    assert!(log_is_ours(Some(&format!("{OWN}.jsonl")), Some("hello"), "hello", OWN));
    assert!(log_is_ours(Some(&format!("{OWN}.2.jsonl")), Some("hello"), "hello", OWN));
}

#[test]
fn another_devices_log_is_refused() {
    assert!(!log_is_ours(Some("k7m2q9xf.jsonl"), Some("hello"), "hello", OWN));
}

#[test]
fn a_log_under_the_wrong_app_is_refused() {
    assert!(!log_is_ours(Some(&format!("{OWN}.jsonl")), Some("animals"), "hello", OWN));
}

#[test]
fn ts_has_exactly_three_subsecond_digits_and_a_literal_z() {
    assert_eq!(format_ts(1_756_000_000_000 * 1_000_000), "2025-08-24T01:46:40.000Z");
    assert_eq!(format_ts(1_756_000_000_412 * 1_000_000), "2025-08-24T01:46:40.412Z");
}

#[test]
fn now_matches_the_envelope_shape() {
    let ts = now();
    assert_eq!(ts.len(), "2026-08-28T14:03:11.412Z".len(), "{ts}");
    assert!(ts.ends_with('Z'), "{ts}");
    assert_eq!(&ts[23..24], "Z", "{ts}");
}

#[test]
fn now_parses_back_as_a_timestamp() {
    // The receiver's envelope check reads `ts` with the reader's parser: a line stamped
    // with `now()` passes it, one stamped with anything else does not.
    let ts = now();
    let line = envelope_line(1, 1, &ts, "k7m2q9xf", "hello", Op::Put, "t", "x", None, Some("{}")) + "\n";
    assert_eq!(validate(line.as_bytes(), 0, 4096, "hello", "k7m2q9xf"), Ok(1), "{ts}");
    let bad = envelope_line(1, 1, "yesterday", "k7m2q9xf", "hello", Op::Put, "t", "x", None, Some("{}")) + "\n";
    assert!(validate(bad.as_bytes(), 0, 4096, "hello", "k7m2q9xf").is_err());
}

#[test]
fn a_put_carries_d_and_a_del_omits_it() {
    let put = envelope_line(
        1,
        1,
        "2026-08-28T14:03:11.412Z",
        "k7m2q9xf",
        "hello",
        Op::Put,
        "profile",
        "01J9YQ2W7C8XKF3M0N5RTVB6ZP",
        None,
        Some("{\"display_name\":\"Gabriel\"}"),
    );
    assert_eq!(
        put,
        r#"{"seq":1,"lam":1,"ts":"2026-08-28T14:03:11.412Z","dev":"k7m2q9xf","app":"hello","op":"put","tbl":"profile","id":"01J9YQ2W7C8XKF3M0N5RTVB6ZP","d":{"display_name":"Gabriel"}}"#
    );
    let line = envelope_line(2, 2, "2026-08-28T14:03:11.412Z", "k7m2q9xf", "hello", Op::Del, "profile", "01J9YQ2W7C8XKF3M0N5RTVB6ZP", None, None);
    assert!(!line.contains("\"d\""), "{line}");
    assert!(line.contains("\"op\":\"del\""), "{line}");
}

#[test]
fn the_batch_marker_stands_before_d() {
    let line = envelope_line(1, 1, "2026-08-28T14:03:11.412Z", "k7m2q9xf", "hello", Op::Put, "t", "x", Some(3), Some("{}"));
    assert_eq!(
        line,
        r#"{"seq":1,"lam":1,"ts":"2026-08-28T14:03:11.412Z","dev":"k7m2q9xf","app":"hello","op":"put","tbl":"t","id":"x","batch":3,"d":{}}"#
    );
    let meta = scan_line("s", 0, line.as_bytes()).meta.unwrap();
    assert_eq!(meta.batch, Some(3));
}

#[test]
fn an_unknown_top_level_field_does_not_stop_the_parse() {
    let line = r#"{"seq":3,"lam":9,"ts":"2026-08-28T14:03:11.412Z","dev":"k7m2q9xf","app":"hello","op":"put","tbl":"t","id":"x","d":{},"origin":"pv/2"}"#;
    let meta = scan_line("s", 0, line.as_bytes()).meta.unwrap();
    assert_eq!(meta.seq, 3);
    assert_eq!(meta.lam, 9);
    assert_eq!(meta.dev, "k7m2q9xf");
}

#[test]
fn an_escaped_value_still_parses() {
    let line = format!(r#"{{"seq":1,"lam":1,"ts":"2026-08-28T14:03:11.412Z","dev":"k7m2q9{}u0078f"}}"#, '\\');
    let meta = scan_line("s", 0, line.as_bytes()).meta.unwrap();
    assert_eq!(meta.dev, "k7m2q9xf");
}

#[test]
fn a_batch_whose_flush_fails_handed_over_all_its_lines() {
    let landed = Rc::new(RefCell::new(Vec::new()));
    let sink = Failing { accept: None, sync_fails: true, landed: Rc::clone(&landed) };
    let mut writer =
        Writer::attach(sink, &format!("root/data/hello/log/{OWN}.jsonl"), "hello", OWN, 0, Durability::Sync);
    let mut lam = Lamport::new(0);
    let mut batch = writer.begin_batch(&lam);
    batch.put("note", "a", "{\"t\":1}");
    batch.del("note", "b");
    let error = writer.commit_batch(&mut lam, batch).unwrap_err();
    assert!(matches!(error, LogError::Io { .. }), "{error:?}");
    assert_eq!(writer.seq(), 0);
    assert_eq!(lam.get(), 0);
    let text = String::from_utf8(landed.borrow().clone()).unwrap();
    let lines: Vec<&str> = text.split_terminator('\n').collect();
    assert_eq!(lines.len(), 2);
    assert!(text.ends_with('\n'));
    assert!(lines[0].contains("\"seq\":1") && lines[0].contains("\"batch\":2"), "{}", lines[0]);
    assert!(lines[1].contains("\"seq\":2") && lines[1].contains("\"op\":\"del\""), "{}", lines[1]);
}
