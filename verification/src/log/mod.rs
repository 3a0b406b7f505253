//! The append-only event log: the Lamport counter, the batch rule, the envelope's `op`,
//! the segment list and the writer's bookkeeping.

pub mod lamport;
pub mod batch;
pub mod envelope;
pub mod foreign;
pub mod reader;
pub mod writer;

use vstd::prelude::*;
use self::lamport::Lamport;
use self::reader::{bump_head, heads_view, Recovered};
use self::writer::{Sink, Writer, WriterView};
use crate::text::{chars_of, same_chars};

verus! {

/// Why an append did not happen.
#[derive(Debug, Clone, PartialEq, Eq)]
pub enum LogError {
    /// The writer is closed: an earlier append failed and the file has not been re-read.
    Poisoned {
        /// The file.
        path: String,
        /// Why the earlier append failed.
        reason: String,
    },
    /// Writing or flushing the file failed.
    Io {
        /// The file.
        path: String,
        /// What the system said.
        detail: String,
    },
    /// A row is not JSON.
    Json(String),
}


/// One app's event log: the file this node writes, the app's Lamport counter, and the
/// highest `seq` seen per device.
pub struct AppLog<S: Sink> {
    slug: String,
    dev: String,
    log_dir: String,
    writer: Writer<S>,
    lamport: Lamport,
    heads: Vec<(String, u64)>,
}

/// An app log as plain values.
pub struct AppLogView {
    pub slug: Seq<char>,
    pub dev: Seq<char>,
    pub log_dir: Seq<char>,
    pub writer: WriterView,
    pub lam: u64,
    pub heads: Seq<(Seq<char>, u64)>,
}

impl<S: Sink> View for AppLog<S> {
    type V = AppLogView;

    closed spec fn view(&self) -> AppLogView {
        AppLogView {
            slug: self.slug@,
            dev: self.dev@,
            log_dir: self.log_dir@,
            writer: self.writer@,
            lam: self.lamport@,
            heads: heads_view(self.heads@),
        }
    }
}

fn copy_heads(h: &[(String, u64)]) -> (r: Vec<(String, u64)>)
    ensures
        heads_view(r@) == heads_view(h@),
{
    let mut out: Vec<(String, u64)> = Vec::new();
    let mut i: usize = 0;
    while i < h.len()
        invariant
            i <= h@.len(),
            heads_view(out@) == heads_view(h@.take(i as int)),
        decreases h.len() - i,
    {
        let ghost before = out@;
        out.push((h[i].0.clone(), h[i].1));
        assert(heads_view(out@) =~= heads_view(h@.take(i + 1))) by {
            assert(out@ == before.push(out@.last()));
            assert(h@.take(i + 1) == h@.take(i as int).push(h@[i as int]));
            assert(heads_view(out@) =~= heads_view(before).push((h@[i as int].0@, h@[i as int].1)));
            assert(heads_view(h@.take(i + 1)) =~= heads_view(h@.take(i as int)).push(
                (h@[i as int].0@, h@[i as int].1),
            ));
        }
        i = i + 1;
    }
    assert(h@.take(h@.len() as int) =~= h@);
    out
}

impl<S: Sink> AppLog<S> {
    /// The log of `slug` in `log_dir`, written by `writer` for the device `dev`, from
    /// what a scan recovered: its counter and its heads.
    pub fn new(slug: &str, dev: &str, log_dir: &str, writer: Writer<S>, recovered: &Recovered) -> (r: Self)
        ensures
            r@.slug == slug@,
            r@.dev == dev@,
            r@.log_dir == log_dir@,
            r@.writer == writer@,
            r@.lam == recovered.lam@,
            r@.heads == heads_view(recovered.heads@),
    {
        AppLog {
            slug: slug.to_string(),
            dev: dev.to_string(),
            log_dir: log_dir.to_string(),
            writer,
            lamport: recovered.lam,
            heads: copy_heads(recovered.heads.as_slice()),
        }
    }

    fn note_own_head(&mut self, seq: u64)
        ensures
            final(self)@ == (AppLogView { heads: bump_head(old(self)@.heads, old(self)@.dev, seq), ..old(self)@ }),
    {
        let ghost hv = heads_view(self.heads@);
        let dev = chars_of(self.dev.as_str());
        match self::reader::find_head_pub(self.heads.as_slice(), dev.as_slice()) {
            Some(k) => {
                proof {
                    self::reader::lemma_bump_first_pub(hv, dev@, seq, k as int);
                }
                let cur = self.heads[k].1;
                let top = if cur >= seq { cur } else { seq };
                let name = self.heads[k].0.clone();
                self.heads.set(k, (name, top));
                assert(heads_view(self.heads@) =~= hv.update(k as int, (dev@, top)));
            },
            None => {
                proof {
                    self::reader::lemma_bump_absent_pub(hv, dev@, seq);
                }
                self.heads.push((self.dev.clone(), seq));
                assert(heads_view(self.heads@) =~= hv.push((dev@, seq)));
            },
        }
    }

    /// Append one `put` of the row `d` (its JSON text), returning its `seq`; this node's
    /// head follows. A closed writer refuses, and the log is to be rescanned first.
    pub fn put(&mut self, tbl: &str, id: &str, d: &str) -> (r: Result<u64, LogError>)
        requires
            old(self)@.writer.seq < u64::MAX,
        ensures
            self::writer::json_valid(d@) ==> self::writer::appended(
                old(self)@.writer,
                final(self)@.writer,
                Lamport::spec_new(old(self)@.lam),
                Lamport::spec_new(final(self)@.lam),
                self::envelope::Op::Put,
                tbl@,
                id@,
                Some(d@),
                r,
            ),
            !self::writer::json_valid(d@) ==> (r matches Err(LogError::Json(_))) && final(self)@.writer == old(self)@.writer
                && final(self)@.lam == old(self)@.lam,
            final(self)@.heads == match r {
                Ok(seq) => bump_head(old(self)@.heads, old(self)@.dev, seq),
                Err(_) => old(self)@.heads,
            },
            final(self)@.slug == old(self)@.slug,
            final(self)@.dev == old(self)@.dev,
            final(self)@.log_dir == old(self)@.log_dir,
    {
        let ghost l0 = self.lamport;
        proof {
            Lamport::lemma_spec_new(l0@);
        }
        let r = self.writer.put(&mut self.lamport, tbl, id, d);
        proof {
            Lamport::lemma_spec_new(self.lamport@);
        }
        match r {
            Ok(seq) => {
                self.note_own_head(seq);
                Ok(seq)
            },
            Err(e) => Err(e),
        }
    }

    /// Append one tombstone, returning its `seq`; this node's head follows.
    pub fn del(&mut self, tbl: &str, id: &str) -> (r: Result<u64, LogError>)
        requires
            old(self)@.writer.seq < u64::MAX,
        ensures
            self::writer::appended(
                old(self)@.writer,
                final(self)@.writer,
                Lamport::spec_new(old(self)@.lam),
                Lamport::spec_new(final(self)@.lam),
                self::envelope::Op::Del,
                tbl@,
                id@,
                None,
                r,
            ),
            final(self)@.heads == match r {
                Ok(seq) => bump_head(old(self)@.heads, old(self)@.dev, seq),
                Err(_) => old(self)@.heads,
            },
            final(self)@.slug == old(self)@.slug,
            final(self)@.dev == old(self)@.dev,
            final(self)@.log_dir == old(self)@.log_dir,
    {
        let ghost l0 = self.lamport;
        proof {
            Lamport::lemma_spec_new(l0@);
        }
        let r = self.writer.del(&mut self.lamport, tbl, id);
        proof {
            Lamport::lemma_spec_new(self.lamport@);
        }
        match r {
            Ok(seq) => {
                self.note_own_head(seq);
                Ok(seq)
            },
            Err(e) => Err(e),
        }
    }

    /// Start a batch after this node's last event, at the log's counter: every event it
    /// stages shares one timestamp and takes the next `seq` and `lam`.
    pub fn begin_batch(&self) -> (b: self::writer::Batch)
        ensures
            b@.app == self@.writer.app,
            b@.dev == self@.writer.dev,
            b@.start_seq == self@.writer.seq,
            b@.seq == self@.writer.seq,
            b@.start_lam == self@.lam,
            b@.lam == self@.lam,
            b@.staged.len() == 0,
            exists|ns: i128| self::writer::ts_in_range(ns) && b@.ts == self::writer::ts_text(ns),
    {
        self.writer.begin_batch(&self.lamport)
    }

    /// Write a batch begun from this log, all-or-nothing, returning the lines as written
    /// without their newlines; this node's head follows the writer. A row that is not
    /// JSON refuses the batch before anything is written; a closed writer refuses a batch
    /// with events in it.
    pub fn commit_batch(&mut self, batch: self::writer::Batch) -> (r: Result<Vec<Vec<u8>>, LogError>)
        requires
            batch@.app == old(self)@.writer.app,
            batch@.dev == old(self)@.writer.dev,
            batch@.start_seq == old(self)@.writer.seq,
            batch@.start_lam == old(self)@.lam,
        ensures
            r matches Ok(lines) ==> lines@.len() == batch@.staged.len(),
            r matches Ok(lines) ==> forall|i: int| 0 <= i < lines@.len() ==> #[trigger] lines@[i]@
                == vstd::utf8::encode_utf8(self::writer::staged_text(batch@, i)),
            r matches Ok(lines) ==> (lines@.len() == 0 ==> final(self)@.writer == old(self)@.writer
                && final(self)@.lam == old(self)@.lam),
            r matches Ok(lines) ==> (lines@.len() > 0 ==> old(self)@.writer.poisoned is None
                && final(self)@.writer.seq == batch@.seq && final(self)@.lam == batch@.lam),
            r matches Ok(lines) ==> (lines@.len() > 0 ==> self::writer::committed(
                old(self)@.writer,
                final(self)@.writer,
                self::writer::joined_lines(self::writer::bytes_views(lines@)),
                true,
            )),
            (r matches Err(LogError::Json(_))) <==> exists|i: int|
                0 <= i < batch@.staged.len() && ((#[trigger] batch@.staged[i]).3 matches Some(t)
                    && !self::writer::json_valid(t)),
            (r matches Err(LogError::Poisoned { .. })) <==> (old(self)@.writer.poisoned is Some
                && batch@.staged.len() > 0 && forall|i: int| 0 <= i < batch@.staged.len() ==> ((
                #[trigger] batch@.staged[i]).3 matches Some(t) ==> self::writer::json_valid(t))),
            r matches Err(LogError::Json(_)) ==> final(self)@.writer == old(self)@.writer && final(self)@.lam
                == old(self)@.lam,
            r matches Ok(lines) ==> (lines@.len() > 0 ==> self::writer::committed(
                old(self)@.writer,
                final(self)@.writer,
                self::writer::batch_bytes(batch@),
                true,
            )),
            r is Err && !(r matches Err(LogError::Json(_))) ==> batch@.staged.len() > 0
                && final(self)@.writer.seq == old(self)@.writer.seq && final(self)@.lam == old(self)@.lam
                && self::writer::committed(
                old(self)@.writer,
                final(self)@.writer,
                self::writer::batch_bytes(batch@),
                false,
            ),
            final(self)@.heads == match r {
                Ok(_) => bump_head(old(self)@.heads, old(self)@.dev, final(self)@.writer.seq),
                Err(_) => old(self)@.heads,
            },
            final(self)@.slug == old(self)@.slug,
            final(self)@.dev == old(self)@.dev,
            final(self)@.log_dir == old(self)@.log_dir,
    {
        let r = self.writer.commit_batch(&mut self.lamport, batch);
        match r {
            Ok(lines) => {
                let seq = self.writer.seq();
                self.note_own_head(seq);
                Ok(lines)
            },
            Err(e) => Err(e),
        }
    }

    /// Take in what a rescan of the log recovered, after the file moved behind the
    /// writer or an append of its own failed: the counter and heads follow the scan, and
    /// the writer continues past any `seq` now in its file and takes appends again.
    pub fn apply_rescan(&mut self, recovered: &Recovered)
        ensures
            final(self)@.lam == recovered.lam@,
            final(self)@.heads == heads_view(recovered.heads@),
            final(self)@.writer == (WriterView {
                seq: if recovered.own_seq > old(self)@.writer.seq {
                    recovered.own_seq
                } else {
                    old(self)@.writer.seq
                },
                poisoned: None,
                ..old(self)@.writer
            }),
            final(self)@.slug == old(self)@.slug,
            final(self)@.dev == old(self)@.dev,
            final(self)@.log_dir == old(self)@.log_dir,
    {
        self.lamport = recovered.lam;
        self.heads = copy_heads(recovered.heads.as_slice());
        self.writer.reconcile(recovered.own_seq);
    }

    /// Why the log refuses to append, if it does.
    pub fn poisoned(&self) -> (r: Option<&str>)
        ensures
            match r {
                Some(p) => self@.writer.poisoned == Some(p@),
                None => self@.writer.poisoned is None,
            },
    {
        self.writer.poisoned()
    }

    /// The app slug.
    pub fn slug(&self) -> (r: &str)
        ensures
            r@ == self@.slug,
    {
        self.slug.as_str()
    }

    /// This node's ID — the `dev` of every event this log writes.
    pub fn dev(&self) -> (r: &str)
        ensures
            r@ == self@.dev,
    {
        self.dev.as_str()
    }

    /// The `seq` of the last event this node wrote.
    pub fn seq(&self) -> (r: u64)
        ensures
            r == self@.writer.seq,
    {
        self.writer.seq()
    }

    /// The Lamport counter.
    pub fn lam(&self) -> (r: u64)
        ensures
            r == self@.lam,
    {
        self.lamport.get()
    }

    /// The highest `seq` seen per device.
    pub fn heads(&self) -> (r: &[(String, u64)])
        ensures
            heads_view(r@) == self@.heads,
    {
        self.heads.as_slice()
    }

    /// The log folder, `data/<slug>/log/`.
    pub fn log_dir(&self) -> (r: &str)
        ensures
            r@ == self@.log_dir,
    {
        self.log_dir.as_str()
    }

    /// The file this node appends to.
    pub fn path(&self) -> (r: &str)
        ensures
            r@ == self@.writer.path,
    {
        self.writer.path()
    }
}

} // verus!
