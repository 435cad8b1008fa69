//! Metrics sink.  Events are accepted in arrival order into an append-only
//! log of formatted records; a separate byte buffer batches the records on
//! their way to the durable log, flushing once it grows past a threshold
//! and handing over the remainder at teardown, so no event is lost.

use crate::scoped_timer::now_unix_millis;
use crate::text::dec_str;
use crate::text::u64_to_dec;
use vstd::prelude::*;
use vstd::string::StringExecFns;
use vstd::utf8::encode_utf8;

verus! {

/// One metrics record: `timestamp,inc_req,target_uri,status`, with the
/// timestamp in seconds since the unix epoch.
pub open spec fn metrics_line(ts: nat, target_uri: Seq<char>, status: Seq<char>) -> Seq<char> {
    dec_str(ts) + ",inc_req,"@ + target_uri + ","@ + status
}

/// Renders one metrics record.
pub fn format_metrics_line(ts: u64, target_uri: &str, status: &str) -> (r: String)
    ensures
        r@ == metrics_line(ts as nat, target_uri@, status@),
{
    let mut s = u64_to_dec(ts);
    s.append(",inc_req,");
    s.append(target_uri);
    s.append(",");
    s.append(status);
    s
}

/// Append-only in-memory log of metrics records in arrival order.  The
/// durable write-out is the surrounding program's task: draining hands the
/// records over.
pub struct Metrics {
    events: Vec<String>,
}

impl View for Metrics {
    type V = Seq<Seq<char>>;

    closed spec fn view(&self) -> Seq<Seq<char>> {
        self.events.deep_view()
    }
}

impl Metrics {
    /// An empty log.
    pub fn new() -> (r: Metrics)
        ensures
            r@ == Seq::<Seq<char>>::empty(),
    {
        let events: Vec<String> = Vec::new();
        proof {
            assert(events.deep_view() =~= Seq::<Seq<char>>::empty());
        }
        Metrics { events }
    }

    /// Records one request against a target with the given status, stamped
    /// with the clock now.  The clock may read anything, so the record is
    /// exact up to its timestamp.
    pub fn increment_num_requests(&mut self, target: &str, status: &str)
        ensures
            exists|ts: nat| final(self)@ == old(self)@.push(metrics_line(ts, target@, status@)),
    {
        let now_ms = now_unix_millis();
        let now_s = now_ms / 1000;
        let line = format_metrics_line(now_s, target, status);
        let ghost pre = self.events.deep_view();
        self.events.push(line);
        proof {
            assert(self.events.deep_view() =~= pre.push(
                metrics_line(now_s as nat, target@, status@),
            ));
        }
    }

    /// Hands over all recorded records in order, leaving the log empty.
    pub fn drain(&mut self) -> (r: Vec<String>)
        ensures
            r.deep_view() == old(self)@,
            final(self)@ == Seq::<Seq<char>>::empty(),
    {
        let mut out: Vec<String> = Vec::new();
        core::mem::swap(&mut out, &mut self.events);
        proof {
            assert(self.events.deep_view() =~= Seq::<Seq<char>>::empty());
        }
        out
    }
}

/// Flush threshold of the metrics byte buffer.
pub const FLUSH_THRESHOLD: usize = 256;

/// The newline byte closing each buffered record.
pub const NEWLINE_BYTE: u8 = 10;

/// Appends every byte of `src` to `dst`.
fn append_bytes(dst: &mut Vec<u8>, src: &[u8])
    ensures
        final(dst)@ == old(dst)@ + src@,
{
    let ghost pre = dst@;
    let mut i: usize = 0;
    while i < src.len()
        invariant
            0 <= i <= src@.len(),
            dst@ == pre + src@.subrange(0, i as int),
        decreases src@.len() - i,
    {
        dst.push(src[i]);
        proof {
            assert(pre + src@.subrange(0, i as int) + seq![src@[i as int]] =~= pre + src@.subrange(
                0,
                i + 1,
            ));
        }
        i += 1;
    }
    proof {
        assert(src@.subrange(0, src@.len() as int) =~= src@);
    }
}

/// Byte buffer between the metrics log and durable storage.  Records
/// accumulate, each closed by one newline, until the buffered bytes grow
/// past `FLUSH_THRESHOLD`; then the whole buffer is handed out to be
/// written.  Whatever remains at teardown is handed out by `take_rest`,
/// so every accepted record reaches the writer exactly once.
pub struct MetricsBuffer {
    buf: Vec<u8>,
}

impl View for MetricsBuffer {
    type V = Seq<u8>;

    closed spec fn view(&self) -> Seq<u8> {
        self.buf@
    }
}

impl MetricsBuffer {
    /// An empty buffer.
    pub fn new() -> (r: MetricsBuffer)
        ensures
            r@ == Seq::<u8>::empty(),
    {
        MetricsBuffer { buf: Vec::new() }
    }

    /// Accepts one record, closing it with a newline.  When the buffered
    /// bytes grow past the threshold the whole buffer is returned to be
    /// written out and the buffer is left empty; otherwise everything
    /// stays buffered.
    pub fn push_line(&mut self, line: &str) -> (flush: Option<Vec<u8>>)
        ensures
            ({
                let content = old(self)@ + encode_utf8(line@) + seq![NEWLINE_BYTE];
                if content.len() > FLUSH_THRESHOLD {
                    &&& flush matches Some(b) && b@ == content
                    &&& final(self)@ == Seq::<u8>::empty()
                } else {
                    &&& flush is None
                    &&& final(self)@ == content
                }
            }),
    {
        append_bytes(&mut self.buf, line.as_bytes());
        self.buf.push(NEWLINE_BYTE);
        proof {
            assert(self.buf@ =~= old(self)@ + encode_utf8(line@) + seq![NEWLINE_BYTE]);
        }
        if self.buf.len() > FLUSH_THRESHOLD {
            let mut out: Vec<u8> = Vec::new();
            core::mem::swap(&mut out, &mut self.buf);
            Some(out)
        } else {
            None
        }
    }

    /// Hands over whatever is still buffered, leaving the buffer empty.
    pub fn take_rest(&mut self) -> (r: Vec<u8>)
        ensures
            r@ == old(self)@,
            final(self)@ == Seq::<u8>::empty(),
    {
        let mut out: Vec<u8> = Vec::new();
        core::mem::swap(&mut out, &mut self.buf);
        out
    }
}

} // verus!
