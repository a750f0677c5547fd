//! Block trace: every consensus step recorded as a numbered event with a
//! Blake3-512 fingerprint, so an auditor can follow a block from issuance
//! through custody. Event details are JSON text made by the caller.
use vstd::prelude::*;
use vstd::utf8::encode_utf8;
use vstd::string::StringExecFns;
use crate::abs_sig::{decimal_digits, u64_to_decimal};
use crate::block::{spec_block_hash, spec_issuance_ok, spec_settlement_id, Block};
use crate::economics::{concat, hash_hex, hex_of};
use crate::hash::{digest512, spec_digest512};

verus! {

/// The trace keeps at most this many events, dropping the oldest.
pub const TRACE_CAPACITY: usize = 10000;

/// The JSON text that `serde_json::to_string` writes for the string `s`.
pub uninterp spec fn json_quoted(s: Seq<char>) -> Seq<char>;

/// `serde_json::to_string` on a string: the string quoted and escaped as
/// JSON. Claimed: the result is that text (`json_quoted`); serde_json does
/// not fail on a string, and the wrapper gives the empty string if it did.
#[verifier::external_body]
fn json_quote(s: &str) -> (r: String)
    ensures
        r@ == json_quoted(s@),
{
    serde_json::to_string(s).unwrap_or_default()
}

/// One trace event.
pub struct AiTraceEvent {
    pub seq: u64,
    pub timestamp_ms: u64,
    pub event: String,
    pub block_hash: Option<String>,
    pub settlement_id: Option<String>,
    pub birth_ok: Option<bool>,
    /// The event's details as JSON text.
    pub detail: String,
    /// Blake3-512 fingerprint (hex) of the event's JSON payload.
    pub event_digest512: String,
}

/// The events of a trace, oldest first, and the next sequence number.
pub struct AiTraceLog {
    pub events: Vec<AiTraceEvent>,
    pub next_seq: u64,
}

/// The content of an event.
pub type TraceView = (u64, u64, Seq<char>, Option<Seq<char>>, Option<Seq<char>>, Option<bool>, Seq<char>, Seq<char>);

pub open spec fn opt_view(o: Option<String>) -> Option<Seq<char>> {
    match o {
        Some(x) => Some(x@),
        None => None,
    }
}

/// The content of event `e`.
pub open spec fn ev_view(e: AiTraceEvent) -> TraceView {
    (e.seq, e.timestamp_ms, e.event@, opt_view(e.block_hash), opt_view(e.settlement_id), e.birth_ok, e.detail@, e.event_digest512@)
}

/// The contents of a list of events.
pub open spec fn views(evs: Seq<AiTraceEvent>) -> Seq<TraceView> {
    evs.map_values(|e: AiTraceEvent| ev_view(e))
}

/// The newest `TRACE_CAPACITY` entries of `v`.
pub open spec fn capped(v: Seq<TraceView>) -> Seq<TraceView> {
    if v.len() > TRACE_CAPACITY { v.skip(v.len() - TRACE_CAPACITY) } else { v }
}

/// The tag `ai-trace`.
pub open spec fn trace_tag() -> Seq<u8> {
    seq![97u8, 105u8, 45u8, 116u8, 114u8, 97u8, 99u8, 101u8]
}

/// The tag `ai-trace-tip`.
pub open spec fn trace_tip_tag() -> Seq<u8> {
    trace_tag() + seq![45u8, 116u8, 105u8, 112u8]
}

/// A JSON string of text that needs no escaping, or `null`.
pub open spec fn plain_or_null(o: Option<Seq<char>>) -> Seq<char> {
    match o {
        Some(x) => "\""@ + x + "\""@,
        None => "null"@,
    }
}

/// A JSON boolean, or `null`.
pub open spec fn bool_or_null(o: Option<bool>) -> Seq<char> {
    match o {
        Some(true) => "true"@,
        Some(false) => "false"@,
        None => "null"@,
    }
}

/// The JSON payload an event's fingerprint covers: its fields in key
/// order, the details embedded as given.
pub open spec fn payload_text(seq: u64, event: Seq<char>, bh: Option<Seq<char>>, sid: Option<Seq<char>>, birth: Option<bool>, detail: Seq<char>) -> Seq<char> {
    "{\"birth_ok\":"@ + bool_or_null(birth) + ",\"block_hash\":"@ + plain_or_null(bh) + ",\"detail\":"@ + detail
        + ",\"event\":"@ + json_quoted(event) + ",\"seq\":"@ + decimal_digits(seq as nat) + ",\"settlement_id\":"@
        + plain_or_null(sid) + "}"@
}

/// The block fields of an event about `block`.
pub open spec fn block_fields(block: Option<Block>) -> (Option<Seq<char>>, Option<Seq<char>>, Option<bool>) {
    match block {
        Some(b) => (Some(hex_of(spec_block_hash(b))), Some(hex_of(spec_settlement_id(b))), Some(spec_issuance_ok(b))),
        None => (None, None, None),
    }
}

/// The event recorded as number `seq` at `now`.
pub open spec fn event_view(seq: u64, now: u64, event: Seq<char>, block: Option<Block>, detail: Seq<char>) -> TraceView {
    let f = block_fields(block);
    (seq, now, event, f.0, f.1, f.2, detail, hex_of(spec_digest512(trace_tag(), encode_utf8(payload_text(seq, event, f.0, f.1, f.2, detail)))))
}

/// The events of `v` about the block with hash `h` (hex), in order.
pub open spec fn about_block(v: Seq<TraceView>, h: Seq<char>) -> Seq<TraceView>
    decreases v.len(),
{
    if v.len() == 0 {
        v
    } else if v.last().3 == Some(h) {
        about_block(v.drop_last(), h).push(v.last())
    } else {
        about_block(v.drop_last(), h)
    }
}

/// The fingerprints of `v`, as bytes, one after another.
pub open spec fn digests_bytes(v: Seq<TraceView>) -> Seq<u8>
    decreases v.len(),
{
    if v.len() == 0 {
        Seq::empty()
    } else {
        digests_bytes(v.drop_last()) + encode_utf8(v.last().7)
    }
}

fn copy_text(s: &String) -> (r: String)
    ensures
        r@ == s@,
{
    String::from_str(s.as_str())
}

fn copy_opt(o: &Option<String>) -> (r: Option<String>)
    ensures
        opt_view(r) == opt_view(*o),
{
    match o {
        Some(x) => Some(copy_text(x)),
        None => None,
    }
}

impl AiTraceEvent {
    fn copy(&self) -> (r: AiTraceEvent)
        ensures
            ev_view(r) == ev_view(*self),
    {
        AiTraceEvent {
            seq: self.seq,
            timestamp_ms: self.timestamp_ms,
            event: copy_text(&self.event),
            block_hash: copy_opt(&self.block_hash),
            settlement_id: copy_opt(&self.settlement_id),
            birth_ok: self.birth_ok,
            detail: copy_text(&self.detail),
            event_digest512: copy_text(&self.event_digest512),
        }
    }
}

fn plain_or_null_exec(o: &Option<String>) -> (r: String)
    ensures
        r@ == plain_or_null(opt_view(*o)),
{
    match o {
        Some(x) => {
            let a = concat("\"", x.as_str());
            concat(a.as_str(), "\"")
        },
        None => String::from_str("null"),
    }
}

fn bool_or_null_exec(o: Option<bool>) -> (r: String)
    ensures
        r@ == bool_or_null(o),
{
    match o {
        Some(true) => String::from_str("true"),
        Some(false) => String::from_str("false"),
        None => String::from_str("null"),
    }
}

impl AiTraceLog {
    /// An empty trace.
    pub fn new() -> (r: AiTraceLog)
        ensures
            r.events@.len() == 0,
            r.next_seq == 0,
    {
        AiTraceLog { events: Vec::new(), next_seq: 0 }
    }

    /// Record `event` (about `block`, if any) with JSON `detail` at clock
    /// reading `now`: it takes the next sequence number, carries the
    /// block's hash, Settlement ID and whether its issuance checks, and a
    /// Blake3-512 fingerprint of its JSON payload. Only the newest
    /// `TRACE_CAPACITY` events are kept.
    pub fn record(&mut self, event: &str, block: Option<&Block>, detail: &str, now: u64)
        requires
            old(self).next_seq < u64::MAX,
        ensures
            final(self).next_seq == old(self).next_seq + 1,
            views(final(self).events@) == capped(views(old(self).events@).push(
                event_view(old(self).next_seq, now, event@, match block { Some(b) => Some(*b), None => None }, detail@),
            )),
    {
        let seq = self.next_seq;
        self.next_seq = seq + 1;
        let (block_hash, settlement_id, birth_ok): (Option<String>, Option<String>, Option<bool>) = match block {
            Some(b) => (Some(hash_hex(&b.hash())), Some(b.settlement_id().to_hex()), Some(b.verify_issuance().is_ok())),
            None => (None, None, None),
        };
        let ghost f = block_fields(match block { Some(b) => Some(*b), None => None });
        proof {
            assert(opt_view(block_hash) == f.0);
            assert(opt_view(settlement_id) == f.1);
            assert(birth_ok == f.2);
        }
        let p1 = concat("{\"birth_ok\":", bool_or_null_exec(birth_ok).as_str());
        let p2 = concat(p1.as_str(), ",\"block_hash\":");
        let p3 = concat(p2.as_str(), plain_or_null_exec(&block_hash).as_str());
        let p4 = concat(p3.as_str(), ",\"detail\":");
        let p5 = concat(p4.as_str(), detail);
        let p6 = concat(p5.as_str(), ",\"event\":");
        let p7 = concat(p6.as_str(), json_quote(event).as_str());
        let p8 = concat(p7.as_str(), ",\"seq\":");
        let p9 = concat(p8.as_str(), u64_to_decimal(seq).as_str());
        let p10 = concat(p9.as_str(), ",\"settlement_id\":");
        let p11 = concat(p10.as_str(), plain_or_null_exec(&settlement_id).as_str());
        let payload = concat(p11.as_str(), "}");
        proof {
            assert(payload@ =~= payload_text(seq, event@, f.0, f.1, f.2, detail@));
        }
        let tag: [u8; 8] = [97u8, 105u8, 45u8, 116u8, 114u8, 97u8, 99u8, 101u8];
        proof {
            assert(tag@ =~= trace_tag());
        }
        let digest = digest512(tag.as_slice(), payload.as_str().as_bytes());
        let ev = AiTraceEvent {
            seq,
            timestamp_ms: now,
            event: String::from_str(event),
            block_hash,
            settlement_id,
            birth_ok,
            detail: String::from_str(detail),
            event_digest512: crate::bytes::hex_encode(digest.as_slice()),
        };
        let ghost v0 = views(self.events@);
        let ghost evv = ev_view(ev);
        self.events.push(ev);
        let ghost all = v0.push(evv);
        proof {
            assert(views(self.events@) =~= all);
            assert(all.skip(all.len() - self.events@.len()) =~= all);
        }
        while self.events.len() > TRACE_CAPACITY
            invariant
                views(self.events@) == all.skip(all.len() - self.events@.len()),
                self.events@.len() <= all.len(),
                self.events@.len() < all.len() ==> self.events@.len() >= TRACE_CAPACITY,
                self.next_seq == seq + 1,
            decreases self.events@.len(),
        {
            let ghost before = self.events@;
            self.events.remove(0);
            proof {
                assert(views(self.events@) =~= all.skip(all.len() - self.events@.len())) by {
                    assert forall|k: int| 0 <= k < self.events@.len() implies views(self.events@)[k] == all.skip(all.len() - self.events@.len())[k] by {
                        assert(self.events@[k] == before[k + 1]);
                        assert(views(before)[k + 1] == all.skip(all.len() - before.len())[k + 1]);
                    }
                }
            }
        }
    }

    /// The newest `n` events (all of them when there are fewer).
    pub fn recent(&self, n: usize) -> (r: Vec<AiTraceEvent>)
        ensures
            views(r@) == views(self.events@).skip(self.events@.len() - if n < self.events@.len() { n as int } else { self.events@.len() as int }),
    {
        let len = self.events.len();
        let start = len - if n < len { n } else { len };
        let mut out: Vec<AiTraceEvent> = Vec::new();
        let mut i: usize = start;
        while i < len
            invariant
                start <= i <= len == self.events@.len(),
                views(out@) == views(self.events@).subrange(start as int, i as int),
            decreases len - i,
        {
            let ghost before = views(out@);
            out.push(self.events[i].copy());
            proof {
                assert(views(out@) =~= before.push(views(self.events@)[i as int]));
                assert(views(self.events@).subrange(start as int, i + 1) =~= views(self.events@).subrange(start as int, i as int).push(
                    views(self.events@)[i as int],
                ));
            }
            i = i + 1;
        }
        proof {
            assert(views(self.events@).subrange(start as int, len as int) =~= views(self.events@).skip(start as int));
        }
        out
    }

    /// The events about the block with hash `hash_hex`, oldest first.
    pub fn for_block(&self, hash_hex: &str) -> (r: Vec<AiTraceEvent>)
        ensures
            views(r@) == about_block(views(self.events@), hash_hex@),
    {
        let mut out: Vec<AiTraceEvent> = Vec::new();
        let mut i: usize = 0;
        while i < self.events.len()
            invariant
                i <= self.events@.len(),
                views(out@) == about_block(views(self.events@).take(i as int), hash_hex@),
            decreases self.events@.len() - i,
        {
            let ghost v = views(self.events@);
            proof {
                assert(v.take(i + 1).drop_last() =~= v.take(i as int));
                assert(v.take(i + 1).last() == v[i as int]);
            }
            let is_about = match &self.events[i].block_hash {
                Some(h) => crate::addrman::str_eq(h.as_str(), hash_hex),
                None => false,
            };
            if is_about {
                let ghost before = views(out@);
                out.push(self.events[i].copy());
                proof {
                    assert(views(out@) =~= before.push(v[i as int]));
                }
            }
            i = i + 1;
        }
        proof {
            assert(views(self.events@).take(self.events@.len() as int) =~= views(self.events@));
        }
        out
    }

    /// Blake3-512 (hex) over the fingerprints of all events, in order.
    pub fn tip_digest512(&self) -> (r: String)
        ensures
            r@ == hex_of(spec_digest512(trace_tip_tag(), digests_bytes(views(self.events@)))),
    {
        let mut input: Vec<u8> = Vec::new();
        let mut i: usize = 0;
        while i < self.events.len()
            invariant
                i <= self.events@.len(),
                input@ == digests_bytes(views(self.events@).take(i as int)),
            decreases self.events@.len() - i,
        {
            let ghost v = views(self.events@);
            proof {
                assert(v.take(i + 1).drop_last() =~= v.take(i as int));
                assert(v.take(i + 1).last() == v[i as int]);
            }
            crate::bytes::push_all(&mut input, self.events[i].event_digest512.as_str().as_bytes());
            i = i + 1;
        }
        proof {
            assert(views(self.events@).take(self.events@.len() as int) =~= views(self.events@));
        }
        let tag: [u8; 12] = [97u8, 105u8, 45u8, 116u8, 114u8, 97u8, 99u8, 101u8, 45u8, 116u8, 105u8, 112u8];
        proof {
            assert(tag@ =~= trace_tip_tag());
        }
        crate::bytes::hex_encode(digest512(tag.as_slice(), input.as_slice()).as_slice())
    }
}

} // verus!
