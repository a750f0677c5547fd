//! Checksummed explorer index kept apart from the chain state: selected-chain
//! blocks, transfers, address activity, labels and analytics series.
use vstd::prelude::*;
use vstd::utf8::encode_utf8;
use vstd::string::StringExecFns;
use crate::abs_sig::{decimal_digits, u64_to_decimal};
use crate::bytes::{le32, le64, le_value, lemma_le32_value, lemma_le64_value, push_all, push_le32, push_le64, u64_le, bytes_eq};
use crate::crypto::{blake3_xof, blake3_xof_bytes};
use crate::abs_sig::u128_to_decimal;
use crate::bytes::{ascii_chars, string_from_ascii};
use crate::chain::ChainState;
use crate::economics::{concat, hash_hex, hex_of, hsn_address};
use crate::genesis::{genesis_domain, spec_genesis_domain};
use crate::ghostdag::index_of;
use crate::tx::{spec_tx_hash, TransparentTx};
use crate::text::{contains_text, has_infix, has_prefix, lowercase, parse_unsigned, parse_unsigned_text, starts_with, to_lowercase_text, trim_text, trimmed};

verus! {

pub const INDEXER_MAGIC: [u8; 8] = [72u8, 83u8, 78u8, 73u8, 68u8, 88u8, 48u8, 49u8];
pub const INDEXER_FORMAT: u32 = 1;
/// Cap on analytics series points.
pub const MAX_SERIES_POINTS: usize = 4096;
/// Cap on each address's transfer list (oldest dropped).
pub const MAX_ADDR_TXS: usize = 2048;
/// Cap on indexed transfers (lowest heights dropped).
pub const MAX_TX_RECORDS: usize = 50000;

/// The byte tag `hassan-indexer-v1`.
pub open spec fn spec_indexer_checksum_domain() -> Seq<u8> {
    seq![104u8, 97u8, 115u8, 115u8, 97u8, 110u8, 45u8, 105u8, 110u8, 100u8, 101u8, 120u8, 101u8, 114u8, 45u8, 118u8, 49u8]
}

/// The byte tag `hassan-indexer-v1`.
pub fn indexer_checksum_domain() -> (r: Vec<u8>)
    ensures
        r@ == spec_indexer_checksum_domain(),
{
    vec![104u8, 97u8, 115u8, 115u8, 97u8, 110u8, 45u8, 105u8, 110u8, 100u8, 101u8, 120u8, 101u8, 114u8, 45u8, 118u8, 49u8]
}


/// The magic bytes `HSNIDX01`.
pub open spec fn spec_indexer_magic() -> Seq<u8> {
    seq![72u8, 83u8, 78u8, 73u8, 68u8, 88u8, 48u8, 49u8]
}

/// The 64-byte Blake3 checksum of `input`.
pub open spec fn checksum64(input: Seq<u8>) -> Seq<u8> {
    Seq::new(64, |i: int| blake3_xof(input, 64)[i])
}

/// Bytes of an index file: magic, format, payload length, payload and the
/// Blake3-512 checksum of the domain and payload.
pub open spec fn spec_index_frame(payload: Seq<u8>) -> Seq<u8> {
    spec_indexer_magic() + le32(INDEXER_FORMAT) + le64(payload.len() as u64) + payload
        + checksum64(spec_indexer_checksum_domain() + payload)
}

/// The payload of an index file, or why it is refused: too short, bad magic,
/// unknown format, inconsistent length or wrong checksum (checked in that
/// order).
pub open spec fn spec_index_unframe(b: Seq<u8>) -> Result<Seq<u8>, Seq<char>> {
    if b.len() < 84 {
        Err("indexer file too short"@)
    } else if b.subrange(0, 8) != spec_indexer_magic() {
        Err("bad indexer magic"@)
    } else if le_value(b.subrange(8, 12)) != INDEXER_FORMAT {
        Err("unsupported indexer format "@ + decimal_digits(le_value(b.subrange(8, 12))))
    } else if 20 + le_value(b.subrange(12, 20)) + 64 != b.len() {
        Err("indexer length mismatch"@)
    } else {
        let plen = le_value(b.subrange(12, 20)) as int;
        let payload = b.subrange(20, 20 + plen);
        if b.subrange(20 + plen, b.len() as int) != checksum64(spec_indexer_checksum_domain() + payload) {
            Err("indexer checksum mismatch"@)
        } else {
            Ok(payload)
        }
    }
}

/// The bytes `b[lo..hi]`.
fn copy_range(b: &[u8], lo: usize, hi: usize) -> (r: Vec<u8>)
    requires
        lo <= hi <= b@.len(),
    ensures
        r@ == b@.subrange(lo as int, hi as int),
{
    let mut out: Vec<u8> = Vec::new();
    let mut k = lo;
    while k < hi
        invariant
            lo <= k <= hi <= b@.len(),
            out@ == b@.subrange(lo as int, k as int),
        decreases hi - k,
    {
        out.push(b[k]);
        proof {
            assert(out@ =~= b@.subrange(lo as int, k + 1));
        }
        k = k + 1;
    }
    out
}

/// Frame an index payload for storage.
pub fn frame_index(payload: &[u8]) -> (r: Vec<u8>)
    ensures
        r@ == spec_index_frame(payload@),
{
    let mut out: Vec<u8> = Vec::new();
    push_all(&mut out, &INDEXER_MAGIC);
    proof {
        assert(out@ =~= spec_indexer_magic());
    }
    push_le32(&mut out, INDEXER_FORMAT);
    push_le64(&mut out, payload.len() as u64);
    push_all(&mut out, payload);
    let mut buf = indexer_checksum_domain();
    push_all(&mut buf, payload);
    let tag = blake3_xof_bytes(buf.as_slice(), 64);
    proof {
        assert(tag@ =~= checksum64(spec_indexer_checksum_domain() + payload@));
    }
    push_all(&mut out, tag.as_slice());
    out
}

/// The payload of a stored index, checked.
pub fn unframe_index(b: &[u8]) -> (r: Result<Vec<u8>, String>)
    requires
        b@.len() >= 20 ==> le_value(b@.subrange(12, 20)) + 84 <= usize::MAX,
    ensures
        match spec_index_unframe(b@) {
            Ok(p) => r matches Ok(v) && v@ == p,
            Err(e) => r matches Err(m) && m@ == e,
        },
{
    let n = b.len();
    if n < 84 {
        return Err(String::from_str("indexer file too short"));
    }
    let magic = copy_range(b, 0, 8);
    if !bytes_eq(magic.as_slice(), &INDEXER_MAGIC) {
        proof {
            assert(INDEXER_MAGIC@ =~= spec_indexer_magic());
        }
        return Err(String::from_str("bad indexer magic"));
    }
    proof {
        assert(INDEXER_MAGIC@ =~= spec_indexer_magic());
    }
    let fmt_bytes = copy_range(b, 8, 12);
    let mut padded = fmt_bytes.clone();
    let ghost f4 = fmt_bytes@;
    padded.push(0);
    padded.push(0);
    padded.push(0);
    padded.push(0);
    let format = u64_le(padded.as_slice());
    proof {
        lemma_le_pad(f4);
        assert(padded@ =~= f4 + seq![0u8, 0u8, 0u8, 0u8]);
    }
    if format != INDEXER_FORMAT as u64 {
        let mut m = String::from_str("unsupported indexer format ");
        let d = u64_to_decimal(format);
        m.append(d.as_str());
        return Err(m);
    }
    let len_bytes = copy_range(b, 12, 20);
    let plen64 = u64_le(len_bytes.as_slice());
    let plen = plen64 as usize;
    if 20 + plen + 64 != n {
        return Err(String::from_str("indexer length mismatch"));
    }
    let payload = copy_range(b, 20, 20 + plen);
    let tag = copy_range(b, 20 + plen, n);
    let mut buf = indexer_checksum_domain();
    push_all(&mut buf, payload.as_slice());
    let expect = blake3_xof_bytes(buf.as_slice(), 64);
    proof {
        assert(expect@ =~= checksum64(spec_indexer_checksum_domain() + payload@));
    }
    if !bytes_eq(tag.as_slice(), expect.as_slice()) {
        return Err(String::from_str("indexer checksum mismatch"));
    }
    Ok(payload)
}

/// Appending zero bytes keeps a little-endian value.
proof fn lemma_le_pad(b: Seq<u8>)
    ensures
        le_value(b + seq![0u8, 0u8, 0u8, 0u8]) == le_value(b),
    decreases b.len(),
{
    let z = seq![0u8, 0u8, 0u8, 0u8];
    if b.len() == 0 {
        assert(z.drop_first().drop_first().drop_first().drop_first().len() == 0);
        assert(le_value(z) == 0) by {
            reveal_with_fuel(le_value, 5);
        }
        assert(b + z =~= z);
    } else {
        lemma_le_pad(b.drop_first());
        assert((b + z).drop_first() =~= b.drop_first() + z);
    }
}

/// Reading back a stored index gives the payload that was stored.
pub proof fn law_index_frame_roundtrip(payload: Seq<u8>)
    requires
        payload.len() + 84 <= usize::MAX,
    ensures
        spec_index_unframe(spec_index_frame(payload)) == Ok::<Seq<u8>, Seq<char>>(payload),
{
    let f = spec_index_frame(payload);
    let tag = checksum64(spec_indexer_checksum_domain() + payload);
    let plen = payload.len() as u64;
    assert(f.subrange(0, 8) =~= spec_indexer_magic());
    assert(f.subrange(8, 12) =~= le32(INDEXER_FORMAT));
    lemma_le32_value(INDEXER_FORMAT);
    assert(f.subrange(12, 20) =~= le64(plen));
    lemma_le64_value(plen);
    assert(f.subrange(20, 20 + payload.len() as int) =~= payload);
    assert(f.subrange(20 + payload.len() as int, f.len() as int) =~= tag);
}

/// An indexed selected-chain block.
#[derive(Clone, Debug)]
pub struct BlockRecord {
    pub height: u64,
    pub hash: String,
    pub blue_score: u64,
    pub timestamp: u64,
    pub difficulty: u64,
    pub miner: String,
    pub transfers: u32,
    pub registry_ops: u32,
    pub custody_ops: u32,
    pub utxo_txs: u32,
    pub fees: String,
    pub selected_parent: Option<String>,
    pub is_chain_block: bool,
}

/// An indexed transfer.
#[derive(Clone, Debug)]
pub struct TxRecord {
    pub tx_hash: String,
    pub height: u64,
    pub block_hash: String,
    pub from: String,
    pub to: String,
    pub amount: String,
    pub fee: String,
    pub nonce: u64,
    pub timestamp: u64,
}

/// One point of the analytics series.
#[derive(Clone, Debug)]
pub struct SeriesPoint {
    pub height: u64,
    pub blue_score: u64,
    pub timestamp: u64,
    pub difficulty: u64,
    pub transfers: u32,
    pub fees: String,
    pub minted_supply: String,
    pub mempool: u32,
    pub dag_blocks: u32,
}

/// The explorer index. Keyed tables are lists with one entry per key.
#[derive(Clone, Debug)]
pub struct IndexerDb {
    pub format: u32,
    pub tip_height: u64,
    pub tip_hash: Option<String>,
    /// Block records by height.
    pub blocks: Vec<BlockRecord>,
    /// Block height by hash (hex).
    pub by_hash: Vec<(String, u64)>,
    /// Transfer records by id (hex).
    pub txs: Vec<TxRecord>,
    /// Per address, recent transfer ids (newest last).
    pub address_txs: Vec<(String, Vec<String>)>,
    /// Human labels by entity id.
    pub labels: Vec<(String, String)>,
    pub series: Vec<SeriesPoint>,
    pub indexed_at_ms: u64,
}

/// The label of key `k` (the first entry for it).
pub open spec fn label_of(labels: Seq<(String, String)>, k: Seq<char>) -> Option<Seq<char>>
    decreases labels.len(),
{
    if labels.len() == 0 {
        None
    } else if labels[0].0@ == k {
        Some(labels[0].1@)
    } else {
        label_of(labels.drop_first(), k)
    }
}

/// No two block records share a height.
pub open spec fn heights_unique(b: Seq<BlockRecord>) -> bool {
    forall|j: int, k: int| 0 <= j < b.len() && 0 <= k < b.len() && j != k ==> #[trigger] b[j].height != #[trigger] b[k].height
}

/// The block record at height `h`, if any.
pub open spec fn record_at(b: Seq<BlockRecord>, h: int) -> Option<BlockRecord> {
    if exists|k: int| 0 <= k < b.len() && (#[trigger] b[k]).height == h {
        Some(b[choose|k: int| 0 <= k < b.len() && (#[trigger] b[k]).height == h])
    } else {
        None
    }
}

/// The records of `b` whose height satisfies `f`, in order.
pub open spec fn keep_where(b: Seq<BlockRecord>, f: spec_fn(int) -> bool) -> Seq<BlockRecord>
    decreases b.len(),
{
    if b.len() == 0 {
        b
    } else if f(b.last().height as int) {
        keep_where(b.drop_last(), f).push(b.last())
    } else {
        keep_where(b.drop_last(), f)
    }
}

proof fn lemma_record_at(b: Seq<BlockRecord>, k: int)
    requires
        heights_unique(b),
        0 <= k < b.len(),
    ensures
        record_at(b, b[k].height as int) == Some(b[k]),
{
    let w = choose|w: int| 0 <= w < b.len() && (#[trigger] b[w]).height == b[k].height;
    assert(b[w].height == b[k].height);
}

/// Appending a record at a free height.
proof fn lemma_push_record(p: Seq<BlockRecord>, x: BlockRecord)
    requires
        heights_unique(p),
        record_at(p, x.height as int) is None,
    ensures
        heights_unique(p.push(x)),
        forall|h: int| #[trigger] record_at(p.push(x), h) == if h == x.height { Some(x) } else { record_at(p, h) },
{
    let q = p.push(x);
    assert forall|j: int, k: int| 0 <= j < q.len() && 0 <= k < q.len() && j != k implies #[trigger] q[j].height != #[trigger] q[k].height by {
        if j == p.len() {
            assert(q[k] == p[k]);
        } else if k == p.len() {
            assert(q[j] == p[j]);
        } else {
            assert(q[j] == p[j] && q[k] == p[k]);
        }
    }
    assert forall|h: int| #[trigger] record_at(q, h) == if h == x.height { Some(x) } else { record_at(p, h) } by {
        if h == x.height {
            lemma_record_at(q, p.len() as int);
        } else if exists|k: int| 0 <= k < p.len() && (#[trigger] p[k]).height == h {
            let k = choose|k: int| 0 <= k < p.len() && (#[trigger] p[k]).height == h;
            lemma_record_at(p, k);
            assert(q[k] == p[k]);
            lemma_record_at(q, k);
        } else {
            assert forall|k: int| 0 <= k < q.len() implies (#[trigger] q[k]).height != h by {
                if k < p.len() {
                    assert(q[k] == p[k]);
                }
            }
        }
    }
}

/// Keeping the records whose height satisfies `f`.
proof fn lemma_keep_where(b: Seq<BlockRecord>, f: spec_fn(int) -> bool)
    requires
        heights_unique(b),
    ensures
        heights_unique(keep_where(b, f)),
        forall|h: int| #[trigger] record_at(keep_where(b, f), h) == if f(h) { record_at(b, h) } else { None },
    decreases b.len(),
{
    if b.len() == 0 {
        assert forall|h: int| #[trigger] record_at(keep_where(b, f), h) == if f(h) { record_at(b, h) } else { None } by {}
    } else {
        let d = b.drop_last();
        let x = b.last();
        assert forall|j: int, k: int| 0 <= j < d.len() && 0 <= k < d.len() && j != k implies #[trigger] d[j].height != #[trigger] d[k].height by {
            assert(d[j] == b[j] && d[k] == b[k]);
        }
        lemma_keep_where(d, f);
        let kd = keep_where(d, f);
        assert forall|h: int| h != x.height implies #[trigger] record_at(d, h) == record_at(b, h) by {
            if exists|k: int| 0 <= k < d.len() && (#[trigger] d[k]).height == h {
                let k = choose|k: int| 0 <= k < d.len() && (#[trigger] d[k]).height == h;
                lemma_record_at(d, k);
                assert(b[k] == d[k]);
                lemma_record_at(b, k);
            } else {
                assert forall|k: int| 0 <= k < b.len() implies (#[trigger] b[k]).height != h by {
                    if k < d.len() {
                        assert(b[k] == d[k]);
                    }
                }
            }
        }
        assert(record_at(d, x.height as int) is None) by {
            assert forall|k: int| 0 <= k < d.len() implies (#[trigger] d[k]).height != x.height by {
                assert(d[k] == b[k]);
                assert(b[b.len() - 1] == x);
            }
        }
        lemma_record_at(b, b.len() - 1);
        if f(x.height as int) {
            lemma_push_record(kd, x);
        }
        assert forall|h: int| #[trigger] record_at(keep_where(b, f), h) == if f(h) { record_at(b, h) } else { None } by {
            if h != x.height {
                assert(record_at(d, h) == record_at(b, h));
            }
        }
    }
}

/// The label of `k`, if any.
fn find_label(labels: &Vec<(String, String)>, k: &str) -> (r: Option<usize>)
    ensures
        match r {
            Some(i) => i < labels@.len() && labels@[i as int].0@ == k@ && label_of(labels@, k@) == Some(labels@[i as int].1@),
            None => label_of(labels@, k@) is None,
        },
{
    let mut i: usize = 0;
    proof {
        assert(labels@.skip(0) =~= labels@);
    }
    while i < labels.len()
        invariant
            i <= labels@.len(),
            label_of(labels@, k@) == label_of(labels@.skip(i as int), k@),
        decreases labels@.len() - i,
    {
        proof {
            assert(labels@.skip(i as int).drop_first() =~= labels@.skip(i + 1));
            assert(labels@.skip(i as int)[0] == labels@[i as int]);
        }
        if crate::addrman::str_eq(labels[i].0.as_str(), k) {
            return Some(i);
        }
        i = i + 1;
    }
    proof {
        assert(labels@.skip(i as int) =~= Seq::<(String, String)>::empty());
    }
    None
}

/// Label `k` with `v` unless it already has a label.
fn put_label(labels: &mut Vec<(String, String)>, k: &str, v: &str)
    ensures
        label_of(final(labels)@, k@) == match label_of(old(labels)@, k@) {
            Some(x) => Some(x),
            None => Some(v@),
        },
        forall|q: Seq<char>| q != k@ ==> label_of(final(labels)@, q) == label_of(old(labels)@, q),
{
    match find_label(labels, k) {
        Some(_) => {},
        None => {
            let ghost l0 = labels@;
            let e = (String::from_str(k), String::from_str(v));
            let ghost eg = e;
            labels.push(e);
            proof {
                assert forall|q: Seq<char>| label_of(labels@, q) == (match label_of(l0, q) {
                    Some(x) => Some(x),
                    None => if q == k@ { Some(v@) } else { None },
                }) by {
                    lemma_label_push(l0, eg, labels@, q);
                }
            }
        },
    }
}

proof fn lemma_label_push(l0: Seq<(String, String)>, e: (String, String), l1: Seq<(String, String)>, q: Seq<char>)
    requires
        l1 == l0.push(e),
    ensures
        label_of(l1, q) == (match label_of(l0, q) {
            Some(x) => Some(x),
            None => if q == e.0@ { Some(e.1@) } else { None },
        }),
    decreases l0.len(),
{
    if l0.len() > 0 {
        assert(l1[0] == l0[0]);
        assert(l1.drop_first() =~= l0.drop_first().push(e));
        lemma_label_push(l0.drop_first(), e, l1.drop_first(), q);
    } else {
        assert(l1[0] == e);
        assert(l1.drop_first() =~= Seq::<(String, String)>::empty());
        assert(label_of(l1.drop_first(), q) is None);
    }
}

impl IndexerDb {
    /// Well-formed: one block record per height.
    pub open spec fn wf(&self) -> bool {
        heights_unique(self.blocks@)
    }

    /// Whether no two block records share a height (checked on an index
    /// read back from storage).
    pub fn has_unique_heights(&self) -> (r: bool)
        ensures
            r == self.wf(),
    {
        let n = self.blocks.len();
        let mut j: usize = 0;
        while j < n
            invariant
                j <= n == self.blocks@.len(),
                forall|a: int, b: int| 0 <= a < j && 0 <= b < n && a != b ==> #[trigger] self.blocks@[a].height != #[trigger] self.blocks@[b].height,
            decreases n - j,
        {
            let mut k: usize = 0;
            while k < n
                invariant
                    j < n == self.blocks@.len(),
                    k <= n,
                    forall|a: int, b: int| 0 <= a < j && 0 <= b < n && a != b ==> #[trigger] self.blocks@[a].height != #[trigger] self.blocks@[b].height,
                    forall|b: int| 0 <= b < k && b != j ==> self.blocks@[j as int].height != #[trigger] self.blocks@[b].height,
                decreases n - k,
            {
                if k != j && self.blocks[j].height == self.blocks[k].height {
                    return false;
                }
                k = k + 1;
            }
            j = j + 1;
        }
        true
    }

    /// An empty index with the protocol labels.
    pub fn new() -> (r: IndexerDb)
        ensures
            r.wf(),
            r.format == INDEXER_FORMAT,
            r.blocks@.len() == 0,
            r.txs@.len() == 0,
            r.series@.len() == 0,
            label_of(r.labels@, "protocol:genesis"@) == Some("Hassan genesis"@),
            label_of(r.labels@, "protocol:kernel"@) == Some("Kernel rules ID"@),
            label_of(r.labels@, "domain:"@ + ascii_chars(spec_genesis_domain())) == Some("Genesis domain"@),
    {
        let mut db = IndexerDb {
            format: INDEXER_FORMAT,
            tip_height: 0,
            tip_hash: None,
            blocks: Vec::new(),
            by_hash: Vec::new(),
            txs: Vec::new(),
            address_txs: Vec::new(),
            labels: Vec::new(),
            series: Vec::new(),
            indexed_at_ms: 0,
        };
        db.seed_protocol_labels();
        proof {
            reveal_strlit("protocol:genesis");
            reveal_strlit("protocol:kernel");
            reveal_strlit("domain:");
        }
        db
    }

    /// Label the genesis, the kernel rules id and the genesis domain, keeping
    /// labels already present.
    pub fn seed_protocol_labels(&mut self)
        ensures
            label_of(final(self).labels@, "protocol:genesis"@) == match label_of(old(self).labels@, "protocol:genesis"@) {
                Some(x) => Some(x),
                None => Some("Hassan genesis"@),
            },
            label_of(final(self).labels@, "protocol:kernel"@) == match label_of(old(self).labels@, "protocol:kernel"@) {
                Some(x) => Some(x),
                None => Some("Kernel rules ID"@),
            },
            label_of(final(self).labels@, "domain:"@ + ascii_chars(spec_genesis_domain())) == match label_of(old(self).labels@, "domain:"@ + ascii_chars(spec_genesis_domain())) {
                Some(x) => Some(x),
                None => Some("Genesis domain"@),
            },
            final(self).blocks == old(self).blocks,
            final(self).txs == old(self).txs,
            final(self).series == old(self).series,
            final(self).format == old(self).format,
    {
        let d = genesis_domain();
        proof {
            assert(crate::bytes::all_ascii(d@));
        }
        let dom = concat("domain:", string_from_ascii(d).as_str());
        proof {
            reveal_strlit("protocol:genesis");
            reveal_strlit("protocol:kernel");
            reveal_strlit("domain:");
            assert("protocol:genesis"@.len() != "protocol:kernel"@.len());
            assert(dom@[0] == 'd');
            assert("protocol:genesis"@[0] == 'p');
            assert("protocol:kernel"@[0] == 'p');
            assert(dom@ != "protocol:genesis"@);
            assert(dom@ != "protocol:kernel"@);
        }
        put_label(&mut self.labels, "protocol:genesis", "Hassan genesis");
        put_label(&mut self.labels, "protocol:kernel", "Kernel rules ID");
        put_label(&mut self.labels, dom.as_str(), "Genesis domain");
    }
}

/// Total fee of a list of transfers.
pub open spec fn fee_sum(txs: Seq<TransparentTx>) -> nat
    decreases txs.len(),
{
    if txs.len() == 0 { 0 } else { fee_sum(txs.drop_last()) + (txs.last().fee as nat) }
}

/// Every stored block's fee total fits in `u128`.
pub open spec fn block_fees_fit(s: ChainState) -> bool {
    forall|i: int| 0 <= i < s.blocks@.len() ==> fee_sum((#[trigger] s.blocks@[i]).transparent_txs@) <= u128::MAX
}

/// Total fee of a list of transfers.
fn total_fee(txs: &Vec<TransparentTx>) -> (r: u128)
    requires
        fee_sum(txs@) <= u128::MAX,
    ensures
        r == fee_sum(txs@),
{
    let mut sum: u128 = 0;
    let mut k: usize = 0;
    while k < txs.len()
        invariant
            k <= txs@.len(),
            fee_sum(txs@) <= u128::MAX,
            sum == fee_sum(txs@.take(k as int)),
        decreases txs@.len() - k,
    {
        proof {
            assert(txs@.take(k + 1).drop_last() =~= txs@.take(k as int));
            lemma_fee_sum_prefix(txs@, k + 1);
        }
        sum = sum + txs[k].fee;
        k = k + 1;
    }
    proof {
        assert(txs@.take(txs@.len() as int) =~= txs@);
    }
    sum
}

proof fn lemma_fee_sum_prefix(t: Seq<TransparentTx>, k: int)
    requires
        0 <= k <= t.len(),
    ensures
        fee_sum(t.take(k)) <= fee_sum(t),
    decreases t.len() - k,
{
    if k < t.len() {
        lemma_fee_sum_prefix(t, k + 1);
        assert(t.take(k + 1).drop_last() =~= t.take(k));
    } else {
        assert(t.take(k) =~= t);
    }
}

/// Whether `ids` holds `id`.
fn ids_contain(ids: &Vec<String>, id: &str) -> (r: bool)
    ensures
        r == exists|k: int| 0 <= k < ids@.len() && (#[trigger] ids@[k])@ == id@,
{
    let mut k: usize = 0;
    while k < ids.len()
        invariant
            k <= ids@.len(),
            forall|j: int| 0 <= j < k ==> (#[trigger] ids@[j])@ != id@,
        decreases ids@.len() - k,
    {
        if crate::addrman::str_eq(ids[k].as_str(), id) {
            return true;
        }
        k = k + 1;
    }
    false
}

/// Some transfer record has id `id`.
pub open spec fn has_tx_record(txs: Seq<TxRecord>, id: Seq<char>) -> bool {
    exists|k: int| 0 <= k < txs.len() && (#[trigger] txs[k]).tx_hash@ == id
}

fn find_tx_record(txs: &Vec<TxRecord>, id: &str) -> (r: Option<usize>)
    ensures
        match r {
            Some(k) => k < txs@.len() && txs@[k as int].tx_hash@ == id@,
            None => !has_tx_record(txs@, id@),
        },
{
    let mut k: usize = 0;
    while k < txs.len()
        invariant
            k <= txs@.len(),
            forall|j: int| 0 <= j < k ==> (#[trigger] txs@[j]).tx_hash@ != id@,
        decreases txs@.len() - k,
    {
        if crate::addrman::str_eq(txs[k].tx_hash.as_str(), id) {
            return Some(k);
        }
        k = k + 1;
    }
    None
}

/// The hash-to-height table as views.
pub open spec fn height_views(t: Seq<(String, u64)>) -> Seq<(Seq<char>, u64)> {
    t.map_values(|e: (String, u64)| (e.0@, e.1))
}

/// The keys of the hash-to-height table.
pub open spec fn height_keys(t: Seq<(String, u64)>) -> Seq<Seq<char>> {
    t.map_values(|e: (String, u64)| e.0@)
}

/// The per-address transfer lists as views.
pub open spec fn addr_views(t: Seq<(String, Vec<String>)>) -> Seq<(Seq<char>, Seq<Seq<char>>)> {
    t.map_values(|e: (String, Vec<String>)| (e.0@, e.1@.map_values(|x: String| x@)))
}

/// The addresses of the per-address transfer lists.
pub open spec fn addr_keys(t: Seq<(String, Vec<String>)>) -> Seq<Seq<char>> {
    t.map_values(|e: (String, Vec<String>)| e.0@)
}

/// Position of the first occurrence of key `k`.
pub open spec fn first_key(keys: Seq<Seq<char>>, k: Seq<char>) -> Option<int>
    decreases keys.len(),
{
    if keys.len() == 0 {
        None
    } else if keys[0] == k {
        Some(0)
    } else {
        match first_key(keys.drop_first(), k) {
            Some(i) => Some(i + 1),
            None => None,
        }
    }
}

proof fn lemma_first_key(keys: Seq<Seq<char>>, k: Seq<char>, i: int)
    requires
        0 <= i <= keys.len(),
        forall|j: int| 0 <= j < i ==> keys[j] != k,
        i < keys.len() ==> keys[i] == k,
    ensures
        first_key(keys, k) == if i < keys.len() { Some(i) } else { None::<int> },
    decreases i,
{
    if i > 0 {
        assert(keys[0] != k);
        assert forall|j: int| 0 <= j < i - 1 implies keys.drop_first()[j] != k by {
            assert(keys.drop_first()[j] == keys[j + 1]);
        }
        if i < keys.len() {
            assert(keys.drop_first()[i - 1] == keys[i]);
        }
        lemma_first_key(keys.drop_first(), k, i - 1);
    }
}

/// The ids of `ids` that name an indexed transfer, in order.
pub open spec fn live_ids(txs: Seq<TxRecord>, ids: Seq<Seq<char>>) -> Seq<Seq<char>>
    decreases ids.len(),
{
    if ids.len() == 0 {
        ids
    } else if has_tx_record(txs, ids.last()) {
        live_ids(txs, ids.drop_last()).push(ids.last())
    } else {
        live_ids(txs, ids.drop_last())
    }
}

/// A transfer list after `txid` is recorded: appended unless it is already
/// the last entry, then cut to its newest `MAX_ADDR_TXS` entries.
pub open spec fn list_with(l: Seq<Seq<char>>, txid: Seq<char>) -> Seq<Seq<char>> {
    let l2 = if l.len() > 0 && l.last() == txid { l } else { l.push(txid) };
    if l2.len() > MAX_ADDR_TXS { l2.skip(l2.len() - MAX_ADDR_TXS) } else { l2 }
}

/// Transfer id `id` is listed for address `a` in the per-address lists `v`.
pub open spec fn listed(v: Seq<(Seq<char>, Seq<Seq<char>>)>, a: Seq<char>, id: Seq<char>) -> bool {
    exists|p: int, w: int| 0 <= p < v.len() && 0 <= w < v[p].1.len() && v[p].0 == a && #[trigger] v[p].1[w] == id
}

proof fn lemma_first_key_some(keys: Seq<Seq<char>>, k: Seq<char>)
    ensures
        first_key(keys, k) matches Some(p) ==> 0 <= p < keys.len() && keys[p] == k,
    decreases keys.len(),
{
    if keys.len() > 0 && keys[0] != k {
        lemma_first_key_some(keys.drop_first(), k);
        match first_key(keys.drop_first(), k) {
            Some(p) => {
                assert(keys[p + 1] == keys.drop_first()[p]);
            },
            None => {},
        }
    }
}

proof fn lemma_list_with_elems(l: Seq<Seq<char>>, id: Seq<char>)
    ensures
        forall|w: int| 0 <= w < list_with(l, id).len() ==> #[trigger] list_with(l, id)[w] == id || l.contains(list_with(l, id)[w]),
{
    let l2 = if l.len() > 0 && l.last() == id { l } else { l.push(id) };
    assert forall|w: int| 0 <= w < l2.len() implies #[trigger] l2[w] == id || l.contains(l2[w]) by {
        if w < l.len() {
            assert(l2[w] == l[w]);
        }
    }
    if l2.len() > MAX_ADDR_TXS {
        let d = l2.len() - MAX_ADDR_TXS;
        assert forall|w: int| 0 <= w < list_with(l, id).len() implies #[trigger] list_with(l, id)[w] == id || l.contains(list_with(l, id)[w]) by {
            assert(list_with(l, id)[w] == l2[w + d]);
        }
    }
}

/// Recording `id` for `a` lists nothing else anew.
proof fn lemma_push_listed(t: Seq<(String, Vec<String>)>, a: Seq<char>, id: Seq<char>, v2: Seq<(Seq<char>, Seq<Seq<char>>)>)
    requires
        v2 == match first_key(addr_keys(t), a) {
            Some(p) => addr_views(t).update(p, (a, list_with(addr_views(t)[p].1, id))),
            None => addr_views(t).push((a, list_with(Seq::empty(), id))),
        },
    ensures
        forall|a2: Seq<char>, id2: Seq<char>| #[trigger] listed(v2, a2, id2) ==> listed(addr_views(t), a2, id2) || (a2 == a && id2 == id),
{
    let v = addr_views(t);
    lemma_first_key_some(addr_keys(t), a);
    assert forall|a2: Seq<char>, id2: Seq<char>| #[trigger] listed(v2, a2, id2) implies listed(v, a2, id2) || (a2 == a && id2 == id) by {
        let (p, w) = choose|p: int, w: int| 0 <= p < v2.len() && 0 <= w < v2[p].1.len() && v2[p].0 == a2 && #[trigger] v2[p].1[w] == id2;
        match first_key(addr_keys(t), a) {
            Some(p0) => {
                if p == p0 {
                    lemma_list_with_elems(v[p0].1, id);
                    assert(addr_keys(t)[p0] == t[p0].0@);
                    assert(v[p0].0 == t[p0].0@);
                    if id2 != id {
                        assert(v[p0].1.contains(id2));
                        let w2 = choose|w2: int| 0 <= w2 < v[p0].1.len() && v[p0].1[w2] == id2;
                        assert(v[p0].1[w2] == id2);
                    }
                } else {
                    assert(v2[p] == v[p]);
                    assert(v[p].1[w] == id2);
                }
            },
            None => {
                if p == v.len() {
                    lemma_list_with_elems(Seq::empty(), id);
                } else {
                    assert(v2[p] == v[p]);
                    assert(v[p].1[w] == id2);
                }
            },
        }
    }
}

proof fn lemma_live_ids_sub(txs: Seq<TxRecord>, ids: Seq<Seq<char>>)
    ensures
        forall|w: int| 0 <= w < live_ids(txs, ids).len() ==> ids.contains(#[trigger] live_ids(txs, ids)[w]),
    decreases ids.len(),
{
    if ids.len() > 0 {
        let d = ids.drop_last();
        lemma_live_ids_sub(txs, d);
        let r = live_ids(txs, d);
        assert forall|w: int| 0 <= w < live_ids(txs, ids).len() implies ids.contains(#[trigger] live_ids(txs, ids)[w]) by {
            if w < r.len() {
                assert(live_ids(txs, ids)[w] == r[w]);
                let w2 = choose|w2: int| 0 <= w2 < d.len() && d[w2] == r[w];
                assert(ids[w2] == d[w2]);
            } else {
                assert(live_ids(txs, ids)[w] == ids.last());
                assert(ids[ids.len() - 1] == ids.last());
            }
        }
    }
}

/// Keeping live ids lists nothing anew.
proof fn lemma_retain_listed(v: Seq<(Seq<char>, Seq<Seq<char>>)>, txs: Seq<TxRecord>, v2: Seq<(Seq<char>, Seq<Seq<char>>)>)
    requires
        v2 == v.map_values(|e: (Seq<char>, Seq<Seq<char>>)| (e.0, live_ids(txs, e.1))),
    ensures
        forall|a: Seq<char>, id: Seq<char>| #[trigger] listed(v2, a, id) ==> listed(v, a, id),
{
    assert forall|a: Seq<char>, id: Seq<char>| #[trigger] listed(v2, a, id) implies listed(v, a, id) by {
        let (p, w) = choose|p: int, w: int| 0 <= p < v2.len() && 0 <= w < v2[p].1.len() && v2[p].0 == a && #[trigger] v2[p].1[w] == id;
        assert(v2[p] == (v[p].0, live_ids(txs, v[p].1)));
        lemma_live_ids_sub(txs, v[p].1);
        assert(v[p].1.contains(id));
        let w2 = choose|w2: int| 0 <= w2 < v[p].1.len() && v[p].1[w2] == id;
        assert(v[p].1[w2] == id);
    }
}

/// The query looks like an address: a valid address, or `hsn:` / `hsn1`.
pub open spec fn address_like(t: Seq<char>) -> bool {
    crate::address::spec_valid_address(encode_utf8(t)) || has_prefix(t, "hsn:"@) || has_prefix(t, "hsn1"@)
}

/// Number of transfers listed for address `a` (0 when unlisted).
pub open spec fn addr_count(t: Seq<(String, Vec<String>)>, a: Seq<char>) -> nat {
    match first_key(addr_keys(t), a) {
        Some(p) => t[p].1@.len(),
        None => 0,
    }
}

impl IndexerDb {
    /// Drop every block, hash entry, transfer and series point at or above
    /// `height`, and address entries for dropped transfers.
    fn trim_from_height(&mut self, height: u64)
        requires
            old(self).wf(),
        ensures
            final(self).wf(),
            forall|h: int| #[trigger] record_at(final(self).blocks@, h) == if h < height { record_at(old(self).blocks@, h) } else { None },
            final(self).labels == old(self).labels,
            final(self).series@.len() <= old(self).series@.len(),
            forall|q: int| 0 <= q < final(self).series@.len() ==> old(self).series@.contains(#[trigger] final(self).series@[q]),
            forall|q: int| 0 <= q < old(self).series@.len() && (#[trigger] old(self).series@[q]).height < height
                ==> final(self).series@.contains(old(self).series@[q]),
            forall|q: int| 0 <= q < final(self).txs@.len() ==> old(self).txs@.contains(#[trigger] final(self).txs@[q]),
            forall|q: int| 0 <= q < old(self).txs@.len() && (#[trigger] old(self).txs@[q]).height < height
                ==> final(self).txs@.contains(old(self).txs@[q]),
            forall|a: Seq<char>, id: Seq<char>| #[trigger] listed(addr_views(final(self).address_txs@), a, id) ==> listed(addr_views(old(self).address_txs@), a, id),
    {
        let mut kept: Vec<BlockRecord> = Vec::new();
        let mut dropped: Vec<String> = Vec::new();
        let ghost b0 = self.blocks@;
        let ghost f = |x: int| x < height as int;
        let mut src: Vec<BlockRecord> = Vec::new();
        std::mem::swap(&mut src, &mut self.blocks);
        let n = src.len();
        let mut k: usize = 0;
        proof {
            assert(b0.take(0) =~= Seq::<BlockRecord>::empty());
            assert(b0.skip(0) =~= b0);
        }
        while src.len() > 0
            invariant
                k + src@.len() == n,
                n == b0.len(),
                src@ == b0.skip(k as int),
                f == (|x: int| x < height as int),
                kept@ == keep_where(b0.take(k as int), f),
            decreases src@.len(),
        {
            let ghost s0 = src@;
            let r = src.remove(0);
            proof {
                assert(r == b0[k as int]);
                assert(src@ =~= b0.skip(k + 1));
                assert(b0.take(k + 1).drop_last() =~= b0.take(k as int));
                assert(b0.take(k + 1).last() == b0[k as int]);
            }
            if r.height < height {
                kept.push(r);
            } else {
                dropped.push(r.hash);
            }
            k = k + 1;
        }
        proof {
            assert(b0.take(n as int) =~= b0);
            lemma_keep_where(b0, f);
        }
        self.blocks = kept;
        // Hash entries of dropped blocks.
        let mut by_hash: Vec<(String, u64)> = Vec::new();
        let mut i: usize = 0;
        while i < self.by_hash.len()
            decreases self.by_hash@.len() - i,
        {
            if !ids_contain(&dropped, self.by_hash[i].0.as_str()) {
                by_hash.push((String::from_str(self.by_hash[i].0.as_str()), self.by_hash[i].1));
            }
            i = i + 1;
        }
        self.by_hash = by_hash;
        // Transfers and series points at or above the height.
        let ghost x0 = self.txs@;
        let mut txs: Vec<TxRecord> = Vec::new();
        let mut tsrc: Vec<TxRecord> = Vec::new();
        std::mem::swap(&mut tsrc, &mut self.txs);
        let tn = tsrc.len();
        let mut t: usize = 0;
        proof {
            assert(x0.skip(0) =~= x0);
        }
        while tsrc.len() > 0
            invariant
                t + tsrc@.len() == tn,
                tn == x0.len(),
                tsrc@ == x0.skip(t as int),
                forall|q: int| 0 <= q < txs@.len() ==> x0.contains(#[trigger] txs@[q]),
                forall|q: int| 0 <= q < t && (#[trigger] x0[q]).height < height ==> txs@.contains(x0[q]),
            decreases tsrc@.len(),
        {
            let r = tsrc.remove(0);
            proof {
                assert(r == x0[t as int]);
                assert(tsrc@ =~= x0.skip(t + 1));
            }
            let ghost before = txs@;
            if r.height < height {
                txs.push(r);
            }
            proof {
                assert forall|q: int| 0 <= q < txs@.len() implies x0.contains(#[trigger] txs@[q]) by {
                    if q < before.len() {
                        assert(txs@[q] == before[q]);
                    } else {
                        assert(txs@[q] == x0[t as int]);
                    }
                }
                assert forall|q: int| 0 <= q < t + 1 && (#[trigger] x0[q]).height < height implies txs@.contains(x0[q]) by {
                    if q < t {
                        let w = choose|w: int| 0 <= w < before.len() && before[w] == x0[q];
                        assert(txs@[w] == before[w]);
                    } else {
                        assert(txs@[before.len() as int] == x0[q]);
                    }
                }
            }
            t = t + 1;
        }
        self.txs = txs;
        let ghost s0 = self.series@;
        let mut series: Vec<SeriesPoint> = Vec::new();
        let mut ssrc: Vec<SeriesPoint> = Vec::new();
        std::mem::swap(&mut ssrc, &mut self.series);
        let sn = ssrc.len();
        let mut p: usize = 0;
        proof {
            assert(s0.skip(0) =~= s0);
        }
        while ssrc.len() > 0
            invariant
                p + ssrc@.len() == sn,
                sn == s0.len(),
                ssrc@ == s0.skip(p as int),
                series@.len() <= p,
                forall|q: int| 0 <= q < series@.len() ==> s0.contains(#[trigger] series@[q]),
                forall|q: int| 0 <= q < p && (#[trigger] s0[q]).height < height ==> series@.contains(s0[q]),
            decreases ssrc@.len(),
        {
            let r = ssrc.remove(0);
            proof {
                assert(r == s0[p as int]);
                assert(ssrc@ =~= s0.skip(p + 1));
            }
            let ghost before = series@;
            if r.height < height {
                series.push(r);
            }
            proof {
                assert forall|q: int| 0 <= q < series@.len() implies s0.contains(#[trigger] series@[q]) by {
                    if q < before.len() {
                        assert(series@[q] == before[q]);
                    } else {
                        assert(series@[q] == s0[p as int]);
                    }
                }
                assert forall|q: int| 0 <= q < p + 1 && (#[trigger] s0[q]).height < height implies series@.contains(s0[q]) by {
                    if q < p {
                        let w = choose|w: int| 0 <= w < before.len() && before[w] == s0[q];
                        assert(series@[w] == before[w]);
                    } else {
                        assert(series@[before.len() as int] == s0[q]);
                    }
                }
            }
            p = p + 1;
        }
        self.series = series;
        self.retain_live_address_txs();
    }

    /// Keep in each address list only ids of indexed transfers.
    fn retain_live_address_txs(&mut self)
        ensures
            forall|a: Seq<char>, id: Seq<char>| #[trigger] listed(addr_views(final(self).address_txs@), a, id) ==> listed(addr_views(old(self).address_txs@), a, id),
            final(self).blocks == old(self).blocks,
            final(self).labels == old(self).labels,
            final(self).series == old(self).series,
            final(self).txs == old(self).txs,
            final(self).by_hash == old(self).by_hash,
            addr_views(final(self).address_txs@) == addr_views(old(self).address_txs@).map_values(
                |e: (Seq<char>, Seq<Seq<char>>)| (e.0, live_ids(old(self).txs@, e.1))),
    {
        let ghost f = |e: (Seq<char>, Seq<Seq<char>>)| (e.0, live_ids(self.txs@, e.1));
        let ghost src = addr_views(self.address_txs@);
        let mut lists: Vec<(String, Vec<String>)> = Vec::new();
        let mut a: usize = 0;
        while a < self.address_txs.len()
            invariant
                a <= self.address_txs@.len(),
                src == addr_views(self.address_txs@),
                f == (|e: (Seq<char>, Seq<Seq<char>>)| (e.0, live_ids(self.txs@, e.1))),
                addr_views(lists@) == src.take(a as int).map_values(f),
            decreases self.address_txs@.len() - a,
        {
            let entry = &self.address_txs[a];
            let ghost idv = entry.1@.map_values(|x: String| x@);
            let mut ids: Vec<String> = Vec::new();
            let mut k: usize = 0;
            while k < entry.1.len()
                invariant
                    k <= entry.1@.len(),
                    idv == entry.1@.map_values(|x: String| x@),
                    ids@.map_values(|x: String| x@) == live_ids(self.txs@, idv.take(k as int)),
                decreases entry.1@.len() - k,
            {
                proof {
                    assert(idv.take(k + 1).drop_last() =~= idv.take(k as int));
                    assert(idv.take(k + 1).last() == entry.1@[k as int]@);
                }
                if find_tx_record(&self.txs, entry.1[k].as_str()).is_some() {
                    let ghost before = ids@;
                    ids.push(String::from_str(entry.1[k].as_str()));
                    proof {
                        assert(ids@.map_values(|x: String| x@) =~= before.map_values(|x: String| x@).push(entry.1@[k as int]@));
                    }
                }
                k = k + 1;
            }
            proof {
                assert(idv.take(entry.1@.len() as int) =~= idv);
            }
            let ghost before = lists@;
            lists.push((String::from_str(entry.0.as_str()), ids));
            proof {
                assert(src[a as int] == (entry.0@, idv));
                assert(src.take(a + 1).map_values(f) =~= src.take(a as int).map_values(f).push(f(src[a as int])));
                assert(addr_views(lists@) =~= addr_views(before).push((entry.0@, live_ids(self.txs@, idv))));
            }
            a = a + 1;
        }
        proof {
            assert(src.take(self.address_txs@.len() as int) =~= src);
        }
        self.address_txs = lists;
        proof {
            lemma_retain_listed(src, self.txs@, addr_views(self.address_txs@));
        }
    }
}

impl IndexerDb {
    /// Put `rec` as the record of its height, replacing any other.
    fn upsert_block(&mut self, rec: BlockRecord)
        requires
            old(self).wf(),
        ensures
            final(self).wf(),
            forall|h: int| #[trigger] record_at(final(self).blocks@, h) == if h == rec.height { Some(rec) } else { record_at(old(self).blocks@, h) },
            final(self).labels == old(self).labels,
            final(self).txs == old(self).txs,
            final(self).series == old(self).series,
            final(self).address_txs == old(self).address_txs,
            final(self).by_hash == old(self).by_hash,
    {
        let ghost b0 = self.blocks@;
        let ghost f = |x: int| x != rec.height as int;
        let mut src: Vec<BlockRecord> = Vec::new();
        std::mem::swap(&mut src, &mut self.blocks);
        let mut kept: Vec<BlockRecord> = Vec::new();
        let n = src.len();
        let mut k: usize = 0;
        proof {
            assert(b0.take(0) =~= Seq::<BlockRecord>::empty());
            assert(b0.skip(0) =~= b0);
        }
        while src.len() > 0
            invariant
                k + src@.len() == n,
                n == b0.len(),
                src@ == b0.skip(k as int),
                f == (|x: int| x != rec.height as int),
                kept@ == keep_where(b0.take(k as int), f),
            decreases src@.len(),
        {
            let r = src.remove(0);
            proof {
                assert(r == b0[k as int]);
                assert(src@ =~= b0.skip(k + 1));
                assert(b0.take(k + 1).drop_last() =~= b0.take(k as int));
                assert(b0.take(k + 1).last() == b0[k as int]);
            }
            if r.height != rec.height {
                kept.push(r);
            }
            k = k + 1;
        }
        proof {
            assert(b0.take(n as int) =~= b0);
            lemma_keep_where(b0, f);
            lemma_push_record(kept@, rec);
        }
        kept.push(rec);
        self.blocks = kept;
    }

    /// Put the height of block `hash`: replace its entry, or append one.
    fn set_by_hash(&mut self, hash: &str, height: u64)
        ensures
            final(self).blocks == old(self).blocks,
            final(self).labels == old(self).labels,
            final(self).txs == old(self).txs,
            final(self).series == old(self).series,
            final(self).address_txs == old(self).address_txs,
            height_views(final(self).by_hash@) == match first_key(height_keys(old(self).by_hash@), hash@) {
                Some(i) => height_views(old(self).by_hash@).update(i, (hash@, height)),
                None => height_views(old(self).by_hash@).push((hash@, height)),
            },
    {
        let mut i: usize = 0;
        while i < self.by_hash.len()
            invariant
                i <= self.by_hash@.len(),
                self.by_hash == old(self).by_hash,
                self.blocks == old(self).blocks,
                self.labels == old(self).labels,
                self.txs == old(self).txs,
                self.series == old(self).series,
                self.address_txs == old(self).address_txs,
                forall|j: int| 0 <= j < i ==> (#[trigger] self.by_hash@[j]).0@ != hash@,
            decreases self.by_hash@.len() - i,
        {
            if crate::addrman::str_eq(self.by_hash[i].0.as_str(), hash) {
                let ghost t0 = self.by_hash@;
                proof {
                    assert forall|j: int| 0 <= j < i implies height_keys(t0)[j] != hash@ by {
                        assert(height_keys(t0)[j] == t0[j].0@);
                    }
                    lemma_first_key(height_keys(t0), hash@, i as int);
                }
                self.by_hash.set(i, (String::from_str(hash), height));
                proof {
                    assert(height_views(self.by_hash@) =~= height_views(t0).update(i as int, (hash@, height)));
                }
                return;
            }
            i = i + 1;
        }
        let ghost t0 = self.by_hash@;
        proof {
            assert forall|j: int| 0 <= j < t0.len() implies height_keys(t0)[j] != hash@ by {
                assert(height_keys(t0)[j] == t0[j].0@);
            }
            lemma_first_key(height_keys(t0), hash@, t0.len() as int);
        }
        self.by_hash.push((String::from_str(hash), height));
        proof {
            assert(height_views(self.by_hash@) =~= height_views(t0).push((hash@, height)));
        }
    }

    /// Put `rec` as the record of its transfer id, replacing any other.
    fn upsert_tx(&mut self, rec: TxRecord)
        ensures
            final(self).blocks == old(self).blocks,
            final(self).labels == old(self).labels,
            final(self).series == old(self).series,
            final(self).address_txs == old(self).address_txs,
            has_tx_record(final(self).txs@, rec.tx_hash@),
            (exists|k: int| 0 <= k < old(self).txs@.len() && (#[trigger] old(self).txs@[k]).tx_hash@ == rec.tx_hash@
                && final(self).txs@ == old(self).txs@.update(k, rec))
                || (!has_tx_record(old(self).txs@, rec.tx_hash@) && final(self).txs@ == old(self).txs@.push(rec)),
    {
        let ghost id = rec.tx_hash@;
        match find_tx_record(&self.txs, rec.tx_hash.as_str()) {
            Some(k) => {
                self.txs.set(k, rec);
                proof {
                    assert(self.txs@[k as int].tx_hash@ == id);
                }
            },
            None => {
                self.txs.push(rec);
                proof {
                    assert(self.txs@[self.txs@.len() - 1].tx_hash@ == id);
                }
            },
        }
    }

    /// Append transfer `txid` to the list of `addr` unless it is already its
    /// last entry, keeping the newest `MAX_ADDR_TXS`.
    fn push_addr_tx(&mut self, addr: &str, txid: &str)
        ensures
            final(self).blocks == old(self).blocks,
            final(self).labels == old(self).labels,
            final(self).txs == old(self).txs,
            final(self).series == old(self).series,
            final(self).by_hash == old(self).by_hash,
            addr_views(final(self).address_txs@) == match first_key(addr_keys(old(self).address_txs@), addr@) {
                Some(p) => addr_views(old(self).address_txs@).update(p, (addr@, list_with(addr_views(old(self).address_txs@)[p].1, txid@))),
                None => addr_views(old(self).address_txs@).push((addr@, list_with(Seq::empty(), txid@))),
            },
            forall|a: Seq<char>, id: Seq<char>| #[trigger] listed(addr_views(final(self).address_txs@), a, id)
                ==> listed(addr_views(old(self).address_txs@), a, id) || (a == addr@ && id == txid@),
    {
        let ghost t0 = self.address_txs@;
        let mut pos: Option<usize> = None;
        let mut i: usize = 0;
        while i < self.address_txs.len() && pos.is_none()
            invariant
                i <= self.address_txs@.len(),
                self.address_txs@ == t0,
                pos matches Some(p) ==> p < i && t0[p as int].0@ == addr@,
                forall|j: int| 0 <= j < i && (pos matches Some(p) ==> j < p) ==> (#[trigger] t0[j]).0@ != addr@,
            decreases self.address_txs@.len() - i,
        {
            if crate::addrman::str_eq(self.address_txs[i].0.as_str(), addr) {
                pos = Some(i);
            }
            i = i + 1;
        }
        proof {
            match pos {
                Some(p) => {
                    assert forall|j: int| 0 <= j < p implies addr_keys(t0)[j] != addr@ by {
                        assert(addr_keys(t0)[j] == t0[j].0@);
                    }
                    lemma_first_key(addr_keys(t0), addr@, p as int);
                },
                None => {
                    assert forall|j: int| 0 <= j < t0.len() implies addr_keys(t0)[j] != addr@ by {
                        assert(addr_keys(t0)[j] == t0[j].0@);
                    }
                    lemma_first_key(addr_keys(t0), addr@, t0.len() as int);
                },
            }
        }
        let p = match pos {
            Some(p) => p,
            None => {
                self.address_txs.push((String::from_str(addr), Vec::new()));
                self.address_txs.len() - 1
            },
        };
        let ghost t1 = self.address_txs@;
        proof {
            assert(addr_views(t1)[p as int].0 == addr@);
            if pos is None {
                assert(addr_views(t1)[p as int].1 =~= Seq::<Seq<char>>::empty());
            } else {
                assert(addr_views(t1)[p as int] == addr_views(t0)[p as int]);
            }
        }
        let (key, mut list) = self.address_txs.remove(p);
        let ghost l0 = list@.map_values(|x: String| x@);
        let n = list.len();
        let same_last = n > 0 && crate::addrman::str_eq(list[n - 1].as_str(), txid);
        if !same_last {
            list.push(String::from_str(txid));
            proof {
                assert(list@.map_values(|x: String| x@) =~= l0.push(txid@));
            }
        }
        let ghost l2 = list@.map_values(|x: String| x@);
        proof {
            if n > 0 {
                assert(l0.last() == list@[n - 1]@) by {
                    assert(l0[n - 1] == t1[p as int].1@[n - 1]@);
                }
            }
            assert(l2 == if l0.len() > 0 && l0.last() == txid@ { l0 } else { l0.push(txid@) });
            assert(l2.skip(0) =~= l2);
        }
        while list.len() > MAX_ADDR_TXS
            invariant
                list@.len() <= l2.len(),
                list@.len() < l2.len() ==> list@.len() >= MAX_ADDR_TXS,
                list@.map_values(|x: String| x@) == l2.skip(l2.len() - list@.len()),
            decreases list@.len(),
        {
            let ghost before = list@;
            list.remove(0);
            proof {
                assert(list@ =~= before.remove(0));
                let off = l2.len() - before.len();
                let lv = list@.map_values(|x: String| x@);
                let bv = before.map_values(|x: String| x@);
                let tgt = l2.skip(l2.len() - list@.len());
                let src = l2.skip(off);
                assert forall|q: int| 0 <= q < lv.len() implies #[trigger] lv[q] == tgt[q] by {
                    assert(list@[q] == before[q + 1]);
                    assert(bv[q + 1] == src[q + 1]);
                }
                assert(list@.map_values(|x: String| x@) =~= l2.skip(l2.len() - list@.len()));
            }
        }
        proof {
            assert(list@.map_values(|x: String| x@) == list_with(l0, txid@));
        }
        let ghost mid = self.address_txs@;
        let ghost kv = key@;
        self.address_txs.insert(p, (key, list));
        proof {
            assert(self.address_txs@ =~= t1.update(p as int, self.address_txs@[p as int]));
            assert(addr_views(self.address_txs@) =~= addr_views(t1).update(p as int, (addr@, list_with(l0, txid@))));
            if pos is None {
                assert(addr_views(t1) =~= addr_views(t0).push((addr@, Seq::<Seq<char>>::empty())));
                assert(addr_views(self.address_txs@) =~= addr_views(t0).push((addr@, list_with(Seq::empty(), txid@))));
            }
            lemma_push_listed(t0, addr@, txid@, addr_views(self.address_txs@));
        }
    }

    /// Keep at most `MAX_TX_RECORDS` transfers, dropping those at the lowest
    /// heights first (earliest listed among equal heights).
    fn trim_tx_cap(&mut self)
        ensures
            final(self).blocks == old(self).blocks,
            final(self).labels == old(self).labels,
            final(self).series == old(self).series,
            final(self).txs@.len() == if old(self).txs@.len() <= MAX_TX_RECORDS { old(self).txs@.len() } else { MAX_TX_RECORDS as nat },
            old(self).txs@.len() <= MAX_TX_RECORDS ==> final(self).txs == old(self).txs,
            forall|q: int| 0 <= q < final(self).txs@.len() ==> old(self).txs@.contains(#[trigger] final(self).txs@[q]),
            forall|a: Seq<char>, id: Seq<char>| #[trigger] listed(addr_views(final(self).address_txs@), a, id) ==> listed(addr_views(old(self).address_txs@), a, id),
    {
        if self.txs.len() <= MAX_TX_RECORDS {
            return;
        }
        while self.txs.len() > MAX_TX_RECORDS
            invariant
                self.blocks == old(self).blocks,
                self.labels == old(self).labels,
                self.series == old(self).series,
                self.txs@.len() >= MAX_TX_RECORDS,
                forall|q: int| 0 <= q < self.txs@.len() ==> old(self).txs@.contains(#[trigger] self.txs@[q]),
                self.address_txs == old(self).address_txs,
            decreases self.txs@.len(),
        {
            let mut best: usize = 0;
            let mut k: usize = 1;
            while k < self.txs.len()
                invariant
                    best < self.txs@.len(),
                    1 <= k <= self.txs@.len(),
                decreases self.txs@.len() - k,
            {
                if self.txs[k].height < self.txs[best].height {
                    best = k;
                }
                k = k + 1;
            }
            let ghost before = self.txs@;
            self.txs.remove(best);
            proof {
                assert forall|q: int| 0 <= q < self.txs@.len() implies old(self).txs@.contains(#[trigger] self.txs@[q]) by {
                    if q < best {
                        assert(self.txs@[q] == before[q]);
                    } else {
                        assert(self.txs@[q] == before[q + 1]);
                    }
                }
            }
        }
        self.retain_live_address_txs();
    }
}

/// Some transfer record has id `id` and height `height`.
pub open spec fn id_at_height(txs: Seq<TxRecord>, id: Seq<char>, height: int) -> bool {
    exists|q: int| 0 <= q < txs.len() && (#[trigger] txs[q]).tx_hash@ == id && txs[q].height == height
}

/// The id (hex) of transfer `k` of the stored block at position `bi`.
pub open spec fn transfer_id(s: ChainState, bi: int, k: int) -> Seq<char> {
    hex_of(spec_tx_hash(s.blocks@[bi].transparent_txs@[k]@))
}

/// Transfer `k` of the stored block at position `bi` has id `id` and
/// moves coins from or to `a`.
pub open spec fn touches(s: ChainState, bi: int, k: int, a: Seq<char>, id: Seq<char>) -> bool {
    let tx = s.blocks@[bi].transparent_txs@[k];
    &&& 0 <= k < s.blocks@[bi].transparent_txs@.len()
    &&& id == transfer_id(s, bi, k)
    &&& (a == tx.from@ || a == tx.to@)
}

/// `l` is a label that indexing the stored block at `bi` as the
/// selected-chain block at `height` gives key `q`: its miner's, or an
/// active account's.
pub open spec fn block_label(s: ChainState, bi: int, height: int, q: Seq<char>, l: Seq<char>) -> bool {
    let txs = s.blocks@[bi].transparent_txs@;
    ||| q == hsn_address(s.blocks@[bi].miner@) && l == "Miner @ height "@ + decimal_digits(height as nat)
    ||| l == "Active account"@ && exists|k: int| 0 <= k < txs.len() && (q == (#[trigger] txs[k]).from@ || q == txs[k].to@)
}

/// `l` is the label a sync gives key `q` as a tip of `s` without an
/// indexed body.
pub open spec fn tip_label(s: ChainState, q: Seq<char>, l: Seq<char>) -> bool {
    l == "DAG tip (non-indexed body)"@ && exists|t: int| 0 <= t < s.tips@.len() && q == hex_of((#[trigger] s.tips@[t])@)
}

/// Every label of `l0` stays in `l1`.
pub open spec fn labels_kept(l0: Seq<(String, String)>, l1: Seq<(String, String)>) -> bool {
    forall|q: Seq<char>| #[trigger] label_of(l0, q) is Some ==> label_of(l1, q) == label_of(l0, q)
}

/// `p` is the series point of the stored block at `bi` of `s`, indexed at
/// `height`.
pub open spec fn series_point_of(s: ChainState, bi: int, height: int, p: SeriesPoint) -> bool {
    let b = s.blocks@[bi];
    &&& p.height == height
    &&& p.blue_score == s.store.nodes@[bi].blue_score
    &&& p.timestamp == b.timestamp
    &&& p.difficulty == b.difficulty
    &&& p.transfers == b.transparent_txs@.len() as u32
    &&& p.fees@ == decimal_digits(fee_sum(b.transparent_txs@))
    &&& p.minted_supply@ == decimal_digits(s.minted_supply as nat)
    &&& p.mempool == s.transparent_mempool@.len() as u32
    &&& p.dag_blocks == s.store.nodes@.len() as u32
}

/// Some point of `series` is the series point of selected-chain position
/// `j` of `s`.
pub open spec fn has_point(series: Seq<SeriesPoint>, s: ChainState, j: int) -> bool {
    exists|q: int| 0 <= q < series.len() && series_point_of(s, chain_pos(s, j), s.pruned_selected_blocks + j, #[trigger] series[q])
}

/// `r` records transfer `k` of the stored block at position `bi` of `s`,
/// indexed at `height`.
pub open spec fn tx_record_of(s: ChainState, bi: int, k: int, height: int, r: TxRecord) -> bool {
    let b = s.blocks@[bi];
    let tx = b.transparent_txs@[k];
    &&& 0 <= k < b.transparent_txs@.len()
    &&& r.tx_hash@ == transfer_id(s, bi, k)
    &&& r.height == height
    &&& r.block_hash@ == hex_of(s.store.hash_of(bi))
    &&& r.from@ == tx.from@
    &&& r.to@ == tx.to@
    &&& r.amount@ == decimal_digits(tx.amount as nat)
    &&& r.fee@ == decimal_digits(tx.fee as nat)
    &&& r.nonce == tx.nonce
    &&& r.timestamp == b.timestamp
}

/// `r` is the record of the stored block at position `bi` of `s`, indexed
/// as the selected-chain block at `height`.
pub open spec fn block_record_of(s: ChainState, bi: int, height: int, r: BlockRecord) -> bool {
    let b = s.blocks@[bi];
    let n = s.store.nodes@[bi];
    &&& r.height == height
    &&& r.hash@ == hex_of(s.store.hash_of(bi))
    &&& r.blue_score == n.blue_score
    &&& r.timestamp == b.timestamp
    &&& r.difficulty == b.difficulty
    &&& r.miner@ == hsn_address(b.miner@)
    &&& r.transfers == b.transparent_txs@.len() as u32
    &&& r.registry_ops == 0
    &&& r.custody_ops == 0
    &&& r.utxo_txs == 0
    &&& r.fees@ == decimal_digits(fee_sum(b.transparent_txs@))
    &&& match n.selected_parent {
        Some(j) => r.selected_parent matches Some(p) && p@ == hex_of(s.store.hash_of(j as int)),
        None => r.selected_parent is None,
    }
    &&& r.is_chain_block
}

/// The index `b` already holds, at the height of selected-chain position
/// `i`, a record of that same block.
pub open spec fn kept_at(b: Seq<BlockRecord>, s: ChainState, i: int) -> bool {
    record_at(b, s.pruned_selected_blocks + i) matches Some(r) && r.hash@ == hex_of(s.main_chain@[i]@)
}

/// The index `b` holds, at the height of selected-chain position `i`, a
/// record of another block: the chain was reorganised there.
pub open spec fn clash_at(b: Seq<BlockRecord>, s: ChainState, i: int) -> bool {
    record_at(b, s.pruned_selected_blocks + i) matches Some(r) && r.hash@ != hex_of(s.main_chain@[i]@)
}

/// The first selected-chain position from `i` on where `b` clashes (the
/// chain length when none does).
pub open spec fn first_clash(b: Seq<BlockRecord>, s: ChainState, i: int) -> int
    decreases s.main_chain@.len() - i,
{
    if i >= s.main_chain@.len() {
        s.main_chain@.len() as int
    } else if clash_at(b, s, i) {
        i
    } else {
        first_clash(b, s, i + 1)
    }
}

/// What the index holds at height `h` once the first `i` positions of the
/// selected chain of `s` have been synced into the records `b`: below the
/// chain base, the old record; at a synced position, the old record where
/// it names the same block and no reorg was met before it, else the record
/// of the stored block (none when the block is not stored); above, nothing
/// once a reorg was met, else the old record.
pub open spec fn synced_at(b: Seq<BlockRecord>, s: ChainState, i: int, h: int, got: Option<BlockRecord>) -> bool {
    let base = s.pruned_selected_blocks as int;
    let m = first_clash(b, s, 0);
    if h < base {
        got == record_at(b, h)
    } else if h < base + i {
        let j = h - base;
        let x = s.main_chain@[j]@;
        if j < m && kept_at(b, s, j) {
            got == record_at(b, h)
        } else if s.store.has(x) {
            got matches Some(r) && block_record_of(s, s.store.idx_of(x), h, r)
        } else {
            got is None
        }
    } else if m < i {
        got is None
    } else {
        got == record_at(b, h)
    }
}

/// Selected-chain position `j` is indexed afresh by a sync from the
/// records `b`: its block is stored, and `b` did not already hold it at its
/// height before the first reorg.
pub open spec fn indexed_fresh(b: Seq<BlockRecord>, s: ChainState, j: int) -> bool {
    &&& 0 <= j < s.main_chain@.len()
    &&& !(j < first_clash(b, s, 0) && kept_at(b, s, j))
    &&& s.store.has(s.main_chain@[j]@)
}

/// The stored position of the block at selected-chain position `j`.
pub open spec fn chain_pos(s: ChainState, j: int) -> int {
    s.store.idx_of(s.main_chain@[j]@)
}

/// Some transfer record has id `id` and a height below `h`.
pub open spec fn id_below(txs: Seq<TxRecord>, id: Seq<char>, h: int) -> bool {
    exists|q: int| 0 <= q < txs.len() && (#[trigger] txs[q]).tx_hash@ == id && txs[q].height < h
}

proof fn lemma_first_clash(b: Seq<BlockRecord>, s: ChainState, i: int)
    requires
        0 <= i <= s.main_chain@.len(),
    ensures
        i <= first_clash(b, s, i) <= s.main_chain@.len(),
        forall|j: int| i <= j < first_clash(b, s, i) ==> !#[trigger] clash_at(b, s, j),
        first_clash(b, s, i) < s.main_chain@.len() ==> clash_at(b, s, first_clash(b, s, i)),
    decreases s.main_chain@.len() - i,
{
    if i < s.main_chain@.len() && !clash_at(b, s, i) {
        lemma_first_clash(b, s, i + 1);
    }
}

impl IndexerDb {
    /// Bring the index up to date with the selected chain of `s` at time
    /// `now`. Position `i` of the chain stands at height
    /// `pruned_selected_blocks + i`. A record there that already names the
    /// block is kept; at the first height holding another block (a reorg),
    /// every record, transfer and series point from that height up is
    /// dropped. Each other stored chain block gets its record (one per
    /// height), its transfer records, its address activity, its miner and
    /// account labels (existing labels are kept) and a series point. Tips
    /// without an indexed body are labelled; the series and the transfer
    /// records are capped, oldest first. Records above the chain stay unless
    /// a reorg was met.
    pub fn sync_from_state_at(&mut self, s: &ChainState, now: u64)
        requires
            old(self).wf(),
            s.wf(),
            block_fees_fit(*s),
            s.pruned_selected_blocks + s.main_chain@.len() <= u64::MAX,
        ensures
            final(self).format == INDEXER_FORMAT,
            final(self).indexed_at_ms == now,
            final(self).tip_height == ({
                let t = s.pruned_selected_blocks + s.main_chain@.len();
                if t >= 1 { t - 1 } else { 0 }
            }),
            match final(self).tip_hash {
                Some(h) => s.main_chain@.len() > 0 && h@ == hex_of(s.main_chain@.last()@),
                None => s.main_chain@.len() == 0,
            },
            final(self).wf(),
            forall|h: int| synced_at(old(self).blocks@, *s, s.main_chain@.len() as int, h, #[trigger] record_at(final(self).blocks@, h)),
            forall|q: int| 0 <= q < final(self).txs@.len() ==> old(self).txs@.contains(#[trigger] final(self).txs@[q])
                || exists|j: int, k: int| indexed_fresh(old(self).blocks@, *s, j)
                && #[trigger] tx_record_of(*s, chain_pos(*s, j), k, s.pruned_selected_blocks + j, final(self).txs@[q]),
            final(self).txs@.len() < MAX_TX_RECORDS ==> forall|j: int, k: int| indexed_fresh(old(self).blocks@, *s, j)
                && 0 <= k < s.blocks@[chain_pos(*s, j)].transparent_txs@.len()
                ==> has_tx_record(final(self).txs@, #[trigger] transfer_id(*s, chain_pos(*s, j), k)),
            forall|a: Seq<char>, id: Seq<char>| #[trigger] listed(addr_views(final(self).address_txs@), a, id)
                ==> listed(addr_views(old(self).address_txs@), a, id) || exists|j: int, k: int| indexed_fresh(old(self).blocks@, *s, j)
                && #[trigger] touches(*s, chain_pos(*s, j), k, a, id),
            labels_kept(old(self).labels@, final(self).labels@),
            forall|q: Seq<char>| label_of(old(self).labels@, q) is None && #[trigger] label_of(final(self).labels@, q) is Some
                ==> tip_label(*s, q, label_of(final(self).labels@, q)->0) || exists|j: int| indexed_fresh(old(self).blocks@, *s, j)
                && #[trigger] block_label(*s, chain_pos(*s, j), s.pruned_selected_blocks + j, q, label_of(final(self).labels@, q)->0),
            forall|q: int| 0 <= q < final(self).series@.len() ==> old(self).series@.contains(#[trigger] final(self).series@[q])
                || exists|j: int| indexed_fresh(old(self).blocks@, *s, j)
                && #[trigger] series_point_of(*s, chain_pos(*s, j), s.pruned_selected_blocks + j, final(self).series@[q]),
            final(self).series@.len() < MAX_SERIES_POINTS ==> forall|j: int| indexed_fresh(old(self).blocks@, *s, j)
                ==> #[trigger] has_point(final(self).series@, *s, j),
            final(self).series@.len() <= MAX_SERIES_POINTS,
            final(self).txs@.len() <= MAX_TX_RECORDS || final(self).txs@.len() <= old(self).txs@.len(),
    {
        let base = s.pruned_selected_blocks;
        let ghost b0 = self.blocks@;
        let ghost x0 = self.txs@;
        let ghost v0 = addr_views(self.address_txs@);
        let ghost l0 = self.labels@;
        let ghost se_0 = self.series@;
        let ghost m = first_clash(b0, *s, 0);
        proof {
            lemma_first_clash(b0, *s, 0);
        }
        let mut i: usize = 0;
        while i < s.main_chain.len()
            invariant
                s.wf(),
                block_fees_fit(*s),
                i <= s.main_chain@.len(),
                base == s.pruned_selected_blocks,
                base + s.main_chain@.len() <= u64::MAX,
                self.wf(),
                m == first_clash(b0, *s, 0),
                0 <= m <= s.main_chain@.len(),
                forall|j: int| 0 <= j < m ==> !#[trigger] clash_at(b0, *s, j),
                m < s.main_chain@.len() ==> clash_at(b0, *s, m),
                forall|h: int| synced_at(b0, *s, i as int, h, #[trigger] record_at(self.blocks@, h)),
                x0 == old(self).txs@,
                forall|q: int| 0 <= q < self.txs@.len() ==> x0.contains(#[trigger] self.txs@[q])
                    || exists|j: int, k: int| j < i && indexed_fresh(b0, *s, j)
                    && #[trigger] tx_record_of(*s, chain_pos(*s, j), k, base + j, self.txs@[q]),
                forall|j: int, k: int| j < i && indexed_fresh(b0, *s, j) && 0 <= k < s.blocks@[chain_pos(*s, j)].transparent_txs@.len()
                    ==> id_below(self.txs@, #[trigger] transfer_id(*s, chain_pos(*s, j), k), base + i),
                v0 == addr_views(old(self).address_txs@),
                forall|a: Seq<char>, id: Seq<char>| #[trigger] listed(addr_views(self.address_txs@), a, id)
                    ==> listed(v0, a, id) || exists|j: int, k: int| j < i && indexed_fresh(b0, *s, j)
                    && #[trigger] touches(*s, chain_pos(*s, j), k, a, id),
                l0 == old(self).labels@,
                labels_kept(l0, self.labels@),
                forall|q: Seq<char>| label_of(l0, q) is None && #[trigger] label_of(self.labels@, q) is Some
                    ==> exists|j: int| j < i && indexed_fresh(b0, *s, j)
                    && #[trigger] block_label(*s, chain_pos(*s, j), base + j, q, label_of(self.labels@, q)->0),
                se_0 == old(self).series@,
                forall|q: int| 0 <= q < self.series@.len() ==> se_0.contains(#[trigger] self.series@[q])
                    || exists|j: int| j < i && indexed_fresh(b0, *s, j)
                    && #[trigger] series_point_of(*s, chain_pos(*s, j), base + j, self.series@[q]),
                forall|j: int| j < i && indexed_fresh(b0, *s, j) ==> #[trigger] has_point(self.series@, *s, j),
            decreases s.main_chain@.len() - i,
        {
            let height = base + i as u64;
            let h = &s.main_chain[i];
            let hash_hex_s = hash_hex(h);
            let ghost cur = self.blocks@;
            let mut existing: Option<usize> = None;
            let mut q: usize = 0;
            while q < self.blocks.len()
                invariant_except_break
                    existing is None,
                    forall|w: int| 0 <= w < q ==> (#[trigger] self.blocks@[w]).height != height,
                invariant
                    self.blocks@ == cur,
                    q <= self.blocks@.len(),
                ensures
                    self.blocks@ == cur,
                    existing matches Some(e) ==> e < self.blocks@.len() && self.blocks@[e as int].height == height,
                    existing is None ==> forall|w: int| 0 <= w < self.blocks@.len() ==> (#[trigger] self.blocks@[w]).height != height,
                decreases self.blocks@.len() - q,
            {
                if self.blocks[q].height == height {
                    existing = Some(q);
                    break;
                }
                q = q + 1;
            }
            proof {
                assert(synced_at(b0, *s, i as int, height as int, record_at(cur, height as int)));
                match existing {
                    Some(e) => {
                        lemma_record_at(cur, e as int);
                    },
                    None => {
                        assert(record_at(cur, height as int) is None);
                    },
                }
            }
            let ghost tx_cur = self.txs@;
            let ghost ad_cur = addr_views(self.address_txs@);
            let ghost lab_cur = self.labels@;
            let ghost ser_cur = self.series@;
            let mut skip = false;
            match existing {
                Some(e) => {
                    if crate::addrman::str_eq(self.blocks[e].hash.as_str(), hash_hex_s.as_str()) {
                        skip = true;
                    } else {
                        self.trim_from_height(height);
                    }
                },
                None => {},
            }
            let ghost mid = self.blocks@;
            let ghost tx_mid = self.txs@;
            let ghost ad_mid = addr_views(self.address_txs@);
            let ghost ser_mid = self.series@;
            proof {
                assert forall|q: int| 0 <= q < tx_mid.len() implies tx_cur.contains(#[trigger] tx_mid[q]) by {
                    if existing is None || skip {
                        assert(tx_mid[q] == tx_cur[q]);
                    }
                }
                assert forall|q: int| 0 <= q < tx_cur.len() && (#[trigger] tx_cur[q]).height < height implies tx_mid.contains(tx_cur[q]) by {
                    if existing is None || skip {
                        assert(tx_mid[q] == tx_cur[q]);
                    }
                }
                assert forall|q: int| 0 <= q < ser_mid.len() implies ser_cur.contains(#[trigger] ser_mid[q]) by {
                    if existing is None || skip {
                        assert(ser_mid[q] == ser_cur[q]);
                    }
                }
                assert forall|q: int| 0 <= q < ser_cur.len() && (#[trigger] ser_cur[q]).height < height implies ser_mid.contains(ser_cur[q]) by {
                    if existing is None || skip {
                        assert(ser_mid[q] == ser_cur[q]);
                    }
                }
            }
            let ghost mut indexed: Option<usize> = None;
            if !skip {
                match index_of(&s.store, h) {
                    Some(bi) => {
                        proof {
                            s.store.lemma_idx_of_unique(h@, bi as int);
                            indexed = Some(bi);
                        }
                        self.index_block(s, bi, height, &hash_hex_s);
                    },
                    None => {},
                }
            }
            proof {
                let tx_new = self.txs@;
                let hi = height as int;
                if indexed is None {
                    assert(tx_new == tx_mid);
                }
                // transfer records: old, or of a freshly indexed block
                assert forall|q: int| 0 <= q < tx_new.len() implies x0.contains(#[trigger] tx_new[q])
                    || exists|j: int, k: int| j < i + 1 && indexed_fresh(b0, *s, j)
                    && #[trigger] tx_record_of(*s, chain_pos(*s, j), k, base + j, tx_new[q]) by {
                    let r = tx_new[q];
                    if tx_mid.contains(r) {
                        let w = choose|w: int| 0 <= w < tx_mid.len() && tx_mid[w] == r;
                        assert(tx_cur.contains(tx_mid[w]));
                        let w2 = choose|w2: int| 0 <= w2 < tx_cur.len() && tx_cur[w2] == r;
                        assert(x0.contains(tx_cur[w2]) || exists|j: int, k: int| j < i && indexed_fresh(b0, *s, j)
                            && #[trigger] tx_record_of(*s, chain_pos(*s, j), k, base + j, tx_cur[w2]));
                    } else {
                        let bi = indexed->0;
                        let k = choose|k: int| tx_record_of(*s, bi as int, k, hi, tx_new[q]);
                        assert(chain_pos(*s, i as int) == bi);
                        assert(indexed_fresh(b0, *s, i as int));
                        assert(tx_record_of(*s, chain_pos(*s, i as int), k, base + i, tx_new[q]));
                    }
                }
            }
            proof {
                let hi = height as int;
                let x = s.main_chain@[i as int]@;
                assert(hi == base + i);
                assert(hash_hex_s@ == hex_of(x));
                if skip {
                    let e = existing->0;
                    assert(record_at(cur, hi) == Some(cur[e as int]));
                    assert(cur[e as int].hash@ == hex_of(x));
                    if m < i {
                    } else {
                        assert(record_at(cur, hi) == record_at(b0, hi));
                        assert(kept_at(b0, *s, i as int));
                        assert(!clash_at(b0, *s, i as int));
                        assert(m != i as int);
                    }
                    assert(m > i);
                } else if existing is Some {
                    let e = existing->0;
                    assert(record_at(cur, hi) == Some(cur[e as int]));
                    assert(cur[e as int].hash@ != hex_of(x));
                    assert(m >= i);
                    assert(record_at(cur, hi) == record_at(b0, hi));
                    assert(clash_at(b0, *s, i as int));
                    assert(m == i);
                } else {
                    if m >= i {
                        assert(record_at(b0, hi) is None);
                        assert(!clash_at(b0, *s, i as int));
                        assert(!kept_at(b0, *s, i as int));
                    }
                }
                assert forall|hh: int| synced_at(b0, *s, i + 1, hh, #[trigger] record_at(self.blocks@, hh)) by {
                    assert(synced_at(b0, *s, i as int, hh, record_at(cur, hh)));
                    if hh != hi {
                        assert(record_at(self.blocks@, hh) == record_at(mid, hh));
                    }
                }
                assert(indexed_fresh(b0, *s, i as int) ==> indexed is Some);
                let ser_new = self.series@;
                if existing is None || skip {
                    assert(ser_mid == ser_cur);
                }
                if indexed is None {
                    assert(ser_new == ser_mid);
                }
                assert forall|q: int| 0 <= q < ser_new.len() implies se_0.contains(#[trigger] ser_new[q])
                    || exists|j: int| j < i + 1 && indexed_fresh(b0, *s, j)
                    && #[trigger] series_point_of(*s, chain_pos(*s, j), base + j, ser_new[q]) by {
                    if indexed is Some && q == ser_mid.len() {
                        assert(ser_new[q] == ser_new.last());
                        assert(series_point_of(*s, chain_pos(*s, i as int), base + i, ser_new[q]));
                    } else {
                        assert(q < ser_mid.len());
                        if indexed is Some {
                            assert(ser_new[q] == ser_new.drop_last()[q]);
                        }
                        assert(ser_new[q] == ser_mid[q]);
                        assert(ser_cur.contains(ser_mid[q]));
                        let w = choose|w: int| 0 <= w < ser_cur.len() && ser_cur[w] == ser_mid[q];
                        assert(se_0.contains(ser_cur[w]) || exists|j: int| j < i && indexed_fresh(b0, *s, j)
                            && #[trigger] series_point_of(*s, chain_pos(*s, j), base + j, ser_cur[w]));
                    }
                }
                assert forall|j: int| j < i + 1 && indexed_fresh(b0, *s, j) implies #[trigger] has_point(ser_new, *s, j) by {
                    if j == i {
                        assert(ser_new[ser_new.len() - 1] == ser_new.last());
                    } else {
                        assert(has_point(ser_cur, *s, j));
                        let w = choose|w: int| 0 <= w < ser_cur.len()
                            && series_point_of(*s, chain_pos(*s, j), base + j, #[trigger] ser_cur[w]);
                        assert(ser_cur[w].height < height);
                        assert(ser_mid.contains(ser_cur[w]));
                        let w2 = choose|w2: int| 0 <= w2 < ser_mid.len() && ser_mid[w2] == ser_cur[w];
                        if indexed is Some {
                            assert(ser_new.drop_last()[w2] == ser_mid[w2]);
                            assert(ser_new[w2] == ser_mid[w2]);
                        } else {
                            assert(ser_new[w2] == ser_mid[w2]);
                        }
                    }
                }
                let lab_new = self.labels@;
                if indexed is None {
                    assert(lab_new == lab_cur);
                } else {
                    assert(chain_pos(*s, i as int) == indexed->0);
                }
                assert forall|q: Seq<char>| #[trigger] label_of(l0, q) is Some implies label_of(lab_new, q) == label_of(l0, q) by {
                    assert(label_of(lab_cur, q) == label_of(l0, q));
                }
                assert forall|q: Seq<char>| label_of(l0, q) is None && #[trigger] label_of(lab_new, q) is Some
                    implies exists|j: int| j < i + 1 && indexed_fresh(b0, *s, j)
                    && #[trigger] block_label(*s, chain_pos(*s, j), base + j, q, label_of(lab_new, q)->0) by {
                    if label_of(lab_cur, q) is Some {
                        assert(label_of(lab_new, q) == label_of(lab_cur, q));
                        let j = choose|j: int| j < i && indexed_fresh(b0, *s, j)
                            && #[trigger] block_label(*s, chain_pos(*s, j), base + j, q, label_of(lab_cur, q)->0);
                        assert(j < i + 1 && indexed_fresh(b0, *s, j) && block_label(*s, chain_pos(*s, j), base + j, q, label_of(lab_new, q)->0));
                    } else {
                        assert(block_label(*s, chain_pos(*s, i as int), base + i, q, label_of(lab_new, q)->0));
                    }
                }
                let ad_new = addr_views(self.address_txs@);
                if indexed is None {
                    assert(ad_new == ad_mid);
                }
                if existing is None || skip {
                    assert(ad_mid == ad_cur);
                }
                assert forall|a: Seq<char>, id: Seq<char>| #[trigger] listed(ad_new, a, id)
                    implies listed(v0, a, id) || exists|j: int, k: int| j < i + 1 && indexed_fresh(b0, *s, j)
                    && #[trigger] touches(*s, chain_pos(*s, j), k, a, id) by {
                    if listed(ad_mid, a, id) {
                        assert(listed(ad_cur, a, id));
                        if !listed(v0, a, id) {
                            let (j, k) = choose|j: int, k: int| j < i && indexed_fresh(b0, *s, j)
                                && #[trigger] touches(*s, chain_pos(*s, j), k, a, id);
                            assert(j < i + 1 && indexed_fresh(b0, *s, j) && touches(*s, chain_pos(*s, j), k, a, id));
                        }
                    } else {
                        let bi = indexed->0;
                        let k = choose|k: int| touches(*s, bi as int, k, a, id);
                        assert(chain_pos(*s, i as int) == bi);
                        assert(touches(*s, chain_pos(*s, i as int), k, a, id));
                    }
                }
            }
            proof {
                let tx_new = self.txs@;
                let hi = height as int;
                if indexed is None {
                    assert(tx_new == tx_mid);
                }
                assert forall|j: int, k: int| j < i + 1 && indexed_fresh(b0, *s, j) && 0 <= k < s.blocks@[chain_pos(*s, j)].transparent_txs@.len()
                    implies id_below(tx_new, #[trigger] transfer_id(*s, chain_pos(*s, j), k), base + i + 1) by {
                    let id = transfer_id(*s, chain_pos(*s, j), k);
                    if j == i {
                        let bi = indexed->0;
                        assert(chain_pos(*s, i as int) == bi);
                        assert(id_at_height(tx_new, transfer_id(*s, bi as int, k), hi));
                    } else {
                        assert(id_below(tx_cur, id, base + i));
                        let w = choose|w: int| 0 <= w < tx_cur.len() && (#[trigger] tx_cur[w]).tx_hash@ == id && tx_cur[w].height < base + i;
                        assert(tx_mid.contains(tx_cur[w]));
                        let w2 = choose|w2: int| 0 <= w2 < tx_mid.len() && tx_mid[w2] == tx_cur[w];
                        match indexed {
                            None => {
                                assert(tx_new[w2] == tx_cur[w]);
                            },
                            Some(bi) => {
                                if exists|k2: int| 0 <= k2 < s.blocks@[bi as int].transparent_txs@.len() && #[trigger] transfer_id(*s, bi as int, k2) == id {
                                    let k2 = choose|k2: int| 0 <= k2 < s.blocks@[bi as int].transparent_txs@.len() && #[trigger] transfer_id(*s, bi as int, k2) == id;
                                    assert(id_at_height(tx_new, transfer_id(*s, bi as int, k2), hi));
                                } else {
                                    assert(tx_new.contains(tx_mid[w2]));
                                }
                            },
                        }
                    }
                }
            }
            i = i + 1;
        }
        let ghost chain_blocks = self.blocks;
        let ghost chain_txs = self.txs;
        let ghost chain_addr = self.address_txs;
        let ghost chain_series = self.series;
        proof {
            assert forall|q: Seq<char>| label_of(l0, q) is None && #[trigger] label_of(self.labels@, q) is Some
                implies tip_label(*s, q, label_of(self.labels@, q)->0) || exists|j: int| indexed_fresh(b0, *s, j)
                && #[trigger] block_label(*s, chain_pos(*s, j), base + j, q, label_of(self.labels@, q)->0) by {
                let j = choose|j: int| j < s.main_chain@.len() && indexed_fresh(b0, *s, j)
                    && #[trigger] block_label(*s, chain_pos(*s, j), base + j, q, label_of(self.labels@, q)->0);
                assert(indexed_fresh(b0, *s, j));
            }
        }
        let mut t: usize = 0;
        while t < s.tips.len()
            invariant
                base == s.pruned_selected_blocks,
                self.blocks == chain_blocks,
                self.txs == chain_txs,
                self.address_txs == chain_addr,
                self.series == chain_series,
                l0 == old(self).labels@,
                labels_kept(l0, self.labels@),
                forall|q: Seq<char>| label_of(l0, q) is None && #[trigger] label_of(self.labels@, q) is Some
                    ==> tip_label(*s, q, label_of(self.labels@, q)->0) || exists|j: int| indexed_fresh(b0, *s, j)
                    && #[trigger] block_label(*s, chain_pos(*s, j), base + j, q, label_of(self.labels@, q)->0),
            decreases s.tips@.len() - t,
        {
            let hx = hash_hex(&s.tips[t]);
            let mut known = false;
            let mut q: usize = 0;
            while q < self.by_hash.len()
                decreases self.by_hash@.len() - q,
            {
                if crate::addrman::str_eq(self.by_hash[q].0.as_str(), hx.as_str()) {
                    known = true;
                }
                q = q + 1;
            }
            if !known {
                let ghost la = self.labels@;
                put_label(&mut self.labels, hx.as_str(), "DAG tip (non-indexed body)");
                proof {
                    let lb = self.labels@;
                    assert forall|q: Seq<char>| #[trigger] label_of(l0, q) is Some implies label_of(lb, q) == label_of(l0, q) by {
                        assert(label_of(la, q) == label_of(l0, q));
                    }
                    assert forall|q: Seq<char>| label_of(l0, q) is None && #[trigger] label_of(lb, q) is Some
                        implies tip_label(*s, q, label_of(lb, q)->0) || exists|j: int| indexed_fresh(b0, *s, j)
                        && #[trigger] block_label(*s, chain_pos(*s, j), base + j, q, label_of(lb, q)->0) by {
                        if label_of(la, q) is Some {
                            assert(label_of(lb, q) == label_of(la, q));
                        } else {
                            assert(q == hx@);
                            assert(hx@ == hex_of(s.tips@[t as int]@));
                        }
                    }
                }
            }
            t = t + 1;
        }
        let ghost kept_blocks = self.blocks;
        let ghost lab_done = self.labels;
        while self.series.len() > MAX_SERIES_POINTS
            invariant
                self.blocks == kept_blocks,
                self.txs == chain_txs,
                self.address_txs == chain_addr,
                self.labels == lab_done,
                self.series@ == chain_series@ || self.series@.len() >= MAX_SERIES_POINTS,
                forall|q: int| 0 <= q < self.series@.len() ==> chain_series@.contains(#[trigger] self.series@[q]),
            decreases self.series@.len(),
        {
            let ghost before = self.series@;
            self.series.remove(0);
            proof {
                assert forall|q: int| 0 <= q < self.series@.len() implies chain_series@.contains(#[trigger] self.series@[q]) by {
                    assert(self.series@[q] == before[q + 1]);
                }
            }
        }
        proof {
            let fs = self.series@;
            let cs = chain_series@;
            assert forall|q: int| 0 <= q < fs.len() implies se_0.contains(#[trigger] fs[q])
                || exists|j: int| indexed_fresh(b0, *s, j)
                && #[trigger] series_point_of(*s, chain_pos(*s, j), s.pruned_selected_blocks + j, fs[q]) by {
                assert(cs.contains(fs[q]));
                let w = choose|w: int| 0 <= w < cs.len() && cs[w] == fs[q];
                assert(se_0.contains(cs[w]) || exists|j: int| j < s.main_chain@.len() && indexed_fresh(b0, *s, j)
                    && #[trigger] series_point_of(*s, chain_pos(*s, j), base + j, cs[w]));
            }
        }
        self.trim_tx_cap();
        proof {
            let ca = addr_views(chain_addr@);
            assert forall|a: Seq<char>, id: Seq<char>| #[trigger] listed(addr_views(self.address_txs@), a, id)
                implies listed(v0, a, id) || exists|j: int, k: int| indexed_fresh(b0, *s, j)
                && #[trigger] touches(*s, chain_pos(*s, j), k, a, id) by {
                assert(listed(ca, a, id));
                if !listed(v0, a, id) {
                    let (j, k) = choose|j: int, k: int| j < s.main_chain@.len() && indexed_fresh(b0, *s, j)
                        && #[trigger] touches(*s, chain_pos(*s, j), k, a, id);
                    assert(indexed_fresh(b0, *s, j) && touches(*s, chain_pos(*s, j), k, a, id));
                }
            }
        }
        proof {
            let fx = self.txs@;
            let cx = chain_txs@;
            let n = s.main_chain@.len() as int;
            assert forall|q: int| 0 <= q < fx.len() implies x0.contains(#[trigger] fx[q])
                || exists|j: int, k: int| indexed_fresh(b0, *s, j)
                && #[trigger] tx_record_of(*s, chain_pos(*s, j), k, s.pruned_selected_blocks + j, fx[q]) by {
                assert(cx.contains(fx[q]));
                let w = choose|w: int| 0 <= w < cx.len() && cx[w] == fx[q];
                assert(x0.contains(cx[w]) || exists|j: int, k: int| j < n && indexed_fresh(b0, *s, j)
                    && #[trigger] tx_record_of(*s, chain_pos(*s, j), k, base + j, cx[w]));
            }
            if fx.len() < MAX_TX_RECORDS {
                assert(fx == cx);
                assert forall|j: int, k: int| indexed_fresh(b0, *s, j) && 0 <= k < s.blocks@[chain_pos(*s, j)].transparent_txs@.len()
                    implies has_tx_record(fx, #[trigger] transfer_id(*s, chain_pos(*s, j), k)) by {
                    assert(id_below(cx, transfer_id(*s, chain_pos(*s, j), k), base + n));
                }
            }
        }
        self.tip_height = s.tip_height();
        self.tip_hash = if s.main_chain.len() > 0 {
            let n = s.main_chain.len();
            Some(hash_hex(&s.main_chain[n - 1]))
        } else {
            None
        };
        self.indexed_at_ms = now;
        self.format = INDEXER_FORMAT;
    }

    /// Index the stored block at position `bi` as the selected-chain block
    /// at `height`.
    fn index_block(&mut self, s: &ChainState, bi: usize, height: u64, hash_hex_s: &String)
        requires
            old(self).wf(),
            s.wf(),
            block_fees_fit(*s),
            bi < s.store.len(),
            hash_hex_s@ == hex_of(s.store.hash_of(bi as int)),
        ensures
            final(self).wf(),
            record_at(final(self).blocks@, height as int) matches Some(r) && block_record_of(*s, bi as int, height as int, r),
            forall|hh: int| hh != height ==> #[trigger] record_at(final(self).blocks@, hh) == record_at(old(self).blocks@, hh),
            forall|q: int| 0 <= q < final(self).txs@.len() ==> old(self).txs@.contains(#[trigger] final(self).txs@[q])
                || exists|k: int| tx_record_of(*s, bi as int, k, height as int, #[trigger] final(self).txs@[q]),
            forall|k: int| 0 <= k < s.blocks@[bi as int].transparent_txs@.len()
                ==> #[trigger] id_at_height(final(self).txs@, transfer_id(*s, bi as int, k), height as int),
            forall|q: int| 0 <= q < old(self).txs@.len() && (forall|k: int| 0 <= k < s.blocks@[bi as int].transparent_txs@.len()
                ==> old(self).txs@[q].tx_hash@ != #[trigger] transfer_id(*s, bi as int, k)) ==> final(self).txs@.contains(old(self).txs@[q]),
            forall|a: Seq<char>, id: Seq<char>| #[trigger] listed(addr_views(final(self).address_txs@), a, id)
                ==> listed(addr_views(old(self).address_txs@), a, id) || exists|k: int| touches(*s, bi as int, k, a, id),
            labels_kept(old(self).labels@, final(self).labels@),
            forall|q: Seq<char>| label_of(old(self).labels@, q) is None && #[trigger] label_of(final(self).labels@, q) is Some
                ==> block_label(*s, bi as int, height as int, q, label_of(final(self).labels@, q)->0),
            final(self).series@.len() == old(self).series@.len() + 1,
            final(self).series@.drop_last() == old(self).series@,
            series_point_of(*s, bi as int, height as int, final(self).series@.last()),
    {
        let ghost se0 = self.series@;
        let ghost t0 = self.txs@;
        let ghost a0 = addr_views(self.address_txs@);
        let ghost l0 = self.labels@;
        let b = &s.blocks[bi];
        let node = &s.store.nodes[bi];
        let fees = total_fee(&b.transparent_txs);
        let miner = concat("hsn:", hash_hex(&b.miner).as_str());
        let sp = match node.selected_parent {
            Some(j) => Some(hash_hex(&s.store.nodes[j].hash)),
            None => None,
        };
        let n_txs = b.transparent_txs.len();
        let rec = BlockRecord {
            height,
            hash: String::from_str(hash_hex_s.as_str()),
            blue_score: node.blue_score,
            timestamp: b.timestamp,
            difficulty: b.difficulty,
            miner: String::from_str(miner.as_str()),
            transfers: #[verifier::truncate] (n_txs as u32),
            registry_ops: 0,
            custody_ops: 0,
            utxo_txs: 0,
            fees: u128_to_decimal(fees),
            selected_parent: sp,
            is_chain_block: true,
        };
        self.set_by_hash(hash_hex_s.as_str(), height);
        self.upsert_block(rec);
        let ghost after = self.blocks;
        let label = concat("Miner @ height ", u64_to_decimal(height).as_str());
        put_label(&mut self.labels, miner.as_str(), label.as_str());
        proof {
            assert forall|q: Seq<char>| label_of(l0, q) is None && #[trigger] label_of(self.labels@, q) is Some
                implies block_label(*s, bi as int, height as int, q, label_of(self.labels@, q)->0) by {
                assert(q == miner@);
            }
        }
        let mut k: usize = 0;
        proof {
            assert forall|q: int| 0 <= q < self.txs@.len() implies t0.contains(#[trigger] self.txs@[q]) by {
                assert(self.txs@ == t0);
            }
        }
        while k < b.transparent_txs.len()
            invariant
                self.blocks == after,
                s.wf(),
                bi < s.store.len(),
                b == s.blocks@[bi as int],
                k <= b.transparent_txs@.len(),
                hash_hex_s@ == hex_of(s.store.hash_of(bi as int)),
                forall|q: int| 0 <= q < self.txs@.len() ==> t0.contains(#[trigger] self.txs@[q])
                    || exists|k2: int| tx_record_of(*s, bi as int, k2, height as int, #[trigger] self.txs@[q]),
                forall|k2: int| 0 <= k2 < k ==> #[trigger] id_at_height(self.txs@, transfer_id(*s, bi as int, k2), height as int),
                forall|q: int| 0 <= q < t0.len() && (forall|k2: int| 0 <= k2 < k ==> t0[q].tx_hash@ != #[trigger] transfer_id(*s, bi as int, k2))
                    ==> self.txs@.contains(t0[q]),
                forall|a: Seq<char>, id: Seq<char>| #[trigger] listed(addr_views(self.address_txs@), a, id)
                    ==> listed(a0, a, id) || exists|k2: int| 0 <= k2 < k && touches(*s, bi as int, k2, a, id),
                labels_kept(l0, self.labels@),
                forall|q: Seq<char>| label_of(l0, q) is None && #[trigger] label_of(self.labels@, q) is Some
                    ==> block_label(*s, bi as int, height as int, q, label_of(self.labels@, q)->0),
                self.series@ == se0,
            decreases b.transparent_txs@.len() - k,
        {
            let tx = &b.transparent_txs[k];
            let txid = hash_hex(&tx.tx_hash());
            let tr = TxRecord {
                tx_hash: String::from_str(txid.as_str()),
                height,
                block_hash: String::from_str(hash_hex_s.as_str()),
                from: String::from_str(tx.from.as_str()),
                to: String::from_str(tx.to.as_str()),
                amount: u128_to_decimal(tx.amount),
                fee: u128_to_decimal(tx.fee),
                nonce: tx.nonce,
                timestamp: b.timestamp,
            };
            let ghost va = addr_views(self.address_txs@);
            self.push_addr_tx(tx.from.as_str(), txid.as_str());
            let ghost vb = addr_views(self.address_txs@);
            self.push_addr_tx(tx.to.as_str(), txid.as_str());
            proof {
                let vc = addr_views(self.address_txs@);
                assert(touches(*s, bi as int, k as int, tx.from@, txid@));
                assert(touches(*s, bi as int, k as int, tx.to@, txid@));
                assert forall|a: Seq<char>, id: Seq<char>| #[trigger] listed(vc, a, id)
                    implies listed(a0, a, id) || exists|k2: int| 0 <= k2 < k + 1 && touches(*s, bi as int, k2, a, id) by {
                    if listed(vb, a, id) {
                        if listed(va, a, id) {
                            if !listed(a0, a, id) {
                                let k2 = choose|k2: int| 0 <= k2 < k && touches(*s, bi as int, k2, a, id);
                                assert(0 <= k2 < k + 1 && touches(*s, bi as int, k2, a, id));
                            }
                        }
                    }
                }
            }
            let ghost la = self.labels@;
            put_label(&mut self.labels, tx.from.as_str(), "Active account");
            let ghost lb = self.labels@;
            put_label(&mut self.labels, tx.to.as_str(), "Active account");
            proof {
                let lc = self.labels@;
                assert(b.transparent_txs@[k as int] == *tx);
                assert forall|q: Seq<char>| #[trigger] label_of(l0, q) is Some implies label_of(lc, q) == label_of(l0, q) by {
                    assert(label_of(la, q) == label_of(l0, q));
                }
                assert forall|q: Seq<char>| label_of(l0, q) is None && #[trigger] label_of(lc, q) is Some
                    implies block_label(*s, bi as int, height as int, q, label_of(lc, q)->0) by {
                    if label_of(la, q) is Some {
                        assert(block_label(*s, bi as int, height as int, q, label_of(la, q)->0));
                        assert(label_of(lb, q) == label_of(la, q));
                    } else if label_of(lb, q) is Some {
                        assert(q == tx.from@);
                        assert(label_of(lb, q) == Some("Active account"@));
                        assert(label_of(lc, q) == label_of(lb, q));
                    } else {
                        assert(q == tx.to@);
                    }
                }
            }
            let ghost pre = self.txs@;
            let ghost trv = tr;
            proof {
                assert(tx_record_of(*s, bi as int, k as int, height as int, trv));
            }
            self.upsert_tx(tr);
            proof {
                let cur = self.txs@;
                assert forall|q: int| 0 <= q < cur.len() implies t0.contains(#[trigger] cur[q])
                    || exists|k2: int| tx_record_of(*s, bi as int, k2, height as int, #[trigger] cur[q]) by {
                    if cur[q] == trv {
                    } else if q < pre.len() {
                        assert(cur[q] == pre[q]);
                    }
                }
                let pos = if has_tx_record(pre, trv.tx_hash@) {
                    choose|w: int| 0 <= w < pre.len() && (#[trigger] pre[w]).tx_hash@ == trv.tx_hash@ && cur == pre.update(w, trv)
                } else {
                    pre.len() as int
                };
                assert(cur[pos] == trv);
                assert forall|k2: int| 0 <= k2 < k + 1 implies #[trigger] id_at_height(cur, transfer_id(*s, bi as int, k2), height as int) by {
                    if transfer_id(*s, bi as int, k2) == trv.tx_hash@ {
                        assert(cur[pos].tx_hash@ == transfer_id(*s, bi as int, k2));
                    } else {
                        assert(id_at_height(pre, transfer_id(*s, bi as int, k2), height as int));
                        let q = choose|q: int| 0 <= q < pre.len()
                            && (#[trigger] pre[q]).tx_hash@ == transfer_id(*s, bi as int, k2) && pre[q].height == height;
                        assert(cur[q] == pre[q]);
                    }
                }
                assert forall|q: int| 0 <= q < t0.len() && (forall|k2: int| 0 <= k2 < k + 1 ==> t0[q].tx_hash@ != #[trigger] transfer_id(*s, bi as int, k2))
                    implies cur.contains(t0[q]) by {
                    assert(t0[q].tx_hash@ != transfer_id(*s, bi as int, k as int));
                    assert(pre.contains(t0[q]));
                    let w = choose|w: int| 0 <= w < pre.len() && pre[w] == t0[q];
                    if w != pos || !has_tx_record(pre, trv.tx_hash@) {
                        assert(cur[w] == pre[w]);
                    }
                }
            }
            k = k + 1;
        }
        proof {
            assert(k == b.transparent_txs@.len());
            assert forall|k2: int| 0 <= k2 < s.blocks@[bi as int].transparent_txs@.len()
                implies #[trigger] id_at_height(self.txs@, transfer_id(*s, bi as int, k2), height as int) by {
                assert(0 <= k2 < k);
            }
        }
        self.series.push(SeriesPoint {
            height,
            blue_score: node.blue_score,
            timestamp: b.timestamp,
            difficulty: b.difficulty,
            transfers: #[verifier::truncate] (n_txs as u32),
            fees: u128_to_decimal(fees),
            minted_supply: u128_to_decimal(s.minted_supply),
            mempool: #[verifier::truncate] (s.transparent_mempool.len() as u32),
            dag_blocks: #[verifier::truncate] (s.store.nodes.len() as u32),
        });
        proof {
            assert(self.series@.drop_last() =~= se0);
        }
    }

    /// Bring the index up to date with `s` now (see `sync_from_state_at`).
    pub fn sync_from_state(&mut self, s: &ChainState)
        requires
            old(self).wf(),
            s.wf(),
            block_fees_fit(*s),
            s.pruned_selected_blocks + s.main_chain@.len() <= u64::MAX,
        ensures
            final(self).format == INDEXER_FORMAT,
            final(self).tip_height == ({
                let t = s.pruned_selected_blocks + s.main_chain@.len();
                if t >= 1 { t - 1 } else { 0 }
            }),
            match final(self).tip_hash {
                Some(h) => s.main_chain@.len() > 0 && h@ == hex_of(s.main_chain@.last()@),
                None => s.main_chain@.len() == 0,
            },
            final(self).wf(),
            forall|h: int| synced_at(old(self).blocks@, *s, s.main_chain@.len() as int, h, #[trigger] record_at(final(self).blocks@, h)),
            forall|q: int| 0 <= q < final(self).txs@.len() ==> old(self).txs@.contains(#[trigger] final(self).txs@[q])
                || exists|j: int, k: int| indexed_fresh(old(self).blocks@, *s, j)
                && #[trigger] tx_record_of(*s, chain_pos(*s, j), k, s.pruned_selected_blocks + j, final(self).txs@[q]),
            final(self).txs@.len() < MAX_TX_RECORDS ==> forall|j: int, k: int| indexed_fresh(old(self).blocks@, *s, j)
                && 0 <= k < s.blocks@[chain_pos(*s, j)].transparent_txs@.len()
                ==> has_tx_record(final(self).txs@, #[trigger] transfer_id(*s, chain_pos(*s, j), k)),
            forall|a: Seq<char>, id: Seq<char>| #[trigger] listed(addr_views(final(self).address_txs@), a, id)
                ==> listed(addr_views(old(self).address_txs@), a, id) || exists|j: int, k: int| indexed_fresh(old(self).blocks@, *s, j)
                && #[trigger] touches(*s, chain_pos(*s, j), k, a, id),
            labels_kept(old(self).labels@, final(self).labels@),
            forall|q: Seq<char>| label_of(old(self).labels@, q) is None && #[trigger] label_of(final(self).labels@, q) is Some
                ==> tip_label(*s, q, label_of(final(self).labels@, q)->0) || exists|j: int| indexed_fresh(old(self).blocks@, *s, j)
                && #[trigger] block_label(*s, chain_pos(*s, j), s.pruned_selected_blocks + j, q, label_of(final(self).labels@, q)->0),
            forall|q: int| 0 <= q < final(self).series@.len() ==> old(self).series@.contains(#[trigger] final(self).series@[q])
                || exists|j: int| indexed_fresh(old(self).blocks@, *s, j)
                && #[trigger] series_point_of(*s, chain_pos(*s, j), s.pruned_selected_blocks + j, final(self).series@[q]),
            final(self).series@.len() < MAX_SERIES_POINTS ==> forall|j: int| indexed_fresh(old(self).blocks@, *s, j)
                ==> #[trigger] has_point(final(self).series@, *s, j),
            final(self).series@.len() <= MAX_SERIES_POINTS,
            final(self).txs@.len() <= MAX_TX_RECORDS || final(self).txs@.len() <= old(self).txs@.len(),
    {
        let now = crate::crypto::now_ms();
        self.sync_from_state_at(s, now);
    }
}

/// The explorer label of an issuer key: `hsn:` and the hex of its address
/// digest.
pub fn issuer_label(pubkey: &[u8]) -> (r: String)
    ensures
        r@ == hsn_address(crate::hash::spec_address_hash(pubkey@)),
{
    let h = crate::hash::address_hash(pubkey);
    concat("hsn:", hash_hex(&h).as_str())
}

/// One search result.
#[derive(Clone, Debug)]
pub enum SearchHit {
    Block { id: String, height: u64, label: Option<String> },
    Address { id: String, tx_count: usize, label: Option<String> },
    Tx { id: String, height: u64, block: String, label: Option<String> },
    /// A transfer found by id prefix (reported without a label).
    TxPrefix { id: String, height: u64, block: String },
    Outpoint { id: String, txid: String, vout: String, label: Option<String> },
    Label { id: String, label: String },
}

/// A query (trimmed) and its results.
#[derive(Clone, Debug)]
pub struct SearchResult {
    pub query: String,
    pub results: Vec<SearchHit>,
}

/// Results stop being added by a label search at this many.
pub const MAX_LABEL_RESULTS: usize = 32;
/// Prefix scans report at most this many blocks and as many transfers.
pub const MAX_PREFIX_HITS: usize = 8;

/// Whether every character is an ASCII hex digit.
fn all_hex(s: &str) -> (r: bool)
    ensures
        r == forall|i: int| 0 <= i < s@.len() ==> is_hex_char(#[trigger] s@[i]),
{
    let n = s.unicode_len();
    let mut k: usize = 0;
    while k < n
        invariant
            k <= n == s@.len(),
            forall|i: int| 0 <= i < k ==> is_hex_char(#[trigger] s@[i]),
        decreases n - k,
    {
        let c = s.get_char(k);
        if !(('0' <= c && c <= '9') || ('a' <= c && c <= 'f') || ('A' <= c && c <= 'F')) {
            return false;
        }
        k = k + 1;
    }
    true
}

/// An ASCII hex digit.
pub open spec fn is_hex_char(c: char) -> bool {
    ('0' <= c <= '9') || ('a' <= c <= 'f') || ('A' <= c <= 'F')
}

/// ASCII lowercase of a hex digit.
pub open spec fn hex_lower_char(c: char) -> char {
    if 'A' <= c <= 'F' { ((c as u32 + 32) as u8) as char } else { c }
}

/// ASCII lowercase of a hex digit string.
pub open spec fn hex_lower_spec(s: Seq<char>) -> Seq<char> {
    s.map_values(|c: char| hex_lower_char(c))
}

/// The query with one leading `0x` removed.
pub open spec fn strip_0x(t: Seq<char>) -> Seq<char> {
    if has_prefix(t, "0x"@) { t.subrange(2, t.len() as int) } else { t }
}

/// The lowercased hex digits of a hash or id query (an optional `0x`, then
/// at least eight hex digits), if the query has that shape.
pub open spec fn hex_query(t: Seq<char>) -> Option<Seq<char>> {
    let s = strip_0x(t);
    if s.len() >= 8 && forall|i: int| 0 <= i < s.len() ==> is_hex_char(#[trigger] s[i]) {
        Some(hex_lower_spec(s))
    } else {
        None
    }
}

/// Some indexed block hash equals `h`, at height `height`.
pub open spec fn block_hash_at(by_hash: Seq<(String, u64)>, h: Seq<char>, height: u64) -> bool {
    exists|i: int| 0 <= i < by_hash.len() && (#[trigger] by_hash[i]).0@ == h && by_hash[i].1 == height
}

/// Some indexed block hash equals `h`.
pub open spec fn has_block_hash(by_hash: Seq<(String, u64)>, h: Seq<char>) -> bool {
    exists|i: int| 0 <= i < by_hash.len() && (#[trigger] by_hash[i]).0@ == h
}

/// `t` is `txid:vout` split at its first colon, with a 128-digit hex `txid`
/// and a `vout` that reads as a `u32`.
pub open spec fn outpoint_query(t: Seq<char>) -> bool {
    &&& t.len() > 128
    &&& t[128] == ':'
    &&& forall|i: int| 0 <= i < 128 ==> #[trigger] t[i] != ':' && is_hex_char(t[i])
    &&& parse_unsigned(t.subrange(129, t.len() as int), 0xffff_ffff) is Some
}

/// `s` with every leading copy of `p` removed.
pub open spec fn strip_all(s: Seq<char>, p: Seq<char>) -> Seq<char>
    decreases s.len(),
{
    if p.len() > 0 && has_prefix(s, p) {
        strip_all(s.subrange(p.len() as int, s.len() as int), p)
    } else {
        s
    }
}

/// A lowercased query that asks for a label search.
pub open spec fn label_query(lq: Seq<char>) -> bool {
    has_prefix(lq, "op:"@) || has_prefix(lq, "label:"@)
}

/// What a label search looks for: the lowercased query without its
/// `op:` and `label:` prefixes, trimmed.
pub open spec fn label_needle(lq: Seq<char>) -> Seq<char> {
    trimmed(strip_all(strip_all(lq, "op:"@), "label:"@))
}

/// The label entry (key, label) contains the needle, case-insensitively.
pub open spec fn label_matches(key: Seq<char>, label: Seq<char>, needle: Seq<char>) -> bool {
    has_infix(lowercase(label), needle) || has_infix(lowercase(key), needle)
}

/// Some label entry is (`id`, `label`) and matches the needle.
pub open spec fn label_hit(labels: Seq<(String, String)>, id: Seq<char>, label: Seq<char>, needle: Seq<char>) -> bool {
    exists|e: int| 0 <= e < labels.len() && (#[trigger] labels[e]).0@ == id && labels[e].1@ == label
        && label_matches(id, label, needle)
}

/// No result is a label hit.
pub open spec fn no_labels(res: Seq<SearchHit>) -> bool {
    forall|x: int| 0 <= x < res.len() ==> !(#[trigger] res[x] is Label)
}

/// Some result reports the label entry (`id`, `label`).
pub open spec fn reports_label(res: Seq<SearchHit>, id: Seq<char>, label: Seq<char>) -> bool {
    exists|x: int| 0 <= x < res.len() && (#[trigger] res[x] matches SearchHit::Label { id: i, label: l } && i@ == id && l@ == label)
}

/// A search hit names what the index holds: a block hit an indexed block
/// (by its record or its hash entry) at that height, a transfer hit an
/// indexed transfer with that height and block.
pub open spec fn hit_sound(db: IndexerDb, h: SearchHit) -> bool {
    match h {
        SearchHit::Block { id, height, .. } => block_hash_at(db.by_hash@, id@, height)
            || exists|k: int| 0 <= k < db.blocks@.len() && (#[trigger] db.blocks@[k]).hash@ == id@ && db.blocks@[k].height == height,
        SearchHit::Tx { id, height, block, .. } => exists|k: int| 0 <= k < db.txs@.len() && (#[trigger] db.txs@[k]).tx_hash@ == id@
            && db.txs@[k].height == height && db.txs@[k].block_hash@ == block@,
        SearchHit::TxPrefix { id, height, block } => exists|k: int| 0 <= k < db.txs@.len() && (#[trigger] db.txs@[k]).tx_hash@ == id@
            && db.txs@[k].height == height && db.txs@[k].block_hash@ == block@,
        _ => true,
    }
}

/// Every hit names what the index holds.
pub open spec fn hits_sound(db: IndexerDb, res: Seq<SearchHit>) -> bool {
    forall|x: int| 0 <= x < res.len() ==> hit_sound(db, #[trigger] res[x])
}

proof fn lemma_push_sound(db: IndexerDb, before: Seq<SearchHit>, after: Seq<SearchHit>)
    requires
        hits_sound(db, before),
        after.len() == before.len() + 1,
        forall|x: int| 0 <= x < before.len() ==> #[trigger] after[x] == before[x],
        hit_sound(db, after[before.len() as int]),
    ensures
        hits_sound(db, after),
{
    assert forall|x: int| 0 <= x < after.len() implies hit_sound(db, #[trigger] after[x]) by {
        if x < before.len() {
            assert(after[x] == before[x]);
        }
    }
}

/// Some indexed transfer has id `h`, at height `height`.
pub open spec fn tx_at(txs: Seq<TxRecord>, h: Seq<char>, height: u64) -> bool {
    exists|k: int| 0 <= k < txs.len() && (#[trigger] txs[k]).tx_hash@ == h && txs[k].height == height
}

/// ASCII lowercase of a hex digit string.
fn hex_lower(s: &str) -> (r: String)
    requires
        forall|i: int| 0 <= i < s@.len() ==> is_hex_char(#[trigger] s@[i]),
    ensures
        r@ == hex_lower_spec(s@),
{
    let n = s.unicode_len();
    let mut out: Vec<u8> = Vec::new();
    let mut k: usize = 0;
    while k < n
        invariant
            k <= n == s@.len(),
            out@.len() == k,
            forall|i: int| 0 <= i < s@.len() ==> is_hex_char(#[trigger] s@[i]),
            crate::bytes::all_ascii(out@),
            forall|i: int| 0 <= i < k ==> (#[trigger] out@[i]) as char == hex_lower_char(s@[i]),
        decreases n - k,
    {
        let c = s.get_char(k);
        let b: u8 = if 'A' <= c && c <= 'F' { (c as u32 + 32) as u8 } else { c as u32 as u8 };
        proof {
            assert(is_hex_char(s@[k as int]));
        }
        out.push(b);
        k = k + 1;
    }
    proof {
        assert(ascii_chars(out@) =~= hex_lower_spec(s@));
    }
    string_from_ascii(out)
}

impl IndexerDb {
    fn label_for(&self, k: &str) -> (r: Option<String>)
        ensures
            match r {
                Some(v) => label_of(self.labels@, k@) == Some(v@),
                None => label_of(self.labels@, k@) is None,
            },
    {
        match find_label(&self.labels, k) {
            Some(i) => Some(String::from_str(self.labels[i].1.as_str())),
            None => None,
        }
    }

    /// Search the index: a block height; an address (its transfer count);
    /// a block hash or transfer id, whole or by prefix of at least eight hex
    /// digits (an optional `0x` first); an outpoint `txid:vout`; and with an
    /// `op:` or `label:` prefix, a case-insensitive search of the labels.
    #[verifier::spinoff_prover]
    #[verifier::rlimit(60)]
    pub fn search(&self, q: &str) -> (r: SearchResult)
        ensures
            r.query@ == trimmed(q@),
            trimmed(q@).len() == 0 ==> r.results@.len() == 0,
            parse_unsigned(trimmed(q@), u64::MAX as nat) is Some
                && (exists|k: int| 0 <= k < self.blocks@.len() && (#[trigger] self.blocks@[k]).height == parse_unsigned(trimmed(q@), u64::MAX as nat)->0)
                ==> (r.results@.len() > 0 && (r.results@[0] matches SearchHit::Block { height, .. } && height == parse_unsigned(trimmed(q@), u64::MAX as nat)->0)),
            address_like(trimmed(q@)) ==> exists|k: int| 0 <= k < r.results@.len() && (#[trigger] r.results@[k] matches SearchHit::Address { id, tx_count, .. }
                && id@ == trimmed(q@) && tx_count == addr_count(self.address_txs@, trimmed(q@))),
            hex_query(trimmed(q@)) is Some && has_block_hash(self.by_hash@, hex_query(trimmed(q@))->0) ==> exists|k: int| 0 <= k < r.results@.len()
                && (#[trigger] r.results@[k] matches SearchHit::Block { id, height, .. } && id@ == hex_query(trimmed(q@))->0 && block_hash_at(self.by_hash@, hex_query(trimmed(q@))->0, height)),
            hex_query(trimmed(q@)) is Some && !has_block_hash(self.by_hash@, hex_query(trimmed(q@))->0) && has_tx_record(self.txs@, hex_query(trimmed(q@))->0) ==> exists|k: int|
                0 <= k < r.results@.len() && (#[trigger] r.results@[k] matches SearchHit::Tx { id, height, .. } && id@ == hex_query(trimmed(q@))->0 && tx_at(self.txs@, hex_query(trimmed(q@))->0, height)),
            outpoint_query(trimmed(q@)) ==> exists|k: int| 0 <= k < r.results@.len()
                && (#[trigger] r.results@[k] matches SearchHit::Outpoint { id, .. } && id@ == trimmed(q@)),
            forall|k: int| 0 <= k < r.results@.len() ==> (#[trigger] r.results@[k] matches SearchHit::Label { id, label }
                ==> label_query(lowercase(trimmed(q@))) && label_hit(self.labels@, id@, label@, label_needle(lowercase(trimmed(q@))))),
            hits_sound(*self, r.results@),
            trimmed(q@).len() > 0 && label_query(lowercase(trimmed(q@))) && r.results@.len() < MAX_LABEL_RESULTS ==> forall|e: int| 0 <= e < self.labels@.len()
                && label_matches((#[trigger] self.labels@[e]).0@, self.labels@[e].1@, label_needle(lowercase(trimmed(q@))))
                ==> reports_label(r.results@, self.labels@[e].0@, self.labels@[e].1@),
    {
        let query = trim_text(q);
        let mut results: Vec<SearchHit> = Vec::new();
        if query.unicode_len() == 0 {
            proof {
                assert(encode_utf8(query@) =~= Seq::<u8>::empty()) by {
                    vstd::utf8::is_ascii_chars_encode_utf8(query@);
                }
                crate::address::lemma_valid_address_nonempty(encode_utf8(query@));
                reveal_strlit("hsn:");
                reveal_strlit("hsn1");
                reveal_strlit("0x");
                assert(strip_0x(query@).len() == 0);
                assert(hex_query(query@) is None);
            }
            return SearchResult { query, results };
        }
        let t = query.as_str();
        match parse_unsigned_text(t, u64::MAX) {
            Some(h) => {
                let mut k: usize = 0;
                while k < self.blocks.len()
                    invariant_except_break
                        results@.len() == 0,
                        forall|j: int| 0 <= j < k ==> (#[trigger] self.blocks@[j]).height != h,
                    ensures
                        hits_sound(*self, results@),
                        (results@.len() == 0 && forall|j: int| 0 <= j < self.blocks@.len() ==> (#[trigger] self.blocks@[j]).height != h)
                            || (results@.len() == 1 && (results@[0] matches SearchHit::Block { height, .. } && height == h)),
                    decreases self.blocks@.len() - k,
                {
                    if self.blocks[k].height == h {
                        let b = &self.blocks[k];
                        let ghost before_push = results@;
                        results.push(SearchHit::Block { id: String::from_str(b.hash.as_str()), height: b.height, label: self.label_for(b.hash.as_str()) });
                        proof {
                            assert(forall|x: int| 0 <= x < before_push.len() ==> #[trigger] results@[x] == before_push[x]);
                            lemma_push_sound(*self, before_push, results@);
                        }
                        break;
                    }
                    k = k + 1;
                }
            },
            None => {},
        }
        if crate::address::is_valid_hassan_address(t) || starts_with(t, "hsn:") || starts_with(t, "hsn1") {
            let mut pos: Option<usize> = None;
            let mut a: usize = 0;
            while a < self.address_txs.len() && pos.is_none()
                invariant
                    a <= self.address_txs@.len(),
                    pos matches Some(p) ==> p < a && self.address_txs@[p as int].0@ == t@,
                    forall|j: int| 0 <= j < a && (pos matches Some(p) ==> j < p) ==> (#[trigger] self.address_txs@[j]).0@ != t@,
                decreases self.address_txs@.len() - a,
            {
                if crate::addrman::str_eq(self.address_txs[a].0.as_str(), t) {
                    pos = Some(a);
                }
                a = a + 1;
            }
            let count: usize = match pos {
                Some(p) => {
                    proof {
                        assert forall|j: int| 0 <= j < p implies addr_keys(self.address_txs@)[j] != t@ by {
                            assert(addr_keys(self.address_txs@)[j] == self.address_txs@[j].0@);
                        }
                        lemma_first_key(addr_keys(self.address_txs@), t@, p as int);
                    }
                    self.address_txs[p].1.len()
                },
                None => {
                    proof {
                        assert forall|j: int| 0 <= j < self.address_txs@.len() implies addr_keys(self.address_txs@)[j] != t@ by {
                            assert(addr_keys(self.address_txs@)[j] == self.address_txs@[j].0@);
                        }
                        lemma_first_key(addr_keys(self.address_txs@), t@, self.address_txs@.len() as int);
                    }
                    0
                },
            };
            let ghost before_push = results@;
            results.push(SearchHit::Address { id: String::from_str(t), tx_count: count, label: self.label_for(t) });
            proof {
                assert(forall|x: int| 0 <= x < before_push.len() ==> #[trigger] results@[x] == before_push[x]);
                lemma_push_sound(*self, before_push, results@);
            }
            proof {
                assert(results@[results@.len() - 1] matches SearchHit::Address { id, tx_count, .. } && id@ == t@ && tx_count == addr_count(self.address_txs@, t@));
            }
        }
        proof {
            assert(no_labels(results@));
        }
        let ghost first = results@;
        assert(address_like(t@) ==> first.len() >= 1 && (first[first.len() - 1] matches SearchHit::Address { id, tx_count, .. }
            && id@ == t@ && tx_count == addr_count(self.address_txs@, t@)));
        proof {
            reveal_strlit("0x");
        }
        let ghost mut hit_k: int = -1;
        let stripped = if starts_with(t, "0x") { t.substring_char(2, t.unicode_len()) } else { t };
        proof {
            assert(stripped@ == strip_0x(t@));
        }
        if all_hex(stripped) && stripped.unicode_len() >= 8 {
            let qhex = hex_lower(stripped);
            let qh = qhex.as_str();
            proof {
                assert(hex_query(t@) == Some(qh@));
            }
            let mut found_block: Option<u64> = None;
            let mut i: usize = 0;
            assert(results@ == first);
            while i < self.by_hash.len()
                invariant_except_break
                    i <= self.by_hash@.len(),
                    found_block is None,
                    forall|j: int| 0 <= j < i ==> (#[trigger] self.by_hash@[j]).0@ != qh@,
                ensures
                    found_block matches Some(h) ==> block_hash_at(self.by_hash@, qh@, h),
                    found_block is None ==> !has_block_hash(self.by_hash@, qh@),
                decreases self.by_hash@.len() - i,
            {
                if crate::addrman::str_eq(self.by_hash[i].0.as_str(), qh) {
                    found_block = Some(self.by_hash[i].1);
                    break;
                }
                i = i + 1;
            }
            match found_block {
                Some(h) => {
                    let ghost before_push = results@;
                    results.push(SearchHit::Block { id: String::from_str(qh), height: h, label: self.label_for(qh) });
                    proof {
                        assert(forall|x: int| 0 <= x < before_push.len() ==> #[trigger] results@[x] == before_push[x]);
                        lemma_push_sound(*self, before_push, results@);
                    }
                    proof {
                        hit_k = results@.len() - 1;
                        assert(results@[hit_k] matches SearchHit::Block { id, height, .. } && id@ == qh@
                            && block_hash_at(self.by_hash@, qh@, height));
                        assert forall|x: int| 0 <= x < first.len() implies #[trigger] results@[x] == first[x] by {}
                    }
                },
                None => match find_tx_record(&self.txs, qh) {
                    Some(k) => {
                        let tx = &self.txs[k];
                        let ghost before_push = results@;
                        results.push(SearchHit::Tx {
                            id: String::from_str(qh),
                            height: tx.height,
                            block: String::from_str(tx.block_hash.as_str()),
                            label: self.label_for(qh),
                        });
                        proof {
                            assert(forall|x: int| 0 <= x < before_push.len() ==> #[trigger] results@[x] == before_push[x]);
                            lemma_push_sound(*self, before_push, results@);
                        }
                        proof {
                            hit_k = results@.len() - 1;
                            assert(tx_at(self.txs@, qh@, self.txs@[k as int].height));
                            assert(results@[hit_k] matches SearchHit::Tx { id, height, .. } && id@ == qh@
                                && tx_at(self.txs@, qh@, height));
                            assert forall|x: int| 0 <= x < first.len() implies #[trigger] results@[x] == first[x] by {}
                        }
                    },
                    None => {
                        let mut n_hits: usize = 0;
                        let mut j: usize = 0;
                        while j < self.by_hash.len() && n_hits < MAX_PREFIX_HITS
                            invariant
                                hits_sound(*self, results@),
                                no_labels(results@),
                                first.len() <= results@.len(),
                                forall|x: int| 0 <= x < first.len() ==> #[trigger] results@[x] == first[x],
                            decreases self.by_hash@.len() - j,
                        {
                            if starts_with(self.by_hash[j].0.as_str(), qh) {
                                let e = &self.by_hash[j];
                                let ghost before_push = results@;
                                results.push(SearchHit::Block { id: String::from_str(e.0.as_str()), height: e.1, label: self.label_for(e.0.as_str()) });
                                proof {
                                    assert(forall|x: int| 0 <= x < before_push.len() ==> #[trigger] results@[x] == before_push[x]);
                                    lemma_push_sound(*self, before_push, results@);
                                }
                                n_hits = n_hits + 1;
                            }
                            j = j + 1;
                        }
                        let mut n_tx: usize = 0;
                        let mut j2: usize = 0;
                        while j2 < self.txs.len() && n_tx < MAX_PREFIX_HITS
                            invariant
                                hits_sound(*self, results@),
                                no_labels(results@),
                                first.len() <= results@.len(),
                                forall|x: int| 0 <= x < first.len() ==> #[trigger] results@[x] == first[x],
                            decreases self.txs@.len() - j2,
                        {
                            if starts_with(self.txs[j2].tx_hash.as_str(), qh) {
                                let tx = &self.txs[j2];
                                let ghost before_push = results@;
                                results.push(SearchHit::TxPrefix {
                                    id: String::from_str(tx.tx_hash.as_str()),
                                    height: tx.height,
                                    block: String::from_str(tx.block_hash.as_str()),
                                });
                                proof {
                                    assert(forall|x: int| 0 <= x < before_push.len() ==> #[trigger] results@[x] == before_push[x]);
                                    lemma_push_sound(*self, before_push, results@);
                                }
                                n_tx = n_tx + 1;
                            }
                            j2 = j2 + 1;
                        }
                    },
                },
            }
        }
        let ghost second = results@;
        proof {
            assert(hex_query(t@) is Some && has_block_hash(self.by_hash@, hex_query(t@)->0) ==> 0 <= hit_k < second.len()
                && (second[hit_k] matches SearchHit::Block { id, height, .. } && id@ == hex_query(t@)->0 && block_hash_at(self.by_hash@, hex_query(t@)->0, height)));
            assert(hex_query(t@) is Some && !has_block_hash(self.by_hash@, hex_query(t@)->0) && has_tx_record(self.txs@, hex_query(t@)->0)
                ==> 0 <= hit_k < second.len()
                && (second[hit_k] matches SearchHit::Tx { id, height, .. } && id@ == hex_query(t@)->0 && tx_at(self.txs@, hex_query(t@)->0, height)));
            assert(first.len() <= second.len());
            assert(forall|x: int| 0 <= x < first.len() ==> #[trigger] second[x] == first[x]);
            assert(no_labels(second));
        }
        let n = t.unicode_len();
        let mut colon: usize = 0;
        while colon < n && t.get_char(colon) != ':'
            invariant
                colon <= n == t@.len(),
                forall|i: int| 0 <= i < colon ==> t@[i] != ':',
            decreases n - colon,
        {
            colon = colon + 1;
        }
        let ghost mut hit_o: int = -1;
        if colon < n {
            let txid = t.substring_char(0, colon);
            let vout = t.substring_char(colon + 1, n);
            if txid.unicode_len() == 128 && all_hex(txid) && parse_unsigned_text(vout, 0xffff_ffff).is_some() {
                let ghost before_push = results@;
                results.push(SearchHit::Outpoint {
                    id: String::from_str(t),
                    txid: String::from_str(txid),
                    vout: String::from_str(vout),
                    label: self.label_for(t),
                });
                proof {
                    assert(forall|x: int| 0 <= x < before_push.len() ==> #[trigger] results@[x] == before_push[x]);
                    lemma_push_sound(*self, before_push, results@);
                }
                proof {
                    hit_o = results@.len() - 1;
                }
            }
        }
        proof {
            if outpoint_query(t@) {
                assert(t@[128] == ':');
                assert(colon == 128);
                assert(forall|i: int| 0 <= i < 128 ==> #[trigger] t@.subrange(0, 128)[i] == t@[i]);
            }
            assert(outpoint_query(t@) ==> 0 <= hit_o < results@.len()
                && (results@[hit_o] matches SearchHit::Outpoint { id, .. } && id@ == t@));
            assert(forall|x: int| 0 <= x < second.len() ==> #[trigger] results@[x] == second[x]);
            assert(no_labels(results@));
        }
        let ghost third = results@;
        let ql = to_lowercase_text(t);
        let qls = ql.as_str();
        if starts_with(qls, "op:") || starts_with(qls, "label:") {
            let mut rest = String::from_str(qls);
            proof {
                reveal_strlit("op:");
                reveal_strlit("label:");
            }
            while starts_with(rest.as_str(), "op:")
                invariant
                    strip_all(rest@, "op:"@) == strip_all(ql@, "op:"@),
                decreases rest@.len(),
            {
                proof {
                    reveal_strlit("op:");
                }
                let m = rest.unicode_len();
                rest = String::from_str(rest.as_str().substring_char(3, m));
            }
            let ghost after_op = rest@;
            while starts_with(rest.as_str(), "label:")
                invariant
                    strip_all(rest@, "label:"@) == strip_all(after_op, "label:"@),
                    after_op == strip_all(ql@, "op:"@),
                decreases rest@.len(),
            {
                proof {
                    reveal_strlit("label:");
                }
                let m = rest.unicode_len();
                rest = String::from_str(rest.as_str().substring_char(6, m));
            }
            let needle = trim_text(rest.as_str());
            proof {
                assert(needle@ == label_needle(ql@));
            }
            let mut k: usize = 0;
            while k < self.labels.len()
                invariant_except_break
                    hits_sound(*self, results@),
                    k <= self.labels@.len(),
                    third.len() <= results@.len(),
                    forall|x: int| 0 <= x < third.len() ==> #[trigger] results@[x] == third[x],
                    forall|x: int| 0 <= x < results@.len() ==> (#[trigger] results@[x] matches SearchHit::Label { id, label }
                        ==> label_hit(self.labels@, id@, label@, needle@)),
                    forall|e: int| 0 <= e < k && label_matches((#[trigger] self.labels@[e]).0@, self.labels@[e].1@, needle@)
                        ==> reports_label(results@, self.labels@[e].0@, self.labels@[e].1@),
                ensures
                    hits_sound(*self, results@),
                    third.len() <= results@.len(),
                    forall|x: int| 0 <= x < third.len() ==> #[trigger] results@[x] == third[x],
                    forall|x: int| 0 <= x < results@.len() ==> (#[trigger] results@[x] matches SearchHit::Label { id, label }
                        ==> label_hit(self.labels@, id@, label@, needle@)),
                    results@.len() < MAX_LABEL_RESULTS ==> forall|e: int| 0 <= e < self.labels@.len()
                        && label_matches((#[trigger] self.labels@[e]).0@, self.labels@[e].1@, needle@)
                        ==> reports_label(results@, self.labels@[e].0@, self.labels@[e].1@),
                decreases self.labels@.len() - k,
            {
                let e = &self.labels[k];
                let vl = to_lowercase_text(e.1.as_str());
                let kl = to_lowercase_text(e.0.as_str());
                let ghost before = results@;
                if contains_text(vl.as_str(), needle.as_str()) || contains_text(kl.as_str(), needle.as_str()) {
                    let ghost before_push = results@;
                    results.push(SearchHit::Label { id: String::from_str(e.0.as_str()), label: String::from_str(e.1.as_str()) });
                    proof {
                        assert(forall|x: int| 0 <= x < before_push.len() ==> #[trigger] results@[x] == before_push[x]);
                        lemma_push_sound(*self, before_push, results@);
                    }
                    proof {
                        let last = results@.len() - 1;
                        assert forall|x: int| 0 <= x < results@.len() implies (#[trigger] results@[x] matches SearchHit::Label { id, label }
                            ==> label_hit(self.labels@, id@, label@, needle@)) by {
                            if x < last {
                                assert(results@[x] == before[x]);
                            } else {
                                assert(self.labels@[k as int].0@ == e.0@);
                            }
                        }
                        assert forall|e2: int| 0 <= e2 < k + 1 && label_matches((#[trigger] self.labels@[e2]).0@, self.labels@[e2].1@, needle@)
                            implies reports_label(results@, self.labels@[e2].0@, self.labels@[e2].1@) by {
                            if e2 < k {
                                let x = choose|x: int| 0 <= x < before.len() && (#[trigger] before[x] matches SearchHit::Label { id: i, label: l }
                                    && i@ == self.labels@[e2].0@ && l@ == self.labels@[e2].1@);
                                assert(results@[x] == before[x]);
                            } else {
                                assert(results@[last] matches SearchHit::Label { id: i, label: l } && i@ == self.labels@[e2].0@
                                    && l@ == self.labels@[e2].1@);
                            }
                        }
                        assert forall|x: int| 0 <= x < third.len() implies #[trigger] results@[x] == third[x] by {
                            assert(results@[x] == before[x]);
                        }
                    }
                    if results.len() >= MAX_LABEL_RESULTS {
                        break;
                    }
                }
                k = k + 1;
            }
        }
        proof {
            if address_like(t@) {
                let ka = first.len() - 1;
                assert(second[ka] == first[ka]);
                assert(third[ka] == second[ka]);
                assert(results@[ka] == first[ka]);
            }
            if hex_query(t@) is Some && has_block_hash(self.by_hash@, hex_query(t@)->0) {
                assert(third[hit_k] == second[hit_k]);
                assert(results@[hit_k] == second[hit_k]);
            }
            if hex_query(t@) is Some && !has_block_hash(self.by_hash@, hex_query(t@)->0) && has_tx_record(self.txs@, hex_query(t@)->0) {
                assert(third[hit_k] == second[hit_k]);
                assert(results@[hit_k] == second[hit_k]);
            }
            if outpoint_query(t@) {
                assert(results@[hit_o] == third[hit_o]);
            }
        }
        SearchResult { query, results }
    }
}

} // verus!
