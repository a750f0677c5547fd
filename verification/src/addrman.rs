//! Peer address manager: "new" and "tried" bucket tables spread by network
//! group, a feeler queue of untried addresses, and diverse dial selection.
use vstd::prelude::*;
use vstd::utf8::encode_utf8;
use vstd::string::StringExecFns;
use crate::bytes::{le_value, u64_le, bytes_eq, bytes_lt, lemma_lex_asym, lemma_lex_trans, lemma_lex_trichotomy, lex_lt, push_all};
use crate::crypto::{blake3_xof, blake3_xof_bytes};
use crate::netaddr::{net_group, parse_host, spec_net_group, spec_parse_host};

verus! {

pub const NEW_BUCKETS: usize = 64;
pub const TRIED_BUCKETS: usize = 32;
pub const ADDRS_PER_BUCKET: usize = 64;
pub const MAX_ADDRS_TOTAL: usize = 2048;

/// One known peer address.
#[derive(Clone, Debug)]
pub struct AddrRecord {
    pub addr: String,
    pub last_success_ms: u64,
    pub last_try_ms: u64,
    pub attempts: u32,
    pub source: String,
}

/// Mathematical form of a record.
pub struct RecordView {
    pub addr: Seq<char>,
    pub last_success_ms: u64,
    pub last_try_ms: u64,
    pub attempts: u32,
    pub source: Seq<char>,
}

impl View for AddrRecord {
    type V = RecordView;

    open spec fn view(&self) -> RecordView {
        RecordView {
            addr: self.addr@,
            last_success_ms: self.last_success_ms,
            last_try_ms: self.last_try_ms,
            attempts: self.attempts,
            source: self.source@,
        }
    }
}

/// The address manager.
#[derive(Clone, Debug)]
pub struct AddrMan {
    pub new: Vec<Vec<AddrRecord>>,
    pub tried: Vec<Vec<AddrRecord>>,
    /// Feeler candidate queue (new addresses not yet tried).
    pub feelers: Vec<String>,
}

/// Mathematical form of the manager.
pub struct AddrManView {
    pub new: Seq<Seq<RecordView>>,
    pub tried: Seq<Seq<RecordView>>,
    pub feelers: Seq<Seq<char>>,
}

/// Views of the records of a bucket table.
pub open spec fn table_view(t: Seq<Vec<AddrRecord>>) -> Seq<Seq<RecordView>> {
    t.map_values(|b: Vec<AddrRecord>| b@.map_values(|r: AddrRecord| r@))
}

impl View for AddrMan {
    type V = AddrManView;

    open spec fn view(&self) -> AddrManView {
        AddrManView {
            new: table_view(self.new@),
            tried: table_view(self.tried@),
            feelers: self.feelers@.map_values(|a: String| a@),
        }
    }
}

/// Views of a list of records.
pub open spec fn rec_views(s: Seq<AddrRecord>) -> Seq<RecordView> {
    s.map_values(|y: AddrRecord| y@)
}

/// Views of a list of strings.
pub open spec fn str_views(s: Seq<String>) -> Seq<Seq<char>> {
    s.map_values(|y: String| y@)
}

/// `t` with exactly `n` buckets: cut down, or padded with empty buckets.
pub open spec fn sized(t: Seq<Seq<RecordView>>, n: int) -> Seq<Seq<RecordView>> {
    if t.len() >= n {
        t.take(n)
    } else {
        t + Seq::new((n - t.len()) as nat, |i: int| Seq::<RecordView>::empty())
    }
}

/// The manager with its standard bucket counts.
pub open spec fn with_buckets(v: AddrManView) -> AddrManView {
    AddrManView { new: sized(v.new, NEW_BUCKETS as int), tried: sized(v.tried, TRIED_BUCKETS as int), feelers: v.feelers }
}

/// Number of records in a table.
pub open spec fn total(t: Seq<Seq<RecordView>>) -> nat
    decreases t.len(),
{
    if t.len() == 0 {
        0
    } else {
        total(t.drop_last()) + t.last().len()
    }
}

/// Some record of `t` is for address `a`.
pub open spec fn table_has(t: Seq<Seq<RecordView>>, a: Seq<char>) -> bool {
    exists|b: int, k: int| 0 <= b < t.len() && 0 <= k < t[b].len() && (#[trigger] t[b][k]).addr == a
}

/// The manager knows address `a`.
pub open spec fn knows(v: AddrManView, a: Seq<char>) -> bool {
    table_has(v.new, a) || table_has(v.tried, a)
}

/// Record counts fit in `usize` (they always do for tables in memory).
pub open spec fn counts_fit(v: AddrManView) -> bool {
    total(v.new) + total(v.tried) <= usize::MAX
}

impl Default for AddrMan {
    fn default() -> (r: AddrMan)
        ensures
            r@.new.len() == 0,
            r@.tried.len() == 0,
            r@.feelers.len() == 0,
    {
        AddrMan { new: Vec::new(), tried: Vec::new(), feelers: Vec::new() }
    }
}

proof fn lemma_total_zero(t: Seq<Seq<RecordView>>)
    requires
        forall|b: int| 0 <= b < t.len() ==> (#[trigger] t[b]).len() == 0,
    ensures
        total(t) == 0,
    decreases t.len(),
{
    if t.len() > 0 {
        lemma_total_zero(t.drop_last());
    }
}

/// A table of `n` empty buckets.
fn empty_table(n: usize) -> (r: Vec<Vec<AddrRecord>>)
    ensures
        table_view(r@) == Seq::new(n as nat, |i: int| Seq::<RecordView>::empty()),
{
    let mut t: Vec<Vec<AddrRecord>> = Vec::new();
    while t.len() < n
        invariant
            t@.len() <= n,
            forall|b: int| 0 <= b < t@.len() ==> (#[trigger] t@[b])@.len() == 0,
        decreases n - t@.len(),
    {
        t.push(Vec::new());
    }
    assert forall|b: int| 0 <= b < t@.len() implies table_view(t@)[b] == Seq::<RecordView>::empty() by {
        assert(table_view(t@)[b] =~= Seq::<RecordView>::empty());
    }
    assert(table_view(t@) =~= Seq::new(n as nat, |i: int| Seq::<RecordView>::empty()));
    t
}

/// Resize a table to `n` buckets.
fn resize_table(t: &mut Vec<Vec<AddrRecord>>, n: usize)
    ensures
        table_view(final(t)@) == sized(table_view(old(t)@), n as int),
{
    let ghost t0 = table_view(t@);
    if t.len() > n {
        let ghost before = t@;
        t.truncate(n);
        assert(t@ =~= before.take(n as int));
        assert(table_view(t@) =~= t0.take(n as int));
        return;
    }
    let start = t.len();
    while t.len() < n
        invariant
            start <= t@.len() <= n,
            table_view(t@) == t0 + Seq::new((t@.len() - start) as nat, |i: int| Seq::<RecordView>::empty()),
        decreases n - t@.len(),
    {
        let ghost before = t@;
        let e: Vec<AddrRecord> = Vec::new();
        assert(e@.map_values(|r: AddrRecord| r@) =~= Seq::<RecordView>::empty());
        t.push(e);
        assert(table_view(t@) =~= table_view(before).push(Seq::<RecordView>::empty()));
        assert(table_view(t@) =~= t0 + Seq::new((t@.len() - start) as nat, |i: int| Seq::<RecordView>::empty()));
    }
    if start == n {
        assert(t0.take(n as int) =~= t0);
        assert(table_view(t@) =~= t0);
    }
}

/// Records in a table.
fn table_len(t: &Vec<Vec<AddrRecord>>) -> (r: usize)
    requires
        total(table_view(t@)) <= usize::MAX,
    ensures
        r == total(table_view(t@)),
{
    let mut sum: usize = 0;
    let mut b: usize = 0;
    while b < t.len()
        invariant
            b <= t@.len(),
            total(table_view(t@)) <= usize::MAX,
            sum == total(table_view(t@).take(b as int)),
        decreases t@.len() - b,
    {
        proof {
            let tv = table_view(t@);
            assert(tv.take(b + 1).drop_last() =~= tv.take(b as int));
            lemma_total_prefix(tv, b + 1);
        }
        sum = sum + t[b].len();
        b = b + 1;
    }
    proof {
        assert(table_view(t@).take(t@.len() as int) =~= table_view(t@));
    }
    sum
}

proof fn lemma_total_prefix(t: Seq<Seq<RecordView>>, k: int)
    requires
        0 <= k <= t.len(),
    ensures
        total(t.take(k)) <= total(t),
    decreases t.len() - k,
{
    if k < t.len() {
        lemma_total_prefix(t, k + 1);
        assert(t.take(k + 1).drop_last() =~= t.take(k));
    } else {
        assert(t.take(k) =~= t);
    }
}

/// Equality of two strings, by their bytes.
pub(crate) fn str_eq(a: &str, b: &str) -> (r: bool)
    ensures
        r == (a@ == b@),
{
    let r = bytes_eq(a.as_bytes(), b.as_bytes());
    proof {
        vstd::utf8::encode_utf8_decode_utf8(a@);
        vstd::utf8::encode_utf8_decode_utf8(b@);
    }
    r
}

/// Whether a bucket holds a record for `a`; the first position if so.
fn find_in_bucket(bucket: &Vec<AddrRecord>, a: &str) -> (r: Option<usize>)
    ensures
        match r {
            Some(k) => k < bucket@.len() && bucket@[k as int].addr@ == a@
                && forall|j: int| 0 <= j < k ==> (#[trigger] bucket@[j]).addr@ != a@,
            None => forall|j: int| 0 <= j < bucket@.len() ==> (#[trigger] bucket@[j]).addr@ != a@,
        },
{
    let mut k: usize = 0;
    while k < bucket.len()
        invariant
            k <= bucket@.len(),
            forall|j: int| 0 <= j < k ==> (#[trigger] bucket@[j]).addr@ != a@,
        decreases bucket@.len() - k,
    {
        if str_eq(bucket[k].addr.as_str(), a) {
            return Some(k);
        }
        k = k + 1;
    }
    None
}

/// Whether a table holds a record for `a`.
fn table_contains(t: &Vec<Vec<AddrRecord>>, a: &str) -> (r: bool)
    ensures
        r == table_has(table_view(t@), a@),
{
    let mut b: usize = 0;
    while b < t.len()
        invariant
            b <= t@.len(),
            forall|x: int, k: int| 0 <= x < b && 0 <= k < t@[x]@.len() ==> (#[trigger] t@[x]@[k]).addr@ != a@,
        decreases t@.len() - b,
    {
        match find_in_bucket(&t[b], a) {
            Some(k) => {
                proof {
                    assert(table_view(t@)[b as int][k as int].addr == a@);
                }
                return true;
            },
            None => {},
        }
        b = b + 1;
    }
    proof {
        assert forall|x: int, k: int| 0 <= x < table_view(t@).len() && 0 <= k < table_view(t@)[x].len()
            implies (#[trigger] table_view(t@)[x][k]).addr != a@ by {
            assert(table_view(t@)[x][k] == t@[x]@[k]@);
        }
    }
    false
}

/// The byte tag `hassan-addrman-bucket-v1`.
pub open spec fn spec_bucket_tag() -> Seq<u8> {
    seq![104u8, 97u8, 115u8, 115u8, 97u8, 110u8, 45u8, 97u8, 100u8, 100u8, 114u8, 109u8, 97u8, 110u8, 45u8, 98u8, 117u8, 99u8, 107u8, 101u8, 116u8, 45u8, 118u8, 49u8]
}

/// The byte tag `hassan-addrman-bucket-v1`.
pub fn bucket_tag() -> (r: Vec<u8>)
    ensures
        r@ == spec_bucket_tag(),
{
    vec![104u8, 97u8, 115u8, 115u8, 97u8, 110u8, 45u8, 97u8, 100u8, 100u8, 114u8, 109u8, 97u8, 110u8, 45u8, 98u8, 117u8, 99u8, 107u8, 101u8, 116u8, 45u8, 118u8, 49u8]
}


/// The bytes hashed to place `addr` in a bucket: tag, salt, address and the
/// network group of its host when that is an IP literal.
pub open spec fn bucket_input(addr: Seq<u8>, salt: u8) -> Seq<u8> {
    spec_bucket_tag() + seq![salt] + addr + match spec_parse_host(addr) {
        Some(ip) => spec_net_group(ip),
        None => Seq::empty(),
    }
}

/// The bucket of `addr` among `n` buckets: the first eight bytes of Blake3
/// over `bucket_input`, as a little-endian integer, modulo `n` (at least 1).
pub open spec fn spec_bucket_for(addr: Seq<u8>, n: usize, salt: u8) -> int {
    let v = le_value(blake3_xof(bucket_input(addr, salt), 8)) as u64;
    ((v as usize) % (if n >= 1 { n } else { 1usize })) as int
}

/// The bucket of `addr` among `n` buckets.
fn bucket_for(addr: &str, n: usize, salt: u8) -> (r: usize)
    ensures
        r as int == spec_bucket_for(encode_utf8(addr@), n, salt),
        n >= 1 ==> r < n,
{
    let a = addr.as_bytes();
    let mut buf = bucket_tag();
    buf.push(salt);
    push_all(&mut buf, a);
    let ghost mid = buf@;
    match parse_host(a) {
        Some(ip) => {
            let g = net_group(&ip);
            push_all(&mut buf, g.as_slice());
        },
        None => {},
    }
    proof {
        assert(buf@ =~= bucket_input(a@, salt));
    }
    let out = blake3_xof_bytes(buf.as_slice(), 8);
    let v = u64_le(out.as_slice());
    let m: usize = if n >= 1 { n } else { 1 };
    (v as usize) % m
}

/// Whether `a` is empty.
fn str_is_empty(a: &str) -> (r: bool)
    ensures
        r == (a@.len() == 0),
{
    let r = a.as_bytes().len() == 0;
    proof {
        vstd::utf8::encode_utf8_decode_utf8(a@);
        if r {
            assert(encode_utf8(a@) =~= Seq::<u8>::empty());
            assert(encode_utf8(Seq::<char>::empty()) =~= Seq::<u8>::empty());
            vstd::utf8::encode_utf8_decode_utf8(Seq::<char>::empty());
        } else if a@.len() == 0 {
            assert(a@ =~= Seq::<char>::empty());
        }
    }
    r
}

/// Whether `q` holds `a`.
fn queue_contains(q: &Vec<String>, a: &str) -> (r: bool)
    ensures
        r == q@.map_values(|x: String| x@).contains(a@),
{
    let mut k: usize = 0;
    while k < q.len()
        invariant
            k <= q@.len(),
            forall|j: int| 0 <= j < k ==> (#[trigger] q@[j])@ != a@,
        decreases q@.len() - k,
    {
        if str_eq(q[k].as_str(), a) {
            proof {
                assert(q@.map_values(|x: String| x@)[k as int] == a@);
            }
            return true;
        }
        k = k + 1;
    }
    false
}

proof fn lemma_total_padded(t: Seq<Seq<RecordView>>, k: nat)
    ensures
        total(t + Seq::new(k, |i: int| Seq::<RecordView>::empty())) == total(t),
    decreases k,
{
    let e = Seq::new(k, |i: int| Seq::<RecordView>::empty());
    if k > 0 {
        let e1 = Seq::new((k - 1) as nat, |i: int| Seq::<RecordView>::empty());
        assert((t + e).drop_last() =~= t + e1);
        lemma_total_padded(t, (k - 1) as nat);
    } else {
        assert(t + e =~= t);
    }
}

proof fn lemma_sized_len(t: Seq<Seq<RecordView>>, n: int)
    requires
        n >= 0,
    ensures
        sized(t, n).len() == n,
{
}

proof fn lemma_sized_total(t: Seq<Seq<RecordView>>, n: int)
    requires
        n >= 0,
    ensures
        total(sized(t, n)) <= total(t),
{
    if t.len() >= n {
        lemma_total_prefix(t, n);
    } else {
        lemma_total_padded(t, (n - t.len()) as nat);
    }
}

/// A fresh record for `addr` from `source`, never tried.
pub open spec fn fresh_record(addr: Seq<char>, source: Seq<char>) -> RecordView {
    RecordView { addr, last_success_ms: 0, last_try_ms: 0, attempts: 0, source }
}

/// A bucket with room made (its oldest record dropped when full) and `r` appended.
pub open spec fn bucket_with(b: Seq<RecordView>, r: RecordView) -> Seq<RecordView> {
    (if b.len() >= ADDRS_PER_BUCKET { b.drop_first() } else { b }).push(r)
}

/// `q` with `a` appended unless it is already queued.
pub open spec fn queue_with(q: Seq<Seq<char>>, a: Seq<char>) -> Seq<Seq<char>> {
    if q.contains(a) { q } else { q.push(a) }
}

/// The manager after `add` takes `addr` from `source`.
pub open spec fn after_add(v: AddrManView, addr: Seq<char>, source: Seq<char>) -> AddrManView {
    let f = with_buckets(v);
    let b = spec_bucket_for(encode_utf8(addr), NEW_BUCKETS, 0x4e);
    AddrManView {
        new: f.new.update(b, bucket_with(f.new[b], fresh_record(addr, source))),
        tried: f.tried,
        feelers: queue_with(f.feelers, addr),
    }
}

/// Whether `add` takes `addr`: non-empty, unknown, and the manager not full.
pub open spec fn add_accepts(v: AddrManView, addr: Seq<char>) -> bool {
    &&& addr.len() > 0
    &&& !knows(v, addr)
    &&& total(v.new) + total(v.tried) < MAX_ADDRS_TOTAL
}


/// Records of `b` not for `a`, in order.
pub open spec fn without(b: Seq<RecordView>, a: Seq<char>) -> Seq<RecordView>
    decreases b.len(),
{
    if b.len() == 0 {
        b
    } else if b.last().addr == a {
        without(b.drop_last(), a)
    } else {
        without(b.drop_last(), a).push(b.last())
    }
}

/// Queue entries other than `a`, in order.
pub open spec fn queue_without(q: Seq<Seq<char>>, a: Seq<char>) -> Seq<Seq<char>>
    decreases q.len(),
{
    if q.len() == 0 {
        q
    } else if q.last() == a {
        queue_without(q.drop_last(), a)
    } else {
        queue_without(q.drop_last(), a).push(q.last())
    }
}

/// Position of the first record of `b` for `a`.
pub open spec fn first_with(b: Seq<RecordView>, a: Seq<char>) -> Option<int> {
    if exists|k: int| 0 <= k < b.len() && b[k].addr == a {
        Some(choose|k: int| 0 <= k < b.len() && b[k].addr == a && forall|j: int| 0 <= j < k ==> b[j].addr != a)
    } else {
        None
    }
}

/// `b` with its first record for `a` marked as just tried at `now`.
pub open spec fn touched(b: Seq<RecordView>, a: Seq<char>, now: u64) -> Seq<RecordView> {
    match first_with(b, a) {
        Some(k) => b.update(k, RecordView {
            last_try_ms: now,
            attempts: if b[k].attempts < u32::MAX { (b[k].attempts + 1) as u32 } else { u32::MAX },
            ..b[k]
        }),
        None => b,
    }
}

/// The tried bucket of `a` after a successful connection at `now`: its
/// record refreshed, or a new record appended (dropping the oldest when full).
pub open spec fn promoted(b: Seq<RecordView>, a: Seq<char>, now: u64) -> Seq<RecordView> {
    match first_with(b, a) {
        Some(k) => b.update(k, RecordView { last_success_ms: now, attempts: 0, ..b[k] }),
        None => bucket_with(b, RecordView { addr: a, last_success_ms: now, last_try_ms: now, attempts: 0, source: "good"@ }),
    }
}

/// The manager after a successful connection to `a` at `now`.
pub open spec fn after_good(v: AddrManView, a: Seq<char>, now: u64) -> AddrManView {
    let f = with_buckets(v);
    let b = spec_bucket_for(encode_utf8(a), TRIED_BUCKETS, 0x54);
    AddrManView {
        new: f.new.map_values(|bk: Seq<RecordView>| without(bk, a)),
        tried: f.tried.update(b, promoted(f.tried[b], a, now)),
        feelers: queue_without(f.feelers, a),
    }
}

/// The manager after a failed dial of `a` at `now`.
pub open spec fn after_attempt(v: AddrManView, a: Seq<char>, now: u64) -> AddrManView {
    let f = with_buckets(v);
    AddrManView {
        new: f.new.map_values(|bk: Seq<RecordView>| touched(bk, a, now)),
        tried: f.tried.map_values(|bk: Seq<RecordView>| touched(bk, a, now)),
        feelers: f.feelers,
    }
}

proof fn lemma_first_with(b: Seq<RecordView>, a: Seq<char>, k: int)
    requires
        0 <= k < b.len(),
        b[k].addr == a,
        forall|j: int| 0 <= j < k ==> (#[trigger] b[j]).addr != a,
    ensures
        first_with(b, a) == Some(k),
{
    let c = choose|c: int| 0 <= c < b.len() && b[c].addr == a && forall|j: int| 0 <= j < c ==> b[j].addr != a;
    assert(b[k].addr == a);
    if c < k {
        assert(b[c].addr != a);
    } else if c > k {
        assert(b[k].addr != a);
    }
}

/// `bk` without the records for `a`.
fn bucket_without(bk: Vec<AddrRecord>, a: &str) -> (r: Vec<AddrRecord>)
    ensures
        rec_views(r@) == without(rec_views(bk@), a@),
{
    let ghost v = rec_views(bk@);
    let mut src = bk;
    let mut out: Vec<AddrRecord> = Vec::new();
    let mut k: usize = 0;
    let n = src.len();
    proof {
        assert(v.take(0) =~= Seq::<RecordView>::empty());
        assert(rec_views(out@) =~= Seq::<RecordView>::empty());
    }
    while src.len() > 0
        invariant
            k + src@.len() == n,
            n == v.len(),
            rec_views(src@) == v.skip(k as int),
            rec_views(out@) == without(v.take(k as int), a@),
        decreases src@.len(),
    {
        let ghost s0 = src@;
        let x = src.remove(0);
        proof {
            assert(rec_views(s0)[0] == s0[0]@);
            assert(x@ == v[k as int]);
            assert(v.take(k + 1).drop_last() =~= v.take(k as int));
            assert(v.take(k + 1).last() == v[k as int]);
            assert forall|j: int| 0 <= j < src@.len() implies #[trigger] rec_views(src@)[j] == v.skip(k + 1)[j] by {
                assert(src@[j] == s0[j + 1]);
                assert(rec_views(s0)[j + 1] == v.skip(k as int)[j + 1]);
            }
            assert(rec_views(src@) =~= v.skip(k + 1));
        }
        if !str_eq(x.addr.as_str(), a) {
            let ghost o0 = out@;
            out.push(x);
            proof {
                assert(rec_views(out@) =~= rec_views(o0).push(v[k as int]));
            }
        }
        k = k + 1;
    }
    proof {
        assert(v.take(n as int) =~= v);
    }
    out
}

/// Mark the first record of `bk` for `a` as tried at `now`.
fn bucket_touch(bk: &mut Vec<AddrRecord>, a: &str, now: u64)
    ensures
        final(bk)@.map_values(|x: AddrRecord| x@) == touched(old(bk)@.map_values(|x: AddrRecord| x@), a@, now),
{
    let ghost v = bk@.map_values(|x: AddrRecord| x@);
    match find_in_bucket(bk, a) {
        Some(k) => {
            proof {
                lemma_first_with(v, a@, k as int);
            }
            let mut rec = bk.remove(k);
            rec.last_try_ms = now;
            rec.attempts = rec.attempts.saturating_add(1);
            bk.insert(k, rec);
            proof {
                assert(bk@.map_values(|x: AddrRecord| x@) =~= touched(v, a@, now));
            }
        },
        None => {
            proof {
                assert(!(exists|k: int| 0 <= k < v.len() && v[k].addr == a@));
            }
        },
    }
}

/// Remove the records for `a` from every bucket of `t`.
fn table_without(t: &mut Vec<Vec<AddrRecord>>, a: &str)
    ensures
        table_view(final(t)@) == table_view(old(t)@).map_values(|bk: Seq<RecordView>| without(bk, a@)),
{
    let ghost t0 = table_view(t@);
    let n = t.len();
    let mut i: usize = 0;
    while i < n
        invariant
            i <= n == t@.len(),
            t0.len() == n,
            forall|j: int| 0 <= j < i ==> (#[trigger] table_view(t@)[j]) == without(t0[j], a@),
            forall|j: int| i <= j < n ==> (#[trigger] table_view(t@)[j]) == t0[j],
        decreases n - i,
    {
        let ghost before = t@;
        let bk = t.remove(i);
        let ghost bkv = bk@;
        let nb = bucket_without(bk, a);
        t.insert(i, nb);
        proof {
            assert(t@ =~= before.update(i as int, nb));
            assert(bkv == before[i as int]@);
            assert(table_view(before)[i as int] == bkv.map_values(|x: AddrRecord| x@));
            assert forall|j: int| 0 <= j < n implies #[trigger] table_view(t@)[j] == if j == i { without(t0[j], a@) } else { table_view(before)[j] } by {
                if j != i {
                    assert(t@[j] == before[j]);
                }
            }
        }
        i = i + 1;
    }
    assert(table_view(t@) =~= t0.map_values(|bk: Seq<RecordView>| without(bk, a@)));
}

/// Mark the first record for `a` in every bucket of `t` as tried at `now`.
fn table_touch(t: &mut Vec<Vec<AddrRecord>>, a: &str, now: u64)
    ensures
        table_view(final(t)@) == table_view(old(t)@).map_values(|bk: Seq<RecordView>| touched(bk, a@, now)),
{
    let ghost t0 = table_view(t@);
    let n = t.len();
    let mut i: usize = 0;
    while i < n
        invariant
            i <= n == t@.len(),
            t0.len() == n,
            forall|j: int| 0 <= j < i ==> (#[trigger] table_view(t@)[j]) == touched(t0[j], a@, now),
            forall|j: int| i <= j < n ==> (#[trigger] table_view(t@)[j]) == t0[j],
        decreases n - i,
    {
        let ghost before = t@;
        let mut bk = t.remove(i);
        let ghost bkv = bk@;
        bucket_touch(&mut bk, a, now);
        t.insert(i, bk);
        proof {
            assert(t@ =~= before.update(i as int, bk));
            assert(bkv == before[i as int]@);
            assert(table_view(before)[i as int] == bkv.map_values(|x: AddrRecord| x@));
            assert forall|j: int| 0 <= j < n implies #[trigger] table_view(t@)[j] == if j == i { touched(t0[j], a@, now) } else { table_view(before)[j] } by {
                if j != i {
                    assert(t@[j] == before[j]);
                }
            }
        }
        i = i + 1;
    }
    assert(table_view(t@) =~= t0.map_values(|bk: Seq<RecordView>| touched(bk, a@, now)));
}

/// `q` without the entries equal to `a`.
fn queue_remove(q: &mut Vec<String>, a: &str)
    ensures
        str_views(final(q)@) == queue_without(str_views(old(q)@), a@),
{
    let ghost v = str_views(q@);
    let mut out: Vec<String> = Vec::new();
    let n = q.len();
    let mut k: usize = 0;
    proof {
        assert(v.take(0) =~= Seq::<Seq<char>>::empty());
        assert(str_views(out@) =~= Seq::<Seq<char>>::empty());
    }
    while q.len() > 0
        invariant
            k + q@.len() == n,
            n == v.len(),
            str_views(q@) == v.skip(k as int),
            str_views(out@) == queue_without(v.take(k as int), a@),
        decreases q@.len(),
    {
        let ghost s0 = q@;
        let x = q.remove(0);
        proof {
            assert(str_views(s0)[0] == s0[0]@);
            assert(x@ == v[k as int]);
            assert(v.take(k + 1).drop_last() =~= v.take(k as int));
            assert(v.take(k + 1).last() == v[k as int]);
            assert forall|j: int| 0 <= j < q@.len() implies #[trigger] str_views(q@)[j] == v.skip(k + 1)[j] by {
                assert(q@[j] == s0[j + 1]);
                assert(str_views(s0)[j + 1] == v.skip(k as int)[j + 1]);
            }
            assert(str_views(q@) =~= v.skip(k + 1));
        }
        if !str_eq(x.as_str(), a) {
            let ghost o0 = out@;
            out.push(x);
            proof {
                assert(str_views(out@) =~= str_views(o0).push(v[k as int]));
            }
        }
        k = k + 1;
    }
    proof {
        assert(v.take(n as int) =~= v);
    }
    *q = out;
}


/// Addresses of a table, bucket by bucket.
pub open spec fn flat(t: Seq<Seq<RecordView>>) -> Seq<Seq<char>>
    decreases t.len(),
{
    if t.len() == 0 {
        Seq::empty()
    } else {
        flat(t.drop_last()) + t.last().map_values(|r: RecordView| r.addr)
    }
}

/// The network group (/16 for IPv4, /32 for IPv6) of an address whose host
/// is an IP literal.
pub open spec fn group_of(a: Seq<char>) -> Option<Seq<u8>> {
    match spec_parse_host(encode_utf8(a)) {
        Some(ip) => Some(spec_net_group(ip)),
        None => None,
    }
}

/// First, diverse pass over `c`: take an address only when its network group
/// is not yet taken (addresses without a group wait), at most `n`, none
/// excluded, none twice. Returns the taken addresses and their groups.
pub open spec fn diverse_pass(c: Seq<Seq<char>>, n: nat, excl: Seq<Seq<char>>) -> (Seq<Seq<char>>, Seq<Seq<u8>>)
    decreases c.len(),
{
    if c.len() == 0 {
        (Seq::empty(), Seq::empty())
    } else {
        let p = diverse_pass(c.drop_last(), n, excl);
        let x = c.last();
        if p.0.len() >= n || excl.contains(x) || p.0.contains(x) {
            p
        } else {
            match group_of(x) {
                Some(g) => if p.1.contains(g) { p } else { (p.0.push(x), p.1.push(g)) },
                None => p,
            }
        }
    }
}

/// Second pass: fill up to `n` after `base` with the remaining addresses of
/// `c` in order, none excluded, none twice.
pub open spec fn fill_pass(c: Seq<Seq<char>>, n: nat, excl: Seq<Seq<char>>, base: Seq<Seq<char>>) -> Seq<Seq<char>>
    decreases c.len(),
{
    if c.len() == 0 {
        base
    } else {
        let prev = fill_pass(c.drop_last(), n, excl, base);
        let x = c.last();
        if prev.len() >= n || excl.contains(x) || prev.contains(x) { prev } else { prev.push(x) }
    }
}

/// The addresses of `c` that `chosen` holds, each once, in the order of `c`.
pub open spec fn in_order(c: Seq<Seq<char>>, chosen: Seq<Seq<char>>) -> Seq<Seq<char>>
    decreases c.len(),
{
    if c.len() == 0 {
        Seq::empty()
    } else {
        let p = in_order(c.drop_last(), chosen);
        let x = c.last();
        if chosen.contains(x) && !p.contains(x) { p.push(x) } else { p }
    }
}

/// Dial candidates from `c`: which addresses are chosen is decided by one per network
/// group first, then fillers; they are returned in the order of `c` (tried
/// before new, bucket order within each).
pub open spec fn select_from(c: Seq<Seq<char>>, n: nat, excl: Seq<Seq<char>>) -> Seq<Seq<char>> {
    in_order(c, fill_pass(c, n, excl, diverse_pass(c, n, excl).0))
}

proof fn lemma_in_order(c: Seq<Seq<char>>, chosen: Seq<Seq<char>>)
    ensures
        in_order(c, chosen).no_duplicates(),
        forall|i: int| 0 <= i < in_order(c, chosen).len() ==> chosen.contains(#[trigger] in_order(c, chosen)[i])
            && c.contains(in_order(c, chosen)[i]),
        forall|x: Seq<char>| chosen.contains(x) && c.contains(x) ==> #[trigger] in_order(c, chosen).contains(x),
    decreases c.len(),
{
    if c.len() > 0 {
        let d = c.drop_last();
        lemma_in_order(d, chosen);
        let p = in_order(d, chosen);
        let q = in_order(c, chosen);
        let x = c.last();
        assert forall|i: int| 0 <= i < q.len() implies chosen.contains(#[trigger] q[i]) && c.contains(q[i]) by {
            if i < p.len() {
                assert(q[i] == p[i]);
                let j = choose|j: int| 0 <= j < d.len() && d[j] == p[i];
                assert(c[j] == d[j]);
            } else {
                assert(c[c.len() - 1] == x);
            }
        }
        assert forall|y: Seq<char>| chosen.contains(y) && c.contains(y) implies #[trigger] q.contains(y) by {
            let j = choose|j: int| 0 <= j < c.len() && c[j] == y;
            if j < c.len() - 1 {
                assert(d[j] == y);
                assert(p.contains(y));
                let k = choose|k: int| 0 <= k < p.len() && p[k] == y;
                assert(q[k] == p[k]);
            } else if !p.contains(y) {
                assert(q[q.len() - 1] == y);
            } else {
                let k = choose|k: int| 0 <= k < p.len() && p[k] == y;
                assert(q[k] == p[k]);
            }
        }
        assert(q.no_duplicates()) by {
            assert forall|i: int, j: int| 0 <= i < q.len() && 0 <= j < q.len() && i != j implies q[i] != q[j] by {
                if i < p.len() && j < p.len() {
                    assert(q[i] == p[i] && q[j] == p[j]);
                } else if i < p.len() {
                    assert(q[i] == p[i]);
                    assert(p.contains(p[i]));
                } else if j < p.len() {
                    assert(q[j] == p[j]);
                    assert(p.contains(p[j]));
                }
            }
        }
    }
}

proof fn lemma_diverse_members(c: Seq<Seq<char>>, n: nat, excl: Seq<Seq<char>>)
    ensures
        diverse_pass(c, n, excl).0.no_duplicates(),
        forall|i: int| 0 <= i < diverse_pass(c, n, excl).0.len() ==> c.contains(#[trigger] diverse_pass(c, n, excl).0[i]),
    decreases c.len(),
{
    if c.len() > 0 {
        let d = c.drop_last();
        lemma_diverse_members(d, n, excl);
        let p = diverse_pass(d, n, excl).0;
        let q = diverse_pass(c, n, excl).0;
        assert forall|i: int| 0 <= i < q.len() implies c.contains(#[trigger] q[i]) by {
            if i < p.len() {
                assert(q[i] == p[i]);
                let j = choose|j: int| 0 <= j < d.len() && d[j] == p[i];
                assert(c[j] == d[j]);
            } else {
                assert(c[c.len() - 1] == q[i]);
            }
        }
        assert(q.no_duplicates()) by {
            assert forall|i: int, j: int| 0 <= i < q.len() && 0 <= j < q.len() && i != j implies q[i] != q[j] by {
                if i < p.len() && j < p.len() {
                    assert(q[i] == p[i] && q[j] == p[j]);
                } else if i < p.len() {
                    assert(q[i] == p[i]);
                    assert(p.contains(p[i]));
                } else if j < p.len() {
                    assert(q[j] == p[j]);
                    assert(p.contains(p[j]));
                }
            }
        }
    }
}

/// Some `n` addresses of `c`, none excluded, lie in pairwise distinct
/// network groups.
pub open spec fn spans_groups(c: Seq<Seq<char>>, n: nat, excl: Seq<Seq<char>>) -> bool {
    exists|w: Seq<int>| #[trigger] w.len() == n && (forall|k: int| 0 <= k < n ==> 0 <= #[trigger] w[k] < c.len()
        && !excl.contains(c[w[k]]) && group_of(c[w[k]]) is Some)
        && (forall|k: int, l: int| 0 <= k < l < n ==> #[trigger] group_of(c[w[k]]) != #[trigger] group_of(c[w[l]]))
}

proof fn lemma_diverse_pass(c: Seq<Seq<char>>, n: nat, excl: Seq<Seq<char>>)
    ensures
        diverse_pass(c, n, excl).0.len() == diverse_pass(c, n, excl).1.len(),
        diverse_pass(c, n, excl).0.len() <= n,
        forall|i: int| 0 <= i < diverse_pass(c, n, excl).0.len() ==> group_of(#[trigger] diverse_pass(c, n, excl).0[i]) == Some(diverse_pass(c, n, excl).1[i]),
        diverse_pass(c, n, excl).1.no_duplicates(),
        forall|k: int| 0 <= k < c.len() && !excl.contains(c[k]) && #[trigger] group_of(c[k]) is Some ==>
            diverse_pass(c, n, excl).0.len() >= n || diverse_pass(c, n, excl).1.contains(group_of(c[k])->0),
    decreases c.len(),
{
    if c.len() > 0 {
        let d = c.drop_last();
        lemma_diverse_pass(d, n, excl);
        let p = diverse_pass(d, n, excl);
        let q = diverse_pass(c, n, excl);
        let x = c.last();
        assert forall|k: int| 0 <= k < c.len() && !excl.contains(c[k]) && #[trigger] group_of(c[k]) is Some implies
            q.0.len() >= n || q.1.contains(group_of(c[k])->0) by {
            if k < c.len() - 1 {
                assert(c[k] == d[k]);
                if p.0.len() < n {
                    assert(p.1.contains(group_of(c[k])->0));
                    if q != p {
                        assert(q.1 == p.1.push(group_of(x)->0));
                        let j = choose|j: int| 0 <= j < p.1.len() && p.1[j] == group_of(c[k])->0;
                        assert(q.1[j] == p.1[j]);
                    }
                }
            } else {
                if p.0.len() < n && p.0.contains(x) {
                    let j = choose|j: int| 0 <= j < p.0.len() && p.0[j] == x;
                    assert(group_of(p.0[j]) == Some(p.1[j]));
                }
                if q.0.len() < n && q.1.len() > p.1.len() {
                    assert(q.1[p.1.len() as int] == group_of(x)->0);
                }
            }
        }
    }
}

proof fn lemma_fill_prefix(c: Seq<Seq<char>>, n: nat, excl: Seq<Seq<char>>, base: Seq<Seq<char>>)
    ensures
        base.len() >= n ==> fill_pass(c, n, excl, base) == base,
        fill_pass(c, n, excl, base).len() >= base.len(),
        fill_pass(c, n, excl, base).take(base.len() as int) == base,
    decreases c.len(),
{
    if c.len() > 0 {
        lemma_fill_prefix(c.drop_last(), n, excl, base);
        let prev = fill_pass(c.drop_last(), n, excl, base);
        assert(prev.push(c.last()).take(base.len() as int) =~= prev.take(base.len() as int));
    }
}

/// Law: when the candidates not excluded span at least `n` network groups,
/// the `n` selected addresses lie in pairwise distinct network groups.
pub proof fn law_select_diverse(c: Seq<Seq<char>>, n: nat, excl: Seq<Seq<char>>)
    requires
        spans_groups(c, n, excl),
    ensures
        select_from(c, n, excl).len() == n,
        forall|i: int| 0 <= i < n ==> group_of(#[trigger] select_from(c, n, excl)[i]) is Some,
        forall|i: int, j: int| 0 <= i < j < n ==> group_of(#[trigger] select_from(c, n, excl)[i]) != group_of(#[trigger] select_from(c, n, excl)[j]),
{
    broadcast use vstd::set::group_set_axioms;
    lemma_diverse_pass(c, n, excl);
    let p = diverse_pass(c, n, excl);
    let w = choose|w: Seq<int>| #[trigger] w.len() == n && (forall|k: int| 0 <= k < n ==> 0 <= #[trigger] w[k] < c.len()
        && !excl.contains(c[w[k]]) && group_of(c[w[k]]) is Some)
        && (forall|k: int, l: int| 0 <= k < l < n ==> #[trigger] group_of(c[w[k]]) != #[trigger] group_of(c[w[l]]));
    if p.0.len() < n {
        let gs = Seq::new(n, |k: int| group_of(c[w[k]])->0);
        assert(gs.no_duplicates()) by {
            assert forall|k: int, l: int| 0 <= k < gs.len() && 0 <= l < gs.len() && k != l implies gs[k] != gs[l] by {
                if k < l {
                    assert(group_of(c[w[k]]) != group_of(c[w[l]]));
                } else {
                    assert(group_of(c[w[l]]) != group_of(c[w[k]]));
                }
            }
        }
        gs.unique_seq_to_set();
        assert(gs.to_set().subset_of(p.1.to_set())) by {
            assert forall|g: Seq<u8>| gs.to_set().contains(g) implies p.1.to_set().contains(g) by {
                let k = choose|k: int| 0 <= k < gs.len() && gs[k] == g;
                assert(0 <= w[k] < c.len() && !excl.contains(c[w[k]]) && group_of(c[w[k]]) is Some);
                assert(p.1.contains(group_of(c[w[k]])->0));
            }
        }
        p.1.lemma_cardinality_of_set();
        vstd::set_lib::lemma_len_subset(gs.to_set(), p.1.to_set());
        assert(false);
    }
    lemma_fill_prefix(c, n, excl, p.0);
    assert(fill_pass(c, n, excl, p.0) == p.0);
    lemma_diverse_members(c, n, excl);
    lemma_in_order(c, p.0);
    let r = in_order(c, p.0);
    assert(r.to_set() =~= p.0.to_set()) by {
        assert forall|x: Seq<char>| r.to_set().contains(x) implies p.0.to_set().contains(x) by {
            let i = choose|i: int| 0 <= i < r.len() && r[i] == x;
            assert(p.0.contains(r[i]));
        }
        assert forall|x: Seq<char>| p.0.to_set().contains(x) implies r.to_set().contains(x) by {
            let i = choose|i: int| 0 <= i < p.0.len() && p.0[i] == x;
            assert(c.contains(p.0[i]));
            assert(r.contains(x));
        }
    }
    r.unique_seq_to_set();
    p.0.unique_seq_to_set();
    assert forall|i: int| 0 <= i < n implies group_of(#[trigger] r[i]) is Some by {
        assert(p.0.contains(r[i]));
        let k = choose|k: int| 0 <= k < p.0.len() && p.0[k] == r[i];
        assert(group_of(p.0[k]) == Some(p.1[k]));
    }
    assert forall|i: int, j: int| 0 <= i < j < n implies group_of(#[trigger] r[i]) != group_of(#[trigger] r[j]) by {
        assert(p.0.contains(r[i]) && p.0.contains(r[j]));
        let a = choose|a: int| 0 <= a < p.0.len() && p.0[a] == r[i];
        let b = choose|b: int| 0 <= b < p.0.len() && p.0[b] == r[j];
        assert(group_of(p.0[a]) == Some(p.1[a]));
        assert(group_of(p.0[b]) == Some(p.1[b]));
        assert(r[i] != r[j]);
        assert(a != b);
    }
}

/// The feeler taken from queue `q` (popping from its back until an address
/// with a new record is found) and how many entries stay queued.
pub open spec fn feeler_pick(q: Seq<Seq<char>>, newt: Seq<Seq<RecordView>>) -> (Option<Seq<char>>, nat)
    decreases q.len(),
{
    if q.len() == 0 {
        (None, 0)
    } else if table_has(newt, q.last()) {
        (Some(q.last()), (q.len() - 1) as nat)
    } else {
        feeler_pick(q.drop_last(), newt)
    }
}

/// String order: the byte order of the UTF-8 encodings.
pub open spec fn str_lt(a: Seq<char>, b: Seq<char>) -> bool {
    lex_lt(encode_utf8(a), encode_utf8(b))
}

/// Every address known to the manager, tried first.
pub open spec fn all_addrs(v: AddrManView) -> Seq<Seq<char>> {
    flat(v.tried) + flat(v.new)
}

proof fn lemma_flat_step(t: Seq<Seq<RecordView>>, i: int)
    requires
        0 <= i < t.len(),
    ensures
        flat(t.take(i + 1)) == flat(t.take(i)) + t[i].map_values(|r: RecordView| r.addr),
{
    assert(t.take(i + 1).drop_last() =~= t.take(i));
}

proof fn lemma_str_order(a: Seq<char>, b: Seq<char>)
    requires
        a != b,
    ensures
        str_lt(a, b) || str_lt(b, a),
{
    vstd::utf8::encode_utf8_decode_utf8(a);
    vstd::utf8::encode_utf8_decode_utf8(b);
    lemma_lex_trichotomy(encode_utf8(a), encode_utf8(b));
}

/// Append `x` to the candidates unless full, excluded or already taken.
fn push_candidate(out: &mut Vec<String>, x: &String, n: usize, exclude: &[String])
    ensures
        str_views(final(out)@) == ({
            let prev = str_views(old(out)@);
            if prev.len() >= n || str_views(exclude@).contains(x@) || prev.contains(x@) { prev } else { prev.push(x@) }
        }),
{
    if out.len() >= n {
        return;
    }
    let mut k: usize = 0;
    while k < exclude.len()
        invariant
            k <= exclude@.len(),
            forall|j: int| 0 <= j < k ==> (#[trigger] exclude@[j])@ != x@,
        decreases exclude@.len() - k,
    {
        if str_eq(exclude[k].as_str(), x.as_str()) {
            proof {
                assert(str_views(exclude@)[k as int] == x@);
            }
            return;
        }
        k = k + 1;
    }
    proof {
        assert(!str_views(exclude@).contains(x@));
    }
    if queue_contains(out, x.as_str()) {
        return;
    }
    let ghost o0 = out@;
    out.push(String::from_str(x.as_str()));
    proof {
        assert(str_views(out@) =~= str_views(o0).push(x@));
    }
}

/// Candidates from the records of `t`, in bucket order, after those in `out`.
fn flat_into(t: &Vec<Vec<AddrRecord>>, out: &mut Vec<String>, Ghost(base): Ghost<Seq<Seq<char>>>)
    requires
        str_views(old(out)@) == base,
    ensures
        str_views(final(out)@) == base + flat(table_view(t@)),
{
    let ghost tv = table_view(t@);
    let mut i: usize = 0;
    proof {
        assert(base + flat(tv.take(0)) =~= base);
    }
    while i < t.len()
        invariant
            i <= t@.len(),
            tv == table_view(t@),
            str_views(out@) == base + flat(tv.take(i as int)),
        decreases t@.len() - i,
    {
        let bucket = &t[i];
        let ghost addrs = tv[i as int].map_values(|r: RecordView| r.addr);
        let mut k: usize = 0;
        proof {
            assert(base + flat(tv.take(i as int)) + addrs.take(0) =~= base + flat(tv.take(i as int)));
        }
        while k < bucket.len()
            invariant
                k <= bucket@.len(),
                tv == table_view(t@),
                i < t@.len(),
                bucket == &t@[i as int],
                addrs == tv[i as int].map_values(|r: RecordView| r.addr),
                str_views(out@) == base + flat(tv.take(i as int)) + addrs.take(k as int),
            decreases bucket@.len() - k,
        {
            let ghost pre = str_views(out@);
            out.push(String::from_str(bucket[k].addr.as_str()));
            proof {
                assert(addrs[k as int] == bucket@[k as int].addr@);
                assert(str_views(out@) =~= pre.push(addrs[k as int]));
                assert(base + flat(tv.take(i as int)) + addrs.take(k + 1) =~= (base + flat(tv.take(i as int)) + addrs.take(k as int)).push(addrs[k as int]));
            }
            k = k + 1;
        }
        proof {
            lemma_flat_step(tv, i as int);
            assert(addrs.take(k as int) =~= addrs);
            assert(base + flat(tv.take(i + 1)) =~= base + flat(tv.take(i as int)) + addrs);
        }
        i = i + 1;
    }
    proof {
        assert(tv.take(t@.len() as int) =~= tv);
    }
}

fn strs_contain(v: &[String], x: &str) -> (r: bool)
    ensures
        r == str_views(v@).contains(x@),
{
    let mut k: usize = 0;
    while k < v.len()
        invariant
            k <= v@.len(),
            forall|j: int| 0 <= j < k ==> (#[trigger] v@[j])@ != x@,
        decreases v@.len() - k,
    {
        if str_eq(v[k].as_str(), x) {
            proof {
                assert(str_views(v@)[k as int] == x@);
            }
            return true;
        }
        k = k + 1;
    }
    proof {
        if str_views(v@).contains(x@) {
            let j = choose|j: int| 0 <= j < str_views(v@).len() && str_views(v@)[j] == x@;
            assert(v@[j]@ == x@);
        }
    }
    false
}

/// Views of a list of byte vectors.
pub open spec fn byte_views(v: Seq<Vec<u8>>) -> Seq<Seq<u8>> {
    v.map_values(|b: Vec<u8>| b@)
}

fn groups_contain(v: &Vec<Vec<u8>>, g: &Vec<u8>) -> (r: bool)
    ensures
        r == byte_views(v@).contains(g@),
{
    let mut k: usize = 0;
    while k < v.len()
        invariant
            k <= v@.len(),
            forall|j: int| 0 <= j < k ==> (#[trigger] v@[j])@ != g@,
        decreases v@.len() - k,
    {
        if bytes_eq(v[k].as_slice(), g.as_slice()) {
            proof {
                assert(byte_views(v@)[k as int] == g@);
            }
            return true;
        }
        k = k + 1;
    }
    proof {
        if byte_views(v@).contains(g@) {
            let j = choose|j: int| 0 <= j < byte_views(v@).len() && byte_views(v@)[j] == g@;
            assert(v@[j]@ == g@);
        }
    }
    false
}

/// Strictly ascending strings.
pub open spec fn strictly_sorted(s: Seq<String>) -> bool {
    forall|i: int, j: int| 0 <= i < j < s.len() ==> str_lt(#[trigger] s[i]@, #[trigger] s[j]@)
}

/// Insert `x` into an ascending list unless it is already there.
fn insert_sorted(sorted: &mut Vec<String>, x: &String)
    requires
        strictly_sorted(old(sorted)@),
    ensures
        strictly_sorted(final(sorted)@),
        forall|y: Seq<char>| #[trigger] str_views(final(sorted)@).contains(y) <==> (str_views(old(sorted)@).contains(y) || y == x@),
{
    let ghost s0 = sorted@;
    let xb = x.as_str().as_bytes();
    let mut p: usize = 0;
    while p < sorted.len() && bytes_lt(sorted[p].as_str().as_bytes(), xb)
        invariant
            p <= sorted@.len(),
            sorted@ == s0,
            xb@ == encode_utf8(x@),
            forall|q: int| 0 <= q < p ==> str_lt(#[trigger] sorted@[q]@, x@),
        decreases sorted@.len() - p,
    {
        p = p + 1;
    }
    if p < sorted.len() && str_eq(sorted[p].as_str(), x.as_str()) {
        proof {
            assert(str_views(s0)[p as int] == x@);
        }
        return;
    }
    proof {
        if p < s0.len() {
            assert(!str_lt(s0[p as int]@, x@));
            lemma_str_order(s0[p as int]@, x@);
            assert(str_lt(x@, s0[p as int]@));
            assert forall|q: int| p <= q < s0.len() implies str_lt(x@, #[trigger] s0[q]@) by {
                if q > p {
                    lemma_lex_trans(encode_utf8(x@), encode_utf8(s0[p as int]@), encode_utf8(s0[q]@));
                }
            }
        }
    }
    sorted.insert(p, String::from_str(x.as_str()));
    proof {
        let s1 = sorted@;
        assert(s1 == s0.insert(p as int, s1[p as int]));
        assert(s1[p as int]@ == x@);
        assert forall|i: int, j: int| 0 <= i < j < s1.len() implies str_lt(#[trigger] s1[i]@, #[trigger] s1[j]@) by {
            if j < p {
                assert(s1[i] == s0[i] && s1[j] == s0[j]);
            } else if j == p {
                assert(s1[i] == s0[i]);
            } else if i < p {
                assert(s1[i] == s0[i] && s1[j] == s0[j - 1]);
                lemma_lex_trans(encode_utf8(s0[i]@), encode_utf8(x@), encode_utf8(s0[j - 1]@));
            } else if i == p {
                assert(s1[j] == s0[j - 1]);
            } else {
                assert(s1[i] == s0[i - 1] && s1[j] == s0[j - 1]);
            }
        }
        assert forall|y: Seq<char>| #[trigger] str_views(s1).contains(y) <==> (str_views(s0).contains(y) || y == x@) by {
            if str_views(s1).contains(y) {
                let q = choose|q: int| 0 <= q < s1.len() && str_views(s1)[q] == y;
                if q < p {
                    assert(str_views(s0)[q] == y);
                } else if q > p {
                    assert(str_views(s0)[q - 1] == y);
                }
            }
            if str_views(s0).contains(y) {
                let q = choose|q: int| 0 <= q < s0.len() && str_views(s0)[q] == y;
                if q < p {
                    assert(str_views(s1)[q] == y);
                } else {
                    assert(str_views(s1)[q + 1] == y);
                }
            }
            if y == x@ {
                assert(str_views(s1)[p as int] == y);
            }
        }
    }
}

/// Insert the addresses of the records of `t` into an ascending list.
fn insert_table(t: &Vec<Vec<AddrRecord>>, sorted: &mut Vec<String>, Ghost(base): Ghost<Seq<Seq<char>>>)
    requires
        strictly_sorted(old(sorted)@),
        forall|y: Seq<char>| base.contains(y) <==> #[trigger] str_views(old(sorted)@).contains(y),
    ensures
        strictly_sorted(final(sorted)@),
        forall|y: Seq<char>| (base + flat(table_view(t@))).contains(y) <==> #[trigger] str_views(final(sorted)@).contains(y),
{
    let ghost tv = table_view(t@);
    let mut i: usize = 0;
    proof {
        assert(base + flat(tv.take(0)) =~= base);
    }
    while i < t.len()
        invariant
            i <= t@.len(),
            tv == table_view(t@),
            strictly_sorted(sorted@),
            forall|y: Seq<char>| (base + flat(tv.take(i as int))).contains(y) <==> #[trigger] str_views(sorted@).contains(y),
        decreases t@.len() - i,
    {
        let bucket = &t[i];
        let ghost addrs = tv[i as int].map_values(|r: RecordView| r.addr);
        let mut k: usize = 0;
        proof {
            assert(base + flat(tv.take(i as int)) + addrs.take(0) =~= base + flat(tv.take(i as int)));
        }
        while k < bucket.len()
            invariant
                k <= bucket@.len(),
                tv == table_view(t@),
                i < t@.len(),
                bucket == &t@[i as int],
                addrs == tv[i as int].map_values(|r: RecordView| r.addr),
                strictly_sorted(sorted@),
                forall|y: Seq<char>| (base + flat(tv.take(i as int)) + addrs.take(k as int)).contains(y) <==> #[trigger] str_views(sorted@).contains(y),
            decreases bucket@.len() - k,
        {
            let ghost pre = base + flat(tv.take(i as int)) + addrs.take(k as int);
            insert_sorted(sorted, &bucket[k].addr);
            proof {
                assert(addrs[k as int] == bucket@[k as int].addr@);
                assert(base + flat(tv.take(i as int)) + addrs.take(k + 1) =~= pre.push(addrs[k as int]));
                assert forall|y: Seq<char>| pre.push(addrs[k as int]).contains(y) <==> (pre.contains(y) || y == addrs[k as int]) by {
                    if pre.push(addrs[k as int]).contains(y) {
                        let q = choose|q: int| 0 <= q < pre.len() + 1 && pre.push(addrs[k as int])[q] == y;
                        if q < pre.len() {
                            assert(pre[q] == y);
                        }
                    }
                    if pre.contains(y) {
                        let q = choose|q: int| 0 <= q < pre.len() && pre[q] == y;
                        assert(pre.push(addrs[k as int])[q] == y);
                    }
                    if y == addrs[k as int] {
                        assert(pre.push(addrs[k as int])[pre.len() as int] == y);
                    }
                }
            }
            k = k + 1;
        }
        proof {
            lemma_flat_step(tv, i as int);
            assert(addrs.take(k as int) =~= addrs);
            assert(base + flat(tv.take(i + 1)) =~= base + flat(tv.take(i as int)) + addrs);
        }
        i = i + 1;
    }
    proof {
        assert(tv.take(t@.len() as int) =~= tv);
    }
}

/// Counts of the manager's records and queue.
pub struct AddrStats {
    pub new: usize,
    pub tried: usize,
    pub feelers: usize,
    pub total: usize,
}


proof fn lemma_bucket_bound(addr: Seq<u8>, n: usize, salt: u8)
    requires
        n >= 1,
    ensures
        0 <= spec_bucket_for(addr, n, salt) < n,
{
}

proof fn lemma_without_clears(b: Seq<RecordView>, a: Seq<char>)
    ensures
        forall|k: int| 0 <= k < without(b, a).len() ==> (#[trigger] without(b, a)[k]).addr != a,
    decreases b.len(),
{
    if b.len() > 0 {
        lemma_without_clears(b.drop_last(), a);
        let p = without(b.drop_last(), a);
        assert forall|k: int| 0 <= k < without(b, a).len() implies (#[trigger] without(b, a)[k]).addr != a by {
            if b.last().addr != a && k == p.len() {
            } else {
                assert(without(b, a)[k] == p[k]);
            }
        }
    }
}

/// After an accepted `add`, the manager knows the address: its new record
/// is the last one of its bucket.
pub proof fn law_add_then_known(v: AddrManView, addr: Seq<char>, source: Seq<char>)
    requires
        add_accepts(with_buckets(v), addr),
    ensures
        knows(after_add(v, addr, source), addr),
        table_has(after_add(v, addr, source).new, addr),
{
    let f = with_buckets(v);
    let b = spec_bucket_for(encode_utf8(addr), NEW_BUCKETS, 0x4e);
    lemma_bucket_bound(encode_utf8(addr), NEW_BUCKETS, 0x4e);
    lemma_sized_len(v.new, NEW_BUCKETS as int);
    assert(f.new.len() == NEW_BUCKETS);
    let nb = bucket_with(f.new[b], fresh_record(addr, source));
    let t = after_add(v, addr, source).new;
    assert(t == f.new.update(b, nb));
    assert(t[b] == nb);
    let k = nb.len() - 1;
    assert(nb[k] == fresh_record(addr, source));
    assert(t[b][k].addr == addr);
    assert(table_has(t, addr));
}

proof fn lemma_least_with(b: Seq<RecordView>, a: Seq<char>, k: int)
    requires
        0 <= k < b.len(),
        b[k].addr == a,
    ensures
        exists|m: int| 0 <= m < b.len() && b[m].addr == a && forall|j: int| 0 <= j < m ==> b[j].addr != a,
    decreases k,
{
    if exists|j: int| 0 <= j < k && b[j].addr == a {
        let j = choose|j: int| 0 <= j < k && b[j].addr == a;
        lemma_least_with(b, a, j);
    } else {
        assert(forall|j: int| 0 <= j < k ==> b[j].addr != a);
    }
}

/// After a successful connection, the address has no new record and its
/// tried bucket holds a record for it.
pub proof fn law_good_promotes(v: AddrManView, addr: Seq<char>, now: u64)
    ensures
        !table_has(after_good(v, addr, now).new, addr),
        table_has(after_good(v, addr, now).tried, addr),
{
    let f = with_buckets(v);
    let g = after_good(v, addr, now);
    assert forall|b: int, k: int| 0 <= b < g.new.len() && 0 <= k < g.new[b].len() implies (#[trigger] g.new[b][k]).addr != addr by {
        lemma_without_clears(f.new[b], addr);
    }
    let b = spec_bucket_for(encode_utf8(addr), TRIED_BUCKETS, 0x54);
    lemma_bucket_bound(encode_utf8(addr), TRIED_BUCKETS, 0x54);
    lemma_sized_len(v.tried, TRIED_BUCKETS as int);
    let tb = f.tried[b];
    let pb = promoted(tb, addr, now);
    assert(g.tried[b] == pb);
    match first_with(tb, addr) {
        Some(k) => {
            let w = choose|w: int| 0 <= w < tb.len() && tb[w].addr == addr;
            lemma_least_with(tb, addr, w);
            assert(0 <= k < tb.len() && tb[k].addr == addr);
            assert(pb[k].addr == addr);
        },
        None => {
            reveal_strlit("good");
            assert(pb[pb.len() - 1].addr == addr);
        },
    }
}

/// An `add` never grows a bucket beyond `ADDRS_PER_BUCKET` records.
pub proof fn law_add_keeps_bucket_cap(v: AddrManView, addr: Seq<char>, source: Seq<char>)
    requires
        forall|b: int| 0 <= b < with_buckets(v).new.len() ==> (#[trigger] with_buckets(v).new[b]).len() <= ADDRS_PER_BUCKET,
    ensures
        forall|b: int| 0 <= b < after_add(v, addr, source).new.len() ==> (#[trigger] after_add(v, addr, source).new[b]).len() <= ADDRS_PER_BUCKET,
{
    let f = with_buckets(v);
    let bi = spec_bucket_for(encode_utf8(addr), NEW_BUCKETS, 0x4e);
    lemma_bucket_bound(encode_utf8(addr), NEW_BUCKETS, 0x4e);
    lemma_sized_len(v.new, NEW_BUCKETS as int);
    assert forall|b: int| 0 <= b < after_add(v, addr, source).new.len() implies (#[trigger] after_add(v, addr, source).new[b]).len() <= ADDRS_PER_BUCKET by {
        if b != bi {
            assert(after_add(v, addr, source).new[b] == f.new[b]);
        }
    }
}

impl AddrMan {
    /// An empty manager with the standard bucket counts.
    pub fn new() -> (r: AddrMan)
        ensures
            r@.new == Seq::new(NEW_BUCKETS as nat, |i: int| Seq::<RecordView>::empty()),
            r@.tried == Seq::new(TRIED_BUCKETS as nat, |i: int| Seq::<RecordView>::empty()),
            r@.feelers.len() == 0,
    {
        let r = AddrMan { new: empty_table(NEW_BUCKETS), tried: empty_table(TRIED_BUCKETS), feelers: Vec::new() };
        assert(r@.feelers =~= Seq::<Seq<char>>::empty());
        r
    }

    /// Bring both tables to their standard bucket counts.
    pub fn ensure_buckets(&mut self)
        ensures
            final(self)@ == with_buckets(old(self)@),
    {
        if self.new.len() != NEW_BUCKETS {
            resize_table(&mut self.new, NEW_BUCKETS);
        } else {
            assert(table_view(self.new@).take(NEW_BUCKETS as int) =~= table_view(self.new@));
        }
        if self.tried.len() != TRIED_BUCKETS {
            resize_table(&mut self.tried, TRIED_BUCKETS);
        } else {
            assert(table_view(self.tried@).take(TRIED_BUCKETS as int) =~= table_view(self.tried@));
        }
    }

    /// Number of known records, new and tried.
    pub fn len(&self) -> (r: usize)
        requires
            counts_fit(self@),
        ensures
            r == total(self@.new) + total(self@.tried),
    {
        table_len(&self.new) + table_len(&self.tried)
    }

    /// No record is known.
    pub fn is_empty(&self) -> (r: bool)
        requires
            counts_fit(self@),
        ensures
            r == (total(self@.new) + total(self@.tried) == 0),
    {
        self.len() == 0
    }

    /// Insert `addr` (from `source`) into its new bucket, dropping that
    /// bucket's oldest record when it is full, and queue it as a feeler.
    /// Returns whether it was added: not for an empty, already known address
    /// or a full manager.
    pub fn add(&mut self, addr: &str, source: &str) -> (r: bool)
        requires
            counts_fit(old(self)@),
        ensures
            ({
                let f = with_buckets(old(self)@);
                let b = spec_bucket_for(encode_utf8(addr@), NEW_BUCKETS, 0x4e);
                &&& r == add_accepts(f, addr@)
                &&& !r ==> final(self)@ == f
                &&& r ==> final(self)@ == after_add(old(self)@, addr@, source@)
            }),
    {
        proof {
            lemma_sized_total(old(self)@.new, NEW_BUCKETS as int);
            lemma_sized_total(old(self)@.tried, TRIED_BUCKETS as int);
        }
        self.ensure_buckets();
        if str_is_empty(addr) || self.contains(addr) {
            return false;
        }
        if self.len() >= MAX_ADDRS_TOTAL {
            return false;
        }
        let b = bucket_for(addr, NEW_BUCKETS, 0x4e);
        let ghost f = self@;
        let ghost t0 = self.new@;
        let mut bucket = self.new.remove(b);
        let ghost b0 = bucket@;
        if bucket.len() >= ADDRS_PER_BUCKET {
            bucket.remove(0);
        }
        let ghost b1 = bucket@;
        bucket.push(AddrRecord {
            addr: String::from_str(addr),
            last_success_ms: 0,
            last_try_ms: 0,
            attempts: 0,
            source: String::from_str(source),
        });
        proof {
            assert(b0.map_values(|x: AddrRecord| x@) == f.new[b as int]);
            if b0.len() >= ADDRS_PER_BUCKET {
                assert(b1.map_values(|x: AddrRecord| x@) =~= f.new[b as int].drop_first());
            } else {
                assert(b1.map_values(|x: AddrRecord| x@) =~= f.new[b as int]);
            }
            assert(bucket@.map_values(|x: AddrRecord| x@) =~= bucket_with(f.new[b as int], fresh_record(addr@, source@)));
        }
        self.new.insert(b, bucket);
        proof {
            assert(self.new@ =~= t0.update(b as int, bucket));
            assert(table_view(self.new@) =~= f.new.update(b as int, bucket_with(f.new[b as int], fresh_record(addr@, source@))));
        }
        if !queue_contains(&self.feelers, addr) {
            let ghost q0 = self.feelers@;
            self.feelers.push(String::from_str(addr));
            proof {
                assert(self.feelers@.map_values(|x: String| x@) =~= q0.map_values(|x: String| x@).push(addr@));
            }
        }
        true
    }

    /// A successful connection to `addr` at time `now`: its new records and
    /// feeler entries are dropped and its tried record refreshed or created.
    pub fn good_at(&mut self, addr: &str, now: u64)
        ensures
            final(self)@ == after_good(old(self)@, addr@, now),
    {
        self.ensure_buckets();
        let ghost f = self@;
        assert(f.tried.len() == TRIED_BUCKETS) by {
            lemma_sized_len(old(self)@.tried, TRIED_BUCKETS as int);
        }
        assert(self.tried@.len() == TRIED_BUCKETS);
        table_without(&mut self.new, addr);
        queue_remove(&mut self.feelers, addr);
        let b = bucket_for(addr, TRIED_BUCKETS, 0x54);
        let ghost t0 = self.tried@;
        assert(self.tried@ == t0);
        let mut bucket = self.tried.remove(b);
        let ghost bv = bucket@.map_values(|x: AddrRecord| x@);
        proof {
            assert(bucket == t0[b as int]);
            assert(table_view(t0)[b as int] == t0[b as int]@.map_values(|x: AddrRecord| x@));
            assert(bv == f.tried[b as int]);
        }
        match find_in_bucket(&bucket, addr) {
            Some(k) => {
                proof {
                    lemma_first_with(bv, addr@, k as int);
                }
                let mut rec = bucket.remove(k);
                rec.last_success_ms = now;
                rec.attempts = 0;
                bucket.insert(k, rec);
                proof {
                    assert(bucket@.map_values(|x: AddrRecord| x@) =~= promoted(bv, addr@, now));
                }
            },
            None => {
                proof {
                    assert(!(exists|k: int| 0 <= k < bv.len() && bv[k].addr == addr@));
                }
                if bucket.len() >= ADDRS_PER_BUCKET {
                    bucket.remove(0);
                }
                let ghost b1 = bucket@;
                let src = String::from_str("good");
                proof {
                    reveal_strlit("good");
                }
                bucket.push(AddrRecord {
                    addr: String::from_str(addr),
                    last_success_ms: now,
                    last_try_ms: now,
                    attempts: 0,
                    source: src,
                });
                proof {
                    if bv.len() >= ADDRS_PER_BUCKET {
                        assert(b1.map_values(|x: AddrRecord| x@) =~= bv.drop_first());
                    } else {
                        assert(b1.map_values(|x: AddrRecord| x@) =~= bv);
                    }
                    assert(bucket@.map_values(|x: AddrRecord| x@) =~= promoted(bv, addr@, now));
                }
            },
        }
        self.tried.insert(b, bucket);
        proof {
            assert(self.tried@ =~= t0.update(b as int, bucket));
            assert(table_view(self.tried@) =~= f.tried.update(b as int, promoted(f.tried[b as int], addr@, now)));
        }
    }

    /// A successful connection to `addr` now (see `good_at`).
    pub fn good(&mut self, addr: &str)
        ensures
            exists|now: u64| final(self)@ == #[trigger] after_good(old(self)@, addr@, now),
    {
        let now = crate::crypto::now_ms();
        self.good_at(addr, now);
    }

    /// A failed dial of `addr` at time `now`: in every bucket its first
    /// record gets the try time and one more attempt (saturating).
    pub fn attempted_at(&mut self, addr: &str, now: u64)
        ensures
            final(self)@ == after_attempt(old(self)@, addr@, now),
    {
        self.ensure_buckets();
        table_touch(&mut self.new, addr, now);
        table_touch(&mut self.tried, addr, now);
    }

    /// A failed dial of `addr` now (see `attempted_at`).
    pub fn attempted(&mut self, addr: &str)
        ensures
            exists|now: u64| final(self)@ == #[trigger] after_attempt(old(self)@, addr@, now),
    {
        let now = crate::crypto::now_ms();
        self.attempted_at(addr, now);
    }

    /// Up to `n` diverse dial candidates: which addresses is decided by one
    /// address per network group first, then fillers; excluded addresses are
    /// skipped and none is taken twice. The chosen addresses come back in
    /// candidate order: tried records first, then new, bucket order within
    /// each.
    pub fn select(&self, n: usize, exclude: &[String]) -> (r: Vec<String>)
        ensures
            str_views(r@) == select_from(all_addrs(self@), n as nat, str_views(exclude@)),
    {
        let mut cands: Vec<String> = Vec::new();
        proof {
            assert(str_views(cands@) =~= Seq::<Seq<char>>::empty());
        }
        flat_into(&self.tried, &mut cands, Ghost(Seq::empty()));
        proof {
            assert(Seq::<Seq<char>>::empty() + flat(self@.tried) =~= flat(self@.tried));
        }
        flat_into(&self.new, &mut cands, Ghost(flat(self@.tried)));
        let ghost c = str_views(cands@);
        let ghost ex = str_views(exclude@);
        assert(c == all_addrs(self@));
        let mut out: Vec<String> = Vec::new();
        let mut groups: Vec<Vec<u8>> = Vec::new();
        let mut j: usize = 0;
        proof {
            assert(c.take(0) =~= Seq::<Seq<char>>::empty());
            assert(str_views(out@) =~= Seq::<Seq<char>>::empty());
            assert(byte_views(groups@) =~= Seq::<Seq<u8>>::empty());
        }
        while j < cands.len()
            invariant
                j <= cands@.len(),
                c == str_views(cands@),
                ex == str_views(exclude@),
                (str_views(out@), byte_views(groups@)) == diverse_pass(c.take(j as int), n as nat, ex),
            decreases cands@.len() - j,
        {
            let ghost pre = c.take(j as int);
            proof {
                assert(c.take(j + 1).drop_last() =~= pre);
                assert(c.take(j + 1).last() == cands@[j as int]@);
            }
            let x = &cands[j];
            if out.len() < n && !strs_contain(exclude, x.as_str()) && !strs_contain(out.as_slice(), x.as_str()) {
                match parse_host(x.as_str().as_bytes()) {
                    Some(ip) => {
                        let g = net_group(&ip);
                        if !groups_contain(&groups, &g) {
                            let ghost o0 = str_views(out@);
                            let ghost g0 = byte_views(groups@);
                            out.push(String::from_str(x.as_str()));
                            groups.push(g);
                            proof {
                                assert(str_views(out@) =~= o0.push(x@));
                                assert(byte_views(groups@) =~= g0.push(spec_net_group(ip@)));
                            }
                        }
                    },
                    None => {},
                }
            }
            j = j + 1;
        }
        proof {
            assert(c.take(cands@.len() as int) =~= c);
        }
        let ghost first = str_views(out@);
        let mut k: usize = 0;
        proof {
            assert(c.take(0) =~= Seq::<Seq<char>>::empty());
        }
        while k < cands.len()
            invariant
                k <= cands@.len(),
                c == str_views(cands@),
                ex == str_views(exclude@),
                str_views(out@) == fill_pass(c.take(k as int), n as nat, ex, first),
            decreases cands@.len() - k,
        {
            proof {
                assert(c.take(k + 1).drop_last() =~= c.take(k as int));
                assert(c.take(k + 1).last() == cands@[k as int]@);
            }
            push_candidate(&mut out, &cands[k], n, exclude);
            k = k + 1;
        }
        proof {
            assert(c.take(cands@.len() as int) =~= c);
        }
        let ghost chosen = str_views(out@);
        let mut res: Vec<String> = Vec::new();
        let mut m: usize = 0;
        proof {
            assert(c.take(0) =~= Seq::<Seq<char>>::empty());
            assert(str_views(res@) =~= Seq::<Seq<char>>::empty());
        }
        while m < cands.len()
            invariant
                m <= cands@.len(),
                c == str_views(cands@),
                chosen == str_views(out@),
                str_views(res@) == in_order(c.take(m as int), chosen),
            decreases cands@.len() - m,
        {
            proof {
                assert(c.take(m + 1).drop_last() =~= c.take(m as int));
                assert(c.take(m + 1).last() == cands@[m as int]@);
            }
            let x = &cands[m];
            if strs_contain(out.as_slice(), x.as_str()) && !strs_contain(res.as_slice(), x.as_str()) {
                let ghost r0 = str_views(res@);
                res.push(String::from_str(x.as_str()));
                proof {
                    assert(str_views(res@) =~= r0.push(x@));
                }
            }
            m = m + 1;
        }
        proof {
            assert(c.take(cands@.len() as int) =~= c);
        }
        res
    }

    /// Pop feelers from the back of the queue until one still has a new
    /// record; that one is returned.
    pub fn select_feeler(&mut self) -> (r: Option<String>)
        ensures
            match r {
                Some(a) => feeler_pick(with_buckets(old(self)@).feelers, with_buckets(old(self)@).new).0 == Some(a@),
                None => feeler_pick(with_buckets(old(self)@).feelers, with_buckets(old(self)@).new).0 is None,
            },
            final(self)@ == (AddrManView {
                feelers: with_buckets(old(self)@).feelers.take(
                    feeler_pick(with_buckets(old(self)@).feelers, with_buckets(old(self)@).new).1 as int),
                ..with_buckets(old(self)@)
            }),
    {
        self.ensure_buckets();
        let ghost f = self@;
        loop
            invariant_except_break
                f == with_buckets(old(self)@),
                self@.new == f.new,
                self@.tried == f.tried,
                feeler_pick(f.feelers, f.new) == feeler_pick(self@.feelers, f.new),
                self@.feelers == f.feelers.take(self@.feelers.len() as int),
                self@.feelers.len() <= f.feelers.len(),
            ensures
                f == with_buckets(old(self)@),
                self@.new == f.new,
                self@.tried == f.tried,
                feeler_pick(f.feelers, f.new) == (None::<Seq<char>>, 0nat),
                self@.feelers.len() == 0,
            decreases self@.feelers.len(),
        {
            let ghost q0 = self@.feelers;
            match self.feelers.pop() {
                Some(a) => {
                    proof {
                        assert(q0.last() == a@);
                        assert(self@.feelers =~= q0.drop_last());
                        assert(q0.drop_last() =~= f.feelers.take(self@.feelers.len() as int));
                    }
                    if table_contains(&self.new, a.as_str()) {
                        proof {
                            assert(table_has(f.new, a@));
                            assert(feeler_pick(q0, f.new) == (Some(a@), (q0.len() - 1) as nat));
                            assert(feeler_pick(f.feelers, f.new) == (Some(a@), (q0.len() - 1) as nat));
                            assert(self@.feelers =~= f.feelers.take(q0.len() - 1));
                            assert(self@ == (AddrManView { feelers: f.feelers.take(q0.len() - 1), ..f }));
                        }
                        return Some(a);
                    }
                },
                None => {
                    proof {
                        assert(q0.len() == 0);
                    }
                    break;
                },
            }
        }
        proof {
            assert(self@.feelers =~= f.feelers.take(0));
        }
        None
    }

    /// Known addresses to gossip: distinct, in ascending order, at most `max`.
    pub fn sample_for_addr_msg(&self, max: usize) -> (r: Vec<String>)
        ensures
            r@.len() <= max,
            forall|i: int, j: int| 0 <= i < j < r@.len() ==> str_lt(#[trigger] r@[i]@, #[trigger] r@[j]@),
            forall|i: int| 0 <= i < r@.len() ==> all_addrs(self@).contains(#[trigger] r@[i]@),
            forall|x: Seq<char>| #[trigger] all_addrs(self@).contains(x) && !str_views(r@).contains(x)
                ==> r@.len() == max && (max > 0 ==> str_lt(r@[max - 1]@, x)),
    {
        let mut sorted: Vec<String> = Vec::new();
        self.sorted_distinct(&mut sorted);
        let mut out = sorted;
        let ghost full = out@;
        if out.len() > max {
            out.truncate(max);
        }
        proof {
            assert forall|x: Seq<char>| #[trigger] all_addrs(self@).contains(x) && !str_views(out@).contains(x)
                implies out@.len() == max && (max > 0 ==> str_lt(out@[max - 1]@, x)) by {
                assert(str_views(full).contains(x));
                let q = choose|q: int| 0 <= q < str_views(full).len() && str_views(full)[q] == x;
                assert(str_views(full)[q] == full[q]@);
                if full.len() > max {
                    assert(out@ =~= full.subrange(0, max as int));
                    if q < max {
                        assert(str_views(out@)[q] == x);
                    }
                    if max > 0 {
                        assert(out@[max - 1] == full[max - 1]);
                        assert(str_lt(full[max - 1]@, full[q]@));
                    }
                } else {
                    assert(out@ == full);
                    assert(str_views(out@)[q] == x);
                }
            }
            assert forall|i: int| 0 <= i < out@.len() implies all_addrs(self@).contains(#[trigger] out@[i]@) by {
                assert(out@[i] == full[i]);
                assert(str_views(full)[i] == full[i]@);
                assert(str_views(full).contains(full[i]@));
            }
            assert forall|i: int, j: int| 0 <= i < j < out@.len() implies str_lt(#[trigger] out@[i]@, #[trigger] out@[j]@) by {
                assert(out@[i] == full[i] && out@[j] == full[j]);
            }
        }
        out
    }

    /// The distinct known addresses in ascending order.
    fn sorted_distinct(&self, sorted: &mut Vec<String>)
        requires
            old(sorted)@.len() == 0,
        ensures
            strictly_sorted(final(sorted)@),
            forall|x: Seq<char>| all_addrs(self@).contains(x) <==> #[trigger] str_views(final(sorted)@).contains(x),
    {
        insert_table(&self.tried, sorted, Ghost(Seq::empty()));
        proof {
            assert(Seq::<Seq<char>>::empty() + flat(self@.tried) =~= flat(self@.tried));
        }
        insert_table(&self.new, sorted, Ghost(flat(self@.tried)));
    }

    /// Record, queue and total counts.
    pub fn stats(&self) -> (r: AddrStats)
        requires
            counts_fit(self@),
        ensures
            r.new == total(self@.new),
            r.tried == total(self@.tried),
            r.feelers == self@.feelers.len(),
            r.total == total(self@.new) + total(self@.tried),
    {
        let new = table_len(&self.new);
        let tried = table_len(&self.tried);
        AddrStats { new, tried, feelers: self.feelers.len(), total: self.len() }
    }

    /// Some record, new or tried, is for `addr`.
    pub fn contains(&self, addr: &str) -> (r: bool)
        ensures
            r == knows(self@, addr@),
    {
        table_contains(&self.new, addr) || table_contains(&self.tried, addr)
    }
}

} // verus!
