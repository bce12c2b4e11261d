//! The write-ahead log format and its recovery rules.
//!
//! A log file is a 12-byte header (`ENGRMWAL` and format version 1, little-endian)
//! followed by frames:
//!
//! ```text
//! [region_len: u32][region = [meta_len: u32][meta][record]][crc32(region): u32]
//! ```
//!
//! all integers little-endian. `meta` is the encoded `{lsn, tx_id, op}` of the
//! entry and `record` its raw payload. A frame whose length is implausible, that
//! is cut short, whose checksum does not match, whose metadata does not fit its
//! region or does not decode, ends the log: everything before it is the valid
//! prefix.
//!
//! Recovery is position-aware: a data entry is redone only if its transaction
//! has a `Commit` at a strictly greater LSN, so reusing a transaction id after it
//! committed is safe.

use std::collections::HashMap;
use vstd::prelude::*;

use crate::base::codec::RecordKind;

verus! {

broadcast use vstd::std_specs::hash::group_hash_axioms;

/// Length of the file header: magic (8 bytes) and format version (4 bytes).
pub const HEADER_LEN: u64 = 12;

/// The format version written in the header.
pub const FORMAT_VERSION: u32 = 1;

/// The largest region a frame may claim (256 MiB): a larger length is treated as
/// corruption rather than allocated.
pub const MAX_REGION_LEN: u32 = 268435456;

/// The operation an entry records.
#[derive(Clone, Copy, Debug, PartialEq, Eq, Hash, Structural)]
pub enum WalOp {
    /// Insert or update a record of the given kind.
    Put(RecordKind),
    /// Tombstone or retract a record of the given kind.
    Delete(RecordKind),
    /// Commit marker for a transaction: makes its `Put`s and `Delete`s durable.
    Commit,
    /// Checkpoint marker: everything at or below this LSN is safe to compact.
    Checkpoint,
}

/// Whether an operation carries data that a store applies on replay.
pub open spec fn op_is_data(op: WalOp) -> bool {
    op is Put || op is Delete
}

impl WalOp {
    /// Whether this op carries data that a store would apply on replay.
    pub fn is_data(self) -> (r: bool)
        ensures
            r == op_is_data(self),
    {
        match self {
            WalOp::Put(_) | WalOp::Delete(_) => true,
            _ => false,
        }
    }
}

/// The metadata of an entry (what a frame's `meta` bytes encode).
#[derive(Clone, Copy, Debug, PartialEq, Eq, Structural)]
pub struct WalMeta {
    /// Log sequence number.
    pub lsn: u64,
    /// The transaction the entry belongs to.
    pub tx_id: u64,
    /// The operation.
    pub op: WalOp,
}

/// A decoded WAL entry.
#[derive(Debug)]
pub struct WalEntry {
    /// Log sequence number (monotonic, gap-free per writer).
    pub lsn: u64,
    /// The transaction this entry belongs to.
    pub tx_id: u64,
    /// The operation.
    pub op: WalOp,
    /// The raw record payload (empty for markers).
    pub record: Vec<u8>,
    /// The CRC32 the frame was stored with (verified on read).
    pub checksum: u32,
}

/// An entry as a mathematical value.
pub struct EntryView {
    pub lsn: u64,
    pub tx_id: u64,
    pub op: WalOp,
    pub record: Seq<u8>,
    pub checksum: u32,
}

impl View for WalEntry {
    type V = EntryView;

    open spec fn view(&self) -> EntryView {
        EntryView {
            lsn: self.lsn,
            tx_id: self.tx_id,
            op: self.op,
            record: self.record@,
            checksum: self.checksum,
        }
    }
}

/// The views of a sequence of entries.
pub open spec fn entry_views(s: Seq<WalEntry>) -> Seq<EntryView> {
    s.map_values(|e: WalEntry| e@)
}

/// A frame found in a byte stream, its metadata still encoded.
#[derive(Debug)]
pub struct Frame {
    /// The encoded metadata.
    pub meta: Vec<u8>,
    /// The raw record payload.
    pub record: Vec<u8>,
    /// The stored CRC32 of the region.
    pub checksum: u32,
    /// The offset just past this frame.
    pub end: u64,
}

/// The outcome of scanning a byte stream: its entries and the length of its
/// valid prefix.
#[derive(Debug)]
pub struct Scan {
    /// The entries of the valid prefix, in log order.
    pub entries: Vec<WalEntry>,
    /// Byte length of the valid prefix.
    pub valid_len: u64,
}

/// The result of replaying a WAL.
#[derive(Debug)]
pub struct Recovered {
    /// Committed data entries (`Put`/`Delete` whose tx has a later `Commit`), in
    /// log order.
    pub entries: Vec<WalEntry>,
    /// The next LSN a writer should assign (one past the highest valid entry).
    pub next_lsn: u64,
    /// Byte length of the valid prefix (a torn tail beyond this is ignored).
    pub valid_len: u64,
    /// The highest `tx_id` seen across all valid frames (committed or not).
    pub max_tx_id: u64,
}

/// One bit step of the reflected CRC-32 register: shift right, folding in the
/// polynomial `0xEDB88320` when the bit shifted out is set.
pub open spec fn crc_bit(c: u32) -> u32 {
    if (c & 1u32) == 1u32 {
        (c >> 1u32) ^ 0xEDB8_8320u32
    } else {
        c >> 1u32
    }
}

/// The register after `n` bit steps.
pub open spec fn crc_bits(c: u32, n: nat) -> u32
    decreases n,
{
    if n == 0 {
        c
    } else {
        crc_bits(crc_bit(c), (n - 1) as nat)
    }
}

/// The register after folding in the bytes of `data` (low bit first), from `c`.
pub open spec fn crc_reg(c: u32, data: Seq<u8>) -> u32
    decreases data.len(),
{
    if data.len() == 0 {
        c
    } else {
        crc_reg(crc_bits(c ^ (data[0] as u32), 8), data.drop_first())
    }
}

/// The CRC-32 (IEEE 802.3) checksum of `data`: the reflected register started
/// at all ones, complemented at the end.
pub open spec fn crc32(data: Seq<u8>) -> u32 {
    !crc_reg(0xFFFF_FFFFu32, data)
}

/// `crc32fast::hash`: the CRC-32 (IEEE) checksum of the bytes (the standard
/// reflected polynomial `0xEDB88320`, initial value and final XOR all ones),
/// which `crc32` states bit by bit.
#[verifier::external_body]
fn crc32_of(data: &[u8]) -> (r: u32)
    ensures
        r == crc32(data@),
{
    crc32fast::hash(data)
}

/// The little-endian `u32` stored at `b[off..off + 4]`.
pub open spec fn le32(b: Seq<u8>, off: int) -> int {
    b[off] as int + 256 * (b[off + 1] as int) + 65536 * (b[off + 2] as int) + 16777216 * (b[off
        + 3] as int)
}

/// The four little-endian bytes of `x`.
pub open spec fn le32_bytes(x: u32) -> Seq<u8> {
    seq![(x % 256) as u8, ((x / 256) % 256) as u8, ((x / 65536) % 256) as u8, (x / 16777216) as u8]
}

/// The file header: magic bytes then the format version.
pub open spec fn header_spec() -> Seq<u8> {
    seq![69u8, 78u8, 71u8, 82u8, 77u8, 87u8, 65u8, 76u8] + le32_bytes(FORMAT_VERSION)
}

/// A stream starts with a valid header.
pub open spec fn header_ok(b: Seq<u8>) -> bool {
    b.len() >= HEADER_LEN && b.subrange(0, HEADER_LEN as int) == header_spec()
}

/// The region length a frame at `pos` claims.
pub open spec fn region_len_at(b: Seq<u8>, pos: int) -> int {
    le32(b, pos)
}

/// A valid frame starts at `pos`: a plausible region length, the whole region
/// and checksum present, a matching checksum, and metadata that fits the region.
pub open spec fn frame_ok(b: Seq<u8>, pos: int) -> bool {
    let rl = region_len_at(b, pos);
    &&& 0 <= pos
    &&& pos + 4 <= b.len()
    &&& 4 <= rl <= MAX_REGION_LEN
    &&& pos + 8 + rl <= b.len()
    &&& crc32(b.subrange(pos + 4, pos + 4 + rl)) == le32(b, pos + 4 + rl)
    &&& 4 + le32(b, pos + 4) <= rl
}

/// The offset just past the frame at `pos`.
pub open spec fn frame_end(b: Seq<u8>, pos: int) -> int {
    pos + 8 + region_len_at(b, pos)
}

/// The start offsets of the consecutive valid frames from `pos` on, up to the
/// first invalid one.
pub open spec fn frame_starts(b: Seq<u8>, pos: int) -> Seq<int>
    decreases b.len() - pos,
{
    if frame_ok(b, pos) {
        seq![pos] + frame_starts(b, frame_end(b, pos))
    } else {
        Seq::empty()
    }
}

/// The frame at `pos` has been read into `f`.
pub open spec fn frame_read(b: Seq<u8>, pos: int, f: Frame) -> bool {
    let rl = region_len_at(b, pos);
    let ml = le32(b, pos + 4);
    &&& f.meta@ == b.subrange(pos + 8, pos + 8 + ml)
    &&& f.record@ == b.subrange(pos + 8 + ml, pos + 4 + rl)
    &&& f.checksum == le32(b, pos + 4 + rl)
    &&& f.end == frame_end(b, pos)
}

/// The bytes of a frame holding `region`.
pub open spec fn frame_spec(region: Seq<u8>) -> Seq<u8> {
    le32_bytes(region.len() as u32) + region + le32_bytes(crc32(region))
}

/// The region of an entry: metadata length, metadata, record.
pub open spec fn region_spec(meta: Seq<u8>, record: Seq<u8>) -> Seq<u8> {
    le32_bytes(meta.len() as u32) + meta + record
}

/// Reading back the four little-endian bytes of `x` gives `x`.
pub proof fn lemma_le32_round_trip(x: u32)
    ensures
        le32(le32_bytes(x), 0) == x,
{
    let b = le32_bytes(x);
    assert(b[0] as int == x % 256);
    assert(b[1] as int == (x / 256) % 256);
    assert(b[2] as int == (x / 65536) % 256);
    assert(b[3] as int == x / 16777216);
    assert(x == x % 256 + 256 * ((x / 256) % 256) + 65536 * ((x / 65536) % 256) + 16777216 * (x
        / 16777216)) by (nonlinear_arith);
}

/// The little-endian `u32` at `b[off..off + 4]`.
fn read_le32(b: &[u8], off: usize) -> (r: u32)
    requires
        off + 4 <= b@.len(),
    ensures
        r == le32(b@, off as int),
{
    b[off] as u32 + 256 * (b[off + 1] as u32) + 65536 * (b[off + 2] as u32) + 16777216 * (b[off
        + 3] as u32)
}

/// Append the four little-endian bytes of `x`.
fn push_le32(out: &mut Vec<u8>, x: u32)
    ensures
        final(out)@ == old(out)@ + le32_bytes(x),
{
    out.push((x % 256) as u8);
    out.push(((x / 256) % 256) as u8);
    out.push(((x / 65536) % 256) as u8);
    out.push((x / 16777216) as u8);
    assert(final(out)@ =~= old(out)@ + le32_bytes(x));
}

/// Append the bytes of `b`.
fn push_all(out: &mut Vec<u8>, b: &[u8])
    ensures
        final(out)@ == old(out)@ + b@,
{
    let ghost o = out@;
    let mut i: usize = 0;
    while i < b.len()
        invariant
            i <= b@.len(),
            out@ == o + b@.subrange(0, i as int),
        decreases b@.len() - i,
    {
        out.push(b[i]);
        i = i + 1;
        assert(out@ =~= o + b@.subrange(0, i as int));
    }
    assert(b@.subrange(0, b@.len() as int) =~= b@);
}

/// The file header: magic bytes then the format version.
pub fn header_bytes() -> (r: Vec<u8>)
    ensures
        r@ == header_spec(),
{
    let mut out: Vec<u8> = Vec::new();
    out.push(69u8);
    out.push(78u8);
    out.push(71u8);
    out.push(82u8);
    out.push(77u8);
    out.push(87u8);
    out.push(65u8);
    out.push(76u8);
    push_le32(&mut out, FORMAT_VERSION);
    assert(out@ =~= header_spec());
    out
}

/// Encode the checksummed region `[meta_len][meta][record]`.
pub fn build_region(meta: &[u8], record: &[u8]) -> (r: Vec<u8>)
    requires
        meta@.len() <= u32::MAX,
    ensures
        r@ == region_spec(meta@, record@),
{
    let mut region: Vec<u8> = Vec::new();
    push_le32(&mut region, meta.len() as u32);
    push_all(&mut region, meta);
    push_all(&mut region, record);
    region
}

/// Wrap a region in its length prefix and trailing CRC32.
pub fn frame_bytes(region: &[u8]) -> (r: Vec<u8>)
    requires
        region@.len() <= u32::MAX,
    ensures
        r@ == frame_spec(region@),
{
    let crc = crc32_of(region);
    let mut frame: Vec<u8> = Vec::new();
    push_le32(&mut frame, region.len() as u32);
    push_all(&mut frame, region);
    push_le32(&mut frame, crc);
    frame
}

/// A frame written after any prefix reads back at that position: it is valid,
/// ends where it was written, and holds the metadata and record it was built
/// from.
pub proof fn lemma_frame_round_trip(p: Seq<u8>, meta: Seq<u8>, record: Seq<u8>, q: Seq<u8>)
    requires
        4 + meta.len() + record.len() <= MAX_REGION_LEN,
    ensures
        ({
            let region = region_spec(meta, record);
            let b = p + frame_spec(region) + q;
            let pos = p.len() as int;
            &&& frame_ok(b, pos)
            &&& frame_end(b, pos) == pos + frame_spec(region).len()
            &&& b.subrange(pos + 8, pos + 8 + le32(b, pos + 4)) == meta
            &&& b.subrange(pos + 8 + le32(b, pos + 4), pos + 4 + region_len_at(b, pos)) == record
        }),
{
    let region = region_spec(meta, record);
    let f = frame_spec(region);
    let b = p + f + q;
    let pos = p.len() as int;
    let rl = region.len() as int;
    let ml = meta.len() as int;
    lemma_le32_round_trip(rl as u32);
    lemma_le32_round_trip(ml as u32);
    lemma_le32_round_trip(crc32(region));
    assert(b.subrange(pos, pos + 4) =~= le32_bytes(rl as u32));
    assert(le32(b, pos) == le32(le32_bytes(rl as u32), 0));
    assert(b.subrange(pos + 4, pos + 4 + rl) =~= region);
    assert(b.subrange(pos + 4, pos + 8) =~= le32_bytes(ml as u32));
    assert(le32(b, pos + 4) == le32(le32_bytes(ml as u32), 0));
    assert(b.subrange(pos + 4 + rl, pos + 8 + rl) =~= le32_bytes(crc32(region)));
    assert(le32(b, pos + 4 + rl) == le32(le32_bytes(crc32(region)), 0));
    assert(b.subrange(pos + 8, pos + 8 + ml) =~= meta);
    assert(b.subrange(pos + 8 + ml, pos + 4 + rl) =~= record);
}

/// The frames of consecutive entries `(metadata, record)`, in order.
pub open spec fn frames_spec(es: Seq<(Seq<u8>, Seq<u8>)>) -> Seq<u8>
    decreases es.len(),
{
    if es.len() == 0 {
        Seq::empty()
    } else {
        frame_spec(region_spec(es[0].0, es[0].1)) + frames_spec(es.drop_first())
    }
}

/// Every entry fits in one frame.
pub open spec fn entries_fit(es: Seq<(Seq<u8>, Seq<u8>)>) -> bool {
    forall|i: int| 0 <= i < es.len() ==> 4 + (#[trigger] es[i]).0.len() + es[i].1.len() <= MAX_REGION_LEN
}

/// A stream of frames after `p` reads back frame by frame: one valid frame per
/// entry, each giving back that entry's metadata and record, and nothing after.
pub proof fn lemma_frames_read_back(p: Seq<u8>, es: Seq<(Seq<u8>, Seq<u8>)>)
    requires
        entries_fit(es),
    ensures
        ({
            let b = p + frames_spec(es);
            let st = frame_starts(b, p.len() as int);
            &&& st.len() == es.len()
            &&& forall|i: int, f: Frame|
                0 <= i < st.len() && #[trigger] frame_read(b, st[i], f) ==> f.meta@ == es[i].0 && f.record@
                    == es[i].1
        }),
    decreases es.len(),
{
    let b = p + frames_spec(es);
    let pos = p.len() as int;
    if es.len() == 0 {
        assert(b =~= p);
        assert(frame_starts(b, pos) =~= Seq::<int>::empty());
    } else {
        let e = es[0];
        let rest = es.drop_first();
        let f0 = frame_spec(region_spec(e.0, e.1));
        assert(entries_fit(rest)) by {
            assert forall|i: int| 0 <= i < rest.len() implies 4 + (#[trigger] rest[i]).0.len() + rest[i].1.len()
                <= MAX_REGION_LEN by {
                assert(rest[i] == es[i + 1]);
            }
        }
        assert(4 + es[0].0.len() + es[0].1.len() <= MAX_REGION_LEN);
        lemma_frame_round_trip(p, e.0, e.1, frames_spec(rest));
        assert(b =~= p + f0 + frames_spec(rest));
        let p2 = p + f0;
        assert(p2 + frames_spec(rest) =~= b);
        lemma_frames_read_back(p2, rest);
        let st = frame_starts(b, pos);
        assert(st == seq![pos] + frame_starts(b, p2.len() as int));
        assert forall|i: int, f: Frame| 0 <= i < st.len() && #[trigger] frame_read(b, st[i], f) implies f.meta@
            == es[i].0 && f.record@ == es[i].1 by {
            if i > 0 {
                assert(st[i] == frame_starts(b, p2.len() as int)[i - 1]);
                assert(es[i] == rest[i - 1]);
            }
        }
    }
}

/// A well-formed stream, a header followed by the frames of some entries,
/// scans back to exactly those entries: the frames found after the header are
/// one per entry, in order, each reading back that entry.
pub proof fn lemma_stream_round_trip(es: Seq<(Seq<u8>, Seq<u8>)>)
    requires
        entries_fit(es),
    ensures
        ({
            let b = header_spec() + frames_spec(es);
            let st = frame_starts(b, HEADER_LEN as int);
            &&& header_ok(b)
            &&& st.len() == es.len()
            &&& forall|i: int, f: Frame|
                0 <= i < st.len() && #[trigger] frame_read(b, st[i], f) ==> f.meta@ == es[i].0 && f.record@
                    == es[i].1
        }),
{
    let b = header_spec() + frames_spec(es);
    assert(header_spec().len() == 12);
    assert(b.subrange(0, 12) =~= header_spec());
    lemma_frames_read_back(header_spec(), es);
}

/// Appending bytes to a stream keeps what it scanned: the frames found from
/// `pos` in `b` are the first frames found from `pos` in `b + c`, at the same
/// offsets and reading the same.
pub proof fn lemma_scan_prefix(b: Seq<u8>, c: Seq<u8>, pos: int)
    requires
        0 <= pos,
    ensures
        header_ok(b) ==> header_ok(b + c),
        frame_starts(b, pos).len() <= frame_starts(b + c, pos).len(),
        forall|i: int|
            0 <= i < frame_starts(b, pos).len() ==> #[trigger] frame_starts(b, pos)[i] == frame_starts(b + c, pos)[i],
        forall|i: int, f: Frame|
            0 <= i < frame_starts(b, pos).len() && #[trigger] frame_read(b, frame_starts(b, pos)[i], f)
                ==> frame_read(b + c, frame_starts(b, pos)[i], f),
    decreases b.len() - pos,
{
    let bc = b + c;
    if header_ok(b) {
        assert(bc.subrange(0, 12) =~= b.subrange(0, 12));
    }
    if frame_ok(b, pos) {
        let rl = region_len_at(b, pos);
        assert forall|k: int| 0 <= k < b.len() implies bc[k] == b[k] by {}
        assert(le32(bc, pos) == le32(b, pos));
        assert(le32(bc, pos + 4) == le32(b, pos + 4));
        assert(le32(bc, pos + 4 + rl) == le32(b, pos + 4 + rl));
        assert(bc.subrange(pos + 4, pos + 4 + rl) =~= b.subrange(pos + 4, pos + 4 + rl));
        assert(frame_ok(bc, pos));
        let e = frame_end(b, pos);
        assert(frame_end(bc, pos) == e);
        lemma_scan_prefix(b, c, e);
        let sb = frame_starts(b, pos);
        let sbc = frame_starts(bc, pos);
        assert(sb == seq![pos] + frame_starts(b, e));
        assert(sbc == seq![pos] + frame_starts(bc, e));
        assert forall|i: int| 0 <= i < sb.len() implies #[trigger] sb[i] == sbc[i] by {
            if i > 0 {
                assert(sb[i] == frame_starts(b, e)[i - 1]);
                assert(sbc[i] == frame_starts(bc, e)[i - 1]);
            }
        }
        assert forall|i: int, f: Frame| 0 <= i < sb.len() && #[trigger] frame_read(b, sb[i], f) implies frame_read(
            bc,
            sb[i],
            f,
        ) by {
            if i == 0 {
                let ml = le32(b, pos + 4);
                assert(bc.subrange(pos + 8, pos + 8 + ml) =~= b.subrange(pos + 8, pos + 8 + ml));
                assert(bc.subrange(pos + 8 + ml, pos + 4 + rl) =~= b.subrange(pos + 8 + ml, pos + 4 + rl));
            } else {
                assert(sb[i] == frame_starts(b, e)[i - 1]);
            }
        }
    } else {
        assert(frame_starts(b, pos) =~= Seq::<int>::empty());
    }
}

/// Whether the stream starts with a valid header.
fn check_header(bytes: &[u8]) -> (r: bool)
    ensures
        r == header_ok(bytes@),
{
    if bytes.len() < 12 {
        return false;
    }
    let ok = bytes[0] == 69u8 && bytes[1] == 78u8 && bytes[2] == 71u8 && bytes[3] == 82u8
        && bytes[4] == 77u8 && bytes[5] == 87u8 && bytes[6] == 65u8 && bytes[7] == 76u8
        && read_le32(bytes, 8) == FORMAT_VERSION;
    proof {
        let h = header_spec();
        lemma_le32_round_trip(FORMAT_VERSION);
        if ok {
            assert(bytes@.subrange(8, 12) =~= le32_bytes(FORMAT_VERSION)) by {
                let v = le32(bytes@, 8);
                assert(v == 1);
            }
            assert(bytes@.subrange(0, 12) =~= h);
        }
        if header_ok(bytes@) {
            assert(bytes@[0] == h[0]);
            assert(bytes@[1] == h[1]);
            assert(bytes@[2] == h[2]);
            assert(bytes@[3] == h[3]);
            assert(bytes@[4] == h[4]);
            assert(bytes@[5] == h[5]);
            assert(bytes@[6] == h[6]);
            assert(bytes@[7] == h[7]);
            assert(bytes@[8] == h[8]);
            assert(bytes@[9] == h[9]);
            assert(bytes@[10] == h[10]);
            assert(bytes@[11] == h[11]);
        }
    }
    ok
}

/// Scan a byte stream for frames: after a valid header, every consecutive valid
/// frame up to the first torn or corrupt one (metadata not yet decoded). Never
/// fails on arbitrary input.
pub fn scan_frames(bytes: &[u8]) -> (r: (Vec<Frame>, bool))
    ensures
        r.1 == header_ok(bytes@),
        !r.1 ==> r.0@.len() == 0,
        r.1 ==> r.0@.len() == frame_starts(bytes@, HEADER_LEN as int).len(),
        r.1 ==> forall|i: int|
            0 <= i < r.0@.len() ==> frame_read(
                bytes@,
                frame_starts(bytes@, HEADER_LEN as int)[i],
                #[trigger] r.0@[i],
            ),
{
    let mut frames: Vec<Frame> = Vec::new();
    if !check_header(bytes) {
        return (frames, false);
    }
    let ghost b = bytes@;
    let ghost mut done: Seq<int> = Seq::empty();
    let mut pos: usize = 12;
    loop
        invariant_except_break
            12 <= pos <= b.len(),
            b == bytes@,
            frame_starts(b, 12) == done + frame_starts(b, pos as int),
            frames@.len() == done.len(),
            forall|i: int| 0 <= i < frames@.len() ==> frame_read(b, done[i], #[trigger] frames@[i]),
        ensures
            frame_starts(b, 12) == done,
            frames@.len() == done.len(),
            forall|i: int| 0 <= i < frames@.len() ==> frame_read(b, done[i], #[trigger] frames@[i]),
        decreases b.len() - pos,
    {
        if bytes.len() - pos < 4 {
            assert(frame_starts(b, pos as int) =~= Seq::<int>::empty());
            assert(done + Seq::<int>::empty() =~= done);
            break;
        }
        let rl = read_le32(bytes, pos);
        if rl < 4 || rl > MAX_REGION_LEN || (rl as usize) + 4 > bytes.len() - pos - 4 {
            assert(frame_starts(b, pos as int) =~= Seq::<int>::empty());
            assert(done + Seq::<int>::empty() =~= done);
            break;
        }
        let rl_u = rl as usize;
        let region = vstd::slice::slice_subrange(bytes, pos + 4, pos + 4 + rl_u);
        let crc = read_le32(bytes, pos + 4 + rl_u);
        let ml = read_le32(bytes, pos + 4);
        if crc32_of(region) != crc || ml > rl - 4 {
            assert(frame_starts(b, pos as int) =~= Seq::<int>::empty());
            assert(done + Seq::<int>::empty() =~= done);
            break;
        }
        let ml_u = ml as usize;
        let meta = vstd::slice::slice_to_vec(
            vstd::slice::slice_subrange(bytes, pos + 8, pos + 8 + ml_u),
        );
        let record = vstd::slice::slice_to_vec(
            vstd::slice::slice_subrange(bytes, pos + 8 + ml_u, pos + 4 + rl_u),
        );
        let end = pos + 8 + rl_u;
        let f = Frame { meta, record, checksum: crc, end: end as u64 };
        proof {
            assert(frame_ok(b, pos as int));
            assert(frame_read(b, pos as int, f));
            assert(frame_starts(b, pos as int) == seq![pos as int] + frame_starts(b, end as int));
            assert(done + frame_starts(b, pos as int) =~= done.push(pos as int) + frame_starts(
                b,
                end as int,
            ));
            done = done.push(pos as int);
        }
        frames.push(f);
        pos = end;
    }
    (frames, true)
}

/// The number of leading frames whose metadata decoded.
pub open spec fn decoded_count(metas: Seq<Option<WalMeta>>) -> int
    decreases metas.len(),
{
    if metas.len() == 0 {
        0
    } else if metas[0] is None {
        0
    } else {
        1 + decoded_count(metas.drop_first())
    }
}

/// The entry a frame and its decoded metadata make.
pub open spec fn entry_of(f: Frame, m: WalMeta) -> EntryView {
    EntryView { lsn: m.lsn, tx_id: m.tx_id, op: m.op, record: f.record@, checksum: f.checksum }
}

/// Turn scanned frames, with the result of decoding each one's metadata, into
/// the entries of the valid prefix: the log ends at the first frame whose
/// metadata did not decode.
pub fn decoded_prefix(frames: &Vec<Frame>, metas: &Vec<Option<WalMeta>>, header: bool) -> (r: Scan)
    requires
        metas@.len() == frames@.len(),
        !header ==> frames@.len() == 0,
    ensures
        r.entries@.len() == decoded_count(metas@),
        forall|j: int|
            0 <= j < r.entries@.len() ==> (#[trigger] r.entries@[j])@ == entry_of(
                frames@[j],
                metas@[j]->0,
            ),
        r.valid_len == if r.entries@.len() == 0 {
            if header {
                HEADER_LEN
            } else {
                0
            }
        } else {
            frames@[r.entries@.len() - 1].end
        },
{
    let mut entries: Vec<WalEntry> = Vec::new();
    let mut valid_len: u64 = if header {
        HEADER_LEN
    } else {
        0
    };
    let mut k: usize = 0;
    proof {
        lemma_decoded_count_bound(metas@);
    }
    while k < frames.len() && metas[k].is_some()
        invariant
            k <= frames@.len(),
            metas@.len() == frames@.len(),
            entries@.len() == k,
            decoded_count(metas@) <= metas@.len(),
            forall|j: int| 0 <= j < k ==> metas@[j] is Some,
            decoded_count(metas@) == k + decoded_count(metas@.skip(k as int)),
            forall|j: int|
                0 <= j < k ==> (#[trigger] entries@[j])@ == entry_of(frames@[j], metas@[j]->0),
            valid_len == if k == 0 {
                if header {
                    HEADER_LEN
                } else {
                    0
                }
            } else {
                frames@[k - 1].end
            },
        decreases frames@.len() - k,
    {
        match metas[k] {
            None => {},
            Some(m) => {
                let f = &frames[k];
                entries.push(
                    WalEntry {
                        lsn: m.lsn,
                        tx_id: m.tx_id,
                        op: m.op,
                        record: vstd::slice::slice_to_vec(f.record.as_slice()),
                        checksum: f.checksum,
                    },
                );
                valid_len = f.end;
                proof {
                    assert(metas@.skip(k as int).drop_first() =~= metas@.skip(k + 1));
                }
                k = k + 1;
            },
        }
    }
    proof {
        if k == frames@.len() {
            assert(metas@.skip(k as int) =~= Seq::<Option<WalMeta>>::empty());
        } else {
            assert(metas@.skip(k as int)[0] is None);
        }
    }
    Scan { entries, valid_len }
}

proof fn lemma_decoded_count_bound(metas: Seq<Option<WalMeta>>)
    ensures
        0 <= decoded_count(metas) <= metas.len(),
        decoded_count(metas) == 0 + decoded_count(metas.skip(0)),
    decreases metas.len(),
{
    assert(metas.skip(0) =~= metas);
    if metas.len() > 0 && metas[0] is Some {
        lemma_decoded_count_bound(metas.drop_first());
    }
}

/// `c` is a commit of `e`'s transaction at a strictly greater LSN.
pub open spec fn commits(c: EntryView, e: EntryView) -> bool {
    c.op == WalOp::Commit && c.tx_id == e.tx_id && c.lsn > e.lsn
}

/// A data entry whose transaction commits later in the log.
pub open spec fn committed(all: Seq<EntryView>, e: EntryView) -> bool {
    &&& op_is_data(e.op)
    &&& exists|j: int| 0 <= j < all.len() && commits(#[trigger] all[j], e)
}

/// The redo set among the first `n` entries: the committed data entries, in
/// log order.
pub open spec fn redo(all: Seq<EntryView>, n: int) -> Seq<EntryView>
    decreases n,
{
    if n <= 0 {
        Seq::empty()
    } else {
        redo(all, n - 1) + if committed(all, all[n - 1]) {
            seq![all[n - 1]]
        } else {
            Seq::empty()
        }
    }
}

/// One past the highest LSN among the first `n` entries (0 if none).
pub open spec fn next_lsn_spec(all: Seq<EntryView>, n: int) -> int
    decreases n,
{
    if n <= 0 {
        0
    } else {
        let m = next_lsn_spec(all, n - 1);
        if all[n - 1].lsn + 1 > m {
            all[n - 1].lsn + 1
        } else {
            m
        }
    }
}

/// The highest transaction id among the first `n` entries (0 if none).
pub open spec fn max_tx_spec(all: Seq<EntryView>, n: int) -> int
    decreases n,
{
    if n <= 0 {
        0
    } else {
        let m = max_tx_spec(all, n - 1);
        if all[n - 1].tx_id > m {
            all[n - 1].tx_id as int
        } else {
            m
        }
    }
}

/// The latest commit LSN of each transaction among the first `n` entries.
spec fn commit_lsns(all: Seq<EntryView>, n: int) -> Map<u64, u64>
    decreases n,
{
    if n <= 0 {
        Map::empty()
    } else {
        let m = commit_lsns(all, n - 1);
        let c = all[n - 1];
        if c.op == WalOp::Commit && !(m.contains_key(c.tx_id) && m[c.tx_id] >= c.lsn) {
            m.insert(c.tx_id, c.lsn)
        } else {
            m
        }
    }
}

/// A transaction has a commit after `e` among the first `n` entries exactly when
/// its latest commit LSN there is above `e`'s LSN.
proof fn lemma_commit_lsns(all: Seq<EntryView>, n: int, e: EntryView)
    requires
        0 <= n <= all.len(),
    ensures
        (exists|j: int| 0 <= j < n && commits(#[trigger] all[j], e)) <==> (commit_lsns(all, n).contains_key(
            e.tx_id,
        ) && commit_lsns(all, n)[e.tx_id] > e.lsn),
    decreases n,
{
    if n > 0 {
        lemma_commit_lsns(all, n - 1, e);
        let c = all[n - 1];
        if exists|j: int| 0 <= j < n - 1 && commits(#[trigger] all[j], e) {
            let j = choose|j: int| 0 <= j < n - 1 && commits(#[trigger] all[j], e);
            assert(0 <= j < n && commits(all[j], e));
        }
        if commits(c, e) {
            assert(0 <= n - 1 < n && commits(all[n - 1], e));
        }
        if exists|j: int| 0 <= j < n && commits(#[trigger] all[j], e) {
            let j = choose|j: int| 0 <= j < n && commits(#[trigger] all[j], e);
            if j < n - 1 {
                assert(0 <= j < n - 1 && commits(all[j], e));
            }
        }
    }
}

/// The largest LSN a valid log may hold: one past it must still be an LSN.
pub open spec fn lsns_bounded(entries: Seq<WalEntry>) -> bool {
    forall|i: int| 0 <= i < entries.len() ==> (#[trigger] entries[i]).lsn < u64::MAX
}

/// One past the highest LSN of the entries (0 if there are none).
pub fn next_lsn_of(entries: &Vec<WalEntry>) -> (n: u64)
    requires
        lsns_bounded(entries@),
    ensures
        n == next_lsn_spec(entry_views(entries@), entries@.len() as int),
{
    let ghost all = entry_views(entries@);
    let mut next: u64 = 0;
    let mut i: usize = 0;
    while i < entries.len()
        invariant
            i <= entries@.len(),
            all == entry_views(entries@),
            lsns_bounded(entries@),
            next == next_lsn_spec(all, i as int),
        decreases entries@.len() - i,
    {
        let l = entries[i].lsn;
        assert(all[i as int].lsn == l);
        if l + 1 > next {
            next = l + 1;
        }
        i = i + 1;
    }
    next
}

/// Replay a scanned log: the committed redo set (a data entry counts only if
/// its transaction has a `Commit` at a strictly greater LSN), the next LSN, the
/// valid length and the highest transaction id seen.
pub fn recover_scan(scan: &Scan) -> (r: Recovered)
    requires
        lsns_bounded(scan.entries@),
    ensures
        entry_views(r.entries@) == redo(entry_views(scan.entries@), scan.entries@.len() as int),
        r.next_lsn == next_lsn_spec(entry_views(scan.entries@), scan.entries@.len() as int),
        r.valid_len == scan.valid_len,
        r.max_tx_id == max_tx_spec(entry_views(scan.entries@), scan.entries@.len() as int),
{
    let ghost all = entry_views(scan.entries@);
    let entries = &scan.entries;
    let mut commit_lsn: HashMap<u64, u64> = HashMap::new();
    let mut max_tx: u64 = 0;
    let mut i: usize = 0;
    while i < entries.len()
        invariant
            i <= entries@.len(),
            all == entry_views(entries@),
            commit_lsn@ == commit_lsns(all, i as int),
            max_tx == max_tx_spec(all, i as int),
        decreases entries@.len() - i,
    {
        let e = &entries[i];
        assert(all[i as int] == e@);
        if e.op == WalOp::Commit {
            let keep = match commit_lsn.get(&e.tx_id) {
                Some(c) => *c >= e.lsn,
                None => false,
            };
            if !keep {
                commit_lsn.insert(e.tx_id, e.lsn);
            }
        }
        if e.tx_id > max_tx {
            max_tx = e.tx_id;
        }
        i = i + 1;
    }
    let mut redo_set: Vec<WalEntry> = Vec::new();
    let mut j: usize = 0;
    while j < entries.len()
        invariant
            j <= entries@.len(),
            all == entry_views(entries@),
            commit_lsn@ == commit_lsns(all, all.len() as int),
            entry_views(redo_set@) == redo(all, j as int),
        decreases entries@.len() - j,
    {
        let e = &entries[j];
        proof {
            assert(all[j as int] == e@);
            lemma_commit_lsns(all, all.len() as int, e@);
        }
        let is_committed = e.op.is_data() && match commit_lsn.get(&e.tx_id) {
            Some(c) => *c > e.lsn,
            None => false,
        };
        let ghost before = redo_set@;
        if is_committed {
            redo_set.push(
                WalEntry {
                    lsn: e.lsn,
                    tx_id: e.tx_id,
                    op: e.op,
                    record: vstd::slice::slice_to_vec(e.record.as_slice()),
                    checksum: e.checksum,
                },
            );
        }
        proof {
            assert(entry_views(redo_set@) =~= redo(all, j + 1));
        }
        j = j + 1;
    }
    let next_lsn = next_lsn_of(entries);
    Recovered { entries: redo_set, next_lsn, valid_len: scan.valid_len, max_tx_id: max_tx }
}

/// The entries among the first `n` that a compaction up to `up_to` keeps: those
/// with a greater LSN, in log order.
pub open spec fn retained_spec(all: Seq<EntryView>, up_to: u64, n: int) -> Seq<EntryView>
    decreases n,
{
    if n <= 0 {
        Seq::empty()
    } else {
        retained_spec(all, up_to, n - 1) + if all[n - 1].lsn > up_to {
            seq![all[n - 1]]
        } else {
            Seq::empty()
        }
    }
}

/// The entries a compaction keeps: every valid entry with `lsn > up_to_lsn`, in
/// log order (the rest is assumed durable elsewhere).
pub fn retained(entries: &Vec<WalEntry>, up_to_lsn: u64) -> (r: Vec<WalEntry>)
    ensures
        entry_views(r@) == retained_spec(entry_views(entries@), up_to_lsn, entries@.len() as int),
{
    let ghost all = entry_views(entries@);
    let mut keep: Vec<WalEntry> = Vec::new();
    let mut j: usize = 0;
    while j < entries.len()
        invariant
            j <= entries@.len(),
            all == entry_views(entries@),
            entry_views(keep@) == retained_spec(all, up_to_lsn, j as int),
        decreases entries@.len() - j,
    {
        let e = &entries[j];
        assert(all[j as int] == e@);
        if e.lsn > up_to_lsn {
            keep.push(
                WalEntry {
                    lsn: e.lsn,
                    tx_id: e.tx_id,
                    op: e.op,
                    record: vstd::slice::slice_to_vec(e.record.as_slice()),
                    checksum: e.checksum,
                },
            );
        }
        assert(entry_views(keep@) =~= retained_spec(all, up_to_lsn, j + 1));
        j = j + 1;
    }
    keep
}

} // verus!
