//! The write-ahead log's framing and recovery rules, on in-memory byte streams.

use engram::base::codec::RecordKind;
use engram::storage::wal::{
    build_region, decoded_prefix, frame_bytes, header_bytes, recover_scan, retained, scan_frames,
    Recovered, Scan, WalMeta, WalOp, HEADER_LEN,
};

const K: RecordKind = RecordKind::Episodic;

/// A log of entries: the bytes, with the metadata each frame stands for (the
/// metadata bytes themselves are an opaque tag here).
fn log(entries: &[(u64, u64, WalOp, &[u8])]) -> (Vec<u8>, Vec<WalMeta>) {
    let mut bytes = header_bytes();
    let mut metas = Vec::new();
    for (lsn, tx_id, op, record) in entries {
        let tag = lsn.to_le_bytes();
        bytes.extend_from_slice(&frame_bytes(&build_region(&tag, record)));
        metas.push(WalMeta { lsn: *lsn, tx_id: *tx_id, op: *op });
    }
    (bytes, metas)
}

/// Scan `bytes`, decoding each frame's metadata from `metas` by position.
fn scan(bytes: &[u8], metas: &[WalMeta]) -> Scan {
    let (frames, header) = scan_frames(bytes);
    let decoded: Vec<Option<WalMeta>> = (0..frames.len()).map(|i| metas.get(i).copied()).collect();
    decoded_prefix(&frames, &decoded, header)
}

fn recover(bytes: &[u8], metas: &[WalMeta]) -> Recovered {
    recover_scan(&scan(bytes, metas))
}

#[test]
fn empty_and_garbage_streams_never_panic() {
    assert!(scan_frames(&[]).0.is_empty());
    assert!(scan_frames(b"not a wal at all").0.is_empty());
    assert!(scan_frames(b"ENGRMWAL").0.is_empty());
    let mut bytes = header_bytes();
    bytes.extend_from_slice(&1_000_000u32.to_le_bytes());
    bytes.extend_from_slice(b"short");
    assert!(scan_frames(&bytes).0.is_empty());
}

#[test]
fn header_is_magic_then_version() {
    let h = header_bytes();
    assert_eq!(h.len() as u64, HEADER_LEN);
    assert_eq!(&h[..8], b"ENGRMWAL");
    assert_eq!(&h[8..], &1u32.to_le_bytes());
    let (frames, ok) = scan_frames(&h);
    assert!(ok && frames.is_empty());
    assert_eq!(scan(&h, &[]).valid_len, HEADER_LEN);
    assert_eq!(scan(&[], &[]).valid_len, 0);
}

#[test]
fn frame_layout_is_length_region_crc() {
    let region = build_region(b"m", b"rec");
    assert_eq!(region, [&1u32.to_le_bytes()[..], b"m", b"rec"].concat());
    let frame = frame_bytes(&region);
    assert_eq!(&frame[..4], &(region.len() as u32).to_le_bytes());
    assert_eq!(&frame[4..4 + region.len()], &region[..]);
    // The trailer is the CRC32 (IEEE) of the region.
    assert_eq!(&frame[4 + region.len()..], &crc32fast::hash(&region).to_le_bytes());
    // A frame round-trips through the scanner.
    let mut bytes = header_bytes();
    bytes.extend_from_slice(&frame);
    let (frames, ok) = scan_frames(&bytes);
    assert!(ok);
    assert_eq!(frames.len(), 1);
    assert_eq!(frames[0].meta, b"m");
    assert_eq!(frames[0].record, b"rec");
    assert_eq!(frames[0].end, bytes.len() as u64);
}

#[test]
fn committed_entries_round_trip() {
    let records: Vec<Vec<u8>> = (0..100).map(|i| format!("rec{i}").into_bytes()).collect();
    let mut entries: Vec<(u64, u64, WalOp, &[u8])> = Vec::new();
    for (i, r) in records.iter().enumerate() {
        entries.push((i as u64, 7, WalOp::Put(K), r));
    }
    entries.push((100, 7, WalOp::Commit, b""));
    let (bytes, metas) = log(&entries);
    let recovered = recover(&bytes, &metas);
    assert_eq!(recovered.entries.len(), 100);
    for (i, e) in recovered.entries.iter().enumerate() {
        assert_eq!(e.lsn, i as u64);
        assert_eq!(e.tx_id, 7);
        assert_eq!(e.op, WalOp::Put(K));
        assert_eq!(e.record, format!("rec{i}").into_bytes());
    }
    assert_eq!(recovered.next_lsn, 101);
    assert_eq!(recovered.valid_len, bytes.len() as u64);
    assert_eq!(recovered.max_tx_id, 7);
}

#[test]
fn reused_tx_id_after_commit_is_not_replayed() {
    let (bytes, metas) = log(&[
        (0, 7, WalOp::Put(K), b"first"),
        (1, 7, WalOp::Commit, b""),
        (2, 7, WalOp::Put(K), b"second"),
    ]);
    let recovered = recover(&bytes, &metas);
    let recs: Vec<&[u8]> = recovered.entries.iter().map(|e| e.record.as_slice()).collect();
    assert_eq!(recs, vec![b"first".as_slice()]);
}

#[test]
fn uncommitted_transaction_is_not_recovered() {
    let (bytes, metas) = log(&[
        (0, 1, WalOp::Put(K), b"committed"),
        (1, 1, WalOp::Commit, b""),
        (2, 2, WalOp::Put(K), b"orphan"),
    ]);
    let recovered = recover(&bytes, &metas);
    assert_eq!(recovered.entries.len(), 1);
    assert_eq!(recovered.entries[0].record, b"committed");
    assert_eq!(recovered.max_tx_id, 2);
}

#[test]
fn torn_tail_is_skipped() {
    let (mut bytes, metas) = log(&[
        (0, 1, WalOp::Put(K), b"a"),
        (1, 1, WalOp::Put(K), b"b"),
        (2, 1, WalOp::Commit, b""),
    ]);
    let good = bytes.len() as u64;
    bytes.extend_from_slice(&64u32.to_le_bytes());
    bytes.extend_from_slice(b"partial");
    let recovered = recover(&bytes, &metas);
    assert_eq!(recovered.entries.len(), 2);
    assert_eq!(recovered.entries[1].record, b"b");
    assert_eq!(recovered.valid_len, good);
}

#[test]
fn crc_corruption_truncates_at_the_bad_frame() {
    let (mut bytes, metas) = log(&[
        (0, 1, WalOp::Put(K), b"first"),
        (1, 1, WalOp::Put(K), b"second"),
        (2, 1, WalOp::Commit, b""),
    ]);
    let idx = HEADER_LEN as usize + 6;
    bytes[idx] ^= 0xFF;
    let recovered = recover(&bytes, &metas);
    assert!(recovered.entries.is_empty());
    assert_eq!(recovered.valid_len, HEADER_LEN);
}

#[test]
fn undecodable_metadata_ends_the_log() {
    let (bytes, metas) = log(&[
        (0, 1, WalOp::Put(K), b"x"),
        (1, 1, WalOp::Commit, b""),
        (2, 2, WalOp::Put(K), b"y"),
        (3, 2, WalOp::Commit, b""),
    ]);
    let (frames, header) = scan_frames(&bytes);
    let mut decoded: Vec<Option<WalMeta>> = metas.iter().copied().map(Some).collect();
    decoded[2] = None;
    let s = decoded_prefix(&frames, &decoded, header);
    assert_eq!(s.entries.len(), 2);
    assert_eq!(s.valid_len, frames[1].end);
    let recovered = recover_scan(&s);
    let recs: Vec<&[u8]> = recovered.entries.iter().map(|e| e.record.as_slice()).collect();
    assert_eq!(recs, vec![b"x".as_slice()]);
}

#[test]
fn compaction_drops_old_entries() {
    let records: Vec<Vec<u8>> = (0..10).map(|i| format!("r{i}").into_bytes()).collect();
    let mut entries: Vec<(u64, u64, WalOp, &[u8])> = Vec::new();
    for (i, r) in records.iter().enumerate() {
        entries.push((i as u64, 1, WalOp::Put(K), r));
    }
    entries.push((10, 1, WalOp::Commit, b""));
    let (bytes, metas) = log(&entries);
    let all = scan(&bytes, &metas);
    let last = 9u64;
    let keep = retained(&all.entries, last - 3);
    assert_eq!(keep.len(), 4);

    // Rewrite the kept entries and recover them.
    let kept: Vec<(u64, u64, WalOp, &[u8])> =
        keep.iter().map(|e| (e.lsn, e.tx_id, e.op, e.record.as_slice())).collect();
    let (bytes2, metas2) = log(&kept);
    let recovered = recover(&bytes2, &metas2);
    let recs: Vec<Vec<u8>> = recovered.entries.iter().map(|e| e.record.clone()).collect();
    assert_eq!(recs, vec![b"r7".to_vec(), b"r8".to_vec(), b"r9".to_vec()]);
    assert_eq!(recovered.next_lsn, 11);
}

#[test]
fn markers_are_not_data() {
    assert!(WalOp::Put(K).is_data());
    assert!(WalOp::Delete(K).is_data());
    assert!(!WalOp::Commit.is_data());
    assert!(!WalOp::Checkpoint.is_data());
}

#[test]
fn a_stream_of_frames_scans_back_entry_by_entry() {
    let records: Vec<Vec<u8>> = (0..20).map(|i| format!("record-{i}").into_bytes()).collect();
    let mut bytes = header_bytes();
    for (i, r) in records.iter().enumerate() {
        let meta = (i as u64).to_le_bytes();
        bytes.extend_from_slice(&frame_bytes(&build_region(&meta, r)));
    }
    let (frames, header) = scan_frames(&bytes);
    assert!(header);
    assert_eq!(frames.len(), records.len());
    for (i, f) in frames.iter().enumerate() {
        assert_eq!(f.meta, (i as u64).to_le_bytes().to_vec());
        assert_eq!(f.record, records[i]);
    }
}

#[test]
fn scanning_a_prefix_gives_a_prefix_of_the_frames() {
    let mut bytes = header_bytes();
    for i in 0..10u64 {
        bytes.extend_from_slice(&frame_bytes(&build_region(&i.to_le_bytes(), b"payload")));
    }
    let (all, _) = scan_frames(&bytes);
    for cut in 0..=bytes.len() {
        let (part, _) = scan_frames(&bytes[..cut]);
        assert!(part.len() <= all.len());
        for (p, a) in part.iter().zip(all.iter()) {
            assert_eq!(p.meta, a.meta);
            assert_eq!(p.record, a.record);
            assert_eq!(p.end, a.end);
        }
    }
}
