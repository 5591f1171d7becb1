//! The capture ring and the walk over a snapshot of it.

use backbeat::ring::{walk, walk_indexed, Ring, LEN_SUFFIX};
use bytes::Bytes;

fn snapshot(ring: &Ring) -> (Vec<u8>, usize) {
    let mut region = vec![0u8; ring.capacity()];
    let head = ring.snapshot_into(&mut region);
    (region, head)
}

fn u64s(found: &[Bytes]) -> Vec<u64> {
    found
        .iter()
        .map(|p| u64::from_le_bytes(p[..].try_into().unwrap()))
        .collect()
}

#[test]
fn round_trips_newest_first() {
    let mut ring = Ring::new(4096);
    for i in 0u32..5 {
        ring.push(&i.to_le_bytes());
    }
    let (region, head) = snapshot(&ring);
    let region = Bytes::from(region);
    // Validator: a real record here is exactly 4 bytes. Accept it.
    let found = walk(&region, head, ring.capacity(), |p: &[u8]| p.len() == 4);
    let got: Vec<u32> = found
        .iter()
        .map(|p| u32::from_le_bytes(p[..].try_into().unwrap()))
        .collect();
    // newest-first
    assert_eq!(got, [4, 3, 2, 1, 0]);
}

#[test]
fn capacity_rounds_up_to_pow2() {
    assert_eq!(Ring::new(1000).capacity(), 1024);
    assert_eq!(Ring::new(4096).capacity(), 4096);
}

#[test]
fn wrapping_keeps_newest_records() {
    // Tiny ring so older records get overwritten; the walk must still recover the newest run.
    let mut ring = Ring::new(64);
    for i in 0u64..100 {
        ring.push(&i.to_le_bytes());
    }
    let (region, head) = snapshot(&ring);
    let region = Bytes::from(region);
    let got = u64s(&walk(&region, head, ring.capacity(), |p: &[u8]| p.len() == 8));
    assert!(!got.is_empty());
    // Newest first, contiguous, and the very newest is 99.
    assert_eq!(got[0], 99);
    for w in got.windows(2) {
        assert_eq!(w[0], w[1] + 1);
    }
}

#[test]
fn every_whole_record_is_recovered() {
    // Ten bytes each: six whole records fit into 64.
    let mut ring = Ring::new(64);
    for i in 0u64..100 {
        ring.push(&i.to_le_bytes());
    }
    let (region, head) = snapshot(&ring);
    let region = Bytes::from(region);
    let got = u64s(&walk(&region, head, ring.capacity(), |p: &[u8]| p.len() == 8));
    assert_eq!(got, [99, 98, 97, 96, 95, 94]);
}

#[test]
fn resyncs_past_a_torn_head_record() {
    // Records carry a 4-byte tag so the validator can recognize a real record and reject garbage.
    // We corrupt the bytes just behind the head (an in-flight write) and assert the walk still
    // recovers every older record rather than bailing at the first anomaly.
    let mut ring = Ring::new(4096);
    for i in 0u32..6 {
        // payload = [0xED, 0xED, 0xED, 0xED][i as le u32]
        let mut p = [0xEDu8; 8];
        p[4..].copy_from_slice(&i.to_le_bytes());
        ring.push(&p);
    }
    let (mut region, head) = snapshot(&ring);

    // Simulate a torn in-flight record: scribble over exactly the head record (8-byte payload +
    // 2-byte suffix = 10 bytes) so only the newest record is corrupted.
    let begin = head.saturating_sub(8 + LEN_SUFFIX);
    for b in &mut region[begin..head] {
        *b = 0x77;
    }
    let region = Bytes::from(region);

    // Validator: a real record is 8 bytes tagged with four 0xED bytes.
    let found = walk(&region, head, ring.capacity(), |p: &[u8]| {
        p.len() == 8 && p[..4] == [0xED; 4]
    });
    let got: Vec<u32> = found
        .iter()
        .map(|p| u32::from_le_bytes(p[4..].try_into().unwrap()))
        .collect();

    // The newest (record 5) was torn, but every record behind it is recovered, newest-first.
    assert_eq!(got, [4, 3, 2, 1, 0]);
}

#[test]
fn recovers_a_record_that_wraps_the_boundary() {
    // Push records until at least one straddles the physical ring boundary, then assert the walk
    // reconstructs it correctly (the one allocating path) alongside the zero-copy ones.
    let mut ring = Ring::new(64);
    for i in 0u64..20 {
        ring.push(&i.to_le_bytes());
    }
    let (region, head) = snapshot(&ring);
    let region = Bytes::from(region);

    let got = u64s(&walk(&region, head, ring.capacity(), |p: &[u8]| p.len() == 8));
    // Newest is 19, contiguous and decreasing — proving the wrapped record decoded right.
    assert_eq!(got[0], 19);
    for w in got.windows(2) {
        assert_eq!(w[0], w[1] + 1);
    }
}

#[test]
fn indexed_walk_tells_where_the_records_are() {
    let mut ring = Ring::new(64);
    for i in 0u64..20 {
        ring.push(&i.to_le_bytes());
    }
    let (region, head) = snapshot(&ring);
    let region = Bytes::from(region);
    let found = walk_indexed(&region, head, ring.capacity(), |p: &[u8]| p.len() == 8);
    // 20 records of 10 bytes end at 200: the payload of the newest begins at 190 % 64 = 62 and
    // wraps; the one before it begins at 180 % 64 = 52.
    assert_eq!(found[0].offset, None);
    assert_eq!(found[1].offset, Some(52));
    assert_eq!(found.iter().filter(|w| w.offset.is_none()).count(), 1);
    for w in &found {
        if let Some(at) = w.offset {
            assert_eq!(&region[at..at + 8], &w.payload[..]);
        }
    }
}

#[test]
fn empty_rings_hold_no_record() {
    let ring = Ring::new(64);
    let (region, head) = snapshot(&ring);
    assert_eq!(head, 0);
    assert!(walk(&Bytes::from(region), head, 64, |_p: &[u8]| true).is_empty());
}

#[test]
fn parts_are_one_record() {
    let mut whole = Ring::new(256);
    let mut parts = Ring::new(256);
    let a = whole.push(&[1, 2, 3, 4, 5]);
    let b = parts.push_parts(&[&[1, 2], &[], &[3, 4, 5]]);
    assert_eq!(a, b);
    assert_eq!(whole.head(), 7);
    assert_eq!(snapshot(&whole), snapshot(&parts));
    // Also without any part or byte, and over the end of the region.
    assert_eq!(whole.push(&[]), parts.push_parts(&[]));
    assert_eq!(whole.push(&[]), parts.push_parts(&[&[], &[]]));
    for n in 0u8..40 {
        let a = whole.push(&[n, 2, 3, 4, 5, 6, 7, 8, 9]);
        let b = parts.push_parts(&[&[], &[n, 2, 3], &[4], &[5, 6, 7, 8, 9], &[]]);
        assert_eq!(a, b);
        assert_eq!(whole.head(), parts.head());
        assert_eq!(snapshot(&whole), snapshot(&parts));
    }
}
