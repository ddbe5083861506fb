use cubes::network::{announce_step, Announce};
use cubes::flight_target::{Indicator, FLAGS};
use cubes::hud::{status_text, write_count};
use cubes::network::{accept_chunk, packet, payload, CHUNK, CHUNK_BYTES, MAGIC};
use cubes::network::{Step, Transfer, WINDOW, WINDOW_ATTEMPTS};

/// A gallery chunk of `source` for revision `revision`.
fn slide_chunk(revision: u32, chunk: u16, source: &[u8]) -> Option<Vec<u8>> {
    let start = chunk as usize * CHUNK_BYTES;
    if start >= source.len() {
        return None;
    }
    let end = (start + CHUNK_BYTES).min(source.len());
    let mut body = revision.to_le_bytes().to_vec();
    body.extend_from_slice(&chunk.to_le_bytes());
    body.extend_from_slice(&source[start..end]);
    Some(packet(CHUNK, &body))
}

#[test]
fn manifest_bounds_and_short_chunk_lengths_are_checked() {
    let source = vec![5; CHUNK_BYTES + 7];
    let mut output = vec![0; source.len()];
    let mut received = vec![false; 2];
    let valid = slide_chunk(1, 1, &source).unwrap();
    let mut body = payload(&valid, CHUNK).unwrap().to_vec();
    body.pop();
    assert!(!accept_chunk(&packet(CHUNK, &body), 1, &mut output, &mut received));
    assert!(accept_chunk(&valid, 1, &mut output, &mut received));
}

#[test]
fn packets_frame_the_body_and_payload_checks_every_header_field() {
    let p = packet(0x42, &[7, 8, 9]);
    assert_eq!(&p[..4], &MAGIC);
    assert_eq!(&p[4..], &[1, 0x42, 3, 0, 7, 8, 9]);
    assert_eq!(payload(&p, 0x42), Some(&[7u8, 8, 9][..]));
    assert_eq!(payload(&p, 0x43), None);
    let mut short = p.clone();
    short.pop();
    assert_eq!(payload(&short, 0x42), None);
    let mut version = p.clone();
    version[4] = 2;
    assert_eq!(payload(&version, 0x42), None);
    let mut magic = p.clone();
    magic[0] ^= 1;
    assert_eq!(payload(&magic, 0x42), None);
    assert_eq!(payload(&p[..7], 0x42), None);
    let big = packet(1, &vec![0; 300]);
    assert_eq!((big[6], big[7]), (44, 1));
    assert_eq!(payload(&big, 1).map(|b| b.len()), Some(300));
}

#[test]
fn counts_are_zero_padded_and_capped_at_four_digits() {
    let mut out = [0u8; 4];
    write_count(&mut out, 7);
    assert_eq!(&out, b"0007");
    write_count(&mut out, 12345);
    assert_eq!(&out, b"9999");
    let mut two = [0u8; 2];
    write_count(&mut two, 345);
    assert_eq!(&two, b"45");
    assert_eq!(&status_text(12, 0, 10000), b"M9 E0000 U9999");
}

#[test]
fn indicator_flags_carry_the_theme_until_cleared() {
    let mut i = Indicator::default();
    assert_eq!(i.flags(), None);
    i.retarget(300, Some(4));
    assert_eq!(i.flags(), Some(FLAGS | 4));
    assert_eq!(i.started(), 300);
    assert_eq!(i.material(), Some(4));
    i.retarget(400, None);
    assert_eq!(i.flags(), None);
    assert_eq!(i.started(), 400);
    i.retarget(500, Some(1));
    i.clear();
    assert_eq!(i.flags(), None);
    assert_eq!(i.started(), 0);
}

fn world_chunk(world_id: u8, index: u16, count: u16, source: &[u8]) -> Vec<u8> {
    let start = index as usize * CHUNK_BYTES;
    let end = (start + CHUNK_BYTES).min(source.len());
    let mut body = vec![world_id];
    body.extend_from_slice(&index.to_le_bytes());
    body.extend_from_slice(&count.to_le_bytes());
    body.extend_from_slice(&source[start..end]);
    packet(cubes::network::WORLD_CHUNK, &body)
}

#[test]
fn transfers_request_one_window_at_a_time_and_give_up_after_eight_rounds() {
    let source: Vec<u8> = (0..CHUNK_BYTES * 33 + 10).map(|i| (i % 253) as u8).collect();
    let mut encoded = vec![0; source.len()];
    let mut t = Transfer::new(source.len());
    assert_eq!(t.chunks(), 34);
    match t.next() {
        Step::Request(ids) => assert_eq!(ids, (0..WINDOW as u16).collect::<Vec<_>>()),
        _ => panic!("first window"),
    }
    for i in 0..WINDOW as u16 {
        assert!(t.accept_world(&world_chunk(2, i, 34, &source), 2, &mut encoded));
    }
    assert!(t.window_complete());
    // Duplicates and chunks of another world change nothing.
    assert!(!t.accept_world(&world_chunk(2, 0, 34, &source), 2, &mut encoded));
    assert!(!t.accept_world(&world_chunk(1, 33, 34, &source), 2, &mut encoded));
    match t.next() {
        Step::Request(ids) => assert_eq!(ids, vec![32, 33]),
        _ => panic!("second window"),
    }
    assert!(t.accept_world(&world_chunk(2, 32, 34, &source), 2, &mut encoded));
    for _ in 1..WINDOW_ATTEMPTS {
        match t.next() {
            Step::Request(ids) => assert_eq!(ids, vec![33]),
            _ => panic!("retry"),
        }
    }
    assert!(matches!(t.next(), Step::Failed));
}

#[test]
fn transfers_finish_once_every_chunk_has_arrived() {
    let source: Vec<u8> = (0..CHUNK_BYTES * 2 + 1).map(|i| (i % 7) as u8).collect();
    let mut encoded = vec![0; source.len()];
    let mut t = Transfer::new(source.len());
    assert!(matches!(t.next(), Step::Request(_)));
    for i in [2u16, 0, 1] {
        assert!(t.accept_world(&world_chunk(5, i, 3, &source), 5, &mut encoded));
    }
    assert!(matches!(t.next(), Step::Done));
    assert_eq!(encoded, source);
    assert!((0..3).all(|i| t.has(i)));
}

#[test]
fn announcements_download_new_revisions_and_give_up_after_ten_misses() {
    assert_eq!(announce_step(0, None, None), Announce::Missed(1));
    assert_eq!(announce_step(8, None, None), Announce::Missed(9));
    assert_eq!(announce_step(9, Some(3), None), Announce::Unavailable);
    assert_eq!(announce_step(9, Some(3), Some((3, 100))), Announce::Current);
    assert_eq!(announce_step(0, Some(3), Some((4, 100))), Announce::Download { revision: 4, len: 100 });
    assert_eq!(announce_step(0, None, Some((3, 7))), Announce::Download { revision: 3, len: 7 });
}
