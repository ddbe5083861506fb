use cubes::cube_format::{
    cubes, is_portal_marker, Record, portal_marker, records, stride, PortalMarkerKind, PORTAL_MARKER_FIRST,
    PORTAL_MARKER_LAST,
};

fn fixture() -> Vec<u8> {
    let mut b = vec![0; 20];
    b[..4].copy_from_slice(b"CUBE");
    b[4] = 2;
    b[6] = 14;
    b[7] = 12;
    b[8] = 2;
    b[10] = 1;
    b[11] = 4;
    b[19] = 255;
    b[12..16].copy_from_slice(&0.2f32.to_le_bytes());
    for (origin, side, tier, part) in [([-1024i16, 0, 0], 32, 8, 0), ([1000, 0, 0], 2, 2, 11)] {
        let mut r = [0; 12];
        for a in 0..3 {
            r[a * 2..a * 2 + 2].copy_from_slice(&origin[a].to_le_bytes());
        }
        r[6] = side;
        r[8] = part;
        r[9] = tier;
        b.extend_from_slice(&r);
    }
    b
}

#[test]
fn v2_preserves_wide_coordinates_packed_tiers_and_portal_geometry() {
    let b = fixture();
    let r = records(&b);
    assert_eq!(r[0].origin, [-1024, 0, 0]);
    assert_eq!((r[0].side, r[0].tier), (32, 8));
    assert_eq!((r[1].side, r[1].part), (2, 11));
    // The packed 32-wide record unpacks into 4 x 4 x 4 tier-8 cubes.
    assert_eq!(cubes(&b).len(), 65);
}

#[test]
fn v2_portal_markers_are_records_but_not_render_cubes() {
    let mut b = fixture();
    b[8] = 3;
    let mut marker = [0; 12];
    marker[..2].copy_from_slice(&(-1i16).to_le_bytes());
    marker[2..4].copy_from_slice(&(-2i16).to_le_bytes());
    marker[6] = 2;
    marker[8] = PORTAL_MARKER_FIRST;
    marker[9] = 2;
    b.extend_from_slice(&marker);
    assert_eq!(records(&b).len(), 3);
    assert_eq!(cubes(&b).len(), 65);
    assert_eq!(portal_marker(2, PORTAL_MARKER_FIRST), Some((0, PortalMarkerKind::Spawn)));
    assert_eq!(portal_marker(2, PORTAL_MARKER_LAST), Some((6, PortalMarkerKind::Forward)));
    assert_eq!(portal_marker(1, PORTAL_MARKER_FIRST), None);
}

#[test]
fn unpacked_cubes_run_z_fastest_then_y_then_x() {
    let b = fixture();
    let c = cubes(&b);
    assert_eq!(c[0].origin, [-1024, 0, 0]);
    assert_eq!(c[1].origin, [-1024, 0, 8]);
    assert_eq!(c[4].origin, [-1024, 8, 0]);
    assert_eq!(c[16].origin, [-1016, 0, 0]);
    assert!(c[..64].iter().all(|r| r.side == 8 && r.tier == 8));
    assert_eq!(c[64].origin, [1000, 0, 0]);
}

#[test]
fn markers_are_recognised_only_in_version_two_within_the_part_range() {
    assert!(is_portal_marker(2, PORTAL_MARKER_FIRST));
    assert!(is_portal_marker(2, PORTAL_MARKER_LAST));
    assert!(!is_portal_marker(2, PORTAL_MARKER_LAST + 1));
    assert!(!is_portal_marker(2, PORTAL_MARKER_FIRST - 1));
    assert!(!is_portal_marker(1, PORTAL_MARKER_FIRST + 3));
    assert_eq!(portal_marker(2, PORTAL_MARKER_FIRST + 3), Some((1, PortalMarkerKind::Forward)));
}

#[test]
fn stride_follows_the_header_version() {
    let b = fixture();
    assert_eq!(stride(&b), 12);
    let mut v1 = b.clone();
    v1[4] = 1;
    assert_eq!(stride(&v1), 8);
}

#[test]
fn packed_records_unpack_beyond_one_thousand_ticks() {
    let r = Record { origin: [-1024, 0, 0], side: 32, color: 0, part: 0, tier: 8 };
    let c = r.cubes();
    assert_eq!(c.len(), 64);
    assert_eq!(c[0].origin, [-1024, 0, 0]);
    assert_eq!(c[63].origin, [-1000, 24, 24]);
    let big = Record { origin: [0, 0, 0], side: 2048, color: 1, part: 0, tier: 1024 };
    let c = big.cubes();
    assert_eq!(c.len(), 8);
    assert!(c.iter().all(|x| x.side == 1024 && x.tier == 1024 && x.color == 1));
    assert_eq!(c[7].origin, [1024, 1024, 1024]);
}
