use cubes::orchard::{decode_cells, Cell, Rejection, CUSTOM_RGB555};

/// A two-colour asset with the given records.
fn asset(records: &[[u8; 8]]) -> Vec<u8> {
    let mut b = b"CUBE".to_vec();
    b.extend_from_slice(&[1, 0, 1, 8]);
    b.extend_from_slice(&(records.len() as u16).to_le_bytes());
    b.extend_from_slice(&[2, 4]);
    b.extend_from_slice(&0.2f32.to_le_bytes());
    b.extend_from_slice(&[255, 0, 0, 255, 0, 128, 255, 255]);
    for r in records {
        b.extend_from_slice(r);
    }
    b
}

fn decode(b: &[u8]) -> Result<Vec<Cell>, Rejection> {
    let count = if b.len() >= 10 { u16::from_le_bytes([b[8], b[9]]) as usize } else { 0 };
    decode_cells(b, true, [true; 4], &vec![true; count])
}

#[test]
fn records_decode_to_cells_with_rgb555_flags() {
    let b = asset(&[[0, 0, 0, 1, 0, 0, 0, 0], [255, 2, 0, 4, 1, 0, 0, 0]]);
    let cells = decode(&b).unwrap();
    assert_eq!(cells[0], Cell { x: 0, y: 0, z: 0, size: 1, flags: CUSTOM_RGB555 | 31 });
    assert_eq!(cells[1], Cell { x: -1, y: 2, z: 0, size: 4, flags: CUSTOM_RGB555 | (16 << 5) | (31 << 10) });
}

#[test]
fn rejects_old_layout_overlap_reserved_bytes_and_invalid_gap() {
    let good = asset(&[[0, 0, 0, 2, 0, 0, 0, 0], [2, 0, 0, 2, 1, 0, 0, 0]]);
    assert!(decode(&good).is_ok());
    for gap in [0, 100, 255] {
        let mut bad = good.clone();
        bad[6] = gap;
        assert_eq!(decode(&bad), Err(Rejection::Gap));
    }
    let start = 16 + 2 * 4;
    for offset in [6, 7] {
        let mut bad = good.clone();
        bad[start + offset] = 1;
        assert_eq!(decode(&bad), Err(Rejection::Record));
    }
    let mut bad = good.clone();
    bad.copy_within(start..start + 8, start + 8);
    assert_eq!(decode(&bad), Err(Rejection::Overlap));
    let mut bad = good.clone();
    bad[start + 8] = 1;
    assert_eq!(decode(&bad), Err(Rejection::Overlap));
    let mut old = good.clone();
    old[7] = 0;
    old[11] = 8;
    assert_eq!(decode(&old), Err(Rejection::Header));
}

#[test]
fn truncations_alpha_and_rigs_are_refused() {
    let good = asset(&[[0, 0, 0, 3, 1, 0, 0, 0]]);
    for n in 0..good.len() {
        assert!(decode(&good[..n]).is_err());
    }
    let mut bad = good.clone();
    bad[19] = 128;
    assert_eq!(decode(&bad), Err(Rejection::OpaqueOnly));
    bad = good.clone();
    bad[5] = 1;
    assert_eq!(decode(&bad), Err(Rejection::StaticOnly));
    assert_eq!(decode_cells(&good, false, [true; 4], &[true]), Err(Rejection::Limits));
    assert_eq!(decode_cells(&good, true, [true, true, false, true], &[true]), Err(Rejection::Scale));
    assert_eq!(decode_cells(&good, true, [true; 4], &[false]), Err(Rejection::Position));
    let mut bad = good.clone();
    bad[16 + 8 + 4] = 2;
    assert_eq!(decode(&bad), Err(Rejection::Record));
}
