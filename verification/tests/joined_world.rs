use cubes::joined_world::{palette_atlas, EDGE, TILE};

fn world() -> Vec<u8> {
    let mut w = vec![0u8; 16];
    w[10] = 3;
    w.extend_from_slice(&[10, 20, 30, 255, 200, 100, 0, 255, 255, 255, 255, 255]);
    w
}

#[test]
fn atlas_is_opaque_exact_palette_with_hard_seven_pixel_edges() {
    let world = world();
    let bmp = palette_atlas(&world);
    let count = world[10] as usize;
    assert_eq!(u32::from_le_bytes(bmp[18..22].try_into().unwrap()) as usize, count * TILE);
    assert_eq!(u32::from_le_bytes(bmp[22..26].try_into().unwrap()) as usize, TILE);
    let rgba = &bmp[54..];
    let pixel = |x: usize, y: usize| &rgba[(y * count * TILE + x) * 4..][..4];
    for material in 0..count {
        let source = &world[16 + material * 4..20 + material * 4];
        let center = pixel(material * TILE + TILE / 2, TILE / 2);
        assert_eq!(center, [source[2], source[1], source[0], 255]);
        let edge = pixel(material * TILE + EDGE - 1, TILE / 2);
        let inside = pixel(material * TILE + EDGE, TILE / 2);
        assert_ne!(edge, inside);
        assert_eq!(inside, center);
    }
}

#[test]
fn borders_are_darkened_to_two_thirds() {
    let world = world();
    let bmp = palette_atlas(&world);
    assert_eq!(bmp.len(), 54 + 3 * TILE * TILE * 4);
    let rgba = &bmp[54..];
    // Bottom-left texel of the first tile (BMP rows run bottom up): a border.
    assert_eq!(&rgba[..4], &[20u8, 13, 7, 255]);
    // White darkens to 168.
    let last = rgba.len() - 4;
    assert_eq!(&rgba[last..], &[168, 168, 168, 255]);
}
