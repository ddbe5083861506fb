use cubes::hud::{sprite_pixels, status_sprite, HEIGHT, WIDTH};

#[test]
fn mask_bytes_become_ink_or_ground() {
    assert_eq!(
        sprite_pixels(&vec![0, 1, 7]),
        vec![0, 0, 0, 150, 235, 235, 235, 255, 235, 235, 235, 255]
    );
    assert!(sprite_pixels(&Vec::new()).is_empty());
}

#[test]
fn status_sprite_is_the_stamped_text_in_its_padding() {
    let rgba = status_sprite(3, 7, 1024);
    assert_eq!((WIDTH, HEIGHT), (14 * microfont::FWIDTH + 4, microfont::FHEIGHT + 4));
    assert_eq!(rgba.len(), WIDTH * HEIGHT * 4);
    let mut mask = vec![0u8; WIDTH * HEIGHT];
    microfont::stamp_text(&mut mask, WIDTH, HEIGHT, 2, 2, "M3 E0007 U1024", 1u8).unwrap();
    assert!(mask.iter().any(|&m| m != 0));
    assert_eq!(rgba, sprite_pixels(&mask));
    // The top padding row is ground only.
    assert!(rgba[..WIDTH * 4].chunks(4).all(|p| p == [0, 0, 0, 150]));
    assert_ne!(status_sprite(3, 7, 1024), status_sprite(3, 8, 1024));
}
