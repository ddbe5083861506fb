use cubes::pointlist::{Batch, Draw, Style, MAX_DRAWS, MAX_POINTS};

fn style(width: u8, color: u32) -> Style {
    Style { width, color }
}

#[test]
fn dots_group_by_width_then_colour() {
    let b = Batch::new(&[style(12, 5), style(12, 3), style(16, 5), style(12, 5)]);
    assert!(!b.quantized);
    assert_eq!(b.order, vec![1, 0, 3, 2]);
    assert_eq!(b.styles, vec![style(12, 3), style(12, 5), style(12, 5), style(16, 5)]);
    assert_eq!(
        b.draws,
        vec![
            Draw { base_vertex: 0, color: 3, width: 12, count: 1 },
            Draw { base_vertex: 1, color: 5, width: 12, count: 2 },
            Draw { base_vertex: 3, color: 5, width: 16, count: 1 },
        ]
    );
}

#[test]
fn an_empty_batch_still_draws_one_clear_vertex() {
    let b = Batch::new(&[]);
    assert!(b.order.is_empty());
    assert_eq!(b.draws, vec![Draw { base_vertex: 0, color: 0, width: 0, count: 1 }]);
}

#[test]
fn only_the_first_dots_are_drawn() {
    let b = Batch::new(&vec![style(20, 7); 300]);
    assert_eq!(b.order.len(), 300);
    assert_eq!(b.draws, vec![Draw { base_vertex: 0, color: 7, width: 20, count: MAX_POINTS as u32 }]);
}

#[test]
fn too_many_groups_snap_colours_to_the_grid() {
    let styles: Vec<Style> = (0..(MAX_DRAWS as u32 + 1)).map(|i| style(12, 0xff00_0000 | i * 97)).collect();
    let b = Batch::new(&styles);
    assert!(b.quantized);
    let mut seen = b.order.clone();
    seen.sort();
    assert_eq!(seen, (0..styles.len()).collect::<Vec<_>>());
    for (k, s) in b.styles.iter().enumerate() {
        let rgb = styles[b.order[k]].color.to_le_bytes();
        let expected = u32::from_le_bytes([rgb[0] / 32 * 36, rgb[1] / 32 * 36, rgb[2] / 32 * 36, 255]);
        assert_eq!(*s, style(2, expected));
    }
    assert!(b.styles.windows(2).all(|w| w[0].color <= w[1].color));
    assert!(b.draws.len() <= MAX_DRAWS);
    // Exactly MAX_DRAWS distinct styles keep their colours.
    let b = Batch::new(&styles[..MAX_DRAWS]);
    assert!(!b.quantized);
}
