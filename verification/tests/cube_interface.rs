use cubes::cube_interface::{
    bmp, color_texture, content, printable, text_rows, Action, Button, Canvas, Definition, Demo, State,
    Tones,
};

static PLAY: [Button; 2] = [
    Button { mode: 1, icon: 3, text: "Play" },
    Button { mode: 2, icon: 0, text: "Back" },
];

static EXAMPLES: [Definition; 3] = [
    Definition {
        name: "welcome",
        title: "Welcome",
        text: "Pick a world.",
        theme: 0,
        tier: 1,
        buttons: &PLAY,
        controls: [false; 4],
        initial: State { progress: 0, count: 0, enabled: true, checked: false },
    },
    Definition {
        name: "settings",
        title: "Settings",
        text: "",
        theme: 1,
        tier: 2,
        buttons: &[],
        controls: [true, false, false, false],
        initial: State { progress: 40, count: 0, enabled: true, checked: false },
    },
    Definition {
        name: "editor",
        title: "Editor",
        text: "All controls\nin one page",
        theme: 2,
        tier: 3,
        buttons: &[],
        controls: [true; 4],
        initial: State { progress: 50, count: 999, enabled: true, checked: false },
    },
];

fn widget(d: &Demo, action: Action) -> usize {
    d.layout().widgets.iter().position(|w| w.action == action).unwrap()
}

fn click(d: &mut Demo, id: usize, now: u64) {
    d.pointer_hit(Some(id), None, true, true, now);
    d.pointer_hit(Some(id), None, false, false, now + 10);
}

#[test]
fn counter_bounds_and_text_limits_match_editor() {
    let mut d = Demo::new(&EXAMPLES);
    d.select(2);
    let id = widget(&d, Action::Increment);
    assert!(d.layout().widgets[id].disabled);
    let [x, y, w, h] = d.layout().widgets[id].rect;
    assert_ne!(d.hit_at(x + w / 2, y + h / 2), Some(id));
    assert_eq!(text_rows("a\r\nb\tc"), vec!["a", "b  c"]);
    assert_eq!(text_rows(&"x".repeat(1000)).len(), 12);
    assert!(text_rows(&"x".repeat(1000)).iter().all(|r| r.len() == 40));
    assert_eq!(text_rows("ö"), vec!["?"]);
}

#[test]
fn buttons_and_close_only_animate_the_press() {
    let mut d = Demo::new(&EXAMPLES);
    let initial = d.states();
    for i in 0..d.layout().widgets.len() {
        click(&mut d, i, 10);
        assert_eq!(d.page(), 0);
        assert_eq!(d.states(), initial);
        assert_eq!(d.pressed(), Some(i));
        assert_eq!(d.take_activation(), Some(i));
        d.tick(189);
        assert_eq!(d.pressed(), Some(i));
        d.tick(200);
        assert_eq!(d.pressed(), None);
    }
}

#[test]
fn controls_change_the_preview_state_of_their_page() {
    let mut d = Demo::new(&EXAMPLES);
    d.select(2);
    for action in [Action::Checkbox, Action::Toggle, Action::Decrement, Action::Decrement] {
        let id = widget(&d, action);
        click(&mut d, id, 0);
    }
    assert!(d.states()[2].checked);
    assert!(!d.states()[2].enabled);
    assert_eq!(d.states()[2].count, 997);
    assert!(!d.layout().widgets[widget(&d, Action::Increment)].disabled);
    // Other pages keep their own state.
    assert_eq!(d.states()[0], EXAMPLES[0].initial);
    d.select(0);
    d.select(2);
    assert!(d.states()[2].checked);
}

#[test]
fn slider_follows_the_drag_until_release() {
    let mut d = Demo::new(&EXAMPLES);
    d.select(1);
    let id = widget(&d, Action::Slider);
    d.pointer_hit(Some(id), Some(70), true, true, 0);
    assert_eq!(d.states()[1].progress, 70);
    assert!(d.captured());
    d.pointer_hit(None, Some(100), false, true, 1);
    assert_eq!(d.states()[1].progress, 100);
    d.pointer_hit(None, None, false, false, 2);
    assert!(!d.captured());
    d.pointer_hit(None, Some(0), false, true, 3);
    assert_eq!(d.states()[1].progress, 100);
}

#[test]
fn releasing_elsewhere_or_cancelling_does_not_activate() {
    let mut d = Demo::new(&EXAMPLES);
    d.select(2);
    let before = d.states();
    let id = widget(&d, Action::Checkbox);
    d.pointer_hit(Some(id), None, true, true, 0);
    d.pointer_hit(None, None, false, false, 1);
    assert_eq!(d.states(), before);
    d.pointer_hit(Some(id), None, true, true, 2);
    d.cancel();
    d.pointer_hit(Some(id), None, false, false, 3);
    assert_eq!(d.states(), before);
    assert_eq!(d.take_activation(), None);
}

#[test]
fn printable_replaces_what_the_font_lacks() {
    assert_eq!(printable("Ab 1~"), "Ab 1~");
    assert_eq!(printable("é\u{7f}x"), "??x");
    assert_eq!(text_rows(""), Vec::<String>::new());
    assert_eq!(text_rows("one\n\ntwo"), vec!["one", "", "two"]);
}

#[test]
fn button_content_shows_label_and_icon_by_mode() {
    // Mode 1 is icon only, mode 0 text only, anything else both.
    assert_eq!(content(PLAY[0]), (String::new(), Some(3), 7));
    assert_eq!(content(PLAY[1]), (String::from("Back"), Some(0), 35));
    assert_eq!(content(Button { mode: 0, icon: 5, text: "Go" }), (String::from("Go"), None, 12));
}

#[test]
fn canvas_keeps_the_highest_cell_and_clips_bevelled_corners() {
    let mut c = Canvas::new(4, 3, 7);
    assert_eq!(c.colors, vec![7; 12]);
    c.put(1, 1, 5, 9);
    c.put(1, 1, 2, 8);
    assert_eq!(c.colors[5], 9);
    assert_eq!(c.heights[5], 5);
    c.put(-1, 0, 9, 1);
    c.put(4, 0, 9, 1);
    assert_eq!(c.colors.iter().filter(|&&v| v == 1).count(), 0);
    let mut r = Canvas::new(4, 4, 0);
    r.rect([0, 0, 4, 4], 1, 3, 1);
    // The four corner cells are bevelled away; everything else is drawn.
    assert_eq!(r.colors[0], 0);
    assert_eq!(r.colors[3], 0);
    assert_eq!(r.colors[12], 0);
    assert_eq!(r.colors[15], 0);
    assert_eq!(r.colors.iter().filter(|&&v| v == 3).count(), 12);
}

#[test]
fn bmp_is_bottom_up_bgra_with_a_standard_header() {
    let bytes = bmp(2, 2, &[1, 2, 3, 4, 5, 6, 7, 8, 9, 10, 11, 12]);
    assert_eq!(&bytes[..2], b"BM");
    assert_eq!(bytes.len(), 54 + 2 * 2 * 4);
    assert_eq!(u32::from_le_bytes(bytes[2..6].try_into().unwrap()), 70);
    assert_eq!(u32::from_le_bytes(bytes[10..14].try_into().unwrap()), 54);
    assert_eq!(u32::from_le_bytes(bytes[18..22].try_into().unwrap()), 2);
    assert_eq!(bytes[28], 32);
    // Bottom row first, blue before red, opaque alpha.
    assert_eq!(&bytes[54..62], &[9, 8, 7, 255, 12, 11, 10, 255]);
    assert_eq!(&bytes[62..70], &[3, 2, 1, 255, 6, 5, 4, 255]);
}

#[test]
fn hits_find_the_first_enabled_widget_under_the_cell() {
    let d = Demo::new(&EXAMPLES);
    for (i, w) in d.layout().widgets.iter().enumerate() {
        let [x, y, width, height] = w.rect;
        assert_eq!(d.hit_at(x, y), Some(i));
        assert_eq!(d.hit_at(x + width - 1, y + height - 1), Some(i));
    }
    assert_eq!(d.hit_at(-1, -1), None);
    assert_eq!(d.hit_at(i32::MAX, i32::MAX), None);
}

#[test]
fn colour_texture_repeats_each_cell_four_by_four() {
    let mut canvas = Canvas::new(2, 1, 0x00a0b0c0);
    canvas.colors[1] = 0x00010203;
    let texture = color_texture(&canvas);
    assert_eq!(texture.len(), 54 + 8 * 4 * 4);
    assert_eq!(u32::from_le_bytes(texture[18..22].try_into().unwrap()), 8);
    assert_eq!(u32::from_le_bytes(texture[22..26].try_into().unwrap()), 4);
    let rows = &texture[54..];
    for row in 0..4 {
        for x in 0..8 {
            let texel = &rows[(row * 8 + x) * 4..][..4];
            if x < 4 {
                assert_eq!(texel, [0xc0, 0xb0, 0xa0, 255]);
            } else {
                assert_eq!(texel, [3, 2, 1, 255]);
            }
        }
    }
}

fn font() -> Vec<u64> {
    let mut glyphs = vec![0u64; 95];
    // 'A': its top left cell and the cell one right and one down.
    glyphs[(b'A' - 32) as usize] = (1 << 63) | (1 << (63 - 7));
    // 'q' and '?': only the top left cell.
    glyphs[(b'q' - 32) as usize] = 1 << 63;
    glyphs[(b'?' - 32) as usize] = 1 << 63;
    glyphs
}

#[test]
fn labels_draw_glyph_bits_six_cells_apart_and_shift_q() {
    let mut c = Canvas::new(30, 12, 0);
    c.label(&font(), "Aq\u{1}", 2, 1, 1, 9);
    let at = |c: &Canvas, x: usize, y: usize| c.colors[y * 30 + x];
    assert_eq!(at(&c, 2, 1), 9);
    assert_eq!(at(&c, 3, 2), 9);
    // 'q' is drawn one cell right of its slot at x = 8.
    assert_eq!(at(&c, 8, 1), 0);
    assert_eq!(at(&c, 9, 1), 9);
    // The unprintable character is drawn as '?' at x = 14.
    assert_eq!(at(&c, 14, 1), 9);
    assert_eq!(c.colors.iter().filter(|&&v| v == 9).count(), 4);
    assert_eq!(c.heights[1 * 30 + 2], 1);
}

#[test]
fn icons_draw_seven_by_seven_cells_top_bit_left() {
    let icons = vec![[0b100_0001u8, 0, 0, 0, 0, 0, 0b000_0001]; 4];
    let mut c = Canvas::new(12, 10, 0);
    c.icon(&icons, 2, 3, 2, 1, 5);
    assert_eq!(c.colors[2 * 12 + 3], 5);
    assert_eq!(c.colors[2 * 12 + 9], 5);
    assert_eq!(c.colors[8 * 12 + 9], 5);
    assert_eq!(c.colors.iter().filter(|&&v| v == 5).count(), 3);
}

#[test]
fn buttons_draw_a_bevelled_face_over_the_edge() {
    let icons = vec![[0u8; 7]; 4];
    let mut c = Canvas::new(12, 14, 0);
    c.button(&font(), &icons, [0, 0, 10, 13], "A", None, 5, 6, 4, 1);
    // The corner cell is bevelled away; next to it the lifted face shows.
    assert_eq!(c.colors[0], 0);
    assert_eq!((c.colors[1], c.heights[1]), (5, 3));
    // The label 'A' is centred: x = (10 - 6) / 2 = 2, y = (13 - 11) / 2 = 1.
    assert_eq!((c.colors[1 * 12 + 2], c.heights[1 * 12 + 2]), (6, 4));
    assert_eq!(c.colors[2 * 12 + 3], 6);
    assert_eq!(c.colors[1 * 12 + 3], 5);
}

#[test]
fn raster_paints_panel_title_bar_and_close_button() {
    let d = Demo::new(&EXAMPLES);
    let themes: Vec<[u32; 11]> = (0..3).map(|k| core::array::from_fn(|i| 100 * k + i as u32)).collect();
    let t = themes[0];
    let tones = Tones { rest: t, hover: [7000; 11], press: [8000; 11] };
    let icons = vec![[0u8; 7]; 4];
    let c = d.raster(&font(), &icons, &themes, &tones);
    let w = d.layout().width;
    assert_eq!((c.width, c.height), (w, d.layout().height));
    assert_eq!(c.colors[0], t[0]);
    assert_eq!(c.colors[2 * w + 2], t[2]);
    assert_eq!(c.colors[30 * w + 2], t[1]);
    // The middle of the close button shows its face at rest.
    assert_eq!(c.colors[9 * w + (w - 10)], t[10]);
}
