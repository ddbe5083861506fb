use cubes::counters::{Sampler, Visibility};

#[test]
fn emits_four_bins_once_per_second() {
    let mut s = Sampler::new(0);
    for t in [0, 100, 250, 500, 750, 999] {
        assert!(s.record(t, 2, 27, 0, None).is_none());
    }
    let r = s.record(1000, 4, 900, 0, None).unwrap();
    assert_eq!(r.samples().map(|s| s.frames), [2, 1, 1, 2]);
    assert_eq!(r.samples()[3].at, 999);
    assert_eq!(s.samples()[0].mode, 4);
    assert!(s.record(1100, 4, 900, 0, None).is_none());
}

#[test]
fn stalls_leave_missing_bins_not_fake_datapoints() {
    let mut s = Sampler::new(0);
    s.record(20, 1, 3, 597, None);
    let r = s.record(4300, 1, 5, 595, None).unwrap();
    assert_eq!(r.samples().map(|s| s.frames), [1, 0, 0, 0]);
    assert_eq!(s.start(), 4000);
    assert!(s.record(4301, 1, 5, 595, None).is_none());
}

#[test]
fn visibility_is_kept_with_the_last_frame_of_a_bin() {
    let mut s = Sampler::new(0);
    let v = Visibility {
        frustum: 876,
        occluded: 491,
        patches_per_cube: 44,
    };
    s.record(0, 4, 385, 515, Some(v));
    s.record(250, 4, 0, 900, None);
    let r = s.record(1000, 2, 27, 0, None).unwrap();
    assert_eq!(r.start(), 0);
    assert_eq!(r.samples()[0].visibility, Some(v));
    assert_eq!(r.samples()[0].expanded, 385);
    assert_eq!(r.samples()[1].visibility, None);
    assert_eq!(r.samples()[1].at, 250);
    assert_eq!(r.samples()[2].frames, 0);
}

#[test]
fn orchard_reports_full_source_and_avoided_patch_submissions() {
    let mut s = Sampler::new(0);
    s.record(
        0,
        4,
        385,
        515,
        Some(Visibility { frustum: 876, occluded: 491, patches_per_cube: 44 }),
    );
    s.record(250, 4, 0, 900, Some(Visibility { frustum: 0, occluded: 0, patches_per_cube: 44 }));
    let report = s.record(1000, 2, 27, 0, None).unwrap().text();
    assert!(report.contains("M4 S900 F876 O491 V385 P16940 X22660 frames1"));
    // The required empty-view placeholder is never a logical cube.
    assert!(report.contains("M4 S900 F0 O0 V0 P0 X39600 frames1"));
    assert!(s.record(2000, 2, 27, 0, None).unwrap().text().contains("M2 E27 U0 F1"));
}

#[test]
fn report_line_lists_every_bin_and_marks_empty_ones() {
    let mut s = Sampler::new(3000);
    s.record(3010, 1, 7, 20, None);
    s.record(3900, 9, 0, 0, None);
    let line = s.record(4005, 1, 0, 0, None).unwrap().text();
    assert_eq!(line, "counts t=3000ms bins=250ms [0:+10ms M1 E7 U20 F1] [1:-] [2:-] [3:+900ms M9 E0 U0 F1]");
}
