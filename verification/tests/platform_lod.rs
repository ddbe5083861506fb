use cubes::platform_lod::Item::{Hull, Source};
use cubes::platform_lod::{Item, Layout, PlatformView, DETAIL_PLATFORMS};

fn layout() -> Layout {
    Layout { owners: vec![0, 1, 1, 2, 3, 0], hulls: 3 }
}

#[test]
fn far_platforms_become_hulls_and_near_ones_keep_detail() {
    let mut v = PlatformView::new();
    let l = layout();
    v.prepare(Some(&l), [0, 2], 6);
    assert_eq!(v.items, vec![Source(0), Source(1), Source(2), Source(4), Source(5), Hull(1)]);
    assert_eq!(v.counts(), Some((3, DETAIL_PLATFORMS)));
    assert_eq!((v.source_id(3), v.source_id(5)), (Some(4), None));
    assert_eq!((v.hull_id(5), v.hull_id(0), v.hull_id(99)), (Some(1), None, None));
    assert_eq!((v.solid(0), v.solid(1), v.solid(4), v.solid(5)), (false, true, false, true));
}

#[test]
fn nearest_changes_rebuild_the_items() {
    let mut v = PlatformView::new();
    let l = layout();
    v.prepare(Some(&l), [0, 2], 6);
    v.prepare(Some(&l), [1, usize::MAX], 6);
    assert_eq!(v.items, vec![Source(0), Source(3), Source(5), Hull(0), Hull(2)]);
    // Placed cubes beyond the layout's owners belong to no platform.
    v.prepare(Some(&l), [1, usize::MAX], 8);
    assert_eq!(v.items, vec![Source(0), Source(3), Source(5), Source(6), Source(7), Hull(0), Hull(2)]);
    let one = Layout { owners: vec![1, 1], hulls: 1 };
    assert_eq!(one.hulls.min(DETAIL_PLATFORMS), 1);
    v.prepare(Some(&one), [usize::MAX, usize::MAX], 2);
    assert_eq!(v.items, vec![Hull(0)]);
    assert_eq!(v.counts(), Some((1, 1)));
}

#[test]
fn without_a_layout_everything_is_authored() {
    let mut v = PlatformView::new();
    v.prepare(None, [0, 1], 4);
    assert_eq!(v.counts(), None);
    assert_eq!((v.source_id(7), v.hull_id(0), v.solid(3)), (Some(7), None, false));
    let l = layout();
    v.prepare(Some(&l), [usize::MAX, usize::MAX], 6);
    assert_eq!(v.items, vec![Item::Source(0), Item::Source(5), Item::Hull(0), Item::Hull(1), Item::Hull(2)]);
    v.prepare(None, [0, 1], 6);
    assert_eq!(v.source_id(1), Some(1));
    assert_eq!(v.source_count, usize::MAX);
}
