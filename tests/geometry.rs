use transistor::display::{Display, ZoneDirection};
use transistor::graph::{create_warpzones, LayoutError};

fn disp(id: u32, owner: u32, x: i32, y: i32, width: i32, height: i32, is_primary: bool) -> Display {
    Display {
        name: format!("display-{}", id),
        id,
        x,
        y,
        width,
        height,
        rotation_bits: 0,
        scale_factor_bits: 0,
        frequency_bits: 0,
        is_primary,
        warpzones: Vec::new(),
        owner,
    }
}

#[test]
fn reverse_swaps_each_edge() {
    assert_eq!(ZoneDirection::HorizontalLeft.reverse(), ZoneDirection::HorizontalRight);
    assert_eq!(ZoneDirection::HorizontalRight.reverse(), ZoneDirection::HorizontalLeft);
    assert_eq!(ZoneDirection::VerticalUp.reverse(), ZoneDirection::VerticalDown);
    assert_eq!(ZoneDirection::VerticalDown.reverse(), ZoneDirection::VerticalUp);
}

#[test]
fn overlap_needs_shared_area() {
    let a = disp(1, 0, 0, 0, 100, 100, true);
    assert!(a.is_overlap(&disp(2, 0, 50, 50, 100, 100, false)));
    assert!(!a.is_overlap(&disp(2, 0, 100, 0, 100, 100, false)));
    assert!(!a.is_overlap(&disp(2, 0, 0, 100, 100, 100, false)));
    assert!(a.is_overlap(&disp(2, 0, 99, 99, 10, 10, false)));
}

#[test]
fn overlap_far_edges_do_not_overflow() {
    let a = disp(1, 0, i32::MAX - 10, 0, 100, 100, true);
    let b = disp(2, 0, i32::MAX - 5, 0, 100, 100, false);
    assert!(a.is_overlap(&b));
}

#[test]
fn touch_right_and_left() {
    let a = disp(1, 0, 0, 0, 100, 100, true);
    let b = disp(2, 0, 100, 20, 100, 200, false);
    assert_eq!(a.is_touch(&b), Some((20, 100, ZoneDirection::HorizontalRight)));
    assert_eq!(b.is_touch(&a), Some((20, 100, ZoneDirection::HorizontalLeft)));
}

#[test]
fn touch_down_and_up() {
    let a = disp(1, 0, 0, 0, 100, 100, true);
    let b = disp(2, 0, 30, 100, 40, 50, false);
    assert_eq!(a.is_touch(&b), Some((30, 70, ZoneDirection::VerticalDown)));
    assert_eq!(b.is_touch(&a), Some((30, 70, ZoneDirection::VerticalUp)));
}

#[test]
fn corner_contact_is_no_touch() {
    let a = disp(1, 0, 0, 0, 100, 100, true);
    let b = disp(2, 0, 100, 100, 100, 100, false);
    assert_eq!(a.is_touch(&b), None);
    let far = disp(3, 0, 500, 500, 100, 100, false);
    assert_eq!(a.is_touch(&far), None);
}

#[test]
fn contains_is_half_open() {
    let a = disp(1, 0, 0, 0, 100, 100, true);
    assert!(a.contains(0, 0));
    assert!(a.contains(99, 99));
    assert!(!a.contains(100, 50));
    assert!(!a.contains(50, 100));
    assert!(!a.contains(-1, 0));
}

#[test]
fn well_formed_rejects_empty_and_escaping_rectangles() {
    assert!(disp(1, 0, 0, 0, 100, 100, true).is_well_formed());
    assert!(!disp(1, 0, 0, 0, 0, 100, true).is_well_formed());
    assert!(!disp(1, 0, 0, 0, 100, -5, true).is_well_formed());
    assert!(!disp(1, 0, i32::MAX - 10, 0, 100, 100, true).is_well_formed());
}

#[test]
fn create_warpzones_links_every_touching_pair_in_order() {
    let ds = vec![
        disp(1, 0, 0, 0, 100, 100, true),
        disp(2, 0, 100, 0, 100, 100, false),
        disp(3, 0, 0, 100, 100, 100, false),
    ];
    let ds = create_warpzones(ds).unwrap();
    let to: Vec<Vec<u32>> = ds.iter().map(|d| d.warpzones.iter().map(|z| z.to).collect()).collect();
    assert_eq!(to, vec![vec![2, 3], vec![1], vec![1]]);
    let z = ds[0].warpzones[1];
    assert_eq!((z.start, z.end, z.direction), (0, 100, ZoneDirection::VerticalDown));
    let back = ds[2].warpzones[0];
    assert_eq!((back.start, back.end, back.direction), (0, 100, ZoneDirection::VerticalUp));
}

#[test]
fn create_warpzones_drops_stale_zones() {
    let mut a = disp(1, 0, 0, 0, 100, 100, true);
    a.warpzones.push(transistor::display::WarpZone {
        start: 0,
        end: 1,
        direction: ZoneDirection::VerticalUp,
        to: 77,
    });
    let ds = create_warpzones(vec![a, disp(2, 0, 500, 0, 10, 10, false)]).unwrap();
    assert!(ds[0].warpzones.is_empty());
    assert!(ds[1].warpzones.is_empty());
}

#[test]
fn create_warpzones_reports_faults_in_order() {
    let bad = vec![disp(1, 0, 0, 0, 0, 10, true), disp(1, 0, 0, 0, 10, 10, false)];
    assert_eq!(create_warpzones(bad).unwrap_err(), LayoutError::Malformed);
    let dup = vec![disp(1, 0, 0, 0, 10, 10, true), disp(1, 0, 0, 0, 10, 10, false)];
    assert_eq!(create_warpzones(dup).unwrap_err(), LayoutError::DuplicateId);
    let over = vec![disp(1, 0, 0, 0, 10, 10, true), disp(2, 0, 5, 5, 10, 10, false)];
    assert_eq!(create_warpzones(over).unwrap_err(), LayoutError::Overlap);
}
