//! Value-level checks: region geometry, cursors, colors and event
//! parameter records.

use wasmuri::color::Color;
use wasmuri::cursor::Cursor;
use wasmuri::params::ClickInfo;
use wasmuri::params::KeyInfo;
use wasmuri::region::Region;

#[test]
fn touching_regions_do_not_intersect() {
    let a = Region::new(0, 0, 100, 100);
    let b = Region::new(100, 0, 200, 100);
    assert!(!a.intersects_with(&b));
    assert!(!b.intersects_with(&a));
    let below = Region::new(0, 100, 100, 200);
    assert!(!a.intersects_with(&below));
}

#[test]
fn overlapping_regions_intersect() {
    let a = Region::new(0, 0, 100, 100);
    let b = Region::new(99, 0, 200, 100);
    assert!(a.intersects_with(&b));
    assert!(b.intersects_with(&a));
    assert!(a.intersects_with(&a));
}

#[test]
fn boundary_points_are_outside() {
    let r = Region::new(0, 0, 100, 100);
    assert!(!r.is_inside((0, 50)));
    assert!(!r.is_inside((100, 50)));
    assert!(!r.is_inside((50, 0)));
    assert!(!r.is_inside((50, 100)));
    assert!(r.is_inside((50, 50)));
    assert!(!r.is_inside((101, 50)));
}

#[test]
fn unknown_position_is_inside_nothing() {
    let r = Region::new(0, 0, 100, 100);
    assert!(!r.is_inside_opt(None));
    assert!(r.is_inside_opt(Some((50, 50))));
}

#[test]
fn subtracting_a_covering_region_leaves_nothing() {
    let r = Region::new(10, 10, 20, 20);
    let cover = Region::new(0, 0, 100, 100);
    assert_eq!(r.get_uncovered_regions(&vec![cover]).len(), 0);
}

#[test]
fn subtracting_a_partial_cover_leaves_the_rest() {
    let r = Region::new(0, 0, 100, 100);
    let cover = Region::new(0, 0, 100, 50);
    let uncovered = r.get_uncovered_regions(&vec![cover]);
    assert_eq!(uncovered, vec![Region::new(0, 50, 100, 100)]);
}

#[test]
fn subtracting_a_disjoint_region_changes_nothing() {
    let r = Region::new(0, 0, 100, 100);
    let cover = Region::new(200, 200, 300, 300);
    assert_eq!(r.get_uncovered_regions(&vec![cover]), vec![r]);
}

#[test]
fn subtracting_a_middle_strip_leaves_two_sides() {
    let r = Region::new(0, 0, 300, 100);
    let cover = Region::new(100, 0, 200, 100);
    let uncovered = r.get_uncovered_regions(&vec![cover]);
    assert_eq!(
        uncovered,
        vec![Region::new(0, 0, 100, 100), Region::new(200, 0, 300, 100)]
    );
}

#[test]
fn two_covers_can_hide_a_region_together() {
    let r = Region::new(0, 0, 100, 100);
    let left = Region::new(0, 0, 60, 100);
    let right = Region::new(50, 0, 100, 100);
    assert_eq!(r.get_uncovered_regions(&vec![left, right]).len(), 0);
    assert!(r.get_uncovered_regions(&vec![left]).len() > 0);
}

#[test]
fn cursor_css_values_match_their_keywords() {
    assert_eq!(Cursor::DEFAULT.to_css_value(), "default");
    assert_eq!(Cursor::ALL_SCROLL.to_css_value(), "all-scroll");
    assert_eq!(Cursor::NOT_ALLOWED.to_css_value(), "not-allowed");
    assert_eq!(Cursor::SE_RESIZE.to_css_value(), "se-resize");
    assert_eq!(Cursor::ZOOM_IN.to_css_value(), "zoom-in");
    assert_eq!(Cursor::VERTICAL_TEXT.to_css_value(), "vertical-text");
    assert_eq!(Cursor::GRAB.to_css_value(), "grab");
}

#[test]
fn click_info_reports_its_fields() {
    let click = ClickInfo::new(2, true, false, true, false);
    assert_eq!(click.get_button(), 2);
    assert!(click.is_control_down());
    assert!(!click.is_shift_down());
    assert!(click.is_alt_down());
    assert!(!click.is_meta_down());
}

#[test]
fn key_info_reports_its_fields() {
    let keys = KeyInfo::new("Enter".to_string(), false, true, false, true);
    assert_eq!(keys.get_key(), "Enter");
    assert!(!keys.is_control_down());
    assert!(keys.is_shift_down());
    assert!(!keys.is_alt_down());
    assert!(keys.is_meta_down());
}

#[test]
fn color_reports_its_channels() {
    let c = Color::new(1, 2, 3, 200);
    assert_eq!(c.get_red(), 1);
    assert_eq!(c.get_green(), 2);
    assert_eq!(c.get_blue(), 3);
    assert_eq!(c.get_alpha(), 200);
}
