use anodium::geometry::{Mode, Point, Size};
use anodium::output::{ExclusiveZone, Output, OutputTag};
use anodium::output_map::OutputMap;

fn mode(w: i32, h: i32) -> Mode {
    Mode { size: Size { w, h }, refresh: 60_000 }
}

fn output(name: &str, w: i32, h: i32, tag: Option<OutputTag>) -> Output {
    Output::new(
        name,
        Point { x: 0, y: 0 },
        Size { w: 0, h: 0 },
        mode(w, h),
        String::new(),
        tag,
    )
}

#[test]
fn two_outputs_side_by_side() {
    let mut map = OutputMap::new();
    map.add(output("HDMI-A-1", 1920, 1080, None));
    map.add(output("DP-1", 1280, 720, None));
    assert_eq!(map.width(), 3200);
    assert_eq!(map.find_by_index(0).unwrap().location(), Point { x: 0, y: 0 });
    assert_eq!(map.find_by_index(1).unwrap().location(), Point { x: 1920, y: 0 });
    // A column inside the second output's band reports its height.
    assert_eq!(map.height(2000), Some(720));
    assert_eq!(map.height(0), Some(1080));
    assert_eq!(map.height(1919), Some(1080));
    assert_eq!(map.height(1920), Some(720));
    assert_eq!(map.height(3200), None);
    assert_eq!(map.height(-1), None);
}

#[test]
fn rearrange_is_idempotent() {
    let mut map = OutputMap::new();
    map.add(output("HDMI-A-1", 800, 600, None));
    map.add(output("DP-1", 1024, 768, None));
    map.add(output("eDP-1", 640, 480, None));
    let locs: Vec<Point> = (0..3).map(|i| map.find_by_index(i).unwrap().location()).collect();
    map.rearrange();
    let locs2: Vec<Point> = (0..3).map(|i| map.find_by_index(i).unwrap().location()).collect();
    assert_eq!(locs, locs2);
    assert_eq!(locs[0], Point { x: 0, y: 0 });
    assert_eq!(locs[1], Point { x: 800, y: 0 });
    assert_eq!(locs[2], Point { x: 1824, y: 0 });
}

#[test]
fn retain_drops_only_the_named_device() {
    let mut map = OutputMap::new();
    map.add(output("HDMI-A-1", 100, 100, Some(OutputTag { device_id: 1, crtc: 10 })));
    map.add(output("DP-1", 200, 100, Some(OutputTag { device_id: 2, crtc: 20 })));
    map.add(output("DP-2", 300, 100, Some(OutputTag { device_id: 1, crtc: 11 })));
    map.retain_not_device(1);
    assert_eq!(map.len(), 1);
    let kept = map.find_by_index(0).unwrap();
    assert_eq!(kept.name(), "DP-1");
    // The layout was recomputed for the survivor.
    assert_eq!(kept.location(), Point { x: 0, y: 0 });
    assert_eq!(map.width(), 200);
}

#[test]
fn external_arrangement_placements() {
    let mut map = OutputMap::new();
    map.add(output("HDMI-A-1", 100, 100, None));
    map.add(output("DP-1", 200, 100, None));
    // The policy moves the second output and names one bad index, which
    // is ignored.
    map.apply_arrangement(&vec![(1, Point { x: 500, y: 7 }), (9, Point { x: 1, y: 1 })]);
    assert_eq!(map.find_by_index(0).unwrap().location(), Point { x: 0, y: 0 });
    assert_eq!(map.find_by_index(1).unwrap().location(), Point { x: 500, y: 7 });
    // An empty answer relocates nothing.
    map.apply_arrangement(&Vec::new());
    assert_eq!(map.find_by_index(1).unwrap().location(), Point { x: 500, y: 7 });
}

#[test]
fn finders() {
    let mut map = OutputMap::new();
    map.add(output("HDMI-A-1", 100, 100, Some(OutputTag { device_id: 7, crtc: 3 })));
    map.add(output("DP-1", 200, 100, None));
    assert!(map.find_by_name("DP-1").is_some());
    assert!(map.find_by_name("DP-9").is_none());
    assert_eq!(map.find_by_tag(7, 3), Some(0));
    assert_eq!(map.find_by_tag(7, 4), None);
    let hit = map.find_by_position(Point { x: 150, y: 50 }).unwrap();
    assert_eq!(hit.name(), "DP-1");
    assert!(map.find_by_position(Point { x: 150, y: 150 }).is_none());
    assert!(!map.is_empty());
    assert!(OutputMap::new().is_empty());
}

#[test]
fn output_geometry_and_scale() {
    let mut o = output("HDMI-A-1", 1920, 1080, None);
    assert_eq!(o.size(), Size { w: 1920, h: 1080 });
    assert_eq!(o.scale_milli(), 1000);
    // Doubling the scale halves the logical size.
    o.update_scale(2000);
    assert_eq!(o.scale_milli(), 2000);
    assert_eq!(o.size(), Size { w: 960, h: 540 });
    // A change that keeps the rounded integer scale is dropped.
    o.update_scale(1600);
    o.update_scale(2400);
    assert_eq!(o.scale_milli(), 2000);
    o.update_mode(mode(1280, 720));
    assert_eq!(o.current_mode(), mode(1280, 720));
    assert_eq!(o.size(), Size { w: 640, h: 360 });
}

#[test]
fn usable_geometry_carves_the_exclusive_zone() {
    let mut o = output("HDMI-A-1", 1000, 800, None);
    o.set_location(Point { x: 50, y: 20 });
    o.set_exclusive_zone(ExclusiveZone { left: 10, top: 30, bottom: 40 });
    let g = o.usable_geometry();
    assert_eq!(g.loc, Point { x: 60, y: 50 });
    // The left margin is applied to the width twice under the current
    // single-axis layout policy.
    assert_eq!(g.size, Size { w: 980, h: 730 });
}

#[test]
fn extreme_mode_and_scale() {
    // The largest mode the kernel can report, at the smallest scale.
    let mut o = output("HDMI-A-1", 0xffff, 0xffff, None);
    o.update_scale(1);
    assert_eq!(o.scale_milli(), 1);
    assert_eq!(o.size(), Size { w: 65_535_000, h: 65_535_000 });
    // Rounding is to the nearest integer: 100 / 3.0 rounds up.
    let mut o = output("DP-1", 100, 100, None);
    o.update_scale(3000);
    assert_eq!(o.size(), Size { w: 33, h: 33 });
}

#[test]
fn workspace_key_roundtrip() {
    let mut o = output("HDMI-A-1", 100, 100, None);
    assert_eq!(o.active_workspace(), "");
    o.set_active_workspace(String::from("main"));
    assert_eq!(o.active_workspace(), "main");
}
