use egui_pixels::registry::ToolRegistry;

fn registry(n: usize) -> ToolRegistry<u32> {
    ToolRegistry::new((0..n).map(|i| (format!("tool{i}"), i as u32 * 10)).collect())
}

#[test]
fn new_binds_first_and_second_tool() {
    let r = registry(3);
    assert_eq!((r.primary_idx(), r.secondary_idx()), (0, 1));
    assert_eq!(r.primary_factory(), 0);
    assert_eq!(r.secondary_factory(), 10);
    let single = registry(1);
    assert_eq!((single.primary_idx(), single.secondary_idx()), (0, 0));
}

#[test]
fn names_and_unknown_name() {
    let r = registry(2);
    assert_eq!(r.names(), vec!["tool0", "tool1"]);
    assert_eq!(r.name(1), "tool1");
    assert_eq!(r.name(7), "<unknown>");
}

#[test]
fn slots_change_only_to_other_existing_tools() {
    let mut r = registry(3);
    assert_eq!(r.set_primary_idx(0), None);
    assert_eq!(r.set_primary_idx(5), None);
    assert_eq!(r.set_primary_idx(2), Some(20));
    assert_eq!(r.primary_idx(), 2);
    assert_eq!(r.set_secondary_idx(1), None);
    assert_eq!(r.set_secondary_idx(0), Some(0));
    assert_eq!(r.secondary_idx(), 0);
}
