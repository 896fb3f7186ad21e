use filefile::context::Context;

#[test]
fn toggles_flip_one_flag() {
    let mut c = Context::new();
    assert!(!c.force() && !c.dry_run() && !c.verbose());
    c.toggle_dry_run();
    assert!(c.dry_run() && !c.force() && !c.verbose());
    c.toggle_force();
    c.toggle_verbose();
    assert!(c.dry_run() && c.force() && c.verbose());
    c.toggle_dry_run();
    c.toggle_force();
    c.toggle_verbose();
    assert!(!c.force() && !c.dry_run() && !c.verbose());
}
