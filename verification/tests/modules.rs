use kernel::module_api::{DemoModule, DemoModuleMod};

#[test]
fn demo_module_adds_to_its_number() {
    let m = DemoModuleMod(1);
    assert_eq!(m.update_number(1), 2);
    assert_eq!(m.update_number(41), 42);
    assert_eq!(DemoModuleMod(0).update_number(0), 0);
}

#[test]
fn demo_module_saves_and_restores_its_number() {
    let mut m = DemoModuleMod(7);
    assert_eq!(m.save_state(), 7);
    assert_eq!(m.restore_state(Some(40)), Ok(()));
    assert_eq!(m.update_number(2), 42);
    assert_eq!(m.restore_state(None), Err("Type error"));
    assert_eq!(m.save_state(), 40);
}
