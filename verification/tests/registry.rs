use voxel_core::registry::{Id, Registry};

#[test]
fn generic_registry_assigns_sequential_ids() {
    let mut reg: Registry<u32> = Registry::new();
    let a = reg.register(String::from("alpha"), 10);
    let b = reg.register(String::from("beta"), 20);
    assert_eq!(a, Id(1));
    assert_eq!(b, Id(2));
    assert_eq!(reg.id("alpha"), Some(a));
    assert_eq!(reg.id("beta"), Some(b));
    assert_eq!(reg.id("gamma"), None);
    assert_eq!(*reg.block(a), 10);
    assert_eq!(*reg.block(b), 20);
}
