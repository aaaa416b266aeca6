use raytracer::world::World;

/// Creating a world
#[test]
fn empty() {
    let w: World<u8, u16> = World::new();
    assert!(w.lights().is_empty());
    assert!(w.objects().is_empty());
}

#[test]
fn adding_keeps_order() {
    let mut w: World<&str, u32> = World::new();
    w.add_light("sun");
    w.add_shape(1);
    w.add_light("lamp");
    w.add_shape(2);
    assert_eq!(w.lights(), &vec!["sun", "lamp"]);
    assert_eq!(w.objects(), &vec![1, 2]);
}
