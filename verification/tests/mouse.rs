use ferricyanide::mouse::Mouse;

#[test]
fn starts_released_at_origin() {
    let m = Mouse::default();
    assert!(!m.get_pressed());
    assert_eq!(m.get_pos(), (0, 0));
}

#[test]
fn press_and_move() {
    let mut m = Mouse::default();
    m.set_pressed(true);
    assert!(m.get_pressed());
    m.set_pos(42, -7);
    assert_eq!(m.get_pos(), (42, -7));
    assert!(m.get_pressed());
    m.set_pressed(false);
    assert!(!m.get_pressed());
    assert_eq!(m.get_pos(), (42, -7));
}
