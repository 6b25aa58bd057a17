use ecs::ext::{align_to, short_name};

#[test]
fn align_to_rounds_up_to_powers_of_two() {
    assert_eq!(align_to(0, 8), 0);
    assert_eq!(align_to(1, 8), 8);
    assert_eq!(align_to(8, 8), 8);
    assert_eq!(align_to(9, 8), 16);
    assert_eq!(align_to(13, 1), 13);
    assert_eq!(align_to(100, 64), 128);
}

#[test]
fn short_name_keeps_the_last_segment() {
    assert_eq!(short_name("ecs::world::entity::Entity"), "Entity");
    assert_eq!(short_name("Entity"), "Entity");
    assert_eq!(short_name("a::b::"), "");
    assert_eq!(short_name("::x"), "x");
    assert_eq!(short_name(""), "");
}

#[test]
fn align_to_at_the_top_of_the_range() {
    assert_eq!(align_to(usize::MAX - 7, 8), usize::MAX - 7);
    assert_eq!(align_to(5, 8), 8);
    assert_eq!(align_to(16, 8), 16);
}
