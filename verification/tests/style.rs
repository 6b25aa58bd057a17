use ecs::style::{Align, Edges, FlexWrap, Justify, Overflow, TextAlign};

#[test]
fn style_defaults() {
    assert_eq!(TextAlign::default(), TextAlign::Left);
    assert_eq!(FlexWrap::default(), FlexWrap::NoWrap);
    assert_eq!(Justify::default(), Justify::Start);
    assert_eq!(Align::default(), Align::Start);
    assert_ne!(Overflow::Hidden, Overflow::Scroll);
    let edges = Edges { left: 1, right: 2, top: 3, bottom: 4 };
    assert_eq!(edges.left + edges.right + edges.top + edges.bottom, 10);
}
