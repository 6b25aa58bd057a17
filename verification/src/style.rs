//! The plain choices a user-interface style is made of.
use vstd::prelude::*;

verus! {

/// A value for each side of a box.
#[derive(Debug, Clone, Copy)]
pub struct Edges<T> {
    pub left: T,
    pub right: T,
    pub top: T,
    pub bottom: T,
}

/// Whether an element takes part in layout.
#[derive(Debug, Clone, Copy)]
pub enum Display {
    Flex,
    NoDisplay,
}

/// The axis along which children are laid out.
#[derive(Debug, Clone, Copy)]
pub enum FlexDirection {
    Row,
    Column,
}

/// Whether an element is placed in the flow or against its parent.
#[derive(Debug, Clone, Copy)]
pub enum Position {
    Relative,
    Absolute,
}

/// What happens to content past an element's bounds.
#[derive(Debug, Clone, Copy, PartialEq, Eq, Structural)]
pub enum Overflow {
    Visible,
    Hidden,
    Scroll,
}

/// Whether an element is drawn.
#[derive(Debug, Clone, Copy)]
pub enum Visibility {
    Visible,
    Hidden,
}

/// How lines of text sit across their box.
#[derive(Debug, Clone, Copy, PartialEq, Eq, Structural)]
pub enum TextAlign {
    Left,
    Center,
    Right,
}

impl Default for TextAlign {
    fn default() -> (r: TextAlign)
        ensures
            r == TextAlign::Left,
    {
        TextAlign::Left
    }
}

/// How heavy glyphs are drawn.
#[derive(Debug, Clone, Copy, PartialEq, Eq, Structural)]
pub enum FontWeight {
    Light,
    Regular,
    Medium,
    Bold,
}

/// Whether children that do not fit go on a new line.
#[derive(Debug, Clone, Copy, PartialEq, Eq, Structural)]
pub enum FlexWrap {
    NoWrap,
    Wrap,
}

impl Default for FlexWrap {
    fn default() -> (r: FlexWrap)
        ensures
            r == FlexWrap::NoWrap,
    {
        FlexWrap::NoWrap
    }
}

/// How children share the free space along the main axis.
#[derive(Debug, Clone, Copy, PartialEq, Eq, Structural)]
pub enum Justify {
    Start,
    Center,
    End,
    Between,
    Around,
    Evenly,
}

impl Default for Justify {
    fn default() -> (r: Justify)
        ensures
            r == Justify::Start,
    {
        Justify::Start
    }
}

/// How children sit across the cross axis.
#[derive(Debug, Clone, Copy, PartialEq, Eq, Structural)]
pub enum Align {
    Start,
    Center,
    End,
    Stretch,
}

impl Default for Align {
    fn default() -> (r: Align)
        ensures
            r == Align::Start,
    {
        Align::Start
    }
}

} // verus!
