//! Graphic representation of a graph node (an SVG circle with its label).
use vstd::prelude::*;
use super::color::Color;
use super::point::Point;
use super::tag::Tag;
use crate::text::{push_char, push_u64};

verus! {

/// The identifier of a node's SVG elements: its name followed by its sequence number.
pub open spec fn node_id_text(name: char, id: u32) -> Seq<char> {
    seq![name] + crate::text::dec_nat(id as nat)
}

/// The abstract state of a node representation.
pub struct NodeState {
    pub id: u32,
    pub name: char,
    pub center: Point,
    pub center_freezed: bool,
    pub radius: u8,
    pub fill_color: Color,
    pub stroke_color: Color,
    pub stroke_color_init: Color,
    pub text_color: Color,
    pub stroke_width: u8,
    pub tag: Option<Tag>,
}

#[derive(Clone, Copy)]
pub struct Node {
    id: u32,
    name: char,
    center: Point,
    center_freezed: bool,
    radius: u8,
    fill_color: Color,
    stroke_color: Color,
    stroke_color_init: Color,
    text_color: Color,
    stroke_width: u8,
    tag: Option<Tag>,
}

impl View for Node {
    type V = NodeState;

    closed spec fn view(&self) -> NodeState {
        NodeState {
            id: self.id,
            name: self.name,
            center: self.center,
            center_freezed: self.center_freezed,
            radius: self.radius,
            fill_color: self.fill_color,
            stroke_color: self.stroke_color,
            stroke_color_init: self.stroke_color_init,
            text_color: self.text_color,
            stroke_width: self.stroke_width,
            tag: self.tag,
        }
    }
}

impl Node {
    /// A node drawn at `center` (which freezes its position), or at the origin when no
    /// center is given; its stroke color is also remembered as the initial one.
    pub fn new(
        id: u32,
        name: char,
        center: Option<Point>,
        radius: u8,
        fill_color: Color,
        stroke_color: Color,
        text_color: Color,
        stroke_width: u8,
    ) -> (n: Node)
        ensures
            n@ == (NodeState {
                id,
                name,
                center: match center {
                    Some(c) => c,
                    None => Point { x: 0, y: 0 },
                },
                center_freezed: center is Some,
                radius,
                fill_color,
                stroke_color,
                stroke_color_init: stroke_color,
                text_color,
                stroke_width,
                tag: None,
            }),
    {
        let center_freezed = center.is_some();
        let center = match center {
            Some(c) => c,
            None => Point::new(0, 0),
        };
        Node {
            id,
            name,
            center,
            center_freezed,
            radius,
            fill_color,
            stroke_color,
            stroke_color_init: stroke_color,
            text_color,
            stroke_width,
            tag: None,
        }
    }

    /// The identifier of the node's SVG elements.
    pub fn id(&self) -> (s: String)
        ensures
            s@ == node_id_text(self@.name, self@.id),
    {
        let mut s = String::new();
        push_char(&mut s, self.name);
        push_u64(&mut s, self.id as u64);
        s
    }

    pub fn name(&self) -> (c: char)
        ensures
            c == self@.name,
    {
        self.name
    }

    pub fn center(&self) -> (p: &Point)
        ensures
            *p == self@.center,
    {
        &self.center
    }

    pub fn center_freeze(&mut self, freezed: bool)
        ensures
            final(self)@ == (NodeState { center_freezed: freezed, ..old(self)@ }),
    {
        self.center_freezed = freezed;
    }

    pub fn center_freezed(&self) -> (b: bool)
        ensures
            b == self@.center_freezed,
    {
        self.center_freezed
    }

    pub fn radius(&self) -> (r: u8)
        ensures
            r == self@.radius,
    {
        self.radius
    }

    pub fn move_to(&mut self, center: Point)
        ensures
            final(self)@ == (NodeState { center, ..old(self)@ }),
    {
        self.center = center;
    }

    pub fn tag(&mut self, tag: Option<Tag>)
        ensures
            final(self)@ == (NodeState { tag, ..old(self)@ }),
    {
        self.tag = tag;
    }

    pub fn tag_created(&self) -> (b: bool)
        ensures
            b == (self@.tag == Some(Tag::Created)),
    {
        match self.tag {
            Some(Tag::Created) => true,
            _ => false,
        }
    }

    pub fn tag_deleted(&self) -> (b: bool)
        ensures
            b == (self@.tag == Some(Tag::Deleted)),
    {
        match self.tag {
            Some(Tag::Deleted) => true,
            _ => false,
        }
    }

    pub fn tag_selected(&self) -> (b: bool)
        ensures
            b == (self@.tag == Some(Tag::Selected)),
    {
        match self.tag {
            Some(Tag::Selected) => true,
            _ => false,
        }
    }

    pub fn stroke_width(&self) -> (w: u8)
        ensures
            w == self@.stroke_width,
    {
        self.stroke_width
    }

    pub fn set_fill_color(&mut self, color: Color)
        ensures
            final(self)@ == (NodeState { fill_color: color, ..old(self)@ }),
    {
        self.fill_color = color
    }

    pub fn fill_color(&self) -> (c: Color)
        ensures
            c == self@.fill_color,
    {
        self.fill_color
    }

    pub fn set_text_color(&mut self, color: Color)
        ensures
            final(self)@ == (NodeState { text_color: color, ..old(self)@ }),
    {
        self.text_color = color
    }

    pub fn text_color(&self) -> (c: Color)
        ensures
            c == self@.text_color,
    {
        self.text_color
    }

    pub fn stroke_color(&self) -> (c: Color)
        ensures
            c == self@.stroke_color,
    {
        self.stroke_color
    }

    pub fn stroke_color_init(&self) -> (c: Color)
        ensures
            c == self@.stroke_color_init,
    {
        self.stroke_color_init
    }

    pub fn set_stroke_color(&mut self, color: Color)
        ensures
            final(self)@ == (NodeState { stroke_color: color, ..old(self)@ }),
    {
        self.stroke_color = color
    }
}

} // verus!
