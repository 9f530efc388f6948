//! Graphic representation of a graph link (an SVG path with its value).
use vstd::prelude::*;
use super::color::Color;
use super::point::Point;
use super::tag::Tag;
use crate::text::{push_char, push_u64};

verus! {

/// The identifier of a link's SVG elements: the names of its two nodes followed by its
/// sequence number.
pub open spec fn link_id_text(from: char, to: char, id: u32) -> Seq<char> {
    seq![from, to] + crate::text::dec_nat(id as nat)
}

/// The abstract state of a link representation.
pub struct LinkState {
    pub id: u32,
    pub from: char,
    pub to: char,
    pub from_center: Point,
    pub to_center: Point,
    pub bidirect: bool,
    pub value: i8,
    pub stroke_color: Color,
    pub stroke_color_init: Color,
    pub text_color: Color,
    pub stroke_width: u8,
    pub tag: Option<Tag>,
}

#[derive(Clone, Copy)]
pub struct Link {
    id: u32,
    from: char,
    to: char,
    from_center: Point,
    to_center: Point,
    bidirect: bool,
    value: i8,
    stroke_color: Color,
    stroke_color_init: Color,
    text_color: Color,
    stroke_width: u8,
    tag: Option<Tag>,
}

impl View for Link {
    type V = LinkState;

    closed spec fn view(&self) -> LinkState {
        LinkState {
            id: self.id,
            from: self.from,
            to: self.to,
            from_center: self.from_center,
            to_center: self.to_center,
            bidirect: self.bidirect,
            value: self.value,
            stroke_color: self.stroke_color,
            stroke_color_init: self.stroke_color_init,
            text_color: self.text_color,
            stroke_width: self.stroke_width,
            tag: self.tag,
        }
    }
}

impl Link {
    /// A link between the centers of two nodes; its stroke color is also remembered as the
    /// initial one.
    pub fn new(
        id: u32,
        from: char,
        to: char,
        from_center: Point,
        to_center: Point,
        bidirect: bool,
        value: i8,
        stroke_color: Color,
        text_color: Color,
        stroke_width: u8,
    ) -> (l: Link)
        ensures
            l@ == (LinkState {
                id,
                from,
                to,
                from_center,
                to_center,
                bidirect,
                value,
                stroke_color,
                stroke_color_init: stroke_color,
                text_color,
                stroke_width,
                tag: None,
            }),
    {
        Link {
            id,
            from,
            to,
            from_center,
            to_center,
            bidirect,
            value,
            stroke_color,
            stroke_color_init: stroke_color,
            text_color,
            stroke_width,
            tag: None,
        }
    }

    /// The identifier of the link's SVG elements.
    pub fn id(&self) -> (s: String)
        ensures
            s@ == link_id_text(self@.from, self@.to, self@.id),
    {
        let mut s = String::new();
        push_char(&mut s, self.from);
        push_char(&mut s, self.to);
        push_u64(&mut s, self.id as u64);
        assert(s@ =~= link_id_text(self@.from, self@.to, self@.id));
        s
    }

    pub fn from(&self) -> (c: char)
        ensures
            c == self@.from,
    {
        self.from
    }

    pub fn to(&self) -> (c: char)
        ensures
            c == self@.to,
    {
        self.to
    }

    pub fn from_center(&self) -> (p: &Point)
        ensures
            *p == self@.from_center,
    {
        &self.from_center
    }

    pub fn to_center(&self) -> (p: &Point)
        ensures
            *p == self@.to_center,
    {
        &self.to_center
    }

    pub fn update_from_center(&mut self, center: Point)
        ensures
            final(self)@ == (LinkState { from_center: center, ..old(self)@ }),
    {
        self.from_center = center;
    }

    pub fn update_to_center(&mut self, center: Point)
        ensures
            final(self)@ == (LinkState { to_center: center, ..old(self)@ }),
    {
        self.to_center = center;
    }

    pub fn bidirect(&self) -> (b: bool)
        ensures
            b == self@.bidirect,
    {
        self.bidirect
    }

    pub fn value(&self) -> (v: i8)
        ensures
            v == self@.value,
    {
        self.value
    }

    pub fn stroke_color(&self) -> (c: Color)
        ensures
            c == self@.stroke_color,
    {
        self.stroke_color
    }

    pub fn set_stroke_color(&mut self, color: Color)
        ensures
            final(self)@ == (LinkState { stroke_color: color, ..old(self)@ }),
    {
        self.stroke_color = color
    }

    pub fn stroke_color_init(&self) -> (c: Color)
        ensures
            c == self@.stroke_color_init,
    {
        self.stroke_color_init
    }

    pub fn set_text_color(&mut self, color: Color)
        ensures
            final(self)@ == (LinkState { text_color: color, ..old(self)@ }),
    {
        self.text_color = color
    }

    pub fn text_color(&self) -> (c: Color)
        ensures
            c == self@.text_color,
    {
        self.text_color
    }

    pub fn stroke_width(&self) -> (w: u8)
        ensures
            w == self@.stroke_width,
    {
        self.stroke_width
    }

    pub fn tag(&mut self, tag: Option<Tag>)
        ensures
            final(self)@ == (LinkState { tag, ..old(self)@ }),
    {
        self.tag = tag;
    }

    pub fn tag_created(&self) -> (b: bool)
        ensures
            b == (self@.tag == Some(Tag::Created)),
    {
        match self.tag {
            Some(Tag::Created) => true,
            _ => false,
        }
    }

    pub fn tag_deleted(&self) -> (b: bool)
        ensures
            b == (self@.tag == Some(Tag::Deleted)),
    {
        match self.tag {
            Some(Tag::Deleted) => true,
            _ => false,
        }
    }

    pub fn tag_selected(&self) -> (b: bool)
        ensures
            b == (self@.tag == Some(Tag::Selected)),
    {
        match self.tag {
            Some(Tag::Selected) => true,
            _ => false,
        }
    }
}

} // verus!
