//! Graphic representation of a graph and its animation.
pub mod color;
pub mod html;

pub mod link;
pub mod node;
pub mod point;
pub mod svg;
pub mod tag;

use vstd::prelude::*;
use color::Color;
use link::Link;
use node::Node;
use point::Point;
use svg::Svg;
use tag::Tag;
use crate::keymap::{CharPair, KeyMap};
use crate::text::push_str;

verus! {

/// Placement of the nodes of a graph in the SVG plane.
pub trait LayoutEngine: Sized {
    /// A new engine.
    fn create() -> Self;

    /// New centers for `nodes` (name, current center, frozen position), one per node and in
    /// the same order, given the links between them (`adjacency`, where each link appears in
    /// both directions) and the radius of the nodes.
    fn arrange(
        &self,
        node_radius: u8,
        adjacency: &KeyMap<char, KeyMap<char, i8>>,
        nodes: &Vec<(char, Point, bool)>,
    ) -> Vec<Point>;

    /// Point `index` of `count` points spread evenly, in order, on the circle centered on the
    /// origin whose perimeter is `perimeter` (the first point on the positive x axis).
    fn circle_point(&self, perimeter: u32, count: u32, index: u32) -> Point;
}

/// No bounds yet: every center will lower the minima and raise the maxima.
pub open spec fn no_bounds() -> (i32, i32, i32, i32) {
    (i32::MAX, i32::MIN, i32::MAX, i32::MIN)
}

/// The animations of the links of `links`, in order, each from its previous state.
pub open spec fn links_animation_text(
    links: Seq<(CharPair, Link)>,
    initial: Map<CharPair, Link>,
    previous: Map<CharPair, Link>,
    duration: u32,
    start_time: u32,
) -> Seq<char>
    decreases links.len(),
{
    if links.len() == 0 {
        Seq::empty()
    } else {
        let (k, l) = links.last();
        links_animation_text(links.drop_last(), initial, previous, duration, start_time)
            + Svg::link_animation_text(l@, initial[k]@, previous[k]@, duration, start_time)
    }
}

/// The animations of the nodes of `nodes`, in order, each from its previous state.
pub open spec fn nodes_animation_text(
    nodes: Seq<(char, Node)>,
    initial: Map<char, Node>,
    previous: Map<char, Node>,
    duration: u32,
    start_time: u32,
) -> Seq<char>
    decreases nodes.len(),
{
    if nodes.len() == 0 {
        Seq::empty()
    } else {
        let (k, n) = nodes.last();
        nodes_animation_text(nodes.drop_last(), initial, previous, duration, start_time)
            + Svg::node_animation_text(n@, initial[k]@, previous[k]@, duration, start_time)
    }
}


/// The bounds of the centers of the nodes of the previous step, leaving out those created in
/// the current step (created in the previous one and still tagged so).
pub open spec fn previous_bounds(previous: Seq<(char, Node)>, current: Map<char, Node>) -> (i32, i32, i32, i32)
    decreases previous.len(),
{
    if previous.len() == 0 {
        no_bounds()
    } else {
        let b = previous_bounds(previous.drop_last(), current);
        let (k, n) = previous.last();
        if n@.tag == Some(Tag::Created) && current[k]@.tag == Some(Tag::Created) {
            b
        } else {
            extend_bounds(b, n@.center)
        }
    }
}

/// The bounds of the centers of the nodes that are not being deleted.
pub open spec fn current_bounds(current: Seq<(char, Node)>) -> (i32, i32, i32, i32)
    decreases current.len(),
{
    if current.len() == 0 {
        no_bounds()
    } else {
        let b = current_bounds(current.drop_last());
        let n = current.last().1;
        if n@.tag == Some(Tag::Deleted) {
            b
        } else {
            extend_bounds(b, n@.center)
        }
    }
}

/// Bounds extended to a point.
pub open spec fn extend_bounds(b: (i32, i32, i32, i32), c: Point) -> (i32, i32, i32, i32) {
    (
        if c.x < b.0 {
            c.x
        } else {
            b.0
        },
        if c.x > b.1 {
            c.x
        } else {
            b.1
        },
        if c.y < b.2 {
            c.y
        } else {
            b.2
        },
        if c.y > b.3 {
            c.y
        } else {
            b.3
        },
    )
}

/// The bounds framed after the step: those of the remaining nodes, or a default square when
/// there are none.
pub open spec fn next_frame(current: Seq<(char, Node)>) -> (i32, i32, i32, i32) {
    let b = current_bounds(current);
    if b.0 == i32::MAX {
        (-500i32, 500i32, -500i32, 500i32)
    } else {
        b
    }
}

/// The bounds framed before the step: those of the previous nodes, or the next ones when
/// there are none.
pub open spec fn current_frame(previous: Seq<(char, Node)>, current: Map<char, Node>, next: (i32, i32, i32, i32)) -> (i32, i32, i32, i32) {
    let b = previous_bounds(previous, current);
    if b.0 == i32::MAX {
        next
    } else {
        b
    }
}

pub struct Renderer {
    nodes: KeyMap<char, Node>,
    links: KeyMap<CharPair, Link>,
    previous_nodes: KeyMap<char, Node>,
    previous_links: KeyMap<CharPair, Link>,
    initial_nodes: KeyMap<char, Node>,
    initial_links: KeyMap<CharPair, Link>,
    animation: String,
    svg: Svg,
    pub p_color_node_fill: Color,
    pub p_color_node_stroke: Color,
    pub p_color_link_stroke: Color,
    pub p_color_node_text: Color,
    pub p_color_link_text: Color,
    total_duration: u32,
    svg_first_lign: String,
    id_counter: u32,
}

impl Renderer {
    /// The nodes drawn in the current state, by name.
    pub closed spec fn node_map(&self) -> KeyMap<char, Node> {
        self.nodes
    }

    /// The links drawn in the current state, by (from, to).
    pub closed spec fn link_map(&self) -> KeyMap<CharPair, Link> {
        self.links
    }

    /// The nodes as they were at the end of the previous animation step.
    pub closed spec fn previous_node_map(&self) -> KeyMap<char, Node> {
        self.previous_nodes
    }

    /// The links as they were at the end of the previous animation step.
    pub closed spec fn previous_link_map(&self) -> KeyMap<CharPair, Link> {
        self.previous_links
    }

    /// The nodes as they were created.
    pub closed spec fn initial_node_map(&self) -> KeyMap<char, Node> {
        self.initial_nodes
    }

    /// The links as they were created.
    pub closed spec fn initial_link_map(&self) -> KeyMap<CharPair, Link> {
        self.initial_links
    }

    /// The SVG elements and animations rendered so far.
    pub closed spec fn animation_text(&self) -> Seq<char> {
        self.animation@
    }

    /// The opening tag of the SVG picture (empty until the first animation step).
    pub closed spec fn first_line(&self) -> Seq<char> {
        self.svg_first_lign@
    }

    /// The total duration of the animation steps (and pauses) so far.
    pub closed spec fn total(&self) -> u32 {
        self.total_duration
    }

    /// The last sequence number given to a graphic element.
    pub closed spec fn last_id(&self) -> u32 {
        self.id_counter
    }

    /// The drawing parameters.
    pub closed spec fn svg_params(&self) -> Svg {
        self.svg
    }

    pub closed spec fn wf(&self) -> bool {
        &&& self.nodes.wf()
        &&& self.links.wf()
        &&& self.previous_nodes.wf()
        &&& self.previous_links.wf()
        &&& self.initial_nodes.wf()
        &&& self.initial_links.wf()
        &&& self.previous_nodes@.dom() == self.nodes@.dom()
        &&& self.initial_nodes@.dom() == self.nodes@.dom()
        &&& self.previous_links@.dom() == self.links@.dom()
        &&& self.initial_links@.dom() == self.links@.dom()
        &&& forall|k: char| #[trigger] self.nodes@.contains_key(k) ==> self.nodes@[k]@.name == k
        &&& forall|k: char| #[trigger] self.previous_nodes@.contains_key(k) ==> self.previous_nodes@[k]@.name == k
    }
}


/// The sequence number that follows `id` (wrapping around after `u32::MAX`).
pub open spec fn next_id(id: u32) -> u32 {
    if id == u32::MAX {
        0
    } else {
        (id + 1) as u32
    }
}

/// `a + b`, wrapping around after `u32::MAX`.
pub open spec fn add_wrapping(a: u32, b: u32) -> u32 {
    ((a as int + b as int) % 0x1_0000_0000) as u32
}

/// `t` with the durations `ds` added, one after the other (wrapping as a `u32`).
pub open spec fn added_up(t: u32, ds: Seq<u32>) -> u32
    decreases ds.len(),
{
    if ds.len() == 0 {
        t
    } else {
        add_wrapping(added_up(t, ds.drop_last()), ds.last())
    }
}

/// The total duration of a picture adds up the durations of its changes: when each change in
/// turn adds its duration to the total (a pause of `sleep` or a step of `animate` its length,
/// any other change 0), the total at the end is the total at the start with all the durations
/// added; a picture from `new` starts at 0.
pub proof fn law_duration_adds_up(totals: Seq<u32>, ds: Seq<u32>)
    requires
        totals.len() == ds.len() + 1,
        forall|i: int| 0 <= i < ds.len() ==> totals[i + 1] == add_wrapping(#[trigger] totals[i], ds[i]),
    ensures
        totals.last() == added_up(totals[0], ds),
    decreases ds.len(),
{
    if ds.len() > 0 {
        let t0 = totals.drop_last();
        let d0 = ds.drop_last();
        assert forall|i: int| 0 <= i < d0.len() implies t0[i + 1] == add_wrapping(#[trigger] t0[i], d0[i]) by {
            assert(t0[i] == totals[i] && t0[i + 1] == totals[i + 1] && d0[i] == ds[i]);
        }
        law_duration_adds_up(t0, d0);
        let n = ds.len() - 1;
        assert(totals[n + 1] == add_wrapping(totals[n], ds[n]));
    }
}

/// A change that keeps the total adds 0 to it.
pub proof fn lemma_add_nothing(t: u32)
    ensures
        add_wrapping(t, 0) == t,
{
}

/// A link whose ends follow the node `name` to its new center `c`.
pub open spec fn link_following(l: link::LinkState, name: char, c: Point) -> link::LinkState {
    link::LinkState {
        from_center: if l.from == name {
            c
        } else {
            l.from_center
        },
        to_center: if l.to == name {
            c
        } else {
            l.to_center
        },
        ..l
    }
}

impl Renderer {
    /// The state of a node named `name` created with the sequence number `id`.
    pub open spec fn created_node(&self, id: u32, name: char, center: Option<Point>) -> node::NodeState {
        node::NodeState {
            id,
            name,
            center: match center {
                Some(c) => c,
                None => Point { x: 0, y: 0 },
            },
            center_freezed: center is Some,
            radius: self.svg_params().p_radius_node,
            fill_color: self.colors().0,
            stroke_color: self.colors().1,
            stroke_color_init: self.colors().1,
            text_color: self.colors().3,
            stroke_width: self.svg_params().p_stroke_width_node,
            tag: Some(Tag::Created),
        }
    }

    /// The state of a link created with the sequence number `id`.
    pub open spec fn created_link(
        &self,
        id: u32,
        from: char,
        to: char,
        bidirect: bool,
        value: i8,
    ) -> link::LinkState {
        link::LinkState {
            id,
            from,
            to,
            from_center: self.node_map()@[from]@.center,
            to_center: self.node_map()@[to]@.center,
            bidirect,
            value,
            stroke_color: self.colors().2,
            stroke_color_init: self.colors().2,
            text_color: self.colors().4,
            stroke_width: self.svg_params().p_stroke_width_link,
            tag: Some(Tag::Created),
        }
    }

    /// The key of the link between `a` and `b`: `(a, b)` if there is one, else `(b, a)`.
    pub open spec fn link_key(&self, a: char, b: char) -> CharPair {
        if self.link_map()@.contains_key(CharPair(a, b)) {
            CharPair(a, b)
        } else {
            CharPair(b, a)
        }
    }

    /// Whether there is a link between `a` and `b` (in either direction).
    pub open spec fn has_link_between(&self, a: char, b: char) -> bool {
        self.link_map()@.contains_key(CharPair(a, b)) || self.link_map()@.contains_key(
            CharPair(b, a),
        )
    }

    /// The same graphic elements, drawing parameters and colors.
    pub open spec fn same_elements(&self, other: &Renderer) -> bool {
        &&& self.node_map() == other.node_map()
        &&& self.link_map() == other.link_map()
        &&& self.previous_link_map() == other.previous_link_map()
        &&& self.initial_link_map() == other.initial_link_map()
        &&& self.previous_node_map() == other.previous_node_map()
        &&& self.initial_node_map() == other.initial_node_map()
        &&& self.svg_params() == other.svg_params()
        &&& self.colors() == other.colors()
    }

    /// Everything but the nodes is unchanged.
    pub open spec fn same_but_nodes(&self, other: &Renderer) -> bool {
        &&& self.link_map() == other.link_map()
        &&& self.previous_link_map() == other.previous_link_map()
        &&& self.initial_link_map() == other.initial_link_map()
        &&& self.previous_node_map() == other.previous_node_map()
        &&& self.initial_node_map() == other.initial_node_map()
        &&& self.animation_text() == other.animation_text()
        &&& self.first_line() == other.first_line()
        &&& self.total() == other.total()
        &&& self.last_id() == other.last_id()
        &&& self.svg_params() == other.svg_params()
        &&& self.colors() == other.colors()
    }

    /// Everything but the links is unchanged.
    pub open spec fn same_but_links(&self, other: &Renderer) -> bool {
        &&& self.node_map() == other.node_map()
        &&& self.previous_link_map() == other.previous_link_map()
        &&& self.initial_link_map() == other.initial_link_map()
        &&& self.previous_node_map() == other.previous_node_map()
        &&& self.initial_node_map() == other.initial_node_map()
        &&& self.animation_text() == other.animation_text()
        &&& self.first_line() == other.first_line()
        &&& self.total() == other.total()
        &&& self.last_id() == other.last_id()
        &&& self.svg_params() == other.svg_params()
        &&& self.colors() == other.colors()
    }

    /// The default colors of new elements: node fill, node stroke, link stroke, node text,
    /// link text.
    pub closed spec fn colors(&self) -> (Color, Color, Color, Color, Color) {
        (
            self.p_color_node_fill,
            self.p_color_node_stroke,
            self.p_color_link_stroke,
            self.p_color_node_text,
            self.p_color_link_text,
        )
    }

    pub fn new(
        show_value: bool,
        show_name: bool,
        p_color_node_fill: Color,
        p_color_node_stroke: Color,
        p_color_link_stroke: Color,
        p_color_node_text: Color,
        p_color_link_text: Color,
        p_radius_node: u8,
    ) -> (r: Renderer)
        ensures
            r.wf(),
            r.node_map()@ == Map::<char, Node>::empty(),
            r.link_map()@ == Map::<CharPair, Link>::empty(),
            r.animation_text() == Seq::<char>::empty(),
            r.first_line() == Seq::<char>::empty(),
            r.total() == 0,
            r.last_id() == 0,
            r.svg_params() == (Svg {
                p_display_node_label: show_name,
                p_display_node_value: false,
                p_display_link_label: false,
                p_display_link_value: show_value,
                p_stroke_width_node: 2,
                p_stroke_width_link: 2,
                p_radius_node,
            }),
            r.colors() == (
                p_color_node_fill,
                p_color_node_stroke,
                p_color_link_stroke,
                p_color_node_text,
                p_color_link_text,
            ),
    {
        let p_display_node_label = show_name;
        let p_display_link_value = show_value;
        let p_stroke_width_node: u8 = 2;
        let p_stroke_width_link: u8 = 2;
        let svg = Svg::new(
            p_display_node_label,
            false,
            false,
            p_display_link_value,
            p_stroke_width_node,
            p_stroke_width_link,
            p_radius_node,
        );
        Renderer {
            nodes: KeyMap::new(),
            links: KeyMap::new(),
            previous_nodes: KeyMap::new(),
            previous_links: KeyMap::new(),
            initial_nodes: KeyMap::new(),
            initial_links: KeyMap::new(),
            animation: String::new(),
            svg,
            p_color_node_fill,
            p_color_node_stroke,
            p_color_link_stroke,
            p_color_node_text,
            p_color_link_text,
            total_duration: 0,
            svg_first_lign: String::new(),
            id_counter: 0,
        }
    }

    /// The next sequence number of graphic elements.
    fn id_seq(&mut self) -> (id: u32)
        ensures
            id == next_id(old(self).id_counter),
            *final(self) == (Renderer { id_counter: id, ..*old(self) }),
    {
        self.id_counter = self.id_counter.wrapping_add(1);
        self.id_counter
    }

    /// The last id given to a graphic element (0 before the first).
    pub fn last_id_given(&self) -> (id: u32)
        ensures
            id == self.last_id(),
    {
        self.id_counter
    }

    /// Makes the ids given from now on follow `after` (when they are below it), so that the
    /// elements of this picture and those of a picture whose last id is `after` can stand on
    /// the same page without two elements sharing an id.
    pub fn continue_ids(&mut self, after: u32)
        ensures
            final(self).last_id() == if after > old(self).last_id() { after } else { old(self).last_id() },
            final(self).total() == old(self).total(),
            final(self).same_elements(old(self)),
            final(self).animation_text() == old(self).animation_text(),
            final(self).first_line() == old(self).first_line(),
            final(self).wf() == old(self).wf(),
    {
        if after > self.id_counter {
            self.id_counter = after;
        }
    }

    /// Delays the next animation step by `duration` milliseconds.
    pub fn sleep(&mut self, duration: u32)
        ensures
            final(self).total() == add_wrapping(old(self).total(), duration),
            final(self).same_elements(old(self)),
            final(self).animation_text() == old(self).animation_text(),
            final(self).first_line() == old(self).first_line(),
            final(self).last_id() == old(self).last_id(),
            final(self).wf() == old(self).wf(),
    {
        self.total_duration = self.total_duration.wrapping_add(duration);
    }

    /// The total duration, in milliseconds, of the animation so far.
    pub fn duration(&self) -> (d: u32)
        ensures
            d == self.total(),
    {
        self.total_duration
    }

    /// Creates the representation of node `name`, drawn at `center` if one is given (which
    /// freezes its position) or else at the origin, and tagged as created.
    pub fn add_node(&mut self, name: char, center: Option<Point>)
        requires
            old(self).wf(),
        ensures
            final(self).wf(),
            final(self).last_id() == next_id(old(self).last_id()),
            old(self).last_id() < u32::MAX ==> final(self).last_id() > old(self).last_id(),
            final(self).node_map()@.contains_key(name),
            final(self).node_map()@[name]@ == old(self).created_node(final(self).last_id(), name, center),
            final(self).node_map()@ == old(self).node_map()@.insert(name, final(self).node_map()@[name]),
            final(self).previous_node_map()@ == old(self).previous_node_map()@.insert(name, final(self).node_map()@[name]),
            final(self).initial_node_map()@ == old(self).initial_node_map()@.insert(name, final(self).node_map()@[name]),
            final(self).animation_text() == old(self).animation_text() + old(self).svg_params().node_text(final(self).node_map()@[name]@),
            final(self).link_map() == old(self).link_map(),
            final(self).previous_link_map() == old(self).previous_link_map(),
            final(self).initial_link_map() == old(self).initial_link_map(),
            final(self).first_line() == old(self).first_line(),
            final(self).total() == old(self).total(),
            final(self).svg_params() == old(self).svg_params(),
            final(self).colors() == old(self).colors(),
    {
        let id = self.id_seq();
        let mut node = Node::new(
            id,
            name,
            center,
            self.svg.p_radius_node,
            self.p_color_node_fill,
            self.p_color_node_stroke,
            self.p_color_node_text,
            self.svg.p_stroke_width_node,
        );
        node.tag(Some(Tag::Created));
        self.nodes.insert(node.name(), node);
        self.previous_nodes.insert(node.name(), node);
        self.initial_nodes.insert(node.name(), node);
        let text = self.svg.instantiate_node(&node);
        push_str(&mut self.animation, text.as_str());
    }

    /// Tags node `name` as deleted (it disappears at the next animation step).
    pub fn delete_node(&mut self, name: char)
        requires
            old(self).wf(),
            old(self).node_map()@.contains_key(name),
        ensures
            final(self).wf(),
            final(self).node_map()@.contains_key(name),
            final(self).node_map()@[name]@ == (node::NodeState {
                tag: Some(Tag::Deleted),
                ..old(self).node_map()@[name]@
            }),
            final(self).node_map()@ == old(self).node_map()@.insert(name, final(self).node_map()@[name]),
            final(self).same_but_nodes(old(self)),
    {
        let i = self.nodes.find(&name).unwrap();
        let mut node = *self.nodes.value_at(i);
        node.tag(Some(Tag::Deleted));
        self.nodes.set_value_at(i, node);
        assert(self.nodes@.dom() =~= old(self).nodes@.dom());
    }

    /// Creates the representation of the link from `from` to `to`, drawn between the
    /// centers of the two nodes and tagged as created. Links are drawn under the nodes: its
    /// SVG text goes before everything rendered so far.
    pub fn add_link(&mut self, from: char, to: char, bidirect: bool, value: i8)
        requires
            old(self).wf(),
            old(self).node_map()@.contains_key(from),
            old(self).node_map()@.contains_key(to),
        ensures
            final(self).wf(),
            final(self).last_id() == next_id(old(self).last_id()),
            final(self).link_map()@.contains_key(CharPair(from, to)),
            final(self).link_map()@[CharPair(from, to)]@ == old(self).created_link(final(self).last_id(), from, to, bidirect, value),
            final(self).link_map()@ == old(self).link_map()@.insert(CharPair(from, to), final(self).link_map()@[CharPair(from, to)]),
            final(self).previous_link_map()@ == old(self).previous_link_map()@.insert(CharPair(from, to), final(self).link_map()@[CharPair(from, to)]),
            final(self).initial_link_map()@ == old(self).initial_link_map()@.insert(CharPair(from, to), final(self).link_map()@[CharPair(from, to)]),
            final(self).animation_text() == old(self).svg_params().link_text(final(self).link_map()@[CharPair(from, to)]@) + old(self).animation_text(),
            final(self).node_map() == old(self).node_map(),
            final(self).previous_node_map() == old(self).previous_node_map(),
            final(self).initial_node_map() == old(self).initial_node_map(),
            final(self).first_line() == old(self).first_line(),
            final(self).total() == old(self).total(),
            final(self).svg_params() == old(self).svg_params(),
            final(self).colors() == old(self).colors(),
    {
        let id_seq = self.id_seq();
        let from_node = *self.nodes.get(&from).unwrap();
        let to_node = *self.nodes.get(&to).unwrap();
        let mut link = Link::new(
            id_seq,
            from_node.name(),
            to_node.name(),
            *from_node.center(),
            *to_node.center(),
            bidirect,
            value,
            self.p_color_link_stroke,
            self.p_color_link_text,
            self.svg.p_stroke_width_link,
        );
        link.tag(Some(Tag::Created));
        let key = CharPair(from_node.name(), to_node.name());
        self.links.insert(key, link);
        self.previous_links.insert(key, link);
        self.initial_links.insert(key, link);
        let mut text = self.svg.instantiate_link(&link);
        push_str(&mut text, self.animation.as_str());
        self.animation = text;
    }

    /// Tags the link between `from` and `to` as deleted (it disappears at the next
    /// animation step).
    pub fn delete_link(&mut self, from: char, to: char)
        requires
            old(self).wf(),
            old(self).has_link_between(from, to),
        ensures
            final(self).wf(),
            final(self).link_map()@ == old(self).link_map()@.insert(old(self).link_key(from, to), final(self).link_map()@[old(self).link_key(from, to)]),
            final(self).link_map()@[old(self).link_key(from, to)]@ == (link::LinkState {
                tag: Some(Tag::Deleted),
                ..old(self).link_map()@[old(self).link_key(from, to)]@
            }),
            final(self).same_but_links(old(self)),
    {
        let i = match self.links.find(&CharPair(from, to)) {
            Some(i) => i,
            None => self.links.find(&CharPair(to, from)).unwrap(),
        };
        let mut link = *self.links.value_at(i);
        link.tag(Some(Tag::Deleted));
        self.links.set_value_at(i, link);
        assert(self.links@.dom() =~= old(self).links@.dom());
    }
}


impl Renderer {
    /// Moves node `name` to `center` and sets whether its position is frozen; the ends of its
    /// links follow it. Nothing changes when the node already is at `center`.
    pub fn node_move(&mut self, name: char, center: Point, freezed: bool)
        requires
            old(self).wf(),
            old(self).node_map()@.contains_key(name),
        ensures
            final(self).wf(),
            old(self).node_map()@[name]@.center == center ==> *final(self) == *old(self),
            old(self).node_map()@[name]@.center != center ==> {
                &&& final(self).node_map()@.contains_key(name)
                &&& final(self).node_map()@[name]@ == (node::NodeState {
                    center,
                    center_freezed: freezed,
                    ..old(self).node_map()@[name]@
                })
                &&& final(self).node_map()@ == old(self).node_map()@.insert(
                    name,
                    final(self).node_map()@[name],
                )
                &&& final(self).link_map()@.dom() == old(self).link_map()@.dom()
                &&& forall|k: CharPair| #[trigger]
                    final(self).link_map()@.contains_key(k) ==> final(self).link_map()@[k]@
                        == link_following(old(self).link_map()@[k]@, name, center)
                &&& final(self).previous_node_map() == old(self).previous_node_map()
                &&& final(self).initial_node_map() == old(self).initial_node_map()
                &&& final(self).previous_link_map() == old(self).previous_link_map()
                &&& final(self).initial_link_map() == old(self).initial_link_map()
                &&& final(self).animation_text() == old(self).animation_text()
                &&& final(self).first_line() == old(self).first_line()
                &&& final(self).total() == old(self).total()
                &&& final(self).last_id() == old(self).last_id()
                &&& final(self).svg_params() == old(self).svg_params()
                &&& final(self).colors() == old(self).colors()
            },
    {
        let i = self.nodes.find(&name).unwrap();
        let mut node = *self.nodes.value_at(i);
        let center_curr = *node.center();
        if center_curr.x() == center.x() && center_curr.y() == center.y() {
            return;
        }
        node.move_to(center);
        node.center_freeze(freezed);
        self.nodes.set_value_at(i, node);
        assert(self.nodes@.dom() =~= old(self).nodes@.dom());
        let ghost old_links = self.links@;
        let mut links = KeyMap::new();
        std::mem::swap(&mut links, &mut self.links);
        let mut j: usize = 0;
        while j < links.len()
            invariant
                links.wf(),
                0 <= j <= links.spec_len(),
                links.keys() == old(self).links.keys(),
                links@.dom() == old_links.dom(),
                old_links == old(self).links@,
                forall|a: int| #![trigger links.pairs()[a]]
                    0 <= a < j ==> links.pairs()[a].1@ == link_following(
                        old_links[links.pairs()[a].0]@,
                        name,
                        center,
                    ),
                forall|a: int| #![trigger links.pairs()[a]]
                    j <= a < links.spec_len() ==> links.pairs()[a].1 == old_links[links.pairs()[a].0],
            decreases links.spec_len() - j,
        {
            let mut link = *links.value_at(j);
            if link.from() == name {
                link.update_from_center(center);
            }
            if link.to() == name {
                link.update_to_center(center);
            }
            proof {
                links.lemma_entry(j as int);
            }
            links.set_value_at(j, link);
            j = j + 1;
        }
        proof {
            assert forall|k: CharPair| #[trigger] links@.contains_key(k) implies links@[k]@
                == link_following(old_links[k]@, name, center) by {
                links.lemma_key_in_keys(k);
            }
        }
        self.links = links;
    }

    /// Sets whether the position of node `name` is frozen.
    pub fn node_freezed(&mut self, name: char, freezed: bool)
        requires
            old(self).wf(),
            old(self).node_map()@.contains_key(name),
        ensures
            final(self).wf(),
            final(self).node_map()@.contains_key(name),
            final(self).node_map()@[name]@ == (node::NodeState {
                center_freezed: freezed,
                ..old(self).node_map()@[name]@
            }),
            final(self).node_map()@ == old(self).node_map()@.insert(name, final(self).node_map()@[name]),
            final(self).same_but_nodes(old(self)),
    {
        let i = self.nodes.find(&name).unwrap();
        let mut node = *self.nodes.value_at(i);
        node.center_freeze(freezed);
        self.nodes.set_value_at(i, node);
        assert(self.nodes@.dom() =~= old(self).nodes@.dom());
    }

    /// Sets the fill color of node `name`.
    pub fn node_fill_color(&mut self, name: char, rgb: (u8, u8, u8))
        requires
            old(self).wf(),
            old(self).node_map()@.contains_key(name),
        ensures
            final(self).wf(),
            final(self).node_map()@.contains_key(name),
            final(self).node_map()@[name]@ == (node::NodeState {
                fill_color: Color { r: rgb.0, g: rgb.1, b: rgb.2 },
                ..old(self).node_map()@[name]@
            }),
            final(self).node_map()@ == old(self).node_map()@.insert(name, final(self).node_map()@[name]),
            final(self).same_but_nodes(old(self)),
    {
        let i = self.nodes.find(&name).unwrap();
        let mut node = *self.nodes.value_at(i);
        node.set_fill_color(Color::from_rgb(rgb));
        self.nodes.set_value_at(i, node);
        assert(self.nodes@.dom() =~= old(self).nodes@.dom());
    }

    /// Sets the label color of node `name`.
    pub fn node_text_color(&mut self, name: char, rgb: (u8, u8, u8))
        requires
            old(self).wf(),
            old(self).node_map()@.contains_key(name),
        ensures
            final(self).wf(),
            final(self).node_map()@.contains_key(name),
            final(self).node_map()@[name]@ == (node::NodeState {
                text_color: Color { r: rgb.0, g: rgb.1, b: rgb.2 },
                ..old(self).node_map()@[name]@
            }),
            final(self).node_map()@ == old(self).node_map()@.insert(name, final(self).node_map()@[name]),
            final(self).same_but_nodes(old(self)),
    {
        let i = self.nodes.find(&name).unwrap();
        let mut node = *self.nodes.value_at(i);
        node.set_text_color(Color::from_rgb(rgb));
        self.nodes.set_value_at(i, node);
        assert(self.nodes@.dom() =~= old(self).nodes@.dom());
    }

    /// Sets the stroke color of node `name`.
    pub fn node_stroke_color(&mut self, name: char, rgb: (u8, u8, u8))
        requires
            old(self).wf(),
            old(self).node_map()@.contains_key(name),
        ensures
            final(self).wf(),
            final(self).node_map()@.contains_key(name),
            final(self).node_map()@[name]@ == (node::NodeState {
                stroke_color: Color { r: rgb.0, g: rgb.1, b: rgb.2 },
                ..old(self).node_map()@[name]@
            }),
            final(self).node_map()@ == old(self).node_map()@.insert(name, final(self).node_map()@[name]),
            final(self).same_but_nodes(old(self)),
    {
        let i = self.nodes.find(&name).unwrap();
        let mut node = *self.nodes.value_at(i);
        node.set_stroke_color(Color::from_rgb(rgb));
        self.nodes.set_value_at(i, node);
        assert(self.nodes@.dom() =~= old(self).nodes@.dom());
    }

    /// Sets the text color of the link between `name_1` and `name_2`.
    pub fn link_text_color(&mut self, name_1: char, name_2: char, rgb: (u8, u8, u8))
        requires
            old(self).wf(),
            old(self).has_link_between(name_1, name_2),
        ensures
            final(self).wf(),
            final(self).link_map()@ == old(self).link_map()@.insert(old(self).link_key(name_1, name_2), final(self).link_map()@[old(self).link_key(name_1, name_2)]),
            final(self).link_map()@[old(self).link_key(name_1, name_2)]@ == (link::LinkState {
                text_color: Color { r: rgb.0, g: rgb.1, b: rgb.2 },
                ..old(self).link_map()@[old(self).link_key(name_1, name_2)]@
            }),
            final(self).same_but_links(old(self)),
    {
        let i = match self.links.find(&CharPair(name_1, name_2)) {
            Some(i) => i,
            None => self.links.find(&CharPair(name_2, name_1)).unwrap(),
        };
        let mut link = *self.links.value_at(i);
        link.set_text_color(Color::from_rgb(rgb));
        self.links.set_value_at(i, link);
        assert(self.links@.dom() =~= old(self).links@.dom());
    }

    /// Sets the stroke color of the link between `name_1` and `name_2`.
    pub fn link_stroke_color(&mut self, name_1: char, name_2: char, rgb: (u8, u8, u8))
        requires
            old(self).wf(),
            old(self).has_link_between(name_1, name_2),
        ensures
            final(self).wf(),
            final(self).link_map()@ == old(self).link_map()@.insert(old(self).link_key(name_1, name_2), final(self).link_map()@[old(self).link_key(name_1, name_2)]),
            final(self).link_map()@[old(self).link_key(name_1, name_2)]@ == (link::LinkState {
                stroke_color: Color { r: rgb.0, g: rgb.1, b: rgb.2 },
                ..old(self).link_map()@[old(self).link_key(name_1, name_2)]@
            }),
            final(self).same_but_links(old(self)),
    {
        let i = match self.links.find(&CharPair(name_1, name_2)) {
            Some(i) => i,
            None => self.links.find(&CharPair(name_2, name_1)).unwrap(),
        };
        let mut link = *self.links.value_at(i);
        link.set_stroke_color(Color::from_rgb(rgb));
        self.links.set_value_at(i, link);
        assert(self.links@.dom() =~= old(self).links@.dom());
    }

    /// The center of node `name`.
    pub fn node_center(&self, name: char) -> (p: &Point)
        requires
            self.wf(),
            self.node_map()@.contains_key(name),
        ensures
            *p == self.node_map()@[name]@.center,
    {
        self.nodes.get(&name).unwrap().center()
    }

    /// Whether some node is tagged as deleted (it is drawn until the next animation step).
    pub fn has_deleted_node(&self) -> (b: bool)
        requires
            self.wf(),
        ensures
            b == exists|k: char| #[trigger] self.node_map()@.contains_key(k) && self.node_map()@[k]@.tag == Some(Tag::Deleted),
    {
        let mut i: usize = 0;
        while i < self.nodes.len()
            invariant
                self.wf(),
                i <= self.nodes.spec_len(),
                forall|j: int| 0 <= j < i ==> (#[trigger] self.nodes.pairs()[j]).1@.tag != Some(Tag::Deleted),
            decreases self.nodes.spec_len() - i,
        {
            if self.nodes.value_at(i).tag_deleted() {
                proof {
                    self.nodes.lemma_entry(i as int);
                    let k = self.nodes.pairs()[i as int].0;
                    assert(self.node_map()@.contains_key(k) && self.node_map()@[k]@.tag == Some(Tag::Deleted));
                }
                return true;
            }
            i = i + 1;
        }
        proof {
            assert forall|k: char| #[trigger] self.node_map()@.contains_key(k) implies self.node_map()@[k]@.tag != Some(Tag::Deleted) by {
                self.nodes.lemma_key_in_keys(k);
                let j = self.nodes.keys().index_of(k);
                assert(self.nodes.pairs()[j].1@.tag != Some(Tag::Deleted));
            }
        }
        false
    }

    /// Whether the position of node `name` is frozen.
    pub fn node_center_freezed(&self, name: char) -> (b: bool)
        requires
            self.wf(),
            self.node_map()@.contains_key(name),
        ensures
            b == self.node_map()@[name]@.center_freezed,
    {
        self.nodes.get(&name).unwrap().center_freezed()
    }
}


fn extend(b: (i32, i32, i32, i32), c: Point) -> (r: (i32, i32, i32, i32))
    ensures
        r == extend_bounds(b, c),
{
    (
        if c.x < b.0 {
            c.x
        } else {
            b.0
        },
        if c.x > b.1 {
            c.x
        } else {
            b.1
        },
        if c.y < b.2 {
            c.y
        } else {
            b.2
        },
        if c.y > b.3 {
            c.y
        } else {
            b.3
        },
    )
}

impl Renderer {
    /// The view box framing of an animation step: on the first step, sets the opening tag of
    /// the picture and returns nothing; afterwards returns the animation of the view box from
    /// the previous framing to the next one.
    fn animate_viewbox(&mut self, duration: u32) -> (svg: String)
        requires
            old(self).wf(),
        ensures
            ({
                let next = next_frame(old(self).nodes.pairs());
                let curr = current_frame(old(self).previous_nodes.pairs(), old(self).nodes@, next);
                if old(self).svg_first_lign@.len() == 0 {
                    &&& *final(self) == (Renderer {
                        svg_first_lign: final(self).svg_first_lign,
                        ..*old(self)
                    })
                    &&& final(self).svg_first_lign@ == old(self).svg.viewbox_text(
                        curr.0 as int,
                        curr.1 as int,
                        curr.2 as int,
                        curr.3 as int,
                    )
                    &&& svg@ == Seq::<char>::empty()
                } else {
                    &&& *final(self) == *old(self)
                    &&& svg@ == old(self).svg.viewbox_animation_text(
                        curr.0 as int,
                        curr.1 as int,
                        curr.2 as int,
                        curr.3 as int,
                        next.0 as int,
                        next.1 as int,
                        next.2 as int,
                        next.3 as int,
                        duration,
                        old(self).total_duration,
                    )
                }
            }),
    {
        let mut curr: (i32, i32, i32, i32) = (i32::MAX, i32::MIN, i32::MAX, i32::MIN);
        let mut i: usize = 0;
        while i < self.previous_nodes.len()
            invariant
                self.wf(),
                i <= self.previous_nodes.spec_len(),
                curr == previous_bounds(self.previous_nodes.pairs().take(i as int), self.nodes@),
            decreases self.previous_nodes.spec_len() - i,
        {
            let node = self.previous_nodes.value_at(i);
            let k = self.previous_nodes.key_at(i);
            assert(self.previous_nodes.pairs().take(i + 1).drop_last() =~= self.previous_nodes.pairs().take(i as int));
            if node.tag_created() && self.nodes.get(&node.name()).unwrap().tag_created() {
            } else {
                curr = extend(curr, *node.center());
            }
            i = i + 1;
        }
        assert(self.previous_nodes.pairs().take(i as int) =~= self.previous_nodes.pairs());
        let mut next: (i32, i32, i32, i32) = (i32::MAX, i32::MIN, i32::MAX, i32::MIN);
        let mut i: usize = 0;
        while i < self.nodes.len()
            invariant
                self.wf(),
                i <= self.nodes.spec_len(),
                next == current_bounds(self.nodes.pairs().take(i as int)),
            decreases self.nodes.spec_len() - i,
        {
            let node = self.nodes.value_at(i);
            assert(self.nodes.pairs().take(i + 1).drop_last() =~= self.nodes.pairs().take(i as int));
            if !node.tag_deleted() {
                next = extend(next, *node.center());
            }
            i = i + 1;
        }
        assert(self.nodes.pairs().take(i as int) =~= self.nodes.pairs());
        if next.0 == i32::MAX {
            next = (-500, 500, -500, 500);
        }
        if curr.0 == i32::MAX {
            curr = next;
        }
        if self.svg_first_lign.as_str().is_empty() {
            self.svg_first_lign = self.svg.instanciate_viewbox(curr.0, curr.1, curr.2, curr.3);
            String::new()
        } else {
            self.svg.animate_viewbox(
                curr.0,
                curr.1,
                curr.2,
                curr.3,
                next.0,
                next.1,
                next.2,
                next.3,
                duration,
                self.total_duration,
            )
        }
    }

    /// The whole animation: the opening tag of the picture, everything rendered so far, and
    /// the closing tag; empty before the first animation step.
    pub fn animation(&self) -> (svg: String)
        ensures
            svg@ == if self.first_line().len() == 0 {
                Seq::<char>::empty()
            } else {
                self.first_line() + self.animation_text() + "</svg>"@
            },
    {
        let mut svg = String::new();
        if self.svg_first_lign.as_str().is_empty() {
            return svg;
        }
        push_str(&mut svg, self.svg_first_lign.as_str());
        push_str(&mut svg, self.animation.as_str());
        push_str(&mut svg, "</svg>");
        svg
    }
}


/// A node after an animation step: it loses its "created" tag.
pub open spec fn settled_node(n: node::NodeState) -> node::NodeState {
    if n.tag == Some(Tag::Created) {
        node::NodeState { tag: None, ..n }
    } else {
        n
    }
}

/// A link after an animation step: it loses its "created" tag.
pub open spec fn settled_link(l: link::LinkState) -> link::LinkState {
    if l.tag == Some(Tag::Created) {
        link::LinkState { tag: None, ..l }
    } else {
        l
    }
}

/// After an animation step, the nodes tagged as deleted are gone from the current, previous
/// and initial nodes, and the others lose their "created" tag.
fn sweep_nodes(
    nodes: &mut KeyMap<char, Node>,
    previous: &mut KeyMap<char, Node>,
    initial: &mut KeyMap<char, Node>,
)
    requires
        old(nodes).wf(),
        old(previous).wf(),
        old(initial).wf(),
        old(previous)@.dom() == old(nodes)@.dom(),
        old(initial)@.dom() == old(nodes)@.dom(),
    ensures
        final(nodes).wf(),
        final(previous).wf(),
        final(initial).wf(),
        forall|k: char| #[trigger] final(nodes)@.contains_key(k) <==> (old(nodes)@.contains_key(k) && old(nodes)@[k]@.tag != Some(Tag::Deleted)),
        forall|k: char| #[trigger] final(nodes)@.contains_key(k) ==> final(nodes)@[k]@ == settled_node(old(nodes)@[k]@),
        final(previous)@ == old(previous)@.restrict(final(nodes)@.dom()),
        final(initial)@ == old(initial)@.restrict(final(nodes)@.dom()),
{
    let ghost orig = nodes@;
    let ghost orig_prev = previous@;
    let ghost orig_init = initial@;
    let ks = nodes.keys_vec();
    proof {
        nodes.lemma_keys();
    }
    let mut i: usize = 0;
    while i < ks.len()
        invariant
            nodes.wf(),
            previous.wf(),
            initial.wf(),
            i <= ks@.len(),
            ks@.no_duplicates(),
            forall|k: char| #[trigger] orig.contains_key(k) <==> ks@.contains(k),
            forall|k: char| #[trigger] nodes@.contains_key(k) <==> (orig.contains_key(k) && !(ks@.take(i as int).contains(k) && orig[k]@.tag == Some(Tag::Deleted))),
            forall|k: char| #[trigger] nodes@.contains_key(k) ==> (if ks@.take(i as int).contains(k) { nodes@[k]@ == settled_node(orig[k]@) } else { nodes@[k] == orig[k] }),
            previous@ == orig_prev.restrict(nodes@.dom()),
            initial@ == orig_init.restrict(nodes@.dom()),
            orig_prev.dom() == orig.dom(),
            orig_init.dom() == orig.dom(),
        decreases ks@.len() - i,
    {
        let k = ks[i];
        let ghost prev_take = ks@.take(i as int);
        assert(ks@.take(i + 1) =~= prev_take.push(k));
        assert forall|x: char| #[trigger] ks@.take(i + 1).contains(x) == (prev_take.contains(x) || x == k) by {
            if x == k {
                assert(ks@.take(i + 1)[i as int] == k);
            }
            if prev_take.contains(x) {
                let j = prev_take.index_of(x);
                assert(ks@.take(i + 1)[j] == x);
            }
            if ks@.take(i + 1).contains(x) {
                let j = ks@.take(i + 1).index_of(x);
                if j < i {
                    assert(prev_take[j] == x);
                }
            }
        }
        assert(!ks@.take(i as int).contains(k)) by {
            if ks@.take(i as int).contains(k) {
                let j = ks@.take(i as int).index_of(k);
                assert(ks@[j] == ks@[i as int]);
            }
        }
        assert(orig.contains_key(k)) by {
            assert(ks@.contains(k));
        }
        let v = *nodes.get(&k).unwrap();
        if v.tag_created() {
            let mut w = v;
            w.tag(None);
            nodes.insert(k, w);
        } else if v.tag_deleted() {
            nodes.remove(&k);
            previous.remove(&k);
            initial.remove(&k);
        }
        i = i + 1;
        assert(previous@ =~= orig_prev.restrict(nodes@.dom()));
        assert(initial@ =~= orig_init.restrict(nodes@.dom()));
    }
    assert(ks@.take(i as int) =~= ks@);
}

/// After an animation step, the links tagged as deleted are gone from the current, previous
/// and initial links, and the others lose their "created" tag.
fn sweep_links(
    links: &mut KeyMap<CharPair, Link>,
    previous: &mut KeyMap<CharPair, Link>,
    initial: &mut KeyMap<CharPair, Link>,
)
    requires
        old(links).wf(),
        old(previous).wf(),
        old(initial).wf(),
        old(previous)@.dom() == old(links)@.dom(),
        old(initial)@.dom() == old(links)@.dom(),
    ensures
        final(links).wf(),
        final(previous).wf(),
        final(initial).wf(),
        forall|k: CharPair| #[trigger] final(links)@.contains_key(k) <==> (old(links)@.contains_key(k) && old(links)@[k]@.tag != Some(Tag::Deleted)),
        forall|k: CharPair| #[trigger] final(links)@.contains_key(k) ==> final(links)@[k]@ == settled_link(old(links)@[k]@),
        final(previous)@ == old(previous)@.restrict(final(links)@.dom()),
        final(initial)@ == old(initial)@.restrict(final(links)@.dom()),
{
    let ghost orig = links@;
    let ghost orig_prev = previous@;
    let ghost orig_init = initial@;
    let ks = links.keys_vec();
    proof {
        links.lemma_keys();
    }
    let mut i: usize = 0;
    while i < ks.len()
        invariant
            links.wf(),
            previous.wf(),
            initial.wf(),
            i <= ks@.len(),
            ks@.no_duplicates(),
            forall|k: CharPair| #[trigger] orig.contains_key(k) <==> ks@.contains(k),
            forall|k: CharPair| #[trigger] links@.contains_key(k) <==> (orig.contains_key(k) && !(ks@.take(i as int).contains(k) && orig[k]@.tag == Some(Tag::Deleted))),
            forall|k: CharPair| #[trigger] links@.contains_key(k) ==> (if ks@.take(i as int).contains(k) { links@[k]@ == settled_link(orig[k]@) } else { links@[k] == orig[k] }),
            previous@ == orig_prev.restrict(links@.dom()),
            initial@ == orig_init.restrict(links@.dom()),
            orig_prev.dom() == orig.dom(),
            orig_init.dom() == orig.dom(),
        decreases ks@.len() - i,
    {
        let k = ks[i];
        let ghost prev_take = ks@.take(i as int);
        assert(ks@.take(i + 1) =~= prev_take.push(k));
        assert forall|x: CharPair| #[trigger] ks@.take(i + 1).contains(x) == (prev_take.contains(x) || x == k) by {
            if x == k {
                assert(ks@.take(i + 1)[i as int] == k);
            }
            if prev_take.contains(x) {
                let j = prev_take.index_of(x);
                assert(ks@.take(i + 1)[j] == x);
            }
            if ks@.take(i + 1).contains(x) {
                let j = ks@.take(i + 1).index_of(x);
                if j < i {
                    assert(prev_take[j] == x);
                }
            }
        }
        assert(!ks@.take(i as int).contains(k)) by {
            if ks@.take(i as int).contains(k) {
                let j = ks@.take(i as int).index_of(k);
                assert(ks@[j] == ks@[i as int]);
            }
        }
        assert(orig.contains_key(k)) by {
            assert(ks@.contains(k));
        }
        let v = *links.get(&k).unwrap();
        if v.tag_created() {
            let mut w = v;
            w.tag(None);
            links.insert(k, w);
        } else if v.tag_deleted() {
            links.remove(&k);
            previous.remove(&k);
            initial.remove(&k);
        }
        i = i + 1;
        assert(previous@ =~= orig_prev.restrict(links@.dom()));
        assert(initial@ =~= orig_init.restrict(links@.dom()));
    }
    assert(ks@.take(i as int) =~= ks@);
}


impl Renderer {
    /// The text of the view box framing of the next animation step (see `animate`).
    pub open spec fn viewbox_step_text(&self, duration: u32) -> Seq<char> {
        let next = next_frame(self.node_map().pairs());
        let curr = current_frame(self.previous_node_map().pairs(), self.node_map()@, next);
        if self.first_line().len() == 0 {
            Seq::empty()
        } else {
            self.svg_params().viewbox_animation_text(
                curr.0 as int,
                curr.1 as int,
                curr.2 as int,
                curr.3 as int,
                next.0 as int,
                next.1 as int,
                next.2 as int,
                next.3 as int,
                duration,
                self.total(),
            )
        }
    }

    /// The opening tag of the picture after the next animation step (see `animate`).
    pub open spec fn first_line_after_step(&self) -> Seq<char> {
        let next = next_frame(self.node_map().pairs());
        let curr = current_frame(self.previous_node_map().pairs(), self.node_map()@, next);
        if self.first_line().len() == 0 {
            self.svg_params().viewbox_text(curr.0 as int, curr.1 as int, curr.2 as int, curr.3 as int)
        } else {
            self.first_line()
        }
    }

    /// Renders an animation step of `duration` milliseconds, from the previous state of every
    /// element to its current state: the framing of the view box, then the links, then the
    /// nodes (each in key order). Then the current state becomes the previous one, the
    /// elements tagged as deleted are dropped and the others lose their "created" tag.
    pub fn animate(&mut self, duration: u32)
        requires
            old(self).wf(),
        ensures
            final(self).wf(),
            final(self).animation_text() == old(self).animation_text() + old(self).viewbox_step_text(duration)
                + links_animation_text(old(self).link_map().pairs(), old(self).initial_link_map()@, old(self).previous_link_map()@, duration, old(self).total())
                + nodes_animation_text(old(self).node_map().pairs(), old(self).initial_node_map()@, old(self).previous_node_map()@, duration, old(self).total()),
            final(self).first_line() == old(self).first_line_after_step(),
            final(self).total() == add_wrapping(old(self).total(), duration),
            forall|k: char| #[trigger] final(self).node_map()@.contains_key(k) <==> (old(self).node_map()@.contains_key(k) && old(self).node_map()@[k]@.tag != Some(Tag::Deleted)),
            forall|k: char| #[trigger] final(self).node_map()@.contains_key(k) ==> final(self).node_map()@[k]@ == settled_node(old(self).node_map()@[k]@),
            final(self).previous_node_map()@ == old(self).node_map()@.restrict(final(self).node_map()@.dom()),
            final(self).initial_node_map()@ == old(self).initial_node_map()@.restrict(final(self).node_map()@.dom()),
            forall|k: CharPair| #[trigger] final(self).link_map()@.contains_key(k) <==> (old(self).link_map()@.contains_key(k) && old(self).link_map()@[k]@.tag != Some(Tag::Deleted)),
            forall|k: CharPair| #[trigger] final(self).link_map()@.contains_key(k) ==> final(self).link_map()@[k]@ == settled_link(old(self).link_map()@[k]@),
            final(self).previous_link_map()@ == old(self).link_map()@.restrict(final(self).link_map()@.dom()),
            final(self).initial_link_map()@ == old(self).initial_link_map()@.restrict(final(self).link_map()@.dom()),
            final(self).last_id() == old(self).last_id(),
            final(self).svg_params() == old(self).svg_params(),
            final(self).colors() == old(self).colors(),
    {
        self.render_step(duration);
        self.settle();
    }

    /// The text part of an animation step (see `animate`).
    #[verifier::spinoff_prover]
    fn render_step(&mut self, duration: u32)
        requires
            old(self).wf(),
        ensures
            final(self).animation@ == old(self).animation_text() + old(self).viewbox_step_text(duration)
                + links_animation_text(old(self).link_map().pairs(), old(self).initial_link_map()@, old(self).previous_link_map()@, duration, old(self).total())
                + nodes_animation_text(old(self).node_map().pairs(), old(self).initial_node_map()@, old(self).previous_node_map()@, duration, old(self).total()),
            final(self).svg_first_lign@ == old(self).first_line_after_step(),
            final(self).total_duration == add_wrapping(old(self).total(), duration),
            final(self).nodes == old(self).nodes,
            final(self).links == old(self).links,
            final(self).previous_nodes == old(self).previous_nodes,
            final(self).previous_links == old(self).previous_links,
            final(self).initial_nodes == old(self).initial_nodes,
            final(self).initial_links == old(self).initial_links,
            final(self).id_counter == old(self).id_counter,
            final(self).svg == old(self).svg,
            final(self).colors() == old(self).colors(),
    {
        let links_text = self.links_step_text(duration);
        let nodes_text = self.nodes_step_text(duration);
        let ghost me = *self;
        let vb = self.animate_viewbox(duration);
        assert(vb@ == me.viewbox_step_text(duration));
        assert(self.svg_first_lign@ == me.first_line_after_step());
        assert(self.animation == me.animation);
        push_str(&mut self.animation, vb.as_str());
        push_str(&mut self.animation, links_text.as_str());
        push_str(&mut self.animation, nodes_text.as_str());
        self.total_duration = self.total_duration.wrapping_add(duration);
    }

    /// The animations of the links, in key order (see `animate`).
    fn links_step_text(&self, duration: u32) -> (svg: String)
        requires
            self.wf(),
        ensures
            svg@ == links_animation_text(self.links.pairs(), self.initial_links@, self.previous_links@, duration, self.total_duration),
    {
        let mut svg = String::new();
        let mut i: usize = 0;
        while i < self.links.len()
            invariant
                self.wf(),
                i <= self.links.spec_len(),
                svg@ == links_animation_text(self.links.pairs().take(i as int), self.initial_links@, self.previous_links@, duration, self.total_duration),
            decreases self.links.spec_len() - i,
        {
            let k = self.links.key_at(i);
            let current_link = self.links.value_at(i);
            let initial_link = self.initial_links.get(&k).unwrap();
            let previous_link = self.previous_links.get(&k).unwrap();
            let text = self.svg.animate_link(current_link, initial_link, previous_link, duration, self.total_duration);
            push_str(&mut svg, text.as_str());
            assert(self.links.pairs().take(i + 1).drop_last() =~= self.links.pairs().take(i as int));
            i = i + 1;
        }
        assert(self.links.pairs().take(i as int) =~= self.links.pairs());
        svg
    }

    /// The animations of the nodes, in key order (see `animate`).
    fn nodes_step_text(&self, duration: u32) -> (svg: String)
        requires
            self.wf(),
        ensures
            svg@ == nodes_animation_text(self.nodes.pairs(), self.initial_nodes@, self.previous_nodes@, duration, self.total_duration),
    {
        let mut svg = String::new();
        let mut i: usize = 0;
        while i < self.nodes.len()
            invariant
                self.wf(),
                i <= self.nodes.spec_len(),
                svg@ == nodes_animation_text(self.nodes.pairs().take(i as int), self.initial_nodes@, self.previous_nodes@, duration, self.total_duration),
            decreases self.nodes.spec_len() - i,
        {
            let k = self.nodes.key_at(i);
            let current_node = self.nodes.value_at(i);
            let initial_node = self.initial_nodes.get(&k).unwrap();
            let previous_node = self.previous_nodes.get(&k).unwrap();
            let text = self.svg.animate_node(current_node, initial_node, previous_node, duration, self.total_duration);
            push_str(&mut svg, text.as_str());
            assert(self.nodes.pairs().take(i + 1).drop_last() =~= self.nodes.pairs().take(i as int));
            i = i + 1;
        }
        assert(self.nodes.pairs().take(i as int) =~= self.nodes.pairs());
        svg
    }

    /// The end of an animation step: the current state becomes the previous one, the
    /// elements tagged as deleted are dropped and the others lose their "created" tag.
    fn settle(&mut self)
        requires
            old(self).wf(),
        ensures
            final(self).wf(),
            final(self).animation == old(self).animation,
            final(self).svg_first_lign == old(self).svg_first_lign,
            final(self).total_duration == old(self).total_duration,
            final(self).id_counter == old(self).id_counter,
            final(self).svg == old(self).svg,
            final(self).colors() == old(self).colors(),
            forall|k: char| #[trigger] final(self).node_map()@.contains_key(k) <==> (old(self).node_map()@.contains_key(k) && old(self).node_map()@[k]@.tag != Some(Tag::Deleted)),
            forall|k: char| #[trigger] final(self).node_map()@.contains_key(k) ==> final(self).node_map()@[k]@ == settled_node(old(self).node_map()@[k]@),
            final(self).previous_node_map()@ == old(self).node_map()@.restrict(final(self).node_map()@.dom()),
            final(self).initial_node_map()@ == old(self).initial_node_map()@.restrict(final(self).node_map()@.dom()),
            forall|k: CharPair| #[trigger] final(self).link_map()@.contains_key(k) <==> (old(self).link_map()@.contains_key(k) && old(self).link_map()@[k]@.tag != Some(Tag::Deleted)),
            forall|k: CharPair| #[trigger] final(self).link_map()@.contains_key(k) ==> final(self).link_map()@[k]@ == settled_link(old(self).link_map()@[k]@),
            final(self).previous_link_map()@ == old(self).link_map()@.restrict(final(self).link_map()@.dom()),
            final(self).initial_link_map()@ == old(self).initial_link_map()@.restrict(final(self).link_map()@.dom()),
    {
        let ghost me = *self;
        self.previous_nodes = self.nodes.duplicate();
        self.previous_links = self.links.duplicate();
        sweep_links(&mut self.links, &mut self.previous_links, &mut self.initial_links);
        sweep_nodes(&mut self.nodes, &mut self.previous_nodes, &mut self.initial_nodes);
        proof {
            assert forall|k: char| #[trigger] self.nodes@.contains_key(k) implies self.nodes@[k]@.name == k by {
                assert(me.nodes@.contains_key(k));
            }
            assert forall|k: char| #[trigger] self.previous_nodes@.contains_key(k) implies self.previous_nodes@[k]@.name == k by {
                assert(me.nodes@.contains_key(k));
            }
            assert(self.previous_nodes@.dom() =~= self.nodes@.dom());
            assert(self.initial_nodes@.dom() =~= self.nodes@.dom());
            assert(self.previous_links@.dom() =~= self.links@.dom());
            assert(self.initial_links@.dom() =~= self.links@.dom());
        }
    }
}


/// Two node states that differ at most by their centers.
pub open spec fn same_but_center(a: node::NodeState, b: node::NodeState) -> bool {
    node::NodeState { center: b.center, ..a } == b
}

/// Two link states that differ at most by the centers of their ends.
pub open spec fn same_but_ends(a: link::LinkState, b: link::LinkState) -> bool {
    link::LinkState { from_center: b.from_center, to_center: b.to_center, ..a } == b
}

impl Renderer {
    /// The result of a layout: the same nodes and links, where only the centers of the nodes
    /// whose position is not frozen (and the ends of the links) may have moved.
    pub open spec fn laid_out(&self, before: &Renderer) -> bool {
        &&& self.wf()
        &&& self.node_map()@.dom() == before.node_map()@.dom()
        &&& forall|k: char| #[trigger] self.node_map()@.contains_key(k) ==> same_but_center(
            before.node_map()@[k]@,
            self.node_map()@[k]@,
        )
        &&& forall|k: char| #[trigger] self.node_map()@.contains_key(k)
            && before.node_map()@[k]@.center_freezed ==> self.node_map()@[k]@.center
            == before.node_map()@[k]@.center
        &&& self.link_map()@.dom() == before.link_map()@.dom()
        &&& forall|k: CharPair| #[trigger] self.link_map()@.contains_key(k) ==> same_but_ends(
            before.link_map()@[k]@,
            self.link_map()@[k]@,
        )
        &&& self.previous_node_map() == before.previous_node_map()
        &&& self.initial_node_map() == before.initial_node_map()
        &&& self.previous_link_map() == before.previous_link_map()
        &&& self.initial_link_map() == before.initial_link_map()
        &&& self.animation_text() == before.animation_text()
        &&& self.first_line() == before.first_line()
        &&& self.total() == before.total()
        &&& self.last_id() == before.last_id()
        &&& self.svg_params() == before.svg_params()
        &&& self.colors() == before.colors()
    }

    /// What a layout hands the engine: the nodes `keys`, in order, each with its center and
    /// whether its position is frozen.
    pub open spec fn layout_input(&self, keys: Seq<char>) -> Seq<(char, Point, bool)> {
        keys.map_values(|k: char| (k, self.node_map()@[k]@.center, self.node_map()@[k]@.center_freezed))
    }

    /// Whether each node `nodes[j]` of `before` stands in `self` at `positions[j]` when its
    /// position is not frozen and there is such a point, and where it stood otherwise.
    pub open spec fn placed(&self, before: &Renderer, nodes: Seq<(char, Point, bool)>, positions: Seq<Point>) -> bool {
        forall|j: int| #![trigger nodes[j]] 0 <= j < nodes.len() ==> self.node_map()@[nodes[j].0]@.center
            == if !nodes[j].2 && j < positions.len() {
                positions[j]
            } else {
                before.node_map()@[nodes[j].0]@.center
            }
    }

    /// Places the nodes of `adja` (the nodes of the picture, with their links in both
    /// directions) where `engine` arranges them. Frozen nodes stay where they are, and nothing
    /// moves when every node is frozen.
    pub fn layout<E: LayoutEngine>(&mut self, engine: &E, adja: &KeyMap<char, KeyMap<char, i8>>)
        requires
            old(self).wf(),
            adja.wf(),
            adja@.dom() == old(self).node_map()@.dom(),
        ensures
            final(self).laid_out(old(self)),
            (forall|k: char| #[trigger] old(self).node_map()@.contains_key(k) ==> old(self).node_map()@[k]@.center_freezed)
                ==> *final(self) == *old(self),
            !(forall|k: char| #[trigger] old(self).node_map()@.contains_key(k) ==> old(self).node_map()@[k]@.center_freezed)
                ==> exists|nodes: Vec<(char, Point, bool)>, positions: Vec<Point>|
                    #[trigger] call_ensures(E::arrange, (engine, old(self).svg_params().p_radius_node, adja, &nodes), positions)
                    && nodes@ == old(self).layout_input(adja.keys())
                    && final(self).placed(old(self), nodes@, positions@),
    {
        if adja.len() == 0 {
            return;
        }
        let mut nodes_in: Vec<(char, Point, bool)> = Vec::new();
        let mut freezed_count: usize = 0;
        let mut i: usize = 0;
        while i < adja.len()
            invariant
                self.wf(),
                adja.wf(),
                adja@.dom() == self.node_map()@.dom(),
                i <= adja.spec_len(),
                nodes_in@.len() == i,
                freezed_count <= i,
                forall|j: int| #![trigger nodes_in@[j]] 0 <= j < i ==> self.node_map()@.contains_key(nodes_in@[j].0)
                    && nodes_in@[j].2 == self.node_map()@[nodes_in@[j].0]@.center_freezed,
                forall|j: int| #![trigger nodes_in@[j]] 0 <= j < i ==> nodes_in@[j].0 == adja.keys()[j],
                forall|j: int| #![trigger nodes_in@[j]] 0 <= j < i ==> nodes_in@[j].1 == self.node_map()@[nodes_in@[j].0]@.center,
                (forall|k: char| #[trigger] self.node_map()@.contains_key(k) ==> self.node_map()@[k]@.center_freezed)
                    ==> freezed_count == i,
                freezed_count == i ==> forall|j: int| #![trigger nodes_in@[j]] 0 <= j < i ==> nodes_in@[j].2,
            decreases adja.spec_len() - i,
        {
            let k = adja.key_at(i);
            let center = *self.node_center(k);
            let freezed = self.node_center_freezed(k);
            nodes_in.push((k, center, freezed));
            if freezed {
                freezed_count = freezed_count + 1;
            }
            i = i + 1;
        }
        if freezed_count == adja.len() {
            proof {
                adja.lemma_keys();
                assert forall|k: char| #[trigger] self.node_map()@.contains_key(k) implies self.node_map()@[k]@.center_freezed by {
                    assert(adja.keys().contains(k));
                    let j = adja.keys().index_of(k);
                    assert(nodes_in@[j].0 == k);
                }
            }
            return;
        }
        let positions = engine.arrange(self.svg.p_radius_node, adja, &nodes_in);
        proof {
            adja.lemma_keys();
            assert forall|a: int, b: int| 0 <= a < b < nodes_in@.len() implies (#[trigger] nodes_in@[a]).0 != (#[trigger] nodes_in@[b]).0 by {
                assert(nodes_in@[a].0 == adja.keys()[a]);
                assert(nodes_in@[b].0 == adja.keys()[b]);
            }
        }
        let ghost before = *self;
        self.place_nodes(&nodes_in, &positions);
        proof {
            assert(nodes_in@ =~= before.layout_input(adja.keys()));
            assert(self.placed(&before, nodes_in@, positions@));
        }
    }

    /// Moves each node of `nodes` (name, center, frozen position) whose position is not frozen
    /// to the point of `positions` at the same index, when there is one; the other nodes stay
    /// where they are.
    pub fn place_nodes(&mut self, nodes: &Vec<(char, Point, bool)>, positions: &Vec<Point>)
        requires
            old(self).wf(),
            forall|j: int| #![trigger nodes@[j]] 0 <= j < nodes@.len() ==> old(self).node_map()@.contains_key(nodes@[j].0)
                && nodes@[j].2 == old(self).node_map()@[nodes@[j].0]@.center_freezed,
            forall|a: int, b: int| 0 <= a < b < nodes@.len() ==> (#[trigger] nodes@[a]).0 != (#[trigger] nodes@[b]).0,
        ensures
            final(self).laid_out(old(self)),
            forall|j: int| #![trigger nodes@[j]] 0 <= j < nodes@.len() ==> final(self).node_map()@[nodes@[j].0]@.center
                == if !nodes@[j].2 && j < positions@.len() {
                    positions@[j]
                } else {
                    old(self).node_map()@[nodes@[j].0]@.center
                },
            forall|k: char| #[trigger] old(self).node_map()@.contains_key(k) && (forall|j: int| 0 <= j < nodes@.len() ==> (#[trigger] nodes@[j]).0 != k)
                ==> final(self).node_map()@[k]@.center == old(self).node_map()@[k]@.center,
    {
        let ghost before = *self;
        let mut i: usize = 0;
        while i < nodes.len()
            invariant
                self.laid_out(&before),
                before.wf(),
                i <= nodes@.len(),
                forall|j: int| #![trigger nodes@[j]] 0 <= j < nodes@.len() ==> before.node_map()@.contains_key(nodes@[j].0)
                    && nodes@[j].2 == before.node_map()@[nodes@[j].0]@.center_freezed,
                forall|a: int, b: int| 0 <= a < b < nodes@.len() ==> (#[trigger] nodes@[a]).0 != (#[trigger] nodes@[b]).0,
                forall|j: int| #![trigger nodes@[j]] 0 <= j < i ==> self.node_map()@[nodes@[j].0]@.center
                    == if !nodes@[j].2 && j < positions@.len() {
                        positions@[j]
                    } else {
                        before.node_map()@[nodes@[j].0]@.center
                    },
                forall|k: char| #[trigger] before.node_map()@.contains_key(k) && (forall|j: int| 0 <= j < i ==> (#[trigger] nodes@[j]).0 != k)
                    ==> self.node_map()@[k]@.center == before.node_map()@[k]@.center,
            decreases nodes@.len() - i,
        {
            let (name, _, freezed) = nodes[i];
            let ghost mid = *self;
            if !freezed && i < positions.len() {
                self.node_move(name, positions[i], false);
                proof {
                    if mid.node_map()@[name]@.center != positions@[i as int] {
                        assert(self.node_map()@.dom() =~= mid.node_map()@.dom());
                        assert forall|k: char| #[trigger] self.node_map()@.contains_key(k) implies same_but_center(
                            before.node_map()@[k]@,
                            self.node_map()@[k]@,
                        ) by {
                            assert(mid.node_map()@.contains_key(k));
                        }
                        assert forall|k: CharPair| #[trigger] self.link_map()@.contains_key(k) implies same_but_ends(
                            before.link_map()@[k]@,
                            self.link_map()@[k]@,
                        ) by {
                            assert(mid.link_map()@.contains_key(k));
                        }
                    }
                }
            }
            proof {
                assert forall|j: int| #![trigger nodes@[j]] 0 <= j < i + 1 implies self.node_map()@[nodes@[j].0]@.center
                    == if !nodes@[j].2 && j < positions@.len() {
                        positions@[j]
                    } else {
                        before.node_map()@[nodes@[j].0]@.center
                    } by {
                    if j < i {
                        assert(nodes@[j].0 != nodes@[i as int].0);
                        assert(mid.node_map()@[nodes@[j].0] == self.node_map()@[nodes@[j].0]);
                    } else {
                        assert(forall|q: int| 0 <= q < i ==> (#[trigger] nodes@[q]).0 != nodes@[j].0);
                    }
                }
                assert forall|k: char| #[trigger] before.node_map()@.contains_key(k) && (forall|j: int| 0 <= j < i + 1 ==> (#[trigger] nodes@[j]).0 != k)
                    implies self.node_map()@[k]@.center == before.node_map()@[k]@.center by {
                    assert(nodes@[i as int].0 != k);
                    assert(forall|j: int| 0 <= j < i ==> (#[trigger] nodes@[j]).0 != k);
                }
            }
            i = i + 1;
        }
    }
}

} // verus!
