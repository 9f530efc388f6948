//! SVG (SMIL) text of the nodes, links and view box, and of their animations.
use vstd::prelude::*;
use super::color::Color;
use super::link::{Link, LinkState};
use super::node::{Node, NodeState};
use crate::text::{push_char, push_i64, push_str, push_u64};

verus! {

/// `rgb(r,g,b)`
pub open spec fn rgb_text(c: Color) -> Seq<char> {
    "rgb("@ + crate::text::dec_nat(c.r as nat) + ","@ + crate::text::dec_nat(c.g as nat) + ","@
        + crate::text::dec_nat(c.b as nat) + ")"@
}

/// The end of an animation element: its duration, start time, and frozen end state.
pub open spec fn timing_text(duration: u32, start_time: u32) -> Seq<char> {
    "dur=\""@ + crate::text::dec_nat(duration as nat) + "ms\" begin=\""@ + crate::text::dec_nat(
        start_time as nat,
    ) + "ms\" fill=\"freeze\"/>\n"@
}

/// The bounds of an animation between two colors.
pub open spec fn color_change_text(from: Color, to: Color) -> Seq<char> {
    "from=\""@ + rgb_text(from) + "\" to=\""@ + rgb_text(to) + "\" "@
}

/// The bounds of an animation between two integers.
pub open spec fn int_change_text(from: int, to: int) -> Seq<char> {
    "from=\""@ + crate::text::dec_int(from) + "\" to=\""@ + crate::text::dec_int(to) + "\" "@
}

/// A relative motion: move by `(dx1, dy1)`, then draw a line by `(dx2, dy2)`.
pub open spec fn motion_path_text(dx1: int, dy1: int, dx2: int, dy2: int) -> Seq<char> {
    "path=\"m "@ + crate::text::dec_int(dx1) + " "@ + crate::text::dec_int(dy1) + " l "@
        + crate::text::dec_int(dx2) + " "@ + crate::text::dec_int(dy2) + "\" />\n"@
}

/// The segment between two points, as path data.
pub open spec fn segment_text(x1: int, y1: int, x2: int, y2: int) -> Seq<char> {
    "M"@ + crate::text::dec_int(x1) + " "@ + crate::text::dec_int(y1) + " L"@
        + crate::text::dec_int(x2) + " "@ + crate::text::dec_int(y2) + " Z"@
}

/// Integer division by two, rounding toward zero.
pub open spec fn half(a: int) -> int {
    if a >= 0 {
        a / 2
    } else {
        -((-a) / 2)
    }
}

/// The four numbers of a view box that frames `[x_min, x_max] x [y_min, y_max]` with a
/// margin of twice the node radius.
pub open spec fn viewbox_numbers_text(x_min: int, x_max: int, y_min: int, y_max: int, r: int) -> Seq<
    char,
> {
    crate::text::dec_int(x_min - 2 * r) + " "@ + crate::text::dec_int(y_min - 2 * r) + " "@
        + crate::text::dec_int(x_max - x_min + 4 * r) + " "@ + crate::text::dec_int(
        y_max - y_min + 4 * r,
    )
}

pub struct Svg {
    pub p_display_node_label: bool,
    pub p_display_node_value: bool,
    pub p_display_link_label: bool,
    pub p_display_link_value: bool,
    pub p_stroke_width_node: u8,
    pub p_stroke_width_link: u8,
    pub p_radius_node: u8,
}

/// Appends `rgb(r,g,b)`.
fn push_rgb(s: &mut String, c: Color)
    ensures
        final(s)@ == old(s)@ + rgb_text(c),
{
    let ghost s0 = s@;
    push_str(s, "rgb(");
    push_u64(s, c.r as u64);
    push_str(s, ",");
    push_u64(s, c.g as u64);
    push_str(s, ",");
    push_u64(s, c.b as u64);
    push_str(s, ")");
    assert(s@ =~= s0 + rgb_text(c));
}

fn push_timing(s: &mut String, duration: u32, start_time: u32)
    ensures
        final(s)@ == old(s)@ + timing_text(duration, start_time),
{
    let ghost s0 = s@;
    push_str(s, "dur=\"");
    push_u64(s, duration as u64);
    push_str(s, "ms\" begin=\"");
    push_u64(s, start_time as u64);
    push_str(s, "ms\" fill=\"freeze\"/>\n");
    assert(s@ =~= s0 + timing_text(duration, start_time));
}

fn push_color_change(s: &mut String, from: Color, to: Color)
    ensures
        final(s)@ == old(s)@ + color_change_text(from, to),
{
    let ghost s0 = s@;
    push_str(s, "from=\"");
    push_rgb(s, from);
    push_str(s, "\" to=\"");
    push_rgb(s, to);
    push_str(s, "\" ");
    assert(s@ =~= s0 + color_change_text(from, to));
}

fn push_int_change(s: &mut String, from: i64, to: i64)
    ensures
        final(s)@ == old(s)@ + int_change_text(from as int, to as int),
{
    let ghost s0 = s@;
    push_str(s, "from=\"");
    push_i64(s, from);
    push_str(s, "\" to=\"");
    push_i64(s, to);
    push_str(s, "\" ");
    assert(s@ =~= s0 + int_change_text(from as int, to as int));
}

fn push_motion_path(s: &mut String, dx1: i64, dy1: i64, dx2: i64, dy2: i64)
    ensures
        final(s)@ == old(s)@ + motion_path_text(dx1 as int, dy1 as int, dx2 as int, dy2 as int),
{
    let ghost s0 = s@;
    push_str(s, "path=\"m ");
    push_i64(s, dx1);
    push_str(s, " ");
    push_i64(s, dy1);
    push_str(s, " l ");
    push_i64(s, dx2);
    push_str(s, " ");
    push_i64(s, dy2);
    push_str(s, "\" />\n");
    assert(s@ =~= s0 + motion_path_text(dx1 as int, dy1 as int, dx2 as int, dy2 as int));
}

fn push_segment(s: &mut String, x1: i64, y1: i64, x2: i64, y2: i64)
    ensures
        final(s)@ == old(s)@ + segment_text(x1 as int, y1 as int, x2 as int, y2 as int),
{
    let ghost s0 = s@;
    push_str(s, "M");
    push_i64(s, x1);
    push_str(s, " ");
    push_i64(s, y1);
    push_str(s, " L");
    push_i64(s, x2);
    push_str(s, " ");
    push_i64(s, y2);
    push_str(s, " Z");
    assert(s@ =~= s0 + segment_text(x1 as int, y1 as int, x2 as int, y2 as int));
}

fn push_viewbox_numbers(s: &mut String, x_min: i32, x_max: i32, y_min: i32, y_max: i32, r: u8)
    ensures
        final(s)@ == old(s)@ + viewbox_numbers_text(
            x_min as int,
            x_max as int,
            y_min as int,
            y_max as int,
            r as int,
        ),
{
    let ghost s0 = s@;
    let r = r as i64;
    push_i64(s, x_min as i64 - 2 * r);
    push_str(s, " ");
    push_i64(s, y_min as i64 - 2 * r);
    push_str(s, " ");
    push_i64(s, x_max as i64 - x_min as i64 + 4 * r);
    push_str(s, " ");
    push_i64(s, y_max as i64 - y_min as i64 + 4 * r);
    assert(s@ =~= s0 + viewbox_numbers_text(
        x_min as int,
        x_max as int,
        y_min as int,
        y_max as int,
        r as int,
    ));
}

/// Integer division by two, rounding toward zero.
fn halve(a: i64) -> (h: i64)
    requires
        -0x4000_0000_0000_0000 < a < 0x4000_0000_0000_0000,
    ensures
        h as int == half(a as int),
{
    if a >= 0 {
        a / 2
    } else {
        -((-a) / 2)
    }
}

/// The values of `(created, deleted, selected)` for a tag.
pub open spec fn tag_flags(tag: Option<super::tag::Tag>) -> (bool, bool, bool) {
    (
        tag == Some(super::tag::Tag::Created),
        tag == Some(super::tag::Tag::Deleted),
        tag == Some(super::tag::Tag::Selected),
    )
}

/// The widths of a stroke whose selection changes (doubled while selected).
pub open spec fn selection_widths(selected: bool, width: u8) -> (int, int) {
    if selected {
        (width as int, 2 * width)
    } else {
        (2 * width, width as int)
    }
}

/// The animation of an element's opacity when it appears (0 to 1) or disappears (1 to 0).
pub open spec fn opacity_text(created: bool, duration: u32, start_time: u32) -> Seq<char> {
    int_change_text(
        if created {
            0
        } else {
            1
        },
        if created {
            1
        } else {
            0
        },
    ) + timing_text(duration, start_time)
}

/// The animation of a stroke color from `from` to `to` on the element `#<prefix><id>`.
pub open spec fn stroke_animation_text(
    prefix: Seq<char>,
    id: Seq<char>,
    from: Color,
    to: Color,
    duration: u32,
    start_time: u32,
) -> Seq<char> {
    "<animate href=\"#"@ + prefix + id + "\" attributeName=\"stroke\" "@ + color_change_text(
        from,
        to,
    ) + timing_text(duration, start_time)
}

/// The animation of a change of selection on the element `#<prefix><id>`: its stroke width
/// then its stroke color.
pub open spec fn selection_animation_text(
    prefix: Seq<char>,
    id: Seq<char>,
    selected: bool,
    width: u8,
    from: Color,
    to: Color,
    duration: u32,
    start_time: u32,
) -> Seq<char> {
    "<animate href=\"#"@ + prefix + id + "\" attributeName=\"stroke-width\" "@ + int_change_text(
        selection_widths(selected, width).0,
        selection_widths(selected, width).1,
    ) + timing_text(duration, start_time) + stroke_animation_text(
        prefix,
        id,
        from,
        to,
        duration,
        start_time,
    )
}

fn push_opacity(s: &mut String, created: bool, duration: u32, start_time: u32)
    ensures
        final(s)@ == old(s)@ + opacity_text(created, duration, start_time),
{
    let ghost s0 = s@;
    if created {
        push_int_change(s, 0, 1);
    } else {
        push_int_change(s, 1, 0);
    }
    push_timing(s, duration, start_time);
    assert(s@ =~= s0 + opacity_text(created, duration, start_time));
}

fn push_stroke_animation(
    s: &mut String,
    prefix: &str,
    id: &str,
    from: Color,
    to: Color,
    duration: u32,
    start_time: u32,
)
    ensures
        final(s)@ == old(s)@ + stroke_animation_text(prefix@, id@, from, to, duration, start_time),
{
    let ghost s0 = s@;
    push_str(s, "<animate href=\"#");
    push_str(s, prefix);
    push_str(s, id);
    push_str(s, "\" attributeName=\"stroke\" ");
    push_color_change(s, from, to);
    push_timing(s, duration, start_time);
    assert(s@ =~= s0 + stroke_animation_text(prefix@, id@, from, to, duration, start_time));
}

fn push_selection_animation(
    s: &mut String,
    prefix: &str,
    id: &str,
    selected: bool,
    width: u8,
    from: Color,
    to: Color,
    duration: u32,
    start_time: u32,
)
    ensures
        final(s)@ == old(s)@ + selection_animation_text(
            prefix@,
            id@,
            selected,
            width,
            from,
            to,
            duration,
            start_time,
        ),
{
    let ghost s0 = s@;
    let w = width as i64;
    push_str(s, "<animate href=\"#");
    push_str(s, prefix);
    push_str(s, id);
    push_str(s, "\" attributeName=\"stroke-width\" ");
    if selected {
        push_int_change(s, w, 2 * w);
    } else {
        push_int_change(s, 2 * w, w);
    }
    push_timing(s, duration, start_time);
    push_stroke_animation(s, prefix, id, from, to, duration, start_time);
    assert(s@ =~= s0 + selection_animation_text(
        prefix@,
        id@,
        selected,
        width,
        from,
        to,
        duration,
        start_time,
    ));
}

impl Svg {
    /// The circle of a node stands at the node's center: the text that creates the node holds
    /// its circle element, of id `c` and the node's id, with an attribute `cx` whose value is
    /// the decimal x of the center and an attribute `cy` whose value is the decimal y.
    pub proof fn law_circle_at_center(&self, node: NodeState)
        ensures
            exists|j: int| 0 <= j && #[trigger] self.node_head_text(node).subrange(j, j + ("  <circle id=\"c"@ + super::node::node_id_text(node.name, node.id)).len())
                == "  <circle id=\"c"@ + super::node::node_id_text(node.name, node.id),
            exists|k: int| 0 <= k && #[trigger] self.node_head_text(node).subrange(k, k + ("\" cx=\""@ + crate::text::dec_int(node.center.x as int) + "\""@).len())
                == "\" cx=\""@ + crate::text::dec_int(node.center.x as int) + "\""@,
            exists|k: int| 0 <= k && #[trigger] self.node_head_text(node).subrange(k, k + ("\" cy=\""@ + crate::text::dec_int(node.center.y as int) + "\""@).len())
                == "\" cy=\""@ + crate::text::dec_int(node.center.y as int) + "\""@,
    {
        let id = super::node::node_id_text(node.name, node.id);
        let dx = crate::text::dec_int(node.center.x as int);
        let dy = crate::text::dec_int(node.center.y as int);
        let t = self.node_head_text(node);
        let a = "<g id=\""@ + id + "\" opacity=\"0\">\n"@;
        let q1 = a + "  <circle id=\"c"@ + id;
        let q2 = q1 + "\" cx=\""@ + dx;
        let q3 = q2 + "\" cy=\""@ + dy;
        let q4 = q3 + "\" r=\""@;
        assert forall|i: int| 0 <= i < q4.len() implies t[i] == q4[i] by {}
        reveal_strlit("\" cy=\"");
        reveal_strlit("\" r=\"");
        reveal_strlit("\"");
        let j = a.len() as int;
        assert(t.subrange(j, j + ("  <circle id=\"c"@ + id).len()) =~= "  <circle id=\"c"@ + id);
        let k = q1.len() as int;
        assert(t.subrange(k, k + ("\" cx=\""@ + dx + "\""@).len()) =~= "\" cx=\""@ + dx + "\""@);
        let k2 = q2.len() as int;
        assert(t.subrange(k2, k2 + ("\" cy=\""@ + dy + "\""@).len()) =~= "\" cy=\""@ + dy + "\""@);
    }

    /// The label of a node stands at the node's center too: when labels are shown, its text
    /// element (of id `co` and the node's id) holds an attribute `x` whose value is the
    /// decimal x of the center and an attribute `y` whose value is the decimal y.
    pub proof fn law_label_at_center(&self, node: NodeState)
        requires
            self.p_display_node_label,
        ensures
            exists|j: int| 0 <= j && #[trigger] self.node_label_text(node).subrange(j, j + ("  <text id=\"co"@ + super::node::node_id_text(node.name, node.id)).len())
                == "  <text id=\"co"@ + super::node::node_id_text(node.name, node.id),
            exists|k: int| 0 <= k && #[trigger] self.node_label_text(node).subrange(k, k + ("\" x=\""@ + crate::text::dec_int(node.center.x as int) + "\""@).len())
                == "\" x=\""@ + crate::text::dec_int(node.center.x as int) + "\""@,
            exists|k: int| 0 <= k && #[trigger] self.node_label_text(node).subrange(k, k + ("\" y=\""@ + crate::text::dec_int(node.center.y as int) + "\""@).len())
                == "\" y=\""@ + crate::text::dec_int(node.center.y as int) + "\""@,
    {
        let id = super::node::node_id_text(node.name, node.id);
        let dx = crate::text::dec_int(node.center.x as int);
        let dy = crate::text::dec_int(node.center.y as int);
        let t = self.node_label_text(node);
        let q1 = "  <text id=\"co"@ + id;
        let q2 = q1 + "\" x=\""@ + dx;
        let q3 = q2 + "\" y=\""@ + dy;
        let q4 = q3 + "\" dx=\""@;
        assert forall|i: int| 0 <= i < q4.len() implies t[i] == q4[i] by {}
        reveal_strlit("\" y=\"");
        reveal_strlit("\" dx=\"");
        reveal_strlit("\"");
        let j = 0int;
        assert(t.subrange(j, j + ("  <text id=\"co"@ + id).len()) =~= "  <text id=\"co"@ + id);
        let k = q1.len() as int;
        assert(t.subrange(k, k + ("\" x=\""@ + dx + "\""@).len()) =~= "\" x=\""@ + dx + "\""@);
        let k2 = q2.len() as int;
        assert(t.subrange(k2, k2 + ("\" y=\""@ + dy + "\""@).len()) =~= "\" y=\""@ + dy + "\""@);
    }

    /// The circle of a node, in its transparent group.
    pub open spec fn node_head_text(&self, node: NodeState) -> Seq<char> {
        let id = super::node::node_id_text(node.name, node.id);
        "<g id=\""@ + id + "\" opacity=\"0\">\n"@ + "  <circle id=\"c"@ + id + "\" cx=\""@
            + crate::text::dec_int(node.center.x as int) + "\" cy=\""@ + crate::text::dec_int(
            node.center.y as int,
        ) + "\" r=\""@ + crate::text::dec_nat(self.p_radius_node as nat) + "\" "@ + "fill=\""@
            + rgb_text(node.fill_color) + "\" "@ + "stroke=\""@ + rgb_text(node.stroke_color)
            + "\" stroke-width=\""@ + crate::text::dec_nat(self.p_stroke_width_node as nat)
            + "\"></circle>\n"@
    }

    /// The label of a node (its name), when labels are displayed.
    pub open spec fn node_label_text(&self, node: NodeState) -> Seq<char> {
        if self.p_display_node_label {
            let id = super::node::node_id_text(node.name, node.id);
            "  <text id=\"co"@ + id + "\" x=\""@ + crate::text::dec_int(node.center.x as int)
                + "\" y=\""@ + crate::text::dec_int(node.center.y as int) + "\" dx=\""@
                + crate::text::dec_int(-6) + "\" dy=\""@ + crate::text::dec_int(
                if self.p_display_node_value {
                    -2
                } else {
                    6
                },
            ) + "\" "@ + "fill=\""@ + rgb_text(node.text_color) + "\">"@ + seq![node.name]
                + "</text>\n"@
        } else {
            Seq::empty()
        }
    }

    /// The SVG text that creates a node: a transparent group with its circle and label.
    pub open spec fn node_text(&self, node: NodeState) -> Seq<char> {
        self.node_head_text(node) + self.node_label_text(node) + "</g>\n"@
    }

    /// The path of a link, and the opening of the transparent group of its texts.
    pub open spec fn link_path_text(&self, link: LinkState) -> Seq<char> {
        let id = super::link::link_id_text(link.from, link.to, link.id);
        "<path id=\""@ + id + "\" stroke-width=\""@ + crate::text::dec_nat(
            self.p_stroke_width_link as nat,
        ) + "\" opacity=\"0\""@ + " stroke=\""@ + rgb_text(link.stroke_color) + "\" d=\""@
            + segment_text(
            link.from_center.x as int,
            link.from_center.y as int,
            link.to_center.x as int,
            link.to_center.y as int,
        ) + "\" />\n"@ + "<g id=\"lib"@ + id + "\" opacity=\"0\">\n"@
    }

    /// The label of a link (the names of its nodes), when link labels are displayed.
    pub open spec fn link_label_text(&self, link: LinkState) -> Seq<char> {
        if self.p_display_link_label {
            let id = super::link::link_id_text(link.from, link.to, link.id);
            "  <text id=\"co"@ + id + "\" x=\""@ + crate::text::dec_int(
                half(link.from_center.x + link.to_center.x),
            ) + "\" y=\""@ + crate::text::dec_int(half(link.from_center.y + link.to_center.y))
                + "\" dx=\""@ + crate::text::dec_int(-5) + "\" dy=\""@ + crate::text::dec_int(
                if self.p_display_link_value {
                    -3
                } else {
                    -5
                },
            ) + "\""@ + " fill=\""@ + rgb_text(link.text_color) + "\">"@ + seq![
                link.from,
                link.to,
            ] + "</text>\n"@
        } else {
            Seq::empty()
        }
    }

    /// The value of a link, when link values are displayed.
    pub open spec fn link_value_text(&self, link: LinkState) -> Seq<char> {
        if self.p_display_link_value {
            let id = super::link::link_id_text(link.from, link.to, link.id);
            "  <text id=\"m"@ + id + "\" x=\""@ + crate::text::dec_int(
                half(link.from_center.x + link.to_center.x),
            ) + "\" y=\""@ + crate::text::dec_int(half(link.from_center.y + link.to_center.y))
                + "\" dx=\""@ + crate::text::dec_int(
                if self.p_display_link_label {
                    -12
                } else {
                    -5
                },
            ) + "\" dy=\""@ + crate::text::dec_int(
                if self.p_display_link_label {
                    14
                } else {
                    -5
                },
            ) + "\" "@ + " fill=\""@ + rgb_text(link.text_color) + "\">"@
                + crate::text::dec_int(link.value as int) + "</text>\n"@
        } else {
            Seq::empty()
        }
    }

    /// The arrow drawn along a directed link.
    pub open spec fn link_arrow_text(&self, link: LinkState) -> Seq<char> {
        if !link.bidirect {
            let id = super::link::link_id_text(link.from, link.to, link.id);
            "<text id=\"bi"@ + id + "\" fill=\""@ + rgb_text(link.text_color)
                + "\" opacity=\"0\">\n"@ + "<textpath startOffset=\""@ + crate::text::dec_nat(
                self.p_radius_node as nat,
            ) + "\" href=\"#"@ + id + "\">\u{21d2}</textpath>\n"@ + "</text>\n"@
        } else {
            Seq::empty()
        }
    }

    /// The SVG text that creates a link: its transparent path, the transparent group of its
    /// texts, and the arrow of a directed link.
    pub open spec fn link_text(&self, link: LinkState) -> Seq<char> {
        self.link_path_text(link) + self.link_label_text(link) + self.link_value_text(link)
            + "</g>\n"@ + self.link_arrow_text(link)
    }

    /// The opening tag of the SVG picture, whose view box frames the given bounds.
    pub open spec fn viewbox_text(&self, x_min: int, x_max: int, y_min: int, y_max: int) -> Seq<
        char,
    > {
        "\n<svg class=\"svg_dynalgo\" onclick=\"pause(this)\" viewBox=\""@ + viewbox_numbers_text(
            x_min,
            x_max,
            y_min,
            y_max,
            self.p_radius_node as int,
        ) + "\" preserveAspectRatio=\"xMidYMid meet\">\n"@
    }

    /// The animation of the view box between two framings (nothing when they are equal).
    pub open spec fn viewbox_animation_text(
        &self,
        x_min_curr: int,
        x_max_curr: int,
        y_min_curr: int,
        y_max_curr: int,
        x_min_next: int,
        x_max_next: int,
        y_min_next: int,
        y_max_next: int,
        duration: u32,
        start_time: u32,
    ) -> Seq<char> {
        if x_min_curr == x_min_next && y_min_curr == y_min_next && x_max_curr == x_max_next
            && y_max_curr == y_max_next {
            Seq::empty()
        } else {
            "<animate attributeName=\"viewBox\" from=\""@ + viewbox_numbers_text(
                x_min_curr,
                x_max_curr,
                y_min_curr,
                y_max_curr,
                self.p_radius_node as int,
            ) + "\" "@ + "to=\""@ + viewbox_numbers_text(
                x_min_next,
                x_max_next,
                y_min_next,
                y_max_next,
                self.p_radius_node as int,
            ) + "\" begin=\""@ + crate::text::dec_nat(start_time as nat) + "ms\" dur=\""@
                + crate::text::dec_nat(duration as nat) + "ms\" fill=\"freeze\" />\n"@
        }
    }

    /// The motion of a node that moved since the previous step.
    pub open spec fn node_motion_text(
        current: NodeState,
        initial: NodeState,
        previous: NodeState,
        duration: u32,
        start_time: u32,
    ) -> Seq<char> {
        if previous.center != current.center {
            "<animateMotion href=\"#"@ + super::node::node_id_text(current.name, current.id)
                + "\" begin=\""@ + crate::text::dec_nat(start_time as nat) + "ms\" dur=\""@
                + crate::text::dec_nat(duration as nat)
                + "ms\"\n                    fill=\"freeze\" "@ + motion_path_text(
                previous.center.x - initial.center.x,
                previous.center.y - initial.center.y,
                current.center.x - previous.center.x,
                current.center.y - previous.center.y,
            )
        } else {
            Seq::empty()
        }
    }

    /// The appearance or disappearance of a node.
    pub open spec fn node_opacity_text(current: NodeState, duration: u32, start_time: u32) -> Seq<
        char,
    > {
        let (created, deleted, selected) = tag_flags(current.tag);
        if created || deleted {
            "<animate href=\"#"@ + super::node::node_id_text(current.name, current.id)
                + "\" attributeName=\"opacity\" "@ + opacity_text(created, duration, start_time)
        } else {
            Seq::empty()
        }
    }

    /// The return of a node's stroke color from its creation color to its own color.
    pub open spec fn node_created_stroke_text(
        current: NodeState,
        previous: NodeState,
        duration: u32,
        start_time: u32,
    ) -> Seq<char> {
        if tag_flags(current.tag).0 == false && tag_flags(previous.tag).0 {
            stroke_animation_text(
                "c"@,
                super::node::node_id_text(current.name, current.id),
                previous.stroke_color,
                current.stroke_color,
                duration,
                start_time,
            )
        } else {
            Seq::empty()
        }
    }

    /// The change of a node's stroke color when it gets deleted.
    pub open spec fn node_deleted_stroke_text(
        current: NodeState,
        previous: NodeState,
        duration: u32,
        start_time: u32,
    ) -> Seq<char> {
        if tag_flags(current.tag).1 && tag_flags(previous.tag).1 == false {
            stroke_animation_text(
                "c"@,
                super::node::node_id_text(current.name, current.id),
                previous.stroke_color,
                current.stroke_color,
                duration,
                start_time,
            )
        } else {
            Seq::empty()
        }
    }

    /// The change of a node's stroke when its selection changes.
    pub open spec fn node_selection_text(
        current: NodeState,
        previous: NodeState,
        duration: u32,
        start_time: u32,
    ) -> Seq<char> {
        if tag_flags(current.tag).2 != tag_flags(previous.tag).2 {
            selection_animation_text(
                "c"@,
                super::node::node_id_text(current.name, current.id),
                tag_flags(current.tag).2,
                current.stroke_width,
                previous.stroke_color,
                current.stroke_color,
                duration,
                start_time,
            )
        } else {
            Seq::empty()
        }
    }

    /// The change of a node's fill color.
    pub open spec fn node_fill_text(
        current: NodeState,
        previous: NodeState,
        duration: u32,
        start_time: u32,
    ) -> Seq<char> {
        if current.fill_color != previous.fill_color {
            "<animate href=\"#c"@ + super::node::node_id_text(current.name, current.id)
                + "\" attributeName=\"fill\" "@ + color_change_text(
                previous.fill_color,
                current.fill_color,
            ) + timing_text(duration, start_time)
        } else {
            Seq::empty()
        }
    }

    /// The animation of a node between its previous state and its current one.
    pub open spec fn node_animation_text(
        current: NodeState,
        initial: NodeState,
        previous: NodeState,
        duration: u32,
        start_time: u32,
    ) -> Seq<char> {
        Self::node_motion_text(current, initial, previous, duration, start_time)
            + Self::node_opacity_text(current, duration, start_time)
            + Self::node_created_stroke_text(current, previous, duration, start_time)
            + Self::node_deleted_stroke_text(current, previous, duration, start_time)
            + Self::node_selection_text(current, previous, duration, start_time)
            + Self::node_fill_text(current, previous, duration, start_time)
    }

    /// The change of a link's path between two positions of its ends.
    pub open spec fn link_path_motion_text(
        current: LinkState,
        previous: LinkState,
        duration: u32,
        start_time: u32,
    ) -> Seq<char> {
        "<animate href=\"#"@ + super::link::link_id_text(current.from, current.to, current.id)
            + "\" "@ + "begin=\""@ + crate::text::dec_nat(start_time as nat)
            + "ms\" fill=\"freeze\" attributeName=\"d\" dur=\""@ + crate::text::dec_nat(
            duration as nat,
        ) + "ms\" "@ + "values=\""@ + segment_text(
            previous.from_center.x as int,
            previous.from_center.y as int,
            previous.to_center.x as int,
            previous.to_center.y as int,
        ) + ";"@ + segment_text(
            current.from_center.x as int,
            current.from_center.y as int,
            current.to_center.x as int,
            current.to_center.y as int,
        ) + "\" />\n"@
    }

    /// The motion of the group of a link's texts, which follows the middle of the link.
    pub open spec fn link_texts_motion_text(
        current: LinkState,
        initial: LinkState,
        previous: LinkState,
        duration: u32,
        start_time: u32,
    ) -> Seq<char> {
        let next_x = half(current.from_center.x + current.to_center.x);
        let next_y = half(current.from_center.y + current.to_center.y);
        let curr_x = half(previous.from_center.x + previous.to_center.x);
        let curr_y = half(previous.from_center.y + previous.to_center.y);
        let init_x = half(initial.from_center.x + initial.to_center.x);
        let init_y = half(initial.from_center.y + initial.to_center.y);
        "<animateMotion href=\"#lib"@ + super::link::link_id_text(
            current.from,
            current.to,
            current.id,
        ) + "\" begin=\""@ + crate::text::dec_nat(start_time as nat) + "ms\" dur=\""@
            + crate::text::dec_nat(duration as nat) + "ms\" "@ + "fill=\"freeze\" "@
            + motion_path_text(curr_x - init_x, curr_y - init_y, next_x - curr_x, next_y - curr_y)
    }

    /// The motion of a link whose ends moved since the previous step.
    pub open spec fn link_motion_text(
        current: LinkState,
        initial: LinkState,
        previous: LinkState,
        duration: u32,
        start_time: u32,
    ) -> Seq<char> {
        if previous.from_center != current.from_center || previous.to_center
            != current.to_center {
            Self::link_path_motion_text(current, previous, duration, start_time)
                + Self::link_texts_motion_text(current, initial, previous, duration, start_time)
        } else {
            Seq::empty()
        }
    }

    /// The appearance or disappearance of a link: its path, its texts and its arrow.
    pub open spec fn link_opacity_text(current: LinkState, duration: u32, start_time: u32) -> Seq<
        char,
    > {
        let id = super::link::link_id_text(current.from, current.to, current.id);
        let (created, deleted, selected) = tag_flags(current.tag);
        if created || deleted {
            "<animate href=\"#"@ + id + "\" attributeName=\"opacity\" "@ + opacity_text(
                created,
                duration,
                start_time,
            ) + "<animate href=\"#lib"@ + id + "\" attributeName=\"opacity\" "@ + opacity_text(
                created,
                duration,
                start_time,
            ) + "<animate href=\"#bi"@ + id + "\" attributeName=\"opacity\" "@ + opacity_text(
                created,
                duration,
                start_time,
            )
        } else {
            Seq::empty()
        }
    }

    /// The animation of a link between its previous state and its current one.
    pub open spec fn link_animation_text(
        current: LinkState,
        initial: LinkState,
        previous: LinkState,
        duration: u32,
        start_time: u32,
    ) -> Seq<char> {
        let id = super::link::link_id_text(current.from, current.to, current.id);
        let (created, deleted, selected) = tag_flags(current.tag);
        let (prev_created, prev_deleted, prev_selected) = tag_flags(previous.tag);
        Self::link_motion_text(current, initial, previous, duration, start_time)
            + Self::link_opacity_text(current, duration, start_time) + (if !created
            && prev_created {
            stroke_animation_text(
                Seq::empty(),
                id,
                previous.stroke_color,
                current.stroke_color,
                duration,
                start_time,
            )
        } else {
            Seq::empty()
        }) + (if deleted && !prev_deleted {
            stroke_animation_text(
                Seq::empty(),
                id,
                previous.stroke_color,
                current.stroke_color,
                duration,
                start_time,
            )
        } else {
            Seq::empty()
        }) + (if selected != prev_selected {
            selection_animation_text(
                Seq::empty(),
                id,
                selected,
                current.stroke_width,
                previous.stroke_color,
                current.stroke_color,
                duration,
                start_time,
            )
        } else {
            Seq::empty()
        })
    }

    pub fn new(
        p_display_node_label: bool,
        p_display_node_value: bool,
        p_display_link_label: bool,
        p_display_link_value: bool,
        p_stroke_width_node: u8,
        p_stroke_width_link: u8,
        p_radius_node: u8,
    ) -> (svg: Svg)
        ensures
            svg == (Svg {
                p_display_node_label,
                p_display_node_value,
                p_display_link_label,
                p_display_link_value,
                p_stroke_width_node,
                p_stroke_width_link,
                p_radius_node,
            }),
    {
        Svg {
            p_display_node_label,
            p_display_node_value,
            p_display_link_label,
            p_display_link_value,
            p_stroke_width_node,
            p_stroke_width_link,
            p_radius_node,
        }
    }
}


impl Svg {
    fn push_node_head(&self, s: &mut String, node: &Node, id: &str)
        requires
            id@ == super::node::node_id_text(node@.name, node@.id),
        ensures
            final(s)@ == old(s)@ + self.node_head_text(node@),
    {
        let ghost s0 = s@;
        push_str(s, "<g id=\"");
        push_str(s, id);
        push_str(s, "\" opacity=\"0\">\n");
        push_str(s, "  <circle id=\"c");
        push_str(s, id);
        push_str(s, "\" cx=\"");
        push_i64(s, node.center().x() as i64);
        push_str(s, "\" cy=\"");
        push_i64(s, node.center().y() as i64);
        push_str(s, "\" r=\"");
        push_u64(s, self.p_radius_node as u64);
        push_str(s, "\" ");
        push_str(s, "fill=\"");
        push_rgb(s, node.fill_color());
        push_str(s, "\" ");
        push_str(s, "stroke=\"");
        push_rgb(s, node.stroke_color());
        push_str(s, "\" stroke-width=\"");
        push_u64(s, self.p_stroke_width_node as u64);
        push_str(s, "\"></circle>\n");
        assert(s@ =~= s0 + self.node_head_text(node@));
    }

    fn push_node_label(&self, s: &mut String, node: &Node, id: &str)
        requires
            id@ == super::node::node_id_text(node@.name, node@.id),
        ensures
            final(s)@ == old(s)@ + self.node_label_text(node@),
    {
        let ghost s0 = s@;
        if self.p_display_node_label {
            let dy: i64 = if self.p_display_node_value {
                -2
            } else {
                6
            };
            push_str(s, "  <text id=\"co");
            push_str(s, id);
            push_str(s, "\" x=\"");
            push_i64(s, node.center().x() as i64);
            push_str(s, "\" y=\"");
            push_i64(s, node.center().y() as i64);
            push_str(s, "\" dx=\"");
            push_i64(s, -6);
            push_str(s, "\" dy=\"");
            push_i64(s, dy);
            push_str(s, "\" ");
            push_str(s, "fill=\"");
            push_rgb(s, node.text_color());
            push_str(s, "\">");
            push_char(s, node.name());
            push_str(s, "</text>\n");
        }
        assert(s@ =~= s0 + self.node_label_text(node@));
    }

    /// The SVG text that creates a node: a transparent group with its circle and label.
    pub fn instantiate_node(&self, node: &Node) -> (svg: String)
        ensures
            svg@ == self.node_text(node@),
    {
        let mut svg = String::new();
        let id = node.id();
        self.push_node_head(&mut svg, node, id.as_str());
        self.push_node_label(&mut svg, node, id.as_str());
        push_str(&mut svg, "</g>\n");
        assert(svg@ =~= self.node_text(node@));
        svg
    }

    fn push_link_path(&self, s: &mut String, link: &Link, id: &str)
        requires
            id@ == super::link::link_id_text(link@.from, link@.to, link@.id),
        ensures
            final(s)@ == old(s)@ + self.link_path_text(link@),
    {
        let ghost s0 = s@;
        push_str(s, "<path id=\"");
        push_str(s, id);
        push_str(s, "\" stroke-width=\"");
        push_u64(s, self.p_stroke_width_link as u64);
        push_str(s, "\" opacity=\"0\"");
        push_str(s, " stroke=\"");
        push_rgb(s, link.stroke_color());
        push_str(s, "\" d=\"");
        push_segment(
            s,
            link.from_center().x() as i64,
            link.from_center().y() as i64,
            link.to_center().x() as i64,
            link.to_center().y() as i64,
        );
        push_str(s, "\" />\n");
        push_str(s, "<g id=\"lib");
        push_str(s, id);
        push_str(s, "\" opacity=\"0\">\n");
        assert(s@ =~= s0 + self.link_path_text(link@));
    }

    fn push_link_label(&self, s: &mut String, link: &Link, id: &str)
        requires
            id@ == super::link::link_id_text(link@.from, link@.to, link@.id),
        ensures
            final(s)@ == old(s)@ + self.link_label_text(link@),
    {
        let ghost s0 = s@;
        if self.p_display_link_label {
            let mx = halve(link.from_center().x() as i64 + link.to_center().x() as i64);
            let my = halve(link.from_center().y() as i64 + link.to_center().y() as i64);
            let dy: i64 = if self.p_display_link_value {
                -3
            } else {
                -5
            };
            push_str(s, "  <text id=\"co");
            push_str(s, id);
            push_str(s, "\" x=\"");
            push_i64(s, mx);
            push_str(s, "\" y=\"");
            push_i64(s, my);
            push_str(s, "\" dx=\"");
            push_i64(s, -5);
            push_str(s, "\" dy=\"");
            push_i64(s, dy);
            push_str(s, "\"");
            push_str(s, " fill=\"");
            push_rgb(s, link.text_color());
            push_str(s, "\">");
            push_char(s, link.from());
            push_char(s, link.to());
            push_str(s, "</text>\n");
        }
        assert(s@ =~= s0 + self.link_label_text(link@));
    }

    fn push_link_value(&self, s: &mut String, link: &Link, id: &str)
        requires
            id@ == super::link::link_id_text(link@.from, link@.to, link@.id),
        ensures
            final(s)@ == old(s)@ + self.link_value_text(link@),
    {
        let ghost s0 = s@;
        if self.p_display_link_value {
            let mx = halve(link.from_center().x() as i64 + link.to_center().x() as i64);
            let my = halve(link.from_center().y() as i64 + link.to_center().y() as i64);
            let dx: i64 = if self.p_display_link_label {
                -12
            } else {
                -5
            };
            let dy: i64 = if self.p_display_link_label {
                14
            } else {
                -5
            };
            push_str(s, "  <text id=\"m");
            push_str(s, id);
            push_str(s, "\" x=\"");
            push_i64(s, mx);
            push_str(s, "\" y=\"");
            push_i64(s, my);
            push_str(s, "\" dx=\"");
            push_i64(s, dx);
            push_str(s, "\" dy=\"");
            push_i64(s, dy);
            push_str(s, "\" ");
            push_str(s, " fill=\"");
            push_rgb(s, link.text_color());
            push_str(s, "\">");
            push_i64(s, link.value() as i64);
            push_str(s, "</text>\n");
        }
        assert(s@ =~= s0 + self.link_value_text(link@));
    }

    fn push_link_arrow(&self, s: &mut String, link: &Link, id: &str)
        requires
            id@ == super::link::link_id_text(link@.from, link@.to, link@.id),
        ensures
            final(s)@ == old(s)@ + self.link_arrow_text(link@),
    {
        let ghost s0 = s@;
        if !link.bidirect() {
            push_str(s, "<text id=\"bi");
            push_str(s, id);
            push_str(s, "\" fill=\"");
            push_rgb(s, link.text_color());
            push_str(s, "\" opacity=\"0\">\n");
            push_str(s, "<textpath startOffset=\"");
            push_u64(s, self.p_radius_node as u64);
            push_str(s, "\" href=\"#");
            push_str(s, id);
            push_str(s, "\">\u{21d2}</textpath>\n");
            push_str(s, "</text>\n");
        }
        assert(s@ =~= s0 + self.link_arrow_text(link@));
    }

    /// The SVG text that creates a link: its transparent path, the transparent group of its
    /// texts, and the arrow of a directed link.
    pub fn instantiate_link(&self, link: &Link) -> (svg: String)
        ensures
            svg@ == self.link_text(link@),
    {
        let mut svg = String::new();
        let id = link.id();
        self.push_link_path(&mut svg, link, id.as_str());
        self.push_link_label(&mut svg, link, id.as_str());
        self.push_link_value(&mut svg, link, id.as_str());
        push_str(&mut svg, "</g>\n");
        self.push_link_arrow(&mut svg, link, id.as_str());
        assert(svg@ =~= self.link_text(link@));
        svg
    }

    /// The opening tag of the SVG picture, whose view box frames the given bounds.
    pub fn instanciate_viewbox(&self, x_min_init: i32, x_max_init: i32, y_min_init: i32, y_max_init: i32) -> (svg: String)
        ensures
            svg@ == self.viewbox_text(x_min_init as int, x_max_init as int, y_min_init as int, y_max_init as int),
    {
        let mut svg = String::new();
        push_str(&mut svg, "\n<svg class=\"svg_dynalgo\" onclick=\"pause(this)\" viewBox=\"");
        push_viewbox_numbers(&mut svg, x_min_init, x_max_init, y_min_init, y_max_init, self.p_radius_node);
        push_str(&mut svg, "\" preserveAspectRatio=\"xMidYMid meet\">\n");
        assert(svg@ =~= self.viewbox_text(x_min_init as int, x_max_init as int, y_min_init as int, y_max_init as int));
        svg
    }

    /// The animation of the view box between two framings (nothing when they are equal).
    pub fn animate_viewbox(
        &self,
        x_min_curr: i32,
        x_max_curr: i32,
        y_min_curr: i32,
        y_max_curr: i32,
        x_min_next: i32,
        x_max_next: i32,
        y_min_next: i32,
        y_max_next: i32,
        duration: u32,
        start_time: u32,
    ) -> (svg: String)
        ensures
            svg@ == self.viewbox_animation_text(
                x_min_curr as int,
                x_max_curr as int,
                y_min_curr as int,
                y_max_curr as int,
                x_min_next as int,
                x_max_next as int,
                y_min_next as int,
                y_max_next as int,
                duration,
                start_time,
            ),
    {
        let mut svg = String::new();
        if x_min_curr == x_min_next && y_min_curr == y_min_next && x_max_curr == x_max_next
            && y_max_curr == y_max_next {
            return svg;
        }
        push_str(&mut svg, "<animate attributeName=\"viewBox\" from=\"");
        push_viewbox_numbers(&mut svg, x_min_curr, x_max_curr, y_min_curr, y_max_curr, self.p_radius_node);
        push_str(&mut svg, "\" ");
        push_str(&mut svg, "to=\"");
        push_viewbox_numbers(&mut svg, x_min_next, x_max_next, y_min_next, y_max_next, self.p_radius_node);
        push_str(&mut svg, "\" begin=\"");
        push_u64(&mut svg, start_time as u64);
        push_str(&mut svg, "ms\" dur=\"");
        push_u64(&mut svg, duration as u64);
        push_str(&mut svg, "ms\" fill=\"freeze\" />\n");
        assert(svg@ =~= self.viewbox_animation_text(
            x_min_curr as int,
            x_max_curr as int,
            y_min_curr as int,
            y_max_curr as int,
            x_min_next as int,
            x_max_next as int,
            y_min_next as int,
            y_max_next as int,
            duration,
            start_time,
        ));
        svg
    }
}


impl Svg {
    fn push_node_motion(
        s: &mut String,
        current: &Node,
        initial: &Node,
        previous: &Node,
        id: &str,
        duration: u32,
        start_time: u32,
    )
        requires
            id@ == super::node::node_id_text(current@.name, current@.id),
        ensures
            final(s)@ == old(s)@ + Self::node_motion_text(
                current@,
                initial@,
                previous@,
                duration,
                start_time,
            ),
    {
        let ghost s0 = s@;
        if previous.center().x() != current.center().x() || previous.center().y()
            != current.center().y() {
            let dx_curr = previous.center().x() as i64 - initial.center().x() as i64;
            let dy_curr = previous.center().y() as i64 - initial.center().y() as i64;
            let dx_next = current.center().x() as i64 - previous.center().x() as i64;
            let dy_next = current.center().y() as i64 - previous.center().y() as i64;
            push_str(s, "<animateMotion href=\"#");
            push_str(s, id);
            push_str(s, "\" begin=\"");
            push_u64(s, start_time as u64);
            push_str(s, "ms\" dur=\"");
            push_u64(s, duration as u64);
            push_str(s, "ms\"\n                    fill=\"freeze\" ");
            push_motion_path(s, dx_curr, dy_curr, dx_next, dy_next);
        }
        assert(s@ =~= s0 + Self::node_motion_text(
            current@,
            initial@,
            previous@,
            duration,
            start_time,
        ));
    }

    fn push_node_opacity(s: &mut String, current: &Node, id: &str, duration: u32, start_time: u32)
        requires
            id@ == super::node::node_id_text(current@.name, current@.id),
        ensures
            final(s)@ == old(s)@ + Self::node_opacity_text(current@, duration, start_time),
    {
        let ghost s0 = s@;
        let created = current.tag_created();
        if created || current.tag_deleted() {
            push_str(s, "<animate href=\"#");
            push_str(s, id);
            push_str(s, "\" attributeName=\"opacity\" ");
            push_opacity(s, created, duration, start_time);
        }
        assert(s@ =~= s0 + Self::node_opacity_text(current@, duration, start_time));
    }

    fn push_node_strokes(
        s: &mut String,
        current: &Node,
        previous: &Node,
        id: &str,
        duration: u32,
        start_time: u32,
    )
        requires
            id@ == super::node::node_id_text(current@.name, current@.id),
        ensures
            final(s)@ == old(s)@ + Self::node_created_stroke_text(
                current@,
                previous@,
                duration,
                start_time,
            ) + Self::node_deleted_stroke_text(current@, previous@, duration, start_time)
                + Self::node_selection_text(current@, previous@, duration, start_time),
    {
        let ghost s0 = s@;
        if !current.tag_created() && previous.tag_created() {
            push_stroke_animation(
                s,
                "c",
                id,
                previous.stroke_color(),
                current.stroke_color(),
                duration,
                start_time,
            );
        }
        assert(s@ =~= s0 + Self::node_created_stroke_text(current@, previous@, duration, start_time));
        let ghost s1 = s@;
        if current.tag_deleted() && !previous.tag_deleted() {
            push_stroke_animation(
                s,
                "c",
                id,
                previous.stroke_color(),
                current.stroke_color(),
                duration,
                start_time,
            );
        }
        assert(s@ =~= s1 + Self::node_deleted_stroke_text(current@, previous@, duration, start_time));
        let ghost s2 = s@;
        let selected = current.tag_selected();
        if selected != previous.tag_selected() {
            push_selection_animation(
                s,
                "c",
                id,
                selected,
                current.stroke_width(),
                previous.stroke_color(),
                current.stroke_color(),
                duration,
                start_time,
            );
        }
        assert(s@ =~= s2 + Self::node_selection_text(current@, previous@, duration, start_time));
    }

    fn push_node_fill(
        s: &mut String,
        current: &Node,
        previous: &Node,
        id: &str,
        duration: u32,
        start_time: u32,
    )
        requires
            id@ == super::node::node_id_text(current@.name, current@.id),
        ensures
            final(s)@ == old(s)@ + Self::node_fill_text(current@, previous@, duration, start_time),
    {
        let ghost s0 = s@;
        if current.fill_color() != previous.fill_color() {
            push_str(s, "<animate href=\"#c");
            push_str(s, id);
            push_str(s, "\" attributeName=\"fill\" ");
            push_color_change(s, previous.fill_color(), current.fill_color());
            push_timing(s, duration, start_time);
        }
        assert(s@ =~= s0 + Self::node_fill_text(current@, previous@, duration, start_time));
    }

    /// The animation of a node between its previous state and its current one; `initial` is
    /// the node as it was created (motions are relative to its first position).
    pub fn animate_node(
        &self,
        current: &Node,
        initial: &Node,
        previous: &Node,
        duration: u32,
        start_time: u32,
    ) -> (svg: String)
        ensures
            svg@ == Self::node_animation_text(current@, initial@, previous@, duration, start_time),
    {
        let mut svg = String::new();
        let id = current.id();
        Self::push_node_motion(
            &mut svg,
            current,
            initial,
            previous,
            id.as_str(),
            duration,
            start_time,
        );
        assert(svg@ =~= Self::node_motion_text(current@, initial@, previous@, duration, start_time));
        Self::push_node_opacity(&mut svg, current, id.as_str(), duration, start_time);
        Self::push_node_strokes(&mut svg, current, previous, id.as_str(), duration, start_time);
        Self::push_node_fill(&mut svg, current, previous, id.as_str(), duration, start_time);
        svg
    }

    fn push_link_path_motion(
        s: &mut String,
        current: &Link,
        previous: &Link,
        id: &str,
        duration: u32,
        start_time: u32,
    )
        requires
            id@ == super::link::link_id_text(current@.from, current@.to, current@.id),
        ensures
            final(s)@ == old(s)@ + Self::link_path_motion_text(
                current@,
                previous@,
                duration,
                start_time,
            ),
    {
        let ghost s0 = s@;
        push_str(s, "<animate href=\"#");
        push_str(s, id);
        push_str(s, "\" ");
        push_str(s, "begin=\"");
        push_u64(s, start_time as u64);
        push_str(s, "ms\" fill=\"freeze\" attributeName=\"d\" dur=\"");
        push_u64(s, duration as u64);
        push_str(s, "ms\" ");
        push_str(s, "values=\"");
        push_segment(
            s,
            previous.from_center().x() as i64,
            previous.from_center().y() as i64,
            previous.to_center().x() as i64,
            previous.to_center().y() as i64,
        );
        push_str(s, ";");
        push_segment(
            s,
            current.from_center().x() as i64,
            current.from_center().y() as i64,
            current.to_center().x() as i64,
            current.to_center().y() as i64,
        );
        push_str(s, "\" />\n");
        assert(s@ =~= s0 + Self::link_path_motion_text(current@, previous@, duration, start_time));
    }

    fn push_link_texts_motion(
        s: &mut String,
        current: &Link,
        initial: &Link,
        previous: &Link,
        id: &str,
        duration: u32,
        start_time: u32,
    )
        requires
            id@ == super::link::link_id_text(current@.from, current@.to, current@.id),
        ensures
            final(s)@ == old(s)@ + Self::link_texts_motion_text(
                current@,
                initial@,
                previous@,
                duration,
                start_time,
            ),
    {
        let ghost s0 = s@;
        let next_x = halve(current.from_center().x() as i64 + current.to_center().x() as i64);
        let next_y = halve(current.from_center().y() as i64 + current.to_center().y() as i64);
        let curr_x = halve(previous.from_center().x() as i64 + previous.to_center().x() as i64);
        let curr_y = halve(previous.from_center().y() as i64 + previous.to_center().y() as i64);
        let init_x = halve(initial.from_center().x() as i64 + initial.to_center().x() as i64);
        let init_y = halve(initial.from_center().y() as i64 + initial.to_center().y() as i64);
        push_str(s, "<animateMotion href=\"#lib");
        push_str(s, id);
        push_str(s, "\" begin=\"");
        push_u64(s, start_time as u64);
        push_str(s, "ms\" dur=\"");
        push_u64(s, duration as u64);
        push_str(s, "ms\" ");
        push_str(s, "fill=\"freeze\" ");
        push_motion_path(s, curr_x - init_x, curr_y - init_y, next_x - curr_x, next_y - curr_y);
        assert(s@ =~= s0 + Self::link_texts_motion_text(
            current@,
            initial@,
            previous@,
            duration,
            start_time,
        ));
    }

    fn push_link_motion(
        s: &mut String,
        current: &Link,
        initial: &Link,
        previous: &Link,
        id: &str,
        duration: u32,
        start_time: u32,
    )
        requires
            id@ == super::link::link_id_text(current@.from, current@.to, current@.id),
        ensures
            final(s)@ == old(s)@ + Self::link_motion_text(
                current@,
                initial@,
                previous@,
                duration,
                start_time,
            ),
    {
        let ghost s0 = s@;
        if previous.from_center().x() != current.from_center().x() || previous.from_center().y()
            != current.from_center().y() || previous.to_center().x() != current.to_center().x()
            || previous.to_center().y() != current.to_center().y() {
            Self::push_link_path_motion(s, current, previous, id, duration, start_time);
            Self::push_link_texts_motion(s, current, initial, previous, id, duration, start_time);
        }
        assert(s@ =~= s0 + Self::link_motion_text(
            current@,
            initial@,
            previous@,
            duration,
            start_time,
        ));
    }

    fn push_link_opacity(s: &mut String, current: &Link, id: &str, duration: u32, start_time: u32)
        requires
            id@ == super::link::link_id_text(current@.from, current@.to, current@.id),
        ensures
            final(s)@ == old(s)@ + Self::link_opacity_text(current@, duration, start_time),
    {
        let ghost s0 = s@;
        let created = current.tag_created();
        if created || current.tag_deleted() {
            push_str(s, "<animate href=\"#");
            push_str(s, id);
            push_str(s, "\" attributeName=\"opacity\" ");
            push_opacity(s, created, duration, start_time);
            push_str(s, "<animate href=\"#lib");
            push_str(s, id);
            push_str(s, "\" attributeName=\"opacity\" ");
            push_opacity(s, created, duration, start_time);
            push_str(s, "<animate href=\"#bi");
            push_str(s, id);
            push_str(s, "\" attributeName=\"opacity\" ");
            push_opacity(s, created, duration, start_time);
        }
        assert(s@ =~= s0 + Self::link_opacity_text(current@, duration, start_time));
    }

    /// The animation of a link between its previous state and its current one; `initial` is
    /// the link as it was created (motions are relative to its first position).
    pub fn animate_link(
        &self,
        current: &Link,
        initial: &Link,
        previous: &Link,
        duration: u32,
        start_time: u32,
    ) -> (svg: String)
        ensures
            svg@ == Self::link_animation_text(current@, initial@, previous@, duration, start_time),
    {
        let mut svg = String::new();
        let id = current.id();
        let created = current.tag_created();
        let deleted = current.tag_deleted();
        let selected = current.tag_selected();
        Self::push_link_motion(
            &mut svg,
            current,
            initial,
            previous,
            id.as_str(),
            duration,
            start_time,
        );
        Self::push_link_opacity(&mut svg, current, id.as_str(), duration, start_time);
        let ghost p2 = svg@;
        if !created && previous.tag_created() {
            push_stroke_animation(
                &mut svg,
                "",
                id.as_str(),
                previous.stroke_color(),
                current.stroke_color(),
                duration,
                start_time,
            );
        }
        let ghost p3 = svg@;
        if deleted && !previous.tag_deleted() {
            push_stroke_animation(
                &mut svg,
                "",
                id.as_str(),
                previous.stroke_color(),
                current.stroke_color(),
                duration,
                start_time,
            );
        }
        let ghost p4 = svg@;
        if selected != previous.tag_selected() {
            push_selection_animation(
                &mut svg,
                "",
                id.as_str(),
                selected,
                current.stroke_width(),
                previous.stroke_color(),
                current.stroke_color(),
                duration,
                start_time,
            );
        }
        proof {
            let (c, d, sel) = tag_flags(current@.tag);
            let (pc, pd, ps) = tag_flags(previous@.tag);
            let idv = super::link::link_id_text(current@.from, current@.to, current@.id);
            assert(""@ =~= Seq::<char>::empty()) by {
                reveal_strlit("");
            }
            assert(p3 =~= p2 + (if !c && pc {
                stroke_animation_text(
                    Seq::empty(),
                    idv,
                    previous@.stroke_color,
                    current@.stroke_color,
                    duration,
                    start_time,
                )
            } else {
                Seq::empty()
            }));
            assert(p4 =~= p3 + (if d && !pd {
                stroke_animation_text(
                    Seq::empty(),
                    idv,
                    previous@.stroke_color,
                    current@.stroke_color,
                    duration,
                    start_time,
                )
            } else {
                Seq::empty()
            }));
        }
        assert(svg@ =~= Self::link_animation_text(current@, initial@, previous@, duration, start_time));
        svg
    }
}

} // verus!
