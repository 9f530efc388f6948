//! Basic `graph` structure representation with animation properties: every change of the
//! structure is rendered as an animation step of its SVG picture.
pub mod readback;
pub mod renderer;

use vstd::prelude::*;
use renderer::color::Color;
use renderer::point::Point;
use renderer::tag::Tag;
use renderer::{LayoutEngine, Renderer};
use crate::keymap::{CharPair, KeyMap, MapKey};
use crate::config::{Command, ConfigError};
use crate::text::{push_char, push_i64};

verus! {

/// Whether animation steps are rendered after each change (`Resumed`) or only on demand.
#[derive(Clone, Copy, PartialEq, Eq, Structural, Debug)]
pub enum AnimState {
    Paused,
    Resumed,
}

/// The adjacency of a graph: for each node, its neighbors and the values of the links to them.
pub type Adjacency = Map<char, Map<char, i8>>;

/// The adjacency held by a map of rows.
pub open spec fn rows_view(m: KeyMap<char, KeyMap<char, i8>>) -> Adjacency {
    Map::new(|k: char| m@.contains_key(k), |k: char| m@[k]@)
}

/// Whether every row of a map of rows is well formed.
pub open spec fn rows_wf(m: KeyMap<char, KeyMap<char, i8>>) -> bool {
    &&& m.wf()
    &&& forall|k: char| #[trigger] m@.contains_key(k) ==> m@[k].wf()
}

/// Whether `adj` is the adjacency of a graph: links join two distinct nodes, and the two
/// directions of a bidirectional link carry the same value.
pub open spec fn adjacency_wf(adj: Adjacency) -> bool {
    &&& forall|a: char, b: char| #[trigger] adj.contains_key(a) && #[trigger] adj[a].contains_key(b) ==> adj.contains_key(b) && a != b
    &&& forall|a: char, b: char| #[trigger] adj.contains_key(a) && #[trigger] adj[a].contains_key(b) && adj[b].contains_key(a) ==> adj[a][b] == adj[b][a]
}

/// Whether there is a link from `a` to `b`.
pub open spec fn has_link(adj: Adjacency, a: char, b: char) -> bool {
    adj.contains_key(a) && adj[a].contains_key(b)
}

/// `d` milliseconds at a speed of `speed_permille` thousandths: at least 1 ms, and at most
/// `u32::MAX`.
pub open spec fn scaled_duration(d: u32, speed_permille: u32) -> u32 {
    let q = (d as int * 1000) / (speed_permille as int);
    if q > u32::MAX {
        u32::MAX
    } else if q == 0 {
        1
    } else {
        q as u32
    }
}

pub struct Graph<E: LayoutEngine> {
    renderer: Renderer,
    adjacency: KeyMap<char, KeyMap<char, i8>>,
    anim_state: AnimState,
    layout_on_resume: bool,
    duration_on_resume: u32,
    p_speed_permille: u32,
    p_duration_add: u32,
    p_duration_delete: u32,
    p_duration_move: u32,
    p_duration_color: u32,
    p_radius: u8,
    engine: E,
}

impl<E: LayoutEngine> Graph<E> {
    /// The nodes of the graph, with their neighbors and the values of the links to them.
    pub closed spec fn adj(&self) -> Adjacency {
        rows_view(self.adjacency)
    }

    /// The nodes of the graph, in increasing order.
    pub closed spec fn node_seq(&self) -> Seq<char> {
        self.adjacency.keys()
    }

    /// The neighbors of `n`, in increasing order.
    pub closed spec fn neighbor_seq(&self, n: char) -> Seq<char> {
        self.adjacency@[n].keys()
    }

    /// The graphic representation of the graph.
    pub closed spec fn picture(&self) -> Renderer {
        self.renderer
    }

    pub closed spec fn state(&self) -> AnimState {
        self.anim_state
    }

    /// Whether a layout of the nodes is due when the animation resumes.
    pub closed spec fn layout_pending(&self) -> bool {
        self.layout_on_resume
    }

    /// The duration of the animation step rendered when the animation resumes.
    pub closed spec fn resume_duration(&self) -> u32 {
        self.duration_on_resume
    }

    /// The animation speed, in thousandths.
    pub closed spec fn speed_permille(&self) -> u32 {
        self.p_speed_permille
    }

    /// The durations of the animation steps that show an addition, a deletion, a move and a
    /// change of color.
    pub closed spec fn step_durations(&self) -> (u32, u32, u32, u32) {
        (self.p_duration_add, self.p_duration_delete, self.p_duration_move, self.p_duration_color)
    }

    pub closed spec fn radius(&self) -> u8 {
        self.p_radius
    }

    /// The state of the representation of node `n`.
    pub open spec fn node_state(&self, n: char) -> renderer::node::NodeState {
        self.picture().node_map()@[n]@
    }

    /// Whether the animation is paused.
    pub open spec fn is_paused(&self) -> bool {
        self.state() == AnimState::Paused
    }

    pub closed spec fn wf(&self) -> bool {
        &&& rows_wf(self.adjacency)
        &&& adjacency_wf(self.adj())
        &&& self.renderer.wf()
        &&& forall|k: char| #[trigger] self.adjacency@.contains_key(k) <==> live_node(self.renderer, k)
        &&& forall|a: char, b: char| #[trigger] has_link(self.adj(), a, b) ==> live_link(self.renderer, a, b)
        &&& self.anim_state == AnimState::Resumed ==> !self.layout_on_resume
            && self.renderer.node_map()@.dom() == self.adjacency@.dom()
        &&& 100 <= self.p_speed_permille <= 10000
    }

}

/// Whether the link of `r` keyed by `k` exists and is not being deleted.
pub open spec fn live_link_at(r: Renderer, k: CharPair) -> bool {
    r.link_map()@.contains_key(k) && r.link_map()@[k]@.tag != Some(Tag::Deleted)
}

/// Whether `r` shows a link between `a` and `b` (either way) that is not being deleted.
pub open spec fn live_link(r: Renderer, a: char, b: char) -> bool {
    live_link_at(r, CharPair(a, b)) || live_link_at(r, CharPair(b, a))
}

/// Whether node `k` of `r` exists and is not being deleted.
pub open spec fn live_node(r: Renderer, k: char) -> bool {
    r.node_map()@.contains_key(k) && r.node_map()@[k]@.tag != Some(Tag::Deleted)
}


/// The links of the rows `rows` (in order), each as (from, to).
pub open spec fn links_of_rows(rows: Seq<(char, KeyMap<char, i8>)>) -> Seq<(char, char)>
    decreases rows.len(),
{
    if rows.len() == 0 {
        Seq::empty()
    } else {
        let (a, row) = rows.last();
        links_of_rows(rows.drop_last()) + row.keys().map_values(|b: char| (a, b))
    }
}

/// The links of `all`, in order, where a link is left out when its reverse comes before it
/// (unless the graph is directed).
pub open spec fn listed_links(all: Seq<(char, char)>, directed: bool) -> Seq<(char, char)>
    decreases all.len(),
{
    if all.len() == 0 {
        Seq::empty()
    } else {
        let kept = listed_links(all.drop_last(), directed);
        let (a, b) = all.last();
        if directed || !kept.contains((b, a)) {
            kept.push((a, b))
        } else {
            kept
        }
    }
}

/// Whether some link has no reverse link.
pub open spec fn is_directed(adj: Adjacency) -> bool {
    exists|a: char, b: char| #[trigger] has_link(adj, a, b) && !has_link(adj, b, a)
}

/// The entry of the adjacency matrix for the pair (a, b).
pub open spec fn matrix_entry(adj: Adjacency, a: char, b: char) -> Option<i8> {
    if adj[a].contains_key(b) {
        Some(adj[a][b])
    } else {
        None
    }
}

/// Whether `v` contains the pair `p`.
fn pairs_contain(v: &Vec<(char, char)>, p: (char, char)) -> (b: bool)
    ensures
        b == v@.contains(p),
{
    let mut i: usize = 0;
    while i < v.len()
        invariant
            i <= v@.len(),
            forall|j: int| 0 <= j < i ==> v@[j] != p,
        decreases v@.len() - i,
    {
        if v[i].0 == p.0 && v[i].1 == p.1 {
            assert(v@[i as int] == p);
            return true;
        }
        i = i + 1;
    }
    false
}

impl<E: LayoutEngine> Graph<E> {
    /// Creates an empty graph structure, whose changes are animated as they happen.
    pub fn new() -> (g: Graph<E>)
        ensures
            g.wf(),
            g.adj() == Adjacency::empty(),
            g.state() == AnimState::Resumed,
            g.speed_permille() == 1000,
            g.step_durations() == (300u32, 300u32, 900u32, 600u32),
            g.radius() == 13,
            g.picture().total() == 0,
    {
        let node_radius: u8 = 13;
        let renderer = Renderer::new(
            true,
            true,
            Color::new(255, 255, 255),
            Color::new(47, 79, 79),
            Color::new(47, 79, 79),
            Color::new(0, 0, 139),
            Color::new(0, 0, 0),
            node_radius,
        );
        let g = Graph {
            renderer,
            adjacency: KeyMap::new(),
            anim_state: AnimState::Resumed,
            layout_on_resume: false,
            duration_on_resume: 1,
            p_speed_permille: 1000,
            p_duration_add: 300,
            p_duration_delete: 300,
            p_duration_move: 900,
            p_duration_color: 600,
            p_radius: node_radius,
            engine: E::create(),
        };
        assert(g.adj() =~= Adjacency::empty());
        assert(g.renderer.node_map()@.dom() =~= g.adjacency@.dom());
        g
    }

    /// Whether there is a link from `node_from` to `node_to`.
    pub fn has_link(&self, node_from: char, node_to: char) -> (b: bool)
        requires
            self.wf(),
        ensures
            b == has_link(self.adj(), node_from, node_to),
    {
        match self.adjacency.get(&node_from) {
            Some(row) => row.contains_key(&node_to),
            None => false,
        }
    }

    /// The value of the link from `node_from` to `node_to`, if there is one.
    pub fn link_value(&self, node_from: char, node_to: char) -> (v: Option<i8>)
        requires
            self.wf(),
        ensures
            v == (if has_link(self.adj(), node_from, node_to) {
                Some(self.adj()[node_from][node_to])
            } else {
                None
            }),
    {
        match self.adjacency.get(&node_from) {
            Some(row) => match row.get(&node_to) {
                Some(v) => Some(*v),
                None => None,
            },
            None => None,
        }
    }

    /// Returns the nodes names list, in increasing order.
    pub fn nodes(&self) -> (v: Vec<char>)
        requires
            self.wf(),
        ensures
            v@ == self.node_seq(),
            forall|k: char| #[trigger] self.adj().contains_key(k) <==> v@.contains(k),
            v@.no_duplicates(),
            increasing(v@),
    {
        proof {
            self.adjacency.lemma_keys();
            reveal(increasing);
        }
        self.adjacency.keys_vec()
    }

    /// Returns the nodes that can be reached from `node` through one link, in increasing order.
    pub fn neighbors(&self, node: char) -> (v: Vec<char>)
        requires
            self.wf(),
            self.adj().contains_key(node),
        ensures
            v@ == self.neighbor_seq(node),
            forall|k: char| #[trigger] self.adj()[node].contains_key(k) <==> v@.contains(k),
            v@.no_duplicates(),
            increasing(v@),
    {
        let row = self.adjacency.get(&node).unwrap();
        proof {
            row.lemma_keys();
            reveal(increasing);
        }
        row.keys_vec()
    }

    /// Returns a copy of the adjacency list.
    pub fn adjacency_list(&self) -> (m: KeyMap<char, KeyMap<char, i8>>)
        requires
            self.wf(),
        ensures
            rows_wf(m),
            rows_view(m) == self.adj(),
            m.keys() == self.node_seq(),
    {
        let mut m: KeyMap<char, KeyMap<char, i8>> = KeyMap::new();
        let mut i: usize = 0;
        proof {
            self.adjacency.lemma_keys();
        }
        while i < self.adjacency.len()
            invariant
                self.wf(),
                i <= self.adjacency.spec_len(),
                rows_wf(m),
                m.keys() == self.adjacency.keys().take(i as int),
                forall|k: char| #[trigger] m@.contains_key(k) ==> self.adjacency@.contains_key(k) && m@[k]@ == self.adjacency@[k]@,
                forall|j: int| 0 <= j < i ==> m@.contains_key(#[trigger] self.adjacency.keys()[j]),
            decreases self.adjacency.spec_len() - i,
        {
            let k = self.adjacency.key_at(i);
            let row = self.adjacency.value_at(i).duplicate();
            proof {
                assert(m.keys().len() == m.spec_len());
                assert(m.keys().len() == i);
                assert(k == self.adjacency.pairs()[i as int].0);
                assert forall|j: int| 0 <= j < m.spec_len() implies (#[trigger] m.pairs()[j]).0.rank() < k.rank() by {
                    assert(m.pairs()[j].0 == m.keys()[j]);
                    assert(m.keys()[j] == self.adjacency.keys()[j]);
                    assert(self.adjacency.keys()[j] == self.adjacency.pairs()[j].0);
                    assert(self.adjacency.pairs()[j].0.rank() < self.adjacency.pairs()[i as int].0.rank());
                }
            }
            m.push_last(k, row);
            assert(m.keys() =~= self.adjacency.keys().take(i + 1));
            i = i + 1;
        }
        proof {
            assert(self.adjacency.keys().take(i as int) =~= self.adjacency.keys());
            assert forall|k: char| #[trigger] self.adjacency@.contains_key(k) implies m@.contains_key(k) by {
                self.adjacency.lemma_key_in_keys(k);
            }
            assert(rows_view(m) =~= self.adj());
        }
        m
    }
}


impl<E: LayoutEngine> Graph<E> {
    /// The row of `a`, for a node `a`.
    fn row(&self, a: char) -> (r: &KeyMap<char, i8>)
        requires
            self.wf(),
            self.adj().contains_key(a),
        ensures
            r.wf(),
            r@ == self.adj()[a],
            *r == self.adjacency@[a],
    {
        self.adjacency.get(&a).unwrap()
    }

    /// Returns True if the graph is directed: if some link has no reverse link.
    pub fn directed(&self) -> (b: bool)
        requires
            self.wf(),
        ensures
            b == is_directed(self.adj()),
    {
        let mut i: usize = 0;
        while i < self.adjacency.len()
            invariant
                self.wf(),
                i <= self.adjacency.spec_len(),
                forall|ii: int, b: char| 0 <= ii < i && #[trigger] has_link(self.adj(), self.adjacency.keys()[ii], b)
                    ==> has_link(self.adj(), b, self.adjacency.keys()[ii]),
            decreases self.adjacency.spec_len() - i,
        {
            let a = self.adjacency.key_at(i);
            let row = self.adjacency.value_at(i);
            let mut j: usize = 0;
            while j < row.len()
                invariant
                    self.wf(),
                    i < self.adjacency.spec_len(),
                    a == self.adjacency.keys()[i as int],
                    self.adjacency@.contains_key(a),
                    *row == self.adjacency@[a],
                    row.wf(),
                    j <= row.spec_len(),
                    forall|jj: int| 0 <= jj < j ==> has_link(self.adj(), #[trigger] row.keys()[jj], a),
                decreases row.spec_len() - j,
            {
                let b = row.key_at(j);
                assert(self.adj().contains_key(a));
                assert(self.adj()[a].contains_key(b));
                assert(self.adj().contains_key(b));
                let back = self.row(b).contains_key(&a);
                if !back {
                    assert(has_link(self.adj(), a, b) && !has_link(self.adj(), b, a));
                    return true;
                }
                j = j + 1;
            }
            proof {
                assert forall|b: char| #[trigger] has_link(self.adj(), a, b) implies has_link(self.adj(), b, a) by {
                    row.lemma_key_in_keys(b);
                    let jj = row.keys().index_of(b);
                    assert(row.keys()[jj] == b);
                }
            }
            i = i + 1;
        }
        proof {
            assert forall|a: char, b: char| #[trigger] has_link(self.adj(), a, b) implies has_link(self.adj(), b, a) by {
                self.adjacency.lemma_key_in_keys(a);
                let ii = self.adjacency.keys().index_of(a);
                assert(self.adjacency.keys()[ii] == a);
            }
        }
        false
    }

    /// All the links, row after row, each as (from, to).
    pub closed spec fn all_links(&self) -> Seq<(char, char)> {
        links_of_rows(self.adjacency.pairs())
    }

    /// Returns the links names list: every link of a directed graph, or each link once (in
    /// the direction in which it comes first) otherwise.
    pub fn links(&self) -> (v: Vec<(char, char)>)
        requires
            self.wf(),
        ensures
            v@ == listed_links(self.all_links(), is_directed(self.adj())),
    {
        let mut links: Vec<(char, char)> = Vec::new();
        let directed = self.directed();
        let mut i: usize = 0;
        while i < self.adjacency.len()
            invariant
                self.wf(),
                i <= self.adjacency.spec_len(),
                directed == is_directed(self.adj()),
                links@ == listed_links(links_of_rows(self.adjacency.pairs().take(i as int)), directed),
            decreases self.adjacency.spec_len() - i,
        {
            let a = self.adjacency.key_at(i);
            let row = self.adjacency.value_at(i);
            let ghost before = links_of_rows(self.adjacency.pairs().take(i as int));
            let ghost row_links = row.keys().map_values(|b: char| (a, b));
            let mut j: usize = 0;
            while j < row.len()
                invariant
                    self.wf(),
                    row.wf(),
                    j <= row.spec_len(),
                    directed == is_directed(self.adj()),
                    row_links == row.keys().map_values(|b: char| (a, b)),
                    links@ == listed_links(before + row_links.take(j as int), directed),
                decreases row.spec_len() - j,
            {
                let b = row.key_at(j);
                let ghost cur = before + row_links.take(j as int);
                let ghost nxt = before + row_links.take(j + 1);
                assert(row_links[j as int] == (a, b));
                assert(nxt =~= cur.push((a, b)));
                assert(nxt.drop_last() =~= cur);
                if directed || !pairs_contain(&links, (b, a)) {
                    links.push((a, b));
                }
                j = j + 1;
            }
            assert(row_links.take(j as int) =~= row_links);
            assert(self.adjacency.pairs().take(i + 1).drop_last() =~= self.adjacency.pairs().take(i as int));
            i = i + 1;
        }
        assert(self.adjacency.pairs().take(i as int) =~= self.adjacency.pairs());
        links
    }
}


/// The look of a node that is kept by animation steps: its position and colors.
pub open spec fn look_kept(a: renderer::node::NodeState, b: renderer::node::NodeState) -> bool {
    &&& a.center == b.center
    &&& a.center_freezed == b.center_freezed
    &&& a.fill_color == b.fill_color
    &&& a.stroke_color == b.stroke_color
    &&& a.text_color == b.text_color
}

/// The look of a node after a layout: its colors and frozen position are kept, and so is its
/// center when it is frozen.
pub open spec fn look_kept_but_layout(a: renderer::node::NodeState, b: renderer::node::NodeState) -> bool {
    &&& (a.center_freezed ==> a.center == b.center)
    &&& a.center_freezed == b.center_freezed
    &&& a.fill_color == b.fill_color
    &&& a.stroke_color == b.stroke_color
    &&& a.text_color == b.text_color
}

/// The ends, direction, value and colors of a link, which animation steps keep.
pub open spec fn link_look_kept(a: renderer::link::LinkState, b: renderer::link::LinkState) -> bool {
    &&& a.from == b.from
    &&& a.to == b.to
    &&& a.bidirect == b.bidirect
    &&& a.value == b.value
    &&& a.stroke_color == b.stroke_color
    &&& a.text_color == b.text_color
}

/// What an animation step does to the picture of a graph: the nodes and links that were
/// being deleted are gone, and the others keep their looks.
proof fn lemma_step_picture(dom: Set<char>, adj: Adjacency, before: Renderer, after: Renderer)
    requires
        forall|k: char| #[trigger] dom.contains(k) <==> live_node(before, k),
        forall|a: char, b: char| #[trigger] has_link(adj, a, b) ==> live_link(before, a, b),
        forall|k: char| #[trigger] after.node_map()@.contains_key(k) <==> live_node(before, k),
        forall|k: char| #[trigger] after.node_map()@.contains_key(k) ==> after.node_map()@[k]@ == renderer::settled_node(before.node_map()@[k]@),
        forall|k: CharPair| #[trigger] after.link_map()@.contains_key(k) <==> live_link_at(before, k),
        forall|k: CharPair| #[trigger] after.link_map()@.contains_key(k) ==> after.link_map()@[k]@ == renderer::settled_link(before.link_map()@[k]@),
    ensures
        after.node_map()@.dom() == dom,
        forall|k: char| #[trigger] dom.contains(k) <==> live_node(after, k),
        forall|a: char, b: char| #[trigger] has_link(adj, a, b) ==> live_link(after, a, b),
        forall|k: char| #[trigger] after.node_map()@.contains_key(k) ==> before.node_map()@.contains_key(k)
            && look_kept(before.node_map()@[k]@, after.node_map()@[k]@),
        forall|k: CharPair| #[trigger] after.link_map()@.contains_key(k) ==> before.link_map()@.contains_key(k)
            && link_look_kept(before.link_map()@[k]@, after.link_map()@[k]@),
        forall|k: CharPair| #[trigger] live_link_at(before, k) ==> live_link_at(after, k),
{
    assert(after.node_map()@.dom() =~= dom);
    assert forall|k: CharPair| #[trigger] live_link_at(before, k) implies live_link_at(after, k) by {
        assert(after.link_map()@.contains_key(k));
    }
    assert forall|a: char, b: char| #[trigger] has_link(adj, a, b) implies live_link(after, a, b) by {
        lemma_live_link_kept(before, after, a, b);
    }
}

/// A link between `a` and `b` stays live when every live link of `before` is live in `after`.
proof fn lemma_live_link_kept(before: Renderer, after: Renderer, a: char, b: char)
    requires
        forall|k: CharPair| #[trigger] live_link_at(before, k) ==> live_link_at(after, k),
    ensures
        live_link(before, a, b) ==> live_link(after, a, b),
{
    let k1 = CharPair(a, b);
    let k2 = CharPair(b, a);
    assert(live_link_at(before, k1) ==> live_link_at(after, k1));
    assert(live_link_at(before, k2) ==> live_link_at(after, k2));
}

impl<E: LayoutEngine> Graph<E> {
    /// Whether the pictures of `self` and `other` show the same nodes and links in the same
    /// colors (and `self` shows no node that is being deleted), where the centers of the nodes
    /// are kept too unless `moved` (then only the frozen ones are).
    pub open spec fn picture_kept(&self, other: &Self, moved: bool) -> bool {
        &&& self.picture().node_map()@.dom() == self.adj().dom()
        &&& forall|k: char| #[trigger] self.picture().node_map()@.contains_key(k)
            ==> other.picture().node_map()@.contains_key(k) && (if moved {
                look_kept_but_layout(other.node_state(k), self.node_state(k))
            } else {
                look_kept(other.node_state(k), self.node_state(k))
            })
        &&& forall|k: CharPair| #[trigger] self.picture().link_map()@.contains_key(k)
            ==> other.picture().link_map()@.contains_key(k) && link_look_kept(
                other.picture().link_map()@[k]@,
                self.picture().link_map()@[k]@,
            )
        &&& forall|k: CharPair| #[trigger] live_link_at(other.picture(), k) ==> live_link_at(self.picture(), k)
    }

    /// Whether an animation step may be rendered now: when a layout is pending, the picture
    /// holds no node that is being deleted.
    pub open spec fn can_step(&self) -> bool {
        self.layout_pending() ==> self.picture().node_map()@.dom() == self.adj().dom()
    }

    /// Renders an animation step of `duration_ms` at `speed_permille` thousandths.
    fn animate(&mut self, duration_ms: u32, speed_permille: u32)
        requires
            old(self).wf(),
            100 <= speed_permille,
        ensures
            final(self).wf(),
            final(self).adjacency == old(self).adjacency,
            final(self).anim_state == old(self).anim_state,
            final(self).layout_on_resume == old(self).layout_on_resume,
            final(self).duration_on_resume == old(self).duration_on_resume,
            final(self).p_speed_permille == old(self).p_speed_permille,
            final(self).step_durations() == old(self).step_durations(),
            final(self).p_radius == old(self).p_radius,
            final(self).renderer.total() == renderer::add_wrapping(old(self).renderer.total(), scaled_duration(duration_ms, speed_permille)),
            final(self).picture_kept(old(self), false),
    {
        let q: u64 = (duration_ms as u64 * 1000) / (speed_permille as u64);
        let d: u32 = if q > u32::MAX as u64 {
            u32::MAX
        } else if q == 0 {
            1
        } else {
            q as u32
        };
        let ghost before = self.renderer;
        self.renderer.animate(d);
        proof {
            lemma_step_picture(self.adjacency@.dom(), self.adj(), before, self.renderer);
            assert(self.adj().dom() =~= self.adjacency@.dom());
        }
    }

    /// The adjacency handed to the layout engine: every link also in the reverse direction.
    fn layout_adjacency(&self) -> (m: KeyMap<char, KeyMap<char, i8>>)
        requires
            self.wf(),
        ensures
            rows_wf(m),
            m@.dom() == self.adjacency@.dom(),
            forall|x: char, y: char| #[trigger] has_link(rows_view(m), x, y)
                <==> has_link(self.adj(), x, y) || has_link(self.adj(), y, x),
            forall|x: char, y: char| #[trigger] has_link(rows_view(m), x, y) ==> m@[x]@[y]
                == if has_link(self.adj(), x, y) { self.adj()[x][y] } else { self.adj()[y][x] },
    {
        let mut adjacency = self.adjacency_list();
        let ghost adj = self.adj();
        let ghost ks = self.adjacency.keys();
        proof {
            assert(rows_view(adjacency).dom() =~= adjacency@.dom());
            assert(self.adj().dom() =~= self.adjacency@.dom());
            self.adjacency.lemma_keys();
        }
        let mut i: usize = 0;
        while i < self.adjacency.len()
            invariant
                self.wf(),
                adj == self.adj(),
                ks == self.adjacency.keys(),
                ks.no_duplicates(),
                ks.len() == self.adjacency.spec_len(),
                forall|k: char| #[trigger] self.adjacency@.contains_key(k) <==> ks.contains(k),
                rows_wf(adjacency),
                adjacency@.dom() == self.adjacency@.dom(),
                i <= self.adjacency.spec_len(),
                forall|x: char, y: char| #[trigger] has_link(rows_view(adjacency), x, y)
                    <==> has_link(adj, x, y) || (has_link(adj, y, x) && ks.index_of(y) < i),
                forall|x: char, y: char| #[trigger] has_link(rows_view(adjacency), x, y) ==> adjacency@[x]@[y]
                    == if has_link(adj, x, y) { adj[x][y] } else { adj[y][x] },
            decreases self.adjacency.spec_len() - i,
        {
            let a = self.adjacency.key_at(i);
            let row = self.adjacency.value_at(i);
            proof {
                assert(ks[i as int] == a);
                assert(ks.contains(a));
                assert(ks.index_of(a) == i);
                assert(row.wf());
                row.lemma_keys();
            }
            let mut j: usize = 0;
            while j < row.len()
                invariant
                    self.wf(),
                    adj == self.adj(),
                    ks == self.adjacency.keys(),
                    rows_wf(adjacency),
                    adjacency@.dom() == self.adjacency@.dom(),
                    self.adjacency@.contains_key(a),
                    *row == self.adjacency@[a],
                    row.wf(),
                    row.keys().no_duplicates(),
                    row.keys().len() == row.spec_len(),
                    forall|k: char| #[trigger] row@.contains_key(k) <==> row.keys().contains(k),
                    ks.index_of(a) == i,
                    j <= row.spec_len(),
                    forall|x: char, y: char| #[trigger] has_link(rows_view(adjacency), x, y)
                        <==> has_link(adj, x, y) || (has_link(adj, y, x) && (ks.index_of(y) < i
                            || (y == a && row.keys().index_of(x) < j))),
                    forall|x: char, y: char| #[trigger] has_link(rows_view(adjacency), x, y) ==> adjacency@[x]@[y]
                        == if has_link(adj, x, y) { adj[x][y] } else { adj[y][x] },
                decreases row.spec_len() - j,
            {
                let b = row.key_at(j);
                let v = *row.value_at(j);
                assert(self.adj().contains_key(a));
                assert(self.adj()[a].contains_key(b));
                assert(self.adj().contains_key(b));
                proof {
                    assert(row.keys()[j as int] == b);
                    assert(row.keys().contains(b));
                    assert(row.keys().index_of(b) == j);
                }
                if !self.row(b).contains_key(&a) {
                    let k = adjacency.find(&b).unwrap();
                    let mut r = adjacency.value_at(k).duplicate();
                    r.insert(a, v);
                    let ghost before = adjacency;
                    adjacency.set_value_at(k, r);
                    proof {
                        assert(adjacency@.dom() =~= before@.dom());
                        assert(adjacency@[b]@ == before@[b]@.insert(a, v));
                        assert(row@[b] == v);
                        assert(!has_link(adj, b, a));
                        assert forall|x: char| #[trigger] adjacency@.contains_key(x) implies adjacency@[x].wf() by {
                            if x != b {
                                assert(before@.contains_key(x));
                            }
                        }
                        assert forall|x: char, y: char| #[trigger] has_link(rows_view(adjacency), x, y)
                            <==> has_link(adj, x, y) || (has_link(adj, y, x) && (ks.index_of(y) < i
                                || (y == a && row.keys().index_of(x) < j + 1))) by {
                            assert(adjacency@.contains_key(b));
                            if x == b && y == a {
                                assert(has_link(rows_view(adjacency), x, y));
                            } else {
                                assert(has_link(rows_view(adjacency), x, y) == has_link(rows_view(before), x, y)) by {
                                    if x != b && adjacency@.contains_key(x) {
                                        assert(adjacency@[x] == before@[x]);
                                    }
                                }
                                if y == a && has_link(adj, y, x) && row.keys().index_of(x) == j {
                                    assert(row@.contains_key(x));
                                    assert(row.keys().contains(x));
                                    assert(row.keys()[row.keys().index_of(x)] == x);
                                }
                            }
                        }
                        assert forall|x: char, y: char| #[trigger] has_link(rows_view(adjacency), x, y) implies adjacency@[x]@[y]
                            == if has_link(adj, x, y) { adj[x][y] } else { adj[y][x] } by {
                            assert(adjacency@.contains_key(b));
                            if x != b {
                                assert(adjacency@[x] == before@[x]);
                                assert(has_link(rows_view(before), x, y));
                            } else if y != a {
                                assert(has_link(rows_view(before), x, y));
                                assert(adjacency@[x]@[y] == before@[x]@[y]);
                            } else {
                                assert(adjacency@[x]@[y] == v);
                                assert(adj[a][b] == v);
                            }
                        }
                    }
                } else {
                    proof {
                        assert(has_link(adj, b, a));
                        assert(has_link(rows_view(adjacency), b, a));
                    }
                }
                j = j + 1;
            }
            proof {
                assert forall|x: char, y: char| #[trigger] has_link(rows_view(adjacency), x, y)
                    <==> has_link(adj, x, y) || (has_link(adj, y, x) && ks.index_of(y) < i + 1) by {
                    if has_link(adj, y, x) && y == a {
                        assert(row@.contains_key(x));
                        assert(row.keys().contains(x));
                    }
                }
            }
            i = i + 1;
        }
        proof {
            assert forall|x: char, y: char| #[trigger] has_link(rows_view(adjacency), x, y)
                <==> has_link(adj, x, y) || has_link(adj, y, x) by {
                if has_link(adj, y, x) {
                    assert(ks.contains(y));
                }
            }
        }
        adjacency
    }

    /// Places the nodes with the layout engine, then (when the animation is not paused)
    /// renders the moves.
    fn layout(&mut self)
        requires
            old(self).wf(),
            old(self).renderer.node_map()@.dom() == old(self).adjacency@.dom(),
        ensures
            final(self).wf(),
            final(self).adjacency == old(self).adjacency,
            final(self).anim_state == old(self).anim_state,
            final(self).layout_on_resume == old(self).layout_on_resume,
            final(self).duration_on_resume == old(self).duration_on_resume,
            final(self).p_speed_permille == old(self).p_speed_permille,
            final(self).step_durations() == old(self).step_durations(),
            final(self).p_radius == old(self).p_radius,
            final(self).renderer.total() == (if old(self).anim_state == AnimState::Paused {
                old(self).renderer.total()
            } else {
                renderer::add_wrapping(old(self).renderer.total(), scaled_duration(old(self).p_duration_move, old(self).p_speed_permille))
            }),
            final(self).picture_kept(old(self), true),
    {
        let adjacency = self.layout_adjacency();
        let ghost before = self.renderer;
        self.renderer.layout(&self.engine, &adjacency);
        proof {
            let r = self.renderer;
            assert forall|k: CharPair| #[trigger] live_link_at(before, k) implies live_link_at(r, k) by {
                assert(renderer::same_but_ends(before.link_map()@[k]@, r.link_map()@[k]@));
            }
            assert forall|a: char, b: char| #[trigger] has_link(self.adj(), a, b) implies live_link(r, a, b) by {
                lemma_live_link_kept(before, r, a, b);
            }
            assert forall|k: char| #[trigger] self.adjacency@.contains_key(k) <==> live_node(r, k) by {
                if r.node_map()@.contains_key(k) {
                    assert(renderer::same_but_center(before.node_map()@[k]@, r.node_map()@[k]@));
                }
            }
            assert(self.adj().dom() =~= self.adjacency@.dom());
        }
        if self.anim_state != AnimState::Paused {
            self.animate(self.p_duration_move, self.p_speed_permille);
        }
    }
}


/// Whether node looks `a` then `b` then `c` compose: a kept look (or one kept but for a
/// layout) followed by another is kept as well.
pub open spec fn look_kept_if(moved: bool, a: renderer::node::NodeState, b: renderer::node::NodeState) -> bool {
    if moved {
        look_kept_but_layout(a, b)
    } else {
        look_kept(a, b)
    }
}

/// The total duration after the steps that close a batch of changes of `d` ms while the
/// animation runs at `speed_permille` thousandths: the step itself, then the 1 ms step with
/// which the animation resumes.
pub open spec fn changes_total(total: u32, d: u32, speed_permille: u32) -> u32 {
    renderer::add_wrapping(
        renderer::add_wrapping(total, scaled_duration(d, speed_permille)),
        scaled_duration(1, speed_permille),
    )
}

impl<E: LayoutEngine> Graph<E> {
    /// The settings (speed, durations, radius) of `self` and `other` are the same.
    pub open spec fn same_settings(&self, other: &Self) -> bool {
        &&& self.speed_permille() == other.speed_permille()
        &&& self.step_durations() == other.step_durations()
        &&& self.radius() == other.radius()
    }

    /// Picture kept is transitive.
    proof fn lemma_picture_kept_trans(c: &Self, b: &Self, a: &Self, m1: bool, m2: bool)
        requires
            c.picture_kept(b, m2),
            b.picture_kept(a, m1),
        ensures
            c.picture_kept(a, m1 || m2),
    {
        assert forall|k: char| #[trigger] c.picture().node_map()@.contains_key(k) implies a.picture().node_map()@.contains_key(k)
            && look_kept_if(m1 || m2, a.node_state(k), c.node_state(k)) by {
            assert(b.picture().node_map()@.contains_key(k));
        }
        assert forall|k: CharPair| #[trigger] c.picture().link_map()@.contains_key(k) implies a.picture().link_map()@.contains_key(k)
            && link_look_kept(a.picture().link_map()@[k]@, c.picture().link_map()@[k]@) by {
            assert(b.picture().link_map()@.contains_key(k));
        }
    }

    /// Renders the pending changes as one animation step of `duration_ms` at
    /// `speed_permille` thousandths, after the layout of the nodes when one is pending.
    fn step_speed(&mut self, duration_ms: u32, speed_permille: u32)
        requires
            old(self).wf(),
            old(self).is_paused(),
            old(self).can_step(),
            100 <= speed_permille,
        ensures
            final(self).wf(),
            final(self).adjacency == old(self).adjacency,
            final(self).anim_state == old(self).anim_state,
            !final(self).layout_on_resume,
            final(self).duration_on_resume == 1,
            final(self).same_settings(old(self)),
            final(self).p_speed_permille == old(self).p_speed_permille,
            final(self).picture().total() == renderer::add_wrapping(old(self).picture().total(), scaled_duration(duration_ms, speed_permille)),
            final(self).picture_kept(old(self), old(self).layout_on_resume),
    {
        let ghost start = *self;
        if self.layout_on_resume {
            assert(self.adj().dom() =~= self.adjacency@.dom());
            self.layout();
            self.layout_on_resume = false;
            let ghost mid = *self;
            self.animate(duration_ms, speed_permille);
            proof {
                Self::lemma_picture_kept_trans(self, &mid, &start, true, false);
            }
        } else {
            self.animate(duration_ms, speed_permille);
        }
        self.duration_on_resume = 1;
    }

    /// Pauses the animation for a batch of changes when it runs; says whether it ran.
    fn begin_changes(&mut self) -> (was_resumed: bool)
        requires
            old(self).wf(),
        ensures
            final(self).wf(),
            was_resumed == !old(self).is_paused(),
            *final(self) == (Graph { anim_state: AnimState::Paused, ..*old(self) }),
    {
        if self.anim_state == AnimState::Resumed {
            self.anim_state = AnimState::Paused;
            true
        } else {
            false
        }
    }

    /// Closes a batch of changes: when the animation ran before the batch, renders it as an
    /// animation step of `duration_ms` and resumes the animation; otherwise the step will
    /// last `duration_ms` when the animation resumes.
    fn end_changes(&mut self, was_resumed: bool, duration_ms: u32)
        requires
            old(self).wf(),
            old(self).is_paused(),
            was_resumed ==> !old(self).layout_on_resume,
        ensures
            final(self).wf(),
            final(self).adjacency == old(self).adjacency,
            final(self).same_settings(old(self)),
            final(self).p_speed_permille == old(self).p_speed_permille,
            was_resumed ==> {
                &&& final(self).anim_state == AnimState::Resumed
                &&& final(self).picture().total() == changes_total(old(self).picture().total(), duration_ms, old(self).p_speed_permille)
                &&& final(self).picture_kept(old(self), false)
            },
            !was_resumed ==> *final(self) == (Graph { duration_on_resume: duration_ms, ..*old(self) }),
    {
        if was_resumed {
            let ghost start = *self;
            self.step_speed(duration_ms, self.p_speed_permille);
            let ghost mid = *self;
            self.step_speed(self.duration_on_resume, self.p_speed_permille);
            self.anim_state = AnimState::Resumed;
            proof {
                Self::lemma_picture_kept_trans(self, &mid, &start, false, false);
                assert(self.adj().dom() =~= self.adjacency@.dom());
            }
        } else {
            self.duration_on_resume = duration_ms;
        }
    }

    /// Lays the nodes out now when the animation runs, or when it resumes.
    fn need_layout(&mut self)
        requires
            old(self).wf(),
        ensures
            final(self).wf(),
            final(self).adjacency == old(self).adjacency,
            final(self).anim_state == old(self).anim_state,
            final(self).same_settings(old(self)),
            final(self).p_speed_permille == old(self).p_speed_permille,
            old(self).is_paused() ==> *final(self) == (Graph { layout_on_resume: true, ..*old(self) }),
            !old(self).is_paused() ==> {
                &&& final(self).picture().total() == renderer::add_wrapping(old(self).picture().total(), scaled_duration(old(self).p_duration_move, old(self).p_speed_permille))
                &&& final(self).picture_kept(old(self), true)
            },
    {
        if self.anim_state == AnimState::Resumed {
            self.layout();
        } else {
            self.layout_on_resume = true;
        }
    }

    /// Deactivates the automatic animation: the changes that follow are rendered together, as
    /// one animation step, by `step` or `resume`.
    pub fn pause(&mut self)
        requires
            old(self).wf(),
            !old(self).is_paused(),
        ensures
            final(self).wf(),
            final(self).is_paused(),
            final(self).adj() == old(self).adj(),
            final(self).picture() == old(self).picture(),
            final(self).layout_pending() == old(self).layout_pending(),
            final(self).resume_duration() == old(self).resume_duration(),
            final(self).same_settings(old(self)),
    {
        self.anim_state = AnimState::Paused;
    }

    /// Reactivates the automatic animation: the pending changes are rendered first, as one
    /// animation step (after the layout of the nodes when one is pending).
    pub fn resume(&mut self)
        requires
            old(self).wf(),
            old(self).is_paused(),
            old(self).can_step(),
        ensures
            final(self).wf(),
            !final(self).is_paused(),
            final(self).adj() == old(self).adj(),
            !final(self).layout_pending(),
            final(self).same_settings(old(self)),
            final(self).picture().total() == renderer::add_wrapping(old(self).picture().total(), scaled_duration(old(self).resume_duration(), old(self).speed_permille())),
            final(self).picture_kept(old(self), old(self).layout_pending()),
    {
        self.step_speed(self.duration_on_resume, self.p_speed_permille);
        self.anim_state = AnimState::Resumed;
        proof {
            assert(self.adj().dom() =~= self.adjacency@.dom());
        }
    }

    /// Renders the pending changes as one animation step of `duration_ms` (after the layout
    /// of the nodes when one is pending); the animation stays paused.
    pub fn step(&mut self, duration_ms: u32)
        requires
            old(self).wf(),
            old(self).is_paused(),
            old(self).can_step(),
        ensures
            final(self).wf(),
            final(self).is_paused(),
            final(self).adj() == old(self).adj(),
            !final(self).layout_pending(),
            final(self).resume_duration() == 1,
            final(self).same_settings(old(self)),
            final(self).picture().total() == renderer::add_wrapping(old(self).picture().total(), scaled_duration(duration_ms, 1000)),
            final(self).picture_kept(old(self), old(self).layout_pending()),
    {
        self.step_speed(duration_ms, 1000);
    }

    /// Whether an animation step can be rendered now (see `can_step`).
    pub fn step_ready(&self) -> (b: bool)
        requires
            self.wf(),
        ensures
            b == self.can_step(),
    {
        if !self.layout_on_resume {
            return true;
        }
        let deleted = self.renderer.has_deleted_node();
        proof {
            if !deleted {
                assert forall|k: char| #[trigger] self.renderer.node_map()@.contains_key(k) implies self.adjacency@.contains_key(k) by {
                    assert(live_node(self.renderer, k));
                }
                assert(self.picture().node_map()@.dom() =~= self.adj().dom());
            } else {
                let k = choose|k: char| #[trigger] self.renderer.node_map()@.contains_key(k) && self.renderer.node_map()@[k]@.tag == Some(Tag::Deleted);
                assert(!self.adj().contains_key(k));
                assert(self.picture().node_map()@.dom().contains(k));
            }
        }
        !deleted
    }
}


impl<E: LayoutEngine> Graph<E> {
    /// Every node of the picture (but `except`) was in the picture of `old` with the same look.
    pub open spec fn node_looks_kept(&self, old: &Self, except: Option<char>) -> bool {
        forall|k: char| #[trigger] self.picture().node_map()@.contains_key(k) && except != Some(k)
            ==> old.picture().node_map()@.contains_key(k) && look_kept(old.node_state(k), self.node_state(k))
    }

    /// Every link of the picture (but the one keyed by `except`) was in the picture of `old`
    /// with the same colors.
    pub open spec fn link_looks_kept(&self, old: &Self, except: Option<CharPair>) -> bool {
        forall|k: CharPair| #[trigger] self.picture().link_map()@.contains_key(k) && except != Some(k)
            ==> old.picture().link_map()@.contains_key(k) && link_look_kept(
                old.picture().link_map()@[k]@,
                self.picture().link_map()@[k]@,
            )
    }

    /// How a batch of changes that does not call for a layout ends: while paused, its step
    /// waits for the animation to resume and will last `d` ms; while running, it is rendered
    /// at once and the animation resumes.
    pub open spec fn batch_done(&self, old: &Self, d: u32) -> bool {
        &&& self.state() == old.state()
        &&& self.same_settings(old)
        &&& self.layout_pending() == old.layout_pending()
        &&& if old.is_paused() {
            &&& self.picture().total() == old.picture().total()
            &&& self.resume_duration() == d
        } else {
            self.picture().total() == changes_total(old.picture().total(), d, old.speed_permille())
        }
    }

    /// How a batch of changes that calls for a layout ends: as `batch_done`, then the layout
    /// is rendered at once (running) or pending until the animation resumes (paused).
    pub open spec fn batch_done_laid_out(&self, old: &Self, d: u32) -> bool {
        &&& self.state() == old.state()
        &&& self.same_settings(old)
        &&& if old.is_paused() {
            &&& self.picture().total() == old.picture().total()
            &&& self.resume_duration() == d
            &&& self.layout_pending()
        } else {
            self.picture().total() == renderer::add_wrapping(
                changes_total(old.picture().total(), d, old.speed_permille()),
                scaled_duration(old.step_durations().2, old.speed_permille()),
            )
        }
    }

    /// A graph whose picture changed without any node or link being created or deleted stays
    /// well formed.
    proof fn lemma_wf_same_tags(new: &Self, old: &Self)
        requires
            old.wf(),
            new.adjacency == old.adjacency,
            new.anim_state == old.anim_state,
            new.layout_on_resume == old.layout_on_resume,
            new.p_speed_permille == old.p_speed_permille,
            new.renderer.wf(),
            new.renderer.node_map()@.dom() == old.renderer.node_map()@.dom(),
            forall|k: char| #[trigger] new.renderer.node_map()@.contains_key(k) ==> new.renderer.node_map()@[k]@.tag == old.renderer.node_map()@[k]@.tag,
            new.renderer.link_map()@.dom() == old.renderer.link_map()@.dom(),
            forall|k: CharPair| #[trigger] new.renderer.link_map()@.contains_key(k) ==> new.renderer.link_map()@[k]@.tag == old.renderer.link_map()@[k]@.tag,
        ensures
            new.wf(),
    {
        assert forall|k: char| #[trigger] new.adjacency@.contains_key(k) <==> live_node(new.renderer, k) by {
            assert(old.adjacency@.contains_key(k) <==> live_node(old.renderer, k));
            if new.renderer.node_map()@.contains_key(k) {
                assert(old.renderer.node_map()@.contains_key(k));
            }
        }
        assert forall|k: CharPair| #[trigger] live_link_at(old.renderer, k) implies live_link_at(new.renderer, k) by {
            assert(new.renderer.link_map()@.contains_key(k));
        }
        assert forall|a: char, b: char| #[trigger] has_link(new.adj(), a, b) implies live_link(new.renderer, a, b) by {
            assert(has_link(old.adj(), a, b));
            lemma_live_link_kept(old.renderer, new.renderer, a, b);
        }
    }

    /// The looks kept by a batch of changes are kept through the animation steps that close it.
    proof fn lemma_looks_through_steps(c: &Self, b: &Self, a: &Self, n: Option<char>, l: Option<CharPair>)
        requires
            c.picture_kept(b, false),
            b.node_looks_kept(a, n),
            b.link_looks_kept(a, l),
        ensures
            c.node_looks_kept(a, n),
            c.link_looks_kept(a, l),
    {
        assert forall|k: char| #[trigger] c.picture().node_map()@.contains_key(k) && n != Some(k)
            implies a.picture().node_map()@.contains_key(k) && look_kept(a.node_state(k), c.node_state(k)) by {
            assert(b.picture().node_map()@.contains_key(k));
        }
        assert forall|k: CharPair| #[trigger] c.picture().link_map()@.contains_key(k) && l != Some(k)
            implies a.picture().link_map()@.contains_key(k) && link_look_kept(a.picture().link_map()@[k]@, c.picture().link_map()@[k]@) by {
            assert(b.picture().link_map()@.contains_key(k));
        }
    }

    /// Changes the node fill color.
    pub fn fill_node(&mut self, node: char, color: (u8, u8, u8))
        requires
            old(self).wf(),
            old(self).adj().contains_key(node),
        ensures
            final(self).wf(),
            final(self).adj() == old(self).adj(),
            final(self).batch_done(old(self), old(self).step_durations().3),
            final(self).picture().node_map()@.contains_key(node),
            final(self).node_state(node).fill_color == (Color { r: color.0, g: color.1, b: color.2 }),
            look_kept(old(self).node_state(node), renderer::node::NodeState {
                fill_color: old(self).node_state(node).fill_color,
                ..final(self).node_state(node)
            }),
            final(self).node_looks_kept(old(self), Some(node)),
            final(self).link_looks_kept(old(self), None),
            old(self).is_paused() ==> final(self).picture().node_map()@.dom() == old(self).picture().node_map()@.dom(),
    {
        let ghost start = *self;
        let was_resumed = self.begin_changes();
        let ghost paused = *self;
        self.renderer.node_fill_color(node, color);
        proof {
            assert(live_node(start.renderer, node));
            assert(self.renderer.node_map()@.dom() =~= start.renderer.node_map()@.dom());
            Self::lemma_wf_same_tags(self, &paused);
        }
        let ghost mid = *self;
        self.end_changes(was_resumed, self.p_duration_color);
        proof {
            assert(self.adj() =~= start.adj());
            if was_resumed {
                Self::lemma_looks_through_steps(self, &mid, &start, Some(node), None);
                assert(mid.picture().node_map()@.contains_key(node));
            }
        }
    }

    /// Changes the node stroke color.
    pub fn color_node(&mut self, node: char, color: (u8, u8, u8))
        requires
            old(self).wf(),
            old(self).adj().contains_key(node),
        ensures
            final(self).wf(),
            final(self).adj() == old(self).adj(),
            final(self).batch_done(old(self), old(self).step_durations().3),
            final(self).picture().node_map()@.contains_key(node),
            final(self).node_state(node).stroke_color == (Color { r: color.0, g: color.1, b: color.2 }),
            look_kept(old(self).node_state(node), renderer::node::NodeState {
                stroke_color: old(self).node_state(node).stroke_color,
                ..final(self).node_state(node)
            }),
            final(self).node_looks_kept(old(self), Some(node)),
            final(self).link_looks_kept(old(self), None),
            old(self).is_paused() ==> final(self).picture().node_map()@.dom() == old(self).picture().node_map()@.dom(),
    {
        let ghost start = *self;
        let was_resumed = self.begin_changes();
        let ghost paused = *self;
        self.renderer.node_stroke_color(node, color);
        proof {
            assert(live_node(start.renderer, node));
            assert(self.renderer.node_map()@.dom() =~= start.renderer.node_map()@.dom());
            Self::lemma_wf_same_tags(self, &paused);
        }
        let ghost mid = *self;
        self.end_changes(was_resumed, self.p_duration_color);
        proof {
            assert(self.adj() =~= start.adj());
            if was_resumed {
                Self::lemma_looks_through_steps(self, &mid, &start, Some(node), None);
                assert(mid.picture().node_map()@.contains_key(node));
            }
        }
    }

    /// Changes the node label color.
    pub fn color_label(&mut self, node: char, color: (u8, u8, u8))
        requires
            old(self).wf(),
            old(self).adj().contains_key(node),
        ensures
            final(self).wf(),
            final(self).adj() == old(self).adj(),
            final(self).batch_done(old(self), old(self).step_durations().3),
            final(self).picture().node_map()@.contains_key(node),
            final(self).node_state(node).text_color == (Color { r: color.0, g: color.1, b: color.2 }),
            look_kept(old(self).node_state(node), renderer::node::NodeState {
                text_color: old(self).node_state(node).text_color,
                ..final(self).node_state(node)
            }),
            final(self).node_looks_kept(old(self), Some(node)),
            final(self).link_looks_kept(old(self), None),
            old(self).is_paused() ==> final(self).picture().node_map()@.dom() == old(self).picture().node_map()@.dom(),
    {
        let ghost start = *self;
        let was_resumed = self.begin_changes();
        let ghost paused = *self;
        self.renderer.node_text_color(node, color);
        proof {
            assert(live_node(start.renderer, node));
            assert(self.renderer.node_map()@.dom() =~= start.renderer.node_map()@.dom());
            Self::lemma_wf_same_tags(self, &paused);
        }
        let ghost mid = *self;
        self.end_changes(was_resumed, self.p_duration_color);
        proof {
            assert(self.adj() =~= start.adj());
            if was_resumed {
                Self::lemma_looks_through_steps(self, &mid, &start, Some(node), None);
                assert(mid.picture().node_map()@.contains_key(node));
            }
        }
    }

    /// Changes the link stroke color. (The link drawn between the two nodes that gets the color is the one from
    /// `node_from` to `node_to` when the picture holds one, else the one the other way.)
    pub fn color_link(&mut self, node_from: char, node_to: char, color: (u8, u8, u8))
        requires
            old(self).wf(),
            has_link(old(self).adj(), node_from, node_to),
        ensures
            final(self).wf(),
            final(self).adj() == old(self).adj(),
            final(self).batch_done(old(self), old(self).step_durations().3),
            final(self).picture().link_map()@.contains_key(old(self).picture().link_key(node_from, node_to)) ==> {
                let k = old(self).picture().link_key(node_from, node_to);
                &&& final(self).picture().link_map()@[k]@.stroke_color == (Color { r: color.0, g: color.1, b: color.2 })
                &&& link_look_kept(old(self).picture().link_map()@[k]@, renderer::link::LinkState {
                    stroke_color: old(self).picture().link_map()@[k]@.stroke_color,
                    ..final(self).picture().link_map()@[k]@
                })
            },
            final(self).node_looks_kept(old(self), None),
            final(self).link_looks_kept(old(self), Some(old(self).picture().link_key(node_from, node_to))),
            old(self).is_paused() ==> final(self).picture().node_map() == old(self).picture().node_map(),
    {
        let ghost start = *self;
        let was_resumed = self.begin_changes();
        let ghost paused = *self;
        proof {
            assert(live_link(start.renderer, node_from, node_to));
        }
        self.renderer.link_stroke_color(node_from, node_to, color);
        proof {
            let k = start.picture().link_key(node_from, node_to);
            assert(self.renderer.link_map()@.dom() =~= start.renderer.link_map()@.dom());
            Self::lemma_wf_same_tags(self, &paused);
        }
        let ghost mid = *self;
        self.end_changes(was_resumed, self.p_duration_color);
        proof {
            assert(self.adj() =~= start.adj());
            if was_resumed {
                let k = start.picture().link_key(node_from, node_to);
                Self::lemma_looks_through_steps(self, &mid, &start, None, Some(k));
            }
        }
    }

    /// Changes the link value color. (The link drawn between the two nodes that gets the color is the one from
    /// `node_from` to `node_to` when the picture holds one, else the one the other way.)
    pub fn color_value(&mut self, node_from: char, node_to: char, color: (u8, u8, u8))
        requires
            old(self).wf(),
            has_link(old(self).adj(), node_from, node_to),
        ensures
            final(self).wf(),
            final(self).adj() == old(self).adj(),
            final(self).batch_done(old(self), old(self).step_durations().3),
            final(self).picture().link_map()@.contains_key(old(self).picture().link_key(node_from, node_to)) ==> {
                let k = old(self).picture().link_key(node_from, node_to);
                &&& final(self).picture().link_map()@[k]@.text_color == (Color { r: color.0, g: color.1, b: color.2 })
                &&& link_look_kept(old(self).picture().link_map()@[k]@, renderer::link::LinkState {
                    text_color: old(self).picture().link_map()@[k]@.text_color,
                    ..final(self).picture().link_map()@[k]@
                })
            },
            final(self).node_looks_kept(old(self), None),
            final(self).link_looks_kept(old(self), Some(old(self).picture().link_key(node_from, node_to))),
            old(self).is_paused() ==> final(self).picture().node_map() == old(self).picture().node_map(),
    {
        let ghost start = *self;
        let was_resumed = self.begin_changes();
        let ghost paused = *self;
        proof {
            assert(live_link(start.renderer, node_from, node_to));
        }
        self.renderer.link_text_color(node_from, node_to, color);
        proof {
            let k = start.picture().link_key(node_from, node_to);
            assert(self.renderer.link_map()@.dom() =~= start.renderer.link_map()@.dom());
            Self::lemma_wf_same_tags(self, &paused);
        }
        let ghost mid = *self;
        self.end_changes(was_resumed, self.p_duration_color);
        proof {
            assert(self.adj() =~= start.adj());
            if was_resumed {
                let k = start.picture().link_key(node_from, node_to);
                Self::lemma_looks_through_steps(self, &mid, &start, None, Some(k));
            }
        }
    }

    /// Every node of the picture (but `except`) was in the picture of `old` with the same
    /// look, but for the centers that a layout may have moved.
    pub open spec fn node_looks_kept_but_layout(&self, old: &Self, except: Option<char>) -> bool {
        forall|k: char| #[trigger] self.picture().node_map()@.contains_key(k) && except != Some(k)
            ==> old.picture().node_map()@.contains_key(k) && look_kept_but_layout(old.node_state(k), self.node_state(k))
    }

    /// Changes and freezes the x,y coords of the SVG node representation: its position will
    /// not change when the nodes are laid out.
    pub fn move_node(&mut self, node: char, xy: (i32, i32))
        requires
            old(self).wf(),
            old(self).adj().contains_key(node),
        ensures
            final(self).wf(),
            final(self).adj() == old(self).adj(),
            final(self).batch_done(old(self), old(self).step_durations().2),
            final(self).picture().node_map()@.contains_key(node),
            final(self).node_state(node).center == (Point { x: xy.0, y: xy.1 }),
            final(self).node_state(node).center_freezed,
            final(self).node_state(node).fill_color == old(self).node_state(node).fill_color,
            final(self).node_state(node).stroke_color == old(self).node_state(node).stroke_color,
            final(self).node_state(node).text_color == old(self).node_state(node).text_color,
            final(self).node_looks_kept(old(self), Some(node)),
            final(self).link_looks_kept(old(self), None),
            old(self).is_paused() ==> final(self).picture().node_map()@.dom() == old(self).picture().node_map()@.dom(),
    {
        let ghost start = *self;
        let was_resumed = self.begin_changes();
        let ghost paused = *self;
        self.renderer.node_move(node, Point::new(xy.0, xy.1), true);
        proof {
            assert(live_node(start.renderer, node));
            assert(self.renderer.node_map()@.contains_key(node));
        }
        self.renderer.node_freezed(node, true);
        proof {
            assert(self.renderer.node_map()@.dom() =~= start.renderer.node_map()@.dom());
            assert(self.renderer.link_map()@.dom() =~= start.renderer.link_map()@.dom());
            Self::lemma_wf_same_tags(self, &paused);
        }
        let ghost mid = *self;
        self.end_changes(was_resumed, self.p_duration_move);
        proof {
            assert(self.adj() =~= start.adj());
            if was_resumed {
                Self::lemma_looks_through_steps(self, &mid, &start, Some(node), None);
                assert(mid.picture().node_map()@.contains_key(node));
            }
        }
    }

    /// Unfreezes the node position: it may change when the nodes are laid out (at once, or
    /// when the animation resumes).
    pub fn unfreeze_node(&mut self, node: char)
        requires
            old(self).wf(),
            old(self).adj().contains_key(node),
        ensures
            final(self).wf(),
            final(self).adj() == old(self).adj(),
            final(self).state() == old(self).state(),
            final(self).same_settings(old(self)),
            final(self).picture().node_map()@.contains_key(node),
            look_kept_but_layout(
                renderer::node::NodeState { center_freezed: false, ..old(self).node_state(node) },
                final(self).node_state(node),
            ),
            final(self).node_looks_kept_but_layout(old(self), Some(node)),
            final(self).link_looks_kept(old(self), None),
            old(self).is_paused() ==> {
                &&& final(self).layout_pending()
                &&& final(self).picture().total() == old(self).picture().total()
                &&& final(self).resume_duration() == old(self).resume_duration()
                &&& final(self).node_looks_kept(old(self), Some(node))
                &&& final(self).node_state(node) == (renderer::node::NodeState { center_freezed: false, ..old(self).node_state(node) })
            },
            !old(self).is_paused() ==> final(self).picture().total() == renderer::add_wrapping(
                old(self).picture().total(),
                scaled_duration(old(self).step_durations().2, old(self).speed_permille()),
            ),
    {
        let ghost start = *self;
        proof {
            assert(live_node(start.renderer, node));
        }
        self.renderer.node_freezed(node, false);
        proof {
            assert(self.renderer.node_map()@.dom() =~= start.renderer.node_map()@.dom());
            Self::lemma_wf_same_tags(self, &start);
        }
        let ghost mid = *self;
        self.need_layout();
        proof {
            assert(self.adj() =~= start.adj());
            if !start.is_paused() {
                assert(mid.picture().node_map()@.contains_key(node));
                assert forall|k: char| #[trigger] self.picture().node_map()@.contains_key(k) && Some(node) != Some(k)
                    implies start.picture().node_map()@.contains_key(k) && look_kept_but_layout(start.node_state(k), self.node_state(k)) by {
                    assert(mid.picture().node_map()@.contains_key(k));
                }
                assert forall|k: CharPair| #[trigger] self.picture().link_map()@.contains_key(k) && None::<CharPair> != Some(k)
                    implies start.picture().link_map()@.contains_key(k) && link_look_kept(start.picture().link_map()@[k]@, self.picture().link_map()@[k]@) by {
                    assert(mid.picture().link_map()@.contains_key(k));
                }
            }
        }
    }

    /// Returns the current x,y coords (and frozen tag) of the node in the SVG picture.
    pub fn node_position(&self, node: char) -> (p: (i32, i32, bool))
        requires
            self.wf(),
            self.adj().contains_key(node),
        ensures
            p == (self.node_state(node).center.x, self.node_state(node).center.y, self.node_state(node).center_freezed),
    {
        proof {
            assert(live_node(self.renderer, node));
        }
        let point = self.renderer.node_center(node);
        let freezed = self.renderer.node_center_freezed(node);
        (point.x(), point.y(), freezed)
    }

    /// Returns the radius of the nodes.
    pub fn node_radius(&self) -> (r: u8)
        ensures
            r == self.radius(),
    {
        self.p_radius
    }

    /// Returns the total duration in milliseconds of the animation rendered since the graph was
    /// created.
    pub fn duration(&self) -> (d: u32)
        ensures
            d == self.picture().total(),
    {
        self.renderer.duration()
    }

    /// Point `index` of `count` points that the layout engine spreads evenly, in order, on the
    /// circle centered on the origin whose perimeter is `perimeter`.
    pub(crate) fn circle_point(&self, perimeter: u32, count: u32, index: u32) -> Point {
        self.engine.circle_point(perimeter, count, index)
    }

    /// Delays the next animation step by `duration_ms` milliseconds.
    pub fn sleep(&mut self, duration_ms: u32)
        requires
            old(self).wf(),
        ensures
            final(self).wf(),
            final(self).adj() == old(self).adj(),
            final(self).state() == old(self).state(),
            final(self).layout_pending() == old(self).layout_pending(),
            final(self).resume_duration() == old(self).resume_duration(),
            final(self).same_settings(old(self)),
            final(self).picture().total() == renderer::add_wrapping(old(self).picture().total(), duration_ms),
            final(self).picture().same_elements(&old(self).picture()),
    {
        let ghost start = *self;
        self.renderer.sleep(duration_ms);
        proof {
            Self::lemma_wf_same_tags(self, &start);
        }
    }

    /// Makes the ids of the graphic elements added from now on follow those of `other`, so
    /// that both graphs can be drawn on the same page without two elements sharing an id.
    pub fn continue_ids(&mut self, other: &Self)
        requires
            old(self).wf(),
        ensures
            final(self).wf(),
            final(self).adj() == old(self).adj(),
            final(self).state() == old(self).state(),
            final(self).layout_pending() == old(self).layout_pending(),
            final(self).resume_duration() == old(self).resume_duration(),
            final(self).same_settings(old(self)),
            final(self).picture().total() == old(self).picture().total(),
            final(self).picture().same_elements(&old(self).picture()),
            final(self).picture().animation_text() == old(self).picture().animation_text(),
            final(self).picture().first_line() == old(self).picture().first_line(),
            final(self).picture().last_id() >= other.picture().last_id(),
            final(self).picture().last_id() >= old(self).picture().last_id(),
    {
        let ghost start = *self;
        let after = other.renderer.last_id_given();
        self.renderer.continue_ids(after);
        proof {
            Self::lemma_wf_same_tags(self, &start);
        }
    }

    /// Whether the animation is paused.
    pub fn paused(&self) -> (b: bool)
        ensures
            b == self.is_paused(),
    {
        self.anim_state == AnimState::Paused
    }

    /// Changes the animation speed, in thousandths (from 100 to 10000, where 1000 is the
    /// normal speed): a value out of that range is brought back to its nearest end.
    pub fn set_speed_permille(&mut self, speed_permille: u32)
        requires
            old(self).wf(),
        ensures
            final(self).wf(),
            final(self).speed_permille() == (if speed_permille < 100 {
                100
            } else if speed_permille > 10000 {
                10000
            } else {
                speed_permille
            }),
            final(self).adj() == old(self).adj(),
            final(self).picture() == old(self).picture(),
            final(self).state() == old(self).state(),
            final(self).layout_pending() == old(self).layout_pending(),
            final(self).resume_duration() == old(self).resume_duration(),
            final(self).step_durations() == old(self).step_durations(),
            final(self).radius() == old(self).radius(),
    {
        self.p_speed_permille = if speed_permille < 100 {
            100
        } else if speed_permille > 10000 {
            10000
        } else {
            speed_permille
        };
    }

    /// Returns the graph animation in SVG SMIL format.
    pub fn animation(&self) -> (svg: String)
        ensures
            svg@ == if self.picture().first_line().len() == 0 {
                Seq::<char>::empty()
            } else {
                self.picture().first_line() + self.picture().animation_text() + "</svg>"@
            },
    {
        self.renderer.animation()
    }
}


/// `adj` without the links between `a` and `b` (in either direction).
pub open spec fn without_pair(adj: Adjacency, a: char, b: char) -> Adjacency {
    Map::new(
        |k: char| adj.contains_key(k),
        |k: char| if k == a {
            adj[a].remove(b)
        } else if k == b {
            adj[b].remove(a)
        } else {
            adj[k]
        },
    )
}

/// `adj` with a link from `a` to `b` of value `v`, and one back when `bidirect`.
pub open spec fn with_pair(adj: Adjacency, a: char, b: char, bidirect: bool, v: i8) -> Adjacency {
    Map::new(
        |k: char| adj.contains_key(k),
        |k: char| if k == a {
            adj[a].insert(b, v)
        } else if k == b && bidirect {
            adj[b].insert(a, v)
        } else {
            adj[k]
        },
    )
}

impl<E: LayoutEngine> Graph<E> {
    /// Removes the links between `a` and `b` (both ways) and tags their drawing as deleted.
    fn remove_link(&mut self, a: char, b: char)
        requires
            old(self).wf(),
            old(self).is_paused(),
            has_link(old(self).adj(), a, b) || has_link(old(self).adj(), b, a),
        ensures
            final(self).wf(),
            final(self).adj() == without_pair(old(self).adj(), a, b),
            final(self).anim_state == old(self).anim_state,
            final(self).layout_on_resume == old(self).layout_on_resume,
            final(self).duration_on_resume == old(self).duration_on_resume,
            final(self).same_settings(old(self)),
            final(self).p_speed_permille == old(self).p_speed_permille,
            final(self).picture().node_map() == old(self).picture().node_map(),
            final(self).picture().total() == old(self).picture().total(),
            final(self).link_looks_kept(old(self), None),
    {
        let ghost start = *self;
        proof {
            assert(live_link(start.renderer, a, b));
            assert(self.adj().contains_key(a) && self.adj().contains_key(b));
        }
        let ia = self.adjacency.find(&a).unwrap();
        let mut row_a = self.adjacency.value_at(ia).duplicate();
        row_a.remove(&b);
        self.adjacency.set_value_at(ia, row_a);
        let ib = self.adjacency.find(&b).unwrap();
        let mut row_b = self.adjacency.value_at(ib).duplicate();
        row_b.remove(&a);
        self.adjacency.set_value_at(ib, row_b);
        self.renderer.delete_link(a, b);
        proof {
            assert(self.adjacency@.dom() =~= start.adjacency@.dom());
            assert(self.adj() =~= without_pair(start.adj(), a, b));
            assert forall|k: char| #[trigger] self.adjacency@.contains_key(k) implies self.adjacency@[k].wf() by {
                assert(start.adjacency@.contains_key(k));
            }
            assert forall|k: char| #[trigger] self.adjacency@.contains_key(k) <==> live_node(self.renderer, k) by {
                assert(start.adjacency@.contains_key(k) <==> live_node(start.renderer, k));
            }
            let key = start.renderer.link_key(a, b);
            assert forall|k: CharPair| #[trigger] live_link_at(start.renderer, k) && k != key implies live_link_at(self.renderer, k) by {
                assert(self.renderer.link_map()@.contains_key(k));
            }
            assert forall|x: char, y: char| #[trigger] has_link(self.adj(), x, y) implies live_link(self.renderer, x, y) by {
                assert(has_link(start.adj(), x, y));
                assert(live_link(start.renderer, x, y));
                lemma_live_link_kept_but(start.renderer, self.renderer, x, y, key);
            }
        }
    }

    /// Adds a link from `a` to `b` of value `v` (and one back when `bidirect`), and draws it.
    fn insert_link(&mut self, a: char, b: char, bidirect: bool, v: i8)
        requires
            old(self).wf(),
            old(self).is_paused(),
            old(self).adj().contains_key(a),
            old(self).adj().contains_key(b),
            a != b,
            !bidirect && has_link(old(self).adj(), b, a) ==> old(self).adj()[b][a] == v,
        ensures
            final(self).wf(),
            final(self).adj() == with_pair(old(self).adj(), a, b, bidirect, v),
            final(self).anim_state == old(self).anim_state,
            final(self).layout_on_resume == old(self).layout_on_resume,
            final(self).duration_on_resume == old(self).duration_on_resume,
            final(self).same_settings(old(self)),
            final(self).p_speed_permille == old(self).p_speed_permille,
            final(self).picture().node_map() == old(self).picture().node_map(),
            final(self).picture().total() == old(self).picture().total(),
            final(self).link_looks_kept(old(self), Some(CharPair(a, b))),
            final(self).picture().link_map()@.contains_key(CharPair(a, b)),
            final(self).picture().link_map()@[CharPair(a, b)]@ == old(self).picture().created_link(
                final(self).picture().last_id(),
                a,
                b,
                bidirect,
                v,
            ),
    {
        let ghost start = *self;
        proof {
            assert(live_node(start.renderer, a));
            assert(live_node(start.renderer, b));
        }
        let ia = self.adjacency.find(&a).unwrap();
        let mut row_a = self.adjacency.value_at(ia).duplicate();
        row_a.insert(b, v);
        self.adjacency.set_value_at(ia, row_a);
        if bidirect {
            let ib = self.adjacency.find(&b).unwrap();
            let mut row_b = self.adjacency.value_at(ib).duplicate();
            row_b.insert(a, v);
            self.adjacency.set_value_at(ib, row_b);
        }
        self.renderer.add_link(a, b, bidirect, v);
        proof {
            assert(self.adjacency@.dom() =~= start.adjacency@.dom());
            assert(self.adj() =~= with_pair(start.adj(), a, b, bidirect, v));
            assert forall|k: char| #[trigger] self.adjacency@.contains_key(k) implies self.adjacency@[k].wf() by {
                assert(start.adjacency@.contains_key(k));
            }
            assert forall|k: char| #[trigger] self.adjacency@.contains_key(k) <==> live_node(self.renderer, k) by {
                assert(start.adjacency@.contains_key(k) <==> live_node(start.renderer, k));
            }
            let key = CharPair(a, b);
            assert(live_link_at(self.renderer, key));
            assert forall|k: CharPair| #[trigger] live_link_at(start.renderer, k) implies live_link_at(self.renderer, k) by {
                assert(self.renderer.link_map()@.contains_key(k));
            }
            assert forall|x: char, y: char| #[trigger] has_link(self.adj(), x, y) implies live_link(self.renderer, x, y) by {
                if !((x == a && y == b) || (x == b && y == a)) {
                    assert(has_link(start.adj(), x, y));
                    lemma_live_link_kept(start.renderer, self.renderer, x, y);
                } else {
                    lemma_live_link_at(self.renderer, x, y, key);
                }
            }
            assert(adjacency_wf(self.adj()));
        }
    }
}

/// A link between `a` and `b` stays live when every live link of `before` but the one keyed by
/// `key` is live in `after`, and `key` joins other nodes.
proof fn lemma_live_link_kept_but(before: Renderer, after: Renderer, a: char, b: char, key: CharPair)
    requires
        forall|k: CharPair| #[trigger] live_link_at(before, k) && k != key ==> live_link_at(after, k),
        key != CharPair(a, b),
        key != CharPair(b, a),
    ensures
        live_link(before, a, b) ==> live_link(after, a, b),
{
    let k1 = CharPair(a, b);
    let k2 = CharPair(b, a);
    assert(live_link_at(before, k1) && k1 != key ==> live_link_at(after, k1));
    assert(live_link_at(before, k2) && k2 != key ==> live_link_at(after, k2));
}

/// The link keyed by `key` is a live link between `a` and `b` when `key` joins them.
proof fn lemma_live_link_at(r: Renderer, a: char, b: char, key: CharPair)
    requires
        live_link_at(r, key),
        key == CharPair(a, b) || key == CharPair(b, a),
    ensures
        live_link(r, a, b),
{
}


impl<E: LayoutEngine> Graph<E> {
    /// Adds a node to the graph, with an optional (x,y) position that freezes it (the position
    /// will not change when the nodes are laid out).
    pub fn add_node(&mut self, name: char, xy: Option<(i16, i16)>)
        requires
            old(self).wf(),
            !old(self).adj().contains_key(name),
        ensures
            final(self).wf(),
            final(self).adj() == old(self).adj().insert(name, Map::<char, i8>::empty()),
            final(self).batch_done_laid_out(old(self), old(self).step_durations().0),
            final(self).picture().node_map()@.contains_key(name),
            final(self).node_state(name).center_freezed == xy is Some,
            xy matches Some(p) ==> final(self).node_state(name).center == (Point { x: p.0 as i32, y: p.1 as i32 }),
            final(self).node_state(name).fill_color == old(self).picture().colors().0,
            final(self).node_state(name).stroke_color == old(self).picture().colors().1,
            final(self).node_state(name).text_color == old(self).picture().colors().3,
            final(self).node_looks_kept_but_layout(old(self), Some(name)),
            final(self).link_looks_kept(old(self), None),
            old(self).is_paused() ==> final(self).picture().node_map()@.dom() == old(self).picture().node_map()@.dom().insert(name),
    {
        let ghost start = *self;
        let was_resumed = self.begin_changes();
        let ghost paused = *self;
        self.adjacency.insert(name, KeyMap::new());
        let point = match xy {
            Some((x, y)) => Some(Point::new(x as i32, y as i32)),
            None => None,
        };
        self.renderer.add_node(name, point);
        proof {
            assert(self.renderer.node_map()@.dom() =~= start.renderer.node_map()@.dom().insert(name));
            assert(self.adj() =~= start.adj().insert(name, Map::<char, i8>::empty()));
            assert forall|k: char| #[trigger] self.adjacency@.contains_key(k) implies self.adjacency@[k].wf() by {
                if k != name {
                    assert(start.adjacency@.contains_key(k));
                }
            }
            assert forall|k: char| #[trigger] self.adjacency@.contains_key(k) <==> live_node(self.renderer, k) by {
                assert(start.adjacency@.contains_key(k) <==> live_node(start.renderer, k));
            }
            assert forall|x: char, y: char| #[trigger] has_link(self.adj(), x, y) implies live_link(self.renderer, x, y) by {
                assert(has_link(start.adj(), x, y));
                assert(live_link(start.renderer, x, y));
            }
            assert(adjacency_wf(self.adj()));
        }
        let ghost mid = *self;
        self.end_changes(was_resumed, self.p_duration_add);
        let ghost mid2 = *self;
        self.need_layout();
        proof {
            self.lemma_looks_after_batch(&mid2, &mid, &start, Some(name), None);
            assert(mid.picture().node_map()@.contains_key(name));
            if was_resumed {
                assert(mid2.picture().node_map()@.contains_key(name));
            }
        }
    }
}

impl<E: LayoutEngine> Graph<E> {
    /// The looks kept by a batch of changes are kept (but for a layout) through the steps
    /// that close it and the layout that follows.
    proof fn lemma_looks_after_batch(&self, mid2: &Self, mid: &Self, start: &Self, n: Option<char>, l: Option<CharPair>)
        requires
            mid.node_looks_kept(start, n),
            mid.link_looks_kept(start, l),
            !start.is_paused() ==> mid2.picture_kept(mid, false) && self.picture_kept(mid2, true),
            start.is_paused() ==> mid2.picture() == mid.picture() && self.picture() == mid2.picture(),
        ensures
            self.node_looks_kept_but_layout(start, n),
            self.link_looks_kept(start, l),
            start.is_paused() ==> self.node_looks_kept(start, n),
            forall|k: char| #[trigger] self.picture().node_map()@.contains_key(k) ==> mid.picture().node_map()@.contains_key(k)
                && look_kept_but_layout(mid.node_state(k), self.node_state(k)),
    {
        if !start.is_paused() {
            Self::lemma_picture_kept_trans(self, mid2, mid, false, true);
            assert forall|k: char| #[trigger] self.picture().node_map()@.contains_key(k) && n != Some(k)
                implies start.picture().node_map()@.contains_key(k) && look_kept_but_layout(start.node_state(k), self.node_state(k)) by {
                assert(mid.picture().node_map()@.contains_key(k));
            }
            assert forall|k: CharPair| #[trigger] self.picture().link_map()@.contains_key(k) && l != Some(k)
                implies start.picture().link_map()@.contains_key(k) && link_look_kept(start.picture().link_map()@[k]@, self.picture().link_map()@[k]@) by {
                assert(mid.picture().link_map()@.contains_key(k));
            }
        }
    }
}


impl<E: LayoutEngine> Graph<E> {
    /// Adds a link from `node_from` to `node_to` (and back when `bidirectional`), between two
    /// distinct nodes that no link joins yet.
    pub fn add_link(&mut self, node_from: char, node_to: char, bidirectional: bool, value: i8)
        requires
            old(self).wf(),
            old(self).adj().contains_key(node_from),
            old(self).adj().contains_key(node_to),
            node_from != node_to,
            !has_link(old(self).adj(), node_from, node_to),
            !has_link(old(self).adj(), node_to, node_from),
        ensures
            final(self).wf(),
            final(self).adj() == with_pair(old(self).adj(), node_from, node_to, bidirectional, value),
            final(self).batch_done_laid_out(old(self), old(self).step_durations().0),
            final(self).picture().link_map()@.contains_key(CharPair(node_from, node_to)),
            final(self).picture().link_map()@[CharPair(node_from, node_to)]@.stroke_color == old(self).picture().colors().2,
            final(self).picture().link_map()@[CharPair(node_from, node_to)]@.text_color == old(self).picture().colors().4,
            final(self).picture().link_map()@[CharPair(node_from, node_to)]@.bidirect == bidirectional,
            final(self).picture().link_map()@[CharPair(node_from, node_to)]@.value == value,
            final(self).node_looks_kept_but_layout(old(self), None),
            final(self).link_looks_kept(old(self), Some(CharPair(node_from, node_to))),
            old(self).is_paused() ==> final(self).picture().node_map() == old(self).picture().node_map(),
    {
        let ghost start = *self;
        let was_resumed = self.begin_changes();
        self.insert_link(node_from, node_to, bidirectional, value);
        let ghost mid = *self;
        proof {
            assert(mid.node_looks_kept(&start, None));
        }
        self.end_changes(was_resumed, self.p_duration_add);
        let ghost mid2 = *self;
        self.need_layout();
        proof {
            self.lemma_looks_after_batch(&mid2, &mid, &start, None, Some(CharPair(node_from, node_to)));
            let key = CharPair(node_from, node_to);
            assert(live_link_at(mid.renderer, key));
            if was_resumed {
                assert(mid2.picture().link_map()@.contains_key(key));
                assert(self.picture().link_map()@.contains_key(key));
            }
        }
    }

    /// Deletes the link from `node_from` to `node_to` (and the one back, if any).
    pub fn delete_link(&mut self, node_from: char, node_to: char)
        requires
            old(self).wf(),
            has_link(old(self).adj(), node_from, node_to),
        ensures
            final(self).wf(),
            final(self).adj() == without_pair(old(self).adj(), node_from, node_to),
            final(self).batch_done_laid_out(old(self), old(self).step_durations().1),
            final(self).node_looks_kept_but_layout(old(self), None),
            final(self).link_looks_kept(old(self), None),
            old(self).is_paused() ==> final(self).picture().node_map() == old(self).picture().node_map(),
    {
        let ghost start = *self;
        let was_resumed = self.begin_changes();
        self.remove_link(node_from, node_to);
        let ghost mid = *self;
        proof {
            assert(mid.node_looks_kept(&start, None));
        }
        self.end_changes(was_resumed, self.p_duration_delete);
        let ghost mid2 = *self;
        self.need_layout();
        proof {
            self.lemma_looks_after_batch(&mid2, &mid, &start, None, None);
        }
    }
}


/// A link as listed by `node_links`: (from, to, whether a link goes back, value).
pub type LinkEntry = (char, char, bool, i8);

/// The links from `node`, one per entry of its row `row`, in order.
pub open spec fn out_links(adj: Adjacency, node: char, row: Seq<(char, i8)>) -> Seq<LinkEntry> {
    row.map_values(|p: (char, i8)| (node, p.0, has_link(adj, p.0, node), p.1))
}

/// The links to `node` from the nodes of `keys` (in order) to which no link goes back.
pub open spec fn in_links(adj: Adjacency, node: char, keys: Seq<char>) -> Seq<LinkEntry>
    decreases keys.len(),
{
    if keys.len() == 0 {
        Seq::empty()
    } else {
        let o = keys.last();
        let rest = in_links(adj, node, keys.drop_last());
        if o != node && has_link(adj, o, node) && !has_link(adj, node, o) {
            rest.push((o, node, false, adj[o][node]))
        } else {
            rest
        }
    }
}

/// Whether the entry `e` describes a link of `adj` that touches `node`.
pub open spec fn entry_of(adj: Adjacency, node: char, e: LinkEntry) -> bool {
    &&& has_link(adj, e.0, e.1)
    &&& e.0 == node || e.1 == node
    &&& e.2 == has_link(adj, e.1, e.0)
    &&& e.3 == adj[e.0][e.1]
}

/// What the entries of `in_links` are.
proof fn lemma_in_links(adj: Adjacency, node: char, keys: Seq<char>)
    ensures
        forall|i: int| 0 <= i < in_links(adj, node, keys).len() ==> {
            let e = #[trigger] in_links(adj, node, keys)[i];
            &&& keys.contains(e.0)
            &&& e.0 != node
            &&& e.1 == node
            &&& has_link(adj, e.0, node)
            &&& !has_link(adj, node, e.0)
            &&& !e.2
            &&& e.3 == adj[e.0][node]
        },
        forall|o: char| #[trigger] keys.contains(o) && o != node && has_link(adj, o, node) && !has_link(adj, node, o)
            ==> in_links(adj, node, keys).contains((o, node, false, adj[o][node])),
    decreases keys.len(),
{
    if keys.len() > 0 {
        let rest = keys.drop_last();
        lemma_in_links(adj, node, rest);
        let r = in_links(adj, node, rest);
        assert forall|i: int| 0 <= i < r.len() && rest.contains(#[trigger] r[i].0) implies keys.contains(r[i].0) by {
            if rest.contains(r[i].0) {
                let j = rest.index_of(r[i].0);
                assert(keys[j] == r[i].0);
            }
        }
        assert forall|o: char| #[trigger] keys.contains(o) && o != node && has_link(adj, o, node) && !has_link(adj, node, o)
            implies in_links(adj, node, keys).contains((o, node, false, adj[o][node])) by {
            let j = keys.index_of(o);
            if j < keys.len() - 1 {
                assert(rest[j] == o);
                assert(rest.contains(o));
                let e = (o, node, false, adj[o][node]);
                assert(r.contains(e));
                let m = r.index_of(e);
                if in_links(adj, node, keys).len() > r.len() {
                    assert(in_links(adj, node, keys)[m] == e);
                }
            } else {
                assert(keys.last() == o);
                let l = in_links(adj, node, keys);
                assert(l[l.len() - 1] == (o, node, false, adj[o][node]));
            }
        }
    }
}

impl<E: LayoutEngine> Graph<E> {
    /// The links that touch `node`: first those from it (in the order of its row), then those
    /// to it from nodes (in key order) to which no link goes back.
    pub closed spec fn node_links_spec(&self, node: char) -> Seq<LinkEntry> {
        out_links(self.adj(), node, self.adjacency@[node].pairs()) + in_links(self.adj(), node, self.adjacency.keys())
    }

    /// What the entries of `node_links_spec` are: each is a link that touches `node`, and
    /// each link that touches `node` has an entry, itself or (for a link to `node` that has
    /// a link back) the link back.
    proof fn lemma_node_links(&self, node: char)
        requires
            self.wf(),
            self.adj().contains_key(node),
        ensures
            forall|i: int| 0 <= i < self.node_links_spec(node).len() ==> entry_of(self.adj(), node, #[trigger] self.node_links_spec(node)[i]),
            forall|x: char| #[trigger] has_link(self.adj(), node, x) ==> self.node_links_spec(node).contains(
                (node, x, has_link(self.adj(), x, node), self.adj()[node][x]),
            ),
            forall|o: char| #[trigger] has_link(self.adj(), o, node) && !has_link(self.adj(), node, o)
                ==> self.node_links_spec(node).contains((o, node, false, self.adj()[o][node])),
    {
        let adj = self.adj();
        let row = self.adjacency@[node];
        let out = out_links(adj, node, row.pairs());
        let inl = in_links(adj, node, self.adjacency.keys());
        let l = self.node_links_spec(node);
        lemma_in_links(adj, node, self.adjacency.keys());
        assert(l == out + inl);
        assert forall|i: int| 0 <= i < l.len() implies entry_of(adj, node, #[trigger] l[i]) by {
            if i < out.len() {
                row.lemma_entry(i);
                assert(l[i] == out[i]);
            } else {
                assert(l[i] == inl[i - out.len()]);
            }
        }
        assert forall|x: char| #[trigger] has_link(adj, node, x) implies l.contains((node, x, has_link(adj, x, node), adj[node][x])) by {
            row.lemma_key_in_keys(x);
            let j = row.keys().index_of(x);
            row.lemma_entry(j);
            assert(l[j] == out[j]);
        }
        assert forall|o: char| #[trigger] has_link(adj, o, node) && !has_link(adj, node, o)
            implies l.contains((o, node, false, adj[o][node])) by {
            self.adjacency.lemma_key_in_keys(o);
            assert(o != node);
            let e = (o, node, false, adj[o][node]);
            assert(inl.contains(e));
            let m = inl.index_of(e);
            assert(l[out.len() + m] == e);
        }
    }

    /// The links that touch `node` (see `node_links_spec`), each as (from, to, whether a link
    /// goes back, value).
    fn node_links(&self, node: char) -> (links: Vec<LinkEntry>)
        requires
            self.wf(),
            self.adj().contains_key(node),
        ensures
            links@ == self.node_links_spec(node),
    {
        let mut links: Vec<LinkEntry> = Vec::new();
        let row = self.row(node);
        let ghost out = out_links(self.adj(), node, row.pairs());
        let mut j: usize = 0;
        while j < row.len()
            invariant
                self.wf(),
                self.adj().contains_key(node),
                row.wf(),
                *row == self.adjacency@[node],
                out == out_links(self.adj(), node, row.pairs()),
                j <= row.spec_len(),
                links@ == out.take(j as int),
            decreases row.spec_len() - j,
        {
            let x = row.key_at(j);
            let v = *row.value_at(j);
            assert(self.adj()[node].contains_key(x));
            assert(self.adj().contains_key(x));
            let back = self.row(x).contains_key(&node);
            links.push((node, x, back, v));
            assert(links@ =~= out.take(j + 1));
            j = j + 1;
        }
        assert(out.take(j as int) =~= out);
        let ghost base = links@;
        let mut i: usize = 0;
        while i < self.adjacency.len()
            invariant
                self.wf(),
                self.adj().contains_key(node),
                i <= self.adjacency.spec_len(),
                base == out,
                out == out_links(self.adj(), node, self.adjacency@[node].pairs()),
                links@ == base + in_links(self.adj(), node, self.adjacency.keys().take(i as int)),
            decreases self.adjacency.spec_len() - i,
        {
            let o = self.adjacency.key_at(i);
            let ghost ks = self.adjacency.keys().take(i + 1);
            assert(ks.drop_last() =~= self.adjacency.keys().take(i as int));
            assert(ks.last() == o);
            if o != node {
                let row_o = self.adjacency.value_at(i);
                match row_o.get(&node) {
                    Some(v) => {
                        if !self.row(node).contains_key(&o) {
                            links.push((o, node, false, *v));
                        }
                    },
                    None => {},
                }
            }
            assert(links@ =~= base + in_links(self.adj(), node, ks));
            i = i + 1;
        }
        assert(self.adjacency.keys().take(i as int) =~= self.adjacency.keys());
        links
    }
}


/// `adj` without node `n` and the links that touch it.
pub open spec fn without_node(adj: Adjacency, n: char) -> Adjacency {
    Map::new(|k: char| adj.contains_key(k) && k != n, |k: char| adj[k].remove(n))
}

/// Whether a link joins `x` and `y` (either way).
pub open spec fn joined(adj: Adjacency, x: char, y: char) -> bool {
    has_link(adj, x, y) || has_link(adj, y, x)
}

/// Whether `sub` holds links of `adj` only, with the same values, over the same nodes.
pub open spec fn sub_adjacency(sub: Adjacency, adj: Adjacency) -> bool {
    &&& sub.dom() == adj.dom()
    &&& forall|x: char, y: char| #[trigger] has_link(sub, x, y) ==> has_link(adj, x, y) && sub[x][y] == adj[x][y]
}

impl<E: LayoutEngine> Graph<E> {
    /// Deletes a node and the links that touch it.
    pub fn delete_node(&mut self, node: char)
        requires
            old(self).wf(),
            old(self).adj().contains_key(node),
        ensures
            final(self).wf(),
            final(self).adj() == without_node(old(self).adj(), node),
            final(self).batch_done_laid_out(old(self), old(self).step_durations().1),
            final(self).node_looks_kept_but_layout(old(self), None),
            final(self).link_looks_kept(old(self), None),
    {
        let ghost start = *self;
        let links = self.node_links(node);
        proof {
            self.lemma_node_links(node);
        }
        let was_resumed = self.begin_changes();
        let ghost paused = *self;
        let mut i: usize = 0;
        while i < links.len()
            invariant
                self.wf(),
                self.is_paused(),
                self.layout_on_resume == paused.layout_on_resume,
                self.duration_on_resume == paused.duration_on_resume,
                self.same_settings(&paused),
                self.p_speed_permille == paused.p_speed_permille,
                self.picture().node_map() == paused.picture().node_map(),
                self.picture().total() == paused.picture().total(),
                self.link_looks_kept(&paused, None),
                paused.adj() == start.adj(),
                i <= links@.len(),
                forall|j: int| 0 <= j < links@.len() ==> entry_of(start.adj(), node, #[trigger] links@[j]),
                sub_adjacency(self.adj(), start.adj()),
                forall|x: char, y: char| #[trigger] has_link(start.adj(), x, y) && x != node && y != node ==> has_link(self.adj(), x, y),
                forall|j: int| 0 <= j < i ==> !joined(self.adj(), (#[trigger] links@[j]).0, links@[j].1),
            decreases links@.len() - i,
        {
            let (a, b, _, _) = links[i];
            let ghost before = *self;
            if self.has_link(a, b) || self.has_link(b, a) {
                self.remove_link(a, b);
                proof {
                    assert(self.link_looks_kept(&paused, None)) by {
                        assert forall|k: CharPair| #[trigger] self.picture().link_map()@.contains_key(k) && None::<CharPair> != Some(k)
                            implies paused.picture().link_map()@.contains_key(k) && link_look_kept(paused.picture().link_map()@[k]@, self.picture().link_map()@[k]@) by {
                            assert(before.picture().link_map()@.contains_key(k));
                        }
                    }
                    assert forall|x: char, y: char| #[trigger] has_link(self.adj(), x, y) implies has_link(start.adj(), x, y)
                        && self.adj()[x][y] == start.adj()[x][y] by {
                        assert(has_link(before.adj(), x, y));
                    }
                    assert(self.adj().dom() =~= start.adj().dom());
                    assert forall|x: char, y: char| #[trigger] has_link(start.adj(), x, y) && x != node && y != node implies has_link(self.adj(), x, y) by {
                        assert(has_link(before.adj(), x, y));
                        assert(entry_of(start.adj(), node, links@[i as int]));
                    }
                    assert forall|j: int| 0 <= j < i + 1 implies !joined(self.adj(), (#[trigger] links@[j]).0, links@[j].1) by {
                        if j < i {
                            assert(!joined(before.adj(), links@[j].0, links@[j].1));
                        }
                    }
                }
            }
            i = i + 1;
        }
        proof {
            let adj = self.adj();
            assert forall|x: char| adj.contains_key(x) implies !#[trigger] adj[x].contains_key(node) && !adj[node].contains_key(x) by {
                if has_link(adj, x, node) {
                    assert(has_link(start.adj(), x, node));
                    if has_link(start.adj(), node, x) {
                        let e = (node, x, has_link(start.adj(), x, node), start.adj()[node][x]);
                        assert(links@.contains(e));
                        let j = links@.index_of(e);
                        assert(!joined(adj, links@[j].0, links@[j].1));
                    } else {
                        let e = (x, node, false, start.adj()[x][node]);
                        assert(links@.contains(e));
                        let j = links@.index_of(e);
                        assert(!joined(adj, links@[j].0, links@[j].1));
                    }
                }
                if has_link(adj, node, x) {
                    assert(has_link(start.adj(), node, x));
                    let e = (node, x, has_link(start.adj(), x, node), start.adj()[node][x]);
                    assert(links@.contains(e));
                    let j = links@.index_of(e);
                    assert(!joined(adj, links@[j].0, links@[j].1));
                }
            }
            assert(live_node(self.renderer, node));
        }
        let ghost before = *self;
        self.adjacency.remove(&node);
        self.renderer.delete_node(node);
        proof {
            let adj = self.adj();
            assert forall|k: char| #[trigger] adj.contains_key(k) implies adj[k] =~= start.adj()[k].remove(node) by {
                assert(before.adj().contains_key(k));
                assert forall|y: char| #[trigger] adj[k].contains_key(y) <==> start.adj()[k].remove(node).contains_key(y) by {
                    if start.adj()[k].contains_key(y) && y != node {
                        assert(has_link(start.adj(), k, y));
                    }
                    if adj[k].contains_key(y) {
                        assert(has_link(before.adj(), k, y));
                    }
                }
                assert forall|y: char| #[trigger] adj[k].contains_key(y) implies adj[k][y] == start.adj()[k][y] by {
                    assert(has_link(before.adj(), k, y));
                }
            }
            assert(adj =~= without_node(start.adj(), node));
            assert forall|k: char| #[trigger] self.adjacency@.contains_key(k) implies self.adjacency@[k].wf() by {
                assert(before.adjacency@.contains_key(k));
            }
            assert forall|k: char| #[trigger] self.adjacency@.contains_key(k) <==> live_node(self.renderer, k) by {
                assert(before.adjacency@.contains_key(k) <==> live_node(before.renderer, k));
            }
            assert forall|x: char, y: char| #[trigger] has_link(adj, x, y) implies live_link(self.renderer, x, y) by {
                assert(has_link(before.adj(), x, y));
                assert(live_link(before.renderer, x, y));
            }
            assert(adjacency_wf(adj)) by {
                assert forall|x: char, y: char| #[trigger] adj.contains_key(x) && #[trigger] adj[x].contains_key(y) implies adj.contains_key(y) && x != y by {
                    assert(has_link(before.adj(), x, y));
                }
                assert forall|x: char, y: char| #[trigger] adj.contains_key(x) && #[trigger] adj[x].contains_key(y) && adj[y].contains_key(x)
                    implies adj[x][y] == adj[y][x] by {
                    assert(has_link(before.adj(), x, y));
                    assert(has_link(before.adj(), y, x));
                }
            }
        }
        let ghost mid = *self;
        proof {
            assert(mid.node_looks_kept(&start, None)) by {
                assert forall|k: char| #[trigger] mid.picture().node_map()@.contains_key(k) && None::<char> != Some(k)
                    implies start.picture().node_map()@.contains_key(k) && look_kept(start.node_state(k), mid.node_state(k)) by {
                    assert(before.picture().node_map()@.contains_key(k));
                }
            }
        }
        self.end_changes(was_resumed, self.p_duration_delete);
        let ghost mid2 = *self;
        self.need_layout();
        proof {
            self.lemma_looks_after_batch(&mid2, &mid, &start, None, None);
        }
    }
}


/// The name that node `x` takes when nodes `n1` and `n2` are swapped.
pub open spec fn swap_label(n1: char, n2: char, x: char) -> char {
    if x == n1 {
        n2
    } else if x == n2 {
        n1
    } else {
        x
    }
}

/// `adj` with nodes `n1` and `n2` swapped: each takes the place (the links) of the other.
pub open spec fn swapped(adj: Adjacency, n1: char, n2: char) -> Adjacency {
    Map::new(
        |k: char| adj.contains_key(swap_label(n1, n2, k)),
        |k: char| Map::new(
            |y: char| adj[swap_label(n1, n2, k)].contains_key(swap_label(n1, n2, y)),
            |y: char| adj[swap_label(n1, n2, k)][swap_label(n1, n2, y)],
        ),
    )
}

/// Whether the pair (a, b) or (b, a) is in `v`.
pub open spec fn pair_listed(v: Seq<(char, char)>, a: char, b: char) -> bool {
    v.contains((a, b)) || v.contains((b, a))
}

/// Whether `e` describes a link of `adj`: (from, to, whether a link goes back, value).
pub open spec fn entry_in(adj: Adjacency, e: LinkEntry) -> bool {
    &&& has_link(adj, e.0, e.1)
    &&& e.2 == has_link(adj, e.1, e.0)
    &&& e.3 == adj[e.0][e.1]
}

/// Whether the link of `e` is in `v`, itself or (when bidirectional) reversed.
pub open spec fn entry_listed(v: Seq<LinkEntry>, e: LinkEntry) -> bool {
    v.contains(e) || (e.2 && v.contains((e.1, e.0, e.2, e.3)))
}

/// `e` with nodes `n1` and `n2` swapped.
pub open spec fn swap_entry(n1: char, n2: char, e: LinkEntry) -> LinkEntry {
    (swap_label(n1, n2, e.0), swap_label(n1, n2, e.1), e.2, e.3)
}

/// The graph with two nodes swapped is a graph.
proof fn lemma_swapped_wf(adj: Adjacency, n1: char, n2: char)
    requires
        adjacency_wf(adj),
        adj.contains_key(n1),
        adj.contains_key(n2),
    ensures
        adjacency_wf(swapped(adj, n1, n2)),
        swapped(adj, n1, n2).dom() == adj.dom(),
        forall|x: char, y: char| #[trigger] has_link(swapped(adj, n1, n2), x, y) <==> has_link(adj, swap_label(n1, n2, x), swap_label(n1, n2, y)),
        forall|x: char, y: char| #[trigger] has_link(swapped(adj, n1, n2), x, y) ==> swapped(adj, n1, n2)[x][y] == adj[swap_label(n1, n2, x)][swap_label(n1, n2, y)],
{
    let t = swapped(adj, n1, n2);
    assert(t.dom() =~= adj.dom());
    assert forall|x: char, y: char| #[trigger] t.contains_key(x) && #[trigger] t[x].contains_key(y) implies t.contains_key(y) && x != y by {
        assert(has_link(adj, swap_label(n1, n2, x), swap_label(n1, n2, y)));
    }
    assert forall|x: char, y: char| #[trigger] t.contains_key(x) && #[trigger] t[x].contains_key(y) && t[y].contains_key(x)
        implies t[x][y] == t[y][x] by {
        assert(has_link(adj, swap_label(n1, n2, x), swap_label(n1, n2, y)));
        assert(has_link(adj, swap_label(n1, n2, y), swap_label(n1, n2, x)));
    }
}

/// The name that node `x` takes when nodes `n1` and `n2` are swapped.
fn swap_name(n1: char, n2: char, x: char) -> (y: char)
    ensures
        y == swap_label(n1, n2, x),
{
    if x == n1 {
        n2
    } else if x == n2 {
        n1
    } else {
        x
    }
}

/// Whether `v` contains the entry `e`.
fn entries_contain(v: &Vec<LinkEntry>, e: LinkEntry) -> (b: bool)
    ensures
        b == v@.contains(e),
{
    let mut i: usize = 0;
    while i < v.len()
        invariant
            i <= v@.len(),
            forall|j: int| 0 <= j < i ==> v@[j] != e,
        decreases v@.len() - i,
    {
        if v[i].0 == e.0 && v[i].1 == e.1 && v[i].2 == e.2 && v[i].3 == e.3 {
            assert(v@[i as int] == e);
            return true;
        }
        i = i + 1;
    }
    false
}

impl<E: LayoutEngine> Graph<E> {
    /// Removes the links between the ends of each pair of `pairs` that are still joined.
    fn remove_links(&mut self, pairs: &Vec<(char, char)>)
        requires
            old(self).wf(),
            old(self).is_paused(),
        ensures
            final(self).wf(),
            final(self).anim_state == old(self).anim_state,
            final(self).layout_on_resume == old(self).layout_on_resume,
            final(self).duration_on_resume == old(self).duration_on_resume,
            final(self).same_settings(old(self)),
            final(self).p_speed_permille == old(self).p_speed_permille,
            final(self).picture().node_map() == old(self).picture().node_map(),
            final(self).picture().total() == old(self).picture().total(),
            final(self).link_looks_kept(old(self), None),
            sub_adjacency(final(self).adj(), old(self).adj()),
            forall|x: char, y: char| #[trigger] has_link(old(self).adj(), x, y) && !pair_listed(pairs@, x, y) ==> has_link(final(self).adj(), x, y),
            forall|x: char, y: char| #[trigger] has_link(final(self).adj(), x, y) ==> !pair_listed(pairs@, x, y),
    {
        let ghost start = *self;
        let mut i: usize = 0;
        while i < pairs.len()
            invariant
                self.wf(),
                self.is_paused(),
                self.layout_on_resume == start.layout_on_resume,
                self.duration_on_resume == start.duration_on_resume,
                self.same_settings(&start),
                self.p_speed_permille == start.p_speed_permille,
                self.picture().node_map() == start.picture().node_map(),
                self.picture().total() == start.picture().total(),
                self.link_looks_kept(&start, None),
                i <= pairs@.len(),
                sub_adjacency(self.adj(), start.adj()),
                forall|x: char, y: char| #[trigger] has_link(start.adj(), x, y) && !pair_listed(pairs@, x, y) ==> has_link(self.adj(), x, y),
                forall|j: int| 0 <= j < i ==> !joined(self.adj(), (#[trigger] pairs@[j]).0, pairs@[j].1),
            decreases pairs@.len() - i,
        {
            let (a, b) = pairs[i];
            let ghost before = *self;
            if self.has_link(a, b) || self.has_link(b, a) {
                self.remove_link(a, b);
                proof {
                    assert(self.link_looks_kept(&start, None)) by {
                        assert forall|k: CharPair| #[trigger] self.picture().link_map()@.contains_key(k) && None::<CharPair> != Some(k)
                            implies start.picture().link_map()@.contains_key(k) && link_look_kept(start.picture().link_map()@[k]@, self.picture().link_map()@[k]@) by {
                            assert(before.picture().link_map()@.contains_key(k));
                        }
                    }
                    assert forall|x: char, y: char| #[trigger] has_link(self.adj(), x, y) implies has_link(start.adj(), x, y)
                        && self.adj()[x][y] == start.adj()[x][y] by {
                        assert(has_link(before.adj(), x, y));
                    }
                    assert(self.adj().dom() =~= start.adj().dom());
                    assert forall|x: char, y: char| #[trigger] has_link(start.adj(), x, y) && !pair_listed(pairs@, x, y) implies has_link(self.adj(), x, y) by {
                        assert(has_link(before.adj(), x, y));
                        assert(pairs@[i as int] == (a, b));
                        if (x == a && y == b) || (x == b && y == a) {
                            assert(pairs@.contains((a, b)));
                        }
                    }
                    assert forall|j: int| 0 <= j < i + 1 implies !joined(self.adj(), (#[trigger] pairs@[j]).0, pairs@[j].1) by {
                        if j < i {
                            assert(!joined(before.adj(), pairs@[j].0, pairs@[j].1));
                        }
                    }
                }
            }
            i = i + 1;
        }
        proof {
            assert forall|x: char, y: char| #[trigger] has_link(self.adj(), x, y) implies !pair_listed(pairs@, x, y) by {
                if pairs@.contains((x, y)) {
                    let j = pairs@.index_of((x, y));
                    assert(!joined(self.adj(), pairs@[j].0, pairs@[j].1));
                }
                if pairs@.contains((y, x)) {
                    let j = pairs@.index_of((y, x));
                    assert(!joined(self.adj(), pairs@[j].0, pairs@[j].1));
                }
            }
        }
    }

    /// Adds the links of `entries`, each a link of `target`, a graph that holds the links of
    /// `self` already.
    fn insert_links(&mut self, entries: &Vec<LinkEntry>, Ghost(target): Ghost<Adjacency>)
        requires
            old(self).wf(),
            old(self).is_paused(),
            adjacency_wf(target),
            sub_adjacency(old(self).adj(), target),
            forall|j: int| 0 <= j < entries@.len() ==> entry_in(target, #[trigger] entries@[j]),
        ensures
            final(self).wf(),
            final(self).anim_state == old(self).anim_state,
            final(self).layout_on_resume == old(self).layout_on_resume,
            final(self).duration_on_resume == old(self).duration_on_resume,
            final(self).same_settings(old(self)),
            final(self).p_speed_permille == old(self).p_speed_permille,
            final(self).picture().node_map() == old(self).picture().node_map(),
            final(self).picture().total() == old(self).picture().total(),
            sub_adjacency(final(self).adj(), target),
            forall|x: char, y: char| #[trigger] has_link(old(self).adj(), x, y) ==> has_link(final(self).adj(), x, y),
            forall|j: int| 0 <= j < entries@.len() ==> has_link(final(self).adj(), (#[trigger] entries@[j]).0, entries@[j].1)
                && (entries@[j].2 ==> has_link(final(self).adj(), entries@[j].1, entries@[j].0)),
    {
        let ghost start = *self;
        let mut i: usize = 0;
        while i < entries.len()
            invariant
                self.wf(),
                self.is_paused(),
                self.layout_on_resume == start.layout_on_resume,
                self.duration_on_resume == start.duration_on_resume,
                self.same_settings(&start),
                self.p_speed_permille == start.p_speed_permille,
                self.picture().node_map() == start.picture().node_map(),
                self.picture().total() == start.picture().total(),
                adjacency_wf(target),
                i <= entries@.len(),
                forall|j: int| 0 <= j < entries@.len() ==> entry_in(target, #[trigger] entries@[j]),
                sub_adjacency(self.adj(), target),
                forall|x: char, y: char| #[trigger] has_link(start.adj(), x, y) ==> has_link(self.adj(), x, y),
                forall|j: int| 0 <= j < i ==> has_link(self.adj(), (#[trigger] entries@[j]).0, entries@[j].1)
                    && (entries@[j].2 ==> has_link(self.adj(), entries@[j].1, entries@[j].0)),
            decreases entries@.len() - i,
        {
            let (a, b, bidirect, v) = entries[i];
            let ghost before = *self;
            proof {
                assert(entry_in(target, entries@[i as int]));
                assert(self.adj().contains_key(a) && self.adj().contains_key(b));
                if !bidirect && has_link(self.adj(), b, a) {
                    assert(has_link(target, b, a));
                }
            }
            self.insert_link(a, b, bidirect, v);
            proof {
                let adj = self.adj();
                assert(adj.dom() =~= target.dom());
                assert forall|x: char, y: char| #[trigger] has_link(adj, x, y) implies has_link(target, x, y) && adj[x][y] == target[x][y] by {
                    if !((x == a && y == b) || (bidirect && x == b && y == a)) {
                        assert(has_link(before.adj(), x, y));
                    }
                }
                assert forall|x: char, y: char| #[trigger] has_link(start.adj(), x, y) implies has_link(adj, x, y) by {
                    assert(has_link(before.adj(), x, y));
                }
                assert forall|j: int| 0 <= j < i + 1 implies has_link(adj, (#[trigger] entries@[j]).0, entries@[j].1)
                    && (entries@[j].2 ==> has_link(adj, entries@[j].1, entries@[j].0)) by {
                    if j < i {
                        assert(has_link(before.adj(), entries@[j].0, entries@[j].1));
                        if entries@[j].2 {
                            assert(has_link(before.adj(), entries@[j].1, entries@[j].0));
                        }
                    }
                }
            }
            i = i + 1;
        }
    }
}


/// Whether a link between `x` and `y` touches `n1` or `n2`.
pub open spec fn touches(n1: char, n2: char, x: char, y: char) -> bool {
    x == n1 || x == n2 || y == n1 || y == n2
}

/// Swapping two nodes maps the entry of a link to the entry of the swapped link.
proof fn lemma_swap_entry(adj: Adjacency, n1: char, n2: char, e: LinkEntry)
    requires
        adjacency_wf(adj),
        adj.contains_key(n1),
        adj.contains_key(n2),
        entry_in(adj, e),
    ensures
        entry_in(swapped(adj, n1, n2), swap_entry(n1, n2, e)),
{
    lemma_swapped_wf(adj, n1, n2);
    let t = swapped(adj, n1, n2);
    let r = swap_entry(n1, n2, e);
    assert(swap_label(n1, n2, r.0) == e.0);
    assert(swap_label(n1, n2, r.1) == e.1);
    assert(has_link(t, r.0, r.1));
}

/// The pair of each entry of `links` (but those whose pair, or reverse pair for a link with
/// a link back, comes earlier).
fn pairs_to_delete(links: &Vec<LinkEntry>, Ghost(n1): Ghost<char>, Ghost(n2): Ghost<char>) -> (v: Vec<(char, char)>)
    requires
        forall|j: int| 0 <= j < links@.len() ==> touches(n1, n2, (#[trigger] links@[j]).0, links@[j].1),
    ensures
        forall|j: int| 0 <= j < v@.len() ==> touches(n1, n2, (#[trigger] v@[j]).0, v@[j].1),
        forall|j: int| 0 <= j < links@.len() ==> pair_listed(v@, (#[trigger] links@[j]).0, links@[j].1),
{
    let mut to_delete: Vec<(char, char)> = Vec::new();
    let mut i: usize = 0;
    while i < links.len()
        invariant
            i <= links@.len(),
            forall|j: int| 0 <= j < links@.len() ==> touches(n1, n2, (#[trigger] links@[j]).0, links@[j].1),
            forall|j: int| 0 <= j < to_delete@.len() ==> touches(n1, n2, (#[trigger] to_delete@[j]).0, to_delete@[j].1),
            forall|j: int| 0 <= j < i ==> pair_listed(to_delete@, (#[trigger] links@[j]).0, links@[j].1),
        decreases links@.len() - i,
    {
        let (node_from, node_to, bidirect, _) = links[i];
        let ghost before = to_delete@;
        if !(bidirect && pairs_contain(&to_delete, (node_to, node_from)) || pairs_contain(&to_delete, (node_from, node_to))) {
            to_delete.push((node_from, node_to));
            proof {
                assert(to_delete@[before.len() as int] == (node_from, node_to));
                assert forall|j: int| 0 <= j < i + 1 implies pair_listed(to_delete@, (#[trigger] links@[j]).0, links@[j].1) by {
                    if j < i {
                        if before.contains((links@[j].0, links@[j].1)) {
                            let m = before.index_of((links@[j].0, links@[j].1));
                            assert(to_delete@[m] == before[m]);
                        } else {
                            let m = before.index_of((links@[j].1, links@[j].0));
                            assert(to_delete@[m] == before[m]);
                        }
                    }
                }
            }
        }
        i = i + 1;
    }
    to_delete
}

/// The entry of each link of `links` with nodes `node_1` and `node_2` swapped (but those
/// that come earlier, themselves or reversed for a link with a link back).
fn entries_to_add(links: &Vec<LinkEntry>, node_1: char, node_2: char, Ghost(adj): Ghost<Adjacency>) -> (v: Vec<LinkEntry>)
    requires
        adjacency_wf(adj),
        adj.contains_key(node_1),
        adj.contains_key(node_2),
        forall|j: int| 0 <= j < links@.len() ==> entry_in(adj, #[trigger] links@[j]),
    ensures
        forall|j: int| 0 <= j < v@.len() ==> entry_in(swapped(adj, node_1, node_2), #[trigger] v@[j]),
        forall|j: int| 0 <= j < links@.len() ==> entry_listed(v@, swap_entry(node_1, node_2, #[trigger] links@[j])),
{
    let ghost t = swapped(adj, node_1, node_2);
    let mut to_add: Vec<LinkEntry> = Vec::new();
    let mut i: usize = 0;
    while i < links.len()
        invariant
            i <= links@.len(),
            t == swapped(adj, node_1, node_2),
            adjacency_wf(adj),
            adj.contains_key(node_1),
            adj.contains_key(node_2),
            forall|j: int| 0 <= j < links@.len() ==> entry_in(adj, #[trigger] links@[j]),
            forall|j: int| 0 <= j < to_add@.len() ==> entry_in(t, #[trigger] to_add@[j]),
            forall|j: int| 0 <= j < i ==> entry_listed(to_add@, swap_entry(node_1, node_2, #[trigger] links@[j])),
        decreases links@.len() - i,
    {
        let (node_from, node_to, bidirect, value) = links[i];
        let node_from = swap_name(node_1, node_2, node_from);
        let node_to = swap_name(node_1, node_2, node_to);
        let ghost before = to_add@;
        proof {
            lemma_swap_entry(adj, node_1, node_2, links@[i as int]);
        }
        if !(bidirect && entries_contain(&to_add, (node_to, node_from, bidirect, value))
            || entries_contain(&to_add, (node_from, node_to, bidirect, value))) {
            to_add.push((node_from, node_to, bidirect, value));
            proof {
                assert(to_add@[before.len() as int] == (node_from, node_to, bidirect, value));
                assert forall|j: int| 0 <= j < i + 1 implies entry_listed(to_add@, swap_entry(node_1, node_2, #[trigger] links@[j])) by {
                    if j < i {
                        let r = swap_entry(node_1, node_2, links@[j]);
                        if before.contains(r) {
                            let m = before.index_of(r);
                            assert(to_add@[m] == before[m]);
                        } else {
                            let m = before.index_of((r.1, r.0, r.2, r.3));
                            assert(to_add@[m] == before[m]);
                        }
                    }
                }
            }
        }
        i = i + 1;
    }
    to_add
}

impl<E: LayoutEngine> Graph<E> {
    /// The links that touch `node_1` then those that touch `node_2` (see `node_links_spec`).
    fn swap_links(&self, node_1: char, node_2: char) -> (links: Vec<LinkEntry>)
        requires
            self.wf(),
            self.adj().contains_key(node_1),
            self.adj().contains_key(node_2),
        ensures
            links@ == self.node_links_spec(node_1) + self.node_links_spec(node_2),
    {
        let mut links = self.node_links(node_1);
        let links_2 = self.node_links(node_2);
        let ghost l1 = links@;
        let mut k: usize = 0;
        while k < links_2.len()
            invariant
                k <= links_2@.len(),
                links@ == l1 + links_2@.take(k as int),
            decreases links_2@.len() - k,
        {
            links.push(links_2[k]);
            assert(links@ =~= l1 + links_2@.take(k + 1));
            k = k + 1;
        }
        assert(links_2@.take(k as int) =~= links_2@);
        links
    }

    /// The entries of the links that touch `n1` then `n2`: each is a link of the graph that
    /// touches one of them, and each such link has an entry, itself or (for a link to one of
    /// them that has a link back) the link back.
    proof fn lemma_swap_links(&self, n1: char, n2: char)
        requires
            self.wf(),
            self.adj().contains_key(n1),
            self.adj().contains_key(n2),
        ensures
            forall|j: int| 0 <= j < (self.node_links_spec(n1) + self.node_links_spec(n2)).len() ==> {
                let e = #[trigger] (self.node_links_spec(n1) + self.node_links_spec(n2))[j];
                entry_in(self.adj(), e) && touches(n1, n2, e.0, e.1)
            },
            forall|x: char, y: char| #[trigger] has_link(self.adj(), x, y) && touches(n1, n2, x, y) ==> {
                let l = self.node_links_spec(n1) + self.node_links_spec(n2);
                let n = if x == n1 || y == n1 { n1 } else { n2 };
                let m = if x == n { y } else { x };
                if x == n || has_link(self.adj(), n, x) {
                    l.contains((n, m, has_link(self.adj(), m, n), self.adj()[n][m]))
                } else {
                    l.contains((x, n, false, self.adj()[x][n]))
                }
            },
    {
        self.lemma_node_links(n1);
        self.lemma_node_links(n2);
        let l1 = self.node_links_spec(n1);
        let l2 = self.node_links_spec(n2);
        let l = l1 + l2;
        assert forall|j: int| 0 <= j < l.len() implies entry_in(self.adj(), #[trigger] l[j]) && touches(n1, n2, l[j].0, l[j].1) by {
            if j < l1.len() {
                assert(l[j] == l1[j]);
                assert(entry_of(self.adj(), n1, l1[j]));
            } else {
                assert(l[j] == l2[j - l1.len()]);
                assert(entry_of(self.adj(), n2, l2[j - l1.len()]));
            }
        }
        assert forall|x: char, y: char| #[trigger] has_link(self.adj(), x, y) && touches(n1, n2, x, y) implies {
            let n = if x == n1 || y == n1 { n1 } else { n2 };
            let m = if x == n { y } else { x };
            if x == n || has_link(self.adj(), n, x) {
                l.contains((n, m, has_link(self.adj(), m, n), self.adj()[n][m]))
            } else {
                l.contains((x, n, false, self.adj()[x][n]))
            }
        } by {
            let n = if x == n1 || y == n1 { n1 } else { n2 };
            let m = if x == n { y } else { x };
            let ln = self.node_links_spec(n);
            let e = if x == n || has_link(self.adj(), n, x) {
                (n, m, has_link(self.adj(), m, n), self.adj()[n][m])
            } else {
                (x, n, false, self.adj()[x][n])
            };
            assert(ln.contains(e));
            let k = ln.index_of(e);
            if n == n1 {
                assert(l[k] == e);
            } else {
                assert(l[l1.len() + k] == e);
            }
        }
    }
}


/// After the links of `to_add` were added, every link of the swapped graph that touches one of
/// the two nodes is there.
proof fn lemma_swap_covered(adj: Adjacency, n1: char, n2: char, links: Seq<LinkEntry>, to_add: Seq<LinkEntry>, fin: Adjacency)
    requires
        adjacency_wf(adj),
        adj.contains_key(n1),
        adj.contains_key(n2),
        forall|x: char, y: char| #[trigger] has_link(adj, x, y) && touches(n1, n2, x, y) ==> {
            let n = if x == n1 || y == n1 { n1 } else { n2 };
            let m = if x == n { y } else { x };
            if x == n || has_link(adj, n, x) {
                links.contains((n, m, has_link(adj, m, n), adj[n][m]))
            } else {
                links.contains((x, n, false, adj[x][n]))
            }
        },
        forall|j: int| 0 <= j < links.len() ==> entry_listed(to_add, swap_entry(n1, n2, #[trigger] links[j])),
        forall|j: int| 0 <= j < to_add.len() ==> has_link(fin, (#[trigger] to_add[j]).0, to_add[j].1)
            && (to_add[j].2 ==> has_link(fin, to_add[j].1, to_add[j].0)),
    ensures
        forall|x: char, y: char| #[trigger] has_link(swapped(adj, n1, n2), x, y) && touches(n1, n2, x, y) ==> has_link(fin, x, y),
{
    lemma_swapped_wf(adj, n1, n2);
    assert forall|x: char, y: char| #[trigger] has_link(swapped(adj, n1, n2), x, y) && touches(n1, n2, x, y) implies has_link(fin, x, y) by {
        let a = swap_label(n1, n2, x);
        let b = swap_label(n1, n2, y);
        assert(swap_label(n1, n2, a) == x);
        assert(swap_label(n1, n2, b) == y);
        assert(has_link(adj, a, b));
        assert(touches(n1, n2, a, b));
        let n = if a == n1 || b == n1 { n1 } else { n2 };
        let m = if a == n { b } else { a };
        let e = if a == n || has_link(adj, n, a) {
            (n, m, has_link(adj, m, n), adj[n][m])
        } else {
            (a, n, false, adj[a][n])
        };
        assert(links.contains(e));
        let j = links.index_of(e);
        assert(entry_listed(to_add, swap_entry(n1, n2, links[j])));
        let r = swap_entry(n1, n2, e);
        if to_add.contains(r) {
            let k = to_add.index_of(r);
            assert(has_link(fin, to_add[k].0, to_add[k].1));
        } else {
            let k = to_add.index_of((r.1, r.0, r.2, r.3));
            assert(has_link(fin, to_add[k].0, to_add[k].1));
        }
    }
}

/// The total duration after the three batches of a swap (deletion, moves, addition) and the
/// layout that follows, while the animation runs.
pub open spec fn swap_total(total: u32, d: (u32, u32, u32, u32), speed_permille: u32) -> u32 {
    renderer::add_wrapping(
        changes_total(
            changes_total(changes_total(total, d.1, speed_permille), d.2, speed_permille),
            d.0,
            speed_permille,
        ),
        scaled_duration(d.2, speed_permille),
    )
}

impl<E: LayoutEngine> Graph<E> {
    /// The first batch of a swap: the links between the ends of the pairs of `to_delete`.
    fn swap_delete_batch(&mut self, to_delete: &Vec<(char, char)>)
        requires
            old(self).wf(),
        ensures
            final(self).wf(),
            final(self).batch_done(old(self), old(self).step_durations().1),
            sub_adjacency(final(self).adj(), old(self).adj()),
            forall|x: char, y: char| #[trigger] has_link(old(self).adj(), x, y) && !pair_listed(to_delete@, x, y) ==> has_link(final(self).adj(), x, y),
            forall|x: char, y: char| #[trigger] has_link(final(self).adj(), x, y) ==> !pair_listed(to_delete@, x, y),
            final(self).node_looks_kept(old(self), None),
    {
        let ghost start = *self;
        let was_resumed = self.begin_changes();
        self.remove_links(to_delete);
        let ghost mid = *self;
        self.end_changes(was_resumed, self.p_duration_delete);
        proof {
            assert(mid.node_looks_kept(&start, None));
            if was_resumed {
                assert forall|k: char| #[trigger] self.picture().node_map()@.contains_key(k) && None::<char> != Some(k)
                    implies start.picture().node_map()@.contains_key(k) && look_kept(start.node_state(k), self.node_state(k)) by {
                    assert(mid.picture().node_map()@.contains_key(k));
                }
            }
        }
    }

    /// The second batch of a swap: the two nodes move to the positions of each other.
    fn swap_move_batch(&mut self, node_1: char, node_2: char, p1: Point, f1: bool, p2: Point, f2: bool)
        requires
            old(self).wf(),
            old(self).adj().contains_key(node_1),
            old(self).adj().contains_key(node_2),
        ensures
            final(self).wf(),
            final(self).batch_done(old(self), old(self).step_durations().2),
            final(self).adj() == old(self).adj(),
            final(self).node_state(node_2).center == p1,
            final(self).node_state(node_2).center_freezed == f1,
            node_1 != node_2 ==> final(self).node_state(node_1).center == p2,
            node_1 != node_2 ==> final(self).node_state(node_1).center_freezed == f2,
    {
        let ghost start = *self;
        let was_resumed = self.begin_changes();
        let ghost p = *self;
        proof {
            assert(live_node(self.renderer, node_1));
            assert(live_node(self.renderer, node_2));
        }
        self.renderer.node_move(node_1, p2, f2);
        proof {
            assert(self.renderer.node_map()@.contains_key(node_1));
        }
        self.renderer.node_freezed(node_1, f2);
        proof {
            assert(self.renderer.node_map()@.contains_key(node_2));
        }
        self.renderer.node_move(node_2, p1, f1);
        proof {
            assert(self.renderer.node_map()@.contains_key(node_2));
        }
        self.renderer.node_freezed(node_2, f1);
        proof {
            assert(self.renderer.node_map()@.dom() =~= p.renderer.node_map()@.dom());
            assert(self.renderer.link_map()@.dom() =~= p.renderer.link_map()@.dom());
            Self::lemma_wf_same_tags(self, &p);
        }
        let ghost mid = *self;
        self.end_changes(was_resumed, self.p_duration_move);
        proof {
            assert(self.adj() =~= start.adj());
            if was_resumed {
                assert(live_node(self.renderer, node_1));
                assert(live_node(self.renderer, node_2));
                assert(self.picture().node_map()@.contains_key(node_1));
                assert(self.picture().node_map()@.contains_key(node_2));
            }
        }
    }

    /// The third batch of a swap: the links of `to_add`, links of `target`.
    fn swap_add_batch(&mut self, to_add: &Vec<LinkEntry>, Ghost(target): Ghost<Adjacency>)
        requires
            old(self).wf(),
            adjacency_wf(target),
            sub_adjacency(old(self).adj(), target),
            forall|j: int| 0 <= j < to_add@.len() ==> entry_in(target, #[trigger] to_add@[j]),
        ensures
            final(self).wf(),
            final(self).batch_done(old(self), old(self).step_durations().0),
            sub_adjacency(final(self).adj(), target),
            forall|x: char, y: char| #[trigger] has_link(old(self).adj(), x, y) ==> has_link(final(self).adj(), x, y),
            forall|j: int| 0 <= j < to_add@.len() ==> has_link(final(self).adj(), (#[trigger] to_add@[j]).0, to_add@[j].1)
                && (to_add@[j].2 ==> has_link(final(self).adj(), to_add@[j].1, to_add@[j].0)),
            final(self).node_looks_kept(old(self), None),
    {
        let ghost start = *self;
        let was_resumed = self.begin_changes();
        self.insert_links(to_add, Ghost(target));
        let ghost mid = *self;
        self.end_changes(was_resumed, self.p_duration_add);
        proof {
            assert(mid.node_looks_kept(&start, None));
            if was_resumed {
                assert forall|k: char| #[trigger] self.picture().node_map()@.contains_key(k) && None::<char> != Some(k)
                    implies start.picture().node_map()@.contains_key(k) && look_kept(start.node_state(k), self.node_state(k)) by {
                    assert(mid.picture().node_map()@.contains_key(k));
                }
            }
        }
    }
}

/// After the first batch of a swap, no link touches the two nodes, and the links of the
/// graph are links of the swapped graph.
proof fn lemma_swap_after_delete(adj: Adjacency, cur: Adjacency, n1: char, n2: char, links: Seq<LinkEntry>, to_delete: Seq<(char, char)>)
    requires
        adjacency_wf(adj),
        adj.contains_key(n1),
        adj.contains_key(n2),
        forall|x: char, y: char| #[trigger] has_link(adj, x, y) && touches(n1, n2, x, y) ==> {
            let n = if x == n1 || y == n1 { n1 } else { n2 };
            let m = if x == n { y } else { x };
            if x == n || has_link(adj, n, x) {
                links.contains((n, m, has_link(adj, m, n), adj[n][m]))
            } else {
                links.contains((x, n, false, adj[x][n]))
            }
        },
        forall|j: int| 0 <= j < links.len() ==> pair_listed(to_delete, (#[trigger] links[j]).0, links[j].1),
        sub_adjacency(cur, adj),
        forall|x: char, y: char| #[trigger] has_link(cur, x, y) ==> !pair_listed(to_delete, x, y),
    ensures
        sub_adjacency(cur, swapped(adj, n1, n2)),
{
    lemma_swapped_wf(adj, n1, n2);
    let t = swapped(adj, n1, n2);
    assert forall|x: char, y: char| #[trigger] has_link(cur, x, y) implies has_link(t, x, y) && cur[x][y] == t[x][y] by {
        assert(has_link(adj, x, y));
        if touches(n1, n2, x, y) {
            let n = if x == n1 || y == n1 { n1 } else { n2 };
            let m = if x == n { y } else { x };
            let e = if x == n || has_link(adj, n, x) {
                (n, m, has_link(adj, m, n), adj[n][m])
            } else {
                (x, n, false, adj[x][n])
            };
            assert(links.contains(e));
            let j = links.index_of(e);
            assert(pair_listed(to_delete, links[j].0, links[j].1));
        }
        assert(swap_label(n1, n2, x) == x);
        assert(swap_label(n1, n2, y) == y);
    }
}

/// After the three batches of a swap, the graph is the swapped graph.
proof fn lemma_swap_final(adj: Adjacency, after_delete: Adjacency, fin: Adjacency, n1: char, n2: char, to_delete: Seq<(char, char)>)
    requires
        adjacency_wf(adj),
        adj.contains_key(n1),
        adj.contains_key(n2),
        forall|j: int| 0 <= j < to_delete.len() ==> touches(n1, n2, (#[trigger] to_delete[j]).0, to_delete[j].1),
        forall|x: char, y: char| #[trigger] has_link(adj, x, y) && !pair_listed(to_delete, x, y) ==> has_link(after_delete, x, y),
        forall|x: char, y: char| #[trigger] has_link(after_delete, x, y) ==> has_link(fin, x, y),
        forall|x: char, y: char| #[trigger] has_link(swapped(adj, n1, n2), x, y) && touches(n1, n2, x, y) ==> has_link(fin, x, y),
        sub_adjacency(fin, swapped(adj, n1, n2)),
    ensures
        fin == swapped(adj, n1, n2),
{
    lemma_swapped_wf(adj, n1, n2);
    let t = swapped(adj, n1, n2);
    assert forall|x: char, y: char| #[trigger] has_link(t, x, y) implies has_link(fin, x, y) by {
        if !touches(n1, n2, x, y) {
            assert(swap_label(n1, n2, x) == x);
            assert(swap_label(n1, n2, y) == y);
            assert(has_link(adj, x, y));
            if pair_listed(to_delete, x, y) {
                if to_delete.contains((x, y)) {
                    let j = to_delete.index_of((x, y));
                    assert(touches(n1, n2, to_delete[j].0, to_delete[j].1));
                } else {
                    let j = to_delete.index_of((y, x));
                    assert(touches(n1, n2, to_delete[j].0, to_delete[j].1));
                }
            }
            assert(has_link(after_delete, x, y));
        }
    }
    assert forall|k: char| #[trigger] fin.contains_key(k) implies fin[k] =~= t[k] by {
        assert forall|y: char| #[trigger] fin[k].contains_key(y) <==> t[k].contains_key(y) by {
            if fin[k].contains_key(y) {
                assert(has_link(fin, k, y));
            }
            if t[k].contains_key(y) {
                assert(has_link(t, k, y));
            }
        }
        assert forall|y: char| #[trigger] fin[k].contains_key(y) implies fin[k][y] == t[k][y] by {
            assert(has_link(fin, k, y));
        }
    }
    assert(fin =~= t);
}

impl<E: LayoutEngine> Graph<E> {
    /// Swaps two nodes in the graph structure and in its picture: each takes the links and
    /// the position of the other (frozen or not as the other was). The links that touch them
    /// are deleted, the two nodes move, then the links come back (three animation steps when
    /// the animation runs); a node left unfrozen may then move with the layout that follows.
    #[verifier::rlimit(40)]
    pub fn swap_nodes(&mut self, node_1: char, node_2: char)
        requires
            old(self).wf(),
            old(self).adj().contains_key(node_1),
            old(self).adj().contains_key(node_2),
        ensures
            final(self).wf(),
            final(self).adj() == swapped(old(self).adj(), node_1, node_2),
            final(self).state() == old(self).state(),
            final(self).same_settings(old(self)),
            old(self).is_paused() ==> {
                &&& final(self).picture().total() == old(self).picture().total()
                &&& final(self).resume_duration() == old(self).step_durations().0
                &&& final(self).layout_pending()
            },
            !old(self).is_paused() ==> final(self).picture().total() == swap_total(
                old(self).picture().total(),
                old(self).step_durations(),
                old(self).speed_permille(),
            ),
            final(self).node_state(node_1).center_freezed == old(self).node_state(node_2).center_freezed,
            final(self).node_state(node_2).center_freezed == old(self).node_state(node_1).center_freezed,
            old(self).is_paused() || old(self).node_state(node_2).center_freezed
                ==> final(self).node_state(node_1).center == old(self).node_state(node_2).center,
            old(self).is_paused() || old(self).node_state(node_1).center_freezed
                ==> final(self).node_state(node_2).center == old(self).node_state(node_1).center,
    {
        let ghost s0 = *self;
        let ghost adj = self.adj();
        let (x1, y1, freezed_1) = self.node_position(node_1);
        let (x2, y2, freezed_2) = self.node_position(node_2);
        let links = self.swap_links(node_1, node_2);
        proof {
            self.lemma_swap_links(node_1, node_2);
            lemma_swapped_wf(adj, node_1, node_2);
        }
        let to_delete = pairs_to_delete(&links, Ghost(node_1), Ghost(node_2));
        let to_add = entries_to_add(&links, node_1, node_2, Ghost(adj));
        self.swap_delete_batch(&to_delete);
        let ghost s1 = *self;
        proof {
            assert(live_node(s1.renderer, node_1));
            assert(live_node(s1.renderer, node_2));
            assert(s1.picture().node_map()@.contains_key(node_1));
            assert(s1.picture().node_map()@.contains_key(node_2));
        }
        let ghost after_delete = self.adj();
        proof {
            lemma_swap_after_delete(adj, after_delete, node_1, node_2, links@, to_delete@);
        }
        self.swap_move_batch(node_1, node_2, Point::new(x1, y1), freezed_1, Point::new(x2, y2), freezed_2);
        let ghost s2 = *self;
        self.swap_add_batch(&to_add, Ghost(swapped(adj, node_1, node_2)));
        let ghost s3 = *self;
        proof {
            lemma_swap_covered(adj, node_1, node_2, links@, to_add@, self.adj());
            lemma_swap_final(adj, after_delete, self.adj(), node_1, node_2, to_delete@);
            assert(self.adj().contains_key(node_1));
            assert(self.adj().contains_key(node_2));
            assert(live_node(s3.renderer, node_1));
            assert(live_node(s3.renderer, node_2));
            assert(s3.picture().node_map()@.contains_key(node_1));
            assert(s3.picture().node_map()@.contains_key(node_2));
            assert(look_kept(s2.node_state(node_1), s3.node_state(node_1)));
            assert(look_kept(s2.node_state(node_2), s3.node_state(node_2)));
            assert(look_kept(s0.node_state(node_1), s1.node_state(node_1)));
            assert(look_kept(s0.node_state(node_2), s1.node_state(node_2)));
        }
        self.need_layout();
        proof {
            if !s0.is_paused() {
                assert(self.picture().node_map()@.contains_key(node_1));
                assert(self.picture().node_map()@.contains_key(node_2));
            }
        }
    }
}


/// Swapping the same two nodes twice gives the graph back.
pub proof fn law_swap_twice(adj: Adjacency, n1: char, n2: char)
    ensures
        swapped(swapped(adj, n1, n2), n1, n2) == adj,
{
    let t = swapped(swapped(adj, n1, n2), n1, n2);
    assert forall|k: char| #[trigger] t.contains_key(k) implies t[k] =~= adj[k] by {
        assert(swap_label(n1, n2, swap_label(n1, n2, k)) == k);
        assert forall|y: char| #[trigger] t[k].contains_key(y) <==> adj[k].contains_key(y) by {
            assert(swap_label(n1, n2, swap_label(n1, n2, y)) == y);
        }
        assert forall|y: char| #[trigger] t[k].contains_key(y) implies t[k][y] == adj[k][y] by {
            assert(swap_label(n1, n2, swap_label(n1, n2, y)) == y);
        }
    }
    assert forall|k: char| #[trigger] t.contains_key(k) <==> adj.contains_key(k) by {
        assert(swap_label(n1, n2, swap_label(n1, n2, k)) == k);
    }
    assert(t =~= adj);
}

/// Swapping `n1` with `n2` is swapping `n2` with `n1`.
pub proof fn law_swap_symmetric(adj: Adjacency, n1: char, n2: char)
    ensures
        swapped(adj, n1, n2) == swapped(adj, n2, n1),
{
    assert forall|k: char| #[trigger] swapped(adj, n1, n2).contains_key(k) implies swapped(adj, n1, n2)[k] =~= swapped(adj, n2, n1)[k] by {
    }
    assert(swapped(adj, n1, n2) =~= swapped(adj, n2, n1));
}

/// Deleting a link just added between two nodes that no link joined gives the graph back.
pub proof fn law_delete_added_link(adj: Adjacency, a: char, b: char, bidirect: bool, v: i8)
    requires
        adj.contains_key(a),
        adj.contains_key(b),
        !has_link(adj, a, b),
        !has_link(adj, b, a),
    ensures
        without_pair(with_pair(adj, a, b, bidirect, v), a, b) == adj,
{
    let t = without_pair(with_pair(adj, a, b, bidirect, v), a, b);
    assert forall|k: char| #[trigger] t.contains_key(k) implies t[k] =~= adj[k] by {
    }
    assert(t =~= adj);
}

/// Deleting a node just added gives the graph back.
pub proof fn law_delete_added_node(adj: Adjacency, n: char)
    requires
        adjacency_wf(adj),
        !adj.contains_key(n),
    ensures
        without_node(adj.insert(n, Map::<char, i8>::empty()), n) == adj,
{
    let t = without_node(adj.insert(n, Map::<char, i8>::empty()), n);
    assert forall|k: char| #[trigger] t.contains_key(k) implies t[k] =~= adj[k] by {
        assert(!adj[k].contains_key(n));
    }
    assert(t =~= adj);
}


/// Whether the command `c` can be applied to a graph of adjacency `adj`: a node that is not
/// there yet, or a link between two distinct nodes that no link joins yet.
pub open spec fn command_applies(adj: Adjacency, c: Command) -> bool {
    match c {
        Command::AddNode(n, _) => !adj.contains_key(n),
        Command::AddLink(a, b, _, _) => {
            &&& adj.contains_key(a)
            &&& adj.contains_key(b)
            &&& a != b
            &&& !has_link(adj, a, b)
            &&& !has_link(adj, b, a)
        },
    }
}

/// The adjacency after the command `c`.
pub open spec fn after_command(adj: Adjacency, c: Command) -> Adjacency {
    match c {
        Command::AddNode(n, _) => adj.insert(n, Map::<char, i8>::empty()),
        Command::AddLink(a, b, bidirect, v) => with_pair(adj, a, b, bidirect, v),
    }
}

/// The adjacency after the commands `cmds`, in order.
pub open spec fn after_commands(adj: Adjacency, cmds: Seq<Command>) -> Adjacency
    decreases cmds.len(),
{
    if cmds.len() == 0 {
        adj
    } else {
        after_command(after_commands(adj, cmds.drop_last()), cmds.last())
    }
}

/// Whether each of the commands `cmds` can be applied after those before it.
pub open spec fn commands_apply(adj: Adjacency, cmds: Seq<Command>) -> bool
    decreases cmds.len(),
{
    if cmds.len() == 0 {
        true
    } else {
        commands_apply(adj, cmds.drop_last()) && command_applies(after_commands(adj, cmds.drop_last()), cmds.last())
    }
}

/// Whether the configuration `text` can be read and applied to a graph of adjacency `adj`.
pub open spec fn config_applies(adj: Adjacency, text: Seq<char>) -> bool {
    match crate::config::commands_of(text) {
        Ok(cmds) => commands_apply(adj, cmds),
        Err(_) => false,
    }
}

/// The commands that apply after `cmds` are those that applied to the prefix.
proof fn lemma_commands_prefix(adj: Adjacency, cmds: Seq<Command>, i: int)
    requires
        commands_apply(adj, cmds),
        0 <= i < cmds.len(),
    ensures
        commands_apply(adj, cmds.take(i + 1)),
        command_applies(after_commands(adj, cmds.take(i)), cmds[i]),
    decreases cmds.len() - i,
{
    if i + 1 == cmds.len() {
        assert(cmds.take(i + 1) =~= cmds);
        assert(cmds.drop_last() =~= cmds.take(i));
    } else {
        let d = cmds.drop_last();
        assert(d.take(i + 1) =~= cmds.take(i + 1));
        assert(d.take(i) =~= cmds.take(i));
        lemma_commands_prefix(adj, d, i);
    }
}

impl<E: LayoutEngine> Graph<E> {
    /// Applies the commands `cmds` in order (each node and link added as `add_node` and
    /// `add_link` add them).
    pub fn apply_commands(&mut self, cmds: &Vec<Command>)
        requires
            old(self).wf(),
            old(self).is_paused(),
            commands_apply(old(self).adj(), cmds@),
        ensures
            final(self).wf(),
            final(self).is_paused(),
            final(self).adj() == after_commands(old(self).adj(), cmds@),
            final(self).same_settings(old(self)),
            cmds@.len() > 0 ==> final(self).layout_pending(),
            cmds@.len() == 0 ==> final(self).layout_pending() == old(self).layout_pending(),
            final(self).picture().total() == old(self).picture().total(),
            old(self).picture().node_map()@.dom() == old(self).adj().dom() ==> final(self).picture().node_map()@.dom() == final(self).adj().dom(),
            forall|j: int, n: char, p: (i16, i16)| 0 <= j < cmds@.len() && #[trigger] places(cmds@[j], n, p) ==> {
                &&& final(self).node_state(n).center == (Point { x: p.0 as i32, y: p.1 as i32 })
                &&& final(self).node_state(n).center_freezed
                &&& final(self).adj().contains_key(n)
            },
    {
        let ghost start = *self;
        let mut i: usize = 0;
        while i < cmds.len()
            invariant
                self.wf(),
                self.is_paused(),
                i <= cmds@.len(),
                commands_apply(start.adj(), cmds@),
                self.adj() == after_commands(start.adj(), cmds@.take(i as int)),
                self.same_settings(&start),
                i > 0 ==> self.layout_pending(),
                i == 0 ==> self.layout_pending() == start.layout_pending(),
                self.picture().total() == start.picture().total(),
                start.picture().node_map()@.dom() == start.adj().dom() ==> self.picture().node_map()@.dom() == self.adj().dom(),
                forall|j: int, n: char, p: (i16, i16)| 0 <= j < i && #[trigger] places(cmds@[j], n, p) ==> {
                    &&& self.node_state(n).center == (Point { x: p.0 as i32, y: p.1 as i32 })
                    &&& self.node_state(n).center_freezed
                    &&& self.adj().contains_key(n)
                },
            decreases cmds@.len() - i,
        {
            proof {
                lemma_commands_prefix(start.adj(), cmds@, i as int);
                assert(cmds@.take(i + 1).drop_last() =~= cmds@.take(i as int));
                assert(cmds@.take(i + 1).last() == cmds@[i as int]);
            }
            let ghost before = *self;
            match cmds[i] {
                Command::AddNode(n, xy) => {
                    self.add_node(n, xy);
                    proof {
                        assert(self.adj().dom() =~= before.adj().dom().insert(n));
                    }
                },
                Command::AddLink(a, b, bidirect, v) => {
                    self.add_link(a, b, bidirect, v);
                    proof {
                        assert(self.adj().dom() =~= before.adj().dom());
                    }
                },
            }
            proof {
                assert forall|j: int, n: char, p: (i16, i16)| 0 <= j < i + 1 && #[trigger] places(cmds@[j], n, p) implies {
                    &&& self.node_state(n).center == (Point { x: p.0 as i32, y: p.1 as i32 })
                    &&& self.node_state(n).center_freezed
                    &&& self.adj().contains_key(n)
                } by {
                    if j < i {
                        assert(before.adj().contains_key(n));
                        assert(self.adj().contains_key(n));
                        assert(live_node(self.renderer, n));
                        if let Command::AddNode(m, _) = cmds@[i as int] {
                            assert(m != n);
                        }
                    }
                }
            }
            i = i + 1;
        }
        assert(cmds@.take(i as int) =~= cmds@);
    }

    /// Whether the configuration `text` can be read and applied to the graph (see
    /// `from_str`).
    pub fn config_applies(&self, text: &str) -> (b: bool)
        requires
            self.wf(),
        ensures
            b == config_applies(self.adj(), text@),
    {
        match crate::config::parse_config(text) {
            Ok(cmds) => self.commands_apply(&cmds),
            Err(_) => false,
        }
    }

    /// Whether the commands `cmds` can be applied in order to the graph.
    pub fn commands_apply(&self, cmds: &Vec<Command>) -> (b: bool)
        requires
            self.wf(),
        ensures
            b == commands_apply(self.adj(), cmds@),
    {
        let mut m = self.adjacency_list();
        let mut i: usize = 0;
        while i < cmds.len()
            invariant
                self.wf(),
                i <= cmds@.len(),
                rows_wf(m),
                rows_view(m) == after_commands(self.adj(), cmds@.take(i as int)),
                commands_apply(self.adj(), cmds@.take(i as int)),
            decreases cmds@.len() - i,
        {
            let ghost cur = rows_view(m);
            proof {
                assert(cmds@.take(i + 1).drop_last() =~= cmds@.take(i as int));
                assert(cmds@.take(i + 1).last() == cmds@[i as int]);
            }
            match cmds[i] {
                Command::AddNode(n, _) => {
                    if m.contains_key(&n) {
                        proof {
                            lemma_commands_fail(self.adj(), cmds@, i as int);
                        }
                        return false;
                    }
                    m.insert(n, KeyMap::new());
                    proof {
                        assert(rows_view(m) =~= cur.insert(n, Map::<char, i8>::empty()));
                    }
                },
                Command::AddLink(a, b, bidirect, v) => {
                    let ok = match (m.get(&a), m.get(&b)) {
                        (Some(ra), Some(rb)) => a != b && !ra.contains_key(&b) && !rb.contains_key(&a),
                        _ => false,
                    };
                    if !ok {
                        proof {
                            lemma_commands_fail(self.adj(), cmds@, i as int);
                        }
                        return false;
                    }
                    let ia = m.find(&a).unwrap();
                    let mut ra = m.value_at(ia).duplicate();
                    ra.insert(b, v);
                    m.set_value_at(ia, ra);
                    if bidirect {
                        let ib = m.find(&b).unwrap();
                        let mut rb = m.value_at(ib).duplicate();
                        rb.insert(a, v);
                        m.set_value_at(ib, rb);
                    }
                    proof {
                        assert(rows_view(m) =~= with_pair(cur, a, b, bidirect, v));
                    }
                },
            }
            proof {
                assert forall|k: char| #[trigger] m@.contains_key(k) implies m@[k].wf() by {
                }
            }
            i = i + 1;
        }
        assert(cmds@.take(i as int) =~= cmds@);
        true
    }
}

/// The commands do not apply when one of them does not apply after those before it.
proof fn lemma_commands_fail(adj: Adjacency, cmds: Seq<Command>, i: int)
    requires
        0 <= i < cmds.len(),
        !command_applies(after_commands(adj, cmds.take(i)), cmds[i]),
    ensures
        !commands_apply(adj, cmds),
    decreases cmds.len() - i,
{
    if i + 1 == cmds.len() {
        assert(cmds.drop_last() =~= cmds.take(i));
    } else {
        let d = cmds.drop_last();
        assert(d.take(i) =~= cmds.take(i));
        lemma_commands_fail(adj, d, i);
    }
}

impl<E: LayoutEngine> Graph<E> {
    /// Appends the nodes and links of the configuration `graph_config` (see `crate::config`)
    /// to the graph. When the animation runs, they appear in one animation step.
    pub fn from_str(&mut self, graph_config: &str)
        requires
            old(self).wf(),
            config_applies(old(self).adj(), graph_config@),
        ensures
            final(self).wf(),
            final(self).adj() == after_commands(old(self).adj(), crate::config::commands_of(graph_config@)->Ok_0),
            final(self).state() == old(self).state(),
            final(self).same_settings(old(self)),
            forall|j: int, n: char, p: (i16, i16)| 0 <= j < (crate::config::commands_of(graph_config@)->Ok_0).len()
                && #[trigger] places((crate::config::commands_of(graph_config@)->Ok_0)[j], n, p) ==> {
                &&& final(self).node_state(n).center == (Point { x: p.0 as i32, y: p.1 as i32 })
                &&& final(self).node_state(n).center_freezed
            },
    {
        let was_resumed = !self.paused();
        if was_resumed {
            proof {
                assert(self.picture().node_map()@.dom() =~= self.adj().dom());
            }
            self.pause();
        }
        let cmds = match crate::config::parse_config(graph_config) {
            Ok(cmds) => cmds,
            Err(_) => {
                return;
            },
        };
        self.apply_commands(&cmds);
        let ghost applied = *self;
        if was_resumed {
            self.resume();
            proof {
                assert forall|j: int, n: char, p: (i16, i16)| 0 <= j < cmds@.len() && #[trigger] places(cmds@[j], n, p) implies
                    self.node_state(n).center == applied.node_state(n).center && self.node_state(n).center_freezed by {
                    assert(self.picture().node_map()@.contains_key(n));
                }
            }
        }
    }
}


/// Whether the command `c` adds node `n` frozen at `p`.
pub open spec fn places(c: Command, n: char, p: (i16, i16)) -> bool {
    c == Command::AddNode(n, Some(p))
}

/// The configuration line of node `n` in the state `st`: its name, then its position when it
/// is frozen.
pub open spec fn node_config_line(n: char, st: renderer::node::NodeState) -> Seq<char> {
    if st.center_freezed {
        seq![n, ' '] + crate::text::dec_int(st.center.x as int) + seq![' '] + crate::text::dec_int(st.center.y as int) + seq!['\n']
    } else {
        seq![n, '\n']
    }
}

/// The configuration lines of the nodes `keys`, in order, in the states of `nodes`.
pub open spec fn nodes_config(keys: Seq<char>, nodes: Map<char, renderer::node::Node>) -> Seq<char>
    decreases keys.len(),
{
    if keys.len() == 0 {
        Seq::empty()
    } else {
        nodes_config(keys.drop_last(), nodes) + node_config_line(keys.last(), nodes[keys.last()]@)
    }
}

/// The configuration lines of the links `links` of `adj`, in order: `a - b v` for a link that
/// goes both ways (once, from the lower name), `a > b v` for one that goes one way.
pub open spec fn links_config(adj: Adjacency, links: Seq<(char, char)>) -> Seq<char>
    decreases links.len(),
{
    if links.len() == 0 {
        Seq::empty()
    } else {
        let (a, b) = links.last();
        let rest = links_config(adj, links.drop_last());
        let back = has_link(adj, b, a);
        if back && (a as u32) > (b as u32) {
            rest
        } else {
            rest + seq![a, ' ', if back { '-' } else { '>' }, ' ', b, ' '] + crate::text::dec_int(adj[a][b] as int) + seq!['\n']
        }
    }
}

impl<E: LayoutEngine> Graph<E> {
    /// The configuration that describes the graph (see `to_string`).
    pub closed spec fn config_text(&self) -> Seq<char> {
        nodes_config(self.adjacency.keys(), self.renderer.node_map()@) + links_config(self.adj(), self.all_links())
    }

    /// Returns the configuration that describes the graph: a line per node (in increasing
    /// order; with its position when it is frozen), then a line per link (row after row).
    pub fn to_string(&self) -> (s: String)
        requires
            self.wf(),
        ensures
            s@ == self.config_text(),
    {
        let mut config = String::new();
        let mut i: usize = 0;
        while i < self.adjacency.len()
            invariant
                self.wf(),
                i <= self.adjacency.spec_len(),
                config@ == nodes_config(self.adjacency.keys().take(i as int), self.renderer.node_map()@),
            decreases self.adjacency.spec_len() - i,
        {
            let node_from = self.adjacency.key_at(i);
            let ghost ks = self.adjacency.keys().take(i + 1);
            assert(ks.drop_last() =~= self.adjacency.keys().take(i as int));
            assert(ks.last() == node_from);
            let (x, y, freezed) = self.node_position(node_from);
            push_char(&mut config, node_from);
            if freezed {
                push_char(&mut config, ' ');
                push_i64(&mut config, x as i64);
                push_char(&mut config, ' ');
                push_i64(&mut config, y as i64);
            }
            push_char(&mut config, '\n');
            proof {
                assert(config@ =~= nodes_config(ks, self.renderer.node_map()@));
            }
            i = i + 1;
        }
        assert(self.adjacency.keys().take(i as int) =~= self.adjacency.keys());
        let ghost base = config@;
        let mut i: usize = 0;
        while i < self.adjacency.len()
            invariant
                self.wf(),
                i <= self.adjacency.spec_len(),
                base == nodes_config(self.adjacency.keys(), self.renderer.node_map()@),
                config@ == base + links_config(self.adj(), links_of_rows(self.adjacency.pairs().take(i as int))),
            decreases self.adjacency.spec_len() - i,
        {
            let a = self.adjacency.key_at(i);
            let row = self.adjacency.value_at(i);
            let ghost before = links_of_rows(self.adjacency.pairs().take(i as int));
            let ghost row_links = row.keys().map_values(|b: char| (a, b));
            let mut j: usize = 0;
            while j < row.len()
                invariant
                    self.wf(),
                    self.adjacency@.contains_key(a),
                    *row == self.adjacency@[a],
                    row.wf(),
                    j <= row.spec_len(),
                    row_links == row.keys().map_values(|b: char| (a, b)),
                    base == nodes_config(self.adjacency.keys(), self.renderer.node_map()@),
                    config@ == base + links_config(self.adj(), before + row_links.take(j as int)),
                decreases row.spec_len() - j,
            {
                let b = row.key_at(j);
                let v = *row.value_at(j);
                let ghost cur = before + row_links.take(j as int);
                let ghost nxt = before + row_links.take(j + 1);
                assert(row_links[j as int] == (a, b));
                assert(nxt =~= cur.push((a, b)));
                assert(nxt.drop_last() =~= cur);
                assert(self.adj()[a].contains_key(b));
                assert(self.adj().contains_key(b));
                let back = self.row(b).contains_key(&a);
                if !(back && (a as u32) > (b as u32)) {
                    push_char(&mut config, a);
                    push_char(&mut config, ' ');
                    push_char(&mut config, if back { '-' } else { '>' });
                    push_char(&mut config, ' ');
                    push_char(&mut config, b);
                    push_char(&mut config, ' ');
                    push_i64(&mut config, v as i64);
                    push_char(&mut config, '\n');
                }
                proof {
                    assert(config@ =~= base + links_config(self.adj(), nxt));
                }
                j = j + 1;
            }
            assert(row_links.take(j as int) =~= row_links);
            assert(self.adjacency.pairs().take(i + 1).drop_last() =~= self.adjacency.pairs().take(i as int));
            i = i + 1;
        }
        assert(self.adjacency.pairs().take(i as int) =~= self.adjacency.pairs());
        config
    }
}


/// The number of nodes of `keys` from which a link goes to `k`.
pub open spec fn links_to(adj: Adjacency, keys: Seq<char>, k: char) -> nat
    decreases keys.len(),
{
    if keys.len() == 0 {
        0
    } else {
        links_to(adj, keys.drop_last(), k) + if has_link(adj, keys.last(), k) {
            1nat
        } else {
            0nat
        }
    }
}

/// Whether the characters of `s` increase (by their code points). Opaque: `reveal` it to
/// use it.
#[verifier::opaque]
pub open spec fn increasing(s: Seq<char>) -> bool {
    forall|a: int, b: int| 0 <= a < b < s.len() ==> ((#[trigger] s[a]) as u32) < ((#[trigger] s[b]) as u32)
}

/// Whether the degrees `s` are in increasing order of outdegree, and in increasing order of
/// name for equal outdegrees.
pub open spec fn degrees_ordered(s: Seq<(char, (usize, usize))>) -> bool {
    forall|i: int, j: int| 0 <= i < j < s.len() ==> (#[trigger] s[i]).1.0 < (#[trigger] s[j]).1.0
        || (s[i].1.0 == s[j].1.0 && (s[i].0 as u32) < (s[j].0 as u32))
}

impl<E: LayoutEngine> Graph<E> {
    /// The degrees of node `k`: (outdegree, indegree).
    pub closed spec fn degrees(&self, k: char) -> (usize, usize) {
        (self.adjacency@[k].spec_len() as usize, links_to(self.adj(), self.adjacency.keys(), k) as usize)
    }

    /// Returns the adjacency matrix: for each pair of nodes, the value of the link from the
    /// first to the second, if there is one.
    pub fn adjacency_matrix(&self) -> (m: KeyMap<char, KeyMap<char, Option<i8>>>)
        requires
            self.wf(),
        ensures
            m.wf(),
            m@.dom() == self.adj().dom(),
            forall|a: char| #[trigger] m@.contains_key(a) ==> m@[a].wf() && m@[a]@ == Map::new(
                |b: char| self.adj().contains_key(b),
                |b: char| matrix_entry(self.adj(), a, b),
            ),
    {
        let nodes = self.nodes();
        let mut matrix: KeyMap<char, KeyMap<char, Option<i8>>> = KeyMap::new();
        let mut i: usize = 0;
        while i < nodes.len()
            invariant
                self.wf(),
                nodes@ == self.node_seq(),
                forall|k: char| #[trigger] self.adj().contains_key(k) <==> nodes@.contains(k),
                i <= nodes@.len(),
                matrix.wf(),
                forall|a: char| #[trigger] matrix@.contains_key(a) <==> nodes@.take(i as int).contains(a),
                forall|a: char| #[trigger] matrix@.contains_key(a) ==> matrix@[a].wf() && matrix@[a]@ == Map::new(
                    |b: char| self.adj().contains_key(b),
                    |b: char| matrix_entry(self.adj(), a, b),
                ),
            decreases nodes@.len() - i,
        {
            let node = nodes[i];
            assert(nodes@.contains(node));
            let row_from = self.row(node);
            let mut row: KeyMap<char, Option<i8>> = KeyMap::new();
            let mut j: usize = 0;
            while j < nodes.len()
                invariant
                    self.wf(),
                    self.adj().contains_key(node),
                    row_from@ == self.adj()[node],
                    row_from.wf(),
                    nodes@ == self.node_seq(),
                    forall|k: char| #[trigger] self.adj().contains_key(k) <==> nodes@.contains(k),
                    j <= nodes@.len(),
                    row.wf(),
                    forall|b: char| #[trigger] row@.contains_key(b) <==> nodes@.take(j as int).contains(b),
                    forall|b: char| #[trigger] row@.contains_key(b) ==> row@[b] == matrix_entry(self.adj(), node, b),
                decreases nodes@.len() - j,
            {
                let other = nodes[j];
                let v = match row_from.get(&other) {
                    Some(v) => Some(*v),
                    None => None,
                };
                row.insert(other, v);
                proof {
                    assert forall|b: char| #[trigger] nodes@.take(j + 1).contains(b) <==> (nodes@.take(j as int).contains(b) || b == other) by {
                        if b == other {
                            assert(nodes@.take(j + 1)[j as int] == other);
                        }
                        if nodes@.take(j as int).contains(b) {
                            let q = nodes@.take(j as int).index_of(b);
                            assert(nodes@.take(j + 1)[q] == b);
                        }
                        if nodes@.take(j + 1).contains(b) {
                            let q = nodes@.take(j + 1).index_of(b);
                            if q < j {
                                assert(nodes@.take(j as int)[q] == b);
                            }
                        }
                    }
                }
                j = j + 1;
            }
            proof {
                assert(nodes@.take(j as int) =~= nodes@);
                assert(row@ =~= Map::new(
                    |b: char| self.adj().contains_key(b),
                    |b: char| matrix_entry(self.adj(), node, b),
                ));
            }
            matrix.insert(node, row);
            proof {
                assert forall|a: char| #[trigger] nodes@.take(i + 1).contains(a) <==> (nodes@.take(i as int).contains(a) || a == node) by {
                    if a == node {
                        assert(nodes@.take(i + 1)[i as int] == node);
                    }
                    if nodes@.take(i as int).contains(a) {
                        let q = nodes@.take(i as int).index_of(a);
                        assert(nodes@.take(i + 1)[q] == a);
                    }
                    if nodes@.take(i + 1).contains(a) {
                        let q = nodes@.take(i + 1).index_of(a);
                        if q < i {
                            assert(nodes@.take(i as int)[q] == a);
                        }
                    }
                }
            }
            i = i + 1;
        }
        proof {
            assert(nodes@.take(i as int) =~= nodes@);
            assert(matrix@.dom() =~= self.adj().dom());
        }
        matrix
    }
}


/// At most every node of `keys` links to `k`.
proof fn lemma_links_to_bound(adj: Adjacency, keys: Seq<char>, k: char)
    ensures
        links_to(adj, keys, k) <= keys.len(),
    decreases keys.len(),
{
    if keys.len() > 0 {
        lemma_links_to_bound(adj, keys.drop_last(), k);
    }
}

/// The nodes with a link from `k`.
pub open spec fn successors(adj: Adjacency, k: char) -> Set<char> {
    Set::new(|y: char| has_link(adj, k, y))
}

/// The nodes with a link to `k`.
pub open spec fn predecessors(adj: Adjacency, k: char) -> Set<char> {
    Set::new(|y: char| has_link(adj, y, k))
}

/// Counting the nodes of `keys` that link to `k` counts the set of them.
proof fn lemma_links_to_count(adj: Adjacency, keys: Seq<char>, k: char)
    requires
        keys.no_duplicates(),
    ensures
        links_to(adj, keys, k) == keys.to_set().filter(|y: char| has_link(adj, y, k)).len(),
        keys.to_set().filter(|y: char| has_link(adj, y, k)).finite(),
    decreases keys.len(),
{
    let f = |y: char| has_link(adj, y, k);
    if keys.len() == 0 {
        assert(keys.to_set().filter(f) =~= Set::<char>::empty());
    } else {
        let init = keys.drop_last();
        let l = keys.last();
        lemma_links_to_count(adj, init, k);
        let a = init.to_set().filter(f);
        assert(keys =~= init.push(l));
        assert(!init.contains(l));
        assert(keys.to_set() =~= init.to_set().insert(l));
        if has_link(adj, l, k) {
            assert(keys.to_set().filter(f) =~= a.insert(l));
            assert(!a.contains(l));
        } else {
            assert(keys.to_set().filter(f) =~= a);
        }
    }
}

impl<E: LayoutEngine> Graph<E> {
    /// The degrees of the nodes, in increasing order of name.
    pub closed spec fn degree_seq(&self) -> Seq<(char, (usize, usize))> {
        self.adjacency.keys().map_values(|k: char| (k, self.degrees(k)))
    }

    /// An entry of the degree sequence is a node with its degrees.
    pub proof fn lemma_degree_entry(&self, e: (char, (usize, usize)))
        requires
            self.wf(),
            self.degree_seq().contains(e),
        ensures
            self.adj().contains_key(e.0),
            e.1 == self.degrees(e.0),
    {
        let i = choose|i: int| 0 <= i < self.degree_seq().len() && self.degree_seq()[i] == e;
        self.adjacency.lemma_keys();
        assert(self.adjacency.keys().contains(self.adjacency.keys()[i]));
    }

    /// The degrees of a node count the nodes it links to and the nodes that link to it.
    pub proof fn lemma_degrees_sets(&self, x: char)
        requires
            self.wf(),
            self.adj().contains_key(x),
        ensures
            self.degrees(x).0 as int == successors(self.adj(), x).len(),
            self.degrees(x).1 as int == predecessors(self.adj(), x).len(),
            successors(self.adj(), x).finite(),
            predecessors(self.adj(), x).finite(),
    {
        let adj = self.adj();
        let row = self.adjacency@[x];
        row.lemma_keys();
        assert(successors(adj, x) =~= row@.dom());
        crate::algo::tree::lemma_chars_bound(row.keys());
        self.lemma_nodes_finite();
        let keys = self.adjacency.keys();
        lemma_links_to_count(adj, keys, x);
        assert(keys.to_set().filter(|y: char| has_link(adj, y, x)) =~= predecessors(adj, x));
        lemma_links_to_bound(adj, keys, x);
        crate::algo::tree::lemma_chars_bound(keys);
    }

    /// The degree sequence lists each node once.
    pub proof fn lemma_degree_seq_distinct(&self)
        requires
            self.wf(),
        ensures
            self.degree_seq().no_duplicates(),
    {
        self.adjacency.lemma_keys();
        let ks = self.adjacency.keys();
        let d = self.degree_seq();
        assert forall|i: int, j: int| 0 <= i < d.len() && 0 <= j < d.len() && i != j implies d[i] != d[j] by {
            assert(d[i].0 == ks[i]);
            assert(d[j].0 == ks[j]);
        }
    }

    /// Each node is listed in the degree sequence with its degrees.
    pub proof fn lemma_degree_listed(&self, x: char)
        requires
            self.wf(),
            self.adj().contains_key(x),
        ensures
            self.degree_seq().contains((x, self.degrees(x))),
    {
        self.adjacency.lemma_keys();
        let i = self.adjacency.keys().index_of(x);
        assert(self.degree_seq()[i] == (x, self.degrees(x)));
    }

    /// The indegrees of all the nodes, counted row after row.
    fn indegrees(&self) -> (d: KeyMap<char, usize>)
        requires
            self.wf(),
        ensures
            d.wf(),
            d@.dom() == self.adjacency@.dom(),
            forall|k: char| #[trigger] d@.contains_key(k) ==> d@[k] == links_to(self.adj(), self.adjacency.keys(), k),
    {
        let mut d: KeyMap<char, usize> = KeyMap::new();
        let mut i: usize = 0;
        proof {
            self.adjacency.lemma_keys();
        }
        while i < self.adjacency.len()
            invariant
                self.wf(),
                i <= self.adjacency.spec_len(),
                d.wf(),
                forall|k: char| #[trigger] d@.contains_key(k) <==> self.adjacency.keys().take(i as int).contains(k),
                forall|k: char| #[trigger] d@.contains_key(k) ==> d@[k] == 0,
            decreases self.adjacency.spec_len() - i,
        {
            let k = self.adjacency.key_at(i);
            d.insert(k, 0);
            proof {
                let t = self.adjacency.keys().take(i + 1);
                assert forall|x: char| #[trigger] t.contains(x) <==> (self.adjacency.keys().take(i as int).contains(x) || x == k) by {
                    if x == k {
                        assert(t[i as int] == k);
                    }
                    if self.adjacency.keys().take(i as int).contains(x) {
                        let q = self.adjacency.keys().take(i as int).index_of(x);
                        assert(t[q] == x);
                    }
                    if t.contains(x) {
                        let q = t.index_of(x);
                        if q < i {
                            assert(self.adjacency.keys().take(i as int)[q] == x);
                        }
                    }
                }
            }
            i = i + 1;
        }
        proof {
            assert(self.adjacency.keys().take(i as int) =~= self.adjacency.keys());
            assert(d@.dom() =~= self.adjacency@.dom());
        }
        let mut i: usize = 0;
        while i < self.adjacency.len()
            invariant
                self.wf(),
                i <= self.adjacency.spec_len(),
                d.wf(),
                d@.dom() == self.adjacency@.dom(),
                self.adjacency.keys().len() == self.adjacency.spec_len(),
                forall|k: char| #[trigger] d@.contains_key(k) ==> d@[k] == links_to(self.adj(), self.adjacency.keys().take(i as int), k),
                forall|k: char| #[trigger] d@.contains_key(k) ==> d@[k] <= i,
            decreases self.adjacency.spec_len() - i,
        {
            let a = self.adjacency.key_at(i);
            let row = self.adjacency.value_at(i);
            let ghost t = self.adjacency.keys().take(i + 1);
            proof {
                assert(t.drop_last() =~= self.adjacency.keys().take(i as int));
                assert(t.last() == a);
                row.lemma_keys();
            }
            let mut j: usize = 0;
            while j < row.len()
                invariant
                    self.wf(),
                    i < self.adjacency.spec_len(),
                    self.adjacency@.contains_key(a),
                    *row == self.adjacency@[a],
                    row.wf(),
                    row.keys().no_duplicates(),
                    t == self.adjacency.keys().take(i + 1),
                    t.drop_last() == self.adjacency.keys().take(i as int),
                    self.adjacency.keys().len() == self.adjacency.spec_len(),
                    i < usize::MAX,
                    t.last() == a,
                    j <= row.spec_len(),
                    d.wf(),
                    d@.dom() == self.adjacency@.dom(),
                    forall|k: char| #[trigger] d@.contains_key(k) ==> d@[k] == links_to(self.adj(), t.drop_last(), k)
                        + if row.keys().take(j as int).contains(k) { 1nat } else { 0nat },
                    forall|k: char| #[trigger] d@.contains_key(k) ==> d@[k] <= i + 1,
                decreases row.spec_len() - j,
            {
                let b = row.key_at(j);
                assert(self.adj().contains_key(a));
                assert(self.adj()[a].contains_key(b));
                assert(self.adj().contains_key(b));
                assert(d@.contains_key(b));
                proof {
                    lemma_links_to_bound(self.adj(), t.drop_last(), b);
                }
                let ib = d.find(&b).unwrap();
                let c = *d.value_at(ib);
                proof {
                    assert(!row.keys().take(j as int).contains(b)) by {
                        if row.keys().take(j as int).contains(b) {
                            let q = row.keys().take(j as int).index_of(b);
                            assert(row.keys()[q] == row.keys()[j as int]);
                        }
                    }
                }
                proof {
                    assert(c == d@[b]);
                    assert(t.drop_last().len() == i);
                    assert(c <= i);
                }
                d.set_value_at(ib, c + 1);
                proof {
                    let tj = row.keys().take(j + 1);
                    assert forall|x: char| #[trigger] tj.contains(x) <==> (row.keys().take(j as int).contains(x) || x == b) by {
                        if x == b {
                            assert(tj[j as int] == b);
                        }
                        if row.keys().take(j as int).contains(x) {
                            let q = row.keys().take(j as int).index_of(x);
                            assert(tj[q] == x);
                        }
                        if tj.contains(x) {
                            let q = tj.index_of(x);
                            if q < j {
                                assert(row.keys().take(j as int)[q] == x);
                            }
                        }
                    }
                }
                j = j + 1;
            }
            proof {
                assert(row.keys().take(j as int) =~= row.keys());
                assert forall|k: char| #[trigger] d@.contains_key(k) implies d@[k] == links_to(self.adj(), t, k) by {
                    if has_link(self.adj(), a, k) {
                        row.lemma_key_in_keys(k);
                    }
                }
            }
            i = i + 1;
        }
        assert(self.adjacency.keys().take(i as int) =~= self.adjacency.keys());
        d
    }

    /// Returns the graph sequence: each node with its (outdegree, indegree), in increasing
    /// order of outdegree (and, for equal outdegrees, in increasing order of name).
    #[verifier::spinoff_prover]
    #[verifier::rlimit(40)]
    pub fn sequence(&self) -> (s: Vec<(char, (usize, usize))>)
        requires
            self.wf(),
        ensures
            s@.to_multiset() == self.degree_seq().to_multiset(),
            degrees_ordered(s@),
    {
        let d = self.indegrees();
        let mut s: Vec<(char, (usize, usize))> = Vec::new();
        let mut i: usize = 0;
        proof {
            self.adjacency.lemma_keys();
            broadcast use vstd::seq_lib::group_to_multiset_ensures;
            assert(self.degree_seq().take(0) =~= Seq::<(char, (usize, usize))>::empty());
            assert(s@ =~= Seq::<(char, (usize, usize))>::empty());
        }
        while i < self.adjacency.len()
            invariant
                self.wf(),
                i <= self.adjacency.spec_len(),
                d.wf(),
                d@.dom() == self.adjacency@.dom(),
                forall|k: char| #[trigger] d@.contains_key(k) ==> d@[k] == links_to(self.adj(), self.adjacency.keys(), k),
                s@.to_multiset() == self.degree_seq().take(i as int).to_multiset(),
                degrees_ordered(s@),
                forall|m: int| 0 <= m < s@.len() ==> exists|q: int| 0 <= q < i && (#[trigger] s@[m]).0 == self.adjacency.keys()[q],
            decreases self.adjacency.spec_len() - i,
        {
            let k = self.adjacency.key_at(i);
            let out = self.adjacency.value_at(i).len();
            let inn = *d.get(&k).unwrap();
            let e = (k, (out, inn));
            proof {
                assert(self.degree_seq()[i as int] == e);
            }
            let mut p: usize = 0;
            while p < s.len() && (s[p].1).0 <= out
                invariant
                    p <= s@.len(),
                    forall|m: int| 0 <= m < p ==> (#[trigger] s@[m]).1.0 <= out,
                decreases s@.len() - p,
            {
                p = p + 1;
            }
            let ghost before = s@;
            proof {
                assert forall|m: int| p <= m < before.len() implies (#[trigger] before[m]).1.0 > out by {
                    if p < before.len() {
                        assert(before[p as int].1.0 > out);
                        assert(degrees_ordered(before));
                        if m > p {
                            assert(before[p as int].1.0 < before[m].1.0 || before[p as int].1.0 == before[m].1.0);
                        }
                    }
                }
                assert forall|m: int| 0 <= m < before.len() implies ((#[trigger] before[m]).0 as u32) < (k as u32) by {
                    let q = choose|q: int| 0 <= q < i && before[m].0 == self.adjacency.keys()[q];
                    assert(self.adjacency.keys()[q].rank() < self.adjacency.keys()[i as int].rank());
                }
            }
            s.insert(p, e);
            proof {
                broadcast use vstd::seq_lib::group_to_multiset_ensures;
                broadcast use vstd::multiset::group_multiset_axioms;
                assert(self.degree_seq().take(i + 1) =~= self.degree_seq().take(i as int).push(e));
                assert(s@.remove(p as int) =~= before);
                assert(s@[p as int] == e);
                vstd::seq_lib::to_multiset_remove(s@, p as int);
                assert(s@.to_multiset().count(e) > 0) by {
                    assert(s@.contains(e));
                }
                assert(s@.to_multiset() =~= before.to_multiset().insert(e));
                assert forall|a: int, b: int| 0 <= a < b < s@.len() implies (#[trigger] s@[a]).1.0 < (#[trigger] s@[b]).1.0
                    || (s@[a].1.0 == s@[b].1.0 && (s@[a].0 as u32) < (s@[b].0 as u32)) by {
                    if a < p && b == p {
                    } else if a < p && b > p {
                        assert(s@[b] == before[b - 1]);
                    } else if a == p {
                        assert(s@[b] == before[b - 1]);
                    } else if a > p {
                        assert(s@[a] == before[a - 1]);
                        assert(s@[b] == before[b - 1]);
                    }
                }
                assert forall|m: int| 0 <= m < s@.len() implies exists|q: int| 0 <= q < i + 1 && (#[trigger] s@[m]).0 == self.adjacency.keys()[q] by {
                    if m < p {
                        assert(s@[m] == before[m]);
                    } else if m == p {
                        assert(s@[m].0 == self.adjacency.keys()[i as int]);
                    } else {
                        assert(s@[m] == before[m - 1]);
                    }
                }
            }
            i = i + 1;
        }
        assert(self.degree_seq().take(i as int) =~= self.degree_seq());
        s
    }
}


impl<E: LayoutEngine> Graph<E> {
    /// Whether the frozen positions of the nodes fit the coordinates of a configuration
    /// (`i16`), so that the graph can be described by a configuration and read back.
    pub closed spec fn describable(&self) -> bool {
        forall|k: char| #[trigger] self.adjacency@.contains_key(k) && self.node_state(k).center_freezed
            ==> -32768 <= self.node_state(k).center.x <= 32767 && -32768 <= self.node_state(k).center.y <= 32767
    }

    /// A new graph with the nodes (and their frozen positions) and the links of `self`, added
    /// as `from_str` adds those of the configuration of `self` (one animation step).
    pub fn copied(&self) -> (g: Self)
        requires
            self.wf(),
            self.describable(),
        ensures
            g.wf(),
            g.adj() == self.adj(),
            !g.is_paused(),
    {
        let mut g: Self = Graph::new();
        g.continue_ids(self);
        g.pause();
        let mut i: usize = 0;
        while i < self.adjacency.len()
            invariant
                self.wf(),
                self.describable(),
                g.wf(),
                g.is_paused(),
                i <= self.adjacency.spec_len(),
                forall|k: char| #[trigger] g.adj().contains_key(k) <==> self.adjacency.keys().take(i as int).contains(k),
                forall|k: char| #[trigger] g.adj().contains_key(k) ==> g.adj()[k] == Map::<char, i8>::empty(),
                g.picture().node_map()@.dom() == g.adj().dom(),
            decreases self.adjacency.spec_len() - i,
        {
            let k = self.adjacency.key_at(i);
            let (x, y, freezed) = self.node_position(k);
            let ghost t = self.adjacency.keys().take(i + 1);
            proof {
                assert forall|z: char| #[trigger] t.contains(z) <==> (self.adjacency.keys().take(i as int).contains(z) || z == k) by {
                    if z == k {
                        assert(t[i as int] == k);
                    }
                    if self.adjacency.keys().take(i as int).contains(z) {
                        let q = self.adjacency.keys().take(i as int).index_of(z);
                        assert(t[q] == z);
                    }
                    if t.contains(z) {
                        let q = t.index_of(z);
                        if q < i {
                            assert(self.adjacency.keys().take(i as int)[q] == z);
                        }
                    }
                }
                self.adjacency.lemma_keys();
                assert(!self.adjacency.keys().take(i as int).contains(k)) by {
                    if self.adjacency.keys().take(i as int).contains(k) {
                        let q = self.adjacency.keys().take(i as int).index_of(k);
                        assert(self.adjacency.keys()[q] == self.adjacency.keys()[i as int]);
                    }
                }
            }
            let xy = if freezed {
                Some((x as i16, y as i16))
            } else {
                None
            };
            g.add_node(k, xy);
            proof {
                assert(g.picture().node_map()@.dom() =~= g.adj().dom());
            }
            i = i + 1;
        }
        proof {
            assert(self.adjacency.keys().take(i as int) =~= self.adjacency.keys());
            assert forall|k: char| #[trigger] g.adj().contains_key(k) <==> self.adj().contains_key(k) by {
                if self.adj().contains_key(k) {
                    self.adjacency.lemma_key_in_keys(k);
                }
                if g.adj().contains_key(k) {
                    assert(self.adjacency.keys().contains(k));
                    let q = self.adjacency.keys().index_of(k);
                    self.adjacency.lemma_entry(q);
                }
            }
            assert(g.adj().dom() =~= self.adj().dom());
            assert forall|x: char, y: char| #[trigger] has_link(g.adj(), x, y) implies has_link(self.adj(), x, y)
                && g.adj()[x][y] == self.adj()[x][y] by {
                assert(g.adj()[x] == Map::<char, i8>::empty());
            }
        }
        let mut i: usize = 0;
        while i < self.adjacency.len()
            invariant
                self.wf(),
                g.wf(),
                g.is_paused(),
                i <= self.adjacency.spec_len(),
                g.adj().dom() == self.adj().dom(),
                sub_adjacency(g.adj(), self.adj()),
                forall|x: char, y: char| #[trigger] has_link(g.adj(), x, y) && has_link(self.adj(), y, x) ==> has_link(g.adj(), y, x),
                forall|ii: int, y: char| 0 <= ii < i && #[trigger] has_link(self.adj(), self.adjacency.keys()[ii], y)
                    ==> has_link(g.adj(), self.adjacency.keys()[ii], y),
                g.picture().node_map()@.dom() == g.adj().dom(),
            decreases self.adjacency.spec_len() - i,
        {
            let a = self.adjacency.key_at(i);
            let row = self.adjacency.value_at(i);
            let mut j: usize = 0;
            while j < row.len()
                invariant
                    self.wf(),
                    g.wf(),
                    g.is_paused(),
                    i < self.adjacency.spec_len(),
                    a == self.adjacency.keys()[i as int],
                    self.adjacency@.contains_key(a),
                    *row == self.adjacency@[a],
                    row.wf(),
                    j <= row.spec_len(),
                    g.adj().dom() == self.adj().dom(),
                    sub_adjacency(g.adj(), self.adj()),
                    forall|x: char, y: char| #[trigger] has_link(g.adj(), x, y) && has_link(self.adj(), y, x) ==> has_link(g.adj(), y, x),
                    forall|ii: int, y: char| 0 <= ii < i && #[trigger] has_link(self.adj(), self.adjacency.keys()[ii], y)
                        ==> has_link(g.adj(), self.adjacency.keys()[ii], y),
                    forall|jj: int| 0 <= jj < j ==> has_link(g.adj(), a, #[trigger] row.keys()[jj]),
                    g.picture().node_map()@.dom() == g.adj().dom(),
                decreases row.spec_len() - j,
            {
                let b = row.key_at(j);
                let v = *row.value_at(j);
                assert(self.adj().contains_key(a));
                assert(self.adj()[a].contains_key(b));
                assert(self.adj().contains_key(b));
                let back = self.row(b).contains_key(&a);
                let ghost before = g.adj();
                if !g.has_link(a, b) && !g.has_link(b, a) {
                    g.add_link(a, b, back, v);
                    proof {
                        assert(g.adj().dom() =~= self.adj().dom());
                        assert forall|x: char, y: char| #[trigger] has_link(g.adj(), x, y) implies has_link(self.adj(), x, y)
                            && g.adj()[x][y] == self.adj()[x][y] by {
                            if !((x == a && y == b) || (back && x == b && y == a)) {
                                assert(has_link(before, x, y));
                            }
                        }
                        assert forall|x: char, y: char| #[trigger] has_link(g.adj(), x, y) && has_link(self.adj(), y, x) implies has_link(g.adj(), y, x) by {
                            if !((x == a && y == b) || (back && x == b && y == a)) {
                                assert(has_link(before, x, y));
                            }
                        }
                    }
                } else {
                    proof {
                        if has_link(before, b, a) {
                            assert(has_link(self.adj(), a, b));
                        }
                    }
                }
                proof {
                    assert(g.picture().node_map()@.dom() =~= g.adj().dom());
                    assert forall|jj: int| 0 <= jj < j + 1 implies has_link(g.adj(), a, #[trigger] row.keys()[jj]) by {
                        if jj < j {
                            assert(has_link(before, a, row.keys()[jj]));
                        }
                    }
                    assert forall|ii: int, y: char| 0 <= ii < i && #[trigger] has_link(self.adj(), self.adjacency.keys()[ii], y)
                        implies has_link(g.adj(), self.adjacency.keys()[ii], y) by {
                        assert(has_link(before, self.adjacency.keys()[ii], y));
                    }
                }
                j = j + 1;
            }
            proof {
                assert forall|ii: int, y: char| 0 <= ii < i + 1 && #[trigger] has_link(self.adj(), self.adjacency.keys()[ii], y)
                    implies has_link(g.adj(), self.adjacency.keys()[ii], y) by {
                    if ii == i {
                        row.lemma_key_in_keys(y);
                        let jj = row.keys().index_of(y);
                        assert(row.keys()[jj] == y);
                    }
                }
            }
            i = i + 1;
        }
        proof {
            assert forall|x: char, y: char| #[trigger] has_link(self.adj(), x, y) implies has_link(g.adj(), x, y) by {
                self.adjacency.lemma_key_in_keys(x);
                let ii = self.adjacency.keys().index_of(x);
                assert(self.adjacency.keys()[ii] == x);
            }
            let ga = g.adj();
            assert forall|k: char| #[trigger] ga.contains_key(k) implies ga[k] =~= self.adj()[k] by {
                assert forall|y: char| #[trigger] ga[k].contains_key(y) <==> self.adj()[k].contains_key(y) by {
                    if ga[k].contains_key(y) {
                        assert(has_link(ga, k, y));
                    }
                    if self.adj()[k].contains_key(y) {
                        assert(has_link(self.adj(), k, y));
                    }
                }
                assert forall|y: char| #[trigger] ga[k].contains_key(y) implies ga[k][y] == self.adj()[k][y] by {
                    assert(has_link(ga, k, y));
                }
            }
            assert(ga =~= self.adj());
        }
        g.resume();
        g
    }
}


impl<E: LayoutEngine> Graph<E> {
    /// The links of a graph join two distinct nodes, and the two directions of a link that
    /// goes both ways have the same value.
    pub proof fn lemma_adjacency(&self)
        requires
            self.wf(),
        ensures
            adjacency_wf(self.adj()),
    {
    }
}


impl<E: LayoutEngine> Graph<E> {
    /// While the animation runs, no layout is pending and the picture shows the nodes of the
    /// graph only.
    pub proof fn lemma_running(&self)
        requires
            self.wf(),
            !self.is_paused(),
        ensures
            !self.layout_pending(),
            self.picture().node_map()@.dom() == self.adj().dom(),
            self.can_step(),
    {
        assert(self.adj().dom() =~= self.adjacency@.dom());
    }

    /// A change that keeps the looks of every node but `node` keeps where each other node of
    /// the graph stands.
    pub proof fn lemma_others_stay(&self, before: &Self, node: char)
        requires
            self.wf(),
            self.adj() == before.adj(),
            self.node_looks_kept(before, Some(node)),
        ensures
            forall|k: char| #[trigger] self.adj().contains_key(k) && k != node
                ==> self.node_state(k).center == before.node_state(k).center
                && self.node_state(k).center_freezed == before.node_state(k).center_freezed,
    {
        assert forall|k: char| #[trigger] self.adj().contains_key(k) && k != node
            implies self.node_state(k).center == before.node_state(k).center
            && self.node_state(k).center_freezed == before.node_state(k).center_freezed by {
            assert(self.adjacency@.contains_key(k));
            assert(live_node(self.renderer, k));
            assert(self.picture().node_map()@.contains_key(k));
        }
    }

    /// The nodes of the graph, as a set, are finite.
    /// The animation speed of a graph lies between a tenth and ten times the normal speed.
    pub proof fn lemma_speed_range(&self)
        requires
            self.wf(),
        ensures
            100 <= self.speed_permille() <= 10000,
    {
    }

    pub proof fn lemma_nodes_finite(&self)
        requires
            self.wf(),
        ensures
            self.adj().dom().finite(),
            self.adj().dom() == self.node_seq().to_set(),
            self.node_seq().no_duplicates(),
            self.node_seq().len() == self.adj().dom().len(),
    {
        self.adjacency.lemma_keys();
        assert(self.adj().dom() =~= self.node_seq().to_set());
        vstd::seq_lib::seq_to_set_is_finite(self.node_seq());
        self.node_seq().unique_seq_to_set();
    }
}

/// A sequence without duplicates whose elements are in `t` is no longer than `t`.
pub proof fn lemma_distinct_within<A>(s: Seq<A>, t: Seq<A>)
    requires
        s.no_duplicates(),
        forall|i: int| 0 <= i < s.len() ==> t.contains(#[trigger] s[i]),
    ensures
        s.len() <= t.len(),
{
    s.unique_seq_to_set();
    t.lemma_cardinality_of_set();
    vstd::seq_lib::seq_to_set_is_finite(t);
    assert forall|x: A| #[trigger] s.to_set().contains(x) implies t.to_set().contains(x) by {
        let i = s.index_of(x);
        assert(t.contains(s[i]));
    }
    vstd::set_lib::lemma_len_subset(s.to_set(), t.to_set());
}



/// The links of rows with distinct names: links of the adjacency that the rows hold, each
/// once, and every link of a row.
proof fn lemma_rows_links(rows: Seq<(char, KeyMap<char, i8>)>, adj: Adjacency)
    requires
        forall|i: int| 0 <= i < rows.len() ==> (#[trigger] rows[i]).1.wf(),
        forall|i: int| 0 <= i < rows.len() ==> adj.contains_key((#[trigger] rows[i]).0) && adj[rows[i].0] == rows[i].1@,
        forall|i: int, j: int| 0 <= i < j < rows.len() ==> (#[trigger] rows[i]).0 != (#[trigger] rows[j]).0,
    ensures
        forall|m: int| 0 <= m < links_of_rows(rows).len() ==> has_link(adj, (#[trigger] links_of_rows(rows)[m]).0, links_of_rows(rows)[m].1),
        forall|m: int| 0 <= m < links_of_rows(rows).len() ==> exists|i: int| 0 <= i < rows.len() && (#[trigger] rows[i]).0 == (#[trigger] links_of_rows(rows)[m]).0,
        forall|i: int, y: char| 0 <= i < rows.len() && #[trigger] rows[i].1@.contains_key(y) ==> links_of_rows(rows).contains((rows[i].0, y)),
        links_of_rows(rows).no_duplicates(),
    decreases rows.len(),
{
    if rows.len() > 0 {
        let r0 = rows.drop_last();
        assert forall|i: int| 0 <= i < r0.len() implies (#[trigger] r0[i]).1.wf() by {
            assert(r0[i] == rows[i]);
        }
        assert forall|i: int| 0 <= i < r0.len() implies adj.contains_key((#[trigger] r0[i]).0) && adj[r0[i].0] == r0[i].1@ by {
            assert(r0[i] == rows[i]);
        }
        assert forall|i: int, j: int| 0 <= i < j < r0.len() implies (#[trigger] r0[i]).0 != (#[trigger] r0[j]).0 by {
            assert(r0[i] == rows[i] && r0[j] == rows[j]);
        }
        lemma_rows_links(r0, adj);
        let last = rows.last();
        assert(rows[rows.len() - 1] == last);
        let a = last.0;
        let row = last.1;
        row.lemma_keys();
        let l0 = links_of_rows(r0);
        let rl = row.keys().map_values(|b: char| (a, b));
        let l = links_of_rows(rows);
        assert(l == l0 + rl);
        assert forall|m: int| 0 <= m < l.len() implies has_link(adj, (#[trigger] l[m]).0, l[m].1) by {
            if m < l0.len() {
                assert(l[m] == l0[m]);
            } else {
                let j = m - l0.len();
                assert(l[m] == rl[j]);
                assert(row.keys().contains(row.keys()[j]));
            }
        }
        assert forall|m: int| 0 <= m < l.len() implies exists|i: int| 0 <= i < rows.len() && (#[trigger] rows[i]).0 == (#[trigger] l[m]).0 by {
            if m < l0.len() {
                assert(l[m] == l0[m]);
                let i = choose|i: int| 0 <= i < r0.len() && (#[trigger] r0[i]).0 == (#[trigger] l0[m]).0;
                assert(rows[i] == r0[i]);
            } else {
                assert(l[m] == rl[m - l0.len()]);
                assert(rows[rows.len() - 1].0 == l[m].0);
            }
        }
        assert forall|i: int, y: char| 0 <= i < rows.len() && #[trigger] rows[i].1@.contains_key(y) implies l.contains((rows[i].0, y)) by {
            if i < r0.len() {
                assert(r0[i] == rows[i]);
                assert(r0[i].1@.contains_key(y));
                let m = l0.index_of((rows[i].0, y));
                assert(l[m] == l0[m]);
            } else {
                assert(row.keys().contains(y));
                let j = row.keys().index_of(y);
                assert(rl[j] == (a, y));
                assert(l[l0.len() + j] == rl[j]);
            }
        }
        assert forall|p: int, q: int| 0 <= p < q < l.len() implies l[p] != l[q] by {
            if q < l0.len() {
                assert(l[p] == l0[p] && l[q] == l0[q]);
            } else if p >= l0.len() {
                assert(l[p] == rl[p - l0.len()] && l[q] == rl[q - l0.len()]);
                assert(row.keys()[p - l0.len()] != row.keys()[q - l0.len()]);
            } else {
                assert(l[p] == l0[p]);
                let i = choose|i: int| 0 <= i < r0.len() && (#[trigger] r0[i]).0 == (#[trigger] l0[p]).0;
                assert(r0[i] == rows[i]);
                assert(rows[i].0 != rows[rows.len() - 1].0);
                assert(l[q] == rl[q - l0.len()]);
            }
        }
    }
}

impl<E: LayoutEngine> Graph<E> {
    /// The links of the graph, row after row: links of the graph, each once, and all of them.
    proof fn lemma_all_links(&self)
        requires
            self.wf(),
        ensures
            forall|m: int| 0 <= m < self.all_links().len() ==> has_link(self.adj(), (#[trigger] self.all_links()[m]).0, self.all_links()[m].1),
            forall|x: char, y: char| #[trigger] has_link(self.adj(), x, y) ==> self.all_links().contains((x, y)),
            self.all_links().no_duplicates(),
    {
        let rows = self.adjacency.pairs();
        self.adjacency.lemma_keys();
        assert forall|i: int| 0 <= i < rows.len() implies (#[trigger] rows[i]).1.wf() && self.adj().contains_key(rows[i].0)
            && self.adj()[rows[i].0] == rows[i].1@ by {
            self.adjacency.lemma_entry(i);
            assert(self.adjacency@[rows[i].0].wf());
        }
        assert forall|i: int, j: int| 0 <= i < j < rows.len() implies (#[trigger] rows[i]).0 != (#[trigger] rows[j]).0 by {
            self.adjacency.lemma_entry(i);
            self.adjacency.lemma_entry(j);
        }
        lemma_rows_links(rows, self.adj());
        assert forall|x: char, y: char| #[trigger] has_link(self.adj(), x, y) implies self.all_links().contains((x, y)) by {
            self.adjacency.lemma_key_in_keys(x);
            let i = self.adjacency.keys().index_of(x);
            assert(rows[i].0 == x);
            assert(rows[i].1@.contains_key(y));
        }
    }

    /// Reading back its configuration, a graph without nodes gets the nodes and the links of
    /// this graph, and each frozen node is placed, frozen, where it stands (when no node name
    /// is white space or a comma, and the frozen positions fit a configuration): `from_str`
    /// places each node so.
    pub proof fn law_config_read_back(&self)
        requires
            self.wf(),
            self.describable(),
            forall|k: char| #[trigger] self.adj().contains_key(k) ==> crate::config::plain(k),
        ensures
            config_applies(Map::empty(), self.config_text()),
            after_commands(Map::empty(), crate::config::commands_of(self.config_text())->Ok_0) == self.adj(),
            forall|n: char| #[trigger] self.adj().contains_key(n) && self.node_state(n).center_freezed ==> exists|j: int|
                0 <= j < (crate::config::commands_of(self.config_text())->Ok_0).len()
                && places((crate::config::commands_of(self.config_text())->Ok_0)[j], n,
                    (self.node_state(n).center.x as i16, self.node_state(n).center.y as i16)),
    {
        let adj = self.adj();
        let keys = self.adjacency.keys();
        let nodes = self.renderer.node_map()@;
        self.adjacency.lemma_keys();
        self.lemma_all_links();
        assert forall|i: int| 0 <= i < keys.len() implies crate::config::plain(#[trigger] keys[i]) by {
            assert(keys.contains(keys[i]));
            assert(self.adjacency@.contains_key(keys[i]));
            assert(adj.contains_key(keys[i]));
        }
        assert forall|i: int| 0 <= i < keys.len() && (#[trigger] nodes[keys[i]])@.center_freezed implies -32768 <= nodes[keys[i]]@.center.x <= 32767
            && -32768 <= nodes[keys[i]]@.center.y <= 32767 by {
            assert(keys.contains(keys[i]));
            assert(self.adjacency@.contains_key(keys[i]));
        }
        readback::lemma_read_nodes(keys, nodes);
        let ncs = readback::node_commands(keys, nodes);
        let links = self.all_links();
        assert forall|i: int| 0 <= i < links.len() implies crate::config::plain((#[trigger] links[i]).0) && crate::config::plain(links[i].1) by {
            assert(has_link(adj, links[i].0, links[i].1));
        }
        readback::lemma_read_links(nodes_config(keys, nodes), ncs, adj, links);
        let lcs = readback::link_commands(adj, links);
        assert(self.config_text() == nodes_config(keys, nodes) + links_config(adj, links));
        assert(crate::config::commands_of(self.config_text()) == Ok::<Seq<Command>, ConfigError>(ncs + lcs));
        readback::lemma_apply_nodes(keys, nodes);
        let base = Map::new(|k: char| keys.contains(k), |k: char| Map::<char, i8>::empty());
        assert(base.dom() =~= adj.dom());
        readback::lemma_apply_links(adj, base, links);
        readback::lemma_apply_concat(Map::empty(), ncs, lcs);
        let c = after_commands(base, lcs);
        assert forall|x: char, y: char| #[trigger] has_link(c, x, y) <==> has_link(adj, x, y) by {
            if has_link(adj, x, y) {
                assert(links.contains((x, y)));
                if !readback::emitted(adj, x, y) {
                    assert(links.contains((y, x)));
                }
            }
            if has_link(c, x, y) {
                assert(readback::covered(adj, links, x, y));
                if links.contains((x, y)) {
                    let m = links.index_of((x, y));
                    assert(has_link(adj, links[m].0, links[m].1));
                }
            }
        }
        assert forall|k: char| #[trigger] c.contains_key(k) implies c[k] =~= adj[k] by {
            assert forall|y: char| #[trigger] c[k].contains_key(y) <==> adj[k].contains_key(y) by {
                assert(has_link(c, k, y) <==> has_link(adj, k, y));
            }
            assert forall|y: char| #[trigger] c[k].contains_key(y) implies c[k][y] == adj[k][y] by {
                assert(has_link(c, k, y));
            }
        }
        assert(c =~= adj);
        assert forall|n: char| #[trigger] self.adj().contains_key(n) && self.node_state(n).center_freezed implies exists|j: int|
            0 <= j < (crate::config::commands_of(self.config_text())->Ok_0).len()
            && places((crate::config::commands_of(self.config_text())->Ok_0)[j], n,
                (self.node_state(n).center.x as i16, self.node_state(n).center.y as i16)) by {
            let q = keys.index_of(n);
            assert(self.adjacency@.contains_key(n));
            assert(keys[q] == n);
            readback::lemma_node_command_at(keys, nodes, q);
            assert((ncs + lcs)[q] == ncs[q]);
            let cx = self.node_state(n).center.x;
            let cy = self.node_state(n).center.y;
            assert(-32768 <= cx <= 32767);
            assert(-32768 <= cy <= 32767);
            assert(cx as i16 == (cx as int) as i16);
            assert(cy as i16 == (cy as int) as i16);
            assert(nodes[n]@ == self.node_state(n));
            let cmds = crate::config::commands_of(self.config_text())->Ok_0;
            assert(cmds == ncs + lcs);
            assert(cmds[q] == readback::node_line_command(n, self.node_state(n)));
            assert(places(cmds[q], n, (cx as i16, cy as i16)));
        }
    }
}

} // verus!
