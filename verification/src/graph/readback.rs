//! Reading a configuration back: the commands of the lines that describe a graph.
use vstd::prelude::*;
use crate::config::{
    commands_of, lemma_commands_line, lemma_empty_piece, lemma_link_line, lemma_node_line, lemma_placed_node_line,
    plain, split_at_char, Command, ConfigError,
};
use crate::graph::renderer::node::{Node, NodeState};
use crate::graph::{
    adjacency_wf, after_command, after_commands, command_applies, commands_apply, has_link, links_config, node_config_line,
    nodes_config, with_pair, Adjacency,
};
use crate::text::dec_int;

verus! {

/// Whether the configuration line of the link from `a` to `b` is written: always, but for a
/// link that goes both ways, which is written once, from the lower name.
pub open spec fn emitted(adj: Adjacency, a: char, b: char) -> bool {
    !(has_link(adj, b, a) && (a as u32) > (b as u32))
}

/// The commands of the configuration lines of the links `links` of `adj`, in order.
pub open spec fn link_commands(adj: Adjacency, links: Seq<(char, char)>) -> Seq<Command>
    decreases links.len(),
{
    if links.len() == 0 {
        Seq::empty()
    } else {
        let a = links.last().0;
        let b = links.last().1;
        let rest = link_commands(adj, links.drop_last());
        if emitted(adj, a, b) {
            rest.push(Command::AddLink(a, b, has_link(adj, b, a), adj[a][b]))
        } else {
            rest
        }
    }
}

/// Whether the lines of the links `links` of `adj` give a link from `x` to `y`.
pub open spec fn covered(adj: Adjacency, links: Seq<(char, char)>, x: char, y: char) -> bool {
    ||| links.contains((x, y)) && emitted(adj, x, y)
    ||| links.contains((y, x)) && emitted(adj, y, x) && has_link(adj, x, y)
}

/// The commands `c1` then `c2` apply when `c1` applies and `c2` applies after it, and lead
/// where `c2` leads after `c1`.
pub proof fn lemma_apply_concat(adj: Adjacency, c1: Seq<Command>, c2: Seq<Command>)
    ensures
        commands_apply(adj, c1 + c2) == (commands_apply(adj, c1) && commands_apply(after_commands(adj, c1), c2)),
        after_commands(adj, c1 + c2) == after_commands(after_commands(adj, c1), c2),
    decreases c2.len(),
{
    if c2.len() == 0 {
        assert(c1 + c2 =~= c1);
    } else {
        lemma_apply_concat(adj, c1, c2.drop_last());
        assert((c1 + c2).drop_last() =~= c1 + c2.drop_last());
        assert((c1 + c2).last() == c2.last());
    }
}

/// Applying the lines of the links `links` of `adj` to the nodes alone gives the links that
/// they cover, with the values of `adj`.
pub proof fn lemma_apply_links(adj: Adjacency, base: Adjacency, links: Seq<(char, char)>)
    requires
        adjacency_wf(adj),
        base.dom() == adj.dom(),
        forall|k: char| #[trigger] base.contains_key(k) ==> base[k] == Map::<char, i8>::empty(),
        forall|i: int| 0 <= i < links.len() ==> has_link(adj, (#[trigger] links[i]).0, links[i].1),
        links.no_duplicates(),
    ensures
        commands_apply(base, link_commands(adj, links)),
        after_commands(base, link_commands(adj, links)).dom() == adj.dom(),
        forall|x: char, y: char| #[trigger] has_link(after_commands(base, link_commands(adj, links)), x, y)
            <==> covered(adj, links, x, y),
        forall|x: char, y: char| #[trigger] has_link(after_commands(base, link_commands(adj, links)), x, y)
            ==> after_commands(base, link_commands(adj, links))[x][y] == adj[x][y],
    decreases links.len(),
{
    if links.len() == 0 {
        assert forall|x: char, y: char| !covered(adj, links, x, y) by {}
    } else {
        let l0 = links.drop_last();
        let (a, b) = links.last();
        assert(links[links.len() - 1] == (a, b));
        assert forall|i: int| 0 <= i < l0.len() implies has_link(adj, (#[trigger] l0[i]).0, l0[i].1) by {
            assert(l0[i] == links[i]);
        }
        assert(l0.no_duplicates()) by {
            assert forall|i: int, j: int| 0 <= i < j < l0.len() implies l0[i] != l0[j] by {
                assert(l0[i] == links[i] && l0[j] == links[j]);
            }
        }
        lemma_apply_links(adj, base, l0);
        let c0 = link_commands(adj, l0);
        let prev = after_commands(base, c0);
        assert(has_link(adj, a, b));
        assert(!l0.contains((a, b))) by {
            if l0.contains((a, b)) {
                let i = l0.index_of((a, b));
                assert(links[i] == links[links.len() - 1]);
            }
        }
        assert(links =~= l0.push((a, b)));
        if emitted(adj, a, b) {
            lemma_apply_link_step(adj, base, l0, a, b);
        } else {
            assert(link_commands(adj, links) == c0);
            lemma_push_contains(l0, a, b);
            assert forall|x: char, y: char| #[trigger] has_link(prev, x, y) <==> covered(adj, links, x, y) by {
                assert(links.contains((x, y)) == (l0.contains((x, y)) || (x == a && y == b)));
                assert(links.contains((y, x)) == (l0.contains((y, x)) || (y == a && x == b)));
            }
        }
    }
}



/// A link appended to a list: the list holds what it held, and that link.
proof fn lemma_push_contains(l0: Seq<(char, char)>, a: char, b: char)
    ensures
        forall|x: char, y: char| #[trigger] l0.push((a, b)).contains((x, y)) <==> l0.contains((x, y)) || (x == a && y == b),
{
    let l = l0.push((a, b));
    assert forall|x: char, y: char| #[trigger] l.contains((x, y)) <==> l0.contains((x, y)) || (x == a && y == b) by {
        if l.contains((x, y)) {
            let i = l.index_of((x, y));
            if i < l0.len() {
                assert(l0[i] == l[i]);
            }
        }
        if l0.contains((x, y)) {
            let i = l0.index_of((x, y));
            assert(l[i] == l0[i]);
        }
        if x == a && y == b {
            assert(l[l0.len() as int] == (a, b));
        }
    }
}

/// The line of a link that is written, after those of the links before it.
proof fn lemma_apply_link_step(adj: Adjacency, base: Adjacency, l0: Seq<(char, char)>, a: char, b: char)
    requires
        adjacency_wf(adj),
        emitted(adj, a, b),
        has_link(adj, a, b),
        !l0.contains((a, b)),
        forall|i: int| 0 <= i < l0.len() ==> has_link(adj, (#[trigger] l0[i]).0, l0[i].1),
        commands_apply(base, link_commands(adj, l0)),
        forall|x: char, y: char| #[trigger] has_link(after_commands(base, link_commands(adj, l0)), x, y)
            <==> covered(adj, l0, x, y),
        forall|x: char, y: char| #[trigger] has_link(after_commands(base, link_commands(adj, l0)), x, y)
            ==> after_commands(base, link_commands(adj, l0))[x][y] == adj[x][y],
        after_commands(base, link_commands(adj, l0)).dom() == adj.dom(),
    ensures
        commands_apply(base, link_commands(adj, l0.push((a, b)))),
        after_commands(base, link_commands(adj, l0.push((a, b)))).dom() == adj.dom(),
        forall|x: char, y: char| #[trigger] has_link(after_commands(base, link_commands(adj, l0.push((a, b)))), x, y)
            <==> covered(adj, l0.push((a, b)), x, y),
        forall|x: char, y: char| #[trigger] has_link(after_commands(base, link_commands(adj, l0.push((a, b)))), x, y)
            ==> after_commands(base, link_commands(adj, l0.push((a, b))))[x][y] == adj[x][y],
{
    let links = l0.push((a, b));
    assert(links.drop_last() =~= l0);
    assert(links.last() == (a, b));
    let back = has_link(adj, b, a);
    let cmd = Command::AddLink(a, b, back, adj[a][b]);
    let c0 = link_commands(adj, l0);
    let prev = after_commands(base, c0);
    assert(link_commands(adj, links) == c0.push(cmd));
    assert(c0.push(cmd).drop_last() =~= c0);
    assert(a != b);
    assert(!has_link(prev, a, b)) by {
        if has_link(prev, a, b) {
            assert(covered(adj, l0, a, b));
            if l0.contains((b, a)) {
                let i = l0.index_of((b, a));
                assert(has_link(adj, l0[i].0, l0[i].1));
            }
        }
    }
    assert(!has_link(prev, b, a)) by {
        if has_link(prev, b, a) {
            assert(covered(adj, l0, b, a));
            if l0.contains((b, a)) {
                let i = l0.index_of((b, a));
                assert(has_link(adj, l0[i].0, l0[i].1));
            }
        }
    }
    assert(command_applies(prev, cmd));
    let next = with_pair(prev, a, b, back, adj[a][b]);
    assert(after_commands(base, link_commands(adj, links)) == next);
    lemma_push_contains(l0, a, b);
    assert forall|x: char, y: char| #[trigger] has_link(next, x, y) <==> covered(adj, links, x, y) by {
        if (x == a && y == b) || (back && x == b && y == a) {
        } else {
            assert(has_link(next, x, y) == has_link(prev, x, y));
            assert(links.contains((x, y)) == l0.contains((x, y)));
            if x == b && y == a {
                assert(!has_link(adj, x, y));
            } else {
                assert(links.contains((y, x)) == l0.contains((y, x)));
            }
        }
    }
    assert forall|x: char, y: char| #[trigger] has_link(next, x, y) implies next[x][y] == adj[x][y] by {
        if x == a && y == b {
        } else if back && x == b && y == a {
            assert(adj[b][a] == adj[a][b]);
        } else {
            assert(has_link(prev, x, y));
        }
    }
}


/// The command of the configuration line of node `n` in the state `st`.
pub open spec fn node_line_command(n: char, st: NodeState) -> Command {
    if st.center_freezed {
        Command::AddNode(n, Some(((st.center.x as int) as i16, (st.center.y as int) as i16)))
    } else {
        Command::AddNode(n, None)
    }
}

/// The commands of the configuration lines of the nodes `keys`, in the states of `nodes`.
pub open spec fn node_commands(keys: Seq<char>, nodes: Map<char, Node>) -> Seq<Command>
    decreases keys.len(),
{
    if keys.len() == 0 {
        Seq::empty()
    } else {
        node_commands(keys.drop_last(), nodes).push(node_line_command(keys.last(), nodes[keys.last()]@))
    }
}

/// The command of node `keys[i]` is at position `i`.
pub proof fn lemma_node_command_at(keys: Seq<char>, nodes: Map<char, Node>, i: int)
    requires
        0 <= i < keys.len(),
    ensures
        node_commands(keys, nodes).len() == keys.len(),
        node_commands(keys, nodes)[i] == node_line_command(keys[i], nodes[keys[i]]@),
    decreases keys.len(),
{
    lemma_node_commands_len(keys, nodes);
    if i < keys.len() - 1 {
        lemma_node_command_at(keys.drop_last(), nodes, i);
    }
}

/// There is one command per node.
pub proof fn lemma_node_commands_len(keys: Seq<char>, nodes: Map<char, Node>)
    ensures
        node_commands(keys, nodes).len() == keys.len(),
    decreases keys.len(),
{
    if keys.len() > 0 {
        lemma_node_commands_len(keys.drop_last(), nodes);
    }
}

/// The empty text holds no command, and its last piece is empty.
pub proof fn lemma_read_nothing()
    ensures
        commands_of(Seq::<char>::empty()) == Ok::<Seq<Command>, ConfigError>(Seq::empty()),
        split_at_char(Seq::<char>::empty(), '\n').last() == Seq::<char>::empty(),
{
    let e = Seq::<char>::empty();
    assert(split_at_char(e, '\n') == seq![e]);
    assert(seq![e].drop_last() =~= Seq::<Seq<char>>::empty());
    assert(seq![e].last() == e);
    lemma_empty_piece(0);
    assert(crate::config::commands_of_lines(Seq::<Seq<char>>::empty()) == Ok::<Seq<Command>, ConfigError>(Seq::empty()));
    assert(Seq::<Command>::empty() + Seq::<Command>::empty() =~= Seq::<Command>::empty());
    assert(crate::config::commands_of_lines(seq![e]) == Ok::<Seq<Command>, ConfigError>(Seq::empty()));
}

/// The configuration lines of the nodes read as their commands.
pub proof fn lemma_read_nodes(keys: Seq<char>, nodes: Map<char, Node>)
    requires
        forall|i: int| 0 <= i < keys.len() ==> plain(#[trigger] keys[i]),
        forall|i: int| 0 <= i < keys.len() && (#[trigger] nodes[keys[i]])@.center_freezed ==> -32768 <= nodes[keys[i]]@.center.x <= 32767
            && -32768 <= nodes[keys[i]]@.center.y <= 32767,
    ensures
        commands_of(nodes_config(keys, nodes)) == Ok::<Seq<Command>, ConfigError>(node_commands(keys, nodes)),
        split_at_char(nodes_config(keys, nodes), '\n').last() == Seq::<char>::empty(),
    decreases keys.len(),
{
    if keys.len() == 0 {
        lemma_read_nothing();
        assert(nodes_config(keys, nodes) == Seq::<char>::empty());
    } else {
        let k0 = keys.drop_last();
        assert forall|i: int| 0 <= i < k0.len() implies plain(#[trigger] k0[i]) by {
            assert(k0[i] == keys[i]);
        }
        assert forall|i: int| 0 <= i < k0.len() && (#[trigger] nodes[k0[i]])@.center_freezed implies -32768 <= nodes[k0[i]]@.center.x <= 32767
            && -32768 <= nodes[k0[i]]@.center.y <= 32767 by {
            assert(k0[i] == keys[i]);
        }
        lemma_read_nodes(k0, nodes);
        let n = keys.last();
        assert(keys[keys.len() - 1] == n);
        let st = nodes[n]@;
        let prev = nodes_config(k0, nodes);
        let cmd = node_line_command(n, st);
        if st.center_freezed {
            let x = st.center.x as int;
            let y = st.center.y as int;
            let line = seq![n, ' '] + dec_int(x) + seq![' '] + dec_int(y);
            assert forall|k: nat| #[trigger] crate::config::commands_of_line(split_at_char(line, ','), k) == Ok::<Seq<Command>, ConfigError>(seq![cmd]) by {
                lemma_placed_node_line(n, x, y, k);
            }
            lemma_placed_node_line(n, x, y, 0);
            lemma_commands_line(prev, line, node_commands(k0, nodes), seq![cmd]);
            assert(node_config_line(n, st) =~= line + seq!['\n']);
            assert(nodes_config(keys, nodes) =~= prev + line + seq!['\n']);
        } else {
            let line = seq![n];
            assert forall|k: nat| #[trigger] crate::config::commands_of_line(split_at_char(line, ','), k) == Ok::<Seq<Command>, ConfigError>(seq![cmd]) by {
                lemma_node_line(n, k);
            }
            lemma_node_line(n, 0);
            lemma_commands_line(prev, line, node_commands(k0, nodes), seq![cmd]);
            assert(node_config_line(n, st) =~= line + seq!['\n']);
            assert(nodes_config(keys, nodes) =~= prev + line + seq!['\n']);
        }
        assert(node_commands(keys, nodes) =~= node_commands(k0, nodes) + seq![cmd]);
    }
}

/// The configuration lines of the links read as their commands.
pub proof fn lemma_read_links(prefix: Seq<char>, cs: Seq<Command>, adj: Adjacency, links: Seq<(char, char)>)
    requires
        commands_of(prefix) == Ok::<Seq<Command>, ConfigError>(cs),
        split_at_char(prefix, '\n').last() == Seq::<char>::empty(),
        forall|i: int| 0 <= i < links.len() ==> plain((#[trigger] links[i]).0) && plain(links[i].1),
    ensures
        commands_of(prefix + links_config(adj, links)) == Ok::<Seq<Command>, ConfigError>(cs + link_commands(adj, links)),
        split_at_char(prefix + links_config(adj, links), '\n').last() == Seq::<char>::empty(),
    decreases links.len(),
{
    if links.len() == 0 {
        assert(prefix + links_config(adj, links) =~= prefix);
        assert(cs + link_commands(adj, links) =~= cs);
    } else {
        let l0 = links.drop_last();
        assert forall|i: int| 0 <= i < l0.len() implies plain((#[trigger] l0[i]).0) && plain(l0[i].1) by {
            assert(l0[i] == links[i]);
        }
        lemma_read_links(prefix, cs, adj, l0);
        let t = links.last();
        assert(links[links.len() - 1] == t);
        assert(links =~= l0.push((t.0, t.1)));
        lemma_read_link_step(prefix, cs, adj, l0, t.0, t.1);
    }
}

/// The configuration line of one more link reads as its command.
proof fn lemma_read_link_step(prefix: Seq<char>, cs: Seq<Command>, adj: Adjacency, l0: Seq<(char, char)>, a: char, b: char)
    requires
        commands_of(prefix + links_config(adj, l0)) == Ok::<Seq<Command>, ConfigError>(cs + link_commands(adj, l0)),
        split_at_char(prefix + links_config(adj, l0), '\n').last() == Seq::<char>::empty(),
        plain(a),
        plain(b),
    ensures
        commands_of(prefix + links_config(adj, l0.push((a, b)))) == Ok::<Seq<Command>, ConfigError>(cs + link_commands(adj, l0.push((a, b)))),
        split_at_char(prefix + links_config(adj, l0.push((a, b))), '\n').last() == Seq::<char>::empty(),
{
    let links = l0.push((a, b));
    assert(links.drop_last() =~= l0);
    assert(links.last() == (a, b));
    let back = has_link(adj, b, a);
    let rest = prefix + links_config(adj, l0);
    let c0 = cs + link_commands(adj, l0);
    if emitted(adj, a, b) {
        let v = adj[a][b] as int;
        let line = seq![a, ' ', if back { '-' } else { '>' }, ' ', b, ' '] + dec_int(v);
        let cmd = Command::AddLink(a, b, back, adj[a][b]);
        assert forall|k: nat| #[trigger] crate::config::commands_of_line(split_at_char(line, ','), k) == Ok::<Seq<Command>, ConfigError>(seq![cmd]) by {
            lemma_link_line(a, b, back, v, k);
        }
        lemma_link_line(a, b, back, v, 0);
        lemma_commands_line(rest, line, c0, seq![cmd]);
        assert(links_config(adj, links) =~= links_config(adj, l0) + line + seq!['\n']);
        assert(prefix + links_config(adj, links) =~= rest + line + seq!['\n']);
        assert(link_commands(adj, links) == link_commands(adj, l0).push(cmd));
        assert(cs + link_commands(adj, links) =~= c0 + seq![cmd]);
    } else {
        assert(links_config(adj, links) == links_config(adj, l0));
        assert(prefix + links_config(adj, links) =~= rest);
        assert(link_commands(adj, links) == link_commands(adj, l0));
        assert(cs + link_commands(adj, links) =~= c0);
    }
}

/// Adding the nodes `keys`, in order, to a graph without nodes gives them, without links.
pub proof fn lemma_apply_nodes(keys: Seq<char>, nodes: Map<char, Node>)
    requires
        keys.no_duplicates(),
    ensures
        commands_apply(Map::empty(), node_commands(keys, nodes)),
        after_commands(Map::empty(), node_commands(keys, nodes))
            == Map::new(|k: char| keys.contains(k), |k: char| Map::<char, i8>::empty()),
    decreases keys.len(),
{
    let target = Map::new(|k: char| keys.contains(k), |k: char| Map::<char, i8>::empty());
    if keys.len() == 0 {
        assert(target =~= Map::<char, Map<char, i8>>::empty());
    } else {
        let k0 = keys.drop_last();
        assert(k0.no_duplicates()) by {
            assert forall|i: int, j: int| 0 <= i < j < k0.len() implies k0[i] != k0[j] by {
                assert(k0[i] == keys[i] && k0[j] == keys[j]);
            }
        }
        lemma_apply_nodes(k0, nodes);
        let n = keys.last();
        assert(keys[keys.len() - 1] == n);
        let cs = node_commands(keys, nodes);
        assert(cs.drop_last() =~= node_commands(k0, nodes));
        assert(!k0.contains(n)) by {
            if k0.contains(n) {
                let i = k0.index_of(n);
                assert(keys[i] == n);
            }
        }
        assert forall|k: char| keys.contains(k) <==> k0.contains(k) || k == n by {
            if keys.contains(k) {
                let i = keys.index_of(k);
                if i < k0.len() {
                    assert(k0[i] == keys[i]);
                }
            }
            if k0.contains(k) {
                let i = k0.index_of(k);
                assert(keys[i] == k0[i]);
            }
        }
        let prev = after_commands(Map::<char, Map<char, i8>>::empty(), node_commands(k0, nodes));
        assert(prev.insert(n, Map::<char, i8>::empty()) =~= target);
    }
}


} // verus!
