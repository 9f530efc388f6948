use lib::algo::coloration::Coloration;
use lib::algo::eulerian::Eulerian;
use lib::algo::tree::Tree;
use lib::demo::colors::Colors;
use lib::demo::combination::Combination;
use lib::demo::names::Names;
use lib::demo::random::Random;
use lib::graph::renderer::point::Point;
use lib::graph::renderer::LayoutEngine;
use lib::graph::Graph;
use lib::keymap::KeyMap;

/// Places the nodes that are not frozen on a line, 60 apart, and the points of a circle by
/// trigonometry.
struct Row;

impl LayoutEngine for Row {
    fn create() -> Self {
        Row
    }

    fn arrange(
        &self,
        _node_radius: u8,
        _adjacency: &KeyMap<char, KeyMap<char, i8>>,
        nodes: &Vec<(char, Point, bool)>,
    ) -> Vec<Point> {
        let mut points = Vec::new();
        for (i, (_, center, freezed)) in nodes.iter().enumerate() {
            if *freezed {
                points.push(*center);
            } else {
                points.push(Point::new(60 * i as i32, 0));
            }
        }
        points
    }

    fn circle_point(&self, perimeter: u32, count: u32, index: u32) -> Point {
        let radius = perimeter as f64 / (2. * std::f64::consts::PI);
        let angle = 2. * std::f64::consts::PI / count as f64;
        let x = (radius * (index as f64 * angle).cos()) as i32;
        let y = (radius * (index as f64 * angle).sin()) as i32;
        Point::new(x, y)
    }
}

fn graph(config: &str) -> Graph<Row> {
    let mut g: Graph<Row> = Graph::new();
    g.from_str(config);
    g
}

fn rows(graph: &Graph<Row>) -> Vec<(char, Vec<(char, i8)>)> {
    let m = graph.adjacency_list();
    let mut v = Vec::new();
    for k in m.keys_vec() {
        let row = m.get(&k).unwrap();
        let mut r = Vec::new();
        for n in row.keys_vec() {
            r.push((n, *row.get(&n).unwrap()));
        }
        v.push((k, r));
    }
    v
}

#[test]
fn bfs_tree_deletes_the_links_to_waiting_nodes() {
    let g = graph("A, B, C, D, A - B 1, B - C 1, C - A 1, C - D 1");
    let tree = Tree::bfs_tree(&g, 'A');
    assert_eq!(
        rows(&tree),
        vec![
            ('A', vec![('B', 1), ('C', 1)]),
            ('B', vec![('A', 1)]),
            ('C', vec![('A', 1), ('D', 1)]),
            ('D', vec![('C', 1)]),
        ]
    );
}

#[test]
fn layout_as_tree_keeps_every_link() {
    let g = graph("A, B, C, D, A > B 1, B - C 1, C - A 1, C - D 1");
    let tree = Tree::layout_as_tree(&g, 'A');
    assert_eq!(
        rows(&tree),
        vec![
            ('A', vec![('B', 1), ('C', 1)]),
            ('B', vec![('A', 1), ('C', 0)]),
            ('C', vec![('A', 1), ('B', 0), ('D', 1)]),
            ('D', vec![('C', 1)]),
        ]
    );
    let (xa, ya, _) = tree.node_position('A');
    let (_, yb, _) = tree.node_position('B');
    let (_, yd, _) = tree.node_position('D');
    assert_eq!(yb, ya + 60);
    assert_eq!(yd, ya + 120);
    let (xc, _, _) = tree.node_position('C');
    assert_eq!(xa, (tree.node_position('B').0 + xc) / 2);
}

#[test]
fn minimal_spanning_tree_takes_the_cheapest_links() {
    let g = graph("A, B, C, A - B 1, B - C 2, A - C 3");
    let tree = Tree::minimal_spanning_tree(&g);
    assert_eq!(
        rows(&tree),
        vec![('A', vec![('B', 1)]), ('B', vec![('A', 1), ('C', 2)]), ('C', vec![('B', 2)])]
    );
}

#[test]
fn hierholzer_closes_a_cycle() {
    let g = graph("A, B, C, A - B 1, B - C 1, C - A 1");
    let (eg, path) = Eulerian::hierholzer(&g);
    assert_eq!(path, vec!['A', 'B', 'C', 'A']);
    assert_eq!(rows(&eg), rows(&g));
}

#[test]
fn hierholzer_follows_a_directed_cycle() {
    let g = graph("A, B, C, A > B 1, B > C 1, C > A 1");
    let (_, path) = Eulerian::hierholzer(&g);
    assert_eq!(path, vec!['A', 'B', 'C', 'A']);
}

#[test]
fn hierholzer_finds_a_path_between_the_odd_nodes() {
    let g = graph("A, B, C, B - A 1, A - C 1");
    let (eg, path) = Eulerian::hierholzer(&g);
    assert_eq!(path, vec!['C', 'A', 'B']);
    assert_eq!(rows(&eg), rows(&g));
}

#[test]
fn hierholzer_finds_nothing_with_four_odd_nodes() {
    let g = graph("A, B, C, D, E, A - B 1, A - C 1, A - D 1, A - E 1");
    let (eg, path) = Eulerian::hierholzer(&g);
    assert!(path.is_empty());
    assert_eq!(rows(&eg), rows(&g));
}

#[test]
fn quick_partition_of_a_triangle() {
    let g = graph("A, B, C, A - B 1, B - C 1, C - A 1");
    let (cg, partitions) = Coloration::quick_partition(&g);
    assert_eq!(partitions, vec![vec!['A'], vec!['B'], vec!['C']]);
    assert_eq!(rows(&cg), rows(&g));
}

#[test]
fn quick_partition_of_a_square() {
    let g = graph("A, B, C, D, A - B 1, B - C 1, C - D 1, D - A 1");
    let (_, partitions) = Coloration::quick_partition(&g);
    assert_eq!(partitions, vec![vec!['A', 'C'], vec!['B', 'D']]);
}

#[test]
fn quick_partition_takes_the_leaves_away() {
    let g = graph("A, B, C, A - B 1, B - C 1");
    let (_, partitions) = Coloration::quick_partition(&g);
    assert_eq!(partitions, vec![vec!['B'], vec!['C', 'A']]);
}

#[test]
fn quick_partition_puts_a_leaf_back_beside_its_neighbor() {
    let g = graph("A, B, C, D, A - B 1, B - C 1, C - A 1, C - D 1");
    let (cg, partitions) = Coloration::quick_partition(&g);
    assert_eq!(partitions, vec![vec!['A', 'D'], vec!['B'], vec!['C']]);
    assert_eq!(rows(&cg), rows(&g));
}

#[test]
fn emoticon_gives_the_first_names() {
    assert_eq!(Names::emoticon(3), Ok(vec!['😀', '😁', '😂']));
    let all = Names::emoticon(304).unwrap();
    assert_eq!(all.len(), 304);
    assert_eq!(all[79], '🙏');
    assert_eq!(all[80], '🤠');
    assert_eq!(all[303], '🧿');
    assert_eq!(Names::emoticon(0), Ok(vec![]));
}

#[test]
fn emoticon_refuses_too_many_names() {
    assert_eq!(
        Names::emoticon(305),
        Err("The number of emoticon names requested is too high (max 304)".to_string())
    );
}

#[test]
fn combine_arranges_the_elements() {
    let r = Combination::combine(vec![(vec!['a', 'b'], 1, 2)]);
    assert_eq!(r, vec![vec!['a'], vec!['a', 'b'], vec!['b'], vec!['b', 'a']]);
}

#[test]
fn combine_concatenates_one_arrangement_of_each_list() {
    let r = Combination::combine(vec![(vec!['x', 'y'], 1, 1), (vec!['1', '2'], 1, 1)]);
    assert_eq!(
        r,
        vec![vec!['x', '1'], vec!['y', '1'], vec!['x', '2'], vec!['y', '2']]
    );
    let empty: Vec<(Vec<char>, usize, usize)> = Vec::new();
    assert_eq!(Combination::combine(empty), vec![Vec::<char>::new()]);
    assert_eq!(Combination::combine(vec![(vec!['a'], 0, 1)]), vec![vec![], vec!['a']]);
}

#[test]
fn poor_random_from_takes_the_remainder() {
    assert_eq!(Random::poor_random_from(1234, 10), 4);
    assert_eq!(Random::poor_random_from(999_999_999, 1), 0);
}

#[test]
fn palette_mixes_the_levels_then_shuffles() {
    assert_eq!(Colors::palette(1, &vec![]), vec![(255, 255, 255)]);
    let p = Colors::palette(2, &vec![0; 7]);
    assert_eq!(
        p,
        vec![
            (127, 127, 254),
            (127, 127, 127),
            (127, 254, 127),
            (127, 254, 254),
            (254, 127, 127),
            (254, 127, 254),
            (254, 254, 127),
            (254, 254, 254),
        ]
    );
    let q = Colors::palette(2, &vec![6, 0, 0, 0, 0, 0, 0]);
    assert_eq!(q[0], (254, 254, 254));
    assert_eq!(q[1], (127, 127, 254));
    assert_eq!(q[7], (127, 127, 127));
}

/// The steps of a walk, each as (from, to).
fn steps_of(path: &[char]) -> Vec<(char, char)> {
    path.windows(2).map(|w| (w[0], w[1])).collect()
}

#[test]
fn hierholzer_takes_each_directed_link_once() {
    let g = graph("A, B, C, D, E, A > B 1, B > C 1, C > A 1, A > D 1, D > E 1, E > A 1");
    let (_, path) = Eulerian::hierholzer(&g);
    assert_eq!(path.first(), path.last());
    let mut steps = steps_of(&path);
    steps.sort();
    let expected = vec![('A', 'B'), ('A', 'D'), ('B', 'C'), ('C', 'A'), ('D', 'E'), ('E', 'A')];
    assert_eq!(steps, expected);
}

#[test]
fn hierholzer_takes_each_undirected_link_once() {
    let g = graph("A, B, C, D, E, A - B 1, B - C 1, C - A 1, C - D 1, D - E 1, E - C 1");
    let (_, path) = Eulerian::hierholzer(&g);
    assert_eq!(path.len(), 7);
    assert_eq!(path.first(), path.last());
    let mut links: Vec<(char, char)> = steps_of(&path)
        .into_iter()
        .map(|(a, b)| if a < b { (a, b) } else { (b, a) })
        .collect();
    links.sort();
    let expected = vec![('A', 'B'), ('A', 'C'), ('B', 'C'), ('C', 'D'), ('C', 'E'), ('D', 'E')];
    assert_eq!(links, expected);
}

#[test]
fn bfs_tree_keeps_one_link_less_than_nodes() {
    let g = graph("A, B, C, D, E, A - B 1, A - C 1, B - C 1, B - D 1, C - D 1, D - E 1, C > E 1");
    let tree = Tree::bfs_tree(&g, 'A');
    let links: usize = rows(&tree).iter().map(|(_, r)| r.len()).sum();
    assert_eq!(links, 2 * 4);
    assert_eq!(rows(&tree).len(), 5);
}

#[test]
fn quick_partition_puts_no_node_twice() {
    let g = graph(
        "A, B, C, D, E, F, G, H, A - B 1, B - C 1, C - D 1, D - A 1, A - C 1, D - E 1, E - F 1, F - G 1, G - H 1",
    );
    let (_, partitions) = Coloration::quick_partition(&g);
    let mut all: Vec<char> = partitions.iter().flatten().cloned().collect();
    let before = all.len();
    all.sort();
    all.dedup();
    assert_eq!(all.len(), before);
    assert!(partitions.iter().all(|p| !p.is_empty()));
}

#[test]
fn bfs_tree_reaches_each_node_by_a_shortest_path() {
    let g = graph("A, B, C, D, E, A - B 1, B - C 1, C - D 1, D - E 1, E - A 1");
    let tree = Tree::bfs_tree(&g, 'A');
    assert_eq!(
        rows(&tree),
        vec![
            ('A', vec![('B', 1), ('E', 1)]),
            ('B', vec![('A', 1), ('C', 1)]),
            ('C', vec![('B', 1)]),
            ('D', vec![('E', 1)]),
            ('E', vec![('A', 1), ('D', 1)]),
        ]
    );
}

#[test]
fn quick_partition_covers_the_nodes_with_unlinked_parts() {
    let g = graph(
        "0, 1, 2, 3, 4, 5, 6, 7, 8, 0 - 2 1, 0 - 3 1, 0 - 4 1, 0 - 6 1, 1 - 8 1, 1 - 5 1, 1 - 6 1, 2 - 8 1, 2 - 4 1, 2 - 6 1, 3 - 8 1, 3 - 4 1, 3 - 5 1, 4 - 5 1, 4 - 6 1, 5 - 8 1, 6 - 7 1",
    );
    let (_, partitions) = Coloration::quick_partition(&g);
    let mut all: Vec<char> = partitions.iter().flatten().cloned().collect();
    all.sort();
    assert_eq!(all, vec!['0', '1', '2', '3', '4', '5', '6', '7', '8']);
    for part in &partitions {
        for &a in part {
            for &b in part {
                assert!(!g.has_link(a, b));
            }
        }
    }
}

#[test]
fn hierholzer_finds_a_path_between_two_linked_odd_nodes() {
    let g = graph("A, B, C, D, A - B 1, B - C 1, C - A 1, A - D 1");
    let (eg, path) = Eulerian::hierholzer(&g);
    assert_eq!(path.len(), 5);
    let ends = (path[0], path[4]);
    assert!(ends == ('A', 'D') || ends == ('D', 'A'));
    let mut links: Vec<(char, char)> = steps_of(&path)
        .into_iter()
        .map(|(a, b)| if a < b { (a, b) } else { (b, a) })
        .collect();
    links.sort();
    assert_eq!(links, vec![('A', 'B'), ('A', 'C'), ('A', 'D'), ('B', 'C')]);
    assert_eq!(rows(&eg), rows(&g));
}

#[test]
fn hierholzer_finds_a_directed_path_from_the_node_with_more_links_out() {
    let g = graph("A, B, C, A > B 1, B > C 1, C > A 1, A > C 1");
    let (eg, path) = Eulerian::hierholzer(&g);
    assert_eq!(path.first(), Some(&'A'));
    assert_eq!(path.last(), Some(&'C'));
    let mut steps = steps_of(&path);
    steps.sort();
    assert_eq!(steps, vec![('A', 'B'), ('A', 'C'), ('B', 'C'), ('C', 'A')]);
    assert_eq!(rows(&eg), rows(&g));
}

#[test]
fn combine_takes_each_element_at_most_once() {
    let r = Combination::combine(vec![(vec!['a', 'b', 'c'], 2, 3)]);
    assert_eq!(r.len(), 12);
    for s in &r {
        assert!(s.len() >= 2 && s.len() <= 3);
        for a in 0..s.len() {
            for b in a + 1..s.len() {
                assert!(s[a] != s[b]);
            }
        }
    }
}
