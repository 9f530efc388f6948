use lib::algo::compare::Compare;
use lib::algo::connectivity::Connectivity;
use lib::algo::sequence::Sequence;
use lib::algo::transform::Transform;
use lib::algo::utils::color::Color;
use lib::config::{parse_config, Command, ConfigError};
use lib::graph::renderer::point::Point;
use lib::graph::renderer::LayoutEngine;
use lib::graph::Graph;
use lib::keymap::KeyMap;

/// Places the nodes that are not frozen on a line, 60 apart.
struct Line;

impl LayoutEngine for Line {
    fn create() -> Self {
        Line
    }

    fn arrange(
        &self,
        _node_radius: u8,
        _adjacency: &KeyMap<char, KeyMap<char, i8>>,
        nodes: &Vec<(char, Point, bool)>,
    ) -> Vec<Point> {
        let mut points = Vec::new();
        for (i, (_, center, freezed)) in nodes.iter().enumerate() {
            if *freezed {
                points.push(*center);
            } else {
                points.push(Point::new(60 * i as i32, 0));
            }
        }
        points
    }

    fn circle_point(&self, perimeter: u32, count: u32, index: u32) -> Point {
        let radius = perimeter as f64 / (2. * std::f64::consts::PI);
        let angle = 2. * std::f64::consts::PI / count as f64;
        let x = (radius * (index as f64 * angle).cos()) as i32;
        let y = (radius * (index as f64 * angle).sin()) as i32;
        Point::new(x, y)
    }
}

fn rows(graph: &Graph<Line>) -> Vec<(char, Vec<(char, i8)>)> {
    let m = graph.adjacency_list();
    let mut v = Vec::new();
    for k in m.keys_vec() {
        let row = m.get(&k).unwrap();
        let mut r = Vec::new();
        for n in row.keys_vec() {
            r.push((n, *row.get(&n).unwrap()));
        }
        v.push((k, r));
    }
    v
}

#[test]
fn it_works() {
    let config = "A
             B
             C
             A > B 1
             B - C 2";
    let mut graph: Graph<Line> = Graph::new();
    graph.from_str(config);

    graph.add_node('D', None);

    graph.add_link('C', 'D', true, 3);
    graph.add_link('D', 'A', false, 4);

    graph.swap_nodes('A', 'B');
    graph.swap_nodes('A', 'B');

    let color = (0, 196, 0);
    graph.color_node('A', color);
    graph.color_link('A', 'B', color);
    graph.color_node('B', color);
    graph.color_link('B', 'C', color);
    graph.color_node('C', color);
    graph.color_link('C', 'D', color);
    graph.color_node('D', color);
    graph.color_link('D', 'A', color);

    graph.sleep(1000);

    let timing_add = graph.duration();

    graph.pause();
    graph.add_node('E', None);
    graph.add_link('A', 'E', true, 5);
    graph.add_link('B', 'E', true, 6);
    graph.add_link('C', 'E', true, 7);
    graph.add_link('D', 'E', true, 8);
    graph.step(1000);
    graph.resume();

    graph.color_node('E', (0, 128, 0));
    graph.color_node('E', (128, 0, 0));

    let (x, y, _) = graph.node_position('E');
    graph.move_node('E', (x - 20, y - 20));
    graph.move_node('E', (x - 20, y + 20));
    graph.move_node('E', (x + 20, y + 20));
    graph.move_node('E', (x + 20, y - 20));
    graph.move_node('E', (x - 20, y - 20));
    graph.move_node('E', (x, y));

    let timing_delete = graph.duration();
    graph.delete_node('E');

    println!("nodes_list() -> {:?}", graph.nodes());

    for node in graph.nodes() {
        println!("node_node_neighbors({:?}) -> {:?}", &node, graph.neighbors(node));
    }

    let mut other_graph: Graph<Line> = Graph::new();
    other_graph.from_str(&graph.to_string());

    other_graph.pause();

    other_graph.step(timing_add - other_graph.duration());

    other_graph.add_node('E', None);
    other_graph.add_link('A', 'E', true, 5);
    other_graph.add_link('B', 'E', true, 6);
    other_graph.add_link('C', 'E', true, 8);
    other_graph.add_link('D', 'E', true, 9);

    other_graph.step(timing_delete - other_graph.duration());
    other_graph.resume();
    other_graph.delete_node('E');
    other_graph.sleep(2000);
    other_graph.fill_node('A', (128, 0, 0));
}

#[test]
fn from_str_adds_the_nodes_of_the_configuration() {
    let mut graph: Graph<Line> = Graph::new();
    graph.from_str("A, B, A - B 0");
    assert_eq!(graph.nodes(), vec!['A', 'B']);
    assert_eq!(graph.neighbors('A'), vec!['B']);
    assert_eq!(graph.neighbors('B'), vec!['A']);
}

#[test]
fn to_string_describes_nodes_then_links() {
    let mut graph: Graph<Line> = Graph::new();
    graph.from_str("A\nB\nC\nA > B 1\nB - C 2");
    assert_eq!(graph.to_string(), "A\nB\nC\nA > B 1\nB - C 2\n");
    graph.add_node('D', Some((10, -20)));
    graph.add_link('D', 'A', false, -7);
    assert_eq!(graph.to_string(), "A\nB\nC\nD 10 -20\nA > B 1\nB - C 2\nD > A -7\n");
}

#[test]
fn configuration_read_back_gives_the_same_links() {
    let mut graph: Graph<Line> = Graph::new();
    graph.from_str("A 5 5, B, C, D\nA - B 3, C > A -4, D < B 9, C - D 1");
    let mut other: Graph<Line> = Graph::new();
    other.from_str(&graph.to_string());
    assert_eq!(rows(&graph), rows(&other));
    assert_eq!(other.node_position('A'), (5, 5, true));
}

#[test]
fn parse_config_reads_every_form() {
    let cmds = parse_config("A, B 10 -20, C _ _\nA - B 5, A > C, C < B -3, B - C _").unwrap();
    assert_eq!(
        cmds,
        vec![
            Command::AddNode('A', None),
            Command::AddNode('B', Some((10, -20))),
            Command::AddNode('C', None),
            Command::AddLink('A', 'B', true, 5),
            Command::AddLink('A', 'C', false, 0),
            Command::AddLink('B', 'C', false, -3),
            Command::AddLink('B', 'C', true, 0),
        ]
    );
    assert_eq!(parse_config("  \n , ,").unwrap(), vec![]);
    assert_eq!(parse_config("A +7 -0").unwrap(), vec![Command::AddNode('A', Some((7, 0)))]);
}

#[test]
fn parse_config_reports_each_error() {
    assert_eq!(parse_config("A\nB\nA B C D"), Err(ConfigError::InvalidCommand(2)));
    assert_eq!(parse_config("A B"), Err(ConfigError::InvalidCommand(0)));
    assert_eq!(parse_config("AB"), Err(ConfigError::InvalidNodeName(0)));
    assert_eq!(parse_config("A - BC"), Err(ConfigError::InvalidNodeName(0)));
    assert_eq!(parse_config("A x 1"), Err(ConfigError::InvalidCoordinate(0)));
    assert_eq!(parse_config("A 40000 1"), Err(ConfigError::InvalidCoordinate(0)));
    assert_eq!(parse_config("A\nA - B 300"), Err(ConfigError::InvalidValue(1)));
    assert_eq!(parse_config("A - B -"), Err(ConfigError::InvalidValue(0)));
}

#[test]
fn config_applies_checks_the_commands() {
    let mut graph: Graph<Line> = Graph::new();
    graph.from_str("A, B");
    assert!(graph.config_applies("C, A - C"));
    assert!(!graph.config_applies("A"));
    assert!(!graph.config_applies("A - Z"));
    assert!(!graph.config_applies("A - A"));
    assert!(!graph.config_applies("A - B, B > A"));
    assert!(!graph.config_applies("A B C D"));
}

#[test]
fn durations_follow_the_speed() {
    let mut graph: Graph<Line> = Graph::new();
    assert_eq!(graph.duration(), 0);
    graph.add_node('A', None);
    // 300 ms for the addition, 1 ms when the animation resumes, 900 ms for the layout
    assert_eq!(graph.duration(), 1201);
    graph.set_speed_permille(2000);
    graph.add_node('B', None);
    assert_eq!(graph.duration(), 1201 + 150 + 1 + 450);
    graph.fill_node('A', (1, 2, 3));
    assert_eq!(graph.duration(), 1802 + 300 + 1);
    graph.set_speed_permille(20000);
    graph.fill_node('B', (1, 2, 3));
    // at the highest speed (10000 thousandths), 600 ms last 60 ms
    assert_eq!(graph.duration(), 2103 + 60 + 1);
    graph.sleep(1000);
    assert_eq!(graph.duration(), 3164);
}

#[test]
fn paused_changes_wait_for_a_step() {
    let mut graph: Graph<Line> = Graph::new();
    graph.pause();
    assert!(graph.paused());
    graph.add_node('A', None);
    graph.add_node('B', Some((3, 4)));
    graph.add_link('A', 'B', true, 1);
    assert_eq!(graph.duration(), 0);
    assert!(graph.step_ready());
    graph.step(1000);
    assert_eq!(graph.duration(), 1000);
    assert!(graph.paused());
    graph.resume();
    assert!(!graph.paused());
    assert_eq!(graph.duration(), 1001);
    assert_eq!(graph.node_position('B'), (3, 4, true));
}

#[test]
fn a_pending_deletion_blocks_a_pending_layout() {
    let mut graph: Graph<Line> = Graph::new();
    graph.from_str("A, B");
    graph.pause();
    graph.delete_node('B');
    assert!(!graph.step_ready());
}

#[test]
fn links_and_directed() {
    let mut graph: Graph<Line> = Graph::new();
    graph.from_str("A, B, C, A - B 1, B - C 2");
    assert!(!graph.directed());
    assert_eq!(graph.links(), vec![('A', 'B'), ('B', 'C')]);
    graph.add_link('C', 'A', false, 3);
    assert!(graph.directed());
    assert_eq!(graph.links(), vec![('A', 'B'), ('B', 'A'), ('B', 'C'), ('C', 'A'), ('C', 'B')]);
    assert!(graph.has_link('C', 'A'));
    assert!(!graph.has_link('A', 'C'));
    assert_eq!(graph.link_value('B', 'C'), Some(2));
    assert_eq!(graph.link_value('A', 'C'), None);
}

#[test]
fn adjacency_matrix_has_every_pair() {
    let mut graph: Graph<Line> = Graph::new();
    graph.from_str("A, B, A > B 4");
    let m = graph.adjacency_matrix();
    assert_eq!(m.keys_vec(), vec!['A', 'B']);
    let a = m.get(&'A').unwrap();
    assert_eq!(*a.get(&'A').unwrap(), None);
    assert_eq!(*a.get(&'B').unwrap(), Some(4));
    let b = m.get(&'B').unwrap();
    assert_eq!(*b.get(&'A').unwrap(), None);
}

#[test]
fn sequence_sorts_by_outdegree() {
    let mut graph: Graph<Line> = Graph::new();
    graph.from_str("A, B, C, D, A > B, B - C, D - A, D - C");
    assert_eq!(
        graph.sequence(),
        vec![('B', (1, 2)), ('A', (2, 1)), ('C', (2, 2)), ('D', (2, 2))]
    );
}

#[test]
fn swap_nodes_exchanges_their_links() {
    let mut graph: Graph<Line> = Graph::new();
    graph.from_str("A, B, C, A > B 1, B - C 2");
    let before = rows(&graph);
    graph.swap_nodes('A', 'B');
    assert_eq!(
        rows(&graph),
        vec![('A', vec![('C', 2)]), ('B', vec![('A', 1)]), ('C', vec![('A', 2)])]
    );
    graph.swap_nodes('A', 'B');
    assert_eq!(rows(&graph), before);
    graph.swap_nodes('C', 'C');
    assert_eq!(rows(&graph), before);
}

#[test]
fn swap_nodes_exchanges_their_positions() {
    let mut graph: Graph<Line> = Graph::new();
    graph.from_str("A 10 20, B 30 40, A - B 1");
    graph.swap_nodes('A', 'B');
    assert_eq!(graph.node_position('A'), (30, 40, true));
    assert_eq!(graph.node_position('B'), (10, 20, true));
}

#[test]
fn delete_link_undoes_add_link() {
    let mut graph: Graph<Line> = Graph::new();
    graph.from_str("A, B, C, A - B 1");
    let before = rows(&graph);
    graph.add_link('B', 'C', false, 2);
    assert!(graph.has_link('B', 'C'));
    graph.delete_link('B', 'C');
    assert_eq!(rows(&graph), before);
}

#[test]
fn delete_node_undoes_add_node() {
    let mut graph: Graph<Line> = Graph::new();
    graph.from_str("A, B, A - B 1");
    let before = rows(&graph);
    graph.add_node('Z', None);
    graph.add_link('Z', 'A', true, 3);
    graph.add_link('B', 'Z', false, 4);
    graph.delete_node('Z');
    assert_eq!(rows(&graph), before);
}

#[test]
fn colors_and_moves_change_the_picture() {
    let mut graph: Graph<Line> = Graph::new();
    graph.from_str("A, B, A - B 1");
    graph.move_node('A', (100, -50));
    assert_eq!(graph.node_position('A'), (100, -50, true));
    graph.unfreeze_node('A');
    let (_, _, freezed) = graph.node_position('A');
    assert!(!freezed);
    graph.fill_node('A', (1, 2, 3));
    graph.color_node('A', (4, 5, 6));
    graph.color_label('A', (7, 8, 9));
    graph.color_link('B', 'A', (10, 11, 12));
    graph.color_value('A', 'B', (13, 14, 15));
    let svg = graph.animation();
    assert!(svg.starts_with("\n<svg class=\"svg_dynalgo\""));
    assert!(svg.ends_with("</svg>"));
    assert!(svg.contains("rgb(1,2,3)"));
    assert_eq!(graph.node_radius(), 13);
}

#[test]
fn undirect_makes_links_go_both_ways() {
    let mut graph: Graph<Line> = Graph::new();
    graph.from_str("A, B, C, A > B 4, B - C 2");
    Transform::undirect(&mut graph);
    assert_eq!(
        rows(&graph),
        vec![('A', vec![('B', 4)]), ('B', vec![('A', 4), ('C', 2)]), ('C', vec![('B', 2)])]
    );
}

#[test]
fn transpose_turns_one_way_links() {
    let mut graph: Graph<Line> = Graph::new();
    graph.from_str("A, B, C, A > B 4, B - C 2");
    Transform::transpose(&mut graph);
    assert_eq!(
        rows(&graph),
        vec![('A', vec![]), ('B', vec![('A', 4), ('C', 2)]), ('C', vec![('B', 2)])]
    );
    Transform::transpose(&mut graph);
    assert_eq!(
        rows(&graph),
        vec![('A', vec![('B', 4)]), ('B', vec![('C', 2)]), ('C', vec![('B', 2)])]
    );
}

#[test]
fn components_share_out_the_nodes() {
    let mut graph: Graph<Line> = Graph::new();
    graph.from_str("A, B, C, D, A > B 1, C - D 2");
    let (cg, components) = Connectivity::components(&graph);
    assert_eq!(components, vec![vec!['C', 'D'], vec!['A', 'B']]);
    assert!(cg.has_link('B', 'A'));
}

#[test]
fn components_join_the_nodes_linked_through_others() {
    let mut graph: Graph<Line> = Graph::new();
    graph.from_str("A, B, C, D, E, A - B 1, C > B 1, D - E 2");
    let (_, components) = Connectivity::components(&graph);
    let mut sets: Vec<Vec<char>> = components
        .iter()
        .map(|c| {
            let mut c = c.clone();
            c.sort();
            c
        })
        .collect();
    sets.sort();
    assert_eq!(sets, vec![vec!['A', 'B', 'C'], vec!['D', 'E']]);
}

#[test]
fn strongly_connected_components_of_a_chain() {
    let mut graph: Graph<Line> = Graph::new();
    graph.from_str("A, B, C, A - B 1, B > C 2");
    let (cg, components) = Connectivity::strongly_connected_components(&graph);
    let mut all: Vec<char> = components.iter().flatten().cloned().collect();
    all.sort();
    assert_eq!(all, vec!['A', 'B', 'C']);
    assert_eq!(components.len(), 2);
    assert_eq!(rows(&cg), rows(&graph));
}

#[test]
fn sequences() {
    assert!(Sequence::is_valid(vec![1, 1, 2]));
    assert!(!Sequence::is_valid(vec![1, 1, 1]));
    assert!(!Sequence::is_valid(vec![2, 0, 0]));
    assert!(Sequence::is_valid(vec![3, 3, 3, 3]));
    assert!(!Sequence::is_valid(vec![3, 3, 1, 1]));
    assert!(Sequence::is_valid(vec![]));
    assert!(Sequence::is_valid(vec![0; 53]));
    assert!(Sequence::is_valid(vec![7; 8]));
    assert!(!Sequence::is_valid(vec![7; 7]));
    assert_eq!(Sequence::complete(5), vec![4, 4, 4, 4, 4]);
    assert_eq!(Sequence::complete(0), Vec::<usize>::new());
}

#[test]
fn algorithm_colors() {
    assert_eq!(Color::colors().len(), 7);
    assert_eq!(Color::colors()[1], (255, 127, 0));
    assert_eq!(Color::default(), (47, 79, 79));
    assert_eq!(Color::disabled(), (192, 192, 192));
}

#[test]
fn move_node_freezes_a_node_left_where_it_stands() {
    let mut graph: Graph<Line> = Graph::new();
    graph.from_str("A, B, A - B 1");
    let (x, y, frozen) = graph.node_position('A');
    assert!(!frozen);
    graph.move_node('A', (x, y));
    assert_eq!(graph.node_position('A'), (x, y, true));
}

#[test]
fn swap_nodes_moves_the_links_with_the_positions() {
    let mut graph: Graph<Line> = Graph::new();
    graph.from_str("A 10 20, B 30 40, C, A - C 1");
    graph.swap_nodes('A', 'B');
    assert_eq!(graph.node_position('A'), (30, 40, true));
    assert_eq!(graph.node_position('B'), (10, 20, true));
    assert!(graph.has_link('B', 'C'));
    assert!(!graph.has_link('A', 'C'));
}

#[test]
fn compare_equal_checks_the_values_when_asked() {
    let mut g1: Graph<Line> = Graph::new();
    g1.from_str("A, B, A > B 3");
    let mut g2: Graph<Line> = Graph::new();
    g2.from_str("A, B, A > B 4");
    assert!(Compare::equal(&g1, &g1, true));
    assert!(Compare::equal(&g1, &g2, false));
    assert!(!Compare::equal(&g1, &g2, true));
    let mut g3: Graph<Line> = Graph::new();
    g3.from_str("A, B, B > A 3");
    assert!(!Compare::equal(&g1, &g3, false));
}

#[test]
fn compare_equal_adj_renames_the_nodes() {
    let mut g1: Graph<Line> = Graph::new();
    g1.from_str("A, B, C, A > B 1, B - C 2");
    let mut g2: Graph<Line> = Graph::new();
    g2.from_str("X, Y, Z, X > Y 1, Y - Z 2");
    let mut bij = KeyMap::new();
    bij.insert('X', 'A');
    bij.insert('Y', 'B');
    bij.insert('Z', 'C');
    assert!(Compare::equal_adj(&g1.adjacency_list(), &g2.adjacency_list(), true, Some(&bij)));
    assert!(!Compare::equal_adj(&g1.adjacency_list(), &g2.adjacency_list(), true, None));
    let mut wrong = KeyMap::new();
    wrong.insert('X', 'B');
    wrong.insert('Y', 'A');
    wrong.insert('Z', 'C');
    assert!(!Compare::equal_adj(&g1.adjacency_list(), &g2.adjacency_list(), false, Some(&wrong)));
}

#[test]
fn components_accept_a_node_named_with_a_space() {
    let mut graph: Graph<Line> = Graph::new();
    graph.add_node(' ', None);
    graph.add_node('A', None);
    graph.add_node('B', None);
    graph.add_link(' ', 'A', false, 1);
    let (_, components) = Connectivity::components(&graph);
    assert_eq!(components.len(), 2);
    let mut all: Vec<char> = components.iter().flatten().cloned().collect();
    all.sort();
    assert_eq!(all, vec![' ', 'A', 'B']);
    let (_, strong) = Connectivity::strongly_connected_components(&graph);
    assert_eq!(strong.len(), 3);
}

#[test]
fn reading_back_keeps_the_frozen_positions() {
    let mut g: Graph<Line> = Graph::new();
    g.from_str("A 10 -20, B, A - B 3");
    g.move_node('B', (7, 8));
    let text = g.to_string();
    let mut h: Graph<Line> = Graph::new();
    h.from_str(&text);
    assert_eq!(h.node_position('A'), (10, -20, true));
    assert_eq!(h.node_position('B'), (7, 8, true));
    assert_eq!(h.adjacency_list().keys_vec(), g.adjacency_list().keys_vec());
}

#[test]
fn duration_adds_up_the_sleeps() {
    let mut graph: Graph<Line> = Graph::new();
    assert_eq!(graph.duration(), 0);
    graph.sleep(100);
    graph.sleep(250);
    assert_eq!(graph.duration(), 350);
}

#[test]
fn continue_ids_lets_two_graphs_share_a_page() {
    let mut g1: Graph<Line> = Graph::new();
    g1.from_str("A, B");
    let mut g2: Graph<Line> = Graph::new();
    g2.continue_ids(&g1);
    g2.from_str("A, B");
    let a1 = g1.animation();
    let a2 = g2.animation();
    assert!(a1.contains("\"A1\""));
    assert!(!a2.contains("\"A1\""));
    assert!(a2.contains("\"A3\""));
}
