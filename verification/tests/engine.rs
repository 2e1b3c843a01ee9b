use hashlife::node::{Node, NodeId, QuadChildren};
use hashlife::rule::Rule;
use hashlife::World;

const R_PENTOMINO: u16 = 0b_0000_0011_0110_0010;

fn check_leaf(world: &World, leaf: u16, expected: u16) {
    let result = world.step_leaf(leaf);
    assert_eq!(result, expected);
}

fn check_level_3(
    world: &World,
    nw: u16,
    ne: u16,
    sw: u16,
    se: u16,
    expected1: u16,
    expected2: u16,
) {
    let result1 = world.step_quad_leaf(nw, ne, sw, se, false);
    assert_eq!(result1, Node::Leaf(expected1));
    let result2 = world.step_quad_leaf(nw, ne, sw, se, true);
    assert_eq!(result2, Node::Leaf(expected2));
}

fn leaf_vectors(world: &World) {
    check_leaf(world, 0b_0000_0000_0000_0000, 0b_00_00_00);
    check_leaf(world, 0b_0101_1000_1010_0111, 0b_01_00_01);
    check_leaf(world, 0b_1011_1110_0000_1101, 0b_01_00_00);
    check_leaf(world, 0b_0111_0011_1010_0000, 0b_00_00_11);
    check_leaf(world, 0b_0000_0110_1000_1100, 0b_10_00_01);
}

fn level_3_vectors(world: &World) {
    check_level_3(
        world,
        0b_0000_0000_0000_0000,
        0b_0000_0000_0000_0000,
        0b_0000_0000_0000_0000,
        0b_0000_0000_0000_0000,
        0b_0000_0000_0000_0000,
        0b_0000_0000_0000_0000,
    );
    check_level_3(
        world,
        0b_0101_1000_1010_0111,
        0b_1011_1110_0000_1101,
        0b_0111_0011_1010_0000,
        0b_0000_0110_1000_1100,
        0b_1000_0010_0000_0001,
        0b_0001_0000_0000_0000,
    );
    check_level_3(
        world,
        0b_0010_0001_0101_0100,
        0b_0001_0010_0101_1000,
        0b_1001_1000_1011_1011,
        0b_0101_0110_0111_1101,
        0b_0101_0101_0001_1100,
        0b_0100_0001_0100_1100,
    );
}

#[test]
fn evolve_test_leaf() {
    let world = World::default();
    leaf_vectors(&world);
}

#[test]
fn life_test_leaf() {
    let world = World::new_with_step("B3/S23".parse().unwrap(), 0);
    leaf_vectors(&world);
}

#[test]
fn evolve_test_level_3() {
    let world = World::default();
    level_3_vectors(&world);
}

#[test]
fn life_test_level_3() {
    let world = World::new_with_step("B3/S23".parse().unwrap(), 0);
    level_3_vectors(&world);
}

#[test]
fn evolve_test_step_1() {
    let mut world = World::default();
    world.root = Node::Leaf(R_PENTOMINO);
    assert_eq!(world.population(), 5);
    let populations = [6, 7, 9, 8, 9, 12, 11, 18];
    for &n in populations.iter() {
        world.step();
        assert_eq!(world.population(), n);
    }
}

#[test]
fn life_test_step_1() {
    let mut world = World::new_with_step("B3/S23".parse().unwrap(), 0);
    world.root = Node::Leaf(R_PENTOMINO);
    let populations = [5, 6, 7, 9, 8, 9, 12, 11, 18];
    for &n in populations.iter() {
        assert_eq!(world.population(), n);
        world.step();
    }
}

#[test]
fn evolve_test_step_256() {
    let mut world = World::default();
    world.set_step(8);
    world.root = Node::Leaf(R_PENTOMINO);
    assert_eq!(world.population(), 5);
    let populations = [141, 188, 204, 162, 116, 116, 116, 116];
    for &n in populations.iter() {
        world.step();
        assert_eq!(world.population(), n);
    }
}

#[test]
fn life_test_step_256() {
    let mut world = World::new_with_step("B3/S23".parse().unwrap(), 8);
    world.root = Node::Leaf(R_PENTOMINO);
    let populations = [5, 141, 188, 204, 162, 116, 116, 116, 116];
    for &n in populations.iter() {
        assert_eq!(world.population(), n);
        world.step();
    }
}

fn get_cell_scenario(mut world: World) {
    world.root = Node::Leaf(R_PENTOMINO);
    assert_eq!(world.get_cell(-10, -10), false);
    assert_eq!(world.get_cell(-2, -2), false);
    assert_eq!(world.get_cell(-1, 0), true);
    assert_eq!(world.get_cell(0, 1), true);
    world.step();
    assert_eq!(world.get_cell(0, 0), false);
    assert_eq!(world.get_cell(-29, -17), true);
    assert_eq!(world.get_cell(21, -6), true);
}

#[test]
fn life_test_get_cell() {
    get_cell_scenario(World::new_with_step("B3/S23".parse().unwrap(), 8));
}

#[test]
fn world_test_get_cell() {
    let mut world = World::default();
    world.set_step(8);
    get_cell_scenario(world);
}

fn set_cell_scenario(mut world: World) {
    let cells = vec![(0, -1), (1, -1), (-1, 0), (0, 0), (0, 1)];
    for (x, y) in cells {
        world.set_cell(x, y, true);
    }
    assert_eq!(world.root, Node::Leaf(R_PENTOMINO));
    world.step();
    assert_eq!(world.population(), 141);
    world.set_cell(18, 8, false);
    assert_eq!(world.population(), 140);
    world.step();
    assert_eq!(world.population(), 97);
}

#[test]
fn life_test_set_cell() {
    set_cell_scenario(World::new_with_step("B3/S23".parse().unwrap(), 8));
}

#[test]
fn world_test_set_cell() {
    let mut world = World::default();
    world.set_step(8);
    set_cell_scenario(world);
}

#[test]
fn test_set_step() {
    let mut world = World::default();
    world.root = Node::Leaf(R_PENTOMINO);
    assert_eq!(world.population(), 5);
    assert_eq!(world.get_generation(), 0);
    let populations = [6, 7, 9, 8, 9, 12, 11, 18];
    for &n in populations.iter() {
        world.step();
        assert_eq!(world.population(), n);
    }
    assert_eq!(world.get_generation(), 8);
    world.set_step(3);
    let populations = [23, 46, 32, 33, 45, 66, 69, 65];
    for &n in populations.iter() {
        world.step();
        assert_eq!(world.population(), n);
    }
    assert_eq!(world.get_generation(), 72);
    world.set_step(0);
    let populations = [70, 71, 73, 65, 69, 77, 75, 67];
    for &n in populations.iter() {
        world.step();
        assert_eq!(world.population(), n);
    }
    assert_eq!(world.get_generation(), 80);
}

#[test]
fn test_gc() {
    let mut world = World::default();
    world.set_step(8);
    world.root = Node::Leaf(R_PENTOMINO);
    assert_eq!(world.population(), 5);
    let populations = [141, 188, 204, 162, 116, 116, 116, 116];
    for &n in populations.iter() {
        world.step();
        world.garbage_collect();
        assert_eq!(world.population(), n);
    }
}

#[test]
fn gc_removes_unreachable_nodes_and_keeps_the_rest() {
    let mut world = World::default();
    world.set_step(4);
    world.root = Node::Leaf(R_PENTOMINO);
    for _ in 0..4 {
        world.step();
    }
    let before = world.node_data.len();
    let population = world.population();
    let generation = world.get_generation();
    world.garbage_collect();
    let after = world.node_data.len();
    assert!(after < before);
    assert!(after > 0);
    assert_eq!(world.population(), population);
    assert_eq!(world.get_generation(), generation);
    assert_eq!(world.hash_table.len(), after);
    // collecting again removes nothing more
    world.garbage_collect();
    assert_eq!(world.node_data.len(), after);
    // and the world goes on as without a collection
    let mut other = World::default();
    other.set_step(4);
    other.root = Node::Leaf(R_PENTOMINO);
    for _ in 0..6 {
        other.step();
    }
    world.step();
    world.step();
    assert_eq!(world.population(), other.population());
}

#[test]
fn check_gc_collects_at_the_threshold() {
    let mut world = World::default();
    world.set_step(4);
    world.root = Node::Leaf(R_PENTOMINO);
    world.step();
    let before = world.node_data.len();
    world.check_gc();
    assert_eq!(world.node_data.len(), before);
    world.gc_threshold = 1;
    world.check_gc();
    assert!(world.node_data.len() < before);
}

#[test]
fn find_node_is_canonical() {
    let mut world = World::default();
    let a = world.find_node(Node::Leaf(1), Node::Leaf(2), Node::Leaf(3), Node::Leaf(4));
    let b = world.find_node(Node::Leaf(1), Node::Leaf(2), Node::Leaf(3), Node::Leaf(5));
    let c = world.find_node(Node::Leaf(1), Node::Leaf(2), Node::Leaf(3), Node::Leaf(4));
    assert_eq!(a, c);
    assert_ne!(a, b);
    assert_eq!(world.node_data.len(), 2);
    let data = world.index(a);
    assert_eq!(data.level, 3);
    assert_eq!(data.population, 1 + 1 + 2 + 1);
    assert_eq!(data.nw(), Node::Leaf(1));
    assert_eq!(data.ne(), Node::Leaf(2));
    assert_eq!(data.sw(), Node::Leaf(3));
    assert_eq!(data.se(), Node::Leaf(4));
    let up = world.find_node(Node::NodeId(a), Node::NodeId(b), Node::NodeId(a), Node::NodeId(a));
    let data = world.index(up);
    assert_eq!(data.level, 4);
    assert_eq!(data.population, 5 + 6 + 5 + 5);
    assert_eq!(data.children, QuadChildren::new(
        Node::NodeId(a),
        Node::NodeId(b),
        Node::NodeId(a),
        Node::NodeId(a),
    ));
}

#[test]
fn quad_children_give_back_their_parts() {
    let leaves = QuadChildren::new(Node::Leaf(1), Node::Leaf(2), Node::Leaf(3), Node::Leaf(4));
    assert_eq!(leaves.nw(), Node::Leaf(1));
    assert_eq!(leaves.ne(), Node::Leaf(2));
    assert_eq!(leaves.sw(), Node::Leaf(3));
    assert_eq!(leaves.se(), Node::Leaf(4));
    assert_eq!(leaves.key(), (true, 1, 2, 3, 4));
    let nodes = QuadChildren::new(
        Node::NodeId(NodeId(5)),
        Node::NodeId(NodeId(6)),
        Node::NodeId(NodeId(7)),
        Node::NodeId(NodeId(8)),
    );
    assert_eq!(nodes.nw(), Node::NodeId(NodeId(5)));
    assert_eq!(nodes.ne(), Node::NodeId(NodeId(6)));
    assert_eq!(nodes.sw(), Node::NodeId(NodeId(7)));
    assert_eq!(nodes.se(), Node::NodeId(NodeId(8)));
    assert_eq!(nodes.key(), (false, 5, 6, 7, 8));
}

#[test]
fn empty_nodes_have_no_cells() {
    let mut world = World::default();
    assert_eq!(world.empty_node(2), Node::Leaf(0));
    let e5 = world.empty_node(5);
    assert_eq!(world.node_level(e5), 5);
    assert_eq!(world.node_population(e5), 0);
    assert_eq!(world.empty_node(5), e5);
    assert_eq!(world.empty_nodes.len(), 4);
    let e3 = world.empty_node(3);
    assert_eq!(world.node_level(e3), 3);
}

#[test]
fn expand_keeps_the_cells() {
    let mut world = World::default();
    world.root = Node::Leaf(R_PENTOMINO);
    assert!(world.should_expand());
    world.expand();
    assert_eq!(world.node_level(world.root), 3);
    assert_eq!(world.population(), 5);
    assert!(world.should_expand());
    world.expand();
    assert_eq!(world.node_level(world.root), 4);
    assert!(!world.should_expand());
    for y in -8..8 {
        for x in -8..8 {
            let expected = matches!((x, y), (0, -1) | (1, -1) | (-1, 0) | (0, 0) | (0, 1));
            assert_eq!(world.get_cell(x, y), expected, "cell {} {}", x, y);
        }
    }
}

#[test]
fn fit_root_gives_margin_for_the_step() {
    let mut world = World::default();
    world.set_step(6);
    world.set_cell(3, -5, true);
    assert!(world.check_step());
    world.fit_root();
    assert!(world.node_level(world.root) >= 8);
    assert!(!world.should_expand());
    assert_eq!(world.population(), 1);
    assert!(world.get_cell(3, -5));
}

#[test]
fn set_cell_far_away_grows_the_root() {
    let mut world = World::default();
    world.set_cell(1000, -700, true);
    world.set_cell(-3, 2, true);
    assert_eq!(world.population(), 2);
    assert!(world.get_cell(1000, -700));
    assert!(world.get_cell(-3, 2));
    assert!(!world.get_cell(1000, -701));
    assert_eq!(world.node_level(world.root), 11);
    world.set_cell(1000, -700, false);
    assert_eq!(world.population(), 1);
    assert!(!world.get_cell(1000, -700));
    // setting a cell to the state that it has changes nothing
    world.set_cell(-3, 2, true);
    assert_eq!(world.population(), 1);
}

#[test]
fn step_advances_the_generation_by_the_stride() {
    let mut world = World::default();
    world.root = Node::Leaf(R_PENTOMINO);
    world.set_generation(100);
    world.set_step(5);
    assert_eq!(world.get_step(), 5);
    world.step();
    assert_eq!(world.get_generation(), 132);
    world.set_step(0);
    world.step();
    assert_eq!(world.get_generation(), 133);
}

#[test]
fn small_steps_and_a_large_step_agree() {
    let mut small = World::default();
    small.root = Node::Leaf(R_PENTOMINO);
    for _ in 0..64 {
        small.step();
    }
    let mut large = World::default();
    large.root = Node::Leaf(R_PENTOMINO);
    large.set_step(6);
    large.step();
    assert_eq!(small.get_generation(), large.get_generation());
    assert_eq!(small.population(), large.population());
    for y in -40..40 {
        for x in -40..40 {
            assert_eq!(small.get_cell(x, y), large.get_cell(x, y));
        }
    }
}

#[test]
fn check_step_refuses_what_step_cannot_do() {
    let mut world = World::default();
    assert!(world.check_step());
    world.set_step(29);
    assert!(world.check_step());
    world.set_step(30);
    assert!(!world.check_step());
    world.set_step(0);
    world.set_generation(u64::MAX);
    assert!(!world.check_step());
}

#[test]
fn clear_empties_the_world() {
    let mut world = World::default();
    world.set_step(3);
    world.root = Node::Leaf(R_PENTOMINO);
    world.step();
    assert!(world.node_data.len() > 0);
    world.clear(false);
    assert_eq!(world.population(), 0);
    assert_eq!(world.get_generation(), 0);
    assert_eq!(world.get_step(), 3);
    assert!(world.node_data.len() > 0);
    assert!(world.node_data.iter().all(|(_, data)| data.cache_step.is_none()));
    world.clear(true);
    assert_eq!(world.node_data.len(), 0);
    assert_eq!(world.hash_table.len(), 0);
    assert_eq!(world.empty_nodes.len(), 0);
    world.root = Node::Leaf(R_PENTOMINO);
    world.step();
    assert_eq!(world.population(), 18);
    assert_eq!(world.get_generation(), 8);
}

#[test]
fn set_step_keeps_the_results_of_maximal_steps() {
    let mut world = World::default();
    world.set_step(4);
    world.root = Node::Leaf(R_PENTOMINO);
    world.step();
    assert!(world.node_data.iter().any(|(_, data)| data.cache_step.is_some()));
    let max_before = world.node_data.iter().filter(|(_, d)| d.cache_step_max.is_some()).count();
    assert!(max_before > 0);
    world.set_step(2);
    assert!(world.node_data.iter().all(|(_, data)| data.cache_step.is_none()));
    let max_after = world.node_data.iter().filter(|(_, d)| d.cache_step_max.is_some()).count();
    assert_eq!(max_before, max_after);
}

#[test]
fn central_node_is_the_inner_half() {
    let mut world = World::default();
    let id = world.find_node(
        Node::Leaf(0x58A7),
        Node::Leaf(0xBE0D),
        Node::Leaf(0x73A0),
        Node::Leaf(0x068C),
    );
    let expected = (0x58A7 & 0x0033) << 10
        | (0xBE0D & 0x00cc) << 6
        | (0x73A0 & 0x3300) >> 6
        | (0x068C & 0xcc00) >> 10;
    assert_eq!(world.central_node(id), Node::Leaf(expected));
    world.root = Node::NodeId(id);
    world.expand();
    let root = match world.root {
        Node::NodeId(id) => id,
        Node::Leaf(_) => unreachable!(),
    };
    assert_eq!(world.central_node(root), Node::NodeId(id));
}

#[test]
fn a_rule_that_is_not_life() {
    // B2/S: "seeds"
    let rule = Rule::parse_rule("B2/S").unwrap();
    let mut world = World::new(rule);
    world.set_cell(0, 0, true);
    world.set_cell(1, 0, true);
    world.step();
    assert_eq!(world.population(), 4);
    assert!(!world.get_cell(0, 0));
    assert!(world.get_cell(0, -1));
    assert!(world.get_cell(1, -1));
    assert!(world.get_cell(0, 1));
    assert!(world.get_cell(1, 1));
}

#[test]
fn setters_can_be_chained() {
    let mut world = World::default();
    world
        .set_step(2)
        .set_generation(10)
        .set_cell(0, 0, true)
        .set_cell(1, 0, true)
        .set_cell(0, 1, true)
        .set_cell(1, 1, true);
    assert_eq!(world.population(), 4);
    world.step();
    assert_eq!(world.get_generation(), 14);
    assert_eq!(world.population(), 4);
}

#[test]
fn a_step_as_large_as_the_root_allows_sees_the_inner_half_only() {
    // Under B1/S a single cell has, two generations later, four cells at
    // the corners of a square of side 5.
    let mut small = World::new(Rule::parse_rule("B1/S").unwrap());
    small.set_cell(0, 0, true);
    small.step();
    assert_eq!(small.population(), 8);
    small.step();
    assert_eq!(small.population(), 4);
    assert!(small.get_cell(-2, -2) && small.get_cell(2, -2));
    assert!(small.get_cell(-2, 2) && small.get_cell(2, 2));
    // A root of level 3 is large enough for a step of two generations, and
    // the single cell has margin in it; the step then yields the inner 4x4
    // cells, which hold one of the four.
    let mut large = World::new(Rule::parse_rule("B1/S").unwrap());
    large.set_cell(0, 0, true);
    large.set_step(1);
    large.step();
    assert_eq!(large.get_generation(), 2);
    assert_eq!(large.node_level(large.root), 2);
    assert_eq!(large.population(), 1);
    assert!(large.get_cell(-2, -2));
}
