use hashlife::node::Node;
use hashlife::World;

const R_PENTOMINO: u16 = 0b_0000_0011_0110_0010;

#[test]
fn test_for_living_cells() {
    let mut world = World::default();
    world.root = Node::Leaf(R_PENTOMINO);
    world.step();
    let mut cells = world.for_living_cells((-2, 2, -2, 2));
    assert_eq!(
        cells,
        vec![(-1, -1), (0, -1), (1, -1), (-1, 0), (-1, 1), (0, 1)]
    );
    cells.clear();
    cells = world.for_nodes(1, (-2, 2, -2, 2));
    assert_eq!(cells, vec![(-1, -1), (0, -1), (-1, 0), (0, 0)]);
    world.set_step(3);
    world.step();
    assert_eq!(world.get_generation(), 9);
    cells.clear();
    cells = world.for_nodes(2, (-2, 2, -2, 2));
    assert_eq!(cells, vec![(-1, -1), (0, -1), (-1, 0), (0, 0)]);
}

#[test]
fn test_bound() {
    let mut world = World::default();
    world.set_step(8);
    world.root = Node::Leaf(R_PENTOMINO);
    assert_eq!(world.bound(), Some((-1, 2, -1, 2)));
    world.step();
    assert_eq!(world.bound(), Some((-41, 48, -47, 54)));
}

#[test]
fn bound_of_nothing_is_nothing() {
    let mut world = World::default();
    assert_eq!(world.bound(), None);
    world.set_cell(5, 5, true);
    world.set_cell(5, 5, false);
    assert_eq!(world.population(), 0);
    assert_eq!(world.bound(), None);
}

#[test]
fn bound_is_tight_and_half_open() {
    let mut world = World::default();
    world.set_cell(7, -3, true);
    assert_eq!(world.bound(), Some((7, 8, -3, -2)));
    world.set_cell(-100, 40, true);
    assert_eq!(world.bound(), Some((-100, 8, -3, 41)));
    world.set_cell(-100, 40, false);
    world.set_cell(-2, -2, true);
    assert_eq!(world.bound(), Some((-2, 8, -3, -1)));
    assert_eq!(world.left_bound(world.root), Some(-2));
    assert_eq!(world.right_bound(world.root), Some(8));
    assert_eq!(world.top_bound(world.root), Some(-3));
    assert_eq!(world.bottom_bound(world.root), Some(-1));
}

#[test]
fn bound_holds_every_live_cell() {
    let mut world = World::default();
    world.set_step(5);
    world.root = Node::Leaf(R_PENTOMINO);
    world.step();
    let (left, right, top, bottom) = world.bound().unwrap();
    let mut seen = 0;
    let mut on_left = false;
    let mut on_right = false;
    let mut on_top = false;
    let mut on_bottom = false;
    for y in -64..64 {
        for x in -64..64 {
            if world.get_cell(x, y) {
                seen += 1;
                assert!(left <= x && x < right && top <= y && y < bottom);
                on_left |= x == left;
                on_right |= x == right - 1;
                on_top |= y == top;
                on_bottom |= y == bottom - 1;
            }
        }
    }
    assert_eq!(seen, world.population());
    assert!(on_left && on_right && on_top && on_bottom);
}

#[test]
fn living_cells_of_one_cell_at_the_origin() {
    let mut world = World::default();
    world.set_cell(0, 0, true);
    assert_eq!(world.for_living_cells((0, 1, 0, 1)), vec![(0, 0)]);
    assert_eq!(world.for_living_cells((-1, 1, -1, 1)), vec![(0, 0)]);
    assert_eq!(world.for_living_cells((-1, 0, -1, 0)), vec![]);
    assert_eq!(world.for_living_cells((0, 0, 0, 0)), vec![]);
    assert_eq!(world.for_living_cells((1, 2, 0, 1)), vec![]);
    assert_eq!(world.for_living_cells((0, 1, 1, 2)), vec![]);
}

#[test]
fn living_cells_are_those_that_get_cell_finds() {
    let mut world = World::default();
    world.set_step(5);
    world.root = Node::Leaf(R_PENTOMINO);
    world.step();
    let bound = (-9, 14, -11, 7);
    let listed = world.for_living_cells(bound);
    let mut expected = Vec::new();
    for y in bound.2..bound.3 {
        for x in bound.0..bound.1 {
            if world.get_cell(x, y) {
                expected.push((x, y));
            }
        }
    }
    assert!(!expected.is_empty());
    let mut sorted = listed.clone();
    sorted.sort_by_key(|&(x, y)| (y, x));
    assert_eq!(sorted, expected);
    let mut unique = listed.clone();
    unique.sort();
    unique.dedup();
    assert_eq!(unique.len(), listed.len());
}

#[test]
fn blocks_at_several_levels() {
    let mut world = World::default();
    world.set_cell(-5, 3, true);
    world.set_cell(6, 6, true);
    world.set_cell(7, 7, true);
    // the root is of level 4: a square of side 16
    assert_eq!(world.node_level(world.root), 4);
    let all = (-100, 100, -100, 100);
    assert_eq!(world.for_nodes(0, all), vec![(-5, 3), (6, 6), (7, 7)]);
    assert_eq!(world.for_nodes(1, all), vec![(-3, 1), (3, 3)]);
    assert_eq!(world.for_nodes(2, all), vec![(-2, 0), (1, 1)]);
    assert_eq!(world.for_nodes(3, all), vec![(-1, 0), (0, 0)]);
    // a world that is no larger than a block is one block at its centre
    assert_eq!(world.for_nodes(4, all), vec![(0, 0)]);
    assert_eq!(world.for_nodes(9, all), vec![(0, 0)]);
    assert_eq!(world.for_nodes(4, (1, 100, -100, 100)), vec![]);
    // the rectangle is in units of blocks
    assert_eq!(world.for_nodes(2, (-2, -1, 0, 1)), vec![(-2, 0)]);
    assert_eq!(world.for_nodes(2, (-1, 1, 0, 2)), vec![]);
    assert_eq!(world.for_nodes(1, (3, 4, 3, 4)), vec![(3, 3)]);
}

#[test]
fn garbage_collection_keeps_what_is_seen() {
    let mut world = World::default();
    world.set_step(6);
    world.root = Node::Leaf(R_PENTOMINO);
    world.step();
    world.step();
    let population = world.population();
    let generation = world.get_generation();
    let bound = world.bound();
    let cells = world.for_living_cells((-200, 200, -200, 200));
    let blocks = world.for_nodes(3, (-200, 200, -200, 200));
    world.garbage_collect();
    assert_eq!(world.population(), population);
    assert_eq!(world.get_generation(), generation);
    assert_eq!(world.bound(), bound);
    assert_eq!(world.for_living_cells((-200, 200, -200, 200)), cells);
    assert_eq!(world.for_nodes(3, (-200, 200, -200, 200)), blocks);
}
