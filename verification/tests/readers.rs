use ca_formats::macrocell::{Error as MacrocellError, Macrocell, NodeData};
use ca_formats::rle::{Error as RleError, Rle};
use hashlife::read::{check_cells, check_macrocell, rule_or_life, MacrocellNode, ReadError};
use hashlife::rule::Rule;
use hashlife::World;

const GLIDER_RLE: &str = r"#N Glider
#O Richard K. Guy
x = 3, y = 3, rule = B3/S23
bob$2bo$3o!";

const SEEDS_RLE: &str = r"x = 2, y = 1, rule = B2/S
2o!";

const GLIDER_MC: &str = r"[M2] (golly 3.4)
#R B3/S23
$$$$$$*$.*$
.......*$
**$
4 0 1 2 3";

const SIR_ROBIN_RLE: &str = r"#N Sir Robin
#O Adam P. Goucher, Tom Rokicki; 2018
#C The first elementary knightship to be found in Conway's Game of Life.
#C http://conwaylife.com/wiki/Sir_Robin
x = 31, y = 79, rule = B3/S23
4b2o$4bo2bo$4bo3bo$6b3o$2b2o6b4o$2bob2o4b4o$bo4bo6b3o$2b4o4b2o3bo$o9b
2o$bo3bo$6b3o2b2o2bo$2b2o7bo4bo$13bob2o$10b2o6bo$11b2ob3obo$10b2o3bo2b
o$10bobo2b2o$10bo2bobobo$10b3o6bo$11bobobo3bo$14b2obobo$11bo6b3o2$11bo
9bo$11bo3bo6bo$12bo5b5o$12b3o$16b2o$13b3o2bo$11bob3obo$10bo3bo2bo$11bo
4b2ob3o$13b4obo4b2o$13bob4o4b2o$19bo$20bo2b2o$20b2o$21b5o$25b2o$19b3o
6bo$20bobo3bobo$19bo3bo3bo$19bo3b2o$18bo6bob3o$19b2o3bo3b2o$20b4o2bo2b
o$22b2o3bo$21bo$21b2obo$20bo$19b5o$19bo4bo$18b3ob3o$18bob5o$18bo$20bo$
16bo4b4o$20b4ob2o$17b3o4bo$24bobo$28bo$24bo2b2o$25b3o$22b2o$21b3o5bo$
24b2o2bobo$21bo2b3obobo$22b2obo2bo$24bobo2b2o$26b2o$22b3o4bo$22b3o4bo$
23b2o3b3o$24b2ob2o$25b2o$25bo2$24b2o$26bo!";

const SIR_ROBIN_MC: &str = r"[M2] (golly 3.4)
#R B3/S23
$$$$$$$....**$
4 0 0 1 0
5 0 0 2 0
6 0 0 3 0
7 0 0 4 0
....*..*$....*$......**$..**$..*.**$.*....*$..****$*$
$*$*$..****$..****$.....***$..**...*$..**$
.*...*$......**$..**$
$*..**..*$...*$.....*.*$..**$...**.**$..**...*$..*.*..*$
4 6 7 8 9
$$*$*$..*$*.*$..*$*$
4 0 0 11 0
..*..*.*$..***$...*.*.*$......**$...*$$...*$...*...*$
....*$....***$$.....***$...*.***$..*...*$...*$.....***$
4 0 13 0 14
.*$...*$...*$.*.*$..***$$.....*$......*$
..*****$$**$..*$.*$.*$**.***$*.*....*$
$$$$$$$*$
4 16 0 17 18
5 10 12 15 19
.....*.*$
4 0 21 0 0
***....*$...*$....*..*$....**$.....***$$...***$....*.*$
*$$*$$**$.**$....*$..*.*$
...*...*$...*...*$..*$...**$....****$......**$.....*$.....**$
...*$*$.*.***$*...**$..*..*$...*$$*$
4 23 24 25 26
....*$...*****$...*$..***.**$..*.****$..*$....*$*....***$
$$*$*$*$$$*$
....****$.***$$$$$......**$.....***$
.**$*$*.*$....*$*..**$.***$$.....*$
4 28 29 30 31
5 22 27 0 32
6 20 0 33 0
$.....*$......**$$$......**$......**$.......*$
**..*.*$***.*.*$.*..*$*.*..**$..**$*....*$*....*$*...***$
**.**$.**$.*$$**$..*$
4 35 36 0 37
5 0 38 0 0
6 39 0 0 0
7 34 0 40 0
8 0 5 0 41";

fn read_rle(pattern: &str) -> (Option<String>, Vec<Result<(i64, i64), RleError>>) {
    let rle = Rle::new(pattern).unwrap();
    let rule = rle.header_data().and_then(|header| header.rule.clone());
    let cells = rle.map(|cell| cell.map(|cell| cell.position)).collect();
    (rule, cells)
}

fn node_of(data: NodeData) -> MacrocellNode {
    match data {
        NodeData::Level1 { nw, ne, sw, se } => MacrocellNode::Level1 { nw, ne, sw, se },
        NodeData::Level3(n) => MacrocellNode::Level3(n),
        NodeData::Node { level, nw, ne, sw, se } => MacrocellNode::Node { level, nw, ne, sw, se },
    }
}

fn read_macrocell(pattern: &str) -> (Option<String>, Vec<Result<MacrocellNode, MacrocellError>>) {
    let macrocell = Macrocell::new(pattern).unwrap();
    let rule = macrocell.rule().map(|rule| rule.to_string());
    let nodes = macrocell.map(|node| node.map(|node| node_of(node.data))).collect();
    (rule, nodes)
}

#[test]
fn rle_glider() {
    let (rule, cells) = read_rle(GLIDER_RLE);
    assert!(check_cells(&cells));
    let mut world = World::from_rle(rule.as_deref(), cells).unwrap();
    assert_eq!(world.population(), 5);
    assert_eq!(world.get_generation(), 0);
    assert_eq!(world.get_step(), 0);
    assert_eq!(
        world.for_living_cells((-10, 10, -10, 10)),
        vec![(1, 0), (2, 1), (0, 2), (1, 2), (2, 2)]
    );
    assert!(world.rule.rule_table[..] == Rule::life().rule_table[..]);
    // a glider moves one cell diagonally in four generations
    world.set_step(2);
    world.step();
    assert_eq!(
        world.for_living_cells((-10, 10, -10, 10)),
        vec![(2, 1), (3, 2), (1, 3), (2, 3), (3, 3)]
    );
}

#[test]
fn rle_takes_the_rule_of_the_header() {
    let (rule, cells) = read_rle(SEEDS_RLE);
    assert_eq!(rule.as_deref(), Some("B2/S"));
    let mut world = World::from_rle(rule.as_deref(), cells).unwrap();
    assert!(world.rule.rule_table[..] == Rule::parse_rule("B2/S").unwrap().rule_table[..]);
    world.step();
    assert_eq!(world.population(), 4);
}

#[test]
fn rule_or_life_falls_back_to_life() {
    let life = Rule::life();
    assert!(rule_or_life(None).rule_table[..] == life.rule_table[..]);
    assert!(rule_or_life(Some("not a rule")).rule_table[..] == life.rule_table[..]);
    assert!(rule_or_life(Some("B03/S23")).rule_table[..] == life.rule_table[..]);
    assert!(rule_or_life(Some("B36/S23")).rule_table[..] != life.rule_table[..]);
}

#[test]
fn rle_hands_on_the_first_error() {
    let cells: Vec<Result<(i64, i64), &str>> =
        vec![Ok((0, 0)), Err("first"), Ok((1, 1)), Err("second")];
    match World::from_rle(None, cells) {
        Err(e) => assert_eq!(e, "first"),
        Ok(_) => panic!("an error was dropped"),
    }
    let pattern = Rle::new("x = 3, y = 1\no?o!").unwrap();
    let cells: Vec<Result<(i64, i64), RleError>> =
        pattern.map(|cell| cell.map(|cell| cell.position)).collect();
    assert!(matches!(World::from_rle(None, cells), Err(RleError::InvalidState(_))));
}

#[test]
fn cells_out_of_range_are_found() {
    let near: Vec<Result<(i64, i64), ()>> = vec![Ok((0x3fff_ffff, -0x4000_0000)), Err(())];
    assert!(check_cells(&near));
    let far: Vec<Result<(i64, i64), ()>> = vec![Ok((0, 0)), Ok((0x4000_0000, 0))];
    assert!(!check_cells(&far));
    let low: Vec<Result<(i64, i64), ()>> = vec![Ok((0, -0x4000_0001))];
    assert!(!check_cells(&low));
}

#[test]
fn macrocell_glider() {
    let (rule, nodes) = read_macrocell(GLIDER_MC);
    assert_eq!(rule.as_deref(), Some("B3/S23"));
    assert_eq!(nodes.len(), 4);
    assert!(check_macrocell(&nodes));
    let mut world = World::from_macrocell(rule.as_deref(), nodes).unwrap();
    assert_eq!(world.population(), 5);
    assert_eq!(world.node_level(world.root), 4);
    assert_eq!(
        world.for_living_cells((-8, 8, -8, 8)),
        vec![(0, -2), (1, -1), (-1, 0), (0, 0), (1, 0)]
    );
    world.set_step(4);
    world.step();
    assert_eq!(world.get_generation(), 16);
}

#[test]
fn macrocell_rows_and_columns() {
    // one cell in the top left corner, one in the bottom right corner
    let nodes: Vec<Result<MacrocellNode, ()>> = vec![Ok(MacrocellNode::Level3(
        0x8000_0000_0000_0001,
    ))];
    let mut world = World::from_macrocell(None, nodes).unwrap();
    assert_eq!(world.for_living_cells((-4, 4, -4, 4)), vec![(-4, -4), (3, 3)]);
    // the second row from the top, the third cell from the left
    let nodes: Vec<Result<MacrocellNode, ()>> = vec![Ok(MacrocellNode::Level3(
        0x0020_0000_0000_0000,
    ))];
    let mut world = World::from_macrocell(None, nodes).unwrap();
    assert_eq!(world.for_living_cells((-4, 4, -4, 4)), vec![(-2, -3)]);
    assert!(world.get_cell(-2, -3));
}

#[test]
fn macrocell_with_more_states_is_refused() {
    let nodes: Vec<Result<MacrocellNode, ()>> = vec![
        Ok(MacrocellNode::Level3(1)),
        Ok(MacrocellNode::Level1 { nw: 1, ne: 2, sw: 0, se: 0 }),
        Err(()),
    ];
    assert!(check_macrocell(&nodes));
    assert!(matches!(
        World::from_macrocell(None, nodes),
        Err(ReadError::UnsupportedMultiState)
    ));
}

#[test]
fn macrocell_hands_on_the_first_error() {
    let nodes: Vec<Result<MacrocellNode, u8>> =
        vec![Ok(MacrocellNode::Level3(1)), Err(7), Err(8)];
    assert!(matches!(World::from_macrocell(None, nodes), Err(ReadError::Reader(7))));
}

#[test]
fn macrocell_that_is_no_pattern_is_found() {
    let none: Vec<Result<MacrocellNode, ()>> = vec![];
    assert!(!check_macrocell(&none));
    let forward: Vec<Result<MacrocellNode, ()>> = vec![
        Ok(MacrocellNode::Level3(1)),
        Ok(MacrocellNode::Node { level: 4, nw: 1, ne: 3, sw: 0, se: 0 }),
    ];
    assert!(!check_macrocell(&forward));
    let wrong_level: Vec<Result<MacrocellNode, ()>> = vec![
        Ok(MacrocellNode::Level3(1)),
        Ok(MacrocellNode::Node { level: 5, nw: 1, ne: 0, sw: 0, se: 0 }),
    ];
    assert!(!check_macrocell(&wrong_level));
    let too_small: Vec<Result<MacrocellNode, ()>> =
        vec![Ok(MacrocellNode::Node { level: 3, nw: 0, ne: 0, sw: 0, se: 0 })];
    assert!(!check_macrocell(&too_small));
    let too_large: Vec<Result<MacrocellNode, ()>> =
        vec![Ok(MacrocellNode::Node { level: 32, nw: 0, ne: 0, sw: 0, se: 0 })];
    assert!(!check_macrocell(&too_large));
    let empty_parts: Vec<Result<MacrocellNode, ()>> = vec![
        Ok(MacrocellNode::Level3(0x0000_0000_0000_0180)),
        Ok(MacrocellNode::Node { level: 4, nw: 0, ne: 1, sw: 1, se: 0 }),
        Ok(MacrocellNode::Node { level: 5, nw: 2, ne: 0, sw: 0, se: 2 }),
    ];
    assert!(check_macrocell(&empty_parts));
    let world = World::from_macrocell(None, empty_parts).unwrap();
    assert_eq!(world.population(), 8);
    assert_eq!(world.node_level(world.root), 5);
}

fn cells_from_the_corner(world: &World) -> Vec<(i64, i64)> {
    let (left, right, top, bottom) = world.bound().unwrap();
    let mut cells: Vec<(i64, i64)> = world
        .for_living_cells((left, right, top, bottom))
        .into_iter()
        .map(|(x, y)| (x - left, y - top))
        .collect();
    cells.sort();
    cells
}

#[test]
fn a_knightship_from_both_formats() {
    let (rule, cells) = read_rle(SIR_ROBIN_RLE);
    assert!(check_cells(&cells));
    let mut from_rle = World::from_rle(rule.as_deref(), cells).unwrap();
    let (rule, nodes) = read_macrocell(SIR_ROBIN_MC);
    assert!(check_macrocell(&nodes));
    let mut from_mc = World::from_macrocell(rule.as_deref(), nodes).unwrap();
    assert_eq!(from_rle.population(), 282);
    assert_eq!(from_mc.population(), 282);
    assert_eq!(from_rle.bound(), Some((0, 31, 0, 79)));
    assert_eq!(cells_from_the_corner(&from_rle), cells_from_the_corner(&from_mc));
    // the ship has period 6 and moves like a knight: one cell one way, two
    // cells the other
    let before = from_rle.bound().unwrap();
    let shape = cells_from_the_corner(&from_rle);
    from_rle.set_step(1).step();
    from_mc.set_step(1).step();
    assert_eq!(cells_from_the_corner(&from_rle), cells_from_the_corner(&from_mc));
    assert!(cells_from_the_corner(&from_rle) != shape);
    from_rle.set_step(2).step();
    from_mc.set_step(2).step();
    assert_eq!(from_rle.get_generation(), 6);
    assert_eq!(from_rle.population(), 282);
    assert_eq!(cells_from_the_corner(&from_rle), shape);
    assert_eq!(cells_from_the_corner(&from_mc), shape);
    let after = from_rle.bound().unwrap();
    let moved = ((after.0 - before.0).abs(), (after.2 - before.2).abs());
    assert!(moved == (1, 2) || moved == (2, 1));
    // and again after 32 and 64 generations more: 17 periods in all
    from_rle.set_step(5).step();
    from_rle.set_step(6).step();
    assert_eq!(from_rle.get_generation(), 102);
    assert_eq!(cells_from_the_corner(&from_rle), shape);
    from_rle.garbage_collect();
    assert_eq!(cells_from_the_corner(&from_rle), shape);
}
