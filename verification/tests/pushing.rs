use parabox::describe::BoxDescription;
use parabox::describe::LevelDescription;
use parabox::errors::StructuralError;
use parabox::level::LevelConfig;
use parabox::square::Square;

fn empty_box(size: (i32, i32)) -> BoxDescription {
    BoxDescription {
        size,
        outer: None,
        walls: vec![],
        blocks: vec![],
        boxes: vec![],
        targets: vec![],
        player_target: None,
    }
}

fn count_blocks(w: &LevelConfig) -> usize {
    let mut n = 0;
    for b in &w.paraboxes {
        for x in 0..b.size.0 {
            for y in 0..b.size.1 {
                if let Some(Square::Block) = b.find_at(x, y) {
                    n += 1;
                }
            }
        }
    }
    n
}

#[test]
fn corridor_push_to_wall() {
    // 5x1 corridor: avatar at x=0, block at x=1, wall at x=4
    let mut b0 = empty_box((5, 1));
    b0.walls = vec![(4, 0)];
    b0.blocks = vec![(1, 0)];
    let desc = LevelDescription { boxes: vec![b0], player_pos: (0, (0, 0)) };
    let mut w = LevelConfig::new(1, &desc).unwrap();

    assert_eq!(w.shift(None, None, (1, 0)), Ok(true));
    assert_eq!(w.player_pos, (0, (1, 0)));
    assert_eq!(w.paraboxes[0].find_at(2, 0), Some(Square::Block));

    assert_eq!(w.shift(None, None, (1, 0)), Ok(true));
    assert_eq!(w.player_pos, (0, (2, 0)));
    assert_eq!(w.paraboxes[0].find_at(3, 0), Some(Square::Block));

    // the block now sits against the wall: further pushes are rejected
    // and change nothing
    assert_eq!(w.shift(None, None, (1, 0)), Ok(false));
    assert_eq!(w.shift(None, None, (1, 0)), Ok(false));
    assert_eq!(w.player_pos, (0, (2, 0)));
    assert_eq!(w.paraboxes[0].find_at(3, 0), Some(Square::Block));
    assert_eq!(w.paraboxes[0].find_at(2, 0), None);
    assert_eq!(count_blocks(&w), 1);
}

#[test]
fn chain_moves_one_cell_in_order() {
    // chain of block, contained box, block pushed into empty space:
    // everything advances one cell, order kept
    let mut b0 = empty_box((6, 1));
    b0.blocks = vec![(1, 0), (3, 0)];
    b0.boxes = vec![((2, 0), 1)];
    let mut b1 = empty_box((3, 3));
    b1.outer = Some(0);
    let desc = LevelDescription { boxes: vec![b0, b1], player_pos: (0, (0, 0)) };
    let mut w = LevelConfig::new(1, &desc).unwrap();

    assert_eq!(w.shift(None, None, (1, 0)), Ok(true));
    assert_eq!(w.player_pos, (0, (1, 0)));
    assert_eq!(w.paraboxes[0].find_at(1, 0), None);
    assert_eq!(w.paraboxes[0].find_at(2, 0), Some(Square::Block));
    assert_eq!(w.paraboxes[0].find_at(3, 0), Some(Square::Parabox(1)));
    assert_eq!(w.paraboxes[0].find_at(4, 0), Some(Square::Block));
    assert_eq!(w.paraboxes[0].find_at(5, 0), None);
    assert_eq!(count_blocks(&w), 2);
    assert_eq!(w.paraboxes[1].outer, Some(0));
}

#[test]
fn rejected_push_changes_nothing() {
    // avatar pushed straight into a wall with no chain
    let mut b0 = empty_box((3, 3));
    b0.walls = vec![(2, 1)];
    let desc = LevelDescription { boxes: vec![b0], player_pos: (0, (1, 1)) };
    let mut w = LevelConfig::new(1, &desc).unwrap();
    assert_eq!(w.shift(None, None, (1, 0)), Ok(false));
    assert_eq!(w.player_pos, (0, (1, 1)));
    assert_eq!(w.paraboxes[0].find_at(2, 1), Some(Square::Wall));
    assert_eq!(w.paraboxes[0].player_pos, Some((1, 1)));
}

#[test]
fn block_enters_contained_box() {
    // a block pushed against a contained box that is itself against a
    // wall enters the box at the midpoint of the facing edge
    let mut b0 = empty_box((5, 1));
    b0.blocks = vec![(1, 0)];
    b0.boxes = vec![((2, 0), 1)];
    b0.walls = vec![(3, 0)];
    let mut b1 = empty_box((3, 1));
    b1.outer = Some(0);
    let desc = LevelDescription { boxes: vec![b0, b1], player_pos: (0, (0, 0)) };
    let mut w = LevelConfig::new(1, &desc).unwrap();

    assert_eq!(w.shift(None, None, (1, 0)), Ok(true));
    assert_eq!(w.player_pos, (0, (1, 0)));
    assert_eq!(w.paraboxes[0].find_at(1, 0), None);
    assert_eq!(w.paraboxes[0].find_at(2, 0), Some(Square::Parabox(1)));
    // the block is inside box 1, at the cell the entry point resolves to
    assert_eq!(w.paraboxes[1].find_at(0, 0), Some(Square::Block));
    assert_eq!(count_blocks(&w), 1);
}

#[test]
fn full_contained_box_rejects_entry() {
    // as above, but the contained box is walled shut at the entry cell
    let mut b0 = empty_box((5, 1));
    b0.blocks = vec![(1, 0)];
    b0.boxes = vec![((2, 0), 1)];
    b0.walls = vec![(3, 0)];
    let mut b1 = empty_box((3, 1));
    b1.outer = Some(0);
    b1.walls = vec![(0, 0)];
    let desc = LevelDescription { boxes: vec![b0, b1], player_pos: (0, (0, 0)) };
    let mut w = LevelConfig::new(1, &desc).unwrap();

    assert_eq!(w.shift(None, None, (1, 0)), Ok(false));
    assert_eq!(w.player_pos, (0, (0, 0)));
    assert_eq!(w.paraboxes[0].find_at(1, 0), Some(Square::Block));
    assert_eq!(w.paraboxes[1].find_at(0, 0), Some(Square::Wall));
}

#[test]
fn avatar_escapes_contained_box() {
    // the avatar stands in a contained box and walks out across its edge
    let mut b0 = empty_box((3, 3));
    b0.boxes = vec![((1, 1), 1)];
    let mut b1 = empty_box((3, 1));
    b1.outer = Some(0);
    let desc = LevelDescription { boxes: vec![b0, b1], player_pos: (1, (2, 0)) };
    let mut w = LevelConfig::new(1, &desc).unwrap();

    assert_eq!(w.shift(None, None, (1, 0)), Ok(true));
    assert_eq!(w.player_pos, (0, (2, 1)));
    assert_eq!(w.paraboxes[1].player_pos, None);
    assert_eq!(w.paraboxes[0].player_pos, Some((2, 1)));
}

#[test]
fn escape_from_unenclosed_top_level_box_is_structural() {
    let b0 = empty_box((2, 2));
    let desc = LevelDescription { boxes: vec![b0], player_pos: (0, (0, 0)) };
    let mut w = LevelConfig::new(1, &desc).unwrap();
    assert_eq!(w.shift(None, None, (-1, 0)), Err(StructuralError::MissingOuter));
    assert_eq!(w.player_pos, (0, (0, 0)));
}

#[test]
fn detached_block_is_placed_by_push() {
    let b0 = empty_box((3, 1));
    let desc = LevelDescription { boxes: vec![b0], player_pos: (0, (0, 0)) };
    let mut w = LevelConfig::new(1, &desc).unwrap();
    assert_eq!(w.shift(Some(Square::Block), Some((0, (0, 0))), (1, 0)), Ok(true));
    assert_eq!(w.paraboxes[0].find_at(1, 0), Some(Square::Block));
    // the avatar did not move
    assert_eq!(w.player_pos, (0, (0, 0)));
}

#[test]
fn detached_box_is_placed_and_becomes_contained() {
    let b0 = empty_box((3, 1));
    let b1 = empty_box((2, 2));
    let desc = LevelDescription { boxes: vec![b0, b1], player_pos: (0, (0, 0)) };
    let mut w = LevelConfig::new(1, &desc).unwrap();
    assert_eq!(w.paraboxes[1].outer, None);
    assert_eq!(w.shift(Some(Square::Parabox(1)), Some((0, (0, 0))), (1, 0)), Ok(true));
    assert_eq!(w.paraboxes[0].find_at(1, 0), Some(Square::Parabox(1)));
    assert_eq!(w.paraboxes[1].outer, Some(0));
}

#[test]
fn pushed_box_crossing_boundary_updates_outer() {
    // a contained box pushed out of its holder into the enclosing box:
    // its outer link follows it
    let mut b0 = empty_box((3, 3));
    b0.boxes = vec![((1, 1), 1)];
    let mut b1 = empty_box((3, 1));
    b1.outer = Some(0);
    b1.boxes = vec![((2, 0), 2)];
    let mut b2 = empty_box((2, 2));
    b2.outer = Some(1);
    // the avatar stands inside box 1 and pushes box 2 across box 1's edge
    let desc = LevelDescription { boxes: vec![b0, b1, b2], player_pos: (1, (1, 0)) };
    let mut w = LevelConfig::new(1, &desc).unwrap();

    assert_eq!(w.shift(None, None, (1, 0)), Ok(true));
    // box 2 left box 1 and now sits in box 0, one step past box 1's cell
    assert_eq!(w.paraboxes[1].find_at(2, 0), None);
    assert_eq!(w.paraboxes[0].find_at(2, 1), Some(Square::Parabox(2)));
    assert_eq!(w.paraboxes[2].outer, Some(0));
    assert_eq!(w.player_pos, (1, (2, 0)));
}

#[test]
fn three_blocks_advance_one_cell_each() {
    // a run of three blocks pushed into free space: every block and the
    // avatar move forward exactly one cell
    let mut b0 = empty_box((6, 1));
    b0.blocks = vec![(1, 0), (2, 0), (3, 0)];
    let desc = LevelDescription { boxes: vec![b0], player_pos: (0, (0, 0)) };
    let mut w = LevelConfig::new(1, &desc).unwrap();

    assert_eq!(w.shift(None, None, (1, 0)), Ok(true));
    assert_eq!(w.player_pos, (0, (1, 0)));
    assert_eq!(w.paraboxes[0].find_at(1, 0), None);
    assert_eq!(w.paraboxes[0].find_at(2, 0), Some(Square::Block));
    assert_eq!(w.paraboxes[0].find_at(3, 0), Some(Square::Block));
    assert_eq!(w.paraboxes[0].find_at(4, 0), Some(Square::Block));
    assert_eq!(w.paraboxes[0].find_at(5, 0), None);
    assert_eq!(count_blocks(&w), 3);
}

#[test]
fn load_replaces_world_or_keeps_it() {
    let b0 = empty_box((3, 1));
    let desc = LevelDescription { boxes: vec![b0], player_pos: (0, (0, 0)) };
    let mut w = LevelConfig::new(1, &desc).unwrap();

    let mut b1 = empty_box((4, 2));
    b1.blocks = vec![(2, 1)];
    let next = LevelDescription { boxes: vec![b1], player_pos: (0, (1, 0)) };
    assert_eq!(w.load(2, &next), Ok(()));
    assert_eq!(w.level, 2);
    assert_eq!(w.player_pos, (0, (1, 0)));
    assert_eq!(w.paraboxes[0].find_at(2, 1), Some(Square::Block));

    // a bad description leaves the loaded world untouched
    let bad = LevelDescription { boxes: vec![], player_pos: (0, (0, 0)) };
    assert!(w.load(3, &bad).is_err());
    assert_eq!(w.level, 2);
    assert_eq!(w.paraboxes[0].find_at(2, 1), Some(Square::Block));
}

#[test]
fn vertical_push_hits_wall() {
    // same corridor game along the other axis
    let mut b0 = empty_box((1, 5));
    b0.walls = vec![(0, 4)];
    b0.blocks = vec![(0, 1)];
    let desc = LevelDescription { boxes: vec![b0], player_pos: (0, (0, 0)) };
    let mut w = LevelConfig::new(1, &desc).unwrap();

    assert_eq!(w.shift(None, None, (0, 1)), Ok(true));
    assert_eq!(w.player_pos, (0, (0, 1)));
    assert_eq!(w.paraboxes[0].find_at(0, 2), Some(Square::Block));
    assert_eq!(w.shift(None, None, (0, 1)), Ok(true));
    assert_eq!(w.shift(None, None, (0, 1)), Ok(false));
    assert_eq!(w.player_pos, (0, (0, 2)));
    assert_eq!(w.paraboxes[0].find_at(0, 3), Some(Square::Block));
}

#[test]
fn avatar_escapes_two_nested_boxes() {
    // the avatar leaves a box inside a box, crossing two boundaries in
    // one move
    let mut b0 = empty_box((5, 5));
    b0.boxes = vec![((2, 2), 1)];
    let mut b1 = empty_box((3, 3));
    b1.outer = Some(0);
    b1.boxes = vec![((2, 1), 2)];
    let mut b2 = empty_box((3, 1));
    b2.outer = Some(1);
    let desc = LevelDescription { boxes: vec![b0, b1, b2], player_pos: (2, (2, 0)) };
    let mut w = LevelConfig::new(1, &desc).unwrap();

    assert_eq!(w.shift(None, None, (1, 0)), Ok(true));
    assert_eq!(w.player_pos, (0, (3, 2)));
    assert_eq!(w.paraboxes[2].player_pos, None);
    assert_eq!(w.paraboxes[0].player_pos, Some((3, 2)));
}
