use parabox::describe::BoxDescription;
use parabox::describe::LevelDescription;
use parabox::engine::check_unit_dir;
use parabox::errors::ValidationError;
use parabox::level::LevelConfig;
use parabox::parabox::Parabox;
use parabox::square::Square;

fn empty_box(size: (i32, i32)) -> BoxDescription {
    BoxDescription {
        size,
        outer: None,
        walls: vec![],
        blocks: vec![],
        boxes: vec![],
        targets: vec![],
        player_target: None,
    }
}

#[test]
fn builds_described_cells() {
    let mut b0 = empty_box((4, 3));
    b0.walls = vec![(0, 0), (3, 2)];
    b0.blocks = vec![(1, 1)];
    b0.boxes = vec![((2, 2), 1)];
    b0.targets = vec![(1, 2)];
    b0.player_target = Some((2, 0));
    let mut b1 = empty_box((2, 2));
    b1.outer = Some(0);
    let desc = LevelDescription { boxes: vec![b0, b1], player_pos: (0, (1, 0)) };
    let w = LevelConfig::new(3, &desc).unwrap();

    assert_eq!(w.level, 3);
    assert_eq!(w.player_pos, (0, (1, 0)));
    assert_eq!(w.paraboxes.len(), 2);
    assert_eq!(w.paraboxes[0].find_at(0, 0), Some(Square::Wall));
    assert_eq!(w.paraboxes[0].find_at(3, 2), Some(Square::Wall));
    assert_eq!(w.paraboxes[0].find_at(1, 1), Some(Square::Block));
    assert_eq!(w.paraboxes[0].find_at(2, 2), Some(Square::Parabox(1)));
    assert_eq!(w.paraboxes[0].find_at(1, 0), None);
    assert_eq!(w.paraboxes[0].player_pos, Some((1, 0)));
    assert_eq!(w.paraboxes[0].player_target, Some((2, 0)));
    assert_eq!(w.paraboxes[0].targets, vec![(1, 2)]);
    assert_eq!(w.paraboxes[1].outer, Some(0));
    assert_eq!(w.paraboxes[1].player_pos, None);
}

#[test]
fn rejects_zero_size() {
    let b0 = empty_box((0, 1));
    let desc = LevelDescription { boxes: vec![b0], player_pos: (0, (0, 0)) };
    assert_eq!(LevelConfig::new(1, &desc).unwrap_err(), ValidationError::BadSize);
}

#[test]
fn rejects_out_of_bounds_wall() {
    let mut b0 = empty_box((2, 2));
    b0.walls = vec![(9, 9)];
    let desc = LevelDescription { boxes: vec![b0], player_pos: (0, (0, 0)) };
    assert_eq!(LevelConfig::new(1, &desc).unwrap_err(), ValidationError::OutOfBounds);
}

#[test]
fn rejects_duplicate_cell() {
    let mut b0 = empty_box((3, 3));
    b0.walls = vec![(1, 1)];
    b0.blocks = vec![(1, 1)];
    let desc = LevelDescription { boxes: vec![b0], player_pos: (0, (0, 0)) };
    assert_eq!(LevelConfig::new(1, &desc).unwrap_err(), ValidationError::DuplicateCell);
}

#[test]
fn rejects_dangling_outer() {
    let mut b0 = empty_box((2, 2));
    b0.outer = Some(7);
    let desc = LevelDescription { boxes: vec![b0], player_pos: (0, (0, 0)) };
    assert_eq!(LevelConfig::new(1, &desc).unwrap_err(), ValidationError::DanglingId);
}

#[test]
fn rejects_unrecorded_contained_box() {
    // box 1 names box 0 as its container, but box 0 has no cell for it
    let b0 = empty_box((2, 2));
    let mut b1 = empty_box((2, 2));
    b1.outer = Some(0);
    let desc = LevelDescription { boxes: vec![b0, b1], player_pos: (0, (0, 0)) };
    assert_eq!(LevelConfig::new(1, &desc).unwrap_err(), ValidationError::ContainmentMismatch);
}

#[test]
fn rejects_containment_cycle() {
    let mut b0 = empty_box((3, 3));
    b0.outer = Some(1);
    b0.boxes = vec![((1, 1), 1)];
    let mut b1 = empty_box((3, 3));
    b1.outer = Some(0);
    b1.boxes = vec![((2, 2), 0)];
    let desc = LevelDescription { boxes: vec![b0, b1], player_pos: (0, (0, 0)) };
    assert_eq!(LevelConfig::new(1, &desc).unwrap_err(), ValidationError::ContainmentCycle);
}

#[test]
fn rejects_misplaced_avatar() {
    let b0 = empty_box((2, 2));
    let desc = LevelDescription { boxes: vec![b0], player_pos: (0, (5, 0)) };
    assert_eq!(LevelConfig::new(1, &desc).unwrap_err(), ValidationError::BadAvatar);
}

#[test]
fn win_requires_every_target_covered() {
    let mut b0 = empty_box((3, 1));
    b0.blocks = vec![(1, 0)];
    b0.targets = vec![(1, 0), (2, 0)];
    let desc = LevelDescription { boxes: vec![b0], player_pos: (0, (0, 0)) };
    let mut w = LevelConfig::new(1, &desc).unwrap();
    // one of the two targets is empty
    assert!(!w.check_win());
    // push the block onto the second target: the first is vacated, so
    // still not solved
    assert_eq!(w.shift(None, None, (1, 0)), Ok(true));
    assert!(!w.check_win());
}

#[test]
fn win_counts_contained_box_as_cover() {
    let mut b0 = empty_box((3, 1));
    b0.boxes = vec![((2, 0), 1)];
    b0.targets = vec![(2, 0)];
    let mut b1 = empty_box((2, 2));
    b1.outer = Some(0);
    let desc = LevelDescription { boxes: vec![b0, b1], player_pos: (0, (0, 0)) };
    let w = LevelConfig::new(1, &desc).unwrap();
    assert!(w.check_win());
}

#[test]
fn win_requires_avatar_on_avatar_target() {
    let mut b0 = empty_box((3, 1));
    b0.player_target = Some((1, 0));
    let desc = LevelDescription { boxes: vec![b0], player_pos: (0, (0, 0)) };
    let mut w = LevelConfig::new(1, &desc).unwrap();
    assert!(!w.check_win());
    assert_eq!(w.shift(None, None, (1, 0)), Ok(true));
    assert!(w.check_win());
}

#[test]
fn entry_points_face_the_push() {
    let b = Parabox::new(0, (3, 4));
    assert_eq!(b.enter_from((1, 0)), (-1, 2));
    assert_eq!(b.enter_from((-1, 0)), (3, 2));
    assert_eq!(b.enter_from((0, 1)), (1, -1));
    assert_eq!(b.enter_from((0, -1)), (1, 4));
}

#[test]
fn locates_contained_box_cell() {
    let mut b0 = empty_box((3, 3));
    b0.boxes = vec![((2, 1), 1)];
    let mut b1 = empty_box((2, 2));
    b1.outer = Some(0);
    let desc = LevelDescription { boxes: vec![b0, b1], player_pos: (0, (0, 0)) };
    let w = LevelConfig::new(1, &desc).unwrap();
    assert_eq!(w.paraboxes[0].find_box(1), Ok((2, 1)));
    assert_eq!(w.paraboxes[0].find_box(5), Err(()));
}

#[test]
fn only_unit_directions_pass() {
    assert!(check_unit_dir((1, 0)));
    assert!(check_unit_dir((-1, 0)));
    assert!(check_unit_dir((0, 1)));
    assert!(check_unit_dir((0, -1)));
    assert!(!check_unit_dir((0, 0)));
    assert!(!check_unit_dir((1, 1)));
    assert!(!check_unit_dir((2, 0)));
    assert!(!check_unit_dir((0, -2)));
}
