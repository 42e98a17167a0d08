use snake::draw::to_coord_u32;
use snake::snake::Direction;
use snake::snake::Snake;

#[test]
fn construct_origin() {
    let s = Snake::new(0, 0);
    assert_eq!(s.get_length(), 3);
    assert_eq!(s.head_position(), (2, 0));
    assert!(s.head_direction() == Direction::Right);
    assert!(s.is_overlapping(1, 0));
    assert!(s.is_overlapping(2, 0));
    assert!(!s.is_overlapping(0, 0));
    assert!(!s.is_overlapping(5, 5));
}

#[test]
fn construction_cells_head_first() {
    let s = Snake::new(4, -7);
    assert_eq!(s.cell(0), (6, -7));
    assert_eq!(s.cell(1), (5, -7));
    assert_eq!(s.cell(2), (4, -7));
}

#[test]
fn advance_with_no_candidate() {
    let mut s = Snake::new(0, 0);
    s.move_forward(None);
    assert_eq!(s.head_position(), (3, 0));
    assert_eq!(s.get_length(), 3);
    assert_eq!(s.cell(0), (3, 0));
    assert_eq!(s.cell(1), (2, 0));
    assert_eq!(s.cell(2), (1, 0));
}

#[test]
fn next_head_is_pure() {
    let s = Snake::new(0, 0);
    let first = s.next_head(None);
    let second = s.next_head(None);
    assert_eq!(first, second);
    assert_eq!(first, (3, 0));
    assert_eq!(s.get_length(), 3);
    assert_eq!(s.head_position(), (2, 0));
}

#[test]
fn next_head_mapping() {
    let s = Snake::new(0, 0);
    assert_eq!(s.next_head(Some(Direction::Up)), (2, -1));
    assert_eq!(s.next_head(Some(Direction::Down)), (2, 1));
    assert_eq!(s.next_head(Some(Direction::Left)), (1, 0));
    assert_eq!(s.next_head(Some(Direction::Right)), (3, 0));
    assert_eq!(s.next_head(None), (3, 0));
}

#[test]
fn reversal_candidate_ignored() {
    let mut s = Snake::new(0, 0);
    s.move_forward(Some(Direction::Left));
    assert!(s.head_direction() == Direction::Right);
    assert_eq!(s.head_position(), (3, 0));
    assert_eq!(s.get_length(), 3);
}

#[test]
fn heading_follows_accepted_candidate() {
    let mut s = Snake::new(0, 0);
    s.move_forward(Some(Direction::Down));
    assert!(s.head_direction() == Direction::Down);
    assert_eq!(s.head_position(), (2, 1));
    s.move_forward(Some(Direction::Right));
    assert!(s.head_direction() == Direction::Right);
    assert_eq!(s.head_position(), (3, 1));
}

#[test]
fn grow_after_advance() {
    let mut s = Snake::new(0, 0);
    s.move_forward(None);
    s.grow_tail();
    assert_eq!(s.get_length(), 4);
    assert_eq!(s.cell(3), (0, 0));
    s.grow_tail();
    assert_eq!(s.get_length(), 4);
}

#[test]
fn grow_before_any_advance_is_noop() {
    let mut s = Snake::new(0, 0);
    s.grow_tail();
    assert_eq!(s.get_length(), 3);
    assert_eq!(s.cell(2), (0, 0));
}

#[test]
fn tail_cell_is_not_collidable() {
    let mut s = Snake::new(0, 0);
    s.move_forward(Some(Direction::Down));
    s.move_forward(Some(Direction::Left));
    s.move_forward(Some(Direction::Up));
    assert_eq!(s.cell(0), (1, 0));
    assert_eq!(s.cell(1), (1, 1));
    assert_eq!(s.cell(2), (2, 1));
    assert!(!s.is_overlapping(2, 1));
    assert!(s.is_overlapping(1, 1));
}

#[test]
fn self_circle_overlap() {
    let mut s = Snake::new(0, 0);
    s.move_forward(None);
    s.grow_tail();
    s.move_forward(Some(Direction::Down));
    s.grow_tail();
    s.move_forward(Some(Direction::Left));
    assert_eq!(s.get_length(), 5);
    assert_eq!(s.head_position(), (2, 1));
    let target = s.next_head(Some(Direction::Up));
    assert_eq!(target, (2, 0));
    assert!(s.is_overlapping(target.0, target.1));
}

#[test]
fn back_cell_never_examined_at_minimum_length() {
    let s = Snake::new(10, 20);
    assert!(!s.is_overlapping(10, 20));
    assert!(s.is_overlapping(11, 20));
    assert!(s.is_overlapping(12, 20));
}

#[test]
fn opposite_pairs() {
    assert!(Direction::Up.opposite() == Direction::Down);
    assert!(Direction::Down.opposite() == Direction::Up);
    assert!(Direction::Left.opposite() == Direction::Right);
    assert!(Direction::Right.opposite() == Direction::Left);
}

#[test]
fn pixel_coordinates() {
    assert_eq!(to_coord_u32(0), 0);
    assert_eq!(to_coord_u32(1), 25);
    assert_eq!(to_coord_u32(30), 750);
}

#[test]
fn pixel_coordinates_saturate() {
    assert_eq!(to_coord_u32(-1), 0);
    assert_eq!(to_coord_u32(-1000), 0);
    assert_eq!(to_coord_u32(171798691), 4294967275);
    assert_eq!(to_coord_u32(171798692), u32::MAX);
    assert_eq!(to_coord_u32(i32::MAX), u32::MAX);
}
