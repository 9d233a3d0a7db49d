use wfc::map::Map2D;
use wfc::{i64vec2, I64Vec2};

#[test]
fn new_fills_every_cell() {
    let m = Map2D::new(I64Vec2::new(3, 2), 7u8);
    assert_eq!(m.size(), I64Vec2::new(3, 2));
    assert_eq!(m.as_slice(), &[7u8; 6]);
}

#[test]
fn index_is_row_major() {
    let m = Map2D::new(I64Vec2::new(4, 3), 0u8);
    assert_eq!(m.index(i64vec2(0, 0)), 0);
    assert_eq!(m.index(i64vec2(3, 0)), 3);
    assert_eq!(m.index(i64vec2(1, 2)), 9);
}

#[test]
fn position_inverts_index() {
    let m = Map2D::new(I64Vec2::new(4, 3), 0u8);
    for y in 0..3 {
        for x in 0..4 {
            let p = i64vec2(x, y);
            assert_eq!(m.position(m.index(p)), p);
        }
    }
    assert_eq!(m.position(11), i64vec2(3, 2));
}

#[test]
fn index_of_off_grid_position_wraps_like_a_cast() {
    let m = Map2D::new(I64Vec2::new(4, 3), 0u8);
    assert_eq!(m.index(i64vec2(-1, 0)), usize::MAX);
    assert_eq!(m.index(i64vec2(5, 0)), 5);
}

#[test]
fn range_check() {
    let m = Map2D::new(I64Vec2::new(4, 3), 0u8);
    assert!(m.is_in_range(i64vec2(0, 0)));
    assert!(m.is_in_range(i64vec2(3, 2)));
    assert!(!m.is_in_range(i64vec2(4, 0)));
    assert!(!m.is_in_range(i64vec2(0, 3)));
    assert!(!m.is_in_range(i64vec2(-1, 1)));
}

#[test]
fn read_after_write() {
    let mut m = Map2D::new(I64Vec2::new(3, 3), 0u32);
    m.set_cell(i64vec2(1, 2), 5);
    assert_eq!(m.get_cell(i64vec2(1, 2)), Some(&5));
    assert_eq!(m.get_cell(i64vec2(2, 1)), Some(&0));
    m.set_cell(i64vec2(3, 0), 9);
    assert_eq!(m.as_slice(), &[0, 0, 0, 0, 0, 0, 0, 5, 0]);
    assert_eq!(m.get_cell(i64vec2(3, 0)), None);
}

#[test]
fn write_through_mutable_borrow() {
    let mut m = Map2D::new(I64Vec2::new(2, 2), 1i32);
    if let Some(v) = m.get_cell_mut(i64vec2(1, 1)) {
        *v = 4;
    }
    assert!(m.get_cell_mut(i64vec2(2, 2)).is_none());
    assert_eq!(m.into_vec(), vec![1, 1, 1, 4]);
}

#[test]
fn vec_roundtrip() {
    let m = Map2D::from_vec(vec![1, 2, 3, 4, 5, 6], I64Vec2::new(2, 3));
    assert_eq!(m.get_cell(i64vec2(1, 0)), Some(&2));
    assert_eq!(m.get_cell(i64vec2(0, 2)), Some(&5));
    let size = m.size();
    let back = Map2D::from_vec(m.into_vec(), size);
    assert_eq!(back.as_slice(), &[1, 2, 3, 4, 5, 6]);
}

#[test]
fn empty_grid_from_vec() {
    let m: Map2D<u8> = Map2D::from_vec(Vec::new(), I64Vec2::new(0, 5));
    assert_eq!(m.get_cell(i64vec2(0, 0)), None);
}

#[test]
fn clone_copies_extent_and_values() {
    let mut m = Map2D::new(I64Vec2::new(2, 2), 3u8);
    m.set_cell(i64vec2(1, 0), 8);
    let c = m.clone();
    assert_eq!(c.size(), I64Vec2::new(2, 2));
    assert_eq!(c.as_slice(), &[3, 8, 3, 3]);
}
