use atlas_editor::coordinate::{SizePixels, next_power_of_two};
use atlas_editor::quad_tree::QuadTree;

#[test]
fn next_power_of_two_rounds_up() {
    assert_eq!(next_power_of_two(0), 1);
    assert_eq!(next_power_of_two(1), 1);
    assert_eq!(next_power_of_two(2), 2);
    assert_eq!(next_power_of_two(3), 4);
    assert_eq!(next_power_of_two(33), 64);
    assert_eq!(next_power_of_two(64), 64);
    assert_eq!(next_power_of_two(0x4000_0001), 0x8000_0000);
    assert_eq!(next_power_of_two(0x8000_0000), 0x8000_0000);
}

#[test]
fn size_pixels_compares_by_fields() {
    assert_eq!(SizePixels { width: 3, height: 4 }, SizePixels { width: 3, height: 4 });
    assert_ne!(SizePixels { width: 3, height: 4 }, SizePixels { width: 4, height: 3 });
}

#[test]
fn location_index_interleaves_cell_coordinates() {
    // the cell column 0b11000110 spreads to 0b0101_0000_0001_0100
    assert_eq!(QuadTree::compute_location_index(16 * 0b1100_0110, 0), 0b0101_0000_0001_0100);
    assert_eq!(QuadTree::compute_location_index(0, 16 * 0b1100_0110), 0b1010_0000_0010_1000);
    assert_eq!(QuadTree::compute_location_index(0, 0), 0);
    assert_eq!(QuadTree::compute_location_index(15, 15), 0);
    assert_eq!(QuadTree::compute_location_index(16, 0), 1);
    assert_eq!(QuadTree::compute_location_index(0, 16), 2);
    assert_eq!(QuadTree::compute_location_index(16, 16), 3);
}

#[test]
fn location_index_is_the_same_within_a_cell() {
    assert_eq!(
        QuadTree::compute_location_index(33, 47),
        QuadTree::compute_location_index(47, 32)
    );
    assert_ne!(
        QuadTree::compute_location_index(31, 47),
        QuadTree::compute_location_index(32, 47)
    );
}

#[test]
fn rect_index_and_level_finds_the_smallest_common_cell() {
    // both corners in neighbouring cells: they share a cell one level above the bottom
    assert_eq!(QuadTree::rect_index_and_level(0, 0, 16, 16), (0, 31));
    // both corners in one 16-pixel cell
    assert_eq!(QuadTree::rect_index_and_level(0, 0, 1, 1), (0, 32));
    assert_eq!(QuadTree::rect_index_and_level(16, 0, 31, 15), (1, 32));
    // a rectangle across the middle of the plane only fits the coarsest cells
    let (_, level) = QuadTree::rect_index_and_level(0, 0, u32::MAX, u32::MAX);
    assert_eq!(level, 4);
}

#[test]
fn bound_element_is_offered_for_pixels_inside() {
    let mut qt = QuadTree::new();
    let (index, level) = QuadTree::rect_index_and_level(0, 0, 20, 20);
    qt.bind(level, index, 7);
    let found: Vec<usize> = {
        let mut it = qt.iter_possible_element_indices(10, 10);
        let mut v = Vec::new();
        while let Some(n) = it.next() {
            v.push(n);
        }
        v
    };
    assert_eq!(found, vec![7]);
    let mut far = qt.iter_possible_element_indices(1000, 1000);
    assert_eq!(far.next(), None);
}

#[test]
fn bind_is_idempotent_and_unbind_removes() {
    let mut qt = QuadTree::new();
    qt.bind(31, 0, 3);
    qt.bind(31, 0, 3);
    qt.bind(31, 0, 4);
    assert_eq!(qt.element_index_for_region[31][0], vec![3, 4]);
    assert_eq!(qt.element_index_for_region.len(), 32);
    qt.unbind(31, 0, 3);
    assert_eq!(qt.element_index_for_region[31][0], vec![4]);
}

#[test]
fn bind_creates_empty_cells_up_to_the_index() {
    let mut qt = QuadTree::new();
    qt.bind(2, 5, 1);
    assert_eq!(qt.element_index_for_region.len(), 3);
    assert_eq!(qt.element_index_for_region[2].len(), 6);
    assert!(qt.element_index_for_region[2][4].is_empty());
    assert_eq!(qt.element_index_for_region[2][5], vec![1]);
}

#[test]
fn iterator_walks_levels_from_the_root() {
    let mut qt = QuadTree::new();
    qt.bind(0, 0, 9);
    qt.bind(31, 0, 2);
    qt.bind(31, 0, 5);
    let mut it = qt.iter_possible_element_indices(3, 3);
    assert_eq!(it.next(), Some(9));
    assert_eq!(it.next(), Some(2));
    assert_eq!(it.next(), Some(5));
    assert_eq!(it.next(), None);
    assert_eq!(it.next(), None);
}

#[test]
fn iterator_does_not_reach_the_bottom_level() {
    let mut qt = QuadTree::new();
    let (index, level) = QuadTree::rect_index_and_level(0, 0, 1, 1);
    qt.bind(level, index, 0);
    let mut it = qt.iter_possible_element_indices(0, 0);
    assert_eq!(it.next(), None);
}

#[test]
fn unbinding_what_was_just_bound_restores_the_cell() {
    let mut qt = QuadTree::new();
    qt.bind(5, 3, 1);
    qt.bind(5, 3, 2);
    let before = qt.element_index_for_region[5][3].clone();
    qt.bind(5, 3, 9);
    qt.unbind(5, 3, 9);
    assert_eq!(qt.element_index_for_region[5][3], before);
}
