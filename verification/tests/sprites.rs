use atlas_editor::app_state::SpriteInfo;
use atlas_editor::sprite_index::SpriteRectIndex;

fn placed(left: u32, top: u32, width: u32, height: u32) -> SpriteInfo {
    let mut s = SpriteInfo::new("s".to_string(), "/s.png".to_string(), width, height);
    s.left = left;
    s.top = top;
    s
}

#[test]
fn sync_records_the_rectangles() {
    let mut index = SpriteRectIndex::new();
    index.sync(&[placed(0, 0, 40, 40), placed(100, 100, 50, 20)]);
    assert_eq!(index.rects, vec![(0, 0, 40, 40), (100, 100, 150, 120)]);
}

#[test]
fn pick_takes_the_topmost_sprite_under_the_pixel() {
    let mut index = SpriteRectIndex::new();
    index.sync(&[placed(0, 0, 100, 100), placed(20, 20, 40, 40), placed(200, 200, 40, 40)]);
    assert_eq!(index.pick(30, false, 30, false), Some(1));
    assert_eq!(index.pick(10, false, 10, false), Some(0));
    assert_eq!(index.pick(100, false, 100, false), Some(0));
    assert_eq!(index.pick(210, false, 230, false), Some(2));
    assert_eq!(index.pick(150, false, 150, false), None);
}

#[test]
fn sync_follows_moves_and_removals() {
    let mut index = SpriteRectIndex::new();
    index.sync(&[placed(0, 0, 40, 40), placed(100, 100, 40, 40)]);
    assert_eq!(index.pick(110, false, 110, false), Some(1));
    index.sync(&[placed(0, 0, 40, 40), placed(300, 300, 40, 40)]);
    assert_eq!(index.pick(110, false, 110, false), None);
    assert_eq!(index.pick(310, false, 310, false), Some(1));
    index.sync(&[placed(0, 0, 40, 40)]);
    assert_eq!(index.pick(310, false, 310, false), None);
    assert_eq!(index.rects.len(), 1);
    assert_eq!(index.pick(5, false, 5, false), Some(0));
}

#[test]
fn a_sprite_inside_one_cell_is_not_picked() {
    let mut index = SpriteRectIndex::new();
    index.sync(&[placed(0, 0, 8, 8)]);
    assert_eq!(index.pick(4, false, 4, false), None);
}

#[test]
fn pick_compares_the_exact_position_with_the_edges() {
    let mut index = SpriteRectIndex::new();
    index.sync(&[placed(0, 0, 100, 100)]);
    // exactly on the right and bottom edges
    assert_eq!(index.pick(100, false, 100, false), Some(0));
    // half a pixel past the right edge, or past the bottom edge
    assert_eq!(index.pick(100, true, 50, false), None);
    assert_eq!(index.pick(50, false, 100, true), None);
    // inside, with a fractional part
    assert_eq!(index.pick(99, true, 0, true), Some(0));
}
