use atlas_editor::app_state::SpriteInfo;
use atlas_editor::texture_atlas::{
    ATLAS_TEXTURE_SIZE, SimpleTextureAtlas, SourcePlacement, SpriteSourceLayout,
};

#[test]
fn images_fill_a_shelf_left_to_right() {
    let mut a = SimpleTextureAtlas::new();
    assert_eq!(a.allocate(100, 50), Some((0, 0)));
    assert_eq!(a.allocate(200, 30), Some((100, 0)));
    assert_eq!(a, SimpleTextureAtlas { current_top: 0, current_left: 300, max_height: 50 });
}

#[test]
fn a_new_shelf_answers_the_end_of_the_old_one() {
    let mut a = SimpleTextureAtlas::new();
    assert_eq!(a.allocate(4000, 10), Some((0, 0)));
    assert_eq!(a.allocate(200, 20), Some((4000, 0)));
    assert_eq!(a, SimpleTextureAtlas { current_top: 10, current_left: 0, max_height: 20 });
}

#[test]
fn no_room_leaves_the_allocator_unchanged() {
    let mut a = SimpleTextureAtlas::new();
    assert_eq!(a.allocate(10, ATLAS_TEXTURE_SIZE + 1), None);
    assert_eq!(a, SimpleTextureAtlas::new());
    assert_eq!(a.allocate(ATLAS_TEXTURE_SIZE, 4000), Some((0, 0)));
    assert_eq!(a.allocate(1, 100), None);
    assert_eq!(a, SimpleTextureAtlas { current_top: 0, current_left: ATLAS_TEXTURE_SIZE, max_height: 4000 });
}

#[test]
fn sources_are_placed_once_per_path() {
    let s1 = SpriteInfo::new("a".to_string(), "/x.png".to_string(), 10, 10);
    let s2 = SpriteInfo::new("b".to_string(), "/y.png".to_string(), 20, 5);
    let s3 = SpriteInfo::new("c".to_string(), "/x.png".to_string(), 10, 10);
    let mut layout = SpriteSourceLayout::new();
    let r = layout.place_sprite_sources(&[s1, s2, s3]);
    assert_eq!(
        r,
        vec![SourcePlacement::New(0, 0), SourcePlacement::New(10, 0), SourcePlacement::Known(0, 0)]
    );
    assert_eq!(layout.offsets.len(), 2);
    assert_eq!(layout.offsets[1], ("/y.png".to_string(), 10, 0));
    let s4 = SpriteInfo::new("d".to_string(), "/y.png".to_string(), 20, 5);
    let again = layout.place_sprite_sources(&[s4]);
    assert_eq!(again, vec![SourcePlacement::Known(10, 0)]);
}

#[test]
fn a_source_without_room_is_left_out() {
    let big = SpriteInfo::new("a".to_string(), "/big.png".to_string(), 10, ATLAS_TEXTURE_SIZE + 1);
    let mut layout = SpriteSourceLayout::new();
    assert_eq!(layout.place_sprite_sources(&[big]), vec![SourcePlacement::NoRoom]);
    assert!(layout.offsets.is_empty());
}
