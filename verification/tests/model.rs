use atlas_editor::app_state::{AppState, SpriteInfo};
use atlas_editor::coordinate::SizePixels;

fn sprite(name: &str, width: u32, height: u32) -> SpriteInfo {
    SpriteInfo::new(name.to_string(), format!("/src/{name}.png"), width, height)
}

#[test]
fn new_sprite_is_unplaced_and_unselected() {
    let s = sprite("a", 10, 20);
    assert_eq!(s.name, "a");
    assert_eq!(s.source_path, "/src/a.png");
    assert_eq!((s.width, s.height), (10, 20));
    assert_eq!((s.left, s.top), (0, 0));
    assert_eq!((s.left_slice, s.right_slice, s.top_slice, s.bottom_slice), (0, 0, 0, 0));
    assert!(!s.selected);
    assert_eq!(s.right(), 10);
    assert_eq!(s.bottom(), 20);
}

#[test]
fn new_sprite_gets_a_version_4_uuid() {
    let a = sprite("a", 1, 1);
    let b = sprite("b", 1, 1);
    assert_eq!((a.id() >> 76) & 0xf, 4);
    assert_eq!((a.id() >> 62) & 0x3, 2);
    assert_eq!(a.id(), a.id);
    assert_ne!(a.id(), b.id());
}

#[test]
fn new_state_is_empty() {
    let st = AppState::new();
    assert_eq!(st.atlas_size(), SizePixels { width: 32, height: 32 });
    assert!(st.sprites().is_empty());
    assert!(!st.is_visible_menu());
}

#[test]
fn toggle_menu_twice_restores() {
    let mut st = AppState::new();
    st.toggle_menu();
    assert!(st.is_visible_menu());
    st.toggle_menu();
    assert!(!st.is_visible_menu());
}

#[test]
fn adding_sprites_grows_the_atlas_to_powers_of_two() {
    let mut st = AppState::new();
    let changed = st.add_sprites(vec![sprite("a", 40, 10)]);
    assert!(changed);
    assert_eq!(st.atlas_size(), SizePixels { width: 64, height: 32 });
    let changed = st.add_sprites(vec![sprite("b", 8, 8), sprite("c", 30, 100)]);
    assert!(changed);
    assert_eq!(st.atlas_size(), SizePixels { width: 64, height: 128 });
    assert_eq!(st.sprites().len(), 3);
    assert_eq!(st.sprites()[2].name, "c");
}

#[test]
fn adding_sprites_that_fit_keeps_the_atlas() {
    let mut st = AppState::new();
    let changed = st.add_sprites(vec![sprite("a", 32, 32), sprite("b", 1, 1)]);
    assert!(!changed);
    assert_eq!(st.atlas_size(), SizePixels { width: 32, height: 32 });
    let changed = st.add_sprites(Vec::new());
    assert!(!changed);
}

#[test]
fn moving_a_sprite_grows_the_atlas_and_never_shrinks_it() {
    let mut st = AppState::new();
    st.add_sprites(vec![sprite("a", 10, 10), sprite("b", 5, 5)]);
    let changed = st.set_sprite_offset(1, 100, 3);
    assert!(changed);
    assert_eq!((st.sprites()[1].left, st.sprites()[1].top), (100, 3));
    assert_eq!(st.atlas_size(), SizePixels { width: 128, height: 32 });
    let changed = st.set_sprite_offset(1, 0, 0);
    assert!(!changed);
    assert_eq!(st.atlas_size(), SizePixels { width: 128, height: 32 });
    assert_eq!((st.sprites()[0].left, st.sprites()[0].top), (0, 0));
}

#[test]
fn selecting_marks_exactly_one_sprite() {
    let mut st = AppState::new();
    st.add_sprites(vec![sprite("a", 1, 1), sprite("b", 1, 1), sprite("c", 1, 1)]);
    st.select_sprite(1);
    let sel: Vec<bool> = st.sprites().iter().map(|s| s.selected).collect();
    assert_eq!(sel, vec![false, true, false]);
    st.select_sprite(2);
    let sel: Vec<bool> = st.sprites().iter().map(|s| s.selected).collect();
    assert_eq!(sel, vec![false, false, true]);
    let with_index = st.selected_sprites_with_index();
    assert_eq!(with_index.len(), 1);
    assert_eq!(with_index[0].0, 2);
    assert_eq!(with_index[0].1.name, "c");
    st.deselect_sprite();
    assert!(st.sprites().iter().all(|s| !s.selected));
    assert!(st.selected_sprites_with_index().is_empty());
}

#[test]
fn selecting_past_the_end_clears_the_selection() {
    let mut st = AppState::new();
    st.add_sprites(vec![sprite("a", 1, 1)]);
    st.select_sprite(0);
    st.select_sprite(5);
    assert!(st.sprites().iter().all(|s| !s.selected));
}

#[test]
fn save_order_sorts_by_id_and_keeps_ties_in_order() {
    let mut a = sprite("a", 1, 1);
    let mut b = sprite("b", 1, 1);
    let mut c = sprite("c", 1, 1);
    let mut d = sprite("d", 1, 1);
    a.id = 30;
    b.id = 10;
    c.id = 30;
    d.id = 20;
    let mut st = AppState::new();
    st.add_sprites(vec![a, b, c, d]);
    assert_eq!(st.save_order(), vec![1, 3, 0, 2]);
    assert!(AppState::new().save_order().is_empty());
}

#[test]
fn every_sprite_stays_inside_a_power_of_two_atlas() {
    let mut st = AppState::new();
    st.add_sprites(vec![sprite("a", 300, 17), sprite("b", 5, 1000)]);
    st.set_sprite_offset(0, 1000, 2000);
    let size = st.atlas_size();
    assert!(size.width.is_power_of_two() && size.height.is_power_of_two());
    assert!(size.width >= 32 && size.height >= 32);
    for s in st.sprites() {
        assert!(s.right() <= size.width && s.bottom() <= size.height);
    }
    assert_eq!(size, SizePixels { width: 2048, height: 2048 });
}
