use atlas_editor::hittest::{HitTestTreeData, HitTestTreeManager};
use atlas_editor::input::{
    ALL_EVENT_FLAGS, CAPTURE_ELEMENT, EventContinueControl, PointerFocusState,
    RECOMPUTE_POINTER_ENTER, RELEASE_CAPTURE_ELEMENT, STOP_PROPAGATION, bubble_next,
};

fn flags(bits: u8) -> EventContinueControl {
    EventContinueControl::from_bits_truncate(bits)
}

#[test]
fn flag_sets_combine_like_bits() {
    let stop = flags(STOP_PROPAGATION);
    let capture = flags(CAPTURE_ELEMENT);
    let both = stop.union(capture);
    assert_eq!(both.bits(), 3);
    assert!(both.contains(stop));
    assert!(both.contains(capture));
    assert!(!both.contains(flags(RELEASE_CAPTURE_ELEMENT)));
    assert!(both.contains(EventContinueControl::empty()));
    assert!(EventContinueControl::empty().is_empty());
    assert!(!both.is_empty());
    assert_eq!(EventContinueControl::all().bits(), ALL_EVENT_FLAGS);
    assert!(EventContinueControl::all().has_flag(RECOMPUTE_POINTER_ENTER));
}

#[test]
fn flag_sets_from_bits() {
    assert_eq!(EventContinueControl::from_bits(5), Some(flags(5)));
    assert_eq!(EventContinueControl::from_bits(0x10), None);
    assert_eq!(EventContinueControl::from_bits_truncate(0xff).bits(), 15);
    let mut f = EventContinueControl::empty();
    f.insert(flags(STOP_PROPAGATION | RELEASE_CAPTURE_ELEMENT));
    assert_eq!(f.bits(), 5);
    f.remove(flags(STOP_PROPAGATION));
    assert_eq!(f.bits(), 4);
}

fn tree() -> (HitTestTreeManager<u32>, atlas_editor::hittest::HitTestTreeRef, atlas_editor::hittest::HitTestTreeRef) {
    let mut ht = HitTestTreeManager::new();
    let root = ht.allocate(HitTestTreeData { parent: None, children: Vec::new(), data: 0 });
    let leaf = ht.allocate(HitTestTreeData { parent: None, children: Vec::new(), data: 1 });
    ht.add_child(root, leaf);
    (ht, root, leaf)
}

#[test]
fn bubbling_goes_to_the_parent_until_stopped() {
    let (ht, root, leaf) = tree();
    let parent = ht.get(leaf).parent;
    assert_eq!(bubble_next(parent, EventContinueControl::empty()), Some(root));
    assert_eq!(bubble_next(parent, flags(STOP_PROPAGATION)), None);
    assert_eq!(bubble_next(ht.get(root).parent, EventContinueControl::empty()), None);
    assert_eq!(bubble_next(parent, flags(CAPTURE_ELEMENT)), Some(root));
}

#[test]
fn hit_changes_send_leave_and_enter() {
    let (_ht, root, leaf) = tree();
    let mut focus = PointerFocusState::Unfocused;
    // from no focus, nothing is left and nothing is entered
    assert_eq!(focus.on_hit(Some(leaf)), (None, None));
    assert_eq!(focus, PointerFocusState::Entering(leaf));
    assert_eq!(focus.on_hit(Some(leaf)), (None, None));
    assert_eq!(focus.on_hit(Some(root)), (Some(leaf), Some(root)));
    assert_eq!(focus, PointerFocusState::Entering(root));
    assert_eq!(focus.on_hit(None), (Some(root), None));
    assert_eq!(focus, PointerFocusState::Unfocused);
}

#[test]
fn capture_then_release() {
    let (_ht, _root, leaf) = tree();
    let mut focus = PointerFocusState::Entering(leaf);
    assert_eq!(focus.entered(), Some(leaf));
    assert_eq!(focus.captured(), None);
    assert!(!focus.on_bubbled(leaf, EventContinueControl::empty()));
    assert_eq!(focus, PointerFocusState::Entering(leaf));
    assert!(focus.on_bubbled(leaf, flags(CAPTURE_ELEMENT | STOP_PROPAGATION)));
    assert_eq!(focus, PointerFocusState::Capturing(leaf));
    assert_eq!(focus.captured(), Some(leaf));
    assert_eq!(focus.entered(), None);
    assert!(!focus.on_captured(leaf, flags(STOP_PROPAGATION)));
    assert_eq!(focus, PointerFocusState::Capturing(leaf));
    assert!(focus.on_captured(leaf, flags(RELEASE_CAPTURE_ELEMENT)));
    assert_eq!(focus, PointerFocusState::Entering(leaf));
}
