use atlas_editor::hittest::{HitTestTreeData, HitTestTreeManager};

fn node(data: u32) -> HitTestTreeData<u32> {
    HitTestTreeData { parent: None, children: Vec::new(), data }
}

#[test]
fn allocation_appends_and_reuses_the_smallest_free_slot() {
    let mut ht: HitTestTreeManager<u32> = HitTestTreeManager::new();
    let a = ht.allocate(node(0));
    let b = ht.allocate(node(1));
    let c = ht.allocate(node(2));
    assert_eq!((a.index(), b.index(), c.index()), (0, 1, 2));
    ht.free(c);
    ht.free(a);
    let d = ht.allocate(node(3));
    assert_eq!(d.index(), 0);
    assert_eq!(ht.get(d).data, 3);
    let e = ht.allocate(node(4));
    assert_eq!(e.index(), 2);
    let f = ht.allocate(node(5));
    assert_eq!(f.index(), 3);
    assert_eq!(ht.entities.len(), 4);
    assert!(ht.free.is_empty());
}

#[test]
fn add_child_links_both_ways() {
    let mut ht: HitTestTreeManager<u32> = HitTestTreeManager::new();
    let p = ht.allocate(node(0));
    let c1 = ht.allocate(node(1));
    let c2 = ht.allocate(node(2));
    ht.add_child(p, c1);
    ht.add_child(p, c2);
    assert_eq!(ht.get(p).children, vec![c1, c2]);
    assert_eq!(ht.get(c1).parent, Some(p));
    assert_eq!(ht.get(c2).parent, Some(p));
}

#[test]
fn remove_child_detaches_only_that_child() {
    let mut ht: HitTestTreeManager<u32> = HitTestTreeManager::new();
    let p = ht.allocate(node(0));
    let c1 = ht.allocate(node(1));
    let c2 = ht.allocate(node(2));
    ht.add_child(p, c1);
    ht.add_child(p, c2);
    ht.remove_child(c1);
    assert_eq!(ht.get(p).children, vec![c2]);
    assert_eq!(ht.get(c1).parent, None);
    assert_eq!(ht.get(c2).parent, Some(p));
    // a node without a parent is left as it is
    ht.remove_child(c1);
    assert_eq!(ht.get(p).children, vec![c2]);
}

#[test]
fn add_then_remove_child_restores_the_parent() {
    let mut ht: HitTestTreeManager<u32> = HitTestTreeManager::new();
    let p = ht.allocate(node(0));
    let c1 = ht.allocate(node(1));
    let c2 = ht.allocate(node(2));
    ht.add_child(p, c1);
    let before = ht.get(p).children.clone();
    ht.add_child(p, c2);
    ht.remove_child(c2);
    assert_eq!(ht.get(p).children, before);
}

#[test]
fn get_mut_changes_the_node() {
    let mut ht: HitTestTreeManager<u32> = HitTestTreeManager::new();
    let a = ht.allocate(node(0));
    ht.get_mut(a).data = 42;
    assert_eq!(ht.get(a).data, 42);
}

#[test]
fn free_rec_frees_exactly_the_subtree() {
    let mut ht: HitTestTreeManager<u32> = HitTestTreeManager::new();
    let root = ht.allocate(node(0));
    let a = ht.allocate(node(1));
    let b = ht.allocate(node(2));
    let a1 = ht.allocate(node(3));
    let a2 = ht.allocate(node(4));
    ht.add_child(root, a);
    ht.add_child(root, b);
    ht.add_child(a, a1);
    ht.add_child(a, a2);
    ht.free_rec(a);
    let freed: Vec<usize> = ht.free.iter().copied().collect();
    assert_eq!(freed, vec![a.index(), a1.index(), a2.index()]);
    assert_eq!(ht.entities.len(), 5);
    ht.free_rec(root);
    let freed: Vec<usize> = ht.free.iter().copied().collect();
    assert_eq!(freed, vec![0, 1, 2, 3, 4]);
}

#[test]
fn free_rec_ignores_a_cycle_elsewhere() {
    let mut ht: HitTestTreeManager<u32> = HitTestTreeManager::new();
    let root = ht.allocate(node(0));
    let a = ht.allocate(node(1));
    let looped = ht.allocate(node(2));
    ht.add_child(root, a);
    // a stale node whose child links loop back to itself
    ht.add_child(looped, looped);
    ht.free_rec(a);
    let freed: Vec<usize> = ht.free.iter().copied().collect();
    assert_eq!(freed, vec![a.index()]);
    assert_eq!(ht.get(root).children, vec![a]);
}

