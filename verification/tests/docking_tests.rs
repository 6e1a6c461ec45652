use exo_engine::docking::{Area, Docking, DockingEvent, DropTabEvent};
use exo_engine::rect::SplitDirection;

#[test]
fn docking_new_tab_goes_to_root() {
    let mut d: Docking<u32> = Docking::new(0);
    assert!(d.can_show_tabview("scene"));
    assert!(d.tabview("scene").is_none());
    assert_eq!(d.tab_count(), 1);
    let root = d.root();
    d.update_selection(root);
    let shown = d.tabview("scene").unwrap();
    assert!(shown.same(&root));
    assert_eq!(d.tab_count(), 1);
    match d.area(root) {
        Area::Container(c) => {
            assert_eq!(c.tabviews, vec![0]);
            assert_eq!(c.selected, Some(0));
        }
        Area::Splitter(_) => panic!("root should be a container"),
    }
}

#[test]
fn docking_split_moves_tab() {
    let mut d: Docking<u32> = Docking::new(0);
    d.tabview("a");
    d.tabview("b");
    let root = d.root();
    let event = DockingEvent::Split(SplitDirection::Right, 1, root);
    assert!(d.can_apply_event(&event));
    d.apply_event(event, 1, 2, 3);
    let (left, right) = match d.area(root) {
        Area::Splitter(sp) => (sp.left_child, sp.right_child),
        Area::Container(_) => panic!("root should be a splitter"),
    };
    match d.area(right) {
        Area::Container(c) => {
            assert_eq!(c.tabviews, vec![1]);
            assert_eq!(c.selected, Some(0));
            assert_eq!(c.layout, 1);
        }
        Area::Splitter(_) => panic!("new area should be a container"),
    }
    match d.area(left) {
        Area::Container(c) => assert_eq!(c.tabviews, vec![0]),
        Area::Splitter(_) => panic!("copy should be a container"),
    }
    assert!(d.tab(0).area.same(&left));
    assert!(d.tab(1).area.same(&right));
    assert_eq!(d.find_parent(root, right).map(|h| h.same(&root)), Some(true));
    assert!(d.find_parent(root, root).is_none());
    // The default area (the root) is now a splitter: a new tab has nowhere to go.
    assert!(!d.can_show_tabview("c"));
}

#[test]
fn docking_drop_and_detach() {
    let mut d: Docking<u32> = Docking::new(0);
    d.tabview("a");
    d.tabview("b");
    let root = d.root();
    d.apply_event(DockingEvent::DetachTab(0), 0, 9, 0);
    let floating = d.floating_containers();
    assert_eq!(floating.len(), 1);
    assert!(d.tab(0).area.same(&floating[0]));
    match d.area(floating[0]) {
        Area::Container(c) => {
            assert_eq!(c.tabviews, vec![0]);
            assert_eq!(c.layout, 9);
        }
        Area::Splitter(_) => panic!("floating area should be a container"),
    }
    match d.area(root) {
        Area::Container(c) => assert_eq!(c.tabviews, vec![1]),
        Area::Splitter(_) => panic!("root should be a container"),
    }
    let drop = DockingEvent::DropTab(DropTabEvent { i_tabview: 0, in_container: root });
    assert!(d.can_apply_event(&drop));
    d.apply_event(drop, 0, 0, 0);
    match d.area(root) {
        Area::Container(c) => assert_eq!(c.tabviews, vec![1, 0]),
        Area::Splitter(_) => panic!("root should be a container"),
    }
    assert!(d.tab(0).area.same(&root));
    assert!(!d.can_apply_event(&DockingEvent::DetachTab(5)));
}

#[test]
fn docking_events_queue_and_selection() {
    let mut d: Docking<u32> = Docking::new(0);
    d.tabview("a");
    let root = d.root();
    d.push_event(DockingEvent::DetachTab(0));
    d.set_active_tab(Some(0));
    assert_eq!(d.active_tab(), Some(0));
    let events = d.take_events();
    assert_eq!(events.len(), 1);
    assert!(d.take_events().is_empty());
    d.select_tab(root, 4);
    d.update_selection(root);
    match d.area(root) {
        Area::Container(c) => assert_eq!(c.selected, Some(0)),
        Area::Splitter(_) => panic!("root should be a container"),
    }
    d.set_layout(root, 7);
    match d.area(root) {
        Area::Container(c) => assert_eq!(c.layout, 7),
        Area::Splitter(_) => panic!("root should be a container"),
    }
}

#[test]
fn docking_tabview_called_twice() {
    let mut d: Docking<u32> = Docking::new(0);
    assert!(d.tabview("A").is_none());
    assert_eq!(d.tab_count(), 1);
    assert_eq!(d.tab(0).title, "A");
    assert!(d.tab(0).area.same(&d.root()));
    assert!(d.can_show_tabview("A"));
    assert!(d.tabview("A").is_none());
    assert_eq!(d.tab_count(), 1);
    match d.area(d.root()) {
        Area::Container(c) => assert_eq!(c.tabviews, vec![0]),
        Area::Splitter(_) => panic!("root should be a container"),
    }
}

#[test]
fn docking_find_parent_in_nested_splits() {
    let mut d: Docking<u32> = Docking::new(0);
    d.tabview("a");
    d.tabview("b");
    d.tabview("c");
    let root = d.root();
    d.apply_event(DockingEvent::Split(SplitDirection::Right, 1, root), 0, 0, 0);
    let left = match d.area(root) {
        Area::Splitter(sp) => sp.left_child,
        Area::Container(_) => panic!("root should be a splitter"),
    };
    let event = DockingEvent::Split(SplitDirection::Bottom, 2, left);
    assert!(d.can_apply_event(&event));
    d.apply_event(event, 0, 0, 0);
    let (inner_left, inner_right) = match d.area(left) {
        Area::Splitter(sp) => (sp.left_child, sp.right_child),
        Area::Container(_) => panic!("left should be a splitter"),
    };
    assert_eq!(d.find_parent(root, inner_right).map(|h| h.same(&left)), Some(true));
    assert_eq!(d.find_parent(root, inner_left).map(|h| h.same(&left)), Some(true));
    assert_eq!(d.find_parent(root, left).map(|h| h.same(&root)), Some(true));
    assert!(d.find_parent(inner_left, inner_right).is_none());
}

#[test]
fn docking_update_selections_fixes_every_container() {
    let mut d: Docking<u32> = Docking::new(0);
    d.tabview("a");
    d.tabview("b");
    let root = d.root();
    d.apply_event(DockingEvent::Split(SplitDirection::Left, 1, root), 0, 0, 0);
    let (left, right) = match d.area(root) {
        Area::Splitter(sp) => (sp.left_child, sp.right_child),
        Area::Container(_) => panic!("root should be a splitter"),
    };
    d.select_tab(left, 5);
    d.select_tab(right, 7);
    d.update_selections(root);
    for h in [left, right] {
        match d.area(h) {
            Area::Container(c) => {
                assert_eq!(c.tabviews.len(), 1);
                assert_eq!(c.selected, Some(0));
            }
            Area::Splitter(_) => panic!("children should be containers"),
        }
    }
}
