use exo_engine::docking::Direction;
use exo_engine::rect::SplitDirection;
use exo_engine::swapchain::{swapchain_image_count, swapchain_size};
use exo_engine::ui::{Activation, WidgetLook};

#[test]
fn split_directions() {
    assert!(SplitDirection::Left.is_horizontal());
    assert!(SplitDirection::Right.is_horizontal());
    assert!(!SplitDirection::Top.is_horizontal());
    assert!(SplitDirection::Top.is_vertical());
    assert!(SplitDirection::Bottom.is_vertical());
    assert!(!SplitDirection::Left.is_vertical());
    assert_eq!(Direction::from(SplitDirection::Top), Direction::Horizontal);
    assert_eq!(Direction::from(SplitDirection::Right), Direction::Vertical);
}

#[test]
fn activation_ids() {
    let mut a = Activation { focused: None, active: Some(3), gen: 0 };
    assert_eq!(a.make_id(), 0);
    assert_eq!(a.make_id(), 1);
    assert_eq!(a.gen, 2);
    assert_eq!(a.active, Some(3));
}

#[test]
fn profile_hooks_do_nothing() {
    exo_engine::profile::init();
    exo_engine::profile::next_frame();
}

#[test]
fn button_click_needs_press_and_release() {
    let mut a = Activation { focused: None, active: None, gen: 0 };
    // Frame 1: the mouse goes down over widget 0.
    a.new_frame();
    let id = a.make_id();
    assert_eq!(id, 0);
    a.hover(id, true, true);
    assert_eq!(a.look(id), WidgetLook::Pressed);
    assert!(!a.has_clicked(id, true));
    a.end_frame(true);
    assert_eq!(a.active, Some(0));
    // Frame 2: released over it: a click.
    a.new_frame();
    assert_eq!(a.gen, 0);
    assert_eq!(a.focused, None);
    let id = a.make_id();
    a.hover(id, true, false);
    assert!(a.has_clicked(id, false));
    a.end_frame(false);
    assert_eq!(a.active, None);
}

#[test]
fn release_without_press_is_no_click() {
    let mut a = Activation { focused: None, active: None, gen: 0 };
    let first = a.make_id();
    let second = a.make_id();
    assert_eq!((first, second), (0, 1));
    a.hover(second, true, false);
    assert_eq!(a.look(second), WidgetLook::Hovered);
    assert_eq!(a.look(first), WidgetLook::Idle);
    assert!(!a.has_clicked(second, false));
    // Another widget held: hovering does not steal activation.
    let mut b = Activation { focused: None, active: Some(7), gen: 0 };
    b.hover(3, true, true);
    assert_eq!(b.active, Some(7));
    assert_eq!(b.focused, Some(3));
    assert!(!b.has_clicked(3, false));
}

#[test]
fn swapchain_size_prefers_request_then_surface() {
    assert_eq!(swapchain_size(Some([3, 4]), [800, 600]), [3, 4]);
    assert_eq!(swapchain_size(None, [800, 600]), [800, 600]);
    assert_eq!(swapchain_size(None, [0xFFFF_FFFF, 600]), [1024, 1024]);
    assert_eq!(swapchain_size(None, [800, 0xFFFF_FFFF]), [1024, 1024]);
}

#[test]
fn swapchain_image_count_within_bounds() {
    assert_eq!(swapchain_image_count(2, 0), 3);
    assert_eq!(swapchain_image_count(2, 8), 3);
    assert_eq!(swapchain_image_count(3, 3), 3);
    assert_eq!(swapchain_image_count(1, 1), 1);
}
