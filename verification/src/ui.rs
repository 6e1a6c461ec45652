use vstd::prelude::*;

verus! {

/// Immediate-mode widget activation: the widget under the mouse, the widget
/// being pressed, and the counter that numbers widgets within a frame.
pub struct Activation {
    pub focused: Option<u64>,
    pub active: Option<u64>,
    pub gen: u64,
}

/// How a widget is drawn, from the activation state.
#[derive(Clone, Copy, Debug, PartialEq, Eq, Structural)]
pub enum WidgetLook {
    /// Focused and active: the mouse button went down on it and it is still
    /// under the mouse.
    Pressed,
    /// Under the mouse.
    Hovered,
    /// Neither.
    Idle,
}

/// The activation after widget `id` saw the mouse: a hovered widget becomes
/// focused, and active when the button is down while no widget is active.
pub open spec fn hovered(a: Activation, id: u64, hovering: bool, left_mouse_button_pressed: bool) -> Activation {
    if hovering {
        Activation {
            focused: Some(id),
            active: if a.active is None && left_mouse_button_pressed {
                Some(id)
            } else {
                a.active
            },
            gen: a.gen,
        }
    } else {
        a
    }
}

/// Whether widget `id` is clicked: the button is up while the widget is both
/// focused and active.
pub open spec fn clicked(a: Activation, id: u64, left_mouse_button_pressed: bool) -> bool {
    !left_mouse_button_pressed && a.focused == Some(id) && a.active == Some(id)
}

/// The look of widget `id`.
pub open spec fn look_of(a: Activation, id: u64) -> WidgetLook {
    if a.focused == Some(id) && a.active == Some(id) {
        WidgetLook::Pressed
    } else if a.focused == Some(id) {
        WidgetLook::Hovered
    } else {
        WidgetLook::Idle
    }
}

impl Activation {
    /// Hands out the next widget id of the frame.
    pub fn make_id(&mut self) -> (id: u64)
        requires
            old(self).gen < u64::MAX,
        ensures
            id == old(self).gen,
            final(self).gen == old(self).gen + 1,
            final(self).focused == old(self).focused,
            final(self).active == old(self).active,
    {
        let new_id = self.gen;
        self.gen += 1;
        new_id
    }

    /// Starts a frame: ids count from zero again and no widget is focused;
    /// the active widget stays active.
    pub fn new_frame(&mut self)
        ensures
            final(self).gen == 0,
            final(self).focused is None,
            final(self).active == old(self).active,
    {
        self.gen = 0;
        self.focused = None;
    }

    /// Ends a frame: once the mouse button is up, no widget stays active.
    pub fn end_frame(&mut self, left_mouse_button_pressed: bool)
        ensures
            final(self).gen == old(self).gen,
            final(self).focused == old(self).focused,
            final(self).active == if left_mouse_button_pressed {
                old(self).active
            } else {
                None
            },
    {
        if !left_mouse_button_pressed {
            self.active = None;
        }
    }

    /// Whether widget `id` is clicked.
    pub fn has_clicked(&self, id: u64, left_mouse_button_pressed: bool) -> (r: bool)
        ensures
            r == clicked(*self, id, left_mouse_button_pressed),
    {
        !left_mouse_button_pressed && self.focused == Some(id) && self.active == Some(id)
    }

    /// Lets widget `id` react to the mouse.
    pub fn hover(&mut self, id: u64, hovering: bool, left_mouse_button_pressed: bool)
        ensures
            *final(self) == hovered(*old(self), id, hovering, left_mouse_button_pressed),
            !hovering ==> *final(self) == *old(self),
            final(self).active != old(self).active ==> hovering && left_mouse_button_pressed
                && old(self).active is None && final(self).active == Some(id),
            hovering ==> final(self).focused == Some(id),
            final(self).gen == old(self).gen,
    {
        if hovering {
            self.focused = Some(id);
            if self.active.is_none() && left_mouse_button_pressed {
                self.active = Some(id);
            }
        }
    }

    /// The look of widget `id`.
    pub fn look(&self, id: u64) -> (r: WidgetLook)
        ensures
            r == look_of(*self, id),
    {
        if self.focused == Some(id) && self.active == Some(id) {
            WidgetLook::Pressed
        } else if self.focused == Some(id) {
            WidgetLook::Hovered
        } else {
            WidgetLook::Idle
        }
    }
}

/// Ids handed out one after the other within a frame are distinct and
/// increasing.
pub proof fn law_ids_increase(gen0: u64, id0: u64, gen1: u64, id1: u64)
    requires
        id0 == gen0,
        gen1 == gen0 + 1,
        id1 == gen1,
    ensures
        id0 < id1,
{
}

/// A widget the mouse is not over changes nothing: it takes neither the
/// focus nor the activation, whatever the button does.
pub proof fn law_unhovered_widget_changes_nothing(a: Activation, id: u64, left_mouse_button_pressed: bool)
    ensures
        hovered(a, id, false, left_mouse_button_pressed) == a,
{
}

/// Only the widget under the mouse, with the button down and no widget
/// active yet, takes the activation; the focus goes only to the hovered
/// widget; the id counter is untouched.
pub proof fn law_activation_needs_hover_and_press(
    a: Activation,
    id: u64,
    hovering: bool,
    left_mouse_button_pressed: bool,
)
    ensures
        hovered(a, id, hovering, left_mouse_button_pressed).active != a.active ==> hovering
            && left_mouse_button_pressed && a.active is None && hovered(
            a,
            id,
            hovering,
            left_mouse_button_pressed,
        ).active == Some(id),
        hovered(a, id, hovering, left_mouse_button_pressed).focused != a.focused ==> hovering,
        hovering ==> hovered(a, id, hovering, left_mouse_button_pressed).focused == Some(id),
        hovered(a, id, hovering, left_mouse_button_pressed).gen == a.gen,
{
}

/// Two widgets in one frame, the first not under the mouse and the second
/// under it: pressing activates the second, and releasing over it in the
/// next frame clicks it (and not the first), whose look is then pressed.
pub proof fn law_press_and_release_over_second_widget(a: Activation, first: u64, second: u64)
    requires
        a.active is None,
        first != second,
    ensures
        ({
            let pressed = hovered(hovered(a, first, false, true), second, true, true);
            let next = Activation { focused: None, active: pressed.active, gen: 0 };
            let released = hovered(hovered(next, first, false, false), second, true, false);
            &&& pressed.active == Some(second)
            &&& look_of(pressed, second) == WidgetLook::Pressed
            &&& look_of(pressed, first) == WidgetLook::Idle
            &&& clicked(released, second, false)
            &&& !clicked(released, first, false)
        }),
{
}

/// A widget looks pressed exactly when releasing the button now would click
/// it, looks idle exactly when it is not focused, and nothing is clicked
/// while the button is held.
pub proof fn law_look_matches_click(a: Activation, id: u64)
    ensures
        look_of(a, id) == WidgetLook::Pressed <==> clicked(a, id, false),
        look_of(a, id) == WidgetLook::Idle <==> a.focused != Some(id),
        !clicked(a, id, true),
{
}

/// Once a widget is active, no other widget takes its place before the
/// mouse button is released.
pub proof fn law_active_is_kept(a: Activation, id: u64, hovering: bool, left_mouse_button_pressed: bool)
    requires
        a.active is Some,
    ensures
        hovered(a, id, hovering, left_mouse_button_pressed).active == a.active,
{
}

/// A widget the mouse button did not go down on is not clicked when the
/// button is released over it.
pub proof fn law_no_click_without_press(a: Activation, id: u64, hovering: bool)
    requires
        a.active != Some(id),
    ensures
        !clicked(hovered(a, id, hovering, false), id, false),
{
}

/// Pressing on a widget nobody holds, then releasing over it in the next
/// frame, clicks it.
pub proof fn law_press_then_release_clicks(a: Activation, id: u64)
    requires
        a.active is None,
    ensures
        ({
            let pressed = hovered(a, id, true, true);
            let next = Activation { focused: None, active: pressed.active, gen: 0 };
            clicked(hovered(next, id, true, false), id, false)
        }),
{
}

} // verus!
