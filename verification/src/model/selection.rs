//! Which rooms of the drawing are selected, and what a press of the
//! mouse button does to the selection.

use vstd::prelude::*;

verus! {

/// Whether the room at place `i` is selected once the plane `group` has
/// been: it was selected before, or it lies on that plane.
pub open spec fn selected_with_plane(
    room_planes: Seq<usize>,
    selected: Seq<bool>,
    group: usize,
    i: int,
) -> bool {
    selected[i] || (i < room_planes.len() && room_planes[i] == group)
}

/// Selects every room of the plane `group`; the other rooms stay as they
/// are. `room_planes` holds the plane of each room, place by place.
pub fn select_all_in_plane(room_planes: &Vec<usize>, selected: &mut Vec<bool>, group: usize)
    ensures
        final(selected).len() == old(selected).len(),
        forall|i: int|
            0 <= i < old(selected).len() ==> #[trigger] final(selected)[i] == selected_with_plane(
                room_planes@,
                old(selected)@,
                group,
                i,
            ),
{
    let mut i: usize = 0;
    while i < selected.len() && i < room_planes.len()
        invariant
            selected.len() == old(selected).len(),
            forall|j: int|
                0 <= j < i ==> #[trigger] selected[j] == selected_with_plane(
                    room_planes@,
                    old(selected)@,
                    group,
                    j,
                ),
            forall|j: int| i <= j < selected.len() ==> #[trigger] selected[j] == old(selected)[j],
        decreases selected.len() - i,
    {
        if room_planes[i] == group {
            selected[i] = true;
        }
        i = i + 1;
    }
}

/// What the drag in progress is applied to before the selection changes.
#[derive(Debug, Clone, Copy, PartialEq, Eq, Structural)]
pub enum Settle {
    /// The drag goes on as it is.
    Nothing,
    /// The drag is applied to the room at this place, which leaves the
    /// selection.
    Room(usize),
    /// The drag is applied to every selected room and ends.
    Selection,
}

/// What becomes of the guides that a drag snaps to.
#[derive(Debug, Clone, Copy, PartialEq, Eq, Structural)]
pub enum Guides {
    Keep,
    Recalculate,
    Clear,
}

/// What a press of the button does.
#[derive(Debug, Clone, PartialEq, Eq)]
pub struct Press {
    /// What the drag in progress is applied to, with the selection as it
    /// was before the press.
    pub settle: Settle,
    /// The selection after the press.
    pub selected: Vec<bool>,
    pub guides: Guides,
}

/// What a press settles. On a room, with the modifier held: the room
/// alone where it was selected, the selection where it was not. On an
/// unselected room without the modifier, and off all rooms without the
/// modifier: the selection. Else nothing.
pub open spec fn settle_of(selected: Seq<bool>, grabbed: Option<usize>, toggle: bool) -> Settle {
    match grabbed {
        Some(at) => if toggle && selected[at as int] {
            Settle::Room(at)
        } else if !selected[at as int] {
            Settle::Selection
        } else {
            Settle::Nothing
        },
        None => if toggle {
            Settle::Nothing
        } else {
            Settle::Selection
        },
    }
}

/// What a press does to the guides: off all rooms it clears them unless
/// the modifier is held; on a room it recalculates them whenever the
/// selection may have changed.
pub open spec fn guides_of(
    selected: Seq<bool>,
    grabbed: Option<usize>,
    toggle: bool,
    double_click: bool,
) -> Guides {
    match grabbed {
        Some(at) => if toggle || !selected[at as int] || double_click {
            Guides::Recalculate
        } else {
            Guides::Keep
        },
        None => if toggle {
            Guides::Keep
        } else {
            Guides::Clear
        },
    }
}

/// Whether the room at place `i` is selected after a single press. With
/// the modifier held a press on a room toggles it and leaves the others.
/// Without it a press on an unselected room selects that room alone, a
/// press on a selected room changes nothing, and a press off all rooms
/// clears the selection.
pub open spec fn selected_after_click(
    selected: Seq<bool>,
    grabbed: Option<usize>,
    toggle: bool,
    i: int,
) -> bool {
    match grabbed {
        Some(at) => if toggle {
            if i == at {
                !selected[i]
            } else {
                selected[i]
            }
        } else if selected[at as int] {
            selected[i]
        } else {
            i == at
        },
        None => toggle && selected[i],
    }
}

/// Whether the room at place `i` is selected after a press: after the
/// single press, and where the press is the second of a double click on
/// a room, with the plane of that room selected as well.
pub open spec fn selected_after(
    selected: Seq<bool>,
    room_planes: Seq<usize>,
    grabbed: Option<usize>,
    toggle: bool,
    double_click: bool,
    i: int,
) -> bool {
    selected_after_click(selected, grabbed, toggle, i) || (double_click && grabbed is Some && i
        < room_planes.len() && room_planes[i] == room_planes[grabbed.unwrap() as int])
}

/// Works out what a press of the button does. `grabbed` is the place of
/// the room under the pointer, if there is one; `toggle` tells whether
/// the modifier that toggles rooms is held; `double_click` whether the
/// press is the second of a double click.
pub fn press(
    selected: &Vec<bool>,
    room_planes: &Vec<usize>,
    grabbed: Option<usize>,
    toggle: bool,
    double_click: bool,
) -> (r: Press)
    requires
        grabbed matches Some(at) ==> at < selected.len() && at < room_planes.len(),
    ensures
        r.settle == settle_of(selected@, grabbed, toggle),
        r.guides == guides_of(selected@, grabbed, toggle, double_click),
        r.selected.len() == selected.len(),
        forall|i: int|
            0 <= i < selected.len() ==> #[trigger] r.selected[i] == selected_after(
                selected@,
                room_planes@,
                grabbed,
                toggle,
                double_click,
                i,
            ),
{
    let settle = match grabbed {
        Some(at) => if toggle && selected[at] {
            Settle::Room(at)
        } else if !selected[at] {
            Settle::Selection
        } else {
            Settle::Nothing
        },
        None => if toggle {
            Settle::Nothing
        } else {
            Settle::Selection
        },
    };
    let guides = match grabbed {
        Some(at) => if toggle || !selected[at] || double_click {
            Guides::Recalculate
        } else {
            Guides::Keep
        },
        None => if toggle {
            Guides::Keep
        } else {
            Guides::Clear
        },
    };
    let mut after: Vec<bool> = Vec::new();
    let mut i: usize = 0;
    while i < selected.len()
        invariant
            i <= selected.len(),
            after.len() == i,
            grabbed matches Some(at) ==> at < selected.len() && at < room_planes.len(),
            forall|j: int|
                0 <= j < i ==> #[trigger] after[j] == selected_after_click(
                    selected@,
                    grabbed,
                    toggle,
                    j,
                ),
        decreases selected.len() - i,
    {
        let now = match grabbed {
            Some(at) => if toggle {
                if i == at {
                    !selected[i]
                } else {
                    selected[i]
                }
            } else if selected[at] {
                selected[i]
            } else {
                i == at
            },
            None => toggle && selected[i],
        };
        after.push(now);
        i = i + 1;
    }
    if double_click {
        if let Some(at) = grabbed {
            select_all_in_plane(room_planes, &mut after, room_planes[at]);
        }
    }
    Press { settle, selected: after, guides }
}

} // verus!
