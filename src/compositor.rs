//! The interactive move/resize state machine: at most one view is dragged
//! at a time, and pointer motion turns into new geometry for it.
//!
//! The machine decides; the caller performs what it returns against the
//! display server (focus, raise, resize state, geometry).
use vstd::prelude::*;

use crate::container::{Geometry, Point, Size, ViewHandle};

verus! {

/// Smallest width a resize may leave a view with.
pub const MIN_WIDTH: u32 = 80;

/// Smallest height a resize may leave a view with.
pub const MIN_HEIGHT: u32 = 40;

/// Linux input code of the left pointer button.
pub const BUTTON_LEFT: u32 = 0x110;

/// Linux input code of the right pointer button.
pub const BUTTON_RIGHT: u32 = 0x111;

/// The edges of a view that a resize moves.
#[derive(Debug, Clone, Copy, PartialEq, Eq, Structural)]
pub struct ResizeEdge {
    pub top: bool,
    pub bottom: bool,
    pub left: bool,
    pub right: bool,
}

impl ResizeEdge {
    pub fn empty() -> (r: ResizeEdge)
        ensures
            r == (ResizeEdge { top: false, bottom: false, left: false, right: false }),
    {
        ResizeEdge { top: false, bottom: false, left: false, right: false }
    }

    pub open spec fn none(&self) -> bool {
        !self.top && !self.bottom && !self.left && !self.right
    }

    pub fn is_empty(&self) -> (r: bool)
        ensures
            r == self.none(),
    {
        !self.top && !self.bottom && !self.left && !self.right
    }
}

/// What a user may ask of a view with the pointer.
#[derive(Debug, Clone, Copy, PartialEq, Eq, Structural)]
pub enum ViewAction {
    NoAction,
    Resize,
    Move,
}

impl ViewAction {
    /// Is this ViewAction set
    pub fn is_some(&self) -> (r: bool)
        ensures
            r == !(*self is NoAction),
    {
        match self {
            ViewAction::NoAction => false,
            _ => true,
        }
    }
}

/// Keyboard modifiers held during a pointer event.
#[derive(Debug, Clone, Copy, PartialEq, Eq, Structural)]
pub struct Modifiers {
    pub ctrl: bool,
    pub shift: bool,
}

/// A call the caller makes on the display server on the machine's behalf.
#[derive(Debug, Clone, Copy, PartialEq, Eq, Structural)]
pub enum PointerEffect {
    Focus(ViewHandle),
    BringToFront(ViewHandle),
    SetResizing(ViewHandle, bool),
    SetGeometry(ViewHandle, ResizeEdge, Geometry),
}

/// The drag state: the view being moved or resized, if any, the last
/// pointer position, and the edges a resize moves (none for a move).
#[derive(Debug, Clone, Copy, PartialEq, Eq, Structural)]
pub struct Compositor {
    pub view: Option<ViewHandle>,
    pub grab: Point,
    pub edges: ResizeEdge,
}

/// `v` clamped to the range of `i32`.
pub open spec fn clamp_i32(v: int) -> i32 {
    if v < i32::MIN {
        i32::MIN
    } else if v > i32::MAX {
        i32::MAX
    } else {
        v as i32
    }
}

/// One axis of a resize: the low edge moves origin and size together, the
/// high edge moves the size alone. A result smaller than `min` (or out of
/// range) leaves the axis as it was.
pub open spec fn resize_axis(low: bool, high: bool, origin: i32, size: u32, d: i32, min: u32) -> (
    i32,
    u32,
) {
    if low {
        let ns = size - d;
        let no = origin + d;
        if min <= ns <= u32::MAX && i32::MIN <= no <= i32::MAX {
            (no as i32, ns as u32)
        } else {
            (origin, size)
        }
    } else if high {
        let ns = size + d;
        if min <= ns <= u32::MAX {
            (origin, ns as u32)
        } else {
            (origin, size)
        }
    } else {
        (origin, size)
    }
}

/// The geometry after the pointer moved by `(dx, dy)`: resized on `edges`,
/// or moved when no edge is set.
pub open spec fn dragged(geo: Geometry, edges: ResizeEdge, dx: i32, dy: i32) -> Geometry {
    if edges.none() {
        Geometry {
            origin: Point {
                x: clamp_i32(geo.origin.x + dx),
                y: clamp_i32(geo.origin.y + dy),
            },
            size: geo.size,
        }
    } else {
        let (x, w) = resize_axis(edges.left, edges.right, geo.origin.x, geo.size.w, dx, MIN_WIDTH);
        let (y, h) = resize_axis(edges.top, edges.bottom, geo.origin.y, geo.size.h, dy, MIN_HEIGHT);
        Geometry { origin: Point { x, y }, size: Size { w, h } }
    }
}

/// The edges a resize grabbed at `p` moves: the side of the view's centre
/// the pointer is on, along each axis (none on the centre line).
pub open spec fn edges_at(geo: Geometry, p: Point) -> ResizeEdge {
    let halfw = geo.origin.x + geo.size.w / 2;
    let halfh = geo.origin.y + geo.size.h / 2;
    ResizeEdge {
        left: p.x < halfw,
        right: p.x > halfw,
        top: p.y < halfh,
        bottom: p.y > halfh,
    }
}

fn clamp_to_i32(v: i64) -> (r: i32)
    ensures
        r == clamp_i32(v as int),
{
    if v < i32::MIN as i64 {
        i32::MIN
    } else if v > i32::MAX as i64 {
        i32::MAX
    } else {
        v as i32
    }
}

fn resize_one_axis(low: bool, high: bool, origin: i32, size: u32, d: i32, min: u32) -> (r: (
    i32,
    u32,
))
    ensures
        r == resize_axis(low, high, origin, size, d, min),
{
    if low {
        let ns = size as i64 - d as i64;
        let no = origin as i64 + d as i64;
        if min as i64 <= ns && ns <= u32::MAX as i64 && i32::MIN as i64 <= no && no
            <= i32::MAX as i64 {
            (no as i32, ns as u32)
        } else {
            (origin, size)
        }
    } else if high {
        let ns = size as i64 + d as i64;
        if min as i64 <= ns && ns <= u32::MAX as i64 {
            (origin, ns as u32)
        } else {
            (origin, size)
        }
    } else {
        (origin, size)
    }
}

/// The geometry after the pointer moved by `(dx, dy)` during a drag.
pub fn drag_geometry(geo: Geometry, edges: ResizeEdge, dx: i32, dy: i32) -> (r: Geometry)
    ensures
        r == dragged(geo, edges, dx, dy),
{
    if edges.is_empty() {
        Geometry {
            origin: Point {
                x: clamp_to_i32(geo.origin.x as i64 + dx as i64),
                y: clamp_to_i32(geo.origin.y as i64 + dy as i64),
            },
            size: geo.size,
        }
    } else {
        let (x, w) = resize_one_axis(edges.left, edges.right, geo.origin.x, geo.size.w, dx, MIN_WIDTH);
        let (y, h) = resize_one_axis(
            edges.top,
            edges.bottom,
            geo.origin.y,
            geo.size.h,
            dy,
            MIN_HEIGHT,
        );
        Geometry { origin: Point { x, y }, size: Size { w, h } }
    }
}

/// The edges a resize grabbed at `p` on a view with geometry `geo` moves.
pub fn resize_edges_at(geo: Geometry, p: Point) -> (r: ResizeEdge)
    ensures
        r == edges_at(geo, p),
{
    let halfw = geo.origin.x as i64 + (geo.size.w / 2) as i64;
    let halfh = geo.origin.y as i64 + (geo.size.h / 2) as i64;
    ResizeEdge {
        left: (p.x as i64) < halfw,
        right: (p.x as i64) > halfw,
        top: (p.y as i64) < halfh,
        bottom: (p.y as i64) > halfh,
    }
}

/// The drag state and the calls that a press of `button` over the window
/// `view` (not the display root) gives: focus and raise it; with Ctrl, the
/// left button starts a move and the right button a resize on the edges
/// nearest the pointer, when no drag is in progress; with Ctrl and Shift the
/// window is then maximized to `output`, when no drag is in progress.
pub open spec fn pressed_over_window(
    c0: Compositor,
    view: ViewHandle,
    mods: Modifiers,
    button: u32,
    point: Point,
    geo: Geometry,
    output: Size,
) -> (Compositor, Seq<PointerEffect>) {
    let e0 = seq![PointerEffect::Focus(view), PointerEffect::BringToFront(view)];
    if !mods.ctrl {
        (c0, e0)
    } else {
        let c1 = if button == BUTTON_LEFT && c0.idle() {
            Compositor { view: Some(view), grab: point, ..c0 }
        } else {
            c0
        };
        let (c2, e2) = if button == BUTTON_RIGHT && c1.idle() {
            (
                Compositor { view: Some(view), grab: point, edges: edges_at(geo, point) },
                e0.push(PointerEffect::SetResizing(view, true)),
            )
        } else {
            (c1, e0)
        };
        if mods.shift && c2.idle() {
            (
                Compositor { view: None, grab: geo.origin, edges: ResizeEdge::empty_spec() },
                e2 + seq![
                    PointerEffect::BringToFront(view),
                    PointerEffect::SetGeometry(
                        view,
                        ResizeEdge::empty_spec(),
                        Geometry { origin: Point { x: 0, y: 0 }, size: output },
                    ),
                    PointerEffect::SetResizing(view, false),
                ],
            )
        } else {
            (c2, e2)
        }
    }
}

impl Compositor {
    pub open spec fn idle(&self) -> bool {
        self.view is None
    }

    /// No drag in progress.
    pub fn new() -> (r: Compositor)
        ensures
            r == (Compositor { view: None, grab: Point { x: 0, y: 0 }, edges: ResizeEdge::empty_spec() }),
    {
        Compositor { view: None, grab: Point { x: 0, y: 0 }, edges: ResizeEdge::empty() }
    }

    /// Makes `view` the object of a drag that starts at `origin`, unless a
    /// drag is already in progress.
    fn start_interactive_action(&mut self, view: ViewHandle, origin: Point) -> (r: bool)
        ensures
            r == old(self).idle(),
            r ==> *final(self) == (Compositor { view: Some(view), grab: origin, ..*old(self) }),
            !r ==> *final(self) == *old(self),
    {
        if self.view.is_some() {
            return false;
        }
        self.grab = origin;
        self.view = Some(view);
        true
    }

    /// Begins moving `view` from `origin`; `false`, with nothing changed,
    /// when another drag is in progress.
    pub fn start_interactive_move(&mut self, view: ViewHandle, origin: Point) -> (r: bool)
        ensures
            r == old(self).idle(),
            r ==> *final(self) == (Compositor { view: Some(view), grab: origin, ..*old(self) }),
            !r ==> *final(self) == *old(self),
    {
        self.start_interactive_action(view, origin)
    }

    /// Begins resizing `view`, whose geometry is `geo`, from `origin`. The
    /// resize moves `edges`, or, when none is given, the edges on the side
    /// of the view's centre that `origin` is on. `false`, with nothing
    /// changed, when another drag is in progress.
    pub fn start_interactive_resize(
        &mut self,
        view: ViewHandle,
        edges: ResizeEdge,
        origin: Point,
        geo: Geometry,
    ) -> (r: bool)
        ensures
            r == old(self).idle(),
            r ==> *final(self) == (Compositor {
                view: Some(view),
                grab: origin,
                edges: if edges.none() {
                    edges_at(geo, origin)
                } else {
                    edges
                },
            }),
            !r ==> *final(self) == *old(self),
    {
        if !self.start_interactive_action(view, origin) {
            return false;
        }
        self.edges = if edges.is_empty() {
            resize_edges_at(geo, origin)
        } else {
            edges
        };
        true
    }

    /// Ends any drag, whether or not its view still exists, and returns the
    /// view it was on.
    pub fn stop_interactive_action(&mut self) -> (r: Option<ViewHandle>)
        ensures
            r == old(self).view,
            final(self).view is None,
            final(self).grab == old(self).grab,
            final(self).edges == ResizeEdge::empty_spec(),
    {
        let r = self.view;
        self.view = None;
        self.edges = ResizeEdge::empty();
        r
    }

    /// The pointer moved to `point`. During a drag this returns the new
    /// geometry for the dragged view, whose current geometry is `geo`, and
    /// the edges it moves; the grab point follows the pointer either way.
    pub fn on_pointer_motion(&mut self, point: Point, geo: Geometry) -> (r: Option<
        (ViewHandle, ResizeEdge, Geometry),
    >)
        ensures
            final(self).view == old(self).view,
            final(self).edges == old(self).edges,
            final(self).grab == point,
            r == match old(self).view {
                None => None::<(ViewHandle, ResizeEdge, Geometry)>,
                Some(v) => Some(
                    (
                        v,
                        old(self).edges,
                        dragged(
                            geo,
                            old(self).edges,
                            clamp_i32(point.x - old(self).grab.x),
                            clamp_i32(point.y - old(self).grab.y),
                        ),
                    ),
                ),
            },
    {
        let dx = clamp_to_i32(point.x as i64 - self.grab.x as i64);
        let dy = clamp_to_i32(point.y as i64 - self.grab.y as i64);
        let r = match self.view {
            None => None,
            Some(v) => Some((v, self.edges, drag_geometry(geo, self.edges, dx, dy))),
        };
        self.grab = point;
        r
    }

    /// Maximizes `view`, whose geometry is `geo`, to the size of its output,
    /// unless a drag is in progress: the view is raised, takes the output's
    /// size at the origin, and leaves the resizing state.
    pub fn set_focused_window_maximized(&mut self, view: ViewHandle, geo: Geometry, output: Size) -> (r:
        Vec<PointerEffect>)
        ensures
            old(self).idle() ==> r@ == seq![
                PointerEffect::BringToFront(view),
                PointerEffect::SetGeometry(
                    view,
                    ResizeEdge::empty_spec(),
                    Geometry { origin: Point { x: 0, y: 0 }, size: output },
                ),
                PointerEffect::SetResizing(view, false),
            ] && *final(self) == (Compositor {
                view: None,
                grab: geo.origin,
                edges: ResizeEdge::empty_spec(),
            }),
            !old(self).idle() ==> r@ == Seq::<PointerEffect>::empty() && *final(self) == *old(self),
    {
        let mut effects: Vec<PointerEffect> = Vec::new();
        if self.start_interactive_action(view, geo.origin) {
            effects.push(PointerEffect::BringToFront(view));
            let full = Geometry { origin: Point { x: 0, y: 0 }, size: output };
            effects.push(PointerEffect::SetGeometry(view, ResizeEdge::empty(), full));
            if let Some(v) = self.stop_interactive_action() {
                effects.push(PointerEffect::SetResizing(v, false));
            }
        }
        effects
    }

    /// The pointer moved to `point` while the dragged view, if any, is gone:
    /// the grab point follows the pointer and nothing else changes.
    pub fn follow_pointer(&mut self, point: Point)
        ensures
            *final(self) == (Compositor { grab: point, ..*old(self) }),
    {
        self.grab = point;
    }

    /// A pointer button changed state over `view`. On a press over a
    /// window: focus and raise it; with Ctrl, the left button starts a move
    /// and the right button a resize (on the edges nearest the pointer);
    /// with Ctrl and Shift the window is then maximized to `output`. On a
    /// release any drag ends and its view leaves the resizing state. Returns
    /// whether a drag is in progress afterwards and the calls to make, in
    /// order.
    pub fn on_pointer_button(
        &mut self,
        view: ViewHandle,
        is_root: bool,
        mods: Modifiers,
        button: u32,
        pressed: bool,
        point: Point,
        geo: Geometry,
        output: Size,
    ) -> (r: (bool, Vec<PointerEffect>))
        ensures
            r.0 == (final(self).view is Some),
            !pressed ==> final(self).view is None && r.1@ == match old(self).view {
                Some(v) => seq![PointerEffect::SetResizing(v, false)],
                None => Seq::<PointerEffect>::empty(),
            },
            pressed && is_root ==> *final(self) == *old(self) && r.1@ == Seq::<PointerEffect>::empty(),
            pressed && !is_root ==> (*final(self), r.1@) == pressed_over_window(
                *old(self),
                view,
                mods,
                button,
                point,
                geo,
                output,
            ),
    {
        let mut effects: Vec<PointerEffect> = Vec::new();
        if !pressed {
            if let Some(v) = self.stop_interactive_action() {
                effects.push(PointerEffect::SetResizing(v, false));
            }
            return (self.view.is_some(), effects);
        }
        if is_root {
            return (self.view.is_some(), effects);
        }
        effects.push(PointerEffect::Focus(view));
        effects.push(PointerEffect::BringToFront(view));
        if mods.ctrl {
            if button == BUTTON_LEFT {
                self.start_interactive_move(view, point);
            }
            if button == BUTTON_RIGHT {
                if self.start_interactive_resize(view, ResizeEdge::empty(), point, geo) {
                    effects.push(PointerEffect::SetResizing(view, true));
                }
            }
            if mods.shift {
                let more = self.set_focused_window_maximized(view, geo, output);
                let ghost before = effects@;
                let mut i: usize = 0;
                while i < more.len()
                    invariant
                        i <= more@.len(),
                        effects@ == before + more@.take(i as int),
                    decreases more@.len() - i,
                {
                    effects.push(more[i]);
                    proof {
                        assert(more@.take(i + 1) =~= more@.take(i as int).push(more@[i as int]));
                    }
                    i += 1;
                }
                proof {
                    assert(more@.take(more@.len() as int) =~= more@);
                }
            }
        }
        (self.view.is_some(), effects)
    }
}

impl ResizeEdge {
    pub open spec fn empty_spec() -> ResizeEdge {
        ResizeEdge { top: false, bottom: false, left: false, right: false }
    }
}

} // verus!
