//! The values held by the nodes of the layout tree.
use vstd::prelude::*;

verus! {

/// Opaque handle of a window, as handed out by the display server.
pub type ViewHandle = u64;

/// Opaque handle of a monitor, as handed out by the display server.
pub type OutputHandle = u64;

#[derive(Debug, Clone, Copy, PartialEq, Eq, Structural)]
pub struct Point {
    pub x: i32,
    pub y: i32,
}

#[derive(Debug, Clone, Copy, PartialEq, Eq, Structural)]
pub struct Size {
    pub w: u32,
    pub h: u32,
}

#[derive(Debug, Clone, Copy, PartialEq, Eq, Structural)]
pub struct Geometry {
    pub origin: Point,
    pub size: Size,
}

/// Orientation in which a split container lays out its children.
#[derive(Debug, Clone, Copy, PartialEq, Eq, Structural)]
pub enum Layout {
    Horizontal,
    Vertical,
}

/// The kind of a node, without its payload.
#[derive(Debug, Clone, Copy, PartialEq, Eq, Structural)]
pub enum ContainerType {
    Root,
    Output,
    Workspace,
    Container,
    View,
}

/// The opaque display-server handle held by an output or a view.
#[derive(Debug, Clone, Copy, PartialEq, Eq, Structural)]
pub enum Handle {
    View(ViewHandle),
    Output(OutputHandle),
}

/// Which kinds of node may stand directly below which.
pub open spec fn legal_child(parent: ContainerType, child: ContainerType) -> bool {
    match parent {
        ContainerType::Root => child == ContainerType::Output,
        ContainerType::Output => child == ContainerType::Workspace,
        ContainerType::Workspace => child == ContainerType::Container,
        ContainerType::Container => child == ContainerType::Container || child
            == ContainerType::View,
        ContainerType::View => false,
    }
}

impl ContainerType {
    /// Whether a node of this type may have a child of type `child`.
    pub fn can_have_child(self, child: ContainerType) -> (r: bool)
        ensures
            r == legal_child(self, child),
    {
        match self {
            ContainerType::Root => child == ContainerType::Output,
            ContainerType::Output => child == ContainerType::Workspace,
            ContainerType::Workspace => child == ContainerType::Container,
            ContainerType::Container => child == ContainerType::Container || child
                == ContainerType::View,
            ContainerType::View => false,
        }
    }
}

/// A node's payload.
#[derive(Debug)]
pub enum Container {
    Root,
    Output { handle: OutputHandle, size: Size },
    Workspace { name: String, size: Size, visible: bool },
    Container { geometry: Geometry, layout: Layout, visible: bool },
    View { handle: ViewHandle, geometry: Geometry, floating: bool, visible: bool },
}

impl Container {
    pub open spec fn kind(&self) -> ContainerType {
        match self {
            Container::Root => ContainerType::Root,
            Container::Output { .. } => ContainerType::Output,
            Container::Workspace { .. } => ContainerType::Workspace,
            Container::Container { .. } => ContainerType::Container,
            Container::View { .. } => ContainerType::View,
        }
    }

    /// The visibility flag, for the kinds that carry one.
    pub open spec fn visibility(&self) -> Option<bool> {
        match self {
            Container::Workspace { visible, .. } => Some(*visible),
            Container::Container { visible, .. } => Some(*visible),
            Container::View { visible, .. } => Some(*visible),
            _ => None,
        }
    }

    /// The payload with its visibility flag set, where it has one.
    pub open spec fn with_visibility(self, v: bool) -> Container {
        match self {
            Container::Workspace { name, size, .. } => Container::Workspace {
                name,
                size,
                visible: v,
            },
            Container::Container { geometry, layout, .. } => Container::Container {
                geometry,
                layout,
                visible: v,
            },
            Container::View { handle, geometry, floating, .. } => Container::View {
                handle,
                geometry,
                floating,
                visible: v,
            },
            other => other,
        }
    }

    /// The payload with its geometry set, for a container or a view.
    pub open spec fn with_geometry(self, g: Geometry) -> Container {
        match self {
            Container::Container { layout, visible, .. } => Container::Container {
                geometry: g,
                layout,
                visible,
            },
            Container::View { handle, floating, visible, .. } => Container::View {
                handle,
                geometry: g,
                floating,
                visible,
            },
            other => other,
        }
    }

    /// The window handle of a view.
    pub open spec fn view_handle(&self) -> Option<ViewHandle> {
        match self {
            Container::View { handle, .. } => Some(*handle),
            _ => None,
        }
    }

    /// The name of a workspace.
    pub open spec fn workspace_name(&self) -> Option<Seq<char>> {
        match self {
            Container::Workspace { name, .. } => Some(name@),
            _ => None,
        }
    }

    pub fn new_output(handle: OutputHandle, size: Size) -> (r: Container)
        ensures
            r == (Container::Output { handle, size }),
    {
        Container::Output { handle, size }
    }

    /// A new workspace, shown.
    pub fn new_workspace(name: String, size: Size) -> (r: Container)
        ensures
            r == (Container::Workspace { name, size, visible: true }),
    {
        Container::Workspace { name, size, visible: true }
    }

    /// A new horizontal split container, shown.
    pub fn new_container(geometry: Geometry) -> (r: Container)
        ensures
            r == (Container::Container { geometry, layout: Layout::Horizontal, visible: true }),
    {
        Container::Container { geometry, layout: Layout::Horizontal, visible: true }
    }

    /// A new tiled view, shown.
    pub fn new_view(handle: ViewHandle, geometry: Geometry) -> (r: Container)
        ensures
            r == (Container::View { handle, geometry, floating: false, visible: true }),
    {
        Container::View { handle, geometry, floating: false, visible: true }
    }

    pub fn get_type(&self) -> (r: ContainerType)
        ensures
            r == self.kind(),
    {
        match self {
            Container::Root => ContainerType::Root,
            Container::Output { .. } => ContainerType::Output,
            Container::Workspace { .. } => ContainerType::Workspace,
            Container::Container { .. } => ContainerType::Container,
            Container::View { .. } => ContainerType::View,
        }
    }

    /// The workspace's name; `None` for the other kinds.
    pub fn get_name(&self) -> (r: Option<&String>)
        ensures
            self is Workspace <==> r is Some,
            r matches Some(n) ==> self.workspace_name() == Some(n@),
    {
        match self {
            Container::Workspace { name, .. } => Some(name),
            _ => None,
        }
    }

    /// The display-server handle of an output or a view.
    pub fn get_handle(&self) -> (r: Option<Handle>)
        ensures
            r == match self {
                Container::Output { handle, .. } => Some(Handle::Output(*handle)),
                Container::View { handle, .. } => Some(Handle::View(*handle)),
                _ => None::<Handle>,
            },
    {
        match self {
            Container::Output { handle, .. } => Some(Handle::Output(*handle)),
            Container::View { handle, .. } => Some(Handle::View(*handle)),
            _ => None,
        }
    }

    /// The geometry of an output (placed at the origin), a container or a view.
    pub fn get_geometry(&self) -> (r: Option<Geometry>)
        ensures
            r == match self {
                Container::Output { size, .. } => Some(
                    Geometry { origin: Point { x: 0, y: 0 }, size: *size },
                ),
                Container::Container { geometry, .. } => Some(*geometry),
                Container::View { geometry, .. } => Some(*geometry),
                _ => None::<Geometry>,
            },
    {
        match self {
            Container::Output { size, .. } => Some(
                Geometry { origin: Point { x: 0, y: 0 }, size: *size },
            ),
            Container::Container { geometry, .. } => Some(*geometry),
            Container::View { geometry, .. } => Some(*geometry),
            _ => None,
        }
    }

    /// Whether a view floats above the tiled layout.
    pub fn floating(&self) -> (r: bool)
        ensures
            r == (self matches Container::View { floating, .. } && *floating),
    {
        match self {
            Container::View { floating, .. } => *floating,
            _ => false,
        }
    }

    /// Whether this node is shown; the root and outputs always are.
    pub fn is_visible(&self) -> (r: bool)
        ensures
            r == match self.visibility() {
                Some(v) => v,
                None => true,
            },
    {
        match self {
            Container::Workspace { visible, .. } => *visible,
            Container::Container { visible, .. } => *visible,
            Container::View { visible, .. } => *visible,
            _ => true,
        }
    }

    /// Sets the geometry of a container or a view; other kinds are left as
    /// they are.
    pub fn set_geometry(&mut self, g: Geometry)
        ensures
            *final(self) == old(self).with_geometry(g),
    {
        match self {
            Container::Container { geometry, .. } => {
                *geometry = g;
            },
            Container::View { geometry, .. } => {
                *geometry = g;
            },
            _ => {},
        }
    }

    /// Shows or hides this node; the root and outputs have no such flag.
    pub fn set_visibility(&mut self, v: bool)
        ensures
            *final(self) == old(self).with_visibility(v),
    {
        match self {
            Container::Workspace { visible, .. } => {
                *visible = v;
            },
            Container::Container { visible, .. } => {
                *visible = v;
            },
            Container::View { visible, .. } => {
                *visible = v;
            },
            _ => {},
        }
    }
}

} // verus!
