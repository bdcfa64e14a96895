//! The closed set of node kinds, and what the storage engine keeps of a node:
//! its identity, label, bounds, payload bytes and the identifiers it refers
//! to.

use vstd::prelude::*;
use crate::codec::{Id, Rect, Error, le_bytes, le_value, put_le, get_le, lemma_pow256_values};

verus! {

/// The kind of a node, stored as a 16-bit discriminant.
#[derive(Clone, Copy, Debug, PartialEq, Eq, Structural)]
pub enum NodeKind {
    Note,
    Group,
    Palette,
    CanvasGroup,
    Canvas,
}

/// The discriminant that stands for each kind.
pub open spec fn kind_code(k: NodeKind) -> u16 {
    match k {
        NodeKind::Group => 0,
        NodeKind::Note => 1,
        NodeKind::Palette => 2,
        NodeKind::CanvasGroup => 3,
        NodeKind::Canvas => 4,
    }
}

/// The kind that a discriminant stands for, if any.
pub open spec fn kind_of_code(d: u16) -> Option<NodeKind> {
    if d == 0 {
        Some(NodeKind::Group)
    } else if d == 1 {
        Some(NodeKind::Note)
    } else if d == 2 {
        Some(NodeKind::Palette)
    } else if d == 3 {
        Some(NodeKind::CanvasGroup)
    } else if d == 4 {
        Some(NodeKind::Canvas)
    } else {
        None
    }
}

impl NodeKind {
    pub fn discriminant(&self) -> (d: u16)
        ensures
            d == kind_code(*self),
            kind_of_code(d) == Some(*self),
    {
        match self {
            NodeKind::Group => 0,
            NodeKind::Note => 1,
            NodeKind::Palette => 2,
            NodeKind::CanvasGroup => 3,
            NodeKind::Canvas => 4,
        }
    }

    pub fn from_discriminant(d: u16) -> (r: Option<NodeKind>)
        ensures
            r == kind_of_code(d),
            r matches Some(k) ==> kind_code(k) == d,
    {
        match d {
            0 => Some(NodeKind::Group),
            1 => Some(NodeKind::Note),
            2 => Some(NodeKind::Palette),
            3 => Some(NodeKind::CanvasGroup),
            4 => Some(NodeKind::Canvas),
            _ => None,
        }
    }

    /// Reads the two-byte discriminant at `pos`; returns the kind with the
    /// position past it.
    pub fn parse(b: &[u8], pos: usize) -> (r: Result<(NodeKind, usize), Error>)
        requires
            pos <= b@.len(),
        ensures
            pos + 2 > b@.len() ==> r == Err::<(NodeKind, usize), Error>(Error::Truncated),
            pos + 2 <= b@.len() ==> match kind_of_code(
                le_value(b@.subrange(pos as int, pos + 2)) as u16,
            ) {
                Some(k) => r == Ok::<(NodeKind, usize), Error>((k, (pos + 2) as usize)),
                None => r == Err::<(NodeKind, usize), Error>(Error::InvalidData),
            },
    {
        if b.len() - pos < 2 {
            return Err(Error::Truncated);
        }
        proof {
            lemma_pow256_values();
        }
        let d = get_le(b, pos, 2) as u16;
        match NodeKind::from_discriminant(d) {
            Some(k) => Ok((k, pos + 2)),
            None => Err(Error::InvalidData),
        }
    }

    /// Appends the two-byte discriminant; returns how many bytes were written.
    pub fn write(&self, out: &mut Vec<u8>) -> (n: usize)
        ensures
            final(out)@ == old(out)@ + le_bytes(kind_code(*self) as nat, 2),
            n == 2,
    {
        let d = self.discriminant();
        put_le(out, d as u128, 2);
        2
    }
}

/// What the storage engine keeps of one node.
#[derive(Clone, Debug)]
pub struct Node {
    pub id: Id,
    /// Display label.
    pub name: String,
    pub rect: Rect,
    /// The node's own encoded bytes.
    pub payload: Vec<u8>,
    /// Direct structural children, in order.
    pub children: Vec<Id>,
    /// Nodes that the payload needs at decode time.
    pub dependencies: Vec<Id>,
}

/// A node as plain values.
pub struct NodeView {
    pub id: Id,
    pub name: Seq<char>,
    pub rect: Rect,
    pub payload: Seq<u8>,
    pub children: Seq<Id>,
    pub dependencies: Seq<Id>,
}

impl View for Node {
    type V = NodeView;

    open spec fn view(&self) -> NodeView {
        NodeView {
            id: self.id,
            name: self.name@,
            rect: self.rect,
            payload: self.payload@,
            children: self.children@,
            dependencies: self.dependencies@,
        }
    }
}

/// A node tagged with its kind.
#[derive(Clone, Debug)]
pub enum NodeType {
    Note(Node),
    Group(Node),
    Palette(Node),
    CanvasGroup(Node),
    Canvas(Node),
}

impl View for NodeType {
    type V = (NodeKind, NodeView);

    open spec fn view(&self) -> (NodeKind, NodeView) {
        (self.spec_kind(), self.spec_node()@)
    }
}

impl NodeType {
    pub open spec fn spec_kind(&self) -> NodeKind {
        match self {
            NodeType::Note(_) => NodeKind::Note,
            NodeType::Group(_) => NodeKind::Group,
            NodeType::Palette(_) => NodeKind::Palette,
            NodeType::CanvasGroup(_) => NodeKind::CanvasGroup,
            NodeType::Canvas(_) => NodeKind::Canvas,
        }
    }

    pub open spec fn spec_node(&self) -> Node {
        match self {
            NodeType::Note(n) => *n,
            NodeType::Group(n) => *n,
            NodeType::Palette(n) => *n,
            NodeType::CanvasGroup(n) => *n,
            NodeType::Canvas(n) => *n,
        }
    }

    /// Tags `node` with `kind`.
    pub fn new(kind: NodeKind, node: Node) -> (r: NodeType)
        ensures
            r.spec_kind() == kind,
            r.spec_node() == node,
    {
        match kind {
            NodeKind::Note => NodeType::Note(node),
            NodeKind::Group => NodeType::Group(node),
            NodeKind::Palette => NodeType::Palette(node),
            NodeKind::CanvasGroup => NodeType::CanvasGroup(node),
            NodeKind::Canvas => NodeType::Canvas(node),
        }
    }

    pub fn kind(&self) -> (k: NodeKind)
        ensures
            k == self.spec_kind(),
    {
        match self {
            NodeType::Note(_) => NodeKind::Note,
            NodeType::Group(_) => NodeKind::Group,
            NodeType::Palette(_) => NodeKind::Palette,
            NodeType::CanvasGroup(_) => NodeKind::CanvasGroup,
            NodeType::Canvas(_) => NodeKind::Canvas,
        }
    }

    /// The node whatever its kind.
    pub fn as_node(&self) -> (n: &Node)
        ensures
            *n == self.spec_node(),
    {
        match self {
            NodeType::Note(n) => n,
            NodeType::Group(n) => n,
            NodeType::Palette(n) => n,
            NodeType::CanvasGroup(n) => n,
            NodeType::Canvas(n) => n,
        }
    }

    /// The node if its kind belongs to the document tree (every kind but a
    /// bare canvas).
    pub fn as_documentnode(&self) -> (r: Option<&Node>)
        ensures
            r matches Some(n) ==> *n == self.spec_node(),
            r.is_some() == (self.spec_kind() != NodeKind::Canvas),
    {
        match self {
            NodeType::Note(node) => Some(node),
            NodeType::Group(node) => Some(node),
            NodeType::Palette(node) => Some(node),
            NodeType::CanvasGroup(node) => Some(node),
            _ => None,
        }
    }

    /// The node if its kind holds pixels (a canvas group or a canvas).
    pub fn as_spritenode(&self) -> (r: Option<&Node>)
        ensures
            r matches Some(n) ==> *n == self.spec_node(),
            r.is_some() == (self.spec_kind() == NodeKind::CanvasGroup || self.spec_kind()
                == NodeKind::Canvas),
    {
        match self {
            NodeType::CanvasGroup(node) => Some(node),
            NodeType::Canvas(node) => Some(node),
            _ => None,
        }
    }
}


/// Something that carries a display label.
pub trait Named {
    spec fn spec_name(&self) -> Seq<char>;

    /// The display label.
    fn name(&self) -> (r: String)
        ensures
            r@ == self.spec_name(),
    ;
}

impl Named for Node {
    open spec fn spec_name(&self) -> Seq<char> {
        self.name@
    }

    fn name(&self) -> (r: String) {
        self.name.clone()
    }
}

impl Named for NodeType {
    open spec fn spec_name(&self) -> Seq<char> {
        self.spec_node().name@
    }

    fn name(&self) -> (r: String) {
        self.as_node().name.clone()
    }
}

} // verus!
