use vstd::prelude::*;
use super::hash::{data_hash, digest_of, keccak256};
use super::nibbles::{all_nibbles, compact_encode, compact_of};
use crate::bytes::append_bytes;

verus! {

/// A node of the trie.
#[derive(Debug, Clone, PartialEq)]
pub enum Node {
    /// No node.
    Empty,
    /// The rest of a key's path, as nibbles, and its value.
    Leaf { path: Vec<u8>, value: Vec<u8> },
    /// A shared path, as nibbles, and the hash of the node below it.
    Extension { path: Vec<u8>, child_hash: Vec<u8> },
    /// One optional child hash per nibble, and the value of a key that ends here.
    Branch { children: [Option<Vec<u8>>; 16], value: Option<Vec<u8>> },
}

/// The four kinds of node.
#[derive(Debug, Clone, Copy, PartialEq, Eq, Structural)]
pub enum NodeType {
    Empty,
    Leaf,
    Extension,
    Branch,
}

/// The kind of `n`.
pub open spec fn kind_of(n: Node) -> NodeType {
    match n {
        Node::Empty => NodeType::Empty,
        Node::Leaf { .. } => NodeType::Leaf,
        Node::Extension { .. } => NodeType::Extension,
        Node::Branch { .. } => NodeType::Branch,
    }
}

/// The name of a kind of node.
pub open spec fn kind_name(k: NodeType) -> Seq<char> {
    match k {
        NodeType::Empty => seq!['E', 'm', 'p', 't', 'y'],
        NodeType::Leaf => seq!['L', 'e', 'a', 'f'],
        NodeType::Extension => seq!['E', 'x', 't', 'e', 'n', 's', 'i', 'o', 'n'],
        NodeType::Branch => seq!['B', 'r', 'a', 'n', 'c', 'h'],
    }
}

/// The child hashes present in `children`, in order, concatenated.
pub open spec fn children_data(children: Seq<Option<Vec<u8>>>) -> Seq<u8>
    decreases children.len(),
{
    if children.len() == 0 {
        Seq::empty()
    } else {
        children_data(children.drop_last()) + match children.last() {
            Some(h) => h@,
            None => Seq::empty(),
        }
    }
}

/// The bytes a node's hash is taken over.
pub open spec fn node_data(n: Node) -> Seq<u8> {
    match n {
        Node::Empty => Seq::empty(),
        Node::Leaf { path, value } => compact_of(path@, true) + value@,
        Node::Extension { path, child_hash } => compact_of(path@, false) + child_hash@,
        Node::Branch { children, value } => children_data(children@) + match value {
            Some(v) => v@,
            None => Seq::empty(),
        },
    }
}

/// The hash of a node: empty for the empty node, else the digest of its data.
pub open spec fn node_digest(n: Node) -> Seq<u8> {
    match n {
        Node::Empty => Seq::empty(),
        _ => digest_of(data_hash(node_data(n))),
    }
}

/// The hash of `node`.
pub fn hash_node(node: &Node) -> (r: Vec<u8>)
    requires
        node.wf(),
    ensures
        r@ == node_digest(*node),
{
    let mut data: Vec<u8> = Vec::new();
    match node {
        Node::Empty => {
            return Vec::new();
        },
        Node::Leaf { path, value } => {
            data = compact_encode(path.as_slice(), true);
            append_bytes(&mut data, value.as_slice());
        },
        Node::Extension { path, child_hash } => {
            data = compact_encode(path.as_slice(), false);
            append_bytes(&mut data, child_hash.as_slice());
        },
        Node::Branch { children, value } => {
            let mut i: usize = 0;
            while i < 16
                invariant
                    i <= 16,
                    data@ == children_data(children@.subrange(0, i as int)),
                decreases 16 - i,
            {
                if let Some(h) = &children[i] {
                    append_bytes(&mut data, h.as_slice());
                }
                i = i + 1;
                assert(children@.subrange(0, i as int).drop_last() =~= children@.subrange(0, i - 1));
            }
            assert(children@.subrange(0, 16) =~= children@);
            if let Some(v) = value {
                append_bytes(&mut data, v.as_slice());
            }
        },
    }
    let digest = keccak256(data.as_slice());
    let mut out: Vec<u8> = Vec::new();
    append_bytes(&mut out, digest.as_slice());
    assert(out@ =~= node_digest(*node));
    out
}

impl Node {
    /// Leaf and extension paths are made of nibbles.
    pub open spec fn wf(&self) -> bool {
        match self {
            Node::Leaf { path, .. } => all_nibbles(path@),
            Node::Extension { path, .. } => all_nibbles(path@),
            _ => true,
        }
    }

    /// The empty node.
    pub fn empty() -> (r: Self)
        ensures
            r is Empty,
    {
        Node::Empty
    }

    /// A leaf holding `value` at the rest-of-path `path`.
    pub fn leaf(path: Vec<u8>, value: Vec<u8>) -> (r: Self)
        ensures
            r == (Node::Leaf { path, value }),
    {
        Node::Leaf { path, value }
    }

    /// An extension along `path` to the node hashed as `child_hash`.
    pub fn extension(path: Vec<u8>, child_hash: Vec<u8>) -> (r: Self)
        ensures
            r == (Node::Extension { path, child_hash }),
    {
        Node::Extension { path, child_hash }
    }

    /// A branch with no children and no value.
    pub fn branch() -> (r: Self)
        ensures
            r matches Node::Branch { children, value } && value.is_none() && forall|i: int|
                0 <= i < 16 ==> (#[trigger] children@[i]).is_none(),
    {
        Node::Branch {
            children: [
                None,
                None,
                None,
                None,
                None,
                None,
                None,
                None,
                None,
                None,
                None,
                None,
                None,
                None,
                None,
                None,
            ],
            value: None,
        }
    }

    /// Whether this is the empty node.
    pub fn is_empty(&self) -> (r: bool)
        ensures
            r == (*self is Empty),
    {
        match self {
            Node::Empty => true,
            _ => false,
        }
    }

    /// The kind of this node.
    pub fn kind(&self) -> (r: NodeType)
        ensures
            r == kind_of(*self),
    {
        match self {
            Node::Empty => NodeType::Empty,
            Node::Leaf { .. } => NodeType::Leaf,
            Node::Extension { .. } => NodeType::Extension,
            Node::Branch { .. } => NodeType::Branch,
        }
    }

    /// The name of this node's kind: "Empty", "Leaf", "Extension" or "Branch".
    pub fn node_type(&self) -> (r: &str)
        ensures
            r@ == kind_name(kind_of(*self)),
    {
        match self {
            Node::Empty => {
                proof {
                    reveal_strlit("Empty");
                }
                "Empty"
            },
            Node::Leaf { .. } => {
                proof {
                    reveal_strlit("Leaf");
                }
                "Leaf"
            },
            Node::Extension { .. } => {
                proof {
                    reveal_strlit("Extension");
                }
                "Extension"
            },
            Node::Branch { .. } => {
                proof {
                    reveal_strlit("Branch");
                }
                "Branch"
            },
        }
    }
}

impl<'a> From<&'a Node> for NodeType {
    fn from(node: &'a Node) -> (r: NodeType) {
        node.kind()
    }
}

impl<'a> vstd::std_specs::convert::FromSpecImpl<&'a Node> for NodeType {
    open spec fn obeys_from_spec() -> bool {
        true
    }

    open spec fn from_spec(node: &'a Node) -> NodeType {
        kind_of(*node)
    }
}

} // verus!
