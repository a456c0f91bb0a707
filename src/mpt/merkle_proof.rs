use super::nibbles::{all_nibbles, bytes_to_nibbles, nibbles_of};
use super::node::{hash_node, node_digest, Node};
use crate::bytes::slice_from;
use vstd::prelude::*;

verus! {

/// Whether `a` and `b` hold the same bytes.
pub fn bytes_eq(a: &[u8], b: &[u8]) -> (r: bool)
    ensures
        r == (a@ == b@),
{
    if a.len() != b.len() {
        return false;
    }
    let mut i: usize = 0;
    while i < a.len()
        invariant
            a@.len() == b@.len(),
            i <= a@.len(),
            forall|j: int| 0 <= j < i ==> a@[j] == b@[j],
        decreases a@.len() - i,
    {
        if a[i] != b[i] {
            return false;
        }
        i = i + 1;
    }
    assert(a@ =~= b@);
    true
}

/// Whether `s` begins with `p`.
pub fn starts_with(s: &[u8], p: &[u8]) -> (r: bool)
    ensures
        r == (p@.len() <= s@.len() && s@.subrange(0, p@.len() as int) == p@),
{
    if p.len() > s.len() {
        return false;
    }
    let mut i: usize = 0;
    while i < p.len()
        invariant
            p@.len() <= s@.len(),
            i <= p@.len(),
            forall|j: int| 0 <= j < i ==> s@[j] == p@[j],
        decreases p@.len() - i,
    {
        if s[i] != p[i] {
            assert(s@.subrange(0, p@.len() as int)[i as int] != p@[i as int]);
            return false;
        }
        i = i + 1;
    }
    assert(s@.subrange(0, p@.len() as int) =~= p@);
    true
}

/// A proof that `key` maps to `value` (or to nothing) in a trie: the nodes
/// on the key's path, from the root down.
#[derive(Debug, Clone, PartialEq)]
pub struct MerkleProof {
    pub key: Vec<u8>,
    pub value: Option<Vec<u8>>,
    pub proof_nodes: Vec<Node>,
}

/// Whether an optional value is absent.
pub open spec fn no_value(v: Option<Vec<u8>>) -> bool {
    v.is_none()
}

/// Whether the optional values `a` and `b` are both absent or hold the same bytes.
pub open spec fn same_value(a: Option<Vec<u8>>, b: Option<Vec<u8>>) -> bool {
    match (a, b) {
        (Some(x), Some(y)) => x@ == y@,
        (None, None) => true,
        _ => false,
    }
}

/// Whether the nodes `nodes` from position `i` on prove the claimed value
/// `value` for the rest-of-path `path` under a node hashed as `expected`:
/// node `i` must hash to `expected`; a leaf must match path and value (a
/// different path proves absence); an extension must prefix the path (else
/// absence) and the next node proves the rest; a branch at the end of the
/// path must hold the claimed value, else the child for the next nibble
/// proves the rest (a missing child proves absence).
pub open spec fn proves(
    nodes: Seq<Node>,
    value: Option<Vec<u8>>,
    path: Seq<u8>,
    i: int,
    expected: Seq<u8>,
) -> bool
    decreases nodes.len() - i,
{
    if i < 0 || i >= nodes.len() {
        false
    } else {
        let node = nodes[i];
        if node_digest(node) != expected {
            false
        } else {
            match node {
                Node::Empty => no_value(value),
                Node::Leaf { path: lp, value: lv } => if path != lp@ {
                    no_value(value)
                } else {
                    same_value(value, Some(lv))
                },
                Node::Extension { path: ep, child_hash } => if !(ep@.len() <= path.len()
                    && path.subrange(0, ep@.len() as int) == ep@) {
                    no_value(value)
                } else {
                    proves(
                        nodes,
                        value,
                        path.subrange(ep@.len() as int, path.len() as int),
                        i + 1,
                        child_hash@,
                    )
                },
                Node::Branch { children, value: bv } => if path.len() == 0 {
                    same_value(value, bv)
                } else {
                    match children@[path[0] as int] {
                        Some(h) => proves(nodes, value, path.drop_first(), i + 1, h@),
                        None => no_value(value),
                    }
                },
            }
        }
    }
}

impl MerkleProof {
    /// Every node of the proof has nibble paths.
    pub open spec fn wf(&self) -> bool {
        forall|i: int| 0 <= i < self.proof_nodes@.len() ==> (#[trigger] self.proof_nodes@[i]).wf()
    }

    /// Whether the proof's nodes from position `i` on prove its claimed
    /// value for the rest-of-path `path` under a node hashed as `expected`.
    pub open spec fn accepts(&self, path: Seq<u8>, i: int, expected: Seq<u8>) -> bool {
        proves(self.proof_nodes@, self.value, path, i, expected)
    }

    /// A proof for `key` claiming `value`, made of `proof_nodes`.
    pub fn new(key: Vec<u8>, value: Option<Vec<u8>>, proof_nodes: Vec<Node>) -> (r: Self)
        ensures
            r == (MerkleProof { key, value, proof_nodes }),
    {
        MerkleProof { key, value, proof_nodes }
    }

    /// Checks the proof against a trusted root hash: true when the nodes,
    /// starting from the first, prove the claimed value for the key.
    pub fn verify(&self, root_hash: &[u8]) -> (r: bool)
        requires
            self.wf(),
            self.key@.len() * 2 <= usize::MAX,
        ensures
            r == (self.proof_nodes@.len() > 0 && self.accepts(nibbles_of(self.key@), 0, root_hash@)),
    {
        if self.proof_nodes.len() == 0 {
            return false;
        }
        let nibbles = bytes_to_nibbles(self.key.as_slice());
        proof {
            assert forall|j: int| 0 <= j < nibbles@.len() implies #[trigger] nibbles@[j] < 16 by {}
        }
        self.verify_at(nibbles.as_slice(), 0, root_hash)
    }

    fn verify_at(&self, path: &[u8], node_index: usize, expected_hash: &[u8]) -> (r: bool)
        requires
            self.wf(),
            all_nibbles(path@),
            node_index < self.proof_nodes@.len(),
        ensures
            r == self.accepts(path@, node_index as int, expected_hash@),
        decreases self.proof_nodes@.len() - node_index,
    {
        let node = &self.proof_nodes[node_index];
        assert(node.wf());
        let node_hash = hash_node(node);
        if !bytes_eq(node_hash.as_slice(), expected_hash) {
            return false;
        }
        match node {
            Node::Empty => self.value.is_none(),
            Node::Leaf { path: leaf_path, value: leaf_value } => {
                if !bytes_eq(path, leaf_path.as_slice()) {
                    return self.value.is_none();
                }
                match &self.value {
                    Some(expected) => bytes_eq(expected.as_slice(), leaf_value.as_slice()),
                    None => false,
                }
            },
            Node::Extension { path: ext_path, child_hash } => {
                if !starts_with(path, ext_path.as_slice()) {
                    return self.value.is_none();
                }
                let ghost rest = path@.subrange(ext_path@.len() as int, path@.len() as int);
                if self.proof_nodes.len() - node_index <= 1 {
                    assert(!self.accepts(rest, node_index + 1, child_hash@));
                    return false;
                }
                let next_index = node_index + 1;
                let remaining = slice_from(path, ext_path.len());
                assert forall|j: int| 0 <= j < remaining@.len() implies #[trigger] remaining@[j] < 16 by {
                    assert(remaining@[j] == path@[j + ext_path@.len()]);
                }
                self.verify_at(remaining.as_slice(), next_index, child_hash.as_slice())
            },
            Node::Branch { children, value: branch_value } => {
                if path.len() == 0 {
                    match (&self.value, branch_value) {
                        (Some(expected), Some(actual)) => bytes_eq(expected.as_slice(), actual.as_slice()),
                        (None, None) => true,
                        _ => false,
                    }
                } else {
                    let nibble = path[0] as usize;
                    assert(path@[0] < 16);
                    match &children[nibble] {
                        Some(child_hash) => {
                            if self.proof_nodes.len() - node_index <= 1 {
                                assert(!self.accepts(path@.drop_first(), node_index + 1, child_hash@));
                                return false;
                            }
                            let next_index = node_index + 1;
                            let remaining = slice_from(path, 1);
                            assert(remaining@ == path@.drop_first());
                            self.verify_at(remaining.as_slice(), next_index, child_hash.as_slice())
                        },
                        None => self.value.is_none(),
                    }
                }
            },
        }
    }

    /// The hash of `node`, as the trie computes it.
    pub fn hash_node(&self, node: &Node) -> (r: Vec<u8>)
        requires
            node.wf(),
        ensures
            r@ == node_digest(*node),
    {
        hash_node(node)
    }
}

} // verus!
