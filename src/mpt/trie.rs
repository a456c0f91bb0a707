use super::merkle_proof::{bytes_eq, proves, same_value, starts_with, MerkleProof};
use super::nibbles::{all_nibbles, bytes_to_nibbles, common_prefix, nibbles_of};
use crate::bytes::{copy_bytes, prefix_of, slice_from};
use super::node::{children_data, hash_node, node_data, node_digest, Node};
use vstd::prelude::*;

verus! {

/// A node the trie can hold: nibble paths, and extensions that are not empty.
pub open spec fn trie_node_ok(n: Node) -> bool {
    &&& n.wf()
    &&& n matches Node::Extension { path, .. } ==> path@.len() > 0
}

/// The node stored last under the hash `h`, if any.
pub open spec fn lookup_in(store: Seq<(Vec<u8>, Node)>, h: Seq<u8>) -> Option<Node>
    decreases store.len(),
{
    if store.len() == 0 {
        None
    } else if store.last().0@ == h {
        Some(store.last().1)
    } else {
        lookup_in(store.drop_last(), h)
    }
}

/// The value found by following the nibble path `path` down from `node`,
/// fetching children from `store` by hash.
pub open spec fn value_at(store: Seq<(Vec<u8>, Node)>, node: Node, path: Seq<u8>) -> Option<Seq<u8>>
    decreases path.len(),
{
    match node {
        Node::Empty => None,
        Node::Leaf { path: lp, value } => if path == lp@ {
            Some(value@)
        } else {
            None
        },
        Node::Extension { path: ep, child_hash } => if ep@.len() > 0 && ep@.len() <= path.len()
            && path.subrange(0, ep@.len() as int) == ep@ {
            match lookup_in(store, child_hash@) {
                Some(child) => value_at(
                    store,
                    child,
                    path.subrange(ep@.len() as int, path.len() as int),
                ),
                None => None,
            }
        } else {
            None
        },
        Node::Branch { children, value } => if path.len() == 0 {
            match value {
                Some(v) => Some(v@),
                None => None,
            }
        } else if path[0] < 16 {
            match children@[path[0] as int] {
                Some(h) => match lookup_in(store, h@) {
                    Some(child) => value_at(store, child, path.drop_first()),
                    None => None,
                },
                None => None,
            }
        } else {
            None
        },
    }
}

/// Any stretch of a nibble sequence is made of nibbles.
proof fn lemma_sub_nibbles(s: Seq<u8>, a: int, b: int)
    requires
        all_nibbles(s),
        0 <= a <= b <= s.len(),
    ensures
        all_nibbles(s.subrange(a, b)),
{
    assert forall|i: int| 0 <= i < b - a implies #[trigger] s.subrange(a, b)[i] < 16 by {
        assert(s.subrange(a, b)[i] == s[a + i]);
    }
}

/// `new` holds all of `old` and perhaps more after it.
pub open spec fn extends(old: Seq<(Vec<u8>, Node)>, new: Seq<(Vec<u8>, Node)>) -> bool {
    old.len() <= new.len() && new.subrange(0, old.len() as int) == old
}

proof fn lemma_extends_refl(a: Seq<(Vec<u8>, Node)>)
    ensures
        extends(a, a),
{
    assert(a.subrange(0, a.len() as int) =~= a);
}

proof fn lemma_extends_trans(a: Seq<(Vec<u8>, Node)>, b: Seq<(Vec<u8>, Node)>, c: Seq<(Vec<u8>, Node)>)
    requires
        extends(a, b),
        extends(b, c),
    ensures
        extends(a, c),
{
    assert(c.subrange(0, a.len() as int) =~= b.subrange(0, a.len() as int));
}

/// Every stored node sits under its own hash.
pub open spec fn keyed_by_hash(store: Seq<(Vec<u8>, Node)>) -> bool {
    forall|i: int| 0 <= i < store.len() ==> (#[trigger] store[i]).0@ == node_digest(store[i].1)
}

/// Every hash among `children` is found in `store`.
pub open spec fn children_found(store: Seq<(Vec<u8>, Node)>, children: Seq<Option<Vec<u8>>>) -> bool {
    forall|i: int|
        0 <= i < children.len() ==> (#[trigger] children[i] matches Some(h) ==> lookup_in(store, h@).is_some())
}

/// Every hash that `n` refers to is found in `store`.
pub open spec fn refs_in(store: Seq<(Vec<u8>, Node)>, n: Node) -> bool {
    match n {
        Node::Extension { child_hash, .. } => lookup_in(store, child_hash@).is_some(),
        Node::Branch { children, .. } => children_found(store, children@),
        _ => true,
    }
}

/// A hash found in a store is still found once the store has grown.
proof fn lemma_lookup_extends(a: Seq<(Vec<u8>, Node)>, b: Seq<(Vec<u8>, Node)>, h: Seq<u8>)
    requires
        extends(a, b),
        lookup_in(a, h).is_some(),
    ensures
        lookup_in(b, h).is_some(),
    decreases b.len(),
{
    if b.len() > a.len() && b.last().0@ != h {
        assert(b.drop_last().subrange(0, a.len() as int) =~= b.subrange(0, a.len() as int));
        lemma_lookup_extends(a, b.drop_last(), h);
    } else if b.len() == a.len() {
        assert(b =~= a) by {
            assert(b.subrange(0, a.len() as int) =~= b);
        }
    }
}

/// What a node refers to stays found once the store has grown.
proof fn lemma_refs_extend(a: Seq<(Vec<u8>, Node)>, b: Seq<(Vec<u8>, Node)>, n: Node)
    requires
        extends(a, b),
        refs_in(a, n),
    ensures
        refs_in(b, n),
{
    match n {
        Node::Extension { child_hash, .. } => {
            lemma_lookup_extends(a, b, child_hash@);
        },
        Node::Branch { children, .. } => {
            assert forall|i: int| 0 <= i < children@.len() implies (#[trigger] children@[i] matches Some(
                h,
            ) ==> lookup_in(b, h@).is_some()) by {
                if let Some(h) = children@[i] {
                    lemma_lookup_extends(a, b, h@);
                }
            }
        },
        _ => {},
    }
}

proof fn lemma_children_found_copy(
    store: Seq<(Vec<u8>, Node)>,
    c: Seq<Option<Vec<u8>>>,
    d: Seq<Option<Vec<u8>>>,
)
    requires
        children_found(store, c),
        c.len() == d.len(),
        forall|i: int| 0 <= i < c.len() ==> same_value(#[trigger] d[i], c[i]),
    ensures
        children_found(store, d),
{
    assert forall|i: int| 0 <= i < d.len() implies (#[trigger] d[i] matches Some(h) ==> lookup_in(store, h@).is_some()) by {
        assert(same_value(d[i], c[i]));
        if let Some(h) = d[i] {
            assert(c[i] matches Some(h2) && h2@ == h@);
        }
    }
}

proof fn lemma_children_found_extend(
    a: Seq<(Vec<u8>, Node)>,
    b: Seq<(Vec<u8>, Node)>,
    c: Seq<Option<Vec<u8>>>,
)
    requires
        extends(a, b),
        children_found(a, c),
    ensures
        children_found(b, c),
{
    assert forall|i: int| 0 <= i < c.len() implies (#[trigger] c[i] matches Some(h) ==> lookup_in(b, h@).is_some()) by {
        if let Some(h) = c[i] {
            lemma_lookup_extends(a, b, h@);
        }
    }
}

/// A node found under `h` in a store keyed by hash has hash `h`.
proof fn lemma_lookup_digest(store: Seq<(Vec<u8>, Node)>, h: Seq<u8>)
    requires
        keyed_by_hash(store),
    ensures
        lookup_in(store, h) matches Some(n) ==> node_digest(n) == h,
    decreases store.len(),
{
    if store.len() > 0 && store.last().0@ != h {
        assert(keyed_by_hash(store.drop_last())) by {
            assert forall|i: int| 0 <= i < store.drop_last().len() implies (#[trigger] store.drop_last()[i]).0@
                == node_digest(store.drop_last()[i].1) by {
                assert(store.drop_last()[i] == store[i]);
            }
        }
        lemma_lookup_digest(store.drop_last(), h);
    } else if store.len() > 0 {
        assert(store[store.len() - 1].0@ == node_digest(store[store.len() - 1].1));
    }
}

/// A node found in the store is one the store holds.
proof fn lemma_lookup_in_store(store: Seq<(Vec<u8>, Node)>, h: Seq<u8>)
    ensures
        lookup_in(store, h) matches Some(n) ==> exists|i: int| 0 <= i < store.len() && #[trigger] store[i].1 == n,
    decreases store.len(),
{
    if store.len() > 0 && store.last().0@ != h {
        lemma_lookup_in_store(store.drop_last(), h);
        if let Some(n) = lookup_in(store, h) {
            let i = choose|i: int| 0 <= i < store.drop_last().len() && #[trigger] store.drop_last()[i].1 == n;
            assert(store[i].1 == n);
        }
    }
}

/// `a` and `b` are nodes of the same kind with the same bytes in each field.
pub open spec fn same_node(a: Node, b: Node) -> bool {
    match (a, b) {
        (Node::Empty, Node::Empty) => true,
        (Node::Leaf { path: pa, value: v1 }, Node::Leaf { path: pb, value: v2 }) => pa@ == pb@ && v1@
            == v2@,
        (Node::Extension { path: pa, child_hash: h1 }, Node::Extension { path: pb, child_hash: h2 }) =>
            pa@ == pb@ && h1@ == h2@,
        (Node::Branch { children: c1, value: v1 }, Node::Branch { children: c2, value: v2 }) => (forall|
            i: int,
        | 0 <= i < 16 ==> same_value(#[trigger] c1@[i], c2@[i])) && same_value(v1, v2),
        _ => false,
    }
}

proof fn lemma_children_data_same(a: Seq<Option<Vec<u8>>>, b: Seq<Option<Vec<u8>>>)
    requires
        a.len() == b.len(),
        forall|i: int| 0 <= i < a.len() ==> same_value(#[trigger] a[i], b[i]),
    ensures
        children_data(a) == children_data(b),
    decreases a.len(),
{
    if a.len() > 0 {
        assert forall|i: int| 0 <= i < a.drop_last().len() implies same_value(
            #[trigger] a.drop_last()[i],
            b.drop_last()[i],
        ) by {
            assert(same_value(a[i], b[i]));
        }
        lemma_children_data_same(a.drop_last(), b.drop_last());
        assert(same_value(a[a.len() - 1], b[b.len() - 1]));
    }
}

/// Nodes with the same bytes hash alike and are held alike.
proof fn lemma_same_node(a: Node, b: Node)
    requires
        same_node(a, b),
    ensures
        node_digest(a) == node_digest(b),
        a.wf() == b.wf(),
        trie_node_ok(a) == trie_node_ok(b),
{
    if let (Node::Branch { children: c1, value: v1 }, Node::Branch { children: c2, value: v2 }) = (a, b) {
        lemma_children_data_same(c1@, c2@);
        assert(node_data(a) == node_data(b));
    }
}

/// A copy of an optional byte string.
fn copy_opt(v: &Option<Vec<u8>>) -> (r: Option<Vec<u8>>)
    ensures
        same_value(r, *v),
{
    match v {
        Some(b) => Some(copy_bytes(b.as_slice())),
        None => None,
    }
}

/// Sixteen absent children.
fn no_children() -> (r: [Option<Vec<u8>>; 16])
    ensures
        forall|i: int| 0 <= i < 16 ==> (#[trigger] r@[i]).is_none(),
{
    [None, None, None, None, None, None, None, None, None, None, None, None, None, None, None, None]
}

/// A copy of a branch's children.
fn copy_children(c: &[Option<Vec<u8>>; 16]) -> (r: [Option<Vec<u8>>; 16])
    ensures
        forall|i: int| 0 <= i < 16 ==> same_value(#[trigger] r@[i], c@[i]),
{
    let mut out = no_children();
    let mut i: usize = 0;
    while i < 16
        invariant
            i <= 16,
            forall|j: int| 0 <= j < i ==> same_value(#[trigger] out@[j], c@[j]),
        decreases 16 - i,
    {
        out[i] = copy_opt(&c[i]);
        i = i + 1;
    }
    out
}

/// A copy of `n`, with the same kind and the same bytes in each field.
fn copy_node(n: &Node) -> (r: Node)
    ensures
        same_node(r, *n),
{
    match n {
        Node::Empty => Node::Empty,
        Node::Leaf { path, value } => Node::Leaf {
            path: copy_bytes(path.as_slice()),
            value: copy_bytes(value.as_slice()),
        },
        Node::Extension { path, child_hash } => Node::Extension {
            path: copy_bytes(path.as_slice()),
            child_hash: copy_bytes(child_hash.as_slice()),
        },
        Node::Branch { children, value } => Node::Branch {
            children: copy_children(children),
            value: copy_opt(value),
        },
    }
}

/// A Merkle Patricia trie: a root node and a store of nodes by hash.
pub struct MerklePatriciaTrie {
    root: Node,
    storage: Vec<(Vec<u8>, Node)>,
}

impl MerklePatriciaTrie {
    /// The stored nodes, oldest first.
    pub closed spec fn store(&self) -> Seq<(Vec<u8>, Node)> {
        self.storage@
    }

    /// The root node.
    pub closed spec fn spec_root(&self) -> Node {
        self.root
    }

    /// The root and every stored node can be held by the trie.
    pub closed spec fn wf(&self) -> bool {
        &&& trie_node_ok(self.root)
        &&& forall|i: int| 0 <= i < self.storage@.len() ==> trie_node_ok(#[trigger] self.storage@[i].1)
        &&& keyed_by_hash(self.storage@)
        &&& refs_in(self.storage@, self.root)
        &&& forall|i: int| 0 <= i < self.storage@.len() ==> refs_in(self.storage@, #[trigger] self.storage@[i].1)
    }

    /// The value stored under `key`.
    pub open spec fn value_of(&self, key: Seq<u8>) -> Option<Seq<u8>> {
        value_at(self.store(), self.spec_root(), nibbles_of(key))
    }

    /// An empty trie.
    pub fn new() -> (r: Self)
        ensures
            r.wf(),
            r.spec_root() is Empty,
            r.store().len() == 0,
            forall|k: Seq<u8>| #[trigger] r.value_of(k).is_none(),
    {
        MerklePatriciaTrie { root: Node::Empty, storage: Vec::new() }
    }

    /// Stores `node` under its hash and returns the hash.
    fn store_node(&mut self, node: Node) -> (h: Vec<u8>)
        requires
            old(self).wf(),
            trie_node_ok(node),
            refs_in(old(self).storage@, node),
        ensures
            final(self).wf(),
            h@ == node_digest(node),
            lookup_in(final(self).storage@, h@) == Some(node),
            final(self).root == old(self).root,
            final(self).storage@.len() == old(self).storage@.len() + 1,
            final(self).storage@.subrange(0, old(self).storage@.len() as int) == old(self).storage@,
            extends(old(self).storage@, final(self).storage@),
            final(self).storage@.last().0@ == h@,
            final(self).storage@.last().1 == node,
    {
        let h = hash_node(&node);
        let key = copy_bytes(h.as_slice());
        let ghost n = node;
        self.storage.push((key, node));
        assert(self.storage@.subrange(0, old(self).storage@.len() as int) =~= old(self).storage@);
        proof {
            let st0 = old(self).storage@;
            let st1 = self.storage@;
            assert(st1.drop_last() =~= st0);
            lemma_refs_extend(st0, st1, self.root);
            lemma_refs_extend(st0, st1, n);
            assert forall|i: int| 0 <= i < st1.len() implies refs_in(st1, #[trigger] st1[i].1) by {
                if i < st0.len() {
                    assert(st1[i] == st0[i]);
                    lemma_refs_extend(st0, st1, st0[i].1);
                }
            }
            assert forall|i: int| 0 <= i < st1.len() implies trie_node_ok(#[trigger] st1[i].1) by {
                if i < st0.len() {
                    assert(st1[i] == st0[i]);
                }
            }
            assert forall|i: int| 0 <= i < st1.len() implies (#[trigger] st1[i]).0@ == node_digest(st1[i].1) by {
                if i < st0.len() {
                    assert(st1[i] == st0[i]);
                }
            }
        }
        h
    }

    /// The value stored under `key`, if any.
    pub fn get(&self, key: &[u8]) -> (r: Option<Vec<u8>>)
        requires
            key@.len() * 2 <= usize::MAX,
        ensures
            r.is_some() == self.value_of(key@).is_some(),
            r.is_some() ==> r.unwrap()@ == self.value_of(key@).unwrap(),
    {
        let nibbles = bytes_to_nibbles(key);
        self.get_at(&self.root, nibbles.as_slice())
    }

    fn get_at(&self, node: &Node, path: &[u8]) -> (r: Option<Vec<u8>>)
        ensures
            r.is_some() == value_at(self.storage@, *node, path@).is_some(),
            r.is_some() ==> r.unwrap()@ == value_at(self.storage@, *node, path@).unwrap(),
        decreases path@.len(),
    {
        match node {
            Node::Empty => None,
            Node::Leaf { path: leaf_path, value } => {
                if bytes_eq(path, leaf_path.as_slice()) {
                    Some(copy_bytes(value.as_slice()))
                } else {
                    None
                }
            },
            Node::Extension { path: ext_path, child_hash } => {
                if ext_path.len() > 0 && starts_with(path, ext_path.as_slice()) {
                    let remaining = slice_from(path, ext_path.len());
                    match self.fetch(child_hash.as_slice()) {
                        Some(child) => self.get_at(child, remaining.as_slice()),
                        None => None,
                    }
                } else {
                    None
                }
            },
            Node::Branch { children, value } => {
                if path.len() == 0 {
                    copy_opt(value)
                } else if path[0] < 16 {
                    let nibble = path[0] as usize;
                    let remaining = slice_from(path, 1);
                    assert(remaining@ == path@.drop_first());
                    match &children[nibble] {
                        Some(h) => match self.fetch(h.as_slice()) {
                            Some(child) => self.get_at(child, remaining.as_slice()),
                            None => None,
                        },
                        None => None,
                    }
                } else {
                    None
                }
            },
        }
    }

    /// A proof for `key`: the nodes on its path from the root, and the
    /// value found there.
    pub fn get_proof(&self, key: &[u8]) -> (r: MerkleProof)
        requires
            self.wf(),
            key@.len() * 2 <= usize::MAX,
        ensures
            r.key@ == key@,
            r.value.is_some() == self.value_of(key@).is_some(),
            r.value.is_some() ==> r.value.unwrap()@ == self.value_of(key@).unwrap(),
            r.wf(),
            r.proof_nodes@.len() > 0,
            r.accepts(nibbles_of(key@), 0, node_digest(self.spec_root())),
            same_node(r.proof_nodes@[0], self.spec_root()),
    {
        let nibbles = bytes_to_nibbles(key);
        let mut proof_nodes: Vec<Node> = Vec::new();
        proof {
            assert forall|j: int| 0 <= j < nibbles@.len() implies #[trigger] nibbles@[j] < 16 by {}
        }
        let value = self.get_proof_at(&self.root, nibbles.as_slice(), &mut proof_nodes);
        MerkleProof::new(copy_bytes(key), value, proof_nodes)
    }

    fn get_proof_at(&self, node: &Node, path: &[u8], proof_nodes: &mut Vec<Node>) -> (r: Option<
        Vec<u8>,
    >)
        requires
            self.wf(),
            trie_node_ok(*node),
            refs_in(self.storage@, *node),
            all_nibbles(path@),
            forall|i: int| 0 <= i < old(proof_nodes)@.len() ==> (#[trigger] old(proof_nodes)@[i]).wf(),
        ensures
            final(proof_nodes)@.subrange(0, old(proof_nodes)@.len() as int) == old(proof_nodes)@,
            proves(final(proof_nodes)@, r, path@, old(proof_nodes)@.len() as int, node_digest(*node)),
            same_node(final(proof_nodes)@[old(proof_nodes)@.len() as int], *node),
            r.is_some() == value_at(self.storage@, *node, path@).is_some(),
            r.is_some() ==> r.unwrap()@ == value_at(self.storage@, *node, path@).unwrap(),
            final(proof_nodes)@.len() > old(proof_nodes)@.len(),
            forall|i: int| 0 <= i < final(proof_nodes)@.len() ==> (#[trigger] final(proof_nodes)@[i]).wf(),
        decreases path@.len(),
    {
        let copy = copy_node(node);
        let ghost n0 = old(proof_nodes)@.len() as int;
        proof {
            lemma_same_node(copy, *node);
        }
        proof_nodes.push(copy);
        let ghost pushed = proof_nodes@;
        assert(pushed[n0] == copy);
        let r = match node {
            Node::Empty => None,
            Node::Leaf { path: leaf_path, value } => {
                if bytes_eq(path, leaf_path.as_slice()) {
                    Some(copy_bytes(value.as_slice()))
                } else {
                    None
                }
            },
            Node::Extension { path: ext_path, child_hash } => {
                if starts_with(path, ext_path.as_slice()) {
                    let remaining = slice_from(path, ext_path.len());
                    proof {
                        lemma_sub_nibbles(path@, ext_path@.len() as int, path@.len() as int);
                    }
                    match self.fetch(child_hash.as_slice()) {
                        Some(child) => {
                            proof {
                                lemma_lookup_in_store(self.storage@, child_hash@);
                                lemma_lookup_digest(self.storage@, child_hash@);
                            }
                            let r = self.get_proof_at(child, remaining.as_slice(), proof_nodes);
                            proof {
                                assert(proof_nodes@[n0] == pushed.subrange(0, n0 + 1)[n0]);
                                assert(proof_nodes@.subrange(0, n0 + 1)[n0] == proof_nodes@[n0]);
                            }
                            r
                        },
                        None => None,
                    }
                } else {
                    None
                }
            },
            Node::Branch { children, value } => {
                if path.len() == 0 {
                    copy_opt(value)
                } else {
                    let nibble = path[0] as usize;
                    let remaining = slice_from(path, 1);
                    assert(remaining@ == path@.drop_first());
                    proof {
                        lemma_sub_nibbles(path@, 1, path@.len() as int);
                    }
                    match &children[nibble] {
                        Some(h) => {
                            proof {
                                assert(children@[nibble as int] matches Some(h2) && lookup_in(self.storage@, h2@).is_some());
                                lemma_lookup_digest(self.storage@, h@);
                            }
                            match self.fetch(h.as_slice()) {
                                Some(child) => {
                                    proof {
                                        lemma_lookup_in_store(self.storage@, h@);
                                    }
                                    let r = self.get_proof_at(child, remaining.as_slice(), proof_nodes);
                                    proof {
                                        assert(proof_nodes@.subrange(0, n0 + 1)[n0] == proof_nodes@[n0]);
                                    }
                                    r
                                },
                                None => None,
                            }
                        },
                        None => None,
                    }
                }
            },
        };
        r
    }

    /// The hash of the root node.
    pub fn root_hash(&self) -> (r: Vec<u8>)
        requires
            self.wf(),
        ensures
            r@ == node_digest(self.spec_root()),
    {
        hash_node(&self.root)
    }

    /// The root node.
    pub fn root(&self) -> (r: &Node)
        ensures
            *r == self.spec_root(),
    {
        &self.root
    }

    /// Inserts `value` under `key`, replacing the value there. Every node
    /// made is stored under its hash, so proofs keep verifying against the
    /// new root. A limitation of this simplified trie: a key whose nibble
    /// path ends partway along a longer leaf or extension path (past that
    /// path's first nibble) is dropped.
    pub fn insert(&mut self, key: &[u8], value: &[u8])
        requires
            old(self).wf(),
            key@.len() * 2 <= usize::MAX,
        ensures
            final(self).wf(),
            extends(old(self).store(), final(self).store()),
            (old(self).spec_root() is Empty || (old(self).spec_root() matches Node::Leaf { path: lp, .. }
                && lp@ == nibbles_of(key@))) ==> final(self).value_of(key@) == Some(value@),
            (old(self).spec_root() is Empty || (old(self).spec_root() matches Node::Leaf { path: lp, .. }
                && lp@ == nibbles_of(key@))) ==> (final(self).spec_root() matches Node::Leaf {
                path: rp,
                value: rv,
            } && rp@ == nibbles_of(key@) && rv@ == value@),
    {
        let nibbles = bytes_to_nibbles(key);
        proof {
            assert forall|j: int| 0 <= j < nibbles@.len() implies #[trigger] nibbles@[j] < 16 by {}
        }
        let mut root = Node::Empty;
        std::mem::swap(&mut self.root, &mut root);
        let new_root = self.insert_at(&root, nibbles.as_slice(), value);
        self.root = new_root;
    }

    /// Stores a leaf for `path` and `value`; returns its hash.
    fn store_leaf(&mut self, path: &[u8], value: &[u8]) -> (h: Vec<u8>)
        requires
            old(self).wf(),
            all_nibbles(path@),
        ensures
            final(self).wf(),
            final(self).root == old(self).root,
            extends(old(self).storage@, final(self).storage@),
            lookup_in(final(self).storage@, h@).is_some(),
    {
        let leaf = Node::leaf(copy_bytes(path), copy_bytes(value));
        self.store_node(leaf)
    }

    fn insert_at(&mut self, node: &Node, path: &[u8], value: &[u8]) -> (r: Node)
        requires
            old(self).wf(),
            trie_node_ok(*node),
            refs_in(old(self).storage@, *node),
            all_nibbles(path@),
        ensures
            final(self).wf(),
            trie_node_ok(r),
            refs_in(final(self).storage@, r),
            final(self).root == old(self).root,
            extends(old(self).storage@, final(self).storage@),
            (*node is Empty || (*node matches Node::Leaf { path: lp, .. } && lp@ == path@)) ==> (r matches Node::Leaf {
                path: rp,
                value: rv,
            } && rp@ == path@ && rv@ == value@),
            (*node is Empty || (*node matches Node::Leaf { path: lp, .. } && lp@ == path@)) ==> value_at(
                final(self).storage@,
                r,
                path@,
            ) == Some(value@),
        decreases path@.len(),
    {
        let ghost st0 = self.storage@;
        proof {
            lemma_extends_refl(st0);
        }
        match node {
            Node::Empty => Node::leaf(copy_bytes(path), copy_bytes(value)),
            Node::Leaf { path: leaf_path, value: leaf_value } => {
                let prefix_len = common_prefix(path, leaf_path.as_slice());
                if prefix_len == leaf_path.len() && prefix_len == path.len() {
                    Node::leaf(copy_bytes(path), copy_bytes(value))
                } else if prefix_len == leaf_path.len() {
                    let mut children = no_children();
                    let nibble = path[prefix_len] as usize;
                    let rest = slice_from(path, prefix_len + 1);
                    proof {
                        lemma_sub_nibbles(path@, prefix_len + 1, path@.len() as int);
                    }
                    let child_hash = self.store_leaf(rest.as_slice(), value);
                    children[nibble] = Some(child_hash);
                    assert(children_found(self.storage@, children@));
                    let branch = Node::Branch { children, value: Some(copy_bytes(leaf_value.as_slice())) };
                    if prefix_len > 0 {
                        let ghost st1 = self.storage@;
                        proof {
                            lemma_extends_refl(st1);
                        }
                        let branch_hash = self.store_node(branch);
                        proof {
                            assert(extends(st1, self.storage@));
                            lemma_extends_trans(st0, st1, self.storage@);
                        }
                        Node::extension(copy_bytes(leaf_path.as_slice()), branch_hash)
                    } else {
                        branch
                    }
                } else if prefix_len == 0 {
                    let mut children = no_children();
                    let old_nibble = leaf_path[0] as usize;
                    let old_rest = slice_from(leaf_path.as_slice(), 1);
                    proof {
                        lemma_sub_nibbles(leaf_path@, 1, leaf_path@.len() as int);
                    }
                    let old_hash = self.store_leaf(old_rest.as_slice(), leaf_value.as_slice());
                    children[old_nibble] = Some(old_hash);
                    if path.len() > 0 {
                        let ghost st1 = self.storage@;
                        proof {
                            lemma_extends_refl(st1);
                        }
                        let new_nibble = path[0] as usize;
                        let new_rest = slice_from(path, 1);
                        proof {
                            lemma_sub_nibbles(path@, 1, path@.len() as int);
                        }
                        let new_hash = self.store_leaf(new_rest.as_slice(), value);
                        proof {
                            lemma_extends_trans(st0, st1, self.storage@);
                            assert(children_found(st1, children@));
                            lemma_children_found_extend(st1, self.storage@, children@);
                        }
                        children[new_nibble] = Some(new_hash);
                        assert(children_found(self.storage@, children@));
                        Node::Branch { children, value: None }
                    } else {
                        Node::Branch { children, value: Some(copy_bytes(value)) }
                    }
                } else {
                    let common = prefix_of(path, prefix_len);
                    proof {
                        lemma_sub_nibbles(path@, 0, prefix_len as int);
                    }
                    let mut children = no_children();
                    let old_rest = slice_from(leaf_path.as_slice(), prefix_len);
                    if old_rest.len() > 0 {
                        let old_nibble = old_rest[0] as usize;
                        assert(old_rest@[0] == leaf_path@[prefix_len as int]);
                        let old_tail = slice_from(old_rest.as_slice(), 1);
                        proof {
                            lemma_sub_nibbles(leaf_path@, prefix_len + 1, leaf_path@.len() as int);
                            assert(old_tail@ =~= leaf_path@.subrange(prefix_len + 1, leaf_path@.len() as int));
                        }
                        let old_hash = self.store_leaf(old_tail.as_slice(), leaf_value.as_slice());
                        children[old_nibble] = Some(old_hash);
                    }
                    assert(children_found(self.storage@, children@));
                    let ghost st1 = self.storage@;
                    proof {
                        lemma_extends_refl(st1);
                    }
                    let new_rest = slice_from(path, prefix_len);
                    if new_rest.len() > 0 {
                        let new_nibble = new_rest[0] as usize;
                        assert(new_rest@[0] == path@[prefix_len as int]);
                        let new_tail = slice_from(new_rest.as_slice(), 1);
                        proof {
                            lemma_sub_nibbles(path@, prefix_len + 1, path@.len() as int);
                            assert(new_tail@ =~= path@.subrange(prefix_len + 1, path@.len() as int));
                        }
                        let ghost st_before = self.storage@;
                        let new_hash = self.store_leaf(new_tail.as_slice(), value);
                        proof {
                            lemma_children_found_extend(st_before, self.storage@, children@);
                        }
                        children[new_nibble] = Some(new_hash);
                    }
                    assert(children_found(self.storage@, children@));
                    let ghost st2 = self.storage@;
                    proof {
                        lemma_extends_refl(st2);
                    }
                    let branch_hash = self.store_node(Node::Branch { children, value: None });
                    proof {
                        lemma_extends_trans(st0, st1, st2);
                        lemma_extends_trans(st0, st2, self.storage@);
                    }
                    Node::extension(common, branch_hash)
                }
            },
            Node::Extension { path: ext_path, child_hash } => {
                let prefix_len = common_prefix(path, ext_path.as_slice());
                if prefix_len == ext_path.len() {
                    let remaining = slice_from(path, prefix_len);
                    proof {
                        lemma_sub_nibbles(path@, prefix_len as int, path@.len() as int);
                    }
                    let child = match self.fetch(child_hash.as_slice()) {
                        Some(c) => {
                            proof {
                                lemma_lookup_in_store(self.storage@, child_hash@);
                            }
                            copy_node(c)
                        },
                        None => Node::Empty,
                    };
                    let new_child = self.insert_at(&child, remaining.as_slice(), value);
                    let ghost st1 = self.storage@;
                    proof {
                        lemma_extends_refl(st1);
                    }
                    let new_child_hash = self.store_node(new_child);
                    proof {
                        lemma_extends_trans(st0, st1, self.storage@);
                    }
                    Node::extension(copy_bytes(ext_path.as_slice()), new_child_hash)
                } else {
                    let common = prefix_of(path, prefix_len);
                    proof {
                        lemma_sub_nibbles(path@, 0, prefix_len as int);
                    }
                    let mut children = no_children();
                    let old_nibble = ext_path[prefix_len] as usize;
                    if ext_path.len() - prefix_len > 1 {
                        let old_tail = slice_from(ext_path.as_slice(), prefix_len + 1);
                        proof {
                            lemma_sub_nibbles(ext_path@, prefix_len + 1, ext_path@.len() as int);
                        }
                        let old_ext = Node::extension(old_tail, copy_bytes(child_hash.as_slice()));
                        let old_hash = self.store_node(old_ext);
                        children[old_nibble] = Some(old_hash);
                    } else {
                        children[old_nibble] = Some(copy_bytes(child_hash.as_slice()));
                    }
                    assert(children_found(self.storage@, children@));
                    let ghost st1 = self.storage@;
                    proof {
                        lemma_extends_refl(st1);
                    }
                    let new_rest = slice_from(path, prefix_len);
                    if new_rest.len() > 0 {
                        let new_nibble = new_rest[0] as usize;
                        assert(new_rest@[0] == path@[prefix_len as int]);
                        let new_tail = slice_from(new_rest.as_slice(), 1);
                        proof {
                            lemma_sub_nibbles(path@, prefix_len + 1, path@.len() as int);
                            assert(new_tail@ =~= path@.subrange(prefix_len + 1, path@.len() as int));
                        }
                        let ghost st_before = self.storage@;
                        let new_hash = self.store_leaf(new_tail.as_slice(), value);
                        proof {
                            lemma_children_found_extend(st_before, self.storage@, children@);
                        }
                        children[new_nibble] = Some(new_hash);
                    }
                    assert(children_found(self.storage@, children@));
                    proof {
                        lemma_extends_trans(st0, st1, self.storage@);
                    }
                    let branch = Node::Branch { children, value: None };
                    if prefix_len > 0 {
                        let ghost st2 = self.storage@;
                        proof {
                            lemma_extends_refl(st2);
                        }
                        let branch_hash = self.store_node(branch);
                        proof {
                            lemma_extends_trans(st0, st2, self.storage@);
                        }
                        Node::extension(common, branch_hash)
                    } else {
                        branch
                    }
                }
            },
            Node::Branch { children, value: branch_value } => {
                if path.len() == 0 {
                    let copied = copy_children(children);
                    proof {
                        lemma_children_found_copy(self.storage@, children@, copied@);
                    }
                    Node::Branch { children: copied, value: Some(copy_bytes(value)) }
                } else {
                    let nibble = path[0] as usize;
                    let remaining = slice_from(path, 1);
                    proof {
                        lemma_sub_nibbles(path@, 1, path@.len() as int);
                    }
                    let child = match &children[nibble] {
                        Some(h) => match self.fetch(h.as_slice()) {
                            Some(c) => {
                                proof {
                                    lemma_lookup_in_store(self.storage@, h@);
                                }
                                copy_node(c)
                            },
                            None => Node::Empty,
                        },
                        None => Node::Empty,
                    };
                    let new_child = self.insert_at(&child, remaining.as_slice(), value);
                    let ghost st1 = self.storage@;
                    proof {
                        lemma_extends_refl(st1);
                    }
                    let new_child_hash = self.store_node(new_child);
                    proof {
                        lemma_extends_trans(st0, st1, self.storage@);
                    }
                    let mut new_children = copy_children(children);
                    proof {
                        lemma_children_found_extend(st0, self.storage@, children@);
                        lemma_children_found_copy(self.storage@, children@, new_children@);
                    }
                    new_children[nibble] = Some(new_child_hash);
                    assert(children_found(self.storage@, new_children@));
                    Node::Branch { children: new_children, value: copy_opt(branch_value) }
                }
            },
        }
    }

    /// The stored node last put under the hash `h`.
    fn fetch(&self, h: &[u8]) -> (r: Option<&Node>)
        ensures
            match lookup_in(self.storage@, h@) {
                Some(n) => r == Some(&n),
                None => r.is_none(),
            },
    {
        let mut i: usize = self.storage.len();
        assert(self.storage@.subrange(0, i as int) =~= self.storage@);
        while i > 0
            invariant
                i <= self.storage@.len(),
                lookup_in(self.storage@, h@) == lookup_in(self.storage@.subrange(0, i as int), h@),
            decreases i,
        {
            let ghost sub = self.storage@.subrange(0, i as int);
            if bytes_eq(self.storage[i - 1].0.as_slice(), h) {
                return Some(&self.storage[i - 1].1);
            }
            assert(sub.drop_last() =~= self.storage@.subrange(0, i - 1));
            i = i - 1;
        }
        None
    }
}

impl Default for MerklePatriciaTrie {
    fn default() -> (r: Self)
        ensures
            r.wf(),
    {
        MerklePatriciaTrie::new()
    }
}

} // verus!
