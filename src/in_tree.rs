//! An append-only, hash-consed in-tree: each node is a payload under a
//! parent, and a node for a given parent and payload is made only once, so
//! two ids are equal exactly when their paths from the root are.
use std::collections::HashMap;
use vstd::prelude::*;

verus! {

/// What a node of an [`InTree`] holds: a value with a mathematical model and
/// an exact comparison of models.
pub trait Payload: Sized {
    type Model;

    spec fn model(&self) -> Self::Model;

    /// Whether the two payloads have the same model.
    fn same(&self, other: &Self) -> (r: bool)
        ensures
            r == (self.model() == other.model()),
    ;

    /// A copy with the same model.
    fn duplicate(&self) -> (r: Self)
        ensures
            r.model() == self.model(),
    ;

    /// The fingerprint of a model: the same model, the same fingerprint.
    spec fn fingerprint_of(m: Self::Model) -> u64;

    /// The fingerprint of this payload, for hash lookup.
    fn fingerprint(&self) -> (r: u64)
        ensures
            r == Self::fingerprint_of(self.model()),
    ;
}

/// One node: its parent's id, its depth, and its payload.
#[derive(Debug)]
pub struct Entry<T> {
    pub parent_index: usize,
    pub len: usize,
    pub value: T,
}

/// The tree. Id 0 is the root, which holds nothing; every other id names a
/// node whose parent has a smaller id.
#[derive(Debug)]
pub struct InTree<T> {
    /// The ids of the nodes, by the fingerprint of their payload.
    lookup: HashMap<u64, Vec<usize>>,
    entries: Vec<Option<Entry<T>>>,
}

/// The model of a tree: for each id, the parent and payload model of its
/// node, or nothing for the root.
pub type Nodes<M> = Seq<Option<(usize, M)>>;

/// The parent of node `i` (0 for the root).
pub open spec fn parent_of<M>(nodes: Nodes<M>, i: int) -> int {
    match nodes[i] {
        Some((p, _)) => p as int,
        None => 0,
    }
}

/// Whether a node sequence is a tree: the root at 0 and only there, each
/// parent before its child, no two nodes with the same parent and payload.
pub open spec fn tree_wf<M>(nodes: Nodes<M>) -> bool {
    &&& nodes.len() >= 1
    &&& nodes[0] is None
    &&& forall|i: int| 1 <= i < nodes.len() ==> (#[trigger] nodes[i]) is Some && parent_of(nodes, i) < i
    &&& forall|i: int, j: int|
        1 <= i < nodes.len() && 1 <= j < nodes.len() && #[trigger] nodes[i] == #[trigger] nodes[j] ==> i
            == j
}

/// Whether `id` is a node of the tree that holds `payload` under `parent`.
pub open spec fn holds<M>(nodes: Nodes<M>, id: int, parent: usize, payload: M) -> bool {
    1 <= id < nodes.len() && nodes[id] == Some((parent, payload))
}

/// The id that `create(parent, payload)` returns, and the tree after it: the
/// node that holds them if there is one, else a new node at the end.
pub open spec fn created<M>(nodes: Nodes<M>, parent: usize, payload: M) -> (nat, Nodes<M>) {
    if exists|i: int| holds(nodes, i, parent, payload) {
        ((choose|i: int| holds(nodes, i, parent, payload)) as nat, nodes)
    } else {
        (nodes.len(), nodes.push(Some((parent, payload))))
    }
}

/// The payloads on the path from the root down to `id`, root first.
pub open spec fn path<M>(nodes: Nodes<M>, id: int) -> Seq<M>
    decreases id,
{
    if 1 <= id < nodes.len() && parent_of(nodes, id) < id {
        match nodes[id] {
            Some((p, v)) => path(nodes, p as int).push(v),
            None => Seq::empty(),
        }
    } else {
        Seq::empty()
    }
}

/// The ids on the path from the root down to `id`, root first.
pub open spec fn ancestors<M>(nodes: Nodes<M>, id: int) -> Seq<int>
    decreases id,
{
    if 1 <= id < nodes.len() && nodes[id] is Some && parent_of(nodes, id) < id {
        ancestors(nodes, parent_of(nodes, id)).push(id)
    } else {
        Seq::empty()
    }
}

/// The path to a node is at most as long as its id, and its ids end with it.
pub proof fn lemma_path<M>(nodes: Nodes<M>, id: int)
    requires
        tree_wf(nodes),
        0 <= id < nodes.len(),
    ensures
        path(nodes, id).len() <= id,
        ancestors(nodes, id).len() == path(nodes, id).len(),
        forall|j: int| 0 <= j < ancestors(nodes, id).len() ==> 1 <= #[trigger] ancestors(nodes, id)[j] <= id,
        id >= 1 ==> ancestors(nodes, id).last() == id && ancestors(nodes, id).drop_last() == ancestors(
            nodes,
            parent_of(nodes, id),
        ) && path(nodes, id).len() == path(nodes, parent_of(nodes, id)).len() + 1,
    decreases id,
{
    if id >= 1 {
        assert(nodes[id] is Some);
        lemma_path(nodes, parent_of(nodes, id));
    }
}

/// Adding a node leaves the paths to the others as they were.
pub proof fn lemma_path_push<M>(nodes: Nodes<M>, x: Option<(usize, M)>, id: int)
    requires
        tree_wf(nodes),
        0 <= id < nodes.len(),
    ensures
        path(nodes.push(x), id) == path(nodes, id),
        ancestors(nodes.push(x), id) == ancestors(nodes, id),
    decreases id,
{
    if id >= 1 {
        assert(nodes.push(x)[id] == nodes[id]);
        assert(nodes[id] is Some);
        lemma_path_push(nodes, x, parent_of(nodes, id));
    }
}

impl<T: Payload> Default for InTree<T> {
    fn default() -> (r: Self)
        ensures
            r.wf(),
            r.nodes() == seq![None::<(usize, T::Model)>],
    {
        Self::new()
    }
}

/// The payloads on the path are those of the nodes on it.
pub proof fn lemma_path_ancestors<M>(nodes: Nodes<M>, id: int)
    requires
        tree_wf(nodes),
        0 <= id < nodes.len(),
    ensures
        forall|k: int|
            0 <= k < path(nodes, id).len() ==> nodes[#[trigger] ancestors(nodes, id)[k]] == Some(
                (parent_of(nodes, ancestors(nodes, id)[k]) as usize, path(nodes, id)[k]),
            ),
    decreases id,
{
    lemma_path(nodes, id);
    if id >= 1 {
        let p = parent_of(nodes, id);
        lemma_path_ancestors(nodes, p);
        lemma_path(nodes, p);
        assert forall|k: int| 0 <= k < path(nodes, id).len() implies nodes[#[trigger] ancestors(nodes, id)[k]] == Some(
                (parent_of(nodes, ancestors(nodes, id)[k]) as usize, path(nodes, id)[k]),
            ) by {
            if k < path(nodes, p).len() {
                assert(ancestors(nodes, id)[k] == ancestors(nodes, p)[k]);
            } else {
                assert(ancestors(nodes, id)[k] == id);
            }
        }
    }
}

/// Creating keeps a tree a tree, and the id returned holds what was asked
/// for; the nodes already there stay as they were.
pub proof fn lemma_created<M>(nodes: Nodes<M>, parent: usize, payload: M)
    requires
        tree_wf(nodes),
        parent < nodes.len(),
    ensures
        tree_wf(created(nodes, parent, payload).1),
        holds(created(nodes, parent, payload).1, created(nodes, parent, payload).0 as int, parent, payload),
        nodes.is_prefix_of(created(nodes, parent, payload).1),
{
    let n1 = created(nodes, parent, payload).1;
    if !exists|i: int| holds(nodes, i, parent, payload) {
        assert(n1 == nodes.push(Some((parent, payload))));
        assert forall|a: int, b: int|
            1 <= a < n1.len() && 1 <= b < n1.len() && #[trigger] n1[a] == #[trigger] n1[b] implies a == b by {
            if a == nodes.len() && b < nodes.len() {
                assert(holds(nodes, b, parent, payload));
            }
            if b == nodes.len() && a < nodes.len() {
                assert(holds(nodes, a, parent, payload));
            }
        }
        assert(n1[nodes.len() as int] == Some((parent, payload)));
        assert forall|i: int| 1 <= i < n1.len() implies (#[trigger] n1[i]) is Some && parent_of(n1, i) < i by {
            if i < nodes.len() {
                assert(n1[i] == nodes[i]);
            }
        }
    }
}

/// Creating the same parent and payload twice gives the same id, and the
/// second creation changes nothing.
pub proof fn lemma_create_twice<M>(nodes: Nodes<M>, parent: usize, payload: M)
    requires
        tree_wf(nodes),
        parent < nodes.len(),
    ensures
        ({
            let (r1, n1) = created(nodes, parent, payload);
            let (r2, n2) = created(n1, parent, payload);
            r1 == r2 && n1 == n2
        }),
{
    lemma_created(nodes, parent, payload);
    let (r1, n1) = created(nodes, parent, payload);
    assert(holds(n1, r1 as int, parent, payload));
    let c = choose|i: int| holds(n1, i, parent, payload);
    assert(n1[c] == n1[r1 as int]);
}

/// Creating two different parent and payload pairs gives two different ids.
pub proof fn lemma_create_distinct<M>(nodes: Nodes<M>, p1: usize, v1: M, p2: usize, v2: M)
    requires
        tree_wf(nodes),
        p1 < nodes.len(),
        p2 < nodes.len(),
        (p1, v1) != (p2, v2),
    ensures
        ({
            let (r1, n1) = created(nodes, p1, v1);
            let (r2, n2) = created(n1, p2, v2);
            r1 != r2
        }),
{
    lemma_created(nodes, p1, v1);
    let (r1, n1) = created(nodes, p1, v1);
    lemma_created(n1, p2, v2);
    let (r2, n2) = created(n1, p2, v2);
    assert(n2[r1 as int] == n1[r1 as int]);
}

impl<T: Payload> InTree<T> {
    /// The model: parent and payload of each node by id.
    pub closed spec fn nodes(&self) -> Nodes<T::Model> {
        Seq::new(
            self.entries@.len(),
            |i: int|
                match self.entries@[i] {
                    Some(e) => Some((e.parent_index, e.value.model())),
                    None => None,
                },
        )
    }

    /// The payload value held at `id`.
    pub closed spec fn value_at(&self, id: int) -> T {
        self.entries@[id]->0.value
    }

    /// The number of ids in use, the root included.
    pub open spec fn size(&self) -> nat {
        self.nodes().len()
    }

    /// The fingerprint of the payload of node `i`.
    pub closed spec fn fingerprint_at(&self, i: int) -> u64 {
        T::fingerprint_of(self.value_at(i).model())
    }

    /// The tree is well formed, each node records its depth, and the lookup
    /// table files each node, and nothing else, under its fingerprint.
    pub closed spec fn wf(&self) -> bool {
        &&& tree_wf(self.nodes())
        &&& forall|i: int|
            1 <= i < self.entries@.len() ==> (#[trigger] self.entries@[i])->0.len == path(
                self.nodes(),
                i,
            ).len()
        &&& forall|i: int|
            1 <= i < self.entries@.len() ==> self.lookup@.contains_key(#[trigger] self.fingerprint_at(i))
                && self.lookup@[self.fingerprint_at(i)]@.contains(i as usize)
        &&& forall|k: u64, j: int|
            #![trigger self.lookup@[k]@[j]]
            self.lookup@.contains_key(k) && 0 <= j < self.lookup@[k]@.len() ==> 1 <= self.lookup@[k]@[j]
                < self.entries@.len() && self.fingerprint_at(self.lookup@[k]@[j] as int) == k
    }

    /// A well-formed tree's model is a tree.
    pub proof fn lemma_tree(&self)
        requires
            self.wf(),
        ensures
            tree_wf(self.nodes()),
    {
    }

    /// The model of node `i` holds the model of its payload.
    pub proof fn lemma_value(&self, i: int)
        requires
            self.wf(),
            1 <= i < self.size(),
        ensures
            self.nodes()[i] == Some((parent_of(self.nodes(), i) as usize, self.value_at(i).model())),
    {
    }

    /// An empty tree: the root alone.
    pub fn new() -> (r: Self)
        ensures
            r.wf(),
            r.nodes() == seq![None::<(usize, T::Model)>],
    {
        let r = InTree { lookup: HashMap::new(), entries: vec![None] };
        assert(r.nodes() =~= seq![None::<(usize, T::Model)>]);
        r
    }

    /// The id of the node holding `value` under `parent_index`, made if
    /// there is none yet.
    pub fn create(&mut self, parent_index: usize, value: T) -> (r: usize)
        requires
            old(self).wf(),
            parent_index < old(self).size(),
        ensures
            final(self).wf(),
            (r as nat, final(self).nodes()) == created(old(self).nodes(), parent_index, value.model()),
            final(self).value_at(r as int) == value || holds(old(self).nodes(), r as int, parent_index, value.model()),
            forall|i: int| 0 <= i < old(self).size() ==> #[trigger] final(self).value_at(i) == old(self).value_at(i),
    {
        let ghost nodes = self.nodes();
        proof {
            lemma_path(nodes, parent_index as int);
        }
        let count = self.entries.len();
        assert(parent_index < count);
        let len = match &self.entries[parent_index] {
            Some(p) => {
                assert(self.entries@[parent_index as int]->0.len == path(nodes, parent_index as int).len());
                assert(p.len <= parent_index);
                p.len + 1
            },
            None => 1,
        };
        let h = value.fingerprint();
        match self.lookup.get(&h) {
            Some(bucket) => {
                let mut k: usize = 0;
                while k < bucket.len()
                    invariant
                        k <= bucket@.len(),
                        self.nodes() == nodes,
                        *self == *old(self),
                        self.wf(),
                        self.lookup@.contains_key(h),
                        bucket@ == self.lookup@[h]@,
                        forall|q: int| 0 <= q < k ==> !holds(nodes, #[trigger] bucket@[q] as int, parent_index, value.model()),
                    decreases bucket@.len() - k,
                {
                    let i = bucket[k];
                    assert(1 <= i < self.entries@.len());
                    match &self.entries[i] {
                        Some(e) => {
                            if e.parent_index == parent_index && e.value.same(&value) {
                                assert(holds(nodes, i as int, parent_index, value.model()));
                                let ghost c = choose|j: int| holds(nodes, j, parent_index, value.model());
                                assert(nodes[c] == nodes[i as int]);
                                return i;
                            }
                        },
                        None => {},
                    }
                    assert(!holds(nodes, i as int, parent_index, value.model()));
                    k = k + 1;
                }
                assert forall|j: int| !holds(nodes, j, parent_index, value.model()) by {
                    if holds(nodes, j, parent_index, value.model()) {
                        self.lemma_value(j);
                        assert(self.fingerprint_at(j) == h);
                        assert(bucket@.contains(j as usize));
                        let q = choose|q: int| 0 <= q < bucket@.len() && bucket@[q] == j as usize;
                        assert(!holds(nodes, bucket@[q] as int, parent_index, value.model()));
                    }
                }
            },
            None => {
                assert forall|j: int| !holds(nodes, j, parent_index, value.model()) by {
                    if holds(nodes, j, parent_index, value.model()) {
                        self.lemma_value(j);
                        assert(self.fingerprint_at(j) == h);
                    }
                }
            },
        }
        let n = self.entries.len();
        assert(!exists|j: int| holds(nodes, j, parent_index, value.model()));
        let ghost node = Some((parent_index, value.model()));
        let ghost old_entries = self.entries@;
        let ghost old_lookup = self.lookup@;
        self.entries.push(Some(Entry { parent_index, len, value }));
        let mut b = match self.lookup.remove(&h) {
            Some(b) => b,
            None => Vec::new(),
        };
        let ghost old_bucket = b@;
        b.push(n);
        self.lookup.insert(h, b);
        proof {
            assert(self.nodes() =~= nodes.push(node));
            let nn = self.nodes();
            assert forall|a: int, c: int|
                1 <= a < nn.len() && 1 <= c < nn.len() && #[trigger] nn[a] == #[trigger] nn[c] implies a == c by {
                if a == n as int && c < n {
                    assert(holds(nodes, c, parent_index, value.model()));
                }
                if c == n as int && a < n {
                    assert(holds(nodes, a, parent_index, value.model()));
                }
            }
            assert(tree_wf(nn));
            assert forall|j: int| 1 <= j < self.entries@.len() implies (#[trigger] self.entries@[j])->0.len == path(self.nodes(), j).len() by {
                if j < n {
                    lemma_path_push(nodes, node, j);
                    assert(self.entries@[j] == old_entries[j]);
                } else {
                    lemma_path_push(nodes, node, parent_index as int);
                    assert(self.nodes()[j] == node);
                }
            }
            assert forall|j: int| 0 <= j < n implies #[trigger] self.value_at(j) == old(self).value_at(j) by {
                assert(self.entries@[j] == old_entries[j]);
            }
            assert(old_lookup.contains_key(h) ==> old_bucket == old_lookup[h]@);
            assert(!old_lookup.contains_key(h) ==> old_bucket.len() == 0);
            assert(self.lookup@ == old_lookup.insert(h, self.lookup@[h]));
            assert(self.lookup@[h]@ == old_bucket.push(n));
            assert forall|i: int| 1 <= i < self.entries@.len() implies self.lookup@.contains_key(#[trigger] self.fingerprint_at(i))
                && self.lookup@[self.fingerprint_at(i)]@.contains(i as usize) by {
                if i < n {
                    assert(self.value_at(i) == old(self).value_at(i));
                    assert(self.fingerprint_at(i) == old(self).fingerprint_at(i));
                    let k = self.fingerprint_at(i);
                    assert(old_lookup[k]@.contains(i as usize));
                    if k == h {
                        let q = choose|q: int| 0 <= q < old_bucket.len() && old_bucket[q] == i as usize;
                        assert(self.lookup@[h]@[q] == i as usize);
                    }
                } else {
                    assert(self.fingerprint_at(i) == h);
                    assert(self.lookup@[h]@[old_bucket.len() as int] == n);
                }
            }
            assert forall|k: u64, j: int|
                #![trigger self.lookup@[k]@[j]]
                self.lookup@.contains_key(k) && 0 <= j < self.lookup@[k]@.len() implies 1 <= self.lookup@[k]@[j]
                    < self.entries@.len() && self.fingerprint_at(self.lookup@[k]@[j] as int) == k by {
                if k == h && j == old_bucket.len() {
                    assert(self.lookup@[k]@[j] == n);
                    assert(self.fingerprint_at(n as int) == h);
                } else {
                    let id = self.lookup@[k]@[j];
                    if k == h {
                        assert(id == old_bucket[j]);
                    }
                    assert(id == old_lookup[k]@[j]);
                    assert(1 <= id < n);
                    assert(self.value_at(id as int) == old(self).value_at(id as int));
                }
            }
        }
        n
    }

    /// The depth of node `index`: the length of its path (0 for the root).
    pub fn len(&self, index: usize) -> (r: usize)
        requires
            self.wf(),
            index < self.size(),
        ensures
            r == path(self.nodes(), index as int).len(),
    {
        match &self.entries[index] {
            Some(e) => e.len,
            None => 0,
        }
    }

    /// Node `index`, or nothing for the root.
    pub fn get(&self, index: usize) -> (r: Option<&Entry<T>>)
        requires
            self.wf(),
            index < self.size(),
        ensures
            r is None <==> index == 0,
            r is Some ==> {
                let e = r->0;
                &&& e.parent_index == parent_of(self.nodes(), index as int)
                &&& e.len == path(self.nodes(), index as int).len()
                &&& e.value == self.value_at(index as int)
                &&& self.nodes()[index as int] == Some((e.parent_index, e.value.model()))
            },
    {
        self.entries[index].as_ref()
    }

    /// The node at position `nth_in_path` on the path from the root down to
    /// `index`, counted from 1 at the node below the root; nothing where the
    /// path has no such position.
    pub fn traverse(&self, index: usize, nth_in_path: usize) -> (r: Option<&Entry<T>>)
        requires
            self.wf(),
            index < self.size(),
        ensures
            r is Some <==> 1 <= nth_in_path <= path(self.nodes(), index as int).len(),
            r is Some ==> {
                let a = ancestors(self.nodes(), index as int)[nth_in_path - 1];
                let e = r->0;
                &&& e.parent_index == parent_of(self.nodes(), a)
                &&& e.len == nth_in_path
                &&& e.value == self.value_at(a)
                &&& self.nodes()[a] == Some((e.parent_index, e.value.model()))
            },
    {
        let ghost nodes = self.nodes();
        proof {
            lemma_path(nodes, index as int);
        }
        let depth = self.len(index);
        if nth_in_path == 0 || nth_in_path > depth {
            return None;
        }
        let mut current = index;
        let mut d = depth;
        while d > nth_in_path
            invariant
                self.wf(),
                nodes == self.nodes(),
                current < self.size(),
                1 <= nth_in_path <= d,
                d == path(nodes, current as int).len(),
                d <= ancestors(nodes, index as int).len(),
                ancestors(nodes, current as int) == ancestors(nodes, index as int).subrange(0, d as int),
            decreases d,
        {
            proof {
                lemma_path(nodes, current as int);
                assert(current != 0);
            }
            let ghost before = current as int;
            let e = self.entries[current].as_ref().unwrap();
            assert(nodes[current as int] == Some((e.parent_index, e.value.model())));
            assert(e.parent_index == parent_of(nodes, current as int));
            current = e.parent_index;
            d = d - 1;
            proof {
                lemma_path(nodes, current as int);
                assert(ancestors(nodes, current as int) == ancestors(nodes, before).drop_last());
                assert(ancestors(nodes, current as int) =~= ancestors(nodes, index as int).subrange(0, d as int));
            }
        }
        proof {
            lemma_path(nodes, current as int);
            assert(ancestors(nodes, index as int)[nth_in_path - 1] == ancestors(nodes, current as int)[nth_in_path - 1]);
            assert(self.entries@[current as int]->0.len == path(nodes, current as int).len());
        }
        self.entries[current].as_ref()
    }

    /// The nearest payload to `from_index`, itself included, on its path to
    /// the root that `where_fn` accepts.
    pub fn resolve<F: Fn(&T) -> bool>(&self, from_index: usize, where_fn: F) -> (r: Option<&T>)
        requires
            self.wf(),
            from_index < self.size(),
            forall|t: &T| #[trigger] where_fn.requires((t,)),
        ensures
            ({
                let a = ancestors(self.nodes(), from_index as int);
                match r {
                    Some(v) => exists|j: int|
                        0 <= j < a.len() && *v == self.value_at(a[j]) && where_fn.ensures(
                            (&self.value_at(a[j]),),
                            true,
                        ) && forall|k: int|
                            j < k < a.len() ==> #[trigger] where_fn.ensures((&self.value_at(a[k]),), false),
                    None => forall|k: int|
                        0 <= k < a.len() ==> #[trigger] where_fn.ensures((&self.value_at(a[k]),), false),
                }
            }),
    {
        let ghost nodes = self.nodes();
        let ghost a = ancestors(nodes, from_index as int);
        proof {
            lemma_path(nodes, from_index as int);
        }
        let mut current = from_index;
        while current != 0
            invariant
                self.wf(),
                nodes == self.nodes(),
                current < self.size(),
                a == ancestors(nodes, from_index as int),
                ancestors(nodes, current as int).len() <= a.len(),
                ancestors(nodes, current as int) == a.subrange(0, ancestors(nodes, current as int).len() as int),
                forall|k: int|
                    ancestors(nodes, current as int).len() <= k < a.len() ==> #[trigger] where_fn.ensures(
                        (&self.value_at(a[k]),),
                        false,
                    ),
                forall|t: &T| #[trigger] where_fn.requires((t,)),
            decreases current,
        {
            proof {
                lemma_path(nodes, current as int);
            }
            let e = self.entries[current].as_ref().unwrap();
            assert(nodes[current as int] == Some((e.parent_index, e.value.model())));
            assert(e.parent_index == parent_of(nodes, current as int));
            let ghost m = ancestors(nodes, current as int).len() - 1;
            assert(ancestors(nodes, current as int)[m] == current);
            assert(a.subrange(0, m + 1)[m] == a[m]);
            assert(a[m] == current);
            assert(e.value == self.value_at(current as int));
            if where_fn(&e.value) {
                return Some(&e.value);
            }
            let ghost before = current as int;
            current = e.parent_index;
            proof {
                lemma_path(nodes, current as int);
                assert(ancestors(nodes, current as int) == ancestors(nodes, before).drop_last());
                assert(ancestors(nodes, current as int) =~= a.subrange(0, m));
            }
        }
        proof {
            lemma_path(nodes, 0);
        }
        None
    }

    /// Copies of the payloads on the path from the root down to `index`,
    /// root first.
    pub fn path_values(&self, index: usize) -> (r: Vec<T>)
        requires
            self.wf(),
            index < self.size(),
        ensures
            r@.len() == path(self.nodes(), index as int).len(),
            forall|k: int| 0 <= k < r@.len() ==> (#[trigger] r@[k]).model() == path(self.nodes(), index as int)[k],
    {
        let ghost nodes = self.nodes();
        let ghost p = path(nodes, index as int);
        proof {
            lemma_path(nodes, index as int);
        }
        let mut up: Vec<T> = Vec::new();
        let mut current = index;
        while current != 0
            invariant
                self.wf(),
                nodes == self.nodes(),
                p == path(nodes, index as int),
                current < self.size(),
                up@.len() <= p.len(),
                path(nodes, current as int) == p.subrange(0, p.len() - up@.len()),
                forall|j: int| 0 <= j < up@.len() ==> (#[trigger] up@[j]).model() == p[p.len() - 1 - j],
            decreases current,
        {
            proof {
                lemma_path(nodes, current as int);
                self.lemma_value(current as int);
            }
            let e = self.entries[current].as_ref().unwrap();
            assert(nodes[current as int] == Some((e.parent_index, e.value.model())));
            let ghost before = up@;
            let ghost pc = path(nodes, current as int);
            assert(pc.last() == e.value.model());
            assert(pc == p.subrange(0, p.len() - before.len()));
            up.push(e.value.duplicate());
            current = e.parent_index;
            proof {
                assert(path(nodes, current as int) == pc.drop_last());
                assert(path(nodes, current as int) =~= p.subrange(0, p.len() - up@.len()));
                assert forall|j: int| 0 <= j < up@.len() implies (#[trigger] up@[j]).model() == p[p.len() - 1 - j] by {
                    if j < before.len() {
                        assert(up@[j] == before[j]);
                    } else {
                        assert(pc[pc.len() - 1] == p[p.len() - 1 - j]);
                    }
                }
            }
        }
        assert(up@.len() == p.len());
        let mut r: Vec<T> = Vec::new();
        let n = up.len();
        while up.len() > 0
            invariant
                up@.len() + r@.len() == n == p.len(),
                forall|j: int| 0 <= j < up@.len() ==> (#[trigger] up@[j]).model() == p[p.len() - 1 - j],
                forall|k: int| 0 <= k < r@.len() ==> (#[trigger] r@[k]).model() == p[k],
            decreases up@.len(),
        {
            let ghost before = up@;
            let x = up.pop().unwrap();
            assert(x == before[before.len() - 1]);
            assert forall|j: int| 0 <= j < up@.len() implies (#[trigger] up@[j]).model() == p[p.len() - 1 - j] by {
                assert(up@[j] == before[j]);
            }
            r.push(x);
        }
        r
    }

    /// The parent of node `index`, or nothing for the root.
    pub fn parent(&self, index: usize) -> (r: Option<usize>)
        requires
            self.wf(),
            index < self.size(),
        ensures
            r == if index == 0 {
                None
            } else {
                Some(parent_of(self.nodes(), index as int) as usize)
            },
    {
        match &self.entries[index] {
            Some(e) => Some(e.parent_index),
            None => None,
        }
    }
}

} // verus!
