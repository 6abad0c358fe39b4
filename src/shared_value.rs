use vstd::prelude::*;

use crate::equality::{equal, equiv};
use crate::value::{boolean_of, integer_of, kind_of, Kind, Model, Value, ValueError};

verus! {

/// What a node of a store holds: its value, whether a mutable access to it
/// is outstanding, and how many handles to it are live.
pub struct NodeModel {
    pub value: Model,
    pub in_use: bool,
    pub handles: nat,
}

struct Node {
    value: Value,
    in_use: bool,
    handles: usize,
}

/// The nodes that shared values point at. Every handle to a node reads and
/// writes the same node, so a write through one handle is seen through all
/// of them; a node allows one mutable access at a time.
pub struct NodeStore {
    nodes: Vec<Node>,
}

/// A handle to a node of a `NodeStore`. Handles made by `share` point at the
/// same node. The node counts its handles: `into_value` and `give_up` lower
/// the count, and a handle dropped otherwise stays counted. A handle names
/// a node by its position, so it is only meaningful with the store that
/// made it.
#[derive(Debug)]
pub struct SharedValue {
    id: usize,
}

pub open spec fn node_model(value: Model, in_use: bool, handles: nat) -> NodeModel {
    NodeModel { value, in_use, handles }
}

/// A write to a clone leaves its source alone. Every mutating method of
/// `SharedValue` rewrites the entry of the handle's own node and no other,
/// and `deep_clone` gives the copy a node apart from the source's, so a
/// write through any handle of the copy keeps the source's node as it was.
pub proof fn lemma_clone_write_keeps_source(
    nodes: Seq<NodeModel>,
    source: int,
    clone: int,
    written: NodeModel,
)
    requires
        0 <= source < nodes.len(),
        0 <= clone < nodes.len(),
        source != clone,
    ensures
        nodes.update(clone, written)[source] == nodes[source],
{
}

impl View for NodeStore {
    type V = Seq<NodeModel>;

    closed spec fn view(&self) -> Seq<NodeModel> {
        Seq::new(
            self.nodes@.len(),
            |i: int|
                node_model(self.nodes@[i].value@, self.nodes@[i].in_use, self.nodes@[i].handles as nat),
        )
    }
}

impl NodeStore {
    /// A store without nodes.
    pub fn new() -> (r: NodeStore)
        ensures
            r@ == Seq::<NodeModel>::empty(),
    {
        let r = NodeStore { nodes: Vec::new() };
        assert(r@ =~= Seq::<NodeModel>::empty());
        r
    }

    /// Adds a node holding `value` with one handle.
    fn add(&mut self, value: Value) -> (r: SharedValue)
        ensures
            r.node() == old(self)@.len(),
            final(self)@ == old(self)@.push(node_model(value@, false, 1)),
    {
        let ghost before = self@;
        self.nodes.push(Node { value, in_use: false, handles: 1 });
        assert(self@ =~= before.push(node_model(value@, false, 1)));
        SharedValue { id: self.nodes.len() - 1 }
    }

    /// Replaces the node at `id` by one with the given parts.
    fn put(&mut self, id: usize, value: Value, in_use: bool, handles: usize)
        requires
            id < old(self)@.len(),
        ensures
            final(self)@ == old(self)@.update(id as int, node_model(value@, in_use, handles as nat)),
    {
        let ghost before = self@;
        self.nodes.set(id, Node { value, in_use, handles });
        assert(self@ =~= before.update(id as int, node_model(value@, in_use, handles as nat)));
    }

    /// Takes the value out of the node at `id`, leaving null in its place;
    /// returns it with the node's flag and handle count.
    fn take(&mut self, id: usize) -> (r: (Value, bool, usize))
        requires
            id < old(self)@.len(),
        ensures
            r.0@ == old(self)@[id as int].value,
            r.1 == old(self)@[id as int].in_use,
            r.2 == old(self)@[id as int].handles,
            final(self)@ == old(self)@.update(
                id as int,
                node_model(Model::Null, old(self)@[id as int].in_use, old(self)@[id as int].handles),
            ),
    {
        let ghost before = self@;
        let node = self.nodes.remove(id);
        self.nodes.insert(id, Node { value: Value::Null, in_use: node.in_use, handles: node.handles });
        assert(self@ =~= before.update(
            id as int,
            node_model(Model::Null, before[id as int].in_use, before[id as int].handles),
        ));
        (node.value, node.in_use, node.handles)
    }
}

impl SharedValue {
    /// The node this handle points at.
    pub closed spec fn node(&self) -> int {
        self.id as int
    }

    /// The handle's node exists in `store`.
    pub open spec fn valid(&self, store: &NodeStore) -> bool {
        0 <= self.node() < store@.len()
    }

    /// The value of the handle's node in `store`.
    pub open spec fn content(&self, store: &NodeStore) -> Model {
        store@[self.node()].value
    }

    /// Whether a mutable access to the handle's node is outstanding.
    pub open spec fn in_use(&self, store: &NodeStore) -> bool {
        store@[self.node()].in_use
    }

    /// Whether the handle's node exists in `store`.
    pub fn is_valid(&self, store: &NodeStore) -> (r: bool)
        ensures
            r == self.valid(store),
    {
        self.id < store.nodes.len()
    }

    /// A handle to a new node holding `value`.
    pub fn new(store: &mut NodeStore, value: Value) -> (r: SharedValue)
        ensures
            r.node() == old(store)@.len(),
            final(store)@ == old(store)@.push(node_model(value@, false, 1)),
    {
        store.add(value)
    }

    /// A handle to a new node holding null.
    pub fn null(store: &mut NodeStore) -> (r: SharedValue)
        ensures
            r.node() == old(store)@.len(),
            final(store)@ == old(store)@.push(node_model(Model::Null, false, 1)),
    {
        store.add(Value::Null)
    }

    /// A second handle to the same node.
    pub fn share(&self, store: &mut NodeStore) -> (r: SharedValue)
        requires
            self.valid(old(store)),
            old(store)@[self.node()].handles < usize::MAX,
        ensures
            r.node() == self.node(),
            final(store)@ == old(store)@.update(
                self.node(),
                node_model(
                    old(store)@[self.node()].value,
                    old(store)@[self.node()].in_use,
                    old(store)@[self.node()].handles + 1,
                ),
            ),
    {
        let ghost before = store@;
        let id = self.id;
        let handles = store.nodes[id].handles;
        store.nodes[id].handles = handles + 1;
        assert(store@ =~= before.update(
            id as int,
            node_model(before[id as int].value, before[id as int].in_use, before[id as int].handles + 1),
        ));
        SharedValue { id }
    }

    /// Read access to the node; refused while a mutable access is outstanding.
    pub fn borrow<'a>(&self, store: &'a NodeStore) -> (r: Result<&'a Value, ValueError>)
        requires
            self.valid(store),
        ensures
            self.in_use(store) ==> r == Err::<&Value, ValueError>(ValueError::ReentrancyViolation),
            !self.in_use(store) ==> (r matches Ok(v) && v@ == self.content(store)),
    {
        if store.nodes[self.id].in_use {
            Err(ValueError::ReentrancyViolation)
        } else {
            Ok(&store.nodes[self.id].value)
        }
    }

    /// Opens an unscoped mutable access: hands out the node's value and marks
    /// the node in use; the node holds null until `end_access` stores a value
    /// and closes the access. While it is open, a mutable access through any
    /// handle of the node fails with a reentrancy violation and changes
    /// nothing. Nothing closes it but `end_access`: a value dropped before
    /// leaves the node null and in use. `borrow_mut` is the scoped form.
    pub fn begin_access(&self, store: &mut NodeStore) -> (r: Result<Value, ValueError>)
        requires
            self.valid(old(store)),
        ensures
            self.in_use(old(store)) ==> r == Err::<Value, ValueError>(
                ValueError::ReentrancyViolation,
            ) && final(store)@ == old(store)@,
            !self.in_use(old(store)) ==> (r matches Ok(v) && v@ == self.content(old(store)))
                && final(store)@ == old(store)@.update(
                self.node(),
                node_model(Model::Null, true, old(store)@[self.node()].handles),
            ),
    {
        let id = self.id;
        if store.nodes[id].in_use {
            return Err(ValueError::ReentrancyViolation);
        }
        let (value, _, handles) = store.take(id);
        store.put(id, Value::Null, true, handles);
        Ok(value)
    }

    /// Closes the access that `begin_access` opened, storing `value` in the node.
    pub fn end_access(&self, store: &mut NodeStore, value: Value)
        requires
            self.valid(old(store)),
            self.in_use(old(store)),
        ensures
            final(store)@ == old(store)@.update(
                self.node(),
                node_model(value@, false, old(store)@[self.node()].handles),
            ),
    {
        let handles = store.nodes[self.id].handles;
        store.put(self.id, value, false, handles);
    }

    /// A mutable access scoped to the call: runs `f` on the node's value and
    /// stores what it returns, and the access ends when the call returns.
    /// Fails with a reentrancy violation, changing nothing, while another
    /// access to the node is open.
    pub fn borrow_mut<F: FnOnce(Value) -> Value>(&self, store: &mut NodeStore, f: F) -> (r: Result<
        (),
        ValueError,
    >)
        requires
            self.valid(old(store)),
            forall|v: Value| v@ == self.content(old(store)) ==> f.requires((v,)),
        ensures
            self.in_use(old(store)) ==> r == Err::<(), ValueError>(ValueError::ReentrancyViolation)
                && final(store)@ == old(store)@,
            !self.in_use(old(store)) ==> r is Ok && exists|v: Value, w: Value|
                v@ == self.content(old(store)) && f.ensures((v,), w) && final(store)@
                    == old(store)@.update(
                    self.node(),
                    node_model(w@, false, old(store)@[self.node()].handles),
                ),
    {
        match self.begin_access(store) {
            Err(e) => Err(e),
            Ok(v) => {
                let ghost input = v;
                let w = f(v);
                self.end_access(store, w);
                assert(input@ == self.content(old(store)) && f.ensures((input,), w));
                Ok(())
            },
        }
    }

    /// Stores `value` in the node and returns what it held, as one mutable
    /// access would; every handle of the node sees the new value.
    pub fn replace(&self, store: &mut NodeStore, value: Value) -> (r: Result<Value, ValueError>)
        requires
            self.valid(old(store)),
        ensures
            self.in_use(old(store)) ==> r == Err::<Value, ValueError>(
                ValueError::ReentrancyViolation,
            ) && final(store)@ == old(store)@,
            !self.in_use(old(store)) ==> (r matches Ok(v) && v@ == self.content(old(store)))
                && final(store)@ == old(store)@.update(
                self.node(),
                node_model(value@, false, old(store)@[self.node()].handles),
            ),
    {
        let previous = self.begin_access(store);
        match previous {
            Ok(v) => {
                self.end_access(store, value);
                Ok(v)
            },
            Err(e) => Err(e),
        }
    }

    /// Exchanges the values of two nodes; each handle keeps its node. Two
    /// handles of one node would need two mutable accesses to it at once,
    /// which is a reentrancy violation.
    pub fn swap(&self, other: &SharedValue, store: &mut NodeStore) -> (r: Result<(), ValueError>)
        requires
            self.valid(old(store)),
            other.valid(old(store)),
        ensures
            (self.in_use(old(store)) || other.in_use(old(store)) || self.node() == other.node())
                ==> r == Err::<(), ValueError>(ValueError::ReentrancyViolation) && final(store)@
                == old(store)@,
            !(self.in_use(old(store)) || other.in_use(old(store)) || self.node() == other.node())
                ==> r == Ok::<(), ValueError>(
                (),
            ) && final(store)@ == old(store)@.update(
                self.node(),
                node_model(other.content(old(store)), false, old(store)@[self.node()].handles),
            ).update(
                other.node(),
                node_model(self.content(old(store)), false, old(store)@[other.node()].handles),
            ),
    {
        if store.nodes[self.id].in_use || store.nodes[other.id].in_use {
            return Err(ValueError::ReentrancyViolation);
        }
        if self.id == other.id {
            return Err(ValueError::ReentrancyViolation);
        }
        let (mine, _, my_handles) = store.take(self.id);
        let (theirs, _, their_handles) = store.take(other.id);
        store.put(self.id, theirs, false, my_handles);
        store.put(other.id, mine, false, their_handles);
        proof {
            assert(store@ =~= old(store)@.update(
                self.node(),
                node_model(other.content(old(store)), false, old(store)@[self.node()].handles),
            ).update(
                other.node(),
                node_model(self.content(old(store)), false, old(store)@[other.node()].handles),
            ));
        }
        Ok(())
    }

    /// How many handles of the node are counted.
    pub fn handle_count(&self, store: &NodeStore) -> (r: usize)
        requires
            self.valid(store),
        ensures
            r == store@[self.node()].handles,
    {
        store.nodes[self.id].handles
    }

    /// Gives this handle up, lowering its node's handle count.
    pub fn give_up(self, store: &mut NodeStore)
        requires
            self.valid(old(store)),
            old(store)@[self.node()].handles >= 1,
        ensures
            final(store)@ == old(store)@.update(
                self.node(),
                node_model(
                    old(store)@[self.node()].value,
                    old(store)@[self.node()].in_use,
                    (old(store)@[self.node()].handles - 1) as nat,
                ),
            ),
    {
        let ghost before = store@;
        let id = self.id;
        let handles = store.nodes[id].handles;
        store.nodes[id].handles = handles - 1;
        assert(store@ =~= before.update(
            id as int,
            node_model(before[id as int].value, before[id as int].in_use, (handles - 1) as nat),
        ));
    }

    /// Whether a mutable access to the node is outstanding.
    pub fn is_borrowed(&self, store: &NodeStore) -> (r: bool)
        requires
            self.valid(store),
        ensures
            r == self.in_use(store),
    {
        store.nodes[self.id].in_use
    }

    /// A handle to a new node holding a fully independent copy of the tree.
    pub fn deep_clone(&self, store: &mut NodeStore) -> (r: SharedValue)
        requires
            self.valid(old(store)),
            !self.in_use(old(store)),
        ensures
            r.node() == old(store)@.len(),
            r.node() != self.node(),
            final(store)@ == old(store)@.push(node_model(self.content(old(store)), false, 1)),
    {
        let copy = store.nodes[self.id].value.deep_clone();
        store.add(copy)
    }

    /// Gives this handle up and returns the node's value: moved out of the
    /// node when this is its last handle, copied otherwise.
    pub fn into_value(self, store: &mut NodeStore) -> (r: Value)
        requires
            self.valid(old(store)),
            !self.in_use(old(store)),
            old(store)@[self.node()].handles >= 1,
        ensures
            r@ == self.content(old(store)),
            old(store)@[self.node()].handles == 1 ==> final(store)@ == old(store)@.update(
                self.node(),
                node_model(Model::Null, false, 0),
            ),
            old(store)@[self.node()].handles > 1 ==> final(store)@ == old(store)@.update(
                self.node(),
                node_model(self.content(old(store)), false, (old(store)@[self.node()].handles - 1) as nat),
            ),
    {
        let id = self.id;
        let handles = store.nodes[id].handles;
        if handles == 1 {
            let (value, _, _) = store.take(id);
            store.put(id, Value::Null, false, 0);
            value
        } else {
            let value = store.nodes[id].value.deep_clone();
            let ghost before = store@;
            store.nodes[id].handles = handles - 1;
            assert(store@ =~= before.update(
                id as int,
                node_model(before[id as int].value, false, (handles - 1) as nat),
            ));
            value
        }
    }

    /// Whether the values of two nodes are structurally equal.
    pub fn equals(&self, other: &SharedValue, store: &NodeStore) -> (r: bool)
        requires
            self.valid(store),
            other.valid(store),
            !self.in_use(store),
            !other.in_use(store),
        ensures
            r == equiv(self.content(store), other.content(store)),
    {
        equal(&store.nodes[self.id].value, &store.nodes[other.id].value)
    }

    pub fn try_integer(&self, store: &NodeStore) -> (r: Result<i64, ValueError>)
        requires
            self.valid(store),
            !self.in_use(store),
        ensures
            r == integer_of(self.content(store)),
    {
        store.nodes[self.id].value.try_integer()
    }

    pub fn try_boolean(&self, store: &NodeStore) -> (r: Result<bool, ValueError>)
        requires
            self.valid(store),
            !self.in_use(store),
        ensures
            r == boolean_of(self.content(store)),
    {
        store.nodes[self.id].value.try_boolean()
    }

    pub fn is_object(&self, store: &NodeStore) -> (r: bool)
        requires
            self.valid(store),
            !self.in_use(store),
        ensures
            r == (kind_of(self.content(store)) == Kind::Object),
    {
        store.nodes[self.id].value.is_object()
    }

    pub fn is_timestamp(&self, store: &NodeStore) -> (r: bool)
        requires
            self.valid(store),
            !self.in_use(store),
        ensures
            r == (kind_of(self.content(store)) == Kind::Timestamp),
    {
        store.nodes[self.id].value.is_timestamp()
    }

    pub fn is_boolean(&self, store: &NodeStore) -> (r: bool)
        requires
            self.valid(store),
            !self.in_use(store),
        ensures
            r == (kind_of(self.content(store)) == Kind::Boolean),
    {
        store.nodes[self.id].value.is_boolean()
    }

    pub fn is_bytes(&self, store: &NodeStore) -> (r: bool)
        requires
            self.valid(store),
            !self.in_use(store),
        ensures
            r == (kind_of(self.content(store)) == Kind::Bytes),
    {
        store.nodes[self.id].value.is_bytes()
    }

    pub fn is_float(&self, store: &NodeStore) -> (r: bool)
        requires
            self.valid(store),
            !self.in_use(store),
        ensures
            r == (kind_of(self.content(store)) == Kind::Float),
    {
        store.nodes[self.id].value.is_float()
    }

    pub fn is_integer(&self, store: &NodeStore) -> (r: bool)
        requires
            self.valid(store),
            !self.in_use(store),
        ensures
            r == (kind_of(self.content(store)) == Kind::Integer),
    {
        store.nodes[self.id].value.is_integer()
    }

    pub fn is_null(&self, store: &NodeStore) -> (r: bool)
        requires
            self.valid(store),
            !self.in_use(store),
        ensures
            r == (kind_of(self.content(store)) == Kind::Null),
    {
        store.nodes[self.id].value.is_null()
    }

    pub fn is_regex(&self, store: &NodeStore) -> (r: bool)
        requires
            self.valid(store),
            !self.in_use(store),
        ensures
            r == (kind_of(self.content(store)) == Kind::Regex),
    {
        store.nodes[self.id].value.is_regex()
    }

    pub fn is_array(&self, store: &NodeStore) -> (r: bool)
        requires
            self.valid(store),
            !self.in_use(store),
        ensures
            r == (kind_of(self.content(store)) == Kind::Array),
    {
        store.nodes[self.id].value.is_array()
    }
}

} // verus!
