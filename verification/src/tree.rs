//! Arena-backed tree: nodes live in one vector and refer to each other by
//! handle, so parent back-references never own anything.

use vstd::prelude::*;
use vstd::std_specs::cmp::PartialEqSpecImpl;
use vstd::string::StringExecFns;

verus! {

/// Handle of a node: its position in the arena.
pub type NodeRef = usize;

/// One node of the tree. Two nodes are equal if they carry the same
/// identifier.
#[derive(Clone)]
pub struct Node<T> {
    pub unique_id: usize,
    pub name: String,
    pub value: T,
    pub children: Vec<NodeRef>,
    pub parent: Option<NodeRef>,
}

/// Mathematical model of a [`Node`].
pub struct NodeView<T> {
    pub id: usize,
    pub name: Seq<char>,
    pub value: T,
    pub children: Seq<NodeRef>,
    pub parent: Option<NodeRef>,
}

impl<T> View for Node<T> {
    type V = NodeView<T>;

    open spec fn view(&self) -> NodeView<T> {
        NodeView {
            id: self.unique_id,
            name: self.name@,
            value: self.value,
            children: self.children@,
            parent: self.parent,
        }
    }
}

impl<T> PartialEq for Node<T> {
    fn eq(&self, other: &Self) -> (r: bool) {
        self.unique_id == other.unique_id
    }
}

impl<T> PartialEqSpecImpl for Node<T> {
    open spec fn obeys_eq_spec() -> bool {
        true
    }

    open spec fn eq_spec(&self, other: &Self) -> bool {
        self.unique_id == other.unique_id
    }
}

/// Why a navigation or insertion step was refused. The payload is the
/// human-readable detail.
#[derive(Debug)]
pub enum NodeError {
    Add(String),
    NotFound(String),
}

/// Owner of every node and of the identifier counter. The counter holds
/// the number of identifiers handed out so far, which is the identifier that
/// is handed out next.
pub struct Arena<T> {
    nodes: Vec<Node<T>>,
    next_id: usize,
}

impl<T> View for Arena<T> {
    type V = Seq<NodeView<T>>;

    closed spec fn view(&self) -> Seq<NodeView<T>> {
        Seq::new(self.nodes@.len(), |i: int| self.nodes@[i]@)
    }
}

/// The `k`-th child of node `i`.
pub open spec fn child_at<T>(s: Seq<NodeView<T>>, i: int, k: int) -> NodeRef {
    s[i].children[k]
}

/// The identifier of the node at position `i`.
pub open spec fn id_at<T>(s: Seq<NodeView<T>>, i: int) -> usize {
    s[i].id
}

/// Whether every identifier in the arena is below `bound`.
pub open spec fn ids_below<T>(s: Seq<NodeView<T>>, bound: nat) -> bool {
    forall|i: int| 0 <= i < s.len() ==> #[trigger] id_at(s, i) < bound
}

/// The structural invariant of an arena.
///
/// * nodes stand in the order of their creation and identifiers grow in
///   that order, so no two nodes share one;
/// * every child was created after its parent and points back to it;
/// * every node with a parent is listed among that parent's children;
/// * a children list is strictly increasing (so it holds each child once, in
///   insertion order) and no two siblings share a name.
pub open spec fn well_formed<T>(s: Seq<NodeView<T>>) -> bool {
    &&& forall|i: int, j: int| 0 <= i < j < s.len() ==> #[trigger] id_at(s, i) < #[trigger] id_at(s, j)
    &&& forall|i: int, k: int|
        0 <= i < s.len() && 0 <= k < s[i].children.len() ==> {
            let c = #[trigger] child_at(s, i, k);
            i < c < s.len() && s[c as int].parent == Some(i as usize)
        }
    &&& forall|i: int|
        0 <= i < s.len() ==> match (#[trigger] s[i]).parent {
            Some(p) => p < i && s[p as int].children.contains(i as usize),
            None => true,
        }
    &&& forall|i: int, j: int, k: int|
        0 <= i < s.len() && 0 <= j < k < s[i].children.len() ==> {
            let a = #[trigger] child_at(s, i, j);
            let b = #[trigger] child_at(s, i, k);
            a < b && s[a as int].name != s[b as int].name
        }
}

/// Two arenas that differ at most in the payloads of their nodes.
pub open spec fn same_shape<T>(a: Seq<NodeView<T>>, b: Seq<NodeView<T>>) -> bool {
    &&& a.len() == b.len()
    &&& forall|i: int|
        0 <= i < a.len() ==> {
            &&& (#[trigger] a[i]).id == b[i].id
            &&& a[i].name == b[i].name
            &&& a[i].children == b[i].children
            &&& a[i].parent == b[i].parent
        }
}

/// Searches `kids[k..]` for the first node called `name`.
pub open spec fn find_from<T>(s: Seq<NodeView<T>>, kids: Seq<NodeRef>, name: Seq<char>, k: int) -> Option<NodeRef>
    decreases kids.len() - k,
{
    if k < 0 || k >= kids.len() {
        None
    } else if s[kids[k] as int].name == name {
        Some(kids[k])
    } else {
        find_from(s, kids, name, k + 1)
    }
}

/// The child of `parent` called `name`: the first match in insertion order.
pub open spec fn child_named<T>(s: Seq<NodeView<T>>, parent: NodeRef, name: Seq<char>) -> Option<NodeRef> {
    find_from(s, s[parent as int].children, name, 0)
}

/// `node` with its payload replaced.
pub open spec fn with_value<T>(node: NodeView<T>, value: T) -> NodeView<T> {
    NodeView { id: node.id, name: node.name, value, children: node.children, parent: node.parent }
}

/// `node` with one more child at the end of its list.
pub open spec fn with_child<T>(node: NodeView<T>, child: NodeRef) -> NodeView<T> {
    NodeView {
        id: node.id,
        name: node.name,
        value: node.value,
        children: node.children.push(child),
        parent: node.parent,
    }
}

/// A node that has just been created.
pub open spec fn fresh_node<T>(id: usize, name: Seq<char>, value: T, parent: Option<NodeRef>) -> NodeView<T> {
    NodeView { id, name, value, children: Seq::empty(), parent }
}

/// The arena after a child called `name` has been attached below `parent`
/// under the identifier `id`.
pub open spec fn with_new_child<T>(
    s: Seq<NodeView<T>>,
    parent: NodeRef,
    name: Seq<char>,
    value: T,
    id: usize,
) -> Seq<NodeView<T>> {
    s.update(parent as int, with_child(s[parent as int], s.len() as usize)).push(
        fresh_node(id, name, value, Some(parent)),
    )
}

/// Detail carried by [`NodeError::Add`].
pub open spec fn duplicate_detail(name: Seq<char>, parent_name: Seq<char>) -> Seq<char> {
    "'"@ + name + "' already exists under node '"@ + parent_name + "'"@
}

/// Detail carried by [`NodeError::NotFound`].
pub open spec fn missing_detail(name: Seq<char>) -> Seq<char> {
    "'"@ + name + "' not found"@
}

impl NodeError {
    /// The detail the error carries.
    pub open spec fn detail(&self) -> Seq<char> {
        match self {
            NodeError::Add(msg) => msg@,
            NodeError::NotFound(msg) => msg@,
        }
    }

    /// The full message, as it is shown to a user.
    pub fn to_text(&self) -> (text: String)
        ensures
            self is Add ==> text@ == "Could not add node: "@ + self.detail(),
            self is NotFound ==> text@ == "Node not found: "@ + self.detail(),
    {
        match self {
            NodeError::Add(msg) => String::from_str("Could not add node: ").concat(msg.as_str()),
            NodeError::NotFound(msg) => String::from_str("Node not found: ").concat(msg.as_str()),
        }
    }
}

impl<T> Arena<T> {
    /// Number of identifiers handed out so far. Identifiers are handed out
    /// in rising order from zero on, so this is also the next one.
    pub closed spec fn issued(&self) -> nat {
        self.next_id as nat
    }

    /// An arena without nodes, which has handed out no identifier yet.
    pub fn new() -> (arena: Arena<T>)
        ensures
            arena@.len() == 0,
            arena.issued() == 0,
            arena.wf(),
    {
        Arena { nodes: Vec::new(), next_id: 0 }
    }

    /// The invariant of an arena: its nodes are [`well_formed`] and carry
    /// identifiers that it has handed out.
    pub open spec fn wf(&self) -> bool {
        well_formed(self@) && ids_below(self@, self.issued())
    }

    /// Whether `node` is a handle of this arena.
    pub open spec fn contains(&self, node: NodeRef) -> bool {
        node < self@.len()
    }

    /// Number of nodes stored so far.
    pub fn len(&self) -> (n: usize)
        ensures
            n == self@.len(),
    {
        self.nodes.len()
    }

    /// Number of identifiers handed out so far.
    pub fn issued_ids(&self) -> (n: usize)
        ensures
            n == self.issued(),
    {
        self.next_id
    }

    /// Read access to one node.
    pub fn node(&self, node: NodeRef) -> (found: &Node<T>)
        requires
            self.contains(node),
        ensures
            found@ == self@[node as int],
    {
        &self.nodes[node]
    }

    /// Hands out an identifier that has not been handed out before: it is
    /// larger than every earlier one, and every later one is larger still.
    /// The nodes stay as they are.
    fn get_unique_number(&mut self) -> (id: usize)
        requires
            old(self).issued() < usize::MAX,
        ensures
            id == old(self).issued(),
            final(self).issued() == old(self).issued() + 1,
            final(self)@ == old(self)@,
    {
        let id = self.next_id;
        self.next_id = id + 1;
        id
    }
}

/// What a search through a children list found, spelled out.
pub proof fn lemma_find_from<T>(s: Seq<NodeView<T>>, kids: Seq<NodeRef>, name: Seq<char>, k: int)
    requires
        0 <= k <= kids.len(),
    ensures
        match find_from(s, kids, name, k) {
            Some(c) => exists|j: int|
                k <= j < kids.len() && kids[j] == c && s[c as int].name == name && forall|i: int|
                    k <= i < j ==> s[#[trigger] kids[i] as int].name != name,
            None => forall|j: int| k <= j < kids.len() ==> s[#[trigger] kids[j] as int].name != name,
        },
    decreases kids.len() - k,
{
    if k < kids.len() && s[kids[k] as int].name != name {
        lemma_find_from(s, kids, name, k + 1);
        match find_from(s, kids, name, k + 1) {
            Some(c) => {
                let j = choose|j: int|
                    k + 1 <= j < kids.len() && kids[j] == c && s[c as int].name == name && forall|i: int|
                        k + 1 <= i < j ==> s[#[trigger] kids[i] as int].name != name;
                assert(forall|i: int| k <= i < j ==> s[#[trigger] kids[i] as int].name != name);
            },
            None => {},
        }
    }
}

/// Attaching a child under a name that no sibling has keeps the arena
/// well formed.
pub proof fn lemma_with_new_child_wf<T>(s: Seq<NodeView<T>>, parent: NodeRef, name: Seq<char>, value: T, id: usize)
    requires
        well_formed(s),
        parent < s.len() < usize::MAX,
        child_named(s, parent, name) is None,
        ids_below(s, id as nat),
    ensures
        well_formed(with_new_child(s, parent, name, value, id)),
        ids_below(with_new_child(s, parent, name, value, id), (id + 1) as nat),
{
    let t = with_new_child(s, parent, name, value, id);
    let fresh = s.len() as usize;
    assert forall|i: int| 0 <= i < t.len() implies #[trigger] id_at(t, i) < id + 1 by {
        if i < s.len() {
            assert(id_at(s, i) < id);
        }
    }
    assert forall|i: int, j: int| 0 <= i < j < t.len() implies #[trigger] id_at(t, i) < #[trigger] id_at(t, j) by {
        assert(id_at(s, i) < id);
        if j < s.len() {
            assert(id_at(s, i) < id_at(s, j));
        }
    }
    lemma_find_from(s, s[parent as int].children, name, 0);
    assert(forall|i: int| 0 <= i < s.len() && i != parent ==> t[i] == s[i]);
    assert(t[parent as int] == with_child(s[parent as int], fresh));
    assert(t[fresh as int] == fresh_node(id, name, value, Some(parent)));
    assert forall|i: int, k: int| 0 <= i < t.len() && 0 <= k < t[i].children.len() implies {
        let c = #[trigger] child_at(t, i, k);
        i < c < t.len() && t[c as int].parent == Some(i as usize)
    } by {
        if i == parent && k == s[i].children.len() {
        } else {
            assert(child_at(t, i, k) == child_at(s, i, k));
        }
    }
    assert forall|i: int| 0 <= i < t.len() implies match (#[trigger] t[i]).parent {
        Some(p) => p < i && t[p as int].children.contains(i as usize),
        None => true,
    } by {
        if i == fresh {
            assert(t[parent as int].children[s[parent as int].children.len() as int] == fresh);
        } else {
            match s[i].parent {
                Some(p) => {
                    let k = choose|k: int| 0 <= k < s[p as int].children.len() && s[p as int].children[k] == i as usize;
                    assert(t[p as int].children[k] == i as usize);
                },
                None => {},
            }
        }
    }
    assert forall|i: int, j: int, k: int| 0 <= i < t.len() && 0 <= j < k < t[i].children.len() implies {
        let a = #[trigger] child_at(t, i, j);
        let b = #[trigger] child_at(t, i, k);
        a < b && t[a as int].name != t[b as int].name
    } by {
        if i == parent && k == s[i].children.len() {
            assert(child_at(t, i, j) == child_at(s, i, j));
            assert(s[#[trigger] s[i].children[j] as int].name != name);
        } else {
            assert(child_at(t, i, j) == child_at(s, i, j));
            assert(child_at(t, i, k) == child_at(s, i, k));
        }
    }
}

/// Changing payloads only keeps the arena well formed.
pub proof fn lemma_same_shape_wf<T>(a: Seq<NodeView<T>>, b: Seq<NodeView<T>>)
    requires
        well_formed(a),
        same_shape(a, b),
    ensures
        well_formed(b),
{
    assert forall|i: int, j: int| 0 <= i < j < b.len() implies #[trigger] id_at(b, i) < #[trigger] id_at(b, j) by {
        assert(id_at(a, i) < id_at(a, j));
        assert(a[i].id == b[i].id && a[j].id == b[j].id);
    }
    assert forall|i: int| 0 <= i < b.len() implies match (#[trigger] b[i]).parent {
        Some(p) => p < i && b[p as int].children.contains(i as usize),
        None => true,
    } by {
        assert(a[i].parent == b[i].parent);
        match a[i].parent {
            Some(p) => {
                assert(a[p as int].children == b[p as int].children);
            },
            None => {},
        }
    }
    assert forall|i: int, k: int| 0 <= i < b.len() && 0 <= k < b[i].children.len() implies {
        let c = #[trigger] child_at(b, i, k);
        i < c < b.len() && b[c as int].parent == Some(i as usize)
    } by {
        assert(child_at(b, i, k) == child_at(a, i, k));
    }
    assert forall|i: int, j: int, k: int| 0 <= i < b.len() && 0 <= j < k < b[i].children.len() implies {
        let x = #[trigger] child_at(b, i, j);
        let y = #[trigger] child_at(b, i, k);
        x < y && b[x as int].name != b[y as int].name
    } by {
        assert(child_at(b, i, j) == child_at(a, i, j));
        assert(child_at(b, i, k) == child_at(a, i, k));
    }
}

impl<T> Node<T> {
    /// A node that is not yet stored anywhere, under an identifier that the
    /// arena hands out for it: no node made before has it, and every node
    /// made later gets a larger one.
    pub fn new(arena: &mut Arena<T>, name: String, value: T, parent: Option<NodeRef>) -> (node: Node<T>)
        requires
            old(arena).issued() < usize::MAX,
        ensures
            node@ == fresh_node(old(arena).issued() as usize, name@, value, parent),
            final(arena).issued() == old(arena).issued() + 1,
            final(arena)@ == old(arena)@,
    {
        let unique_id = arena.get_unique_number();
        Node { unique_id, name, value, children: Vec::new(), parent }
    }

    /// Whether every child handle of this node belongs to `arena`.
    pub open spec fn children_in(&self, arena: &Arena<T>) -> bool {
        forall|k: int| 0 <= k < self.children@.len() ==> (#[trigger] self.children@[k]) < arena@.len()
    }

    /// Attaches a new child called `name` below `parent`, unless `parent`
    /// already has a child of that name; then nothing changes and no
    /// identifier is used up.
    pub fn add(arena: &mut Arena<T>, parent: NodeRef, name: &str, value: T) -> (r: Result<NodeRef, NodeError>)
        requires
            old(arena).wf(),
            old(arena).contains(parent),
            old(arena).issued() < usize::MAX,
        ensures
            final(arena).wf(),
            match r {
                Ok(child) => {
                    &&& child_named(old(arena)@, parent, name@) is None
                    &&& child == old(arena)@.len()
                    &&& final(arena)@ == with_new_child(
                        old(arena)@,
                        parent,
                        name@,
                        value,
                        old(arena).issued() as usize,
                    )
                    &&& final(arena).issued() == old(arena).issued() + 1
                },
                Err(e) => {
                    &&& child_named(old(arena)@, parent, name@) is Some
                    &&& final(arena)@ == old(arena)@
                    &&& final(arena).issued() == old(arena).issued()
                    &&& e is Add
                    &&& e.detail() == duplicate_detail(name@, old(arena)@[parent as int].name)
                },
            },
    {
        assert(arena.nodes@[parent as int]@ == arena@[parent as int]);
        assert(arena.nodes[parent as int].children_in(arena)) by {
            assert forall|k: int| 0 <= k < arena.nodes[parent as int].children@.len() implies (
            #[trigger] arena.nodes[parent as int].children@[k]) < arena@.len() by {
                assert(child_at(arena@, parent as int, k) < arena@.len());
            }
        }
        if arena.nodes[parent].get_child(arena, name).is_some() {
            let mut msg = String::from_str("'");
            msg.append(name);
            msg.append("' already exists under node '");
            msg.append(arena.nodes[parent].name.as_str());
            msg.append("'");
            Err(NodeError::Add(msg))
        } else {
            let child = Node::new(arena, String::from_str(name), value, Some(parent));
            let handle = arena.nodes.len();
            arena.nodes.push(child);
            arena.nodes[parent].children.push(handle);
            proof {
                let id = old(arena).issued() as usize;
                assert(arena.nodes.len() == handle + 1);
                lemma_with_new_child_wf(old(arena)@, parent, name@, value, id);
                assert(arena@ =~= with_new_child(old(arena)@, parent, name@, value, id));
            }
            Ok(handle)
        }
    }

    /// The child called `child_name`, if there is one.
    pub fn get_child(&self, arena: &Arena<T>, child_name: &str) -> (r: Option<NodeRef>)
        requires
            self.children_in(arena),
        ensures
            r == find_from(arena@, self.children@, child_name@, 0),
    {
        let key = String::from_str(child_name);
        let mut k: usize = 0;
        while k < self.children.len()
            invariant
                k <= self.children@.len(),
                key@ == child_name@,
                self.children_in(arena),
                find_from(arena@, self.children@, child_name@, 0) == find_from(
                    arena@,
                    self.children@,
                    child_name@,
                    k as int,
                ),
            decreases self.children@.len() - k,
        {
            let c = self.children[k];
            assert(arena.nodes@[c as int]@ == arena@[c as int]);
            if arena.nodes[c].name == key {
                return Some(c);
            }
            k += 1;
        }
        None
    }

    /// Like [`Node::get_child`], but a missing child is an error.
    pub fn down(&self, arena: &Arena<T>, name: &str) -> (r: Result<NodeRef, NodeError>)
        requires
            self.children_in(arena),
        ensures
            match r {
                Ok(child) => find_from(arena@, self.children@, name@, 0) == Some(child),
                Err(e) => {
                    &&& find_from(arena@, self.children@, name@, 0) is None
                    &&& e is NotFound
                    &&& e.detail() == missing_detail(name@)
                },
            },
    {
        match self.get_child(arena, name) {
            Some(child) => Ok(child),
            None => {
                let mut msg = String::from_str("'");
                msg.append(name);
                msg.append("' not found");
                Err(NodeError::NotFound(msg))
            },
        }
    }

    /// The parent, or `None` for a root.
    pub fn up(&self) -> (r: Option<NodeRef>)
        ensures
            r == self@.parent,
    {
        match &self.parent {
            Some(p) => Some(*p),
            None => None,
        }
    }
}

/// Creates a root: a node without parent, under a fresh identifier.
pub fn new_node_ref<T>(arena: &mut Arena<T>, name: &str, value: T) -> (node: NodeRef)
    requires
        old(arena).wf(),
        old(arena).issued() < usize::MAX,
    ensures
        final(arena).wf(),
        node == old(arena)@.len(),
        final(arena)@ == old(arena)@.push(fresh_node(old(arena).issued() as usize, name@, value, None)),
        final(arena).issued() == old(arena).issued() + 1,
{
    let root = Node::new(arena, String::from_str(name), value, None);
    let handle = arena.nodes.len();
    arena.nodes.push(root);
    proof {
        let id = old(arena).issued() as usize;
        let s = old(arena)@;
        let t = s.push(fresh_node(id, name@, value, None));
        assert(arena@ =~= t);
        assert forall|i: int| 0 <= i < t.len() implies #[trigger] id_at(t, i) < id + 1 by {
            if i < s.len() {
                assert(id_at(s, i) < id);
            }
        }
        assert forall|i: int, j: int| 0 <= i < j < t.len() implies #[trigger] id_at(t, i) < #[trigger] id_at(t, j) by {
            assert(id_at(s, i) < id);
            if j < s.len() {
                assert(id_at(s, i) < id_at(s, j));
            }
        }
        assert forall|i: int, k: int| 0 <= i < t.len() && 0 <= k < t[i].children.len() implies {
            let c = #[trigger] child_at(t, i, k);
            i < c < t.len() && t[c as int].parent == Some(i as usize)
        } by {
            assert(child_at(t, i, k) == child_at(s, i, k));
        }
        assert forall|i: int, j: int, k: int| 0 <= i < t.len() && 0 <= j < k < t[i].children.len() implies {
            let a = #[trigger] child_at(t, i, j);
            let b = #[trigger] child_at(t, i, k);
            a < b && t[a as int].name != t[b as int].name
        } by {
            assert(child_at(t, i, j) == child_at(s, i, j));
            assert(child_at(t, i, k) == child_at(s, i, k));
        }
        assert forall|i: int| 0 <= i < t.len() implies match (#[trigger] t[i]).parent {
            Some(p) => p < i && t[p as int].children.contains(i as usize),
            None => true,
        } by {
            if i < s.len() {
                assert(t[i] == s[i]);
            }
        }
    }
    handle
}

/// Attaches a child below `current`, as [`Node::add`] does, and hands on
/// what it answers: the new child, or the error that says that the name is
/// taken, with the arena as it was.
pub fn add_node_below<T>(arena: &mut Arena<T>, current: NodeRef, name: &str, value: T) -> (r: Result<
    NodeRef,
    NodeError,
>)
    requires
        old(arena).wf(),
        old(arena).contains(current),
        old(arena).issued() < usize::MAX,
    ensures
        final(arena).wf(),
        match r {
            Ok(child) => {
                &&& child_named(old(arena)@, current, name@) is None
                &&& child == old(arena)@.len()
                &&& final(arena)@ == with_new_child(
                    old(arena)@,
                    current,
                    name@,
                    value,
                    old(arena).issued() as usize,
                )
                &&& final(arena).issued() == old(arena).issued() + 1
            },
            Err(e) => {
                &&& child_named(old(arena)@, current, name@) is Some
                &&& final(arena)@ == old(arena)@
                &&& final(arena).issued() == old(arena).issued()
                &&& e is Add
                &&& e.detail() == duplicate_detail(name@, old(arena)@[current as int].name)
            },
        },
{
    Node::add(arena, current, name, value)
}

/// Moves to the parent; `None` says that `current` is a root.
pub fn go_up<T>(arena: &Arena<T>, current: NodeRef) -> (r: Option<NodeRef>)
    requires
        arena.contains(current),
    ensures
        r == arena@[current as int].parent,
{
    arena.nodes[current].up()
}

/// Moves to the child called `dir`.
pub fn go_down<T>(arena: &Arena<T>, current: NodeRef, dir: &str) -> (r: Result<NodeRef, NodeError>)
    requires
        arena.wf(),
        arena.contains(current),
    ensures
        match r {
            Ok(child) => child_named(arena@, current, dir@) == Some(child),
            Err(e) => {
                &&& child_named(arena@, current, dir@) is None
                &&& e is NotFound
                &&& e.detail() == missing_detail(dir@)
            },
        },
{
    assert(arena.nodes@[current as int]@ == arena@[current as int]);
    assert(arena.nodes[current as int].children_in(arena)) by {
        assert forall|k: int| 0 <= k < arena.nodes[current as int].children@.len() implies (
        #[trigger] arena.nodes[current as int].children@[k]) < arena@.len() by {
            assert(child_at(arena@, current as int, k) < arena@.len());
        }
    }
    arena.nodes[current].down(arena, dir)
}

/// Overwrites the payload of `node`; nothing else changes.
pub fn set_value<T>(arena: &mut Arena<T>, node: NodeRef, value: T)
    requires
        old(arena).contains(node),
    ensures
        final(arena)@ == old(arena)@.update(node as int, with_value(old(arena)@[node as int], value)),
        final(arena).issued() == old(arena).issued(),
        same_shape(old(arena)@, final(arena)@),
        old(arena).wf() ==> final(arena).wf(),
{
    arena.nodes[node].value = value;
    proof {
        assert(arena@ =~= old(arena)@.update(node as int, with_value(old(arena)@[node as int], value)));
        if old(arena).wf() {
            lemma_same_shape_wf(old(arena)@, arena@);
            lemma_same_shape_ids(old(arena)@, arena@, arena.issued());
        }
    }
}

/// A copy of the payload of `node`.
pub fn get_value<T: Clone>(arena: &Arena<T>, node: NodeRef) -> (value: T)
    requires
        arena.contains(node),
    ensures
        cloned(arena@[node as int].value, value),
{
    arena.nodes[node].value.clone()
}


/// Number of ancestors of `node`.
pub open spec fn depth_of<T>(s: Seq<NodeView<T>>, node: NodeRef) -> nat
    decreases node,
{
    if node >= s.len() {
        0
    } else {
        match s[node as int].parent {
            Some(p) => if p < node {
                1 + depth_of(s, p)
            } else {
                0
            },
            None => 0,
        }
    }
}

proof fn lemma_depth_bound<T>(s: Seq<NodeView<T>>, node: NodeRef)
    ensures
        depth_of(s, node) <= node,
    decreases node,
{
    if node < s.len() {
        match s[node as int].parent {
            Some(p) => {
                if p < node {
                    lemma_depth_bound(s, p);
                }
            },
            None => {},
        }
    }
}

/// How far `node` is below the root of its tree; a listing indents by it.
pub fn depth<T>(arena: &Arena<T>, node: NodeRef) -> (d: usize)
    requires
        arena.wf(),
        arena.contains(node),
    ensures
        d == depth_of(arena@, node),
{
    let mut cur = node;
    let mut d: usize = 0;
    let mut next = arena.nodes[cur].parent;
    proof {
        lemma_depth_bound(arena@, node);
    }
    while next.is_some()
        invariant
            arena.wf(),
            cur < arena@.len(),
            next == arena@[cur as int].parent,
            d + depth_of(arena@, cur) == depth_of(arena@, node),
            depth_of(arena@, node) <= node,
        decreases cur,
    {
        let p = next.unwrap();
        d += 1;
        cur = p;
        next = arena.nodes[cur].parent;
    }
    d
}

/// Changing payloads only keeps the identifiers below the same bound.
pub proof fn lemma_same_shape_ids<T>(a: Seq<NodeView<T>>, b: Seq<NodeView<T>>, bound: nat)
    requires
        ids_below(a, bound),
        same_shape(a, b),
    ensures
        ids_below(b, bound),
{
    assert forall|i: int| 0 <= i < b.len() implies #[trigger] id_at(b, i) < bound by {
        assert(id_at(a, i) < bound);
        assert(a[i].id == b[i].id);
    }
}

/// The identifier that an arena hands out next is larger than that of
/// every node it holds.
pub proof fn lemma_next_identifier_is_new<T>(arena: Arena<T>, node: NodeRef)
    requires
        arena.wf(),
        arena.contains(node),
    ensures
        arena@[node as int].id < arena.issued(),
{
    assert(id_at(arena@, node as int) < arena.issued());
}

/// No two nodes of an arena share an identifier, and a node created later
/// has the larger one.
pub proof fn lemma_identifiers_unique<T>(s: Seq<NodeView<T>>, a: NodeRef, b: NodeRef)
    requires
        well_formed(s),
        a < s.len(),
        b < s.len(),
        a != b,
    ensures
        s[a as int].id != s[b as int].id,
        a < b ==> s[a as int].id < s[b as int].id,
{
    if a < b {
        assert(id_at(s, a as int) < id_at(s, b as int));
    } else {
        assert(id_at(s, b as int) < id_at(s, a as int));
    }
}

/// Going down to a child, up again and down once more under the same name
/// ends at the same child.
pub proof fn lemma_down_up_down<T>(s: Seq<NodeView<T>>, root: NodeRef, name: Seq<char>)
    requires
        well_formed(s),
        root < s.len(),
        child_named(s, root, name) is Some,
    ensures
        ({
            let child = child_named(s, root, name)->0;
            &&& child < s.len()
            &&& s[child as int].parent matches Some(up)
            &&& up < s.len()
            &&& child_named(s, up, name) == Some(child)
        }),
{
    let kids = s[root as int].children;
    lemma_find_from(s, kids, name, 0);
    let child = child_named(s, root, name)->0;
    let j = choose|j: int| 0 <= j < kids.len() && kids[j] == child;
    assert(child_at(s, root as int, j) == child);
}

/// A payload that has just been stored is the payload that is read back.
pub proof fn lemma_value_round_trip<T>(s: Seq<NodeView<T>>, node: NodeRef, value: T)
    requires
        node < s.len(),
    ensures
        s.update(node as int, with_value(s[node as int], value))[node as int].value == value,
{
}


/// A node with a parent stands in the children list of that parent, at one
/// place and no other.
pub proof fn lemma_listed_once<T>(s: Seq<NodeView<T>>, node: NodeRef)
    requires
        well_formed(s),
        node < s.len(),
        s[node as int].parent is Some,
    ensures
        ({
            let kids = s[s[node as int].parent->0 as int].children;
            exists|k: int|
                0 <= k < kids.len() && #[trigger] kids[k] == node && forall|j: int|
                    0 <= j < kids.len() && #[trigger] kids[j] == node ==> j == k
        }),
{
    let p = s[node as int].parent->0;
    let kids = s[p as int].children;
    assert(kids.contains(node));
    let k = choose|k: int| 0 <= k < kids.len() && kids[k] == node;
    assert forall|j: int| 0 <= j < kids.len() && #[trigger] kids[j] == node implies j == k by {
        if j < k {
            assert(child_at(s, p as int, j) < child_at(s, p as int, k));
        } else if k < j {
            assert(child_at(s, p as int, k) < child_at(s, p as int, j));
        }
    }
    assert(kids[k] == node);
}

} // verus!
