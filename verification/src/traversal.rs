//! Postorder traversal without recursion: an explicit stack of frames, each
//! holding a node and the index of its next child to enter.

use crate::tree::{same_shape, set_value, well_formed, with_value, Arena, NodeRef, NodeView};
use vstd::prelude::*;

verus! {

/// The postorder of the subtree of `node`, without the subtrees of its first
/// `k` children: what remains to be processed once those are done.
pub open spec fn postorder_from<T>(s: Seq<NodeView<T>>, node: NodeRef, k: int) -> Seq<NodeRef>
    decreases s.len() - node, s[node as int].children.len() - k,
{
    if node >= s.len() || k < 0 {
        Seq::empty()
    } else if k >= s[node as int].children.len() {
        seq![node]
    } else {
        let c = s[node as int].children[k];
        if node < c < s.len() {
            postorder_from(s, c, 0) + postorder_from(s, node, k + 1)
        } else {
            postorder_from(s, node, k + 1)
        }
    }
}

/// The nodes of the subtree of `root` in postorder: the postorders of the
/// children's subtrees in insertion order, then `root` itself.
pub open spec fn postorder<T>(s: Seq<NodeView<T>>, root: NodeRef) -> Seq<NodeRef> {
    postorder_from(s, root, 0)
}

/// What one step of a traversal may do to the arena: the predicate is asked
/// about `node`; if it says no, nothing changes, and if it says yes, the
/// visitor is called and the payload it returns is stored in `node`.
pub open spec fn visit_step<T, P, F>(p: P, f: F, before: Arena<T>, node: NodeRef, after: Arena<T>) -> bool where
    P: FnMut(&Arena<T>, NodeRef) -> bool,
    F: FnMut(&Arena<T>, NodeRef) -> T,
 {
    ||| call_ensures(p, (&before, node), false) && after == before
    ||| call_ensures(p, (&before, node), true) && after.issued() == before.issued() && exists|v: T| #[trigger]
        call_ensures(f, (&before, node), v) && after@ == before@.update(
            node as int,
            with_value(before@[node as int], v),
        )
}

/// Whether predicate and visitor accept every node of every well-formed
/// arena of the given shape, whatever payloads it holds.
pub open spec fn callable_on<T, P, F>(p: P, f: F, shape: Seq<NodeView<T>>) -> bool where
    P: FnMut(&Arena<T>, NodeRef) -> bool,
    F: FnMut(&Arena<T>, NodeRef) -> T,
 {
    &&& forall|a: &Arena<T>, n: NodeRef| #![trigger call_requires(p, (a, n))]
        a.wf() && a.contains(n) && same_shape(shape, a@) ==> call_requires(p, (a, n))
    &&& forall|a: &Arena<T>, n: NodeRef| #![trigger call_requires(f, (a, n))]
        a.wf() && a.contains(n) && same_shape(shape, a@) ==> call_requires(f, (a, n))
}

/// Step `i` of a traversal, from `trace[i]` to `trace[i + 1]`.
pub open spec fn step_at<T, P, F>(p: P, f: F, order: Seq<NodeRef>, trace: Seq<Arena<T>>, i: int) -> bool where
    P: FnMut(&Arena<T>, NodeRef) -> bool,
    F: FnMut(&Arena<T>, NodeRef) -> T,
 {
    visit_step(p, f, trace[i], order[i], trace[i + 1])
}

/// `trace` records a traversal that offered the nodes of `order` one after
/// the other, each exactly once: `trace[i]` is the arena as node `order[i]`
/// found it.
pub open spec fn walk<T, P, F>(p: P, f: F, order: Seq<NodeRef>, trace: Seq<Arena<T>>) -> bool where
    P: FnMut(&Arena<T>, NodeRef) -> bool,
    F: FnMut(&Arena<T>, NodeRef) -> T,
 {
    &&& trace.len() == order.len() + 1
    &&& forall|i: int| 0 <= i < order.len() ==> #[trigger] step_at(p, f, order, trace, i)
}

/// Whether `after` is what a traversal of the subtree of `root` makes of
/// `before`: the nodes are offered in postorder, each exactly once.
pub open spec fn traversed<T, P, F>(p: P, f: F, before: Arena<T>, root: NodeRef, after: Arena<T>) -> bool where
    P: FnMut(&Arena<T>, NodeRef) -> bool,
    F: FnMut(&Arena<T>, NodeRef) -> T,
 {
    exists|trace: Seq<Arena<T>>|
        {
            &&& #[trigger] walk(p, f, postorder(before@, root), trace)
            &&& trace[0] == before
            &&& trace.last() == after
        }
}

/// Whether every frame names a node of the arena and a position in its
/// children list.
spec fn frames_ok<T>(s: Seq<NodeView<T>>, stack: Seq<(NodeRef, usize)>) -> bool {
    forall|j: int|
        0 <= j < stack.len() ==> (#[trigger] stack[j]).0 < s.len() && stack[j].1 <= s[stack[j].0 as int].children.len()
}

/// The nodes that a stack of frames still has to offer, top frame first.
spec fn pending<T>(s: Seq<NodeView<T>>, stack: Seq<(NodeRef, usize)>) -> Seq<NodeRef>
    decreases stack.len(),
{
    if stack.len() == 0 {
        Seq::empty()
    } else {
        postorder_from(s, stack.last().0, stack.last().1 as int) + pending(s, stack.drop_last())
    }
}

proof fn lemma_postorder_from_nonempty<T>(s: Seq<NodeView<T>>, node: NodeRef, k: int)
    requires
        node < s.len(),
        0 <= k,
    ensures
        postorder_from(s, node, k).len() >= 1,
        postorder_from(s, node, k).last() == node,
    decreases s[node as int].children.len() - k,
{
    if k < s[node as int].children.len() {
        lemma_postorder_from_nonempty(s, node, k + 1);
    }
}

proof fn lemma_pending_len<T>(s: Seq<NodeView<T>>, stack: Seq<(NodeRef, usize)>)
    requires
        frames_ok(s, stack),
    ensures
        pending(s, stack).len() >= stack.len(),
    decreases stack.len(),
{
    if stack.len() > 0 {
        assert(stack.last() == stack[stack.len() - 1]);
        lemma_postorder_from_nonempty(s, stack.last().0, stack.last().1 as int);
        assert(frames_ok(s, stack.drop_last())) by {
            assert forall|j: int| 0 <= j < stack.drop_last().len() implies (#[trigger] stack.drop_last()[j]).0
                < s.len() && stack.drop_last()[j].1 <= s[stack.drop_last()[j].0 as int].children.len() by {
                assert(stack.drop_last()[j] == stack[j]);
            }
        }
        lemma_pending_len(s, stack.drop_last());
    }
}

/// Walks the subtree of `root` in postorder. Every node is offered to `p`
/// once, after all of its descendants; where `p` accepts, `f` is called and
/// the payload it returns replaces the node's own. The shape of the tree
/// stays as it was.
pub fn traverse_tree_apply_if<T, UnaryPredicate, F>(arena: &mut Arena<T>, root: NodeRef, p: UnaryPredicate, f: F) where
    UnaryPredicate: FnMut(&Arena<T>, NodeRef) -> bool,
    F: FnMut(&Arena<T>, NodeRef) -> T,

    requires
        old(arena).wf(),
        old(arena).contains(root),
        callable_on(p, f, old(arena)@),
    ensures
        final(arena).wf(),
        final(arena).issued() == old(arena).issued(),
        same_shape(old(arena)@, final(arena)@),
        traversed(p, f, *old(arena), root, *final(arena)),
{
    postorder_apply_if(arena, root, p, f);
}

fn postorder_apply_if<T, UnaryPredicate, F>(arena: &mut Arena<T>, root: NodeRef, mut p: UnaryPredicate, mut f: F) where
    UnaryPredicate: FnMut(&Arena<T>, NodeRef) -> bool,
    F: FnMut(&Arena<T>, NodeRef) -> T,

    requires
        old(arena).wf(),
        old(arena).contains(root),
        callable_on(p, f, old(arena)@),
    ensures
        final(arena).wf(),
        final(arena).issued() == old(arena).issued(),
        same_shape(old(arena)@, final(arena)@),
        traversed(p, f, *old(arena), root, *final(arena)),
{
    let ghost shape = old(arena)@;
    let ghost predicate = p;
    let ghost visitor = f;
    let mut stack: Vec<(NodeRef, usize)> = Vec::new();
    stack.push((root, 0));
    let ghost mut visited: Seq<NodeRef> = Seq::empty();
    let ghost mut trace: Seq<Arena<T>> = seq![*arena];
    proof {
        assert(stack@.drop_last() =~= Seq::empty());
        assert(pending(shape, stack@) =~= postorder(shape, root)) by {
            reveal_with_fuel(pending, 2);
        }
        assert(visited + pending(shape, stack@) =~= postorder(shape, root));
    }
    while stack.len() > 0
        invariant
            shape == old(arena)@,
            p == predicate,
            f == visitor,
            well_formed(shape),
            arena.wf(),
            arena.issued() == old(arena).issued(),
            same_shape(shape, arena@),
            callable_on(p, f, shape),
            frames_ok(shape, stack@),
            visited + pending(shape, stack@) == postorder(shape, root),
            trace.len() == visited.len() + 1,
            trace[0] == *old(arena),
            trace.last() == *arena,
            forall|i: int| 0 <= i < visited.len() ==> #[trigger] step_at(p, f, visited, trace, i),
        decreases 2 * pending(shape, stack@).len() - stack@.len(),
    {
        let top = stack.len() - 1;
        let (node, k) = stack[top];
        let ghost before = stack@;
        let ghost rest = stack@.drop_last();
        proof {
            lemma_pending_len(shape, stack@);
            assert(before.last() == (node, k));
            assert(shape[node as int].children == arena@[node as int].children);
        }
        if k < arena.node(node).children.len() {
            let child = arena.node(node).children[k];
            stack[top] = (node, k + 1);
            stack.push((child, 0));
            proof {
                assert(crate::tree::child_at(shape, node as int, k as int) == child);
                assert(pending(shape, before) == postorder_from(shape, node, k as int) + pending(shape, rest));
                let mid = rest.push((node, (k + 1) as usize));
                assert(stack@.drop_last() =~= mid);
                assert(mid.drop_last() =~= rest);
                assert(pending(shape, mid) == postorder_from(shape, node, k + 1) + pending(shape, rest));
                assert(pending(shape, stack@) == postorder_from(shape, child, 0) + pending(shape, mid));
                assert(pending(shape, stack@) =~= pending(shape, before));
                assert(frames_ok(shape, stack@)) by {
                    assert forall|j: int| 0 <= j < stack@.len() implies (#[trigger] stack@[j]).0 < shape.len()
                        && stack@[j].1 <= shape[stack@[j].0 as int].children.len() by {
                        if j < top {
                            assert(stack@[j] == before[j]);
                        }
                    }
                }
                lemma_pending_len(shape, stack@);
            }
        } else {
            let ghost seen = *arena;
            if p(&*arena, node) {
                let value = f(&*arena, node);
                set_value(arena, node, value);
            }
            stack.pop();
            proof {
                assert(stack@ =~= rest);
                assert(pending(shape, before) =~= seq![node] + pending(shape, rest));
                let order = visited.push(node);
                let longer = trace.push(*arena);
                assert(order + pending(shape, rest) =~= visited + pending(shape, before));
                assert(visit_step(p, f, seen, node, *arena));
                assert forall|i: int| 0 <= i < order.len() implies #[trigger] step_at(p, f, order, longer, i) by {
                    if i < visited.len() {
                        assert(step_at(p, f, visited, trace, i));
                        assert(longer[i] == trace[i]);
                        assert(longer[i + 1] == trace[i + 1]);
                        assert(order[i] == visited[i]);
                    } else {
                        assert(longer[i] == seen);
                        assert(longer[i + 1] == *arena);
                    }
                }
                visited = order;
                trace = longer;
                assert(frames_ok(shape, stack@)) by {
                    assert forall|j: int| 0 <= j < stack@.len() implies (#[trigger] stack@[j]).0 < shape.len()
                        && stack@[j].1 <= shape[stack@[j].0 as int].children.len() by {
                        assert(stack@[j] == before[j]);
                    }
                }
                lemma_pending_len(shape, stack@);
                crate::tree::lemma_same_shape_wf(shape, arena@);
            }
        }
    }
    proof {
        assert(pending(shape, stack@) =~= Seq::empty());
        assert(visited =~= postorder(shape, root));
        assert(walk(p, f, postorder(shape, root), trace));
    }
}


/// Lists the nodes of the subtree of `root` in postorder, with the same
/// stack of frames as the traversal.
pub fn postorder_list<T>(arena: &Arena<T>, root: NodeRef) -> (order: Vec<NodeRef>)
    requires
        arena.wf(),
        arena.contains(root),
    ensures
        order@ == postorder(arena@, root),
{
    let ghost shape = arena@;
    let mut order: Vec<NodeRef> = Vec::new();
    let mut stack: Vec<(NodeRef, usize)> = Vec::new();
    stack.push((root, 0));
    proof {
        assert(stack@.drop_last() =~= Seq::empty());
        assert(pending(shape, stack@) =~= postorder(shape, root)) by {
            reveal_with_fuel(pending, 2);
        }
        assert(order@ + pending(shape, stack@) =~= postorder(shape, root));
    }
    while stack.len() > 0
        invariant
            shape == arena@,
            arena.wf(),
            frames_ok(shape, stack@),
            order@ + pending(shape, stack@) == postorder(shape, root),
        decreases 2 * pending(shape, stack@).len() - stack@.len(),
    {
        let top = stack.len() - 1;
        let (node, k) = stack[top];
        let ghost before = stack@;
        let ghost rest = stack@.drop_last();
        proof {
            lemma_pending_len(shape, stack@);
            assert(before.last() == (node, k));
        }
        if k < arena.node(node).children.len() {
            let child = arena.node(node).children[k];
            stack[top] = (node, k + 1);
            stack.push((child, 0));
            proof {
                assert(crate::tree::child_at(shape, node as int, k as int) == child);
                assert(pending(shape, before) == postorder_from(shape, node, k as int) + pending(shape, rest));
                let mid = rest.push((node, (k + 1) as usize));
                assert(stack@.drop_last() =~= mid);
                assert(mid.drop_last() =~= rest);
                assert(pending(shape, mid) == postorder_from(shape, node, k + 1) + pending(shape, rest));
                assert(pending(shape, stack@) == postorder_from(shape, child, 0) + pending(shape, mid));
                assert(pending(shape, stack@) =~= pending(shape, before));
                assert(frames_ok(shape, stack@)) by {
                    assert forall|j: int| 0 <= j < stack@.len() implies (#[trigger] stack@[j]).0 < shape.len()
                        && stack@[j].1 <= shape[stack@[j].0 as int].children.len() by {
                        if j < top {
                            assert(stack@[j] == before[j]);
                        }
                    }
                }
                lemma_pending_len(shape, stack@);
            }
        } else {
            let ghost listed = order@;
            order.push(node);
            stack.pop();
            proof {
                assert(stack@ =~= rest);
                assert(pending(shape, before) =~= seq![node] + pending(shape, rest));
                assert(order@ + pending(shape, rest) =~= listed + pending(shape, before));
                assert(frames_ok(shape, stack@)) by {
                    assert forall|j: int| 0 <= j < stack@.len() implies (#[trigger] stack@[j]).0 < shape.len()
                        && stack@[j].1 <= shape[stack@[j].0 as int].children.len() by {
                        assert(stack@[j] == before[j]);
                    }
                }
                lemma_pending_len(shape, stack@);
            }
        }
    }
    proof {
        assert(pending(shape, stack@) =~= Seq::empty());
        assert(order@ =~= postorder(shape, root));
    }
    order
}

/// Whether `x` lies in the subtree of `root`: following parent references
/// from `x` leads to `root`.
pub open spec fn in_subtree<T>(s: Seq<NodeView<T>>, root: NodeRef, x: NodeRef) -> bool
    decreases x,
{
    x < s.len() && (x == root || match s[x as int].parent {
        Some(p) => p < x && in_subtree(s, root, p),
        None => false,
    })
}

proof fn lemma_concat_contains<A>(a: Seq<A>, b: Seq<A>, x: A)
    ensures
        (a + b).contains(x) <==> a.contains(x) || b.contains(x),
{
    if a.contains(x) {
        let i = choose|i: int| 0 <= i < a.len() && a[i] == x;
        assert((a + b)[i] == x);
    }
    if b.contains(x) {
        let i = choose|i: int| 0 <= i < b.len() && b[i] == x;
        assert((a + b)[a.len() + i] == x);
    }
    if (a + b).contains(x) {
        let i = choose|i: int| 0 <= i < (a + b).len() && (a + b)[i] == x;
        if i < a.len() {
            assert(a[i] == x);
        } else {
            assert(b[i - a.len()] == x);
        }
    }
}

/// A node's subtree holds no node created before it.
proof fn lemma_subtree_ge<T>(s: Seq<NodeView<T>>, root: NodeRef, x: NodeRef)
    requires
        in_subtree(s, root, x),
    ensures
        root <= x,
    decreases x,
{
    if x != root {
        match s[x as int].parent {
            Some(p) => lemma_subtree_ge(s, root, p),
            None => {},
        }
    }
}

/// What lies below a child lies below its parent.
proof fn lemma_subtree_lift<T>(s: Seq<NodeView<T>>, node: NodeRef, c: NodeRef, x: NodeRef)
    requires
        c < s.len(),
        s[c as int].parent == Some(node),
        node < c,
        in_subtree(s, c, x),
    ensures
        in_subtree(s, node, x),
    decreases x,
{
    if x == c {
        assert(in_subtree(s, node, node));
    } else {
        match s[x as int].parent {
            Some(p) => lemma_subtree_lift(s, node, c, p),
            None => {},
        }
    }
}

/// Every node that the traversal offers lies in the subtree; unless it is
/// the subtree's root, it lies below one of the children not yet skipped.
proof fn lemma_member<T>(s: Seq<NodeView<T>>, node: NodeRef, k: int, x: NodeRef)
    requires
        well_formed(s),
        node < s.len(),
        0 <= k,
        postorder_from(s, node, k).contains(x),
    ensures
        in_subtree(s, node, x),
        x != node ==> exists|j: int|
            k <= j < s[node as int].children.len() && in_subtree(
                s,
                #[trigger] crate::tree::child_at(s, node as int, j),
                x,
            ),
    decreases s.len() - node, s[node as int].children.len() - k,
{
    let kids = s[node as int].children;
    if k >= kids.len() {
        let i = choose|i: int| 0 <= i < seq![node].len() && seq![node][i] == x;
        assert(x == node);
    } else {
        let c = crate::tree::child_at(s, node as int, k);
        assert(node < c < s.len() && s[c as int].parent == Some(node));
        let a = postorder_from(s, c, 0);
        let b = postorder_from(s, node, k + 1);
        lemma_concat_contains(a, b, x);
        if a.contains(x) {
            lemma_member(s, c, 0, x);
            lemma_subtree_lift(s, node, c, x);
            assert(in_subtree(s, crate::tree::child_at(s, node as int, k), x));
        } else {
            lemma_member(s, node, k + 1, x);
            if x != node {
                let j = choose|j: int|
                    k + 1 <= j < kids.len() && in_subtree(s, #[trigger] crate::tree::child_at(s, node as int, j), x);
                assert(in_subtree(s, crate::tree::child_at(s, node as int, j), x));
            }
        }
    }
}

/// A proper descendant of a node lies below one of its children.
proof fn lemma_child_ancestor<T>(s: Seq<NodeView<T>>, node: NodeRef, x: NodeRef)
    requires
        well_formed(s),
        in_subtree(s, node, x),
        x != node,
    ensures
        exists|j: int|
            0 <= j < s[node as int].children.len() && in_subtree(
                s,
                #[trigger] crate::tree::child_at(s, node as int, j),
                x,
            ),
    decreases x,
{
    match s[x as int].parent {
        Some(p) => {
            if p == node {
                assert(s[node as int].children.contains(x));
                let j = choose|j: int| 0 <= j < s[node as int].children.len() && s[node as int].children[j] == x;
                assert(crate::tree::child_at(s, node as int, j) == x);
                assert(in_subtree(s, x, x));
            } else {
                lemma_child_ancestor(s, node, p);
                let j = choose|j: int|
                    0 <= j < s[node as int].children.len() && in_subtree(
                        s,
                        #[trigger] crate::tree::child_at(s, node as int, j),
                        p,
                    );
                assert(in_subtree(s, crate::tree::child_at(s, node as int, j), x));
            }
        },
        None => {},
    }
}

/// What remains after `j` children is part of what remains after `k <= j`.
proof fn lemma_later_part<T>(s: Seq<NodeView<T>>, node: NodeRef, k: int, j: int, y: NodeRef)
    requires
        well_formed(s),
        node < s.len(),
        0 <= k <= j,
        postorder_from(s, node, j).contains(y),
    ensures
        postorder_from(s, node, k).contains(y),
    decreases j - k,
{
    if k < j {
        lemma_later_part(s, node, k + 1, j, y);
        if k < s[node as int].children.len() {
            let c = crate::tree::child_at(s, node as int, k);
            assert(node < c < s.len());
            lemma_concat_contains(postorder_from(s, c, 0), postorder_from(s, node, k + 1), y);
        }
    }
}

/// Every node of the subtree is offered.
proof fn lemma_subtree_member<T>(s: Seq<NodeView<T>>, node: NodeRef, x: NodeRef)
    requires
        well_formed(s),
        node < s.len(),
        in_subtree(s, node, x),
    ensures
        postorder(s, node).contains(x),
    decreases s.len() - node,
{
    if x == node {
        lemma_postorder_from_nonempty(s, node, 0);
        let po = postorder(s, node);
        assert(po[po.len() - 1] == x);
    } else {
        lemma_child_ancestor(s, node, x);
        let j = choose|j: int|
            0 <= j < s[node as int].children.len() && in_subtree(
                s,
                #[trigger] crate::tree::child_at(s, node as int, j),
                x,
            );
        let c = crate::tree::child_at(s, node as int, j);
        assert(node < c < s.len());
        lemma_subtree_member(s, c, x);
        lemma_concat_contains(postorder_from(s, c, 0), postorder_from(s, node, j + 1), x);
        lemma_later_part(s, node, 0, j, x);
    }
}

/// Two siblings have no descendant in common.
proof fn lemma_one_branch<T>(s: Seq<NodeView<T>>, a: NodeRef, b: NodeRef, x: NodeRef)
    requires
        well_formed(s),
        a < s.len(),
        b < s.len(),
        s[a as int].parent is Some,
        s[a as int].parent == s[b as int].parent,
        in_subtree(s, a, x),
        in_subtree(s, b, x),
    ensures
        a == b,
    decreases x,
{
    let n = s[a as int].parent->0;
    if x == a {
        if a != b {
            lemma_subtree_ge(s, b, n);
        }
    } else if x == b {
        if a != b {
            lemma_subtree_ge(s, a, n);
        }
    } else {
        match s[x as int].parent {
            Some(p) => lemma_one_branch(s, a, b, p),
            None => {},
        }
    }
}

/// A node in the subtree of child `k` is not offered again after it.
proof fn lemma_parts_disjoint<T>(s: Seq<NodeView<T>>, node: NodeRef, k: int, x: NodeRef)
    requires
        well_formed(s),
        node < s.len(),
        0 <= k < s[node as int].children.len(),
        in_subtree(s, crate::tree::child_at(s, node as int, k), x),
    ensures
        !postorder_from(s, node, k + 1).contains(x),
{
    let c = crate::tree::child_at(s, node as int, k);
    assert(node < c < s.len() && s[c as int].parent == Some(node));
    if postorder_from(s, node, k + 1).contains(x) {
        lemma_member(s, node, k + 1, x);
        if x == node {
            lemma_subtree_ge(s, c, node);
        } else {
            let j = choose|j: int|
                k + 1 <= j < s[node as int].children.len() && in_subtree(
                    s,
                    #[trigger] crate::tree::child_at(s, node as int, j),
                    x,
                );
            let d = crate::tree::child_at(s, node as int, j);
            assert(node < d < s.len() && s[d as int].parent == Some(node));
            lemma_one_branch(s, c, d, x);
            assert(c < d);
        }
    }
}

proof fn lemma_postorder_from_no_duplicates<T>(s: Seq<NodeView<T>>, node: NodeRef, k: int)
    requires
        well_formed(s),
        node < s.len(),
        0 <= k,
    ensures
        postorder_from(s, node, k).no_duplicates(),
    decreases s.len() - node, s[node as int].children.len() - k,
{
    if k < s[node as int].children.len() {
        let c = crate::tree::child_at(s, node as int, k);
        assert(node < c < s.len());
        let a = postorder_from(s, c, 0);
        let b = postorder_from(s, node, k + 1);
        lemma_postorder_from_no_duplicates(s, c, 0);
        lemma_postorder_from_no_duplicates(s, node, k + 1);
        assert forall|i: int, j: int| 0 <= i < a.len() && 0 <= j < b.len() implies a[i] != b[j] by {
            if a[i] == b[j] {
                assert(a.contains(a[i]));
                assert(b.contains(a[i]));
                lemma_member(s, c, 0, a[i]);
                lemma_parts_disjoint(s, node, k, a[i]);
            }
        }
        vstd::seq_lib::lemma_no_dup_in_concat(a, b);
    }
}

proof fn lemma_children_first_from<T>(s: Seq<NodeView<T>>, node: NodeRef, k: int, i: int, j: int)
    requires
        well_formed(s),
        node < s.len(),
        0 <= k,
        0 <= i < postorder_from(s, node, k).len(),
        0 <= j < postorder_from(s, node, k).len(),
        s[postorder_from(s, node, k)[i] as int].parent == Some(postorder_from(s, node, k)[j]),
    ensures
        i < j,
    decreases s.len() - node, s[node as int].children.len() - k,
{
    let po = postorder_from(s, node, k);
    assert(po.contains(po[i]));
    assert(po.contains(po[j]));
    lemma_member(s, node, k, po[i]);
    lemma_member(s, node, k, po[j]);
    if k < s[node as int].children.len() {
        let c = crate::tree::child_at(s, node as int, k);
        assert(node < c < s.len());
        let a = postorder_from(s, c, 0);
        let b = postorder_from(s, node, k + 1);
        if i < a.len() && j < a.len() {
            lemma_children_first_from(s, c, 0, i, j);
        } else if i >= a.len() && j >= a.len() {
            lemma_children_first_from(s, node, k + 1, i - a.len(), j - a.len());
        } else if j < a.len() {
            let parent = a[j];
            let child = b[i - a.len()];
            assert(a.contains(parent));
            assert(b.contains(child));
            lemma_member(s, c, 0, parent);
            assert(in_subtree(s, c, child));
            lemma_parts_disjoint(s, node, k, child);
        }
    }
}

/// The root of the subtree is the last node that a traversal offers.
pub proof fn lemma_root_is_last<T>(s: Seq<NodeView<T>>, root: NodeRef)
    requires
        root < s.len(),
    ensures
        postorder(s, root).len() >= 1,
        postorder(s, root).last() == root,
{
    lemma_postorder_from_nonempty(s, root, 0);
}

/// A traversal offers exactly the nodes of the subtree of its root.
pub proof fn lemma_postorder_visits_subtree<T>(s: Seq<NodeView<T>>, root: NodeRef, x: NodeRef)
    requires
        well_formed(s),
        root < s.len(),
    ensures
        postorder(s, root).contains(x) <==> in_subtree(s, root, x),
{
    if postorder(s, root).contains(x) {
        lemma_member(s, root, 0, x);
    }
    if in_subtree(s, root, x) {
        lemma_subtree_member(s, root, x);
    }
}

/// A traversal offers no node twice.
pub proof fn lemma_postorder_visits_once<T>(s: Seq<NodeView<T>>, root: NodeRef)
    requires
        well_formed(s),
        root < s.len(),
    ensures
        postorder(s, root).no_duplicates(),
{
    lemma_postorder_from_no_duplicates(s, root, 0);
}

/// A traversal offers every child strictly before its parent: if the node
/// at position `i` is a child of the node at position `j`, then `i < j`.
pub proof fn lemma_children_before_parent<T>(s: Seq<NodeView<T>>, root: NodeRef, i: int, j: int)
    requires
        well_formed(s),
        root < s.len(),
        0 <= i < postorder(s, root).len(),
        0 <= j < postorder(s, root).len(),
        s[postorder(s, root)[i] as int].parent == Some(postorder(s, root)[j]),
    ensures
        i < j,
{
    lemma_children_first_from(s, root, 0, i, j);
}

/// A traversal of a root without children offers that root and nothing else.
pub proof fn lemma_postorder_of_leaf<T>(s: Seq<NodeView<T>>, root: NodeRef)
    requires
        root < s.len(),
        s[root as int].children.len() == 0,
    ensures
        postorder(s, root) == seq![root],
{
}


/// The tree has no cycle: two nodes that lie in each other's subtree are
/// one and the same.
pub proof fn lemma_no_cycle<T>(s: Seq<NodeView<T>>, a: NodeRef, b: NodeRef)
    requires
        in_subtree(s, a, b),
        in_subtree(s, b, a),
    ensures
        a == b,
{
    lemma_subtree_ge(s, a, b);
    lemma_subtree_ge(s, b, a);
}

} // verus!
