//! The process hierarchy: a `tree_ds` tree built from parent pointers that arrive in any
//! order.

use crate::memory::{enumerates, pids_of, ProcessMemoryInfo};
use std::collections::HashMap;
use std::collections::HashSet;
use tree_ds::prelude::{Node, Tree};
use vstd::prelude::*;
use vstd::std_specs::hash::group_hash_axioms;

verus! {

broadcast use group_hash_axioms;

/// The id of the synthetic node above every process that has no parent in the tree. No
/// process may use it.
pub const VIRTUAL_ROOT_PID: u32 = 0;

/// One node of a tree as plain values: its id, its label, its parent's id and the ids of
/// its children in the order in which they were attached.
pub type NodeRecord = (u32, Option<Seq<char>>, Option<u32>, Seq<u32>);

#[verifier::external_type_specification]
#[verifier::external_body]
#[verifier::reject_recursive_types(Q)]
#[verifier::reject_recursive_types(T)]
pub struct ExTree<Q: PartialEq + Eq + Clone, T: PartialEq + Eq + Clone>(Tree<Q, T>);

/// The nodes that a tree holds, in the order in which they were added to it.
pub uninterp spec fn tree_nodes(tree: Tree<u32, String>) -> Seq<NodeRecord>;

/// Whether some node of `nodes` has the id `id`.
pub open spec fn has_node(nodes: Seq<NodeRecord>, id: u32) -> bool {
    exists|i: int| 0 <= i < nodes.len() && #[trigger] nodes[i].0 == id
}

/// Whether `i` is the place of the first node of `nodes` that has the id `id`.
pub open spec fn is_first_at(nodes: Seq<NodeRecord>, id: u32, i: int) -> bool {
    &&& 0 <= i < nodes.len()
    &&& nodes[i].0 == id
    &&& forall|j: int| 0 <= j < i ==> #[trigger] nodes[j].0 != id
}

/// Whether no two nodes of `nodes` have the same id.
pub open spec fn has_distinct_ids(nodes: Seq<NodeRecord>) -> bool {
    forall|i: int, j: int|
        0 <= i < j < nodes.len() ==> #[trigger] nodes[i].0 != #[trigger] nodes[j].0
}

/// Whether some node of `nodes` has no parent.
pub open spec fn has_root(nodes: Seq<NodeRecord>) -> bool {
    exists|i: int| 0 <= i < nodes.len() && #[trigger] nodes[i].2 is None
}

/// `nodes` after a childless node `id` with the label `label` was hung below the node at
/// place `at`: that node has `id` as its last child, and the new node stands at the end.
pub open spec fn with_child(nodes: Seq<NodeRecord>, at: int, id: u32, label: Seq<char>) -> Seq<
    NodeRecord,
> {
    let parent = nodes[at];
    nodes.update(at, (parent.0, parent.1, parent.2, parent.3.push(id))).push(
        (id, Some(label), Some(parent.0), Seq::empty()),
    )
}

/// `Tree::new` of `tree_ds`: a tree with the given name and no nodes.
#[verifier::external_body]
pub(crate) fn new_tree(name: &str) -> (tree: Tree<u32, String>)
    ensures
        tree_nodes(tree) == Seq::<NodeRecord>::empty(),
{
    Tree::new(Some(name))
}

/// `Tree::add_node` of `tree_ds`, given a fresh `Node::new(id, Some(label))`.
///
/// With a parent id the call looks for the first node with that id. Where there is none it
/// fails and leaves the tree as it was; otherwise it appends `id` to that node's children,
/// records the parent in the new node and appends the new node to the tree. Without a
/// parent id it fails if some node of the tree has no parent, and otherwise appends the new
/// node as the root. It never looks at whether `id` is in the tree already. The crate's
/// error type cannot be named from outside it, so failure is handed on as `None`.
///
/// The tree keeps its nodes behind shared pointers. That the parent is the one node that
/// changes is claimed only of a tree in which no id occurs twice, and so no node either.
#[verifier::external_body]
pub(crate) fn add_node(
    tree: &mut Tree<u32, String>,
    id: u32,
    label: String,
    parent: Option<u32>,
) -> (added: Option<u32>)
    requires
        parent is Some ==> has_distinct_ids(tree_nodes(*old(tree))),
    ensures
        match parent {
            Some(parent_id) => match added {
                Some(added_id) => added_id == id && exists|at: int|
                    is_first_at(tree_nodes(*old(tree)), parent_id, at) && tree_nodes(*final(tree))
                        == with_child(tree_nodes(*old(tree)), at, id, label@),
                None => !has_node(tree_nodes(*old(tree)), parent_id) && tree_nodes(*final(tree))
                    == tree_nodes(*old(tree)),
            },
            None => match added {
                Some(added_id) => added_id == id && !has_root(tree_nodes(*old(tree)))
                    && tree_nodes(*final(tree)) == tree_nodes(*old(tree)).push(
                    (id, Some(label@), None, Seq::empty()),
                ),
                None => has_root(tree_nodes(*old(tree))) && tree_nodes(*final(tree)) == tree_nodes(
                    *old(tree),
                ),
            },
        },
{
    tree.add_node(Node::new(id, Some(label)), parent.as_ref()).ok()
}

/// `Tree::get_node_by_id` of `tree_ds`, followed by `Node::get_children_ids` on the node it
/// found: the children of the first node with the id `id`, in the order in which they were
/// attached, or `None` where the tree has no such node.
#[verifier::external_body]
pub(crate) fn children_ids(tree: &Tree<u32, String>, id: u32) -> (children: Option<Vec<u32>>)
    ensures
        match children {
            Some(ids) => exists|at: int|
                is_first_at(tree_nodes(*tree), id, at) && ids@ == tree_nodes(*tree)[at].3,
            None => !has_node(tree_nodes(*tree), id),
        },
{
    match tree.get_node_by_id(&id) {
        Some(node) => node.get_children_ids().ok(),
        None => None,
    }
}

/// Whether `grown` still holds every node of `nodes` at its place, with its id, its label
/// and its parent. Nodes may have been added, and children with them.
pub open spec fn keeps_nodes(nodes: Seq<NodeRecord>, grown: Seq<NodeRecord>) -> bool {
    &&& nodes.len() <= grown.len()
    &&& forall|i: int|
        0 <= i < nodes.len() ==> (#[trigger] grown[i]).0 == nodes[i].0 && grown[i].1 == nodes[i].1
            && grown[i].2 == nodes[i].2
}

/// Why a tree could not be built.
#[derive(Debug, Clone, Copy, PartialEq, Eq, Structural)]
pub enum TreeError {
    /// A process uses the id that is reserved for the virtual root.
    VirtualRootConflict,
}

/// Whether following parent pointers from `pid` ends, after at most `steps` of them, at a
/// process that names no parent, without ever leaving `procs`.
pub open spec fn reaches_root(procs: Map<u32, ProcessMemoryInfo>, pid: u32, steps: nat) -> bool
    decreases steps,
{
    &&& procs.contains_key(pid)
    &&& match procs[pid].parent {
        None => true,
        Some(parent) => steps > 0 && reaches_root(procs, parent, (steps - 1) as nat),
    }
}

/// Whether `pid` belongs in the tree: it is a process, and so is every ancestor that its
/// chain of parent pointers names, up to one that names no parent. A process whose chain
/// leads to an id that is no process, or runs in a circle, is not attached.
pub open spec fn is_attached(procs: Map<u32, ProcessMemoryInfo>, pid: u32) -> bool {
    exists|steps: nat| reaches_root(procs, pid, steps)
}

/// The id of the node that `pid` hangs below: its parent, or the virtual root where it
/// names none.
pub open spec fn parent_in_tree(procs: Map<u32, ProcessMemoryInfo>, pid: u32) -> u32 {
    match procs[pid].parent {
        Some(parent) => parent,
        None => VIRTUAL_ROOT_PID,
    }
}

/// Whether `nodes` holds a node `child` whose parent is `parent`.
pub open spec fn is_child_in(nodes: Seq<NodeRecord>, child: u32, parent: u32) -> bool {
    exists|j: int|
        0 <= j < nodes.len() && #[trigger] nodes[j].0 == child && nodes[j].2 == Some(parent)
}

/// The shape of a hierarchy below the virtual root: the virtual root comes first and is the
/// only node without a parent, no id occurs twice, every other node comes after its parent,
/// and the children that a node lists are, each once, the nodes that name it as parent.
pub open spec fn well_formed(nodes: Seq<NodeRecord>) -> bool {
    &&& nodes.len() >= 1
    &&& nodes[0].0 == VIRTUAL_ROOT_PID
    &&& nodes[0].2 is None
    &&& has_distinct_ids(nodes)
    &&& forall|j: int|
        1 <= j < nodes.len() ==> exists|i: int|
            0 <= i < j && (#[trigger] nodes[j]).2 == Some(#[trigger] nodes[i].0)
    &&& forall|i: int| 0 <= i < nodes.len() ==> (#[trigger] nodes[i]).3.no_duplicates()
    &&& forall|i: int, child: u32|
        0 <= i < nodes.len() ==> ((#[trigger] nodes[i]).3.contains(child)
            <==> #[trigger] is_child_in(nodes, child, nodes[i].0))
}

/// Whether every node but the virtual root stands for an attached process of `procs`, with
/// the process's name as its label and the process's parent as its parent.
pub open spec fn describes(procs: Map<u32, ProcessMemoryInfo>, nodes: Seq<NodeRecord>) -> bool {
    &&& nodes[0].1 == Some("virtual root"@)
    &&& forall|j: int|
        1 <= j < nodes.len() ==> {
            let pid = (#[trigger] nodes[j]).0;
            &&& procs.contains_key(pid)
            &&& is_attached(procs, pid)
            &&& nodes[j].1 == Some(procs[pid].name@)
            &&& nodes[j].2 == Some(parent_in_tree(procs, pid))
        }
}

/// Whether `nodes` is the hierarchy of `procs`: a well-formed tree whose nodes below the
/// virtual root are exactly the attached processes, each under its parent. Which order the
/// nodes and a node's children come in is left open.
pub open spec fn is_process_tree(
    procs: Map<u32, ProcessMemoryInfo>,
    nodes: Seq<NodeRecord>,
) -> bool {
    &&& !procs.contains_key(VIRTUAL_ROOT_PID)
    &&& well_formed(nodes)
    &&& describes(procs, nodes)
    &&& forall|pid: u32| is_attached(procs, pid) ==> has_node(nodes, pid)
}

/// Hanging an attached process that the tree does not hold yet below its parent keeps the
/// tree well formed and true to the processes, and adds that one id to it.
proof fn lemma_attach(procs: Map<u32, ProcessMemoryInfo>, nodes: Seq<NodeRecord>, at: int, pid: u32)
    requires
        !procs.contains_key(VIRTUAL_ROOT_PID),
        well_formed(nodes),
        describes(procs, nodes),
        procs.contains_key(pid),
        is_attached(procs, pid),
        !has_node(nodes, pid),
        0 <= at < nodes.len(),
        nodes[at].0 == parent_in_tree(procs, pid),
    ensures
        well_formed(with_child(nodes, at, pid, procs[pid].name@)),
        describes(procs, with_child(nodes, at, pid, procs[pid].name@)),
        forall|id: u32|
            has_node(with_child(nodes, at, pid, procs[pid].name@), id) <==> (has_node(nodes, id)
                || id == pid),
{
    let after = with_child(nodes, at, pid, procs[pid].name@);
    let n = nodes.len() as int;
    let parent = nodes[at].0;
    assert(after.len() == n + 1);
    assert(forall|i: int| 0 <= i < n ==> (#[trigger] after[i]).0 == nodes[i].0);
    assert(forall|i: int| 0 <= i < n ==> (#[trigger] after[i]).1 == nodes[i].1);
    assert(forall|i: int| 0 <= i < n ==> (#[trigger] after[i]).2 == nodes[i].2);
    assert(forall|i: int| 0 <= i < n && i != at ==> (#[trigger] after[i]).3 == nodes[i].3);
    assert(after[at].3 == nodes[at].3.push(pid));
    assert(after[n] == (pid, Some(procs[pid].name@), Some(parent), Seq::<u32>::empty()));
    assert(forall|i: int| 0 <= i < n ==> #[trigger] nodes[i].0 != pid);

    // The ids that the tree holds.
    assert forall|id: u32| has_node(after, id) <==> (has_node(nodes, id) || id == pid) by {
        if has_node(after, id) {
            let i = choose|i: int| 0 <= i < after.len() && #[trigger] after[i].0 == id;
            if i < n {
                assert(nodes[i].0 == id);
            }
        }
        if has_node(nodes, id) {
            let i = choose|i: int| 0 <= i < nodes.len() && #[trigger] nodes[i].0 == id;
            assert(after[i].0 == id);
        }
        if id == pid {
            assert(after[n].0 == id);
        }
    }

    // No node of the old tree names the new id as its parent.
    assert forall|j: int| 0 <= j < n implies (#[trigger] nodes[j]).2 != Some(pid) by {
        if j >= 1 {
            let i = choose|i: int| 0 <= i < j && nodes[j].2 == Some(#[trigger] nodes[i].0);
            assert(nodes[i].0 != pid);
        }
    }

    // Who is whose child after the step.
    assert forall|child: u32, above: u32|
        #[trigger] is_child_in(after, child, above) <==> (is_child_in(nodes, child, above) || (child
            == pid && above == parent)) by {
        if is_child_in(after, child, above) {
            let j = choose|j: int|
                0 <= j < after.len() && #[trigger] after[j].0 == child && after[j].2 == Some(above);
            if j < n {
                assert(nodes[j].0 == child && nodes[j].2 == Some(above));
            }
        }
        if is_child_in(nodes, child, above) {
            let j = choose|j: int|
                0 <= j < nodes.len() && #[trigger] nodes[j].0 == child && nodes[j].2 == Some(above);
            assert(after[j].0 == child && after[j].2 == Some(above));
        }
        if child == pid && above == parent {
            assert(after[n].0 == child && after[n].2 == Some(above));
        }
    }

    assert forall|i: int, j: int| 0 <= i < j < after.len() implies #[trigger] after[i].0
        != #[trigger] after[j].0 by {
        if j < n {
            assert(nodes[i].0 != nodes[j].0);
        } else {
            assert(nodes[i].0 != pid);
        }
    }
    assert forall|j: int| 1 <= j < after.len() implies exists|i: int|
        0 <= i < j && (#[trigger] after[j]).2 == Some(#[trigger] after[i].0) by {
        if j < n {
            let i = choose|i: int| 0 <= i < j && nodes[j].2 == Some(#[trigger] nodes[i].0);
            assert(after[j].2 == Some(after[i].0));
        } else {
            assert(after[j].2 == Some(after[at].0));
        }
    }
    assert(!nodes[at].3.contains(pid)) by {
        if nodes[at].3.contains(pid) {
            assert(is_child_in(nodes, pid, nodes[at].0));
        }
    }
    assert forall|i: int| 0 <= i < after.len() implies (#[trigger] after[i]).3.no_duplicates() by {
        if i == at {
            let before = nodes[at].3;
            assert(before.no_duplicates());
            assert forall|a: int, b: int| 0 <= a < b < after[at].3.len() implies after[at].3[a]
                != after[at].3[b] by {
                if b < before.len() {
                    assert(before[a] != before[b]);
                } else {
                    assert(before.contains(before[a]));
                }
            }
        } else if i < n {
            assert(nodes[i].3.no_duplicates());
        }
    }
    assert forall|i: int, child: u32| 0 <= i < after.len() implies ((
    #[trigger] after[i]).3.contains(child) <==> #[trigger] is_child_in(
        after,
        child,
        after[i].0,
    )) by {
        if i == at {
            assert(nodes[at].3.contains(child) <==> is_child_in(nodes, child, nodes[at].0));
            assert(after[at].3.contains(child) <==> (nodes[at].3.contains(child) || child == pid))
                by {
                if nodes[at].3.contains(child) {
                    let k = choose|k: int| 0 <= k < nodes[at].3.len() && nodes[at].3[k] == child;
                    assert(after[at].3[k] == child);
                }
                assert(after[at].3[nodes[at].3.len() as int] == pid);
            }
        } else if i < n {
            assert(nodes[i].3.contains(child) <==> is_child_in(nodes, child, nodes[i].0));
            assert(nodes[i].0 != nodes[at].0);
        } else {
            if is_child_in(nodes, child, pid) {
                let j = choose|j: int|
                    0 <= j < nodes.len() && #[trigger] nodes[j].0 == child && nodes[j].2 == Some(
                        pid,
                    );
                assert(nodes[j].2 != Some(pid));
            }
            assert(parent != pid);
        }
    }
}

/// Whether `pid` is in the list of processes that wait for `parent` to be attached.
spec fn waits_under(pending: Map<u32, Vec<u32>>, parent: u32, pid: u32) -> bool {
    pending.contains_key(parent) && pending[parent]@.contains(pid)
}

/// What holds while the tree is being built.
///
/// `seen` are the processes that were taken from the input so far, `added` those of them
/// that are in the tree, `pending` the lists of those that wait for a parent. `open` are
/// nodes that were attached a moment ago and whose waiting children have not been looked at
/// yet. `loose[from..]` are children that were taken out of `pending` to be hung below
/// `current` and are not attached yet.
spec fn building(
    procs: Map<u32, ProcessMemoryInfo>,
    seen: Set<u32>,
    nodes: Seq<NodeRecord>,
    added: Set<u32>,
    pending: Map<u32, Vec<u32>>,
    open: Seq<u32>,
    current: u32,
    loose: Seq<u32>,
    from: int,
) -> bool {
    &&& !procs.contains_key(VIRTUAL_ROOT_PID)
    &&& well_formed(nodes)
    &&& describes(procs, nodes)
    &&& forall|pid: u32| #[trigger]
        added.contains(pid) <==> (pid != VIRTUAL_ROOT_PID && has_node(nodes, pid))
    &&& forall|pid: u32| #[trigger] seen.contains(pid) ==> procs.contains_key(pid)
    &&& forall|pid: u32| #[trigger] added.contains(pid) ==> seen.contains(pid)
    &&& forall|pid: u32| #[trigger]
        seen.contains(pid) && !added.contains(pid) ==> {
            &&& procs[pid].parent is Some
            &&& (waits_under(pending, procs[pid].parent->0, pid) || (procs[pid].parent->0 == current
                && exists|k: int| from <= k < loose.len() && loose[k] == pid))
        }
    &&& forall|parent: u32, i: int|
        pending.contains_key(parent) && 0 <= i < pending[parent]@.len() ==> {
            let pid = #[trigger] pending[parent]@[i];
            &&& seen.contains(pid)
            &&& !added.contains(pid)
            &&& procs[pid].parent == Some(parent)
        }
    &&& forall|parent: u32| #[trigger]
        pending.contains_key(parent) ==> pending[parent]@.no_duplicates()
    &&& forall|parent: u32| #[trigger]
        pending.contains_key(parent) && added.contains(parent) ==> open.contains(parent)
    &&& forall|i: int| 0 <= i < open.len() ==> added.contains(#[trigger] open[i])
    &&& 0 <= from
    &&& loose.no_duplicates()
    &&& forall|k: int|
        from <= k < loose.len() ==> {
            let pid = #[trigger] loose[k];
            &&& seen.contains(pid)
            &&& !added.contains(pid)
            &&& procs[pid].parent == Some(current)
        }
    &&& from < loose.len() ==> added.contains(current) && !pending.contains_key(current)
}

/// A process whose parent is attached is attached, and so is one that names no parent.
proof fn lemma_attached_step(procs: Map<u32, ProcessMemoryInfo>, pid: u32)
    requires
        procs.contains_key(pid),
        procs[pid].parent matches Some(parent) ==> is_attached(procs, parent),
    ensures
        is_attached(procs, pid),
{
    match procs[pid].parent {
        None => {
            assert(reaches_root(procs, pid, 0));
        },
        Some(parent) => {
            let steps = choose|steps: nat| reaches_root(procs, parent, steps);
            assert(reaches_root(procs, pid, steps + 1));
        },
    }
}

/// A node of the tree other than the virtual root stands for an attached process.
proof fn lemma_node_is_attached(procs: Map<u32, ProcessMemoryInfo>, nodes: Seq<NodeRecord>, id: u32)
    requires
        well_formed(nodes),
        describes(procs, nodes),
        has_node(nodes, id),
        id != VIRTUAL_ROOT_PID,
    ensures
        procs.contains_key(id),
        is_attached(procs, id),
{
    let i = choose|i: int| 0 <= i < nodes.len() && #[trigger] nodes[i].0 == id;
    assert(i >= 1);
    assert(nodes[i].0 == id);
}

/// The tree after a process was hung below the node at `at`, while the tree is being built.
proof fn lemma_building_attach(
    procs: Map<u32, ProcessMemoryInfo>,
    nodes: Seq<NodeRecord>,
    added: Set<u32>,
    at: int,
    pid: u32,
)
    requires
        !procs.contains_key(VIRTUAL_ROOT_PID),
        well_formed(nodes),
        describes(procs, nodes),
        forall|x: u32| #[trigger]
            added.contains(x) <==> (x != VIRTUAL_ROOT_PID && has_node(nodes, x)),
        procs.contains_key(pid),
        !added.contains(pid),
        procs[pid].parent matches Some(parent) ==> added.contains(parent),
        is_first_at(nodes, parent_in_tree(procs, pid), at),
    ensures
        well_formed(with_child(nodes, at, pid, procs[pid].name@)),
        describes(procs, with_child(nodes, at, pid, procs[pid].name@)),
        forall|x: u32| #[trigger]
            added.insert(pid).contains(x) <==> (x != VIRTUAL_ROOT_PID && has_node(
                with_child(nodes, at, pid, procs[pid].name@),
                x,
            )),
{
    let above = parent_in_tree(procs, pid);
    assert(nodes[at].0 == above);
    if above != VIRTUAL_ROOT_PID {
        lemma_node_is_attached(procs, nodes, above);
    }
    lemma_attached_step(procs, pid);
    lemma_attach(procs, nodes, at, pid);
}

/// One more child of `current` was hung into the tree.
proof fn lemma_building_child_attached(
    procs: Map<u32, ProcessMemoryInfo>,
    seen: Set<u32>,
    nodes: Seq<NodeRecord>,
    grown: Seq<NodeRecord>,
    added: Set<u32>,
    pending: Map<u32, Vec<u32>>,
    open: Seq<u32>,
    current: u32,
    loose: Seq<u32>,
    from: int,
)
    requires
        building(procs, seen, nodes, added, pending, open, current, loose, from),
        from < loose.len(),
        well_formed(grown),
        describes(procs, grown),
        forall|x: u32| #[trigger]
            added.insert(loose[from]).contains(x) <==> (x != VIRTUAL_ROOT_PID && has_node(
                grown,
                x,
            )),
    ensures
        building(
            procs,
            seen,
            grown,
            added.insert(loose[from]),
            pending,
            open.push(loose[from]),
            current,
            loose,
            from + 1,
        ),
{
    let child = loose[from];
    let added2 = added.insert(child);
    let open2 = open.push(child);
    assert forall|pid: u32| #[trigger] seen.contains(pid) && !added2.contains(pid) implies {
        &&& procs[pid].parent is Some
        &&& (waits_under(pending, procs[pid].parent->0, pid) || (procs[pid].parent->0 == current
            && exists|k: int| from + 1 <= k < loose.len() && loose[k] == pid))
    } by {
        assert(!added.contains(pid));
        if !waits_under(pending, procs[pid].parent->0, pid) {
            let k = choose|k: int| from <= k < loose.len() && loose[k] == pid;
            assert(k != from);
        }
    }
    assert forall|parent: u32, i: int|
        pending.contains_key(parent) && 0 <= i < pending[parent]@.len() implies {
        let pid = #[trigger] pending[parent]@[i];
        &&& seen.contains(pid)
        &&& !added2.contains(pid)
        &&& procs[pid].parent == Some(parent)
    } by {
        let pid = pending[parent]@[i];
        assert(!added.contains(pid));
        assert(procs[pid].parent == Some(parent));
    }
    assert forall|parent: u32| #[trigger]
        pending.contains_key(parent) && added2.contains(parent) implies open2.contains(parent) by {
        if parent == child {
            assert(open2[open.len() as int] == child);
        } else {
            assert(added.contains(parent));
            let i = choose|i: int| 0 <= i < open.len() && open[i] == parent;
            assert(open2[i] == parent);
        }
    }
    assert forall|i: int| 0 <= i < open2.len() implies added2.contains(#[trigger] open2[i]) by {
        if i < open.len() {
            assert(added.contains(open[i]));
        }
    }
    assert forall|k: int| from + 1 <= k < loose.len() implies {
        let pid = #[trigger] loose[k];
        &&& seen.contains(pid)
        &&& !added2.contains(pid)
        &&& procs[pid].parent == Some(current)
    } by {
        assert(loose[k] != loose[from]);
    }
}

/// A process was taken from the input and hung into the tree at once.
proof fn lemma_building_seen_attached(
    procs: Map<u32, ProcessMemoryInfo>,
    seen: Set<u32>,
    nodes: Seq<NodeRecord>,
    grown: Seq<NodeRecord>,
    added: Set<u32>,
    pending: Map<u32, Vec<u32>>,
    current: u32,
    loose: Seq<u32>,
    from: int,
    pid: u32,
)
    requires
        building(procs, seen, nodes, added, pending, Seq::empty(), current, loose, from),
        from >= loose.len(),
        procs.contains_key(pid),
        !seen.contains(pid),
        well_formed(grown),
        describes(procs, grown),
        forall|x: u32| #[trigger]
            added.insert(pid).contains(x) <==> (x != VIRTUAL_ROOT_PID && has_node(grown, x)),
    ensures
        building(
            procs,
            seen.insert(pid),
            grown,
            added.insert(pid),
            pending,
            seq![pid],
            current,
            loose,
            from,
        ),
{
    let seen2 = seen.insert(pid);
    let added2 = added.insert(pid);
    let open2 = seq![pid];
    assert forall|x: u32| #[trigger] seen2.contains(x) && !added2.contains(x) implies {
        &&& procs[x].parent is Some
        &&& (waits_under(pending, procs[x].parent->0, x) || (procs[x].parent->0 == current
            && exists|k: int| from <= k < loose.len() && loose[k] == x))
    } by {
        assert(seen.contains(x) && !added.contains(x));
    }
    assert forall|parent: u32, i: int|
        pending.contains_key(parent) && 0 <= i < pending[parent]@.len() implies {
        let x = #[trigger] pending[parent]@[i];
        &&& seen2.contains(x)
        &&& !added2.contains(x)
        &&& procs[x].parent == Some(parent)
    } by {
        let x = pending[parent]@[i];
        assert(seen.contains(x) && !added.contains(x));
    }
    assert forall|parent: u32| #[trigger]
        pending.contains_key(parent) && added2.contains(parent) implies open2.contains(parent) by {
        if parent == pid {
            assert(open2[0] == pid);
        } else {
            assert(added.contains(parent));
            assert(Seq::<u32>::empty().contains(parent));
        }
    }
}

/// A process was taken from the input and put on the list of those that wait for `parent`.
proof fn lemma_building_deferred(
    procs: Map<u32, ProcessMemoryInfo>,
    seen: Set<u32>,
    nodes: Seq<NodeRecord>,
    added: Set<u32>,
    pending: Map<u32, Vec<u32>>,
    current: u32,
    loose: Seq<u32>,
    from: int,
    pid: u32,
    parent: u32,
    list: Vec<u32>,
)
    requires
        building(procs, seen, nodes, added, pending, Seq::empty(), current, loose, from),
        from >= loose.len(),
        procs.contains_key(pid),
        !seen.contains(pid),
        procs[pid].parent == Some(parent),
        !added.contains(parent),
        list@ == (if pending.contains_key(parent) {
            pending[parent]@
        } else {
            Seq::empty()
        }).push(pid),
    ensures
        building(
            procs,
            seen.insert(pid),
            nodes,
            added,
            pending.insert(parent, list),
            Seq::empty(),
            current,
            loose,
            from,
        ),
{
    let seen2 = seen.insert(pid);
    let pending2 = pending.insert(parent, list);
    let before: Seq<u32> = if pending.contains_key(parent) {
        pending[parent]@
    } else {
        Seq::empty()
    };
    assert(forall|i: int| 0 <= i < before.len() ==> list@[i] == before[i]);
    assert(list@[before.len() as int] == pid);
    assert forall|x: u32| #[trigger] seen2.contains(x) && !added.contains(x) implies {
        &&& procs[x].parent is Some
        &&& (waits_under(pending2, procs[x].parent->0, x) || (procs[x].parent->0 == current
            && exists|k: int| from <= k < loose.len() && loose[k] == x))
    } by {
        if x == pid {
            assert(pending2[parent]@[before.len() as int] == pid);
        } else {
            assert(seen.contains(x));
            let above = procs[x].parent->0;
            assert(waits_under(pending, above, x));
            if above == parent {
                let i = choose|i: int| 0 <= i < before.len() && before[i] == x;
                assert(list@[i] == x);
            }
        }
    }
    assert forall|above: u32, i: int|
        pending2.contains_key(above) && 0 <= i < pending2[above]@.len() implies {
        let x = #[trigger] pending2[above]@[i];
        &&& seen2.contains(x)
        &&& !added.contains(x)
        &&& procs[x].parent == Some(above)
    } by {
        if above == parent {
            if i < before.len() {
                assert(pending[parent]@[i] == list@[i]);
            }
        } else {
            let x = pending[above]@[i];
            assert(seen.contains(x));
        }
    }
    assert forall|above: u32| #[trigger]
        pending2.contains_key(above) implies pending2[above]@.no_duplicates() by {
        if above == parent {
            assert forall|a: int, b: int| 0 <= a < b < list@.len() implies list@[a] != list@[b] by {
                if b < before.len() {
                    assert(before.no_duplicates());
                } else {
                    assert(seen.contains(pending[parent]@[a]));
                }
            }
        }
    }
    assert forall|above: u32| #[trigger]
        pending2.contains_key(above) && added.contains(above) implies Seq::<u32>::empty().contains(
        above,
    ) by {
        assert(pending.contains_key(above));
    }
}

/// The last of the open nodes has nobody waiting for it.
proof fn lemma_building_closed(
    procs: Map<u32, ProcessMemoryInfo>,
    seen: Set<u32>,
    nodes: Seq<NodeRecord>,
    added: Set<u32>,
    pending: Map<u32, Vec<u32>>,
    open: Seq<u32>,
    current: u32,
    loose: Seq<u32>,
    from: int,
)
    requires
        building(procs, seen, nodes, added, pending, open, current, loose, from),
        open.len() > 0,
        !pending.contains_key(open.last()),
    ensures
        building(procs, seen, nodes, added, pending, open.drop_last(), current, loose, from),
{
    let rest = open.drop_last();
    assert forall|parent: u32| #[trigger]
        pending.contains_key(parent) && added.contains(parent) implies rest.contains(parent) by {
        let i = choose|i: int| 0 <= i < open.len() && open[i] == parent;
        assert(rest[i] == parent);
    }
    assert forall|i: int| 0 <= i < rest.len() implies added.contains(#[trigger] rest[i]) by {
        assert(rest[i] == open[i]);
    }
}

/// The children that waited for the last of the open nodes were taken out of `pending` to
/// be hung below it.
proof fn lemma_building_taken(
    procs: Map<u32, ProcessMemoryInfo>,
    seen: Set<u32>,
    nodes: Seq<NodeRecord>,
    added: Set<u32>,
    pending: Map<u32, Vec<u32>>,
    open: Seq<u32>,
    current: u32,
    loose: Seq<u32>,
    from: int,
)
    requires
        building(procs, seen, nodes, added, pending, open, current, loose, from),
        from >= loose.len(),
        open.len() > 0,
        pending.contains_key(open.last()),
    ensures
        building(
            procs,
            seen,
            nodes,
            added,
            pending.remove(open.last()),
            open.drop_last(),
            open.last(),
            pending[open.last()]@,
            0,
        ),
{
    let top = open.last();
    let rest = open.drop_last();
    let pending2 = pending.remove(top);
    let children = pending[top]@;
    assert(added.contains(open[open.len() - 1]));
    assert forall|pid: u32| #[trigger] seen.contains(pid) && !added.contains(pid) implies {
        &&& procs[pid].parent is Some
        &&& (waits_under(pending2, procs[pid].parent->0, pid) || (procs[pid].parent->0 == top
            && exists|k: int| 0 <= k < children.len() && children[k] == pid))
    } by {
        assert(waits_under(pending, procs[pid].parent->0, pid));
    }
    assert forall|parent: u32, i: int|
        pending2.contains_key(parent) && 0 <= i < pending2[parent]@.len() implies {
        let pid = #[trigger] pending2[parent]@[i];
        &&& seen.contains(pid)
        &&& !added.contains(pid)
        &&& procs[pid].parent == Some(parent)
    } by {
        let pid = pending[parent]@[i];
        assert(seen.contains(pid));
    }
    assert forall|parent: u32| #[trigger]
        pending2.contains_key(parent) && added.contains(parent) implies rest.contains(parent) by {
        assert(pending.contains_key(parent));
        let i = choose|i: int| 0 <= i < open.len() && open[i] == parent;
        assert(rest[i] == parent);
    }
    assert forall|i: int| 0 <= i < rest.len() implies added.contains(#[trigger] rest[i]) by {
        assert(rest[i] == open[i]);
    }
    assert forall|k: int| 0 <= k < children.len() implies {
        let pid = #[trigger] children[k];
        &&& seen.contains(pid)
        &&& !added.contains(pid)
        &&& procs[pid].parent == Some(top)
    } by {
        let pid = pending[top]@[k];
        assert(seen.contains(pid));
    }
}

/// Hangs the process `pid` below the node `above`, under its name, and notes it as added.
fn attach_process(
    tree: &mut Tree<u32, String>,
    added: &mut HashSet<u32>,
    processes: &HashMap<u32, ProcessMemoryInfo>,
    pid: u32,
    above: u32,
)
    requires
        !processes@.contains_key(VIRTUAL_ROOT_PID),
        well_formed(tree_nodes(*old(tree))),
        describes(processes@, tree_nodes(*old(tree))),
        forall|x: u32| #[trigger]
            old(added)@.contains(x) <==> (x != VIRTUAL_ROOT_PID && has_node(
                tree_nodes(*old(tree)),
                x,
            )),
        processes@.contains_key(pid),
        !old(added)@.contains(pid),
        above == parent_in_tree(processes@, pid),
        processes@[pid].parent matches Some(parent) ==> old(added)@.contains(parent),
    ensures
        final(added)@ == old(added)@.insert(pid),
        keeps_nodes(tree_nodes(*old(tree)), tree_nodes(*final(tree))),
        well_formed(tree_nodes(*final(tree))),
        describes(processes@, tree_nodes(*final(tree))),
        forall|x: u32| #[trigger]
            final(added)@.contains(x) <==> (x != VIRTUAL_ROOT_PID && has_node(
                tree_nodes(*final(tree)),
                x,
            )),
{
    let label = match processes.get(&pid) {
        Some(process) => process.name.clone(),
        None => String::new(),
    };
    proof {
        let nodes = tree_nodes(*tree);
        if above == VIRTUAL_ROOT_PID {
            assert(nodes[0].0 == above);
        } else {
            assert(old(added)@.contains(above));
        }
        assert(has_node(nodes, above));
    }
    let ghost before = tree_nodes(*tree);
    let attached = add_node(tree, pid, label, Some(above));
    proof {
        assert(attached is Some);
        let at = choose|at: int|
            is_first_at(before, above, at) && tree_nodes(*tree) == with_child(
                before,
                at,
                pid,
                label@,
            );
        lemma_building_attach(processes@, before, old(added)@, at, pid);
        assert(keeps_nodes(before, with_child(before, at, pid, label@)));
    }
    added.insert(pid);
}

/// Whether the waiting lists `now` are those of `at_entry` without some whose parents are
/// in `added`: no list was changed, and none was taken out but for an added parent.
spec fn lists_kept(
    at_entry: Map<u32, Vec<u32>>,
    now: Map<u32, Vec<u32>>,
    added: Set<u32>,
) -> bool {
    &&& forall|parent: u32| #[trigger]
        now.contains_key(parent) ==> at_entry.contains_key(parent) && now[parent]
            == at_entry[parent]
    &&& forall|parent: u32| #[trigger]
        at_entry.contains_key(parent) && !now.contains_key(parent) ==> added.contains(parent)
}

/// Hangs everything that waits for `parent_id`, and with each node that it hangs what waits
/// for that node, into the tree. It keeps a stack of the nodes whose waiting lists are still
/// to be looked at, so no chain of ancestors is too long for it.
///
/// The nodes that the tree held stay where they are, and what was added stays added. The
/// waiting lists of the nodes that were hung in are taken out; every other list is left as
/// it was, and none is put in. Where nothing waits for `parent_id`, nothing changes at all.
fn process_pending(
    tree: &mut Tree<u32, String>,
    pending_children: &mut HashMap<u32, Vec<u32>>,
    added: &mut HashSet<u32>,
    parent_id: u32,
    processes: &HashMap<u32, ProcessMemoryInfo>,
    Ghost(seen): Ghost<Set<u32>>,
)
    requires
        building(
            processes@,
            seen,
            tree_nodes(*old(tree)),
            old(added)@,
            old(pending_children)@,
            seq![parent_id],
            0,
            Seq::empty(),
            0,
        ),
    ensures
        building(
            processes@,
            seen,
            tree_nodes(*final(tree)),
            final(added)@,
            final(pending_children)@,
            Seq::empty(),
            0,
            Seq::empty(),
            0,
        ),
        keeps_nodes(tree_nodes(*old(tree)), tree_nodes(*final(tree))),
        forall|pid: u32| old(added)@.contains(pid) ==> final(added)@.contains(pid),
        forall|parent: u32|
            final(pending_children)@.contains_key(parent) <==> old(
                pending_children,
            )@.contains_key(parent) && !final(added)@.contains(parent),
        forall|parent: u32|
            final(pending_children)@.contains_key(parent) ==> final(pending_children)@[parent]
                == old(pending_children)@[parent],
        !old(pending_children)@.contains_key(parent_id) ==> {
            &&& tree_nodes(*final(tree)) == tree_nodes(*old(tree))
            &&& final(added)@ == old(added)@
            &&& final(pending_children)@ == old(pending_children)@
        },
{
    let ghost nodes_at_entry = tree_nodes(*tree);
    let ghost added_at_entry = added@;
    let ghost pending_at_entry = pending_children@;
    let mut stack: Vec<u32> = Vec::new();
    stack.push(parent_id);
    let ghost mut current: u32 = 0;
    let ghost mut loose: Seq<u32> = Seq::empty();
    proof {
        assert(stack@ =~= seq![parent_id]);
    }
    while stack.len() > 0
        invariant
            keeps_nodes(nodes_at_entry, tree_nodes(*tree)),
            forall|pid: u32| added_at_entry.contains(pid) ==> added@.contains(pid),
            lists_kept(pending_at_entry, pending_children@, added@),
            !pending_at_entry.contains_key(parent_id) ==> {
                &&& tree_nodes(*tree) == nodes_at_entry
                &&& added@ == added_at_entry
                &&& pending_children@ == pending_at_entry
                &&& (stack@.len() == 0 || stack@ == seq![parent_id])
            },
            building(
                processes@,
                seen,
                tree_nodes(*tree),
                added@,
                pending_children@,
                stack@,
                current,
                loose,
                loose.len() as int,
            ),
        decreases pending_children@.dom().len(), stack@.len(),
    {
        let ghost open = stack@;
        let ghost waiting = pending_children@;
        let top = stack.pop().unwrap();
        match pending_children.remove(&top) {
            Some(children) => {
                proof {
                    lemma_building_taken(
                        processes@,
                        seen,
                        tree_nodes(*tree),
                        added@,
                        waiting,
                        open,
                        current,
                        loose,
                        loose.len() as int,
                    );
                    current = top;
                    loose = children@;
                    assert(waiting.dom().finite());
                    assert(pending_children@ == waiting.remove(top));
                    assert(pending_children@.dom() =~= waiting.dom().remove(top));
                    assert(open[open.len() - 1] == top);
                    assert(added@.contains(top));
                }
                let mut i: usize = 0;
                while i < children.len()
                    invariant
                        0 <= i <= children.len(),
                        loose == children@,
                        current == top,
                        pending_at_entry.contains_key(parent_id),
                        keeps_nodes(nodes_at_entry, tree_nodes(*tree)),
                        forall|pid: u32| added_at_entry.contains(pid) ==> added@.contains(pid),
                        lists_kept(pending_at_entry, pending_children@, added@),

                        pending_children@.dom().len() < waiting.dom().len(),
                        building(
                            processes@,
                            seen,
                            tree_nodes(*tree),
                            added@,
                            pending_children@,
                            stack@,
                            current,
                            loose,
                            i as int,
                        ),
                    decreases children.len() - i,
                {
                    let child = children[i];
                    let ghost nodes = tree_nodes(*tree);
                    let ghost members = added@;
                    let ghost open_now = stack@;
                    proof {
                        assert(loose[i as int] == child);
                        assert(seen.contains(child));
                        assert(processes@[child].parent == Some(top));
                    }
                    attach_process(tree, added, processes, child, top);
                    stack.push(child);
                    proof {
                        lemma_building_child_attached(
                            processes@,
                            seen,
                            nodes,
                            tree_nodes(*tree),
                            members,
                            pending_children@,
                            open_now,
                            current,
                            loose,
                            i as int,
                        );
                    }
                    i += 1;
                }
            },
            None => {
                proof {
                    lemma_building_closed(
                        processes@,
                        seen,
                        tree_nodes(*tree),
                        added@,
                        waiting,
                        open,
                        current,
                        loose,
                        loose.len() as int,
                    );
                    assert(pending_children@ =~= waiting);
                }
            },
        }
    }
    proof {
        assert(stack@ =~= Seq::empty());
        assert forall|parent: u32|
            pending_children@.contains_key(parent) <==> pending_at_entry.contains_key(parent)
                && !added@.contains(parent) by {
            if pending_children@.contains_key(parent) && added@.contains(parent) {
                assert(Seq::<u32>::empty().contains(parent));
            }
        }
        lemma_building_settled(
            processes@,
            seen,
            tree_nodes(*tree),
            added@,
            pending_children@,
            current,
            loose,
        );
    }
}

/// Once nothing is open and nothing loose, it no longer matters which node was looked at
/// last.
proof fn lemma_building_settled(
    procs: Map<u32, ProcessMemoryInfo>,
    seen: Set<u32>,
    nodes: Seq<NodeRecord>,
    added: Set<u32>,
    pending: Map<u32, Vec<u32>>,
    current: u32,
    loose: Seq<u32>,
)
    requires
        building(
            procs,
            seen,
            nodes,
            added,
            pending,
            Seq::empty(),
            current,
            loose,
            loose.len() as int,
        ),
    ensures
        building(procs, seen, nodes, added, pending, Seq::empty(), 0, Seq::empty(), 0),
{
}

/// Once every process was taken from the input, every attached process is in the tree.
proof fn lemma_reached_is_added(
    procs: Map<u32, ProcessMemoryInfo>,
    seen: Set<u32>,
    nodes: Seq<NodeRecord>,
    added: Set<u32>,
    pending: Map<u32, Vec<u32>>,
    pid: u32,
    steps: nat,
)
    requires
        building(procs, seen, nodes, added, pending, Seq::empty(), 0, Seq::empty(), 0),
        forall|x: u32| procs.contains_key(x) ==> seen.contains(x),
        reaches_root(procs, pid, steps),
    ensures
        added.contains(pid),
    decreases steps,
{
    assert(seen.contains(pid));
    if !added.contains(pid) {
        let parent = procs[pid].parent->0;
        assert(waits_under(pending, parent, pid));
        lemma_reached_is_added(procs, seen, nodes, added, pending, parent, (steps - 1) as nat);
        assert(Seq::<u32>::empty().contains(parent));
    }
}

/// Builds the hierarchy of `processes`, taking them in the order that `order` gives.
///
/// A process that names no parent hangs below the virtual root. One whose parent is in the
/// tree already hangs below that parent. Any other waits until its parent arrives, and is
/// then hung in together with all that waited for it in turn. What still waits at the end
/// has a parent that is no process, or an ancestor like that, and stays out of the tree.
///
/// The result does not depend on `order` but for the order of the nodes and of each
/// node's children. A process with the id of the virtual root makes the call fail.
pub fn build_tree_in_order(processes: &HashMap<u32, ProcessMemoryInfo>, order: &Vec<u32>) -> (built:
    Result<Tree<u32, String>, TreeError>)
    requires
        enumerates(order@, processes@.dom()),
    ensures
        match built {
            Ok(tree) => is_process_tree(processes@, tree_nodes(tree)),
            Err(error) => error == TreeError::VirtualRootConflict && processes@.contains_key(
                VIRTUAL_ROOT_PID,
            ),
        },
{
    if processes.contains_key(&VIRTUAL_ROOT_PID) {
        return Err(TreeError::VirtualRootConflict);
    }
    let mut tree = new_tree("Process Tree");
    let root = add_node(&mut tree, VIRTUAL_ROOT_PID, "virtual root".to_owned(), None);
    proof {
        assert(!has_root(Seq::<NodeRecord>::empty()));
        assert(root is Some);
    }
    let mut pending_children: HashMap<u32, Vec<u32>> = HashMap::new();
    let mut added: HashSet<u32> = HashSet::new();
    let ghost mut seen: Set<u32> = Set::empty();
    proof {
        let nodes = tree_nodes(tree);
        assert(nodes.len() == 1);
        assert(nodes[0] == (
            VIRTUAL_ROOT_PID,
            Some("virtual root"@),
            None::<u32>,
            Seq::<u32>::empty(),
        ));
        assert forall|i: int, child: u32| 0 <= i < nodes.len() implies ((
        #[trigger] nodes[i]).3.contains(child) <==> #[trigger] is_child_in(
            nodes,
            child,
            nodes[i].0,
        )) by {
            if is_child_in(nodes, child, nodes[i].0) {
                let j = choose|j: int|
                    0 <= j < nodes.len() && #[trigger] nodes[j].0 == child && nodes[j].2 == Some(
                        nodes[i].0,
                    );
                assert(nodes[j].2 is None);
            }
        }
        assert forall|pid: u32| !(pid != VIRTUAL_ROOT_PID && has_node(nodes, pid)) by {
            if has_node(nodes, pid) {
                let i = choose|i: int| 0 <= i < nodes.len() && #[trigger] nodes[i].0 == pid;
                assert(i == 0);
            }
        }
    }
    let mut k: usize = 0;
    while k < order.len()
        invariant
            0 <= k <= order.len(),
            enumerates(order@, processes@.dom()),
            forall|x: u32| seen.contains(x) <==> exists|j: int| 0 <= j < k && order@[j] == x,
            building(
                processes@,
                seen,
                tree_nodes(tree),
                added@,
                pending_children@,
                Seq::empty(),
                0,
                Seq::empty(),
                0,
            ),
        decreases order.len() - k,
    {
        let pid = order[k];
        let ghost nodes = tree_nodes(tree);
        let ghost members = added@;
        let ghost waiting = pending_children@;
        let ghost seen_before = seen;
        proof {
            assert(order@.contains(pid));
            assert(processes@.contains_key(pid));
            assert(!seen.contains(pid)) by {
                if seen.contains(pid) {
                    let j = choose|j: int| 0 <= j < k && order@[j] == pid;
                    assert(order@[j] == order@[k as int]);
                }
            }
            seen = seen.insert(pid);
            assert forall|x: u32| seen.contains(x) <==> exists|j: int|
                0 <= j < k + 1 && order@[j] == x by {
                if seen_before.contains(x) {
                    let j = choose|j: int| 0 <= j < k && order@[j] == x;
                    assert(0 <= j < k + 1 && order@[j] == x);
                }
                if x == pid {
                    assert(order@[k as int] == x);
                }
            }
        }
        let above: Option<u32> = match processes.get(&pid) {
            Some(process) => match process.parent {
                None => Some(VIRTUAL_ROOT_PID),
                Some(parent_pid) => if added.contains(&parent_pid) {
                    Some(parent_pid)
                } else {
                    let mut waiting_list = match pending_children.remove(&parent_pid) {
                        Some(list) => list,
                        None => Vec::new(),
                    };
                    waiting_list.push(pid);
                    proof {
                        lemma_building_deferred(
                            processes@,
                            seen_before,
                            nodes,
                            members,
                            waiting,
                            0,
                            Seq::empty(),
                            0,
                            pid,
                            parent_pid,
                            waiting_list,
                        );
                    }
                    pending_children.insert(parent_pid, waiting_list);
                    proof {
                        assert(pending_children@ =~= waiting.insert(parent_pid, waiting_list));
                    }
                    None
                },
            },
            None => None,
        };
        match above {
            Some(parent_node) => {
                attach_process(&mut tree, &mut added, processes, pid, parent_node);
                proof {
                    lemma_building_seen_attached(
                        processes@,
                        seen_before,
                        nodes,
                        tree_nodes(tree),
                        members,
                        waiting,
                        0,
                        Seq::empty(),
                        0,
                        pid,
                    );
                }
                process_pending(
                    &mut tree,
                    &mut pending_children,
                    &mut added,
                    pid,
                    processes,
                    Ghost(seen),
                );
            },
            None => {},
        }
        k += 1;
    }
    proof {
        assert forall|x: u32| processes@.contains_key(x) implies seen.contains(x) by {
            assert(order@.contains(x));
            let j = choose|j: int| 0 <= j < order@.len() && order@[j] == x;
            assert(0 <= j < k && order@[j] == x);
        }
        assert forall|pid: u32| is_attached(processes@, pid) implies has_node(
            tree_nodes(tree),
            pid,
        ) by {
            let steps = choose|steps: nat| reaches_root(processes@, pid, steps);
            lemma_reached_is_added(
                processes@,
                seen,
                tree_nodes(tree),
                added@,
                pending_children@,
                pid,
                steps,
            );
        }
    }
    Ok(tree)
}

/// Builds the hierarchy of `processes`: a tree below a virtual root that holds exactly the
/// attached processes, each under its parent and labelled with its name.
///
/// Fails exactly where a process has the id of the virtual root.
pub fn build_tree(processes: &HashMap<u32, ProcessMemoryInfo>) -> (built: Result<
    Tree<u32, String>,
    TreeError,
>)
    ensures
        match built {
            Ok(tree) => is_process_tree(processes@, tree_nodes(tree)),
            Err(error) => error == TreeError::VirtualRootConflict && processes@.contains_key(
                VIRTUAL_ROOT_PID,
            ),
        },
{
    let order = pids_of(processes);
    build_tree_in_order(processes, &order)
}

/// A process is attached exactly if it names no parent or names one that is attached. So a
/// process whose parent is no process of the input stays out of the tree, and with it all
/// that descend from it.
pub proof fn lemma_attached_through_parent(procs: Map<u32, ProcessMemoryInfo>, pid: u32)
    ensures
        is_attached(procs, pid) <==> procs.contains_key(pid) && (procs[pid].parent matches Some(
            parent,
        ) ==> is_attached(procs, parent)),
{
    if is_attached(procs, pid) {
        let steps = choose|steps: nat| reaches_root(procs, pid, steps);
        match procs[pid].parent {
            Some(parent) => {
                assert(reaches_root(procs, parent, (steps - 1) as nat));
            },
            None => {},
        }
    }
    if procs.contains_key(pid) && (procs[pid].parent matches Some(parent) ==> is_attached(
        procs,
        parent,
    )) {
        lemma_attached_step(procs, pid);
    }
}

/// A node of a hierarchy of `procs` other than the virtual root is an attached process,
/// and every attached process is such a node.
proof fn lemma_nodes_are_the_attached(
    procs: Map<u32, ProcessMemoryInfo>,
    nodes: Seq<NodeRecord>,
    id: u32,
)
    requires
        is_process_tree(procs, nodes),
    ensures
        has_node(nodes, id) <==> (id == VIRTUAL_ROOT_PID || is_attached(procs, id)),
{
    if has_node(nodes, id) && id != VIRTUAL_ROOT_PID {
        lemma_node_is_attached(procs, nodes, id);
    }
    if id == VIRTUAL_ROOT_PID {
        assert(nodes[0].0 == id);
    }
}

/// Order independence of the tree: whatever order the processes are taken in, the
/// hierarchy holds the same nodes, each with the same label, the same parent and the same
/// children. Only the order of the nodes and of each node's children is left open.
pub proof fn lemma_hierarchy_is_unique(
    procs: Map<u32, ProcessMemoryInfo>,
    first: Seq<NodeRecord>,
    second: Seq<NodeRecord>,
)
    requires
        is_process_tree(procs, first),
        is_process_tree(procs, second),
    ensures
        first.len() == second.len(),
        forall|id: u32| has_node(first, id) <==> has_node(second, id),
        forall|i: int, j: int|
            0 <= i < first.len() && 0 <= j < second.len() && (#[trigger] first[i]).0 == (
            #[trigger] second[j]).0 ==> {
                &&& first[i].1 == second[j].1
                &&& first[i].2 == second[j].2
                &&& first[i].3.len() == second[j].3.len()
                &&& forall|child: u32| first[i].3.contains(child) <==> second[j].3.contains(child)
            },
{
    assert forall|id: u32| has_node(first, id) <==> has_node(second, id) by {
        lemma_nodes_are_the_attached(procs, first, id);
        lemma_nodes_are_the_attached(procs, second, id);
    }
    let first_ids = first.map_values(|node: NodeRecord| node.0);
    let second_ids = second.map_values(|node: NodeRecord| node.0);
    assert(first_ids.no_duplicates()) by {
        assert forall|a: int, b: int| 0 <= a < b < first_ids.len() implies first_ids[a]
            != first_ids[b] by {
            assert(first[a].0 != first[b].0);
        }
    }
    assert(second_ids.no_duplicates()) by {
        assert forall|a: int, b: int| 0 <= a < b < second_ids.len() implies second_ids[a]
            != second_ids[b] by {
            assert(second[a].0 != second[b].0);
        }
    }
    assert(first_ids.to_set() =~= second_ids.to_set()) by {
        assert forall|id: u32| first_ids.to_set().contains(id) <==> second_ids.to_set().contains(
            id,
        ) by {
            if first_ids.to_set().contains(id) {
                let a = choose|a: int| 0 <= a < first_ids.len() && first_ids[a] == id;
                assert(first[a].0 == id);
                assert(has_node(second, id));
                let b = choose|b: int| 0 <= b < second.len() && #[trigger] second[b].0 == id;
                assert(second_ids[b] == id);
            }
            if second_ids.to_set().contains(id) {
                let b = choose|b: int| 0 <= b < second_ids.len() && second_ids[b] == id;
                assert(second[b].0 == id);
                assert(has_node(first, id));
                let a = choose|a: int| 0 <= a < first.len() && #[trigger] first[a].0 == id;
                assert(first_ids[a] == id);
            }
        }
    }
    first_ids.unique_seq_to_set();
    second_ids.unique_seq_to_set();
    assert forall|child: u32, above: u32|
        is_child_in(first, child, above) <==> is_child_in(second, child, above) by {
        if is_child_in(first, child, above) {
            lemma_same_children(procs, first, second, child, above);
        }
        if is_child_in(second, child, above) {
            lemma_same_children(procs, second, first, child, above);
        }
    }
    assert forall|i: int, j: int|
        0 <= i < first.len() && 0 <= j < second.len() && (#[trigger] first[i]).0 == (
        #[trigger] second[j]).0 implies {
        &&& first[i].1 == second[j].1
        &&& first[i].2 == second[j].2
        &&& first[i].3.len() == second[j].3.len()
        &&& forall|child: u32| first[i].3.contains(child) <==> second[j].3.contains(child)
    } by {
        if i == 0 {
            if j != 0 {
                assert(second[0].0 != second[j].0);
            }
        } else {
            if j == 0 {
                assert(first[0].0 != first[i].0);
            }
        }
        assert forall|child: u32| first[i].3.contains(child) <==> second[j].3.contains(child) by {
            assert(first[i].3.contains(child) <==> is_child_in(first, child, first[i].0));
            assert(second[j].3.contains(child) <==> is_child_in(second, child, second[j].0));
        }
        assert(first[i].3.to_set() =~= second[j].3.to_set());
        first[i].3.unique_seq_to_set();
        second[j].3.unique_seq_to_set();
    }
}

/// A node that hangs below `above` in one hierarchy of `procs` does so in every other.
proof fn lemma_same_children(
    procs: Map<u32, ProcessMemoryInfo>,
    first: Seq<NodeRecord>,
    second: Seq<NodeRecord>,
    child: u32,
    above: u32,
)
    requires
        is_process_tree(procs, first),
        is_process_tree(procs, second),
        is_child_in(first, child, above),
    ensures
        is_child_in(second, child, above),
{
    let a = choose|a: int|
        0 <= a < first.len() && #[trigger] first[a].0 == child && first[a].2 == Some(above);
    assert(a >= 1);
    assert(is_attached(procs, first[a].0));
    assert(has_node(second, child));
    let b = choose|b: int| 0 <= b < second.len() && #[trigger] second[b].0 == child;
    assert(b >= 1);
    assert(second[b].2 == Some(parent_in_tree(procs, second[b].0)));
}

} // verus!
