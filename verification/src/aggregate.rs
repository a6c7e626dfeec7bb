//! Rolling memory up the process hierarchy: every process's total is its own memory plus
//! the totals of its children.

use crate::hierarchy::{
    children_ids, has_node, is_child_in, is_first_at, is_process_tree, lemma_hierarchy_is_unique,
    tree_nodes, well_formed, NodeRecord, VIRTUAL_ROOT_PID,
};
use crate::memory::ProcessMemoryInfo;
use crate::utils::Storage;
use std::collections::HashMap;
use tree_ds::prelude::Tree;
use vstd::prelude::*;
use vstd::std_specs::hash::group_hash_axioms;

verus! {

broadcast use group_hash_axioms;

/// The id of the first process of the system. Its own total is never rolled up: what hangs
/// below it is counted for each child, not for the process itself.
pub const INIT_PID: u32 = 1;

/// The memory that `pid` holds itself: zero bytes where `procs` has no such process.
pub open spec fn own_memory(procs: Map<u32, ProcessMemoryInfo>, pid: u32) -> Storage {
    if procs.contains_key(pid) {
        procs[pid].memory
    } else {
        Storage::spec_from_bytes(0)
    }
}

/// What `pid` adds to the total of its parent, in bytes: its recorded total; for the first
/// process its own memory alone; nothing where `procs` has no such process.
pub open spec fn handed_up(procs: Map<u32, ProcessMemoryInfo>, pid: u32) -> nat {
    if !procs.contains_key(pid) {
        0
    } else if pid == INIT_PID {
        procs[pid].memory.spec_to_bytes() as nat
    } else {
        procs[pid].total_memory.spec_to_bytes() as nat
    }
}

/// The sum of what the processes in `children` hand up.
pub open spec fn sum_handed_up(procs: Map<u32, ProcessMemoryInfo>, children: Seq<u32>) -> nat
    decreases children.len(),
{
    if children.len() == 0 {
        0
    } else {
        sum_handed_up(procs, children.drop_last()) + handed_up(procs, children.last())
    }
}

/// A byte count held to what 64 bits can hold: sums that would pass the largest 64-bit
/// value stay at that value.
pub open spec fn capped(bytes: nat) -> u64 {
    if bytes > u64::MAX {
        u64::MAX
    } else {
        bytes as u64
    }
}

/// The total of `pid` when its children are `children`: its own memory plus what the
/// children hand up, capped, in the largest unit that fits.
pub open spec fn subtree_total(
    procs: Map<u32, ProcessMemoryInfo>,
    pid: u32,
    children: Seq<u32>,
) -> Storage {
    Storage::spec_from_bytes(
        capped(own_memory(procs, pid).spec_to_bytes() as nat + sum_handed_up(procs, children)),
    )
}

/// `procs` with `total` written into the record of `pid`, where there is one.
pub open spec fn recorded_total(
    procs: Map<u32, ProcessMemoryInfo>,
    pid: u32,
    total: Storage,
) -> Map<u32, ProcessMemoryInfo> {
    if procs.contains_key(pid) {
        procs.insert(pid, ProcessMemoryInfo { total_memory: total, ..procs[pid] })
    } else {
        procs
    }
}

/// What one call of `roll_up_node` for `pid` returns and leaves behind.
pub open spec fn calculated(
    nodes: Seq<NodeRecord>,
    before: Map<u32, ProcessMemoryInfo>,
    pid: u32,
    total: Storage,
    after: Map<u32, ProcessMemoryInfo>,
) -> bool {
    if !has_node(nodes, pid) {
        total == Storage::spec_from_bytes(0) && after == before
    } else if pid == INIT_PID {
        total == own_memory(before, pid) && after == before
    } else {
        exists|at: int|
            is_first_at(nodes, pid, at) && total == subtree_total(before, pid, nodes[at].3) && after
                == recorded_total(before, pid, total)
    }
}

/// Adding one more child to a capped sum.
proof fn lemma_capped_step(sum: nat, more: u64)
    ensures
        capped(sum + more as nat) == (if capped(sum) + more > u64::MAX {
            u64::MAX
        } else {
            (capped(sum) + more) as u64
        }),
{
}

/// What the process `pid` hands up to its parent, in bytes.
pub fn handed_up_bytes(processes: &HashMap<u32, ProcessMemoryInfo>, pid: u32) -> (bytes: u64)
    ensures
        bytes == handed_up(processes@, pid),
{
    match processes.get(&pid) {
        Some(process) => if pid == INIT_PID {
            process.memory.to_bytes()
        } else {
            process.total_memory.to_bytes()
        },
        None => 0,
    }
}

/// Computes the total of the one node `pid` from its own memory and from what its children
/// hand up, writes it into the record of `pid` and returns it.
///
/// The totals of the children are read as they stand: this is the step that the walks
/// take for each node, children first. A node that the tree does not hold gives zero bytes
/// and changes nothing. For the first process the own memory is returned and nothing is
/// written. A node without a record counts as zero bytes of its own. Sums that would pass
/// 64 bits stay at the largest value.
pub fn roll_up_node(
    tree: &Tree<u32, String>,
    processes: &mut HashMap<u32, ProcessMemoryInfo>,
    pid: u32,
) -> (total: Storage)
    ensures
        calculated(tree_nodes(*tree), old(processes)@, pid, total, final(processes)@),
{
    let children = match children_ids(tree, pid) {
        Some(children) => children,
        None => {
            return Storage::from_bytes(0);
        },
    };
    let ghost nodes = tree_nodes(*tree);
    let ghost at = choose|at: int| is_first_at(nodes, pid, at) && children@ == nodes[at].3;
    proof {
        assert(nodes[at].0 == pid);
        assert(has_node(nodes, pid));
    }
    let self_memory = match processes.get(&pid) {
        Some(process) => process.memory,
        None => Storage::from_bytes(0),
    };
    if pid == INIT_PID {
        return self_memory;
    }
    let mut children_total: u64 = 0;
    let mut i: usize = 0;
    while i < children.len()
        invariant
            0 <= i <= children.len(),
            children_total == capped(sum_handed_up(processes@, children@.take(i as int))),
        decreases children.len() - i,
    {
        let child_bytes = handed_up_bytes(processes, children[i]);
        proof {
            let upto = children@.take(i as int + 1);
            assert(upto.drop_last() =~= children@.take(i as int));
            assert(upto.last() == children@[i as int]);
            lemma_capped_step(sum_handed_up(processes@, children@.take(i as int)), child_bytes);
        }
        children_total = children_total.saturating_add(child_bytes);
        i += 1;
    }
    proof {
        assert(children@.take(children@.len() as int) =~= children@);
        lemma_capped_step(sum_handed_up(processes@, children@), self_memory.spec_to_bytes());
        crate::utils::lemma_round_trip(0);
    }
    let total = Storage::from_bytes(children_total.saturating_add(self_memory.to_bytes()));
    match processes.remove(&pid) {
        Some(process) => {
            let mut process = process;
            process.total_memory = total;
            processes.insert(pid, process);
        },
        None => {},
    }
    proof {
        assert(total == subtree_total(old(processes)@, pid, nodes[at].3));
        assert(processes@ =~= recorded_total(old(processes)@, pid, total));
    }
    total
}

/// In a well-formed tree a node has one parent, is not its own parent, and is not the
/// virtual root if it has a parent at all.
proof fn lemma_one_parent(nodes: Seq<NodeRecord>, child: u32, first: u32, second: u32)
    requires
        well_formed(nodes),
        is_child_in(nodes, child, first),
    ensures
        child != first,
        child != VIRTUAL_ROOT_PID,
        has_node(nodes, child),
        has_node(nodes, first),
        is_child_in(nodes, child, second) ==> first == second,
{
    let j = choose|j: int|
        0 <= j < nodes.len() && #[trigger] nodes[j].0 == child && nodes[j].2 == Some(first);
    assert(j >= 1);
    let i = choose|i: int| 0 <= i < j && nodes[j].2 == Some(#[trigger] nodes[i].0);
    assert(nodes[i].0 == first);
    assert(nodes[0].0 != nodes[j].0);
    if is_child_in(nodes, child, second) {
        let k = choose|k: int|
            0 <= k < nodes.len() && #[trigger] nodes[k].0 == child && nodes[k].2 == Some(second);
        if k != j {
            if k < j {
                assert(nodes[k].0 != nodes[j].0);
            } else {
                assert(nodes[j].0 != nodes[k].0);
            }
        }
    }
}

/// In a well-formed tree the node at a place is the first, and the only one, with its id.
proof fn lemma_place(nodes: Seq<NodeRecord>, id: u32, at: int, other: int)
    requires
        well_formed(nodes),
        0 <= at < nodes.len(),
        nodes[at].0 == id,
    ensures
        is_first_at(nodes, id, at),
        is_first_at(nodes, id, other) ==> other == at,
        0 <= other < nodes.len() && nodes[other].0 == id ==> other == at,
{
    assert forall|j: int| 0 <= j < at implies #[trigger] nodes[j].0 != id by {
        assert(nodes[j].0 != nodes[at].0);
    }
    if 0 <= other < nodes.len() && nodes[other].0 == id && other != at {
        if other < at {
            assert(nodes[other].0 != nodes[at].0);
        } else {
            assert(nodes[at].0 != nodes[other].0);
        }
    }
}

/// What holds of the list of nodes reached so far while the tree is walked from the
/// virtual root downwards. The children of `order[..done]` are all in the list; each entry
/// is a child of the virtual root or of an earlier entry; no entry occurs twice.
pub open spec fn is_frontier(nodes: Seq<NodeRecord>, order: Seq<u32>, done: int) -> bool {
    &&& 0 <= done <= order.len()
    &&& order.no_duplicates()
    &&& forall|k: int|
        0 <= k < order.len() ==> {
            ||| is_child_in(nodes, #[trigger] order[k], VIRTUAL_ROOT_PID)
            ||| exists|m: int| 0 <= m < k && m < done && is_child_in(nodes, order[k], order[m])
        }
    &&& forall|child: u32| #[trigger]
        is_child_in(nodes, child, VIRTUAL_ROOT_PID) ==> order.contains(child)
    &&& forall|m: int, child: u32|
        0 <= m < done && #[trigger] is_child_in(nodes, child, order[m]) ==> order.contains(child)
}

/// Whether `order` lists every node below the virtual root once, each after its parent.
pub open spec fn is_top_down(nodes: Seq<NodeRecord>, order: Seq<u32>) -> bool {
    &&& is_frontier(nodes, order, order.len() as int)
    &&& forall|j: int| 1 <= j < nodes.len() ==> order.contains(#[trigger] nodes[j].0)
}

/// The children of the virtual root are where the walk starts.
proof fn lemma_frontier_start(nodes: Seq<NodeRecord>)
    requires
        well_formed(nodes),
    ensures
        is_frontier(nodes, nodes[0].3, 0),
{
    let order = nodes[0].3;
    assert forall|k: int| 0 <= k < order.len() implies is_child_in(
        nodes,
        #[trigger] order[k],
        VIRTUAL_ROOT_PID,
    ) by {
        assert(nodes[0].3.contains(order[k]));
    }
    assert forall|child: u32| #[trigger]
        is_child_in(nodes, child, VIRTUAL_ROOT_PID) implies order.contains(child) by {
        assert(nodes[0].3.contains(child) <==> is_child_in(nodes, child, nodes[0].0));
    }
}

/// Putting the children of the next entry at the end of the list keeps it a frontier.
proof fn lemma_frontier_step(nodes: Seq<NodeRecord>, order: Seq<u32>, done: int, at: int)
    requires
        well_formed(nodes),
        is_frontier(nodes, order, done),
        done < order.len(),
        is_first_at(nodes, order[done], at),
    ensures
        is_frontier(nodes, order + nodes[at].3, done + 1),
{
    let children = nodes[at].3;
    let parent = order[done];
    let longer = order + children;
    assert(nodes[at].0 == parent);
    assert(children.no_duplicates());
    assert forall|c: u32| children.contains(c) <==> is_child_in(nodes, c, parent) by {
        assert(nodes[at].3.contains(c) <==> is_child_in(nodes, c, nodes[at].0));
    }
    // The parent is no entry's own child, so it is not the virtual root's place in disguise.
    assert forall|k: int, c: int| 0 <= k < order.len() && 0 <= c < children.len() implies order[k]
        != children[c] by {
        let child = children[c];
        assert(children.contains(child));
        if order[k] == child {
            if is_child_in(nodes, order[k], VIRTUAL_ROOT_PID) {
                lemma_one_parent(nodes, child, VIRTUAL_ROOT_PID, parent);
                if is_child_in(nodes, parent, VIRTUAL_ROOT_PID) {
                    lemma_one_parent(nodes, parent, VIRTUAL_ROOT_PID, parent);
                } else {
                    let m = choose|m: int|
                        0 <= m < done && m < done && is_child_in(nodes, order[done], order[m]);
                    lemma_one_parent(nodes, parent, order[m], parent);
                }
            } else {
                let m = choose|m: int|
                    0 <= m < k && m < done && is_child_in(nodes, order[k], order[m]);
                lemma_one_parent(nodes, child, order[m], parent);
                assert(order[m] != order[done]);
            }
        }
    }
    assert forall|a: int, b: int| 0 <= a < b < longer.len() implies longer[a] != longer[b] by {
        if b < order.len() {
            assert(order[a] != order[b]);
        } else if a < order.len() {
            assert(order[a] != children[b - order.len()]);
        } else {
            assert(children[a - order.len()] != children[b - order.len()]);
        }
    }
    assert forall|k: int| 0 <= k < longer.len() implies {
        ||| is_child_in(nodes, #[trigger] longer[k], VIRTUAL_ROOT_PID)
        ||| exists|m: int| 0 <= m < k && m < done + 1 && is_child_in(nodes, longer[k], longer[m])
    } by {
        if k < order.len() {
            if !is_child_in(nodes, order[k], VIRTUAL_ROOT_PID) {
                let m = choose|m: int|
                    0 <= m < k && m < done && is_child_in(nodes, order[k], order[m]);
                assert(0 <= m < k && m < done + 1 && is_child_in(nodes, longer[k], longer[m]));
            }
        } else {
            assert(children.contains(children[k - order.len()]));
            assert(0 <= done < k && done < done + 1 && is_child_in(
                nodes,
                longer[k],
                longer[done],
            ));
        }
    }
    assert forall|child: u32| #[trigger]
        is_child_in(nodes, child, VIRTUAL_ROOT_PID) implies longer.contains(child) by {
        let k = choose|k: int| 0 <= k < order.len() && order[k] == child;
        assert(longer[k] == child);
    }
    assert forall|m: int, child: u32|
        0 <= m < done + 1 && #[trigger] is_child_in(
            nodes,
            child,
            longer[m],
        ) implies longer.contains(child) by {
        if m < done {
            assert(is_child_in(nodes, child, order[m]));
            let k = choose|k: int| 0 <= k < order.len() && order[k] == child;
            assert(longer[k] == child);
        } else {
            assert(children.contains(child));
            let c = choose|c: int| 0 <= c < children.len() && children[c] == child;
            assert(longer[order.len() + c] == child);
        }
    }
}

/// A frontier is shorter than the tree: its entries are nodes below the virtual root, each
/// once.
proof fn lemma_frontier_bound(nodes: Seq<NodeRecord>, order: Seq<u32>, done: int)
    requires
        well_formed(nodes),
        is_frontier(nodes, order, done),
    ensures
        order.len() < nodes.len(),
{
    let ids = nodes.drop_first().map_values(|node: NodeRecord| node.0);
    assert forall|id: u32| order.to_set().contains(id) implies ids.to_set().contains(id) by {
        let k = choose|k: int| 0 <= k < order.len() && order[k] == id;
        if is_child_in(nodes, order[k], VIRTUAL_ROOT_PID) {
            lemma_one_parent(nodes, id, VIRTUAL_ROOT_PID, VIRTUAL_ROOT_PID);
        } else {
            let m = choose|m: int| 0 <= m < k && m < done && is_child_in(nodes, order[k], order[m]);
            lemma_one_parent(nodes, id, order[m], order[m]);
        }
        let j = choose|j: int| 0 <= j < nodes.len() && #[trigger] nodes[j].0 == id;
        assert(j >= 1);
        assert(ids[j - 1] == id);
    }
    order.unique_seq_to_set();
    ids.lemma_cardinality_of_set();
    vstd::seq_lib::seq_to_set_is_finite(ids);
    vstd::set_lib::lemma_len_subset(order.to_set(), ids.to_set());
}

/// Once the children of every entry are in the list, every node below the virtual root is.
proof fn lemma_frontier_complete(nodes: Seq<NodeRecord>, order: Seq<u32>, j: int)
    requires
        well_formed(nodes),
        is_frontier(nodes, order, order.len() as int),
        1 <= j < nodes.len(),
    ensures
        order.contains(nodes[j].0),
    decreases j,
{
    let i = choose|i: int| 0 <= i < j && nodes[j].2 == Some(#[trigger] nodes[i].0);
    assert(nodes[j].0 == nodes[j].0 && nodes[j].2 == Some(nodes[i].0));
    assert(is_child_in(nodes, nodes[j].0, nodes[i].0));
    if i == 0 {
    } else {
        lemma_frontier_complete(nodes, order, i);
        let m = choose|m: int| 0 <= m < order.len() && order[m] == nodes[i].0;
        assert(is_child_in(nodes, nodes[j].0, order[m]));
    }
}

/// Lists the nodes below the virtual root from the top down: first the children of the
/// virtual root, then their children, and so on, so that every node comes after its parent.
pub fn top_down_order(tree: &Tree<u32, String>) -> (order: Vec<u32>)
    requires
        well_formed(tree_nodes(*tree)),
    ensures
        is_top_down(tree_nodes(*tree), order@),
{
    let ghost nodes = tree_nodes(*tree);
    let mut order: Vec<u32> = match children_ids(tree, VIRTUAL_ROOT_PID) {
        Some(children) => children,
        None => Vec::new(),
    };
    proof {
        assert(nodes[0].0 == VIRTUAL_ROOT_PID);
        lemma_place(nodes, VIRTUAL_ROOT_PID, 0, 0);
        let at = choose|at: int|
            is_first_at(nodes, VIRTUAL_ROOT_PID, at) && order@ == nodes[at].3;
        lemma_place(nodes, VIRTUAL_ROOT_PID, 0, at);
        lemma_frontier_start(nodes);
    }
    let mut next: usize = 0;
    while next < order.len()
        invariant
            nodes == tree_nodes(*tree),
            well_formed(nodes),
            is_frontier(nodes, order@, next as int),
        decreases nodes.len() - next,
    {
        let pid = order[next];
        let ghost reached = order@;
        proof {
            lemma_frontier_bound(nodes, reached, next as int);
        }
        match children_ids(tree, pid) {
            Some(children) => {
                let mut children = children;
                proof {
                    let at = choose|at: int|
                        is_first_at(nodes, pid, at) && children@ == nodes[at].3;
                    lemma_frontier_step(nodes, reached, next as int, at);
                }
                order.append(&mut children);
            },
            None => {
                proof {
                    if is_child_in(nodes, pid, VIRTUAL_ROOT_PID) {
                        lemma_one_parent(nodes, pid, VIRTUAL_ROOT_PID, VIRTUAL_ROOT_PID);
                    } else {
                        let m = choose|m: int|
                            0 <= m < next && m < next && is_child_in(
                                nodes,
                                reached[next as int],
                                reached[m],
                            );
                        lemma_one_parent(nodes, pid, reached[m], reached[m]);
                    }
                    assert(false);
                }
            },
        }
        next += 1;
    }
    proof {
        assert forall|j: int| 1 <= j < nodes.len() implies order@.contains(
            #[trigger] nodes[j].0,
        ) by {
            lemma_frontier_complete(nodes, order@, j);
        }
    }
    order
}

/// Whether the node at place `at` has its total rolled up: the recorded total is the own
/// memory plus what the children hand up. Nothing is asked of the first process.
pub open spec fn is_rolled_up(
    procs: Map<u32, ProcessMemoryInfo>,
    nodes: Seq<NodeRecord>,
    at: int,
) -> bool {
    let pid = nodes[at].0;
    pid != INIT_PID ==> procs[pid].total_memory == subtree_total(procs, pid, nodes[at].3)
}

/// Whether `after` has the processes of `before` with nothing changed but recorded totals.
pub open spec fn only_totals_differ(
    before: Map<u32, ProcessMemoryInfo>,
    after: Map<u32, ProcessMemoryInfo>,
) -> bool {
    &&& forall|pid: u32| before.contains_key(pid) <==> after.contains_key(pid)
    &&& forall|pid: u32| #[trigger]
        before.contains_key(pid) ==> after[pid] == (ProcessMemoryInfo {
            total_memory: after[pid].total_memory,
            ..before[pid]
        })
}

/// Whether `after` is `before` with the totals rolled up along the tree `nodes`: every
/// process in the tree but the first has as its total its own memory plus what its children
/// hand up; the first process and the processes outside the tree are as they were.
pub open spec fn is_aggregated(
    before: Map<u32, ProcessMemoryInfo>,
    nodes: Seq<NodeRecord>,
    after: Map<u32, ProcessMemoryInfo>,
) -> bool {
    &&& only_totals_differ(before, after)
    &&& forall|pid: u32| #[trigger]
        before.contains_key(pid) && (pid == INIT_PID || !has_node(nodes, pid)) ==> after[pid]
            == before[pid]
    &&& forall|at: int| 1 <= at < nodes.len() ==> #[trigger] is_rolled_up(after, nodes, at)
}

/// What holds while the totals are rolled up from the end of `order` towards its start:
/// the entries from `from` on are done, the others untouched.
spec fn rolling(
    before: Map<u32, ProcessMemoryInfo>,
    nodes: Seq<NodeRecord>,
    order: Seq<u32>,
    from: int,
    current: Map<u32, ProcessMemoryInfo>,
) -> bool {
    &&& only_totals_differ(before, current)
    &&& forall|pid: u32| #[trigger]
        before.contains_key(pid) && (pid == INIT_PID || !(exists|k: int|
            from <= k < order.len() && order[k] == pid)) ==> current[pid] == before[pid]
    &&& forall|k: int, at: int|
        from <= k < order.len() && 0 <= at < nodes.len() && #[trigger] nodes[at].0
            == #[trigger] order[k] ==> is_rolled_up(current, nodes, at)
}

/// Two states in which every process of `children` hands up the same give the same sum.
proof fn lemma_sum_frame(
    first: Map<u32, ProcessMemoryInfo>,
    second: Map<u32, ProcessMemoryInfo>,
    children: Seq<u32>,
)
    requires
        forall|i: int|
            0 <= i < children.len() ==> handed_up(first, #[trigger] children[i]) == handed_up(
                second,
                children[i],
            ),
    ensures
        sum_handed_up(first, children) == sum_handed_up(second, children),
    decreases children.len(),
{
    if children.len() > 0 {
        let rest = children.drop_last();
        assert forall|i: int| 0 <= i < rest.len() implies handed_up(first, #[trigger] rest[i])
            == handed_up(second, rest[i]) by {
            assert(rest[i] == children[i]);
        }
        lemma_sum_frame(first, second, rest);
        assert(children.last() == children[children.len() - 1]);
    }
}

/// An entry of a top-down order is a node that hangs below the virtual root or below an
/// earlier entry, and no later entry is its parent.
proof fn lemma_not_child_of_later(nodes: Seq<NodeRecord>, order: Seq<u32>, j: int, k: int)
    requires
        well_formed(nodes),
        is_top_down(nodes, order),
        0 <= j <= k < order.len(),
    ensures
        !is_child_in(nodes, order[j], order[k]),
        has_node(nodes, order[j]),
        order[j] != VIRTUAL_ROOT_PID,
{
    if is_child_in(nodes, order[k], VIRTUAL_ROOT_PID) {
        lemma_one_parent(nodes, order[k], VIRTUAL_ROOT_PID, VIRTUAL_ROOT_PID);
    } else {
        let m = choose|m: int|
            0 <= m < k && m < order.len() && is_child_in(nodes, order[k], order[m]);
        lemma_one_parent(nodes, order[k], order[m], order[m]);
    }
    if is_child_in(nodes, order[j], VIRTUAL_ROOT_PID) {
        lemma_one_parent(nodes, order[j], VIRTUAL_ROOT_PID, order[k]);
    } else {
        let m = choose|m: int|
            0 <= m < j && m < order.len() && is_child_in(nodes, order[j], order[m]);
        lemma_one_parent(nodes, order[j], order[m], order[k]);
        assert(order[m] != order[k]);
    }
}

/// One more entry, the one before those that are done, has had its total computed.
proof fn lemma_rolling_step(
    before: Map<u32, ProcessMemoryInfo>,
    nodes: Seq<NodeRecord>,
    order: Seq<u32>,
    j: int,
    current: Map<u32, ProcessMemoryInfo>,
    total: Storage,
    next: Map<u32, ProcessMemoryInfo>,
)
    requires
        well_formed(nodes),
        is_top_down(nodes, order),
        0 <= j < order.len(),
        rolling(before, nodes, order, j + 1, current),
        calculated(nodes, current, order[j], total, next),
        forall|at: int| 1 <= at < nodes.len() ==> current.contains_key(#[trigger] nodes[at].0),
    ensures
        rolling(before, nodes, order, j, next),
{
    let pid = order[j];
    lemma_not_child_of_later(nodes, order, j, j);
    if pid == INIT_PID {
        assert(next == current);
        assert forall|k: int, at: int|
            j <= k < order.len() && 0 <= at < nodes.len() && #[trigger] nodes[at].0
                == #[trigger] order[k] implies is_rolled_up(next, nodes, at) by {
            if k > j {
                assert(is_rolled_up(current, nodes, at));
            }
        }
        assert forall|x: u32| #[trigger]
            before.contains_key(x) && (x == INIT_PID || !(exists|k: int|
                j <= k < order.len() && order[k] == x)) implies next[x] == before[x] by {
            if x != INIT_PID {
                assert(!(exists|k: int| j + 1 <= k < order.len() && order[k] == x)) by {
                    if exists|k: int| j + 1 <= k < order.len() && order[k] == x {
                        let k = choose|k: int| j + 1 <= k < order.len() && order[k] == x;
                        assert(j <= k < order.len() && order[k] == x);
                    }
                }
            }
        }
    } else {
        let home = choose|at: int|
            is_first_at(nodes, pid, at) && total == subtree_total(current, pid, nodes[at].3) && next
                == recorded_total(current, pid, total);
        assert(home >= 1) by {
            assert(nodes[home].0 == pid);
        }
        assert(current.contains_key(nodes[home].0));
        assert(next == current.insert(
            pid,
            ProcessMemoryInfo { total_memory: total, ..current[pid] },
        ));
        assert forall|x: u32| x != pid implies handed_up(next, x) == handed_up(current, x) by {}
        assert forall|x: u32| #[trigger]
            before.contains_key(x) && (x == INIT_PID || !(exists|k: int|
                j <= k < order.len() && order[k] == x)) implies next[x] == before[x] by {
            if x != INIT_PID {
                assert(!(exists|k: int| j + 1 <= k < order.len() && order[k] == x)) by {
                    if exists|k: int| j + 1 <= k < order.len() && order[k] == x {
                        let k = choose|k: int| j + 1 <= k < order.len() && order[k] == x;
                        assert(j <= k < order.len() && order[k] == x);
                    }
                }
                assert(x != pid) by {
                    if x == pid {
                        assert(j <= j < order.len() && order[j] == x);
                    }
                }
            }
        }
        assert forall|k: int, at: int|
            j <= k < order.len() && 0 <= at < nodes.len() && #[trigger] nodes[at].0
                == #[trigger] order[k] implies is_rolled_up(next, nodes, at) by {
            let node = order[k];
            let children = nodes[at].3;
            lemma_not_child_of_later(nodes, order, j, k);
            assert forall|i: int| 0 <= i < children.len() implies handed_up(
                next,
                #[trigger] children[i],
            ) == handed_up(current, children[i]) by {
                assert(nodes[at].3.contains(children[i]));
                assert(nodes[at].3.contains(children[i]) <==> is_child_in(
                    nodes,
                    children[i],
                    nodes[at].0,
                ));
            }
            lemma_sum_frame(next, current, children);
            if k == j {
                lemma_place(nodes, pid, at, home);
                assert(own_memory(next, pid) == own_memory(current, pid));
            } else {
                assert(order[k] != order[j]);
                assert(is_rolled_up(current, nodes, at));
                assert(next[node] == current[node]);
                assert(own_memory(next, node) == own_memory(current, node));
            }
        }
    }
}

/// Fills in the total of every process in the tree: its own memory plus the totals of its
/// children, from the leaves up to the children of the virtual root.
///
/// The first process keeps the total it came with, though the totals of its children are
/// computed like all others. Processes that the tree does not hold are not touched. The
/// walk keeps a list in place of a call stack, so no chain of ancestors is too long for it.
pub fn aggregate_total_memory(
    tree: &Tree<u32, String>,
    processes: &mut HashMap<u32, ProcessMemoryInfo>,
)
    requires
        is_process_tree(old(processes)@, tree_nodes(*tree)),
    ensures
        is_aggregated(old(processes)@, tree_nodes(*tree), final(processes)@),
{
    let ghost nodes = tree_nodes(*tree);
    let ghost before = processes@;
    let order = top_down_order(tree);
    let mut left = order.len();
    while left > 0
        invariant
            0 <= left <= order.len(),
            nodes == tree_nodes(*tree),
            well_formed(nodes),
            is_top_down(nodes, order@),
            forall|at: int| 1 <= at < nodes.len() ==> before.contains_key(#[trigger] nodes[at].0),
            rolling(before, nodes, order@, left as int, processes@),
        decreases left,
    {
        left -= 1;
        let ghost current = processes@;
        let total = roll_up_node(tree, processes, order[left]);
        proof {
            lemma_rolling_step(before, nodes, order@, left as int, current, total, processes@);
        }
    }
    proof {
        let after = processes@;
        assert forall|at: int| 1 <= at < nodes.len() implies #[trigger] is_rolled_up(
            after,
            nodes,
            at,
        ) by {
            assert(order@.contains(nodes[at].0));
            let k = choose|k: int| 0 <= k < order@.len() && order@[k] == nodes[at].0;
            assert(nodes[at].0 == order@[k]);
        }
        assert forall|pid: u32| #[trigger]
            before.contains_key(pid) && (pid == INIT_PID || !has_node(
                nodes,
                pid,
            )) implies after[pid] == before[pid] by {
            if pid != INIT_PID {
                if exists|k: int| 0 <= k < order@.len() && order@[k] == pid {
                    let k = choose|k: int| 0 <= k < order@.len() && order@[k] == pid;
                    lemma_not_child_of_later(nodes, order@, k, k);
                }
            }
        }
    }
}

/// Taking one child out of a list takes what it hands up out of the sum.
proof fn lemma_sum_without(procs: Map<u32, ProcessMemoryInfo>, children: Seq<u32>, k: int)
    requires
        0 <= k < children.len(),
    ensures
        sum_handed_up(procs, children) == sum_handed_up(procs, children.remove(k)) + handed_up(
            procs,
            children[k],
        ),
    decreases children.len(),
{
    if k == children.len() - 1 {
        assert(children.remove(k) =~= children.drop_last());
    } else {
        let rest = children.drop_last();
        lemma_sum_without(procs, rest, k);
        assert(children.remove(k).drop_last() =~= rest.remove(k));
        assert(children.remove(k).last() == children.last());
    }
}

/// The sum of what a set of children hands up does not depend on the order in which the
/// children are listed.
proof fn lemma_sum_permuted(procs: Map<u32, ProcessMemoryInfo>, first: Seq<u32>, second: Seq<u32>)
    requires
        first.no_duplicates(),
        second.no_duplicates(),
        forall|child: u32| first.contains(child) <==> second.contains(child),
    ensures
        sum_handed_up(procs, first) == sum_handed_up(procs, second),
    decreases first.len(),
{
    if first.len() == 0 {
        if second.len() > 0 {
            assert(second.contains(second[0]));
            assert(first.contains(second[0]));
        }
    } else {
        let x = first.last();
        assert(first[first.len() - 1] == x);
        assert(first.contains(x));
        let k = choose|k: int| 0 <= k < second.len() && second[k] == x;
        let rest1 = first.drop_last();
        let rest2 = second.remove(k);
        assert forall|a: int, b: int| 0 <= a < b < rest2.len() implies rest2[a] != rest2[b] by {
            let a2 = if a < k {
                a
            } else {
                a + 1
            };
            let b2 = if b < k {
                b
            } else {
                b + 1
            };
            assert(rest2[a] == second[a2] && rest2[b] == second[b2]);
        }
        assert forall|child: u32| rest1.contains(child) <==> rest2.contains(child) by {
            if rest1.contains(child) {
                let a = choose|a: int| 0 <= a < rest1.len() && rest1[a] == child;
                assert(first[a] == child);
                assert(first.contains(child));
                assert(child != x);
                let b = choose|b: int| 0 <= b < second.len() && second[b] == child;
                if b < k {
                    assert(rest2[b] == child);
                } else {
                    assert(rest2[b - 1] == child);
                }
            }
            if rest2.contains(child) {
                let b = choose|b: int| 0 <= b < rest2.len() && rest2[b] == child;
                let b2 = if b < k {
                    b
                } else {
                    b + 1
                };
                assert(second[b2] == child);
                assert(second.contains(child));
                assert(first.contains(child));
                let a = choose|a: int| 0 <= a < first.len() && first[a] == child;
                assert(a != first.len() - 1);
                assert(rest1[a] == child);
            }
        }
        lemma_sum_permuted(procs, rest1, rest2);
        lemma_sum_without(procs, second, k);
    }
}

/// In two hierarchies of the same processes, rolled up from the same records, the node at
/// place `at` of the first has the same record in both results.
proof fn lemma_same_record(
    procs: Map<u32, ProcessMemoryInfo>,
    first: Seq<NodeRecord>,
    second: Seq<NodeRecord>,
    after_first: Map<u32, ProcessMemoryInfo>,
    after_second: Map<u32, ProcessMemoryInfo>,
    at: int,
)
    requires
        is_process_tree(procs, first),
        is_process_tree(procs, second),
        is_aggregated(procs, first, after_first),
        is_aggregated(procs, second, after_second),
        1 <= at < first.len(),
    ensures
        after_first[first[at].0] == after_second[first[at].0],
    decreases first.len() - at,
{
    let pid = first[at].0;
    assert(procs.contains_key(pid));
    lemma_hierarchy_is_unique(procs, first, second);
    assert(has_node(first, pid));
    assert(has_node(second, pid));
    let other = choose|other: int| 0 <= other < second.len() && #[trigger] second[other].0 == pid;
    assert(other >= 1) by {
        assert(first[0].0 != first[at].0);
    }
    if pid != INIT_PID {
        let children = first[at].3;
        assert(is_rolled_up(after_first, first, at));
        assert(is_rolled_up(after_second, second, other));
        assert(first[at].0 == second[other].0);
        assert forall|i: int| 0 <= i < children.len() implies handed_up(
            after_first,
            #[trigger] children[i],
        ) == handed_up(after_second, children[i]) by {
            let child = children[i];
            assert(first[at].3.contains(child));
            assert(first[at].3.contains(child) <==> is_child_in(first, child, first[at].0));
            let below = choose|below: int|
                0 <= below < first.len() && #[trigger] first[below].0 == child && first[below].2
                    == Some(pid);
            assert(below >= 1);
            let above = choose|above: int|
                0 <= above < below && first[below].2 == Some(#[trigger] first[above].0);
            lemma_place(first, pid, at, above);
            lemma_same_record(procs, first, second, after_first, after_second, below);
            assert(procs.contains_key(child));
        }
        lemma_sum_frame(after_first, after_second, children);
        lemma_sum_permuted(after_second, children, second[other].3);
        assert(own_memory(after_first, pid) == own_memory(after_second, pid));
    }
}

/// Order independence of the totals: whatever order the processes are taken in when the
/// tree is built, and whatever order a node's children come in, rolling the totals up gives
/// the same records.
pub proof fn lemma_totals_are_unique(
    procs: Map<u32, ProcessMemoryInfo>,
    first: Seq<NodeRecord>,
    second: Seq<NodeRecord>,
    after_first: Map<u32, ProcessMemoryInfo>,
    after_second: Map<u32, ProcessMemoryInfo>,
)
    requires
        is_process_tree(procs, first),
        is_process_tree(procs, second),
        is_aggregated(procs, first, after_first),
        is_aggregated(procs, second, after_second),
    ensures
        after_first == after_second,
{
    lemma_hierarchy_is_unique(procs, first, second);
    assert forall|pid: u32| after_first.contains_key(pid) implies after_first[pid]
        == after_second[pid] by {
        assert(procs.contains_key(pid));
        if pid != INIT_PID && has_node(first, pid) {
            let at = choose|at: int| 0 <= at < first.len() && #[trigger] first[at].0 == pid;
            assert(at >= 1);
            lemma_same_record(procs, first, second, after_first, after_second, at);
        }
    }
    assert(after_first =~= after_second);
}

/// Whether `pid` is `root` or is reached from it by at most `steps` steps from a node to
/// one of its children.
pub open spec fn descends(nodes: Seq<NodeRecord>, pid: u32, root: u32, steps: nat) -> bool
    decreases steps,
{
    pid == root || (steps > 0 && exists|parent: u32| #[trigger]
        is_child_in(nodes, pid, parent) && descends(nodes, parent, root, (steps - 1) as nat))
}

/// Whether `pid` is in the subtree of `root`: `root` itself, one of its children, one of
/// their children, and so on.
pub open spec fn in_subtree(nodes: Seq<NodeRecord>, root: u32, pid: u32) -> bool {
    exists|steps: nat| descends(nodes, pid, root, steps)
}

/// The sum of what `handed` holds for the processes in `children`: nothing for one that
/// it does not hold.
pub open spec fn sum_of(handed: Map<u32, u64>, children: Seq<u32>) -> nat
    decreases children.len(),
{
    if children.len() == 0 {
        0
    } else {
        sum_of(handed, children.drop_last()) + (if handed.contains_key(children.last()) {
            handed[children.last()] as nat
        } else {
            0
        })
    }
}

/// What the node at place `at` hands up to its parent when its children hand up what
/// `handed` holds for them: its own memory plus the sum of that, capped; for the first
/// process its own memory alone. A node without a record has no memory of its own, and
/// hands up what its children do.
pub open spec fn handed_by(
    procs: Map<u32, ProcessMemoryInfo>,
    nodes: Seq<NodeRecord>,
    handed: Map<u32, u64>,
    at: int,
) -> u64 {
    let pid = nodes[at].0;
    if pid == INIT_PID {
        own_memory(procs, pid).spec_to_bytes()
    } else {
        capped(own_memory(procs, pid).spec_to_bytes() as nat + sum_of(handed, nodes[at].3))
    }
}

/// Whether `handed` holds, for the node at place `at` and for each of its children, what
/// that node hands up.
pub open spec fn hands_up(
    procs: Map<u32, ProcessMemoryInfo>,
    nodes: Seq<NodeRecord>,
    handed: Map<u32, u64>,
    at: int,
) -> bool {
    &&& handed.contains_key(nodes[at].0)
    &&& forall|i: int|
        0 <= i < nodes[at].3.len() ==> handed.contains_key(#[trigger] nodes[at].3[i])
    &&& handed[nodes[at].0] == handed_by(procs, nodes, handed, at)
}

/// Whether every process in `children` has a record.
pub open spec fn all_recorded(procs: Map<u32, ProcessMemoryInfo>, children: Seq<u32>) -> bool {
    forall|i: int| 0 <= i < children.len() ==> procs.contains_key(#[trigger] children[i])
}

/// Whether `handed` holds what every node of the subtree of `pid` hands up, `after` has
/// these as the totals of the nodes with a record, but for the first process, and `total`
/// is the one of `pid`, or for the first process its own memory.
pub open spec fn subtree_settled(
    nodes: Seq<NodeRecord>,
    before: Map<u32, ProcessMemoryInfo>,
    pid: u32,
    total: Storage,
    after: Map<u32, ProcessMemoryInfo>,
    handed: Map<u32, u64>,
) -> bool {
    &&& forall|at: int|
        0 <= at < nodes.len() && in_subtree(nodes, pid, nodes[at].0) ==> #[trigger] hands_up(
            before,
            nodes,
            handed,
            at,
        )
    &&& forall|at: int|
        0 <= at < nodes.len() && in_subtree(nodes, pid, (#[trigger] nodes[at]).0)
            && before.contains_key(nodes[at].0) && nodes[at].0 != INIT_PID
            ==> after[nodes[at].0].total_memory == Storage::spec_from_bytes(handed[nodes[at].0])
    &&& total == (if pid == INIT_PID {
        own_memory(before, pid)
    } else {
        Storage::spec_from_bytes(handed[pid])
    })
}

/// What `calculate_subtree_memory` for `pid` returns and leaves behind.
///
/// For a node that the tree does not hold: zero bytes, and nothing changed. Otherwise only
/// totals have changed; the first process and all outside the subtree are as they were;
/// every node of the subtree hands up its own memory plus what its children hand up, and
/// has that as its total if it has a record and is not the first process; and the result is
/// the total of `pid`, or for the first process its own memory. Where a node and its
/// children all have records, this is to say that its total is rolled up.
pub open spec fn subtree_calculated(
    nodes: Seq<NodeRecord>,
    before: Map<u32, ProcessMemoryInfo>,
    pid: u32,
    total: Storage,
    after: Map<u32, ProcessMemoryInfo>,
) -> bool {
    if !has_node(nodes, pid) {
        total == Storage::spec_from_bytes(0) && after == before
    } else {
        &&& only_totals_differ(before, after)
        &&& forall|x: u32| #[trigger]
            before.contains_key(x) && (x == INIT_PID || !in_subtree(nodes, pid, x)) ==> after[x]
                == before[x]
        &&& exists|handed: Map<u32, u64>| #[trigger]
            subtree_settled(nodes, before, pid, total, after, handed)
        &&& forall|at: int|
            0 <= at < nodes.len() && in_subtree(nodes, pid, nodes[at].0) && after.contains_key(
                nodes[at].0,
            ) && all_recorded(after, nodes[at].3) ==> #[trigger] is_rolled_up(after, nodes, at)
    }
}

/// What holds of the list of nodes reached so far while the subtree of the node at place
/// `root_at` is walked downwards. The list starts with that node; each later entry is a
/// child of an earlier one; the children of `order[..done]` are all in the list; no entry
/// occurs twice, and none stands before the root in the tree.
#[verifier::opaque]
spec fn is_walk(nodes: Seq<NodeRecord>, root_at: int, order: Seq<u32>, done: int) -> bool {
    &&& 0 <= root_at < nodes.len()
    &&& 1 <= order.len()
    &&& order[0] == nodes[root_at].0
    &&& 0 <= done <= order.len()
    &&& order.no_duplicates()
    &&& forall|k: int|
        1 <= k < order.len() ==> exists|m: int|
            0 <= m < k && m < done && is_child_in(nodes, #[trigger] order[k], order[m])
    &&& forall|m: int, child: u32|
        0 <= m < done && #[trigger] is_child_in(nodes, child, order[m]) ==> order.contains(child)
    &&& forall|k: int, at: int|
        0 <= k < order.len() && 0 <= at < nodes.len() && #[trigger] nodes[at].0
            == #[trigger] order[k] ==> at >= root_at
}

/// In a well-formed tree a child stands after its parent.
proof fn lemma_child_is_later(
    nodes: Seq<NodeRecord>,
    child: u32,
    parent: u32,
    child_at: int,
    parent_at: int,
)
    requires
        well_formed(nodes),
        is_child_in(nodes, child, parent),
        0 <= child_at < nodes.len(),
        nodes[child_at].0 == child,
        0 <= parent_at < nodes.len(),
        nodes[parent_at].0 == parent,
    ensures
        parent_at < child_at,
{
    let j = choose|j: int|
        0 <= j < nodes.len() && #[trigger] nodes[j].0 == child && nodes[j].2 == Some(parent);
    lemma_place(nodes, child, child_at, j);
    assert(j >= 1);
    let i = choose|i: int| 0 <= i < j && nodes[j].2 == Some(#[trigger] nodes[i].0);
    lemma_place(nodes, parent, parent_at, i);
}

/// An entry of a walk is no child of itself or of a later entry.
proof fn lemma_walk_not_child_of_later(
    nodes: Seq<NodeRecord>,
    root_at: int,
    order: Seq<u32>,
    done: int,
    j: int,
    k: int,
)
    requires
        well_formed(nodes),
        is_walk(nodes, root_at, order, done),
        0 <= j <= k < order.len(),
    ensures
        !is_child_in(nodes, order[j], order[k]),
        has_node(nodes, order[j]),
        j < k ==> order[j] != order[k],
{
    reveal(is_walk);
    if j == 0 {
        assert(nodes[root_at].0 == order[0]);
        if is_child_in(nodes, order[j], order[k]) {
            lemma_one_parent(nodes, order[j], order[k], order[k]);
            let at = choose|at: int| 0 <= at < nodes.len() && #[trigger] nodes[at].0 == order[k];
            assert(nodes[at].0 == order[k]);
            lemma_child_is_later(nodes, order[0], order[k], root_at, at);
        }
    } else {
        let m = choose|m: int| 0 <= m < j && m < done && is_child_in(nodes, order[j], order[m]);
        lemma_one_parent(nodes, order[j], order[m], order[k]);
        assert(order[m] != order[k]);
    }
}

/// Putting the children of the next entry at the end of the list keeps it a walk.
proof fn lemma_walk_step(
    nodes: Seq<NodeRecord>,
    root_at: int,
    order: Seq<u32>,
    done: int,
    at: int,
)
    requires
        well_formed(nodes),
        is_walk(nodes, root_at, order, done),
        done < order.len(),
        is_first_at(nodes, order[done], at),
    ensures
        is_walk(nodes, root_at, order + nodes[at].3, done + 1),
{
    reveal(is_walk);
    let children = nodes[at].3;
    let parent = order[done];
    let longer = order + children;
    assert(nodes[at].0 == parent);
    assert(nodes[at].0 == order[done]);
    assert(at >= root_at);
    assert(children.no_duplicates());
    assert forall|c: u32| children.contains(c) <==> is_child_in(nodes, c, parent) by {
        assert(nodes[at].3.contains(c) <==> is_child_in(nodes, c, nodes[at].0));
    }
    assert forall|k: int, c: int| 0 <= k < order.len() && 0 <= c < children.len() implies order[k]
        != children[c] by {
        let child = children[c];
        assert(children.contains(child));
        if order[k] == child {
            if k <= done {
                lemma_walk_not_child_of_later(nodes, root_at, order, done, k, done);
            } else {
                let m = choose|m: int|
                    0 <= m < k && m < done && is_child_in(nodes, order[k], order[m]);
                lemma_one_parent(nodes, child, order[m], parent);
                assert(order[m] != order[done]);
            }
        }
    }
    assert forall|a: int, b: int| 0 <= a < b < longer.len() implies longer[a] != longer[b] by {
        if b < order.len() {
            assert(order[a] != order[b]);
        } else if a < order.len() {
            assert(order[a] != children[b - order.len()]);
        } else {
            assert(children[a - order.len()] != children[b - order.len()]);
        }
    }
    assert forall|k: int| 1 <= k < longer.len() implies exists|m: int|
        0 <= m < k && m < done + 1 && is_child_in(nodes, #[trigger] longer[k], longer[m]) by {
        if k < order.len() {
            let m = choose|m: int| 0 <= m < k && m < done && is_child_in(nodes, order[k], order[m]);
            assert(0 <= m < k && m < done + 1 && is_child_in(nodes, longer[k], longer[m]));
        } else {
            assert(children.contains(children[k - order.len()]));
            assert(0 <= done < k && done < done + 1 && is_child_in(
                nodes,
                longer[k],
                longer[done],
            ));
        }
    }
    assert forall|m: int, child: u32|
        0 <= m < done + 1 && #[trigger] is_child_in(
            nodes,
            child,
            longer[m],
        ) implies longer.contains(child) by {
        if m < done {
            assert(is_child_in(nodes, child, order[m]));
            let k = choose|k: int| 0 <= k < order.len() && order[k] == child;
            assert(longer[k] == child);
        } else {
            assert(children.contains(child));
            let c = choose|c: int| 0 <= c < children.len() && children[c] == child;
            assert(longer[order.len() + c] == child);
        }
    }
    assert forall|k: int, place: int|
        0 <= k < longer.len() && 0 <= place < nodes.len() && #[trigger] nodes[place].0
            == #[trigger] longer[k] implies place >= root_at by {
        if k < order.len() {
            assert(nodes[place].0 == order[k]);
        } else {
            assert(children.contains(children[k - order.len()]));
            lemma_child_is_later(nodes, longer[k], parent, place, at);
        }
    }
    assert(longer[0] == order[0]);
    assert(longer.no_duplicates());
}

/// A walk starts with the node at the place of its root.
proof fn lemma_walk_root(nodes: Seq<NodeRecord>, root_at: int, order: Seq<u32>, done: int)
    requires
        is_walk(nodes, root_at, order, done),
    ensures
        0 <= root_at < nodes.len(),
        1 <= order.len(),
        order[0] == nodes[root_at].0,
{
    reveal(is_walk);
}

/// A walk is no longer than the tree: its entries are nodes, each once.
proof fn lemma_walk_bound(nodes: Seq<NodeRecord>, root_at: int, order: Seq<u32>, done: int)
    requires
        well_formed(nodes),
        is_walk(nodes, root_at, order, done),
    ensures
        order.len() <= nodes.len(),
{
    reveal(is_walk);
    let ids = nodes.map_values(|node: NodeRecord| node.0);
    assert forall|id: u32| order.to_set().contains(id) implies ids.to_set().contains(id) by {
        let k = choose|k: int| 0 <= k < order.len() && order[k] == id;
        lemma_walk_not_child_of_later(nodes, root_at, order, done, k, k);
        let j = choose|j: int| 0 <= j < nodes.len() && #[trigger] nodes[j].0 == id;
        assert(ids[j] == id);
    }
    order.unique_seq_to_set();
    ids.lemma_cardinality_of_set();
    vstd::seq_lib::seq_to_set_is_finite(ids);
    vstd::set_lib::lemma_len_subset(order.to_set(), ids.to_set());
}

/// Every entry of a walk is in the subtree of its first entry.
proof fn lemma_walk_sound(
    nodes: Seq<NodeRecord>,
    root_at: int,
    order: Seq<u32>,
    done: int,
    k: int,
)
    requires
        is_walk(nodes, root_at, order, done),
        0 <= k < order.len(),
    ensures
        in_subtree(nodes, order[0], order[k]),
    decreases k,
{
    reveal(is_walk);
    if k == 0 {
        assert(descends(nodes, order[0], order[0], 0));
    } else {
        let m = choose|m: int| 0 <= m < k && m < done && is_child_in(nodes, order[k], order[m]);
        lemma_walk_sound(nodes, root_at, order, done, m);
        let steps = choose|steps: nat| descends(nodes, order[m], order[0], steps);
        assert(descends(nodes, order[k], order[0], steps + 1));
    }
}

/// Once the children of every entry are in the list, the whole subtree is.
proof fn lemma_walk_complete(
    nodes: Seq<NodeRecord>,
    root_at: int,
    order: Seq<u32>,
    pid: u32,
    steps: nat,
)
    requires
        is_walk(nodes, root_at, order, order.len() as int),
        descends(nodes, pid, order[0], steps),
    ensures
        order.contains(pid),
    decreases steps,
{
    reveal(is_walk);
    if pid == order[0] {
    } else {
        let parent = choose|parent: u32| #[trigger]
            is_child_in(nodes, pid, parent) && descends(
                nodes,
                parent,
                order[0],
                (steps - 1) as nat,
            );
        lemma_walk_complete(nodes, root_at, order, parent, (steps - 1) as nat);
        let m = choose|m: int| 0 <= m < order.len() && order[m] == parent;
        assert(is_child_in(nodes, pid, order[m]));
    }
}

/// Lists the subtree of `pid` from the top down: first `pid`, then its children, then
/// their children, and so on. `None` where the tree holds no node `pid`.
fn subtree_order(tree: &Tree<u32, String>, pid: u32) -> (listed: Option<Vec<u32>>)
    requires
        well_formed(tree_nodes(*tree)),
    ensures
        match listed {
            Some(order) => exists|root_at: int|
                is_first_at(tree_nodes(*tree), pid, root_at) && is_walk(
                    tree_nodes(*tree),
                    root_at,
                    order@,
                    order@.len() as int,
                ),
            None => !has_node(tree_nodes(*tree), pid),
        },
{
    let ghost nodes = tree_nodes(*tree);
    let mut children = match children_ids(tree, pid) {
        Some(children) => children,
        None => {
            return None;
        },
    };
    let ghost root_at = choose|at: int| is_first_at(nodes, pid, at) && children@ == nodes[at].3;
    let mut order: Vec<u32> = Vec::new();
    order.push(pid);
    proof {
        reveal(is_walk);
        assert(order@ =~= seq![pid]);
        assert forall|k: int, at: int|
            0 <= k < order@.len() && 0 <= at < nodes.len() && #[trigger] nodes[at].0
                == #[trigger] order@[k] implies at >= root_at by {
            lemma_place(nodes, pid, root_at, at);
        }
        assert(is_walk(nodes, root_at, order@, 0));
        lemma_walk_step(nodes, root_at, order@, 0, root_at);
    }
    order.append(&mut children);
    let mut next: usize = 1;
    while next < order.len()
        invariant
            nodes == tree_nodes(*tree),
            well_formed(nodes),
            is_first_at(nodes, pid, root_at),
            is_walk(nodes, root_at, order@, next as int),
        decreases nodes.len() - next,
    {
        let entry = order[next];
        let ghost reached = order@;
        proof {
            lemma_walk_bound(nodes, root_at, reached, next as int);
        }
        match children_ids(tree, entry) {
            Some(below) => {
                let mut below = below;
                proof {
                    let at = choose|at: int| is_first_at(nodes, entry, at) && below@ == nodes[at].3;
                    lemma_walk_step(nodes, root_at, reached, next as int, at);
                }
                order.append(&mut below);
            },
            None => {
                proof {
                    lemma_walk_not_child_of_later(
                        nodes,
                        root_at,
                        reached,
                        next as int,
                        next as int,
                        next as int,
                    );
                    assert(false);
                }
            },
        }
        next += 1;
    }
    Some(order)
}

/// What one call of `settle_node` for `pid` returns and leaves behind.
spec fn settled(
    nodes: Seq<NodeRecord>,
    before: Map<u32, ProcessMemoryInfo>,
    handed_before: Map<u32, u64>,
    pid: u32,
    total: Storage,
    after: Map<u32, ProcessMemoryInfo>,
    handed_after: Map<u32, u64>,
) -> bool {
    if !has_node(nodes, pid) {
        total == Storage::spec_from_bytes(0) && after == before && handed_after == handed_before
    } else {
        exists|at: int|
            is_first_at(nodes, pid, at) && handed_after == handed_before.insert(
                pid,
                handed_by(before, nodes, handed_before, at),
            ) && (if pid == INIT_PID {
                total == own_memory(before, pid) && after == before
            } else {
                total == Storage::spec_from_bytes(handed_by(before, nodes, handed_before, at))
                    && after == recorded_total(before, pid, total)
            })
    }
}

/// Computes what the one node `pid` hands up from its own memory and from what `handed`
/// holds for its children, notes it in `handed`, writes it into the record of `pid` as its
/// total and returns it. For the first process the own memory is handed up and returned,
/// and nothing is written.
fn settle_node(
    tree: &Tree<u32, String>,
    processes: &mut HashMap<u32, ProcessMemoryInfo>,
    handed: &mut HashMap<u32, u64>,
    pid: u32,
) -> (total: Storage)
    ensures
        settled(
            tree_nodes(*tree),
            old(processes)@,
            old(handed)@,
            pid,
            total,
            final(processes)@,
            final(handed)@,
        ),
{
    let children = match children_ids(tree, pid) {
        Some(children) => children,
        None => {
            return Storage::from_bytes(0);
        },
    };
    let ghost nodes = tree_nodes(*tree);
    let ghost at = choose|at: int| is_first_at(nodes, pid, at) && children@ == nodes[at].3;
    proof {
        assert(nodes[at].0 == pid);
        assert(has_node(nodes, pid));
        crate::utils::lemma_round_trip(0);
    }
    let self_memory = match processes.get(&pid) {
        Some(process) => process.memory,
        None => Storage::from_bytes(0),
    };
    if pid == INIT_PID {
        handed.insert(pid, self_memory.to_bytes());
        return self_memory;
    }
    let mut children_total: u64 = 0;
    let mut i: usize = 0;
    while i < children.len()
        invariant
            0 <= i <= children.len(),
            children_total == capped(sum_of(handed@, children@.take(i as int))),
        decreases children.len() - i,
    {
        let child_bytes = match handed.get(&children[i]) {
            Some(bytes) => *bytes,
            None => 0,
        };
        proof {
            let upto = children@.take(i as int + 1);
            assert(upto.drop_last() =~= children@.take(i as int));
            assert(upto.last() == children@[i as int]);
            lemma_capped_step(sum_of(handed@, children@.take(i as int)), child_bytes);
        }
        children_total = children_total.saturating_add(child_bytes);
        i += 1;
    }
    proof {
        assert(children@.take(children@.len() as int) =~= children@);
        lemma_capped_step(sum_of(handed@, children@), self_memory.spec_to_bytes());
    }
    let bytes = children_total.saturating_add(self_memory.to_bytes());
    let total = Storage::from_bytes(bytes);
    handed.insert(pid, bytes);
    match processes.remove(&pid) {
        Some(process) => {
            let mut process = process;
            process.total_memory = total;
            processes.insert(pid, process);
        },
        None => {},
    }
    proof {
        assert(bytes == handed_by(old(processes)@, nodes, old(handed)@, at));
        assert(processes@ =~= recorded_total(old(processes)@, pid, total));
    }
    total
}

/// What holds while the totals of a walk are computed from its end towards its start: the
/// entries from `from` on are done, and `handed` holds what each of them hands up; the
/// others are untouched.
spec fn settling(
    before: Map<u32, ProcessMemoryInfo>,
    nodes: Seq<NodeRecord>,
    order: Seq<u32>,
    from: int,
    current: Map<u32, ProcessMemoryInfo>,
    handed: Map<u32, u64>,
) -> bool {
    &&& only_totals_differ(before, current)
    &&& forall|pid: u32| #[trigger]
        before.contains_key(pid) && (pid == INIT_PID || !(exists|k: int|
            from <= k < order.len() && order[k] == pid)) ==> current[pid] == before[pid]
    &&& forall|k: int| from <= k < order.len() ==> handed.contains_key(#[trigger] order[k])
    &&& forall|k: int, at: int|
        from <= k < order.len() && 0 <= at < nodes.len() && #[trigger] nodes[at].0
            == #[trigger] order[k] ==> hands_up(before, nodes, handed, at)
    &&& forall|k: int|
        from <= k < order.len() && before.contains_key(#[trigger] order[k]) && order[k]
            != INIT_PID ==> current[order[k]].total_memory == Storage::spec_from_bytes(
            handed[order[k]],
        )
}

/// Two notes of what is handed up that agree on every process of `children` give the same
/// sum.
proof fn lemma_sum_of_frame(first: Map<u32, u64>, second: Map<u32, u64>, children: Seq<u32>)
    requires
        forall|i: int|
            0 <= i < children.len() ==> first.contains_key(#[trigger] children[i])
                == second.contains_key(children[i]) && (first.contains_key(children[i])
                ==> first[children[i]] == second[children[i]]),
    ensures
        sum_of(first, children) == sum_of(second, children),
    decreases children.len(),
{
    if children.len() > 0 {
        let rest = children.drop_last();
        assert forall|i: int| 0 <= i < rest.len() implies first.contains_key(#[trigger] rest[i])
            == second.contains_key(rest[i]) && (first.contains_key(rest[i]) ==> first[rest[i]]
            == second[rest[i]]) by {
            assert(rest[i] == children[i]);
        }
        lemma_sum_of_frame(first, second, rest);
        assert(children.last() == children[children.len() - 1]);
    }
}

/// Where every child has a record whose part in a sum is what `handed` holds for it, the
/// sum of the recorded totals is the sum of what `handed` holds.
proof fn lemma_sum_of_records(
    procs: Map<u32, ProcessMemoryInfo>,
    handed: Map<u32, u64>,
    children: Seq<u32>,
)
    requires
        forall|i: int|
            0 <= i < children.len() ==> handed.contains_key(#[trigger] children[i]) && handed_up(
                procs,
                children[i],
            ) == handed[children[i]],
    ensures
        sum_handed_up(procs, children) == sum_of(handed, children),
    decreases children.len(),
{
    if children.len() > 0 {
        let rest = children.drop_last();
        assert forall|i: int| 0 <= i < rest.len() implies handed.contains_key(#[trigger] rest[i])
            && handed_up(procs, rest[i]) == handed[rest[i]] by {
            assert(rest[i] == children[i]);
        }
        lemma_sum_of_records(procs, handed, rest);
        assert(children.last() == children[children.len() - 1]);
    }
}

/// The children of an entry of a walk come after it in the walk. So once the entries after
/// `j` are noted, the children of `order[k]`, for `k` from `j` on, are all noted, and a
/// note for `order[j]` changes nothing in their sum.
proof fn lemma_children_noted(
    nodes: Seq<NodeRecord>,
    root_at: int,
    order: Seq<u32>,
    j: int,
    k: int,
    at: int,
    handed: Map<u32, u64>,
    bytes: u64,
)
    requires
        well_formed(nodes),
        is_walk(nodes, root_at, order, order.len() as int),
        0 <= j <= k < order.len(),
        0 <= at < nodes.len(),
        nodes[at].0 == order[k],
        forall|c: int| j < c < order.len() ==> handed.contains_key(#[trigger] order[c]),
    ensures
        forall|i: int|
            0 <= i < nodes[at].3.len() ==> handed.contains_key(#[trigger] nodes[at].3[i])
                && nodes[at].3[i] != order[j],
        sum_of(handed.insert(order[j], bytes), nodes[at].3) == sum_of(handed, nodes[at].3),
{
    let children = nodes[at].3;
    let done = order.len() as int;
    assert forall|i: int| 0 <= i < children.len() implies handed.contains_key(
        #[trigger] children[i],
    ) && children[i] != order[j] by {
        let child = children[i];
        assert(nodes[at].3.contains(child));
        assert(nodes[at].3.contains(child) <==> is_child_in(nodes, child, nodes[at].0));
        assert(is_child_in(nodes, child, order[k]));
        assert(order.contains(child)) by {
            reveal(is_walk);
        }
        let c = choose|c: int| 0 <= c < order.len() && order[c] == child;
        if c <= k {
            lemma_walk_not_child_of_later(nodes, root_at, order, done, c, k);
        } else {
            lemma_walk_not_child_of_later(nodes, root_at, order, done, j, c);
        }
        assert(handed.contains_key(order[c]));
    }
    lemma_sum_of_frame(handed.insert(order[j], bytes), handed, children);
}

/// One more entry of a walk, the one before those that are done, has been settled.
proof fn lemma_settling_step(
    before: Map<u32, ProcessMemoryInfo>,
    nodes: Seq<NodeRecord>,
    root_at: int,
    order: Seq<u32>,
    j: int,
    current: Map<u32, ProcessMemoryInfo>,
    handed: Map<u32, u64>,
    total: Storage,
    next: Map<u32, ProcessMemoryInfo>,
    noted: Map<u32, u64>,
)
    requires
        well_formed(nodes),
        is_walk(nodes, root_at, order, order.len() as int),
        0 <= j < order.len(),
        settling(before, nodes, order, j + 1, current, handed),
        forall|x: u32| handed.contains_key(x) ==> exists|k: int|
            j + 1 <= k < order.len() && order[k] == x,
        settled(nodes, current, handed, order[j], total, next, noted),
    ensures
        settling(before, nodes, order, j, next, noted),
        forall|x: u32| noted.contains_key(x) ==> exists|k: int|
            j <= k < order.len() && order[k] == x,
        total == (if order[j] == INIT_PID {
            own_memory(before, order[j])
        } else {
            Storage::spec_from_bytes(noted[order[j]])
        }),
{
    let pid = order[j];
    let done = order.len() as int;
    lemma_walk_not_child_of_later(nodes, root_at, order, done, j, j);
    let home = choose|at: int|
        is_first_at(nodes, pid, at) && noted == handed.insert(
            pid,
            handed_by(current, nodes, handed, at),
        ) && (if pid == INIT_PID {
            total == own_memory(current, pid) && next == current
        } else {
            total == Storage::spec_from_bytes(handed_by(current, nodes, handed, at)) && next
                == recorded_total(current, pid, total)
        });
    let bytes = handed_by(current, nodes, handed, home);
    assert(nodes[home].0 == order[j]);
    assert(noted == handed.insert(pid, bytes));
    assert(own_memory(current, pid) == own_memory(before, pid)) by {
        if before.contains_key(pid) {
            assert(current[pid].memory == before[pid].memory);
        }
    }
    assert(bytes == handed_by(before, nodes, handed, home));
    assert forall|c: int| j < c < order.len() implies handed.contains_key(#[trigger] order[c]) by {
        assert(j + 1 <= c);
    }
    lemma_settling_frame(before, order, j, current, total, next);
    lemma_settling_notes(order, j, handed, bytes);
    assert forall|k: int, at: int|
        j <= k < order.len() && 0 <= at < nodes.len() && #[trigger] nodes[at].0
            == #[trigger] order[k] implies hands_up(before, nodes, noted, at) by {
        lemma_children_noted(nodes, root_at, order, j, k, at, handed, bytes);
        if k == j {
            lemma_place(nodes, pid, at, home);
        } else {
            lemma_walk_not_child_of_later(nodes, root_at, order, done, j, k);
            assert(hands_up(before, nodes, handed, at));
        }
    }
    assert forall|k: int|
        j <= k < order.len() && before.contains_key(#[trigger] order[k]) && order[k]
            != INIT_PID implies next[order[k]].total_memory == Storage::spec_from_bytes(
        noted[order[k]],
    ) by {
        if k > j {
            lemma_walk_not_child_of_later(nodes, root_at, order, done, j, k);
            assert(j + 1 <= k);
            assert(current[order[k]].total_memory == Storage::spec_from_bytes(handed[order[k]]));
        }
    }
}

/// A note for `order[j]`, beside notes for later entries only, leaves notes for entries
/// from `j` on only.
proof fn lemma_settling_notes(order: Seq<u32>, j: int, handed: Map<u32, u64>, bytes: u64)
    requires
        0 <= j < order.len(),
        forall|x: u32| handed.contains_key(x) ==> exists|k: int|
            j + 1 <= k < order.len() && order[k] == x,
    ensures
        forall|x: u32| handed.insert(order[j], bytes).contains_key(x) ==> exists|k: int|
            j <= k < order.len() && order[k] == x,
{
    assert forall|x: u32| handed.insert(order[j], bytes).contains_key(x) implies exists|k: int|
        j <= k < order.len() && order[k] == x by {
        if x == order[j] {
            assert(j <= j < order.len() && order[j] == x);
        } else {
            let k = choose|k: int| j + 1 <= k < order.len() && order[k] == x;
            assert(j <= k < order.len() && order[k] == x);
        }
    }
}

/// Writing the total of `order[j]`, or nothing, keeps all but totals, and leaves alone the
/// first process and what is no entry from `j` on.
proof fn lemma_settling_frame(
    before: Map<u32, ProcessMemoryInfo>,
    order: Seq<u32>,
    j: int,
    current: Map<u32, ProcessMemoryInfo>,
    total: Storage,
    next: Map<u32, ProcessMemoryInfo>,
)
    requires
        0 <= j < order.len(),
        only_totals_differ(before, current),
        forall|pid: u32| #[trigger]
            before.contains_key(pid) && (pid == INIT_PID || !(exists|k: int|
                j + 1 <= k < order.len() && order[k] == pid)) ==> current[pid] == before[pid],
        next == current || (order[j] != INIT_PID && next == recorded_total(
            current,
            order[j],
            total,
        )),
    ensures
        only_totals_differ(before, next),
        forall|pid: u32| #[trigger]
            before.contains_key(pid) && (pid == INIT_PID || !(exists|k: int|
                j <= k < order.len() && order[k] == pid)) ==> next[pid] == before[pid],
{
    assert forall|x: u32| #[trigger]
        before.contains_key(x) && (x == INIT_PID || !(exists|k: int|
            j <= k < order.len() && order[k] == x)) implies next[x] == before[x] by {
        if x != INIT_PID {
            assert(x != order[j]) by {
                if x == order[j] {
                    assert(j <= j < order.len() && order[j] == x);
                }
            }
            assert(!(exists|k: int| j + 1 <= k < order.len() && order[k] == x)) by {
                if exists|k: int| j + 1 <= k < order.len() && order[k] == x {
                    let k = choose|k: int| j + 1 <= k < order.len() && order[k] == x;
                    assert(j <= k < order.len() && order[k] == x);
                }
            }
        }
    }
}

/// Computes the totals of the whole subtree of `pid`, from its leaves up, writes each into
/// its record and returns the total of `pid`: its own memory plus the totals of its
/// children, each of which is in turn its own memory plus the totals of its children.
///
/// A node that the tree does not hold gives zero bytes and changes nothing. For the first
/// process the totals of everything below it are computed and written, but its own total
/// is left as it was and its own memory is returned. A node without a record counts as
/// zero bytes of its own and hands up what its children do. Sums that would pass 64 bits
/// stay at the largest value. The walk keeps a list in place of a call stack, so no chain
/// of ancestors is too long for it.
pub fn calculate_subtree_memory(
    tree: &Tree<u32, String>,
    processes: &mut HashMap<u32, ProcessMemoryInfo>,
    pid: u32,
) -> (total: Storage)
    requires
        well_formed(tree_nodes(*tree)),
    ensures
        subtree_calculated(tree_nodes(*tree), old(processes)@, pid, total, final(processes)@),
{
    let ghost nodes = tree_nodes(*tree);
    let ghost before = processes@;
    let order = match subtree_order(tree, pid) {
        Some(order) => order,
        None => {
            return Storage::from_bytes(0);
        },
    };
    let ghost root_at = choose|root_at: int|
        is_first_at(nodes, pid, root_at) && is_walk(nodes, root_at, order@, order@.len() as int);
    let mut handed: HashMap<u32, u64> = HashMap::new();
    let mut total = Storage::from_bytes(0);
    let mut left = order.len();
    proof {
        lemma_walk_root(nodes, root_at, order@, order@.len() as int);
    }
    while left > 0
        invariant
            0 <= left <= order.len(),
            nodes == tree_nodes(*tree),
            well_formed(nodes),
            is_first_at(nodes, pid, root_at),
            is_walk(nodes, root_at, order@, order@.len() as int),
            settling(before, nodes, order@, left as int, processes@, handed@),
            forall|x: u32| handed@.contains_key(x) ==> exists|k: int|
                left <= k < order@.len() && order@[k] == x,
            1 <= order@.len(),
            order@[0] == pid,
            left == 0 ==> total == (if pid == INIT_PID {
                own_memory(before, pid)
            } else {
                Storage::spec_from_bytes(handed@[pid])
            }),
        decreases left,
    {
        left -= 1;
        let ghost current = processes@;
        let ghost noted = handed@;
        total = settle_node(tree, processes, &mut handed, order[left]);
        proof {
            lemma_settling_step(
                before,
                nodes,
                root_at,
                order@,
                left as int,
                current,
                noted,
                total,
                processes@,
                handed@,
            );
        }
    }
    proof {
        let after = processes@;
        assert(nodes[root_at].0 == pid);
        assert(has_node(nodes, pid));
        assert forall|x: u32| #[trigger]
            before.contains_key(x) && (x == INIT_PID || !in_subtree(
                nodes,
                pid,
                x,
            )) implies after[x] == before[x] by {
            if x != INIT_PID {
                if exists|k: int| 0 <= k < order@.len() && order@[k] == x {
                    let k = choose|k: int| 0 <= k < order@.len() && order@[k] == x;
                    lemma_walk_sound(nodes, root_at, order@, order@.len() as int, k);
                }
            }
        }
        assert forall|at: int|
            0 <= at < nodes.len() && in_subtree(nodes, pid, nodes[at].0) implies {
            &&& exists|k: int| 0 <= k < order@.len() && order@[k] == nodes[at].0
            &&& #[trigger] hands_up(before, nodes, handed@, at)
        } by {
            let steps = choose|steps: nat| descends(nodes, nodes[at].0, pid, steps);
            lemma_walk_complete(nodes, root_at, order@, nodes[at].0, steps);
            let k = choose|k: int| 0 <= k < order@.len() && order@[k] == nodes[at].0;
            assert(nodes[at].0 == order@[k]);
        }
        assert forall|at: int|
            0 <= at < nodes.len() && in_subtree(nodes, pid, (#[trigger] nodes[at]).0)
                && before.contains_key(nodes[at].0) && nodes[at].0
                != INIT_PID implies after[nodes[at].0].total_memory == Storage::spec_from_bytes(
            handed@[nodes[at].0],
        ) by {
            assert(hands_up(before, nodes, handed@, at));
            let k = choose|k: int| 0 <= k < order@.len() && order@[k] == nodes[at].0;
            assert(before.contains_key(order@[k]));
        }
        assert(subtree_settled(nodes, before, pid, total, after, handed@));
        assert forall|at: int|
            0 <= at < nodes.len() && in_subtree(nodes, pid, nodes[at].0) && after.contains_key(
                nodes[at].0,
            ) && all_recorded(after, nodes[at].3) implies #[trigger] is_rolled_up(
            after,
            nodes,
            at,
        ) by {
            let node = nodes[at].0;
            let children = nodes[at].3;
            if node != INIT_PID {
                assert(hands_up(before, nodes, handed@, at));
                assert forall|i: int| 0 <= i < children.len() implies handed@.contains_key(
                    #[trigger] children[i],
                ) && handed_up(after, children[i]) == handed@[children[i]] by {
                    let child = children[i];
                    assert(nodes[at].3.contains(child));
                    assert(nodes[at].3.contains(child) <==> is_child_in(nodes, child, nodes[at].0));
                    let steps = choose|steps: nat| descends(nodes, node, pid, steps);
                    assert(descends(nodes, child, pid, steps + 1));
                    lemma_one_parent(nodes, child, node, node);
                    let below = choose|below: int|
                        0 <= below < nodes.len() && #[trigger] nodes[below].0 == child;
                    assert(in_subtree(nodes, pid, nodes[below].0));
                    assert(hands_up(before, nodes, handed@, below));
                    assert(after.contains_key(child));
                    assert(before.contains_key(child));
                    if child == INIT_PID {
                        assert(after[child] == before[child]);
                    } else {
                        assert((#[trigger] nodes[below]).0 == child);
                        assert(after[child].total_memory == Storage::spec_from_bytes(
                            handed@[child],
                        ));
                        crate::utils::lemma_round_trip(handed@[child]);
                    }
                }
                lemma_sum_of_records(after, handed@, children);
                assert(before.contains_key(node));
                assert(after[node].memory == before[node].memory);
            }
        }
    }
    total
}

/// In a well-formed tree every node is in the subtree of the virtual root.
proof fn lemma_all_below_root(nodes: Seq<NodeRecord>, at: int)
    requires
        well_formed(nodes),
        0 <= at < nodes.len(),
    ensures
        in_subtree(nodes, VIRTUAL_ROOT_PID, nodes[at].0),
    decreases at,
{
    if at == 0 {
        assert(descends(nodes, nodes[0].0, VIRTUAL_ROOT_PID, 0));
    } else {
        let i = choose|i: int| 0 <= i < at && nodes[at].2 == Some(#[trigger] nodes[i].0);
        lemma_all_below_root(nodes, i);
        let steps = choose|steps: nat| descends(nodes, nodes[i].0, VIRTUAL_ROOT_PID, steps);
        assert(nodes[at].0 == nodes[at].0 && nodes[at].2 == Some(nodes[i].0));
        assert(is_child_in(nodes, nodes[at].0, nodes[i].0));
        assert(descends(nodes, nodes[at].0, VIRTUAL_ROOT_PID, steps + 1));
    }
}

/// The two ways to the totals agree: computing the subtree of the virtual root of a
/// hierarchy rolls up the totals of all its processes, as `aggregate_total_memory` does.
pub proof fn lemma_subtree_of_root_is_all(
    procs: Map<u32, ProcessMemoryInfo>,
    nodes: Seq<NodeRecord>,
    total: Storage,
    after: Map<u32, ProcessMemoryInfo>,
)
    requires
        is_process_tree(procs, nodes),
        subtree_calculated(nodes, procs, VIRTUAL_ROOT_PID, total, after),
    ensures
        is_aggregated(procs, nodes, after),
{
    assert(nodes[0].0 == VIRTUAL_ROOT_PID);
    assert(has_node(nodes, VIRTUAL_ROOT_PID));
    assert forall|pid: u32| #[trigger]
        procs.contains_key(pid) && (pid == INIT_PID || !has_node(nodes, pid)) implies after[pid]
        == procs[pid] by {
        if pid != INIT_PID && in_subtree(nodes, VIRTUAL_ROOT_PID, pid) {
            let steps = choose|steps: nat| descends(nodes, pid, VIRTUAL_ROOT_PID, steps);
            let parent = choose|parent: u32| #[trigger]
                is_child_in(nodes, pid, parent) && descends(
                    nodes,
                    parent,
                    VIRTUAL_ROOT_PID,
                    (steps - 1) as nat,
                );
            lemma_one_parent(nodes, pid, parent, parent);
        }
    }
    assert forall|at: int| 1 <= at < nodes.len() implies #[trigger] is_rolled_up(
        after,
        nodes,
        at,
    ) by {
        lemma_all_below_root(nodes, at);
        assert(procs.contains_key(nodes[at].0));
        assert forall|i: int| 0 <= i < nodes[at].3.len() implies after.contains_key(
            #[trigger] nodes[at].3[i],
        ) by {
            let child = nodes[at].3[i];
            assert(nodes[at].3.contains(child));
            assert(nodes[at].3.contains(child) <==> is_child_in(nodes, child, nodes[at].0));
            let below = choose|below: int|
                0 <= below < nodes.len() && #[trigger] nodes[below].0 == child && nodes[below].2
                    == Some(nodes[at].0);
            assert(below >= 1);
            assert(procs.contains_key(nodes[below].0));
        }
    }
}

} // verus!
