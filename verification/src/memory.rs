//! Per-process memory records and the snapshot that holds them.

use crate::aggregate::{aggregate_total_memory, is_aggregated};
use crate::hierarchy::{build_tree, is_process_tree, tree_nodes, TreeError, VIRTUAL_ROOT_PID};
use crate::ranking::{is_ranking, top_processes};
use crate::utils::Storage;
use std::collections::HashMap;
use tree_ds::prelude::Tree;
use vstd::prelude::*;
use vstd::std_specs::hash::{group_hash_axioms, spec_keys_iter};
use vstd::std_specs::iter::IteratorSpec;

verus! {

broadcast use group_hash_axioms;

/// What is known of one process: its own resident memory, who its parent is, and the total
/// that aggregation fills in.
#[derive(Debug)]
pub struct ProcessMemoryInfo {
    pub memory: Storage,
    pub raw_memory: u64,
    pub name: String,
    pub exe: Option<String>,
    pub parent: Option<u32>,
    pub root: Option<String>,
    pub total_memory: Storage,
}

impl ProcessMemoryInfo {
    /// The record of a process as it is first read: its memory in the largest unit that
    /// fits, and a total that is so far that memory alone.
    pub fn new(
        raw_memory: u64,
        name: String,
        exe: Option<String>,
        parent: Option<u32>,
        root: Option<String>,
    ) -> (record: Self)
        ensures
            record == (ProcessMemoryInfo {
                memory: Storage::spec_from_bytes(raw_memory),
                raw_memory,
                name,
                exe,
                parent,
                root,
                total_memory: Storage::spec_from_bytes(raw_memory),
            }),
    {
        let memory = Storage::from_bytes(raw_memory);
        ProcessMemoryInfo { memory, raw_memory, name, exe, parent, root, total_memory: memory }
    }
}

impl Clone for ProcessMemoryInfo {
    fn clone(&self) -> (copy: Self)
        ensures
            copy == *self,
    {
        let exe = match &self.exe {
            Some(path) => Some(path.clone()),
            None => None,
        };
        let root = match &self.root {
            Some(path) => Some(path.clone()),
            None => None,
        };
        ProcessMemoryInfo {
            memory: self.memory,
            raw_memory: self.raw_memory,
            name: self.name.clone(),
            exe,
            parent: self.parent,
            root,
            total_memory: self.total_memory,
        }
    }
}

/// Every sequence that lists each element of `set` exactly once.
pub open spec fn enumerates<T>(order: Seq<T>, set: Set<T>) -> bool {
    &&& order.no_duplicates()
    &&& forall|x: T| order.contains(x) <==> set.contains(x)
}

/// The pids of `processes`, each once, in the order in which the map hands them out.
pub fn pids_of(processes: &HashMap<u32, ProcessMemoryInfo>) -> (pids: Vec<u32>)
    ensures
        enumerates(pids@, processes@.dom()),
{
    let mut pids: Vec<u32> = Vec::new();
    let ghost keys = spec_keys_iter(processes).remaining();
    for pid in it: processes.keys()
        invariant
            it.seq() == keys,
            pids@ =~= it.history().unref(),
    {
        pids.push(*pid);
    }
    proof {
        assert(pids@ =~= keys.unref());
        assert(keys.unref().to_set() == processes@.dom());
        assert forall|i: int, j: int| 0 <= i < j < pids@.len() implies pids@[i] != pids@[j] by {
            assert(keys[i] != keys[j]);
        }
        assert forall|x: u32| pids@.contains(x) <==> processes@.dom().contains(x) by {
            assert(pids@.to_set().contains(x) <==> pids@.contains(x));
        }
    }
    pids
}

/// One reading of the memory of the system and of its processes, with the totals of the
/// processes rolled up along the process hierarchy.
#[derive(Debug)]
pub struct Memory {
    pub total_memory: Storage,
    pub used_memory: Storage,
    pub total_swap: Storage,
    pub used_swap: Storage,
    pub processes: HashMap<u32, ProcessMemoryInfo>,
}

impl Clone for Memory {
    fn clone(&self) -> (copy: Self)
        ensures
            copy.total_memory == self.total_memory,
            copy.used_memory == self.used_memory,
            copy.total_swap == self.total_swap,
            copy.used_swap == self.used_swap,
            copy.processes@ == self.processes@,
    {
        Memory {
            total_memory: self.total_memory,
            used_memory: self.used_memory,
            total_swap: self.total_swap,
            used_swap: self.used_swap,
            processes: self.processes.clone(),
        }
    }
}

impl Memory {
    /// Makes a snapshot of what was read from the system: the four byte counts, each in the
    /// largest unit that fits, and the processes with their totals rolled up along the
    /// hierarchy that their parent pointers give.
    ///
    /// Fails exactly where a process has the id of the virtual root.
    pub fn from_readings(
        total_memory: u64,
        used_memory: u64,
        total_swap: u64,
        used_swap: u64,
        processes: HashMap<u32, ProcessMemoryInfo>,
    ) -> (snapshot: Result<Memory, TreeError>)
        ensures
            match snapshot {
                Ok(memory) => {
                    &&& memory.total_memory == Storage::spec_from_bytes(total_memory)
                    &&& memory.used_memory == Storage::spec_from_bytes(used_memory)
                    &&& memory.total_swap == Storage::spec_from_bytes(total_swap)
                    &&& memory.used_swap == Storage::spec_from_bytes(used_swap)
                    &&& exists|nodes: Seq<crate::hierarchy::NodeRecord>|
                        is_process_tree(processes@, nodes) && #[trigger] is_aggregated(
                            processes@,
                            nodes,
                            memory.processes@,
                        )
                },
                Err(error) => error == TreeError::VirtualRootConflict && processes@.contains_key(
                    VIRTUAL_ROOT_PID,
                ),
            },
    {
        let mut records = processes;
        let tree = match build_tree(&records) {
            Ok(tree) => tree,
            Err(error) => {
                return Err(error);
            },
        };
        aggregate_total_memory(&tree, &mut records);
        let memory = Memory {
            total_memory: Storage::from_bytes(total_memory),
            used_memory: Storage::from_bytes(used_memory),
            total_swap: Storage::from_bytes(total_swap),
            used_swap: Storage::from_bytes(used_swap),
            processes: records,
        };
        proof {
            let nodes = tree_nodes(tree);
            assert(is_process_tree(processes@, nodes) && is_aggregated(
                processes@,
                nodes,
                memory.processes@,
            ));
        }
        Ok(memory)
    }

    /// The `n` processes with the largest totals among those that name no parent or are
    /// direct children of the first process, largest first, each with its pid and a copy of
    /// its record.
    pub fn first(&self, n: usize) -> (top: Vec<(u32, ProcessMemoryInfo)>)
        ensures
            is_ranking(self.processes@, n, top@),
    {
        top_processes(&self.processes, n)
    }

    /// The hierarchy of the processes of the snapshot, for display.
    ///
    /// Fails exactly where a process has the id of the virtual root.
    pub fn process_tree(&self) -> (built: Result<Tree<u32, String>, TreeError>)
        ensures
            match built {
                Ok(tree) => is_process_tree(self.processes@, tree_nodes(tree)),
                Err(error) => error == TreeError::VirtualRootConflict
                    && self.processes@.contains_key(VIRTUAL_ROOT_PID),
            },
    {
        build_tree(&self.processes)
    }
}

} // verus!
