use process_memory::aggregate::{
    aggregate_total_memory, calculate_subtree_memory, handed_up_bytes, roll_up_node,
    top_down_order,
};
use process_memory::hierarchy::{build_tree, build_tree_in_order, TreeError};
use process_memory::memory::{pids_of, Memory, ProcessMemoryInfo};
use process_memory::utils::{Storage, Unit};
use std::collections::HashMap;

fn record(raw_memory: u64, name: &str, parent: Option<u32>) -> ProcessMemoryInfo {
    ProcessMemoryInfo::new(raw_memory, name.to_string(), None, parent, None)
}

fn chain() -> HashMap<u32, ProcessMemoryInfo> {
    let mut processes = HashMap::new();
    processes.insert(2, record(10, "two", None));
    processes.insert(3, record(20, "three", Some(2)));
    processes.insert(4, record(30, "four", Some(3)));
    processes
}

fn sorted(mut ids: Vec<u32>) -> Vec<u32> {
    ids.sort();
    ids
}

fn children(tree: &tree_ds::prelude::Tree<u32, String>, id: u32) -> Vec<u32> {
    sorted(tree.get_node_by_id(&id).unwrap().get_children_ids().unwrap())
}

#[test]
fn new_record_starts_with_its_own_memory_as_total() {
    let info = ProcessMemoryInfo::new(
        1536,
        "init".to_string(),
        Some("/sbin/init".to_string()),
        Some(7),
        Some("/".to_string()),
    );
    assert_eq!(info.memory, Storage::new(1, 512, Unit::KB));
    assert_eq!(info.total_memory, Storage::new(1, 512, Unit::KB));
    assert_eq!(info.raw_memory, 1536);
    assert_eq!(info.name, "init");
    assert_eq!(info.exe, Some("/sbin/init".to_string()));
    assert_eq!(info.parent, Some(7));
    assert_eq!(info.root, Some("/".to_string()));
    let copy = info.clone();
    assert_eq!(copy.name, info.name);
    assert_eq!(copy.exe, info.exe);
    assert_eq!(copy.root, info.root);
    assert_eq!(copy.total_memory, info.total_memory);
}

#[test]
fn tree_of_a_chain_has_every_edge() {
    let tree = build_tree(&chain()).unwrap();
    assert_eq!(tree.get_nodes().len(), 4);
    assert_eq!(children(&tree, 0), vec![2]);
    assert_eq!(children(&tree, 2), vec![3]);
    assert_eq!(children(&tree, 3), vec![4]);
    assert_eq!(children(&tree, 4), Vec::<u32>::new());
    let three = tree.get_node_by_id(&3).unwrap();
    assert_eq!(three.get_parent_id().unwrap(), Some(2));
    assert_eq!(three.get_value().unwrap(), Some("three".to_string()));
    let root = tree.get_node_by_id(&0).unwrap();
    assert_eq!(root.get_parent_id().unwrap(), None);
    assert_eq!(root.get_value().unwrap(), Some("virtual root".to_string()));
    assert_eq!(tree.get_name(), Some("Process Tree"));
}

#[test]
fn tree_aggregation_rolls_totals_up_the_chain() {
    let mut processes = chain();
    let tree = build_tree(&processes).unwrap();
    aggregate_total_memory(&tree, &mut processes);
    assert_eq!(processes[&4].total_memory.to_bytes(), 30);
    assert_eq!(processes[&3].total_memory.to_bytes(), 50);
    assert_eq!(processes[&2].total_memory.to_bytes(), 60);
    assert_eq!(processes[&2].memory.to_bytes(), 10);
    assert_eq!(processes[&2].name, "two");
}

#[test]
fn order_of_the_input_does_not_change_tree_or_totals() {
    let processes = chain();
    let forward = build_tree_in_order(&processes, &vec![2, 3, 4]).unwrap();
    let backward = build_tree_in_order(&processes, &vec![4, 3, 2]).unwrap();
    let mixed = build_tree_in_order(&processes, &vec![3, 2, 4]).unwrap();
    for tree in [&forward, &backward, &mixed] {
        assert_eq!(tree.get_nodes().len(), 4);
        assert_eq!(children(tree, 0), vec![2]);
        assert_eq!(children(tree, 2), vec![3]);
        assert_eq!(children(tree, 3), vec![4]);
        let mut totals = chain();
        aggregate_total_memory(tree, &mut totals);
        assert_eq!(totals[&4].total_memory, Storage::from_bytes(30));
        assert_eq!(totals[&3].total_memory, Storage::from_bytes(50));
        assert_eq!(totals[&2].total_memory, Storage::from_bytes(60));
    }
}

#[test]
fn waiting_subtree_is_attached_when_its_root_arrives() {
    let mut processes = HashMap::new();
    processes.insert(10, record(1, "a", None));
    processes.insert(11, record(2, "b", Some(10)));
    processes.insert(12, record(4, "c", Some(10)));
    processes.insert(13, record(8, "d", Some(11)));
    processes.insert(14, record(16, "e", Some(13)));
    let tree = build_tree_in_order(&processes, &vec![14, 13, 12, 11, 10]).unwrap();
    assert_eq!(tree.get_nodes().len(), 6);
    assert_eq!(children(&tree, 0), vec![10]);
    assert_eq!(children(&tree, 10), vec![11, 12]);
    assert_eq!(children(&tree, 11), vec![13]);
    assert_eq!(children(&tree, 13), vec![14]);
    aggregate_total_memory(&tree, &mut processes);
    assert_eq!(processes[&14].total_memory.to_bytes(), 16);
    assert_eq!(processes[&13].total_memory.to_bytes(), 24);
    assert_eq!(processes[&12].total_memory.to_bytes(), 4);
    assert_eq!(processes[&11].total_memory.to_bytes(), 26);
    assert_eq!(processes[&10].total_memory.to_bytes(), 31);
}

#[test]
fn dangling_parent_keeps_the_subtree_out() {
    let mut processes = chain();
    processes.insert(5, record(100, "five", Some(999)));
    processes.insert(6, record(200, "six", Some(5)));
    let tree = build_tree(&processes).unwrap();
    assert_eq!(tree.get_nodes().len(), 4);
    assert!(tree.get_node_by_id(&5).is_none());
    assert!(tree.get_node_by_id(&6).is_none());
    assert!(tree.get_node_by_id(&999).is_none());
    aggregate_total_memory(&tree, &mut processes);
    assert_eq!(processes[&5].total_memory.to_bytes(), 100);
    assert_eq!(processes[&6].total_memory.to_bytes(), 200);
    assert_eq!(processes[&2].total_memory.to_bytes(), 60);
    let snapshot = Memory::from_readings(0, 0, 0, 0, processes).unwrap();
    let ranked = snapshot.first(10);
    assert_eq!(ranked.len(), 1);
    assert_eq!(ranked[0].0, 2);
}

#[test]
fn parent_pointers_in_a_circle_stay_out() {
    let mut processes = HashMap::new();
    processes.insert(7, record(1, "seven", Some(8)));
    processes.insert(8, record(2, "eight", Some(7)));
    processes.insert(9, record(4, "nine", Some(9)));
    processes.insert(20, record(8, "twenty", None));
    let tree = build_tree(&processes).unwrap();
    assert_eq!(tree.get_nodes().len(), 2);
    assert_eq!(children(&tree, 0), vec![20]);
}

#[test]
fn child_of_the_reserved_id_stays_out() {
    let mut processes = HashMap::new();
    processes.insert(30, record(1, "thirty", Some(0)));
    processes.insert(31, record(2, "thirty-one", None));
    let tree = build_tree(&processes).unwrap();
    assert_eq!(children(&tree, 0), vec![31]);
    assert!(tree.get_node_by_id(&30).is_none());
}

#[test]
fn root_special_case_leaves_the_first_process_alone() {
    let mut processes = HashMap::new();
    processes.insert(1, record(5, "init", None));
    processes.insert(100, record(15, "child", Some(1)));
    let snapshot = Memory::from_readings(0, 0, 0, 0, processes).unwrap();
    assert_eq!(snapshot.processes[&100].total_memory.to_bytes(), 15);
    assert_eq!(snapshot.processes[&1].total_memory.to_bytes(), 5);
}

#[test]
fn first_process_hands_up_only_its_own_memory() {
    let mut processes = HashMap::new();
    processes.insert(50, record(1, "above", None));
    processes.insert(1, record(5, "init", Some(50)));
    processes.insert(100, record(15, "child", Some(1)));
    processes.insert(101, record(7, "grandchild", Some(100)));
    let snapshot = Memory::from_readings(0, 0, 0, 0, processes).unwrap();
    assert_eq!(snapshot.processes[&101].total_memory.to_bytes(), 7);
    assert_eq!(snapshot.processes[&100].total_memory.to_bytes(), 22);
    assert_eq!(snapshot.processes[&1].total_memory.to_bytes(), 5);
    assert_eq!(snapshot.processes[&50].total_memory.to_bytes(), 6);
}

#[test]
fn empty_input_gives_the_virtual_root_alone() {
    let mut processes: HashMap<u32, ProcessMemoryInfo> = HashMap::new();
    let tree = build_tree(&processes).unwrap();
    assert_eq!(tree.get_nodes().len(), 1);
    aggregate_total_memory(&tree, &mut processes);
    assert!(processes.is_empty());
}

#[test]
fn reserved_id_is_a_conflict() {
    let mut processes = chain();
    processes.insert(0, record(1, "zero", None));
    assert_eq!(build_tree(&processes).err(), Some(TreeError::VirtualRootConflict));
    let mut dangling = chain();
    dangling.insert(0, record(1, "zero", Some(999)));
    assert_eq!(build_tree(&dangling).err(), Some(TreeError::VirtualRootConflict));
    assert_eq!(
        Memory::from_readings(1, 2, 3, 4, dangling).err(),
        Some(TreeError::VirtualRootConflict)
    );
}

#[test]
fn one_node_total_is_own_plus_recorded_totals_of_children() {
    let mut processes = chain();
    let tree = build_tree(&processes).unwrap();
    let top = roll_up_node(&tree, &mut processes, 2);
    assert_eq!(top, Storage::from_bytes(30));
    assert_eq!(processes[&2].total_memory, Storage::from_bytes(30));
    assert_eq!(processes[&3].total_memory, Storage::from_bytes(20));
    let leaf = roll_up_node(&tree, &mut processes, 4);
    assert_eq!(leaf, Storage::from_bytes(30));
    let middle = roll_up_node(&tree, &mut processes, 3);
    assert_eq!(middle, Storage::from_bytes(50));
    assert_eq!(processes[&3].total_memory, Storage::from_bytes(50));
    let missing = roll_up_node(&tree, &mut processes, 999);
    assert_eq!(missing, Storage::new(0, 0, Unit::B));
    assert_eq!(processes.len(), 3);
}

#[test]
fn subtree_total_walks_the_whole_subtree() {
    let mut processes = chain();
    let tree = build_tree(&processes).unwrap();
    let top = calculate_subtree_memory(&tree, &mut processes, 2);
    assert_eq!(top, Storage::from_bytes(60));
    assert_eq!(processes[&2].total_memory, Storage::from_bytes(60));
    assert_eq!(processes[&3].total_memory, Storage::from_bytes(50));
    assert_eq!(processes[&4].total_memory, Storage::from_bytes(30));
}

#[test]
fn subtree_total_leaves_the_rest_of_the_tree_alone() {
    let mut processes = chain();
    processes.insert(8, record(1, "eight", Some(2)));
    processes.insert(9, record(2, "nine", Some(8)));
    let tree = build_tree(&processes).unwrap();
    let middle = calculate_subtree_memory(&tree, &mut processes, 3);
    assert_eq!(middle, Storage::from_bytes(50));
    assert_eq!(processes[&4].total_memory.to_bytes(), 30);
    assert_eq!(processes[&3].total_memory.to_bytes(), 50);
    assert_eq!(processes[&2].total_memory.to_bytes(), 10);
    assert_eq!(processes[&8].total_memory.to_bytes(), 1);
    let missing = calculate_subtree_memory(&tree, &mut processes, 999);
    assert_eq!(missing, Storage::new(0, 0, Unit::B));
    assert_eq!(processes[&2].total_memory.to_bytes(), 10);
    let all = calculate_subtree_memory(&tree, &mut processes, 0);
    assert_eq!(all, Storage::from_bytes(63));
    assert_eq!(processes[&2].total_memory.to_bytes(), 63);
    assert_eq!(processes[&8].total_memory.to_bytes(), 3);
    assert_eq!(processes.len(), 5);
}

#[test]
fn subtree_total_of_the_first_process_is_its_own_memory() {
    let mut processes = HashMap::new();
    processes.insert(1, record(5, "init", None));
    processes.insert(100, record(15, "child", Some(1)));
    processes.insert(101, record(7, "grandchild", Some(100)));
    let tree = build_tree(&processes).unwrap();
    let first = calculate_subtree_memory(&tree, &mut processes, 1);
    assert_eq!(first, Storage::from_bytes(5));
    assert_eq!(processes[&1].total_memory.to_bytes(), 5);
    assert_eq!(processes[&100].total_memory.to_bytes(), 22);
    assert_eq!(processes[&101].total_memory.to_bytes(), 7);
}

#[test]
fn totals_stop_at_the_largest_value() {
    let mut processes = HashMap::new();
    processes.insert(2, record(u64::MAX - 5, "big", None));
    processes.insert(3, record(10, "small", Some(2)));
    processes.insert(4, record(u64::MAX, "huge", Some(2)));
    let snapshot = Memory::from_readings(0, 0, 0, 0, processes).unwrap();
    assert_eq!(snapshot.processes[&2].total_memory.to_bytes(), u64::MAX);
    assert_eq!(snapshot.processes[&3].total_memory.to_bytes(), 10);
}

#[test]
fn snapshot_holds_the_system_readings() {
    let snapshot = Memory::from_readings(
        16 * 1024 * 1024 * 1024,
        3 * 1024 * 1024 + 256,
        1024,
        0,
        chain(),
    )
    .unwrap();
    assert_eq!(snapshot.total_memory, Storage::new(16, 0, Unit::GB));
    assert_eq!(snapshot.used_memory, Storage::new(3, 256, Unit::MB));
    assert_eq!(snapshot.total_swap, Storage::new(1, 0, Unit::KB));
    assert_eq!(snapshot.used_swap, Storage::new(0, 0, Unit::B));
    assert_eq!(snapshot.processes.len(), 3);
    assert_eq!(snapshot.processes[&2].total_memory.to_bytes(), 60);
}

#[test]
fn test_first() {
    let info = Memory::from_readings(0, 0, 0, 0, chain()).unwrap();
    let first = info.first(10);
    for (pid, process) in first {
        println!("{}: {}, {}", pid, process.name, process.total_memory.to_bytes());
    }
}

#[test]
fn test_process_tree() {
    let info = Memory::from_readings(0, 0, 0, 0, chain()).unwrap();
    let tree = info.process_tree().unwrap();
    println!("{}", tree);
}

#[test]
fn pids_are_listed_each_once() {
    assert_eq!(sorted(pids_of(&chain())), vec![2, 3, 4]);
    assert!(pids_of(&HashMap::new()).is_empty());
}

#[test]
fn top_down_order_lists_parents_first() {
    let mut processes = chain();
    processes.insert(8, record(1, "eight", Some(2)));
    processes.insert(9, record(1, "nine", None));
    processes.insert(5, record(1, "five", Some(999)));
    let tree = build_tree(&processes).unwrap();
    let order = top_down_order(&tree);
    assert_eq!(sorted(order.clone()), vec![2, 3, 4, 8, 9]);
    let place = |pid: u32| order.iter().position(|entry| *entry == pid).unwrap();
    assert!(place(2) < place(3));
    assert!(place(3) < place(4));
    assert!(place(2) < place(8));
}

#[test]
fn what_a_process_hands_up() {
    let mut processes = HashMap::new();
    processes.insert(1, record(5, "init", None));
    processes.insert(100, record(15, "child", Some(1)));
    processes.get_mut(&1).unwrap().total_memory = Storage::from_bytes(999);
    processes.get_mut(&100).unwrap().total_memory = Storage::from_bytes(40);
    assert_eq!(handed_up_bytes(&processes, 1), 5);
    assert_eq!(handed_up_bytes(&processes, 100), 40);
    assert_eq!(handed_up_bytes(&processes, 7), 0);
}

#[test]
fn snapshot_copy_is_equal() {
    let snapshot = Memory::from_readings(2048, 1024, 0, 0, chain()).unwrap();
    let copy = snapshot.clone();
    assert_eq!(copy.total_memory, snapshot.total_memory);
    assert_eq!(copy.used_memory, snapshot.used_memory);
    assert_eq!(copy.processes.len(), 3);
    assert_eq!(copy.processes[&3].total_memory, snapshot.processes[&3].total_memory);
}

#[test]
fn node_without_a_record_hands_up_what_its_children_do() {
    let mut processes = chain();
    let tree = build_tree(&processes).unwrap();
    processes.remove(&3);
    let top = calculate_subtree_memory(&tree, &mut processes, 2);
    assert_eq!(top, Storage::from_bytes(40));
    assert_eq!(processes[&2].total_memory.to_bytes(), 40);
    assert_eq!(processes[&4].total_memory.to_bytes(), 30);
    assert_eq!(processes.len(), 2);
    let middle = calculate_subtree_memory(&tree, &mut processes, 3);
    assert_eq!(middle, Storage::from_bytes(30));
}
