use process_memory::memory::{Memory, ProcessMemoryInfo};
use process_memory::ranking::{larger_total_first, top_processes};
use std::cmp::Ordering;
use std::collections::HashMap;

fn with_total(total: u64, name: &str, parent: Option<u32>) -> ProcessMemoryInfo {
    ProcessMemoryInfo::new(total, name.to_string(), None, parent, None)
}

fn three_candidates() -> HashMap<u32, ProcessMemoryInfo> {
    let mut processes = HashMap::new();
    processes.insert(11, with_total(30, "middle", None));
    processes.insert(12, with_total(10, "small", Some(1)));
    processes.insert(13, with_total(50, "large", None));
    processes
}

fn totals(ranked: &Vec<(u32, ProcessMemoryInfo)>) -> Vec<u64> {
    ranked.iter().map(|entry| entry.1.total_memory.to_bytes()).collect()
}

#[test]
fn top_two_of_three_come_largest_first() {
    let ranked = top_processes(&three_candidates(), 2);
    assert_eq!(totals(&ranked), vec![50, 30]);
    assert_eq!(ranked[0].0, 13);
    assert_eq!(ranked[1].0, 11);
    assert_eq!(ranked[0].1.name, "large");
}

#[test]
fn top_zero_is_empty() {
    assert!(top_processes(&three_candidates(), 0).is_empty());
}

#[test]
fn top_of_more_than_there_are_gives_all() {
    let ranked = top_processes(&three_candidates(), 7);
    assert_eq!(totals(&ranked), vec![50, 30, 10]);
}

#[test]
fn only_top_level_and_children_of_the_first_process_are_ranked() {
    let mut processes = three_candidates();
    processes.insert(1, with_total(5, "init", None));
    processes.insert(20, with_total(1000, "deep", Some(13)));
    processes.insert(21, with_total(2000, "lost", Some(999)));
    let ranked = top_processes(&processes, 10);
    assert_eq!(totals(&ranked), vec![50, 30, 10, 5]);
}

#[test]
fn ranking_goes_by_the_rolled_up_total() {
    let mut processes = HashMap::new();
    processes.insert(40, with_total(10, "parent", None));
    processes.insert(41, with_total(500, "child", Some(40)));
    processes.insert(42, with_total(100, "single", None));
    let snapshot = Memory::from_readings(0, 0, 0, 0, processes).unwrap();
    let ranked = snapshot.first(2);
    assert_eq!(ranked.len(), 2);
    assert_eq!(ranked[0].0, 40);
    assert_eq!(ranked[0].1.total_memory.to_bytes(), 510);
    assert_eq!(ranked[1].0, 42);
    assert_eq!(snapshot.processes.len(), 3);
}

#[test]
fn equal_totals_are_both_kept() {
    let mut processes = HashMap::new();
    processes.insert(1, with_total(7, "a", None));
    processes.insert(2, with_total(7, "b", None));
    processes.insert(3, with_total(9, "c", None));
    let ranked = top_processes(&processes, 3);
    assert_eq!(totals(&ranked), vec![9, 7, 7]);
    let mut pids: Vec<u32> = ranked.iter().map(|entry| entry.0).collect();
    pids.sort();
    assert_eq!(pids, vec![1, 2, 3]);
}

#[test]
fn larger_total_is_the_lesser_entry() {
    assert_eq!(larger_total_first(&(50, 1), &(30, 2)), Ordering::Less);
    assert_eq!(larger_total_first(&(30, 1), &(50, 2)), Ordering::Greater);
    assert_eq!(larger_total_first(&(30, 1), &(30, 2)), Ordering::Equal);
}

#[test]
fn many_candidates_come_out_sorted() {
    let mut processes = HashMap::new();
    for pid in 1..41u32 {
        let total = (u64::from(pid) * 7) % 41 + 1;
        processes.insert(pid, with_total(total, "p", None));
    }
    let ranked = top_processes(&processes, 40);
    let expected: Vec<u64> = (2..42u64).rev().collect();
    assert_eq!(totals(&ranked), expected);
    let best = top_processes(&processes, 3);
    assert_eq!(totals(&best), vec![41, 40, 39]);
}
