//! The processes that use the most memory, largest total first.

use crate::aggregate::INIT_PID;
use crate::memory::{enumerates, pids_of, ProcessMemoryInfo};
use itertools::Itertools;
use std::cmp::Ordering;
use std::collections::HashMap;
use vstd::prelude::*;
use vstd::std_specs::hash::group_hash_axioms;

verus! {

broadcast use group_hash_axioms;

/// Whether `pid` is ranked: a process at the top level, which names no parent, or a direct
/// child of the first process.
pub open spec fn is_candidate(procs: Map<u32, ProcessMemoryInfo>, pid: u32) -> bool {
    &&& procs.contains_key(pid)
    &&& (procs[pid].parent is None || procs[pid].parent == Some(INIT_PID))
}

/// The ranked processes.
pub open spec fn candidates(procs: Map<u32, ProcessMemoryInfo>) -> Set<u32> {
    procs.dom().filter(|pid: u32| is_candidate(procs, pid))
}

/// Whether `top` is a ranking of the first `n` candidates of `procs`: as many of them as
/// there are, up to `n`; each once, with its record; the larger total first; and no
/// candidate that was left out has a larger total than one that was taken. Which of two
/// candidates with equal totals comes first, or is taken at all, is left open.
pub open spec fn is_ranking(
    procs: Map<u32, ProcessMemoryInfo>,
    n: usize,
    top: Seq<(u32, ProcessMemoryInfo)>,
) -> bool {
    &&& top.len() == (if n <= candidates(procs).len() {
        n as nat
    } else {
        candidates(procs).len()
    })
    &&& forall|i: int|
        0 <= i < top.len() ==> is_candidate(procs, (#[trigger] top[i]).0) && top[i].1
            == procs[top[i].0]
    &&& forall|i: int, j: int|
        0 <= i < j < top.len() ==> (#[trigger] top[i]).0 != (#[trigger] top[j]).0
    &&& forall|i: int, j: int|
        0 <= i < j < top.len() ==> (#[trigger] top[i]).1.total_memory.spec_to_bytes()
            >= (#[trigger] top[j]).1.total_memory.spec_to_bytes()
    &&& forall|pid: u32, i: int|
        #![trigger is_candidate(procs, pid), top[i]]
        is_candidate(procs, pid) && 0 <= i < top.len() && (forall|k: int|
            0 <= k < top.len() ==> (#[trigger] top[k]).0 != pid)
            ==> procs[pid].total_memory.spec_to_bytes() <= top[i].1.total_memory.spec_to_bytes()
}

/// The order in which two entries of total and pid are ranked: the one with the larger
/// total is the lesser, so that sorting puts it first.
pub fn larger_total_first(a: &(u64, u32), b: &(u64, u32)) -> (order: Ordering)
    ensures
        a.0 > b.0 ==> order is Less,
        a.0 < b.0 ==> order is Greater,
        a.0 == b.0 ==> order is Equal,
{
    if a.0 > b.0 {
        Ordering::Less
    } else if a.0 < b.0 {
        Ordering::Greater
    } else {
        Ordering::Equal
    }
}

/// `Itertools::sorted_by` of `itertools` with `larger_total_first` as the comparison, and
/// `Itertools::collect_vec` on what it returns.
///
/// `sorted_by` collects the items into a vector, sorts it with `slice::sort_by` and hands
/// it out again: the same entries, those with the larger total first. The sort is stable:
/// entries with equal totals stay in the order in which they came.
#[verifier::external_body]
fn sorted_by_total(entries: Vec<(u64, u32)>) -> (sorted: Vec<(u64, u32)>)
    ensures
        sorted@.to_multiset() == entries@.to_multiset(),
        forall|i: int, j: int| 0 <= i < j < sorted@.len() ==> sorted@[i].0 >= sorted@[j].0,
        entries@.no_duplicates() ==> forall|i: int, j: int|
            0 <= i < j < sorted@.len() && sorted@[i].0 == sorted@[j].0 ==> entries@.index_of(
                sorted@[i],
            ) < entries@.index_of(sorted@[j]),
{
    entries.into_iter().sorted_by(|a, b| larger_total_first(a, b)).collect_vec()
}

/// The totals and pids of the candidates among `processes`, each candidate once.
fn candidate_entries(processes: &HashMap<u32, ProcessMemoryInfo>) -> (entries: Vec<(u64, u32)>)
    ensures
        entries@.no_duplicates(),
        entries@.len() == candidates(processes@).len(),
        forall|k: int|
            0 <= k < entries@.len() ==> is_candidate(processes@, (#[trigger] entries@[k]).1)
                && entries@[k].0 == processes@[entries@[k].1].total_memory.spec_to_bytes(),
        forall|pid: u32|
            is_candidate(processes@, pid) ==> entries@.contains(
                (processes@[pid].total_memory.spec_to_bytes(), pid),
            ),
{
    let pids = pids_of(processes);
    let mut entries: Vec<(u64, u32)> = Vec::new();
    let mut i: usize = 0;
    while i < pids.len()
        invariant
            0 <= i <= pids.len(),
            enumerates(pids@, processes@.dom()),
            forall|k: int|
                0 <= k < entries@.len() ==> is_candidate(processes@, (#[trigger] entries@[k]).1)
                    && entries@[k].0 == processes@[entries@[k].1].total_memory.spec_to_bytes()
                    && exists|m: int| 0 <= m < i && pids@[m] == entries@[k].1,
            forall|a: int, b: int|
                0 <= a < b < entries@.len() ==> (#[trigger] entries@[a]).1 != (
                #[trigger] entries@[b]).1,
            forall|m: int|
                0 <= m < i && is_candidate(processes@, #[trigger] pids@[m]) ==> entries@.contains(
                    (processes@[pids@[m]].total_memory.spec_to_bytes(), pids@[m]),
                ),
        decreases pids.len() - i,
    {
        let pid = pids[i];
        let ghost before = entries@;
        proof {
            assert(pids@.contains(pid));
        }
        match processes.get(&pid) {
            Some(process) => {
                let ranked = match process.parent {
                    None => true,
                    Some(parent) => parent == INIT_PID,
                };
                if ranked {
                    entries.push((process.total_memory.to_bytes(), pid));
                    proof {
                        let last = before.len() as int;
                        assert(entries@[last] == (process.total_memory.spec_to_bytes(), pid));
                        assert forall|a: int, b: int| 0 <= a < b < entries@.len() implies (
                        #[trigger] entries@[a]).1 != (#[trigger] entries@[b]).1 by {
                            if b == last {
                                assert(before[a] == entries@[a]);
                                let m = choose|m: int| 0 <= m < i && pids@[m] == before[a].1;
                                assert(pids@[m] != pids@[i as int]);
                            } else {
                                assert(before[a] == entries@[a] && before[b] == entries@[b]);
                            }
                        }
                    }
                }
            },
            None => {},
        }
        proof {
            assert forall|m: int|
                0 <= m < i + 1 && is_candidate(
                    processes@,
                    #[trigger] pids@[m],
                ) implies entries@.contains(
                (processes@[pids@[m]].total_memory.spec_to_bytes(), pids@[m]),
            ) by {
                let entry = (processes@[pids@[m]].total_memory.spec_to_bytes(), pids@[m]);
                if m < i {
                    assert(before.contains(entry));
                    let k = choose|k: int| 0 <= k < before.len() && before[k] == entry;
                    assert(entries@[k] == entry);
                } else {
                    assert(entries@[before.len() as int] == entry);
                }
            }
            assert forall|k: int| 0 <= k < entries@.len() implies is_candidate(
                processes@,
                (#[trigger] entries@[k]).1,
            ) && entries@[k].0 == processes@[entries@[k].1].total_memory.spec_to_bytes()
                && exists|m: int| 0 <= m < i + 1 && pids@[m] == entries@[k].1 by {
                if k < before.len() {
                    assert(before[k] == entries@[k]);
                    let m = choose|m: int| 0 <= m < i && pids@[m] == before[k].1;
                    assert(0 <= m < i + 1 && pids@[m] == entries@[k].1);
                } else {
                    assert(0 <= i < i + 1 && pids@[i as int] == entries@[k].1);
                }
            }
        }
        i += 1;
    }
    proof {
        assert forall|pid: u32| is_candidate(processes@, pid) implies entries@.contains(
            (processes@[pid].total_memory.spec_to_bytes(), pid),
        ) by {
            assert(pids@.contains(pid));
            let m = choose|m: int| 0 <= m < pids@.len() && pids@[m] == pid;
            assert(is_candidate(processes@, pids@[m]));
        }
        assert forall|a: int, b: int| 0 <= a < b < entries@.len() implies entries@[a]
            != entries@[b] by {
            assert(entries@[a].1 != entries@[b].1);
        }
        lemma_count(processes@, entries@);
    }
    entries
}

/// A list that holds each candidate once is as long as there are candidates.
proof fn lemma_count(procs: Map<u32, ProcessMemoryInfo>, entries: Seq<(u64, u32)>)
    requires
        procs.dom().finite(),
        forall|k: int| 0 <= k < entries.len() ==> is_candidate(procs, (#[trigger] entries[k]).1),
        forall|a: int, b: int|
            0 <= a < b < entries.len() ==> (#[trigger] entries[a]).1 != (#[trigger] entries[b]).1,
        forall|pid: u32|
            is_candidate(procs, pid) ==> entries.contains(
                (procs[pid].total_memory.spec_to_bytes(), pid),
            ),
    ensures
        entries.len() == candidates(procs).len(),
{
    let pids = entries.map_values(|entry: (u64, u32)| entry.1);
    assert forall|a: int, b: int| 0 <= a < b < pids.len() implies pids[a] != pids[b] by {
        assert(entries[a].1 != entries[b].1);
    }
    pids.unique_seq_to_set();
    assert(pids.to_set() =~= candidates(procs)) by {
        assert forall|pid: u32| pids.to_set().contains(pid) <==> candidates(procs).contains(
            pid,
        ) by {
            if pids.to_set().contains(pid) {
                let k = choose|k: int| 0 <= k < pids.len() && pids[k] == pid;
                assert(is_candidate(procs, entries[k].1));
            }
            if candidates(procs).contains(pid) {
                let entry = (procs[pid].total_memory.spec_to_bytes(), pid);
                let k = choose|k: int| 0 <= k < entries.len() && entries[k] == entry;
                assert(pids[k] == pid);
            }
        }
    }
}

/// The `n` candidates of `processes` with the largest totals, largest first, each with its
/// pid and a copy of its record. With fewer than `n` candidates all of them are returned;
/// with `n` zero none.
pub fn top_processes(processes: &HashMap<u32, ProcessMemoryInfo>, n: usize) -> (top: Vec<
    (u32, ProcessMemoryInfo),
>)
    ensures
        is_ranking(processes@, n, top@),
{
    let entries = candidate_entries(processes);
    let ghost unsorted = entries@;
    let sorted = sorted_by_total(entries);
    proof {
        vstd::seq_lib::to_multiset_len(unsorted);
        vstd::seq_lib::to_multiset_len(sorted@);
        unsorted.lemma_multiset_has_no_duplicates();
        assert forall|x: (u64, u32)| sorted@.contains(x) <==> unsorted.contains(x) by {
            vstd::seq_lib::to_multiset_contains(sorted@, x);
            vstd::seq_lib::to_multiset_contains(unsorted, x);
        }
        assert(forall|x: (u64, u32)|
            sorted@.to_multiset().contains(x) ==> sorted@.to_multiset().count(x) == 1);
        sorted@.lemma_multiset_has_no_duplicates_conv();
        assert forall|k: int| 0 <= k < sorted@.len() implies is_candidate(
            processes@,
            (#[trigger] sorted@[k]).1,
        ) && sorted@[k].0 == processes@[sorted@[k].1].total_memory.spec_to_bytes() by {
            assert(sorted@.contains(sorted@[k]));
            assert(unsorted.contains(sorted@[k]));
            let m = choose|m: int| 0 <= m < unsorted.len() && unsorted[m] == sorted@[k];
            assert(is_candidate(processes@, unsorted[m].1));
        }
    }
    let mut top: Vec<(u32, ProcessMemoryInfo)> = Vec::new();
    let mut i: usize = 0;
    while i < sorted.len() && i < n
        invariant
            0 <= i <= sorted.len(),
            i <= n,
            top@.len() == i,
            forall|k: int|
                0 <= k < sorted@.len() ==> is_candidate(processes@, (#[trigger] sorted@[k]).1)
                    && sorted@[k].0 == processes@[sorted@[k].1].total_memory.spec_to_bytes(),
            forall|k: int|
                0 <= k < i ==> (#[trigger] top@[k]).0 == sorted@[k].1 && top@[k].1
                    == processes@[sorted@[k].1],
        decreases sorted.len() - i,
    {
        let pid = sorted[i].1;
        let ghost before = top@;
        match processes.get(&pid) {
            Some(process) => {
                top.push((pid, process.clone()));
            },
            None => {
                proof {
                    assert(is_candidate(processes@, sorted@[i as int].1));
                    assert(false);
                }
            },
        }
        proof {
            assert forall|k: int| 0 <= k < i + 1 implies (#[trigger] top@[k]).0 == sorted@[k].1
                && top@[k].1 == processes@[sorted@[k].1] by {
                if k < i {
                    assert(before[k] == top@[k]);
                }
            }
        }
        i += 1;
    }
    proof {
        let ranked = top@;
        assert forall|a: int, b: int| 0 <= a < b < ranked.len() implies (
        #[trigger] ranked[a]).0 != (#[trigger] ranked[b]).0 by {
            assert(sorted@[a] != sorted@[b]);
            assert(sorted@[a].0 == processes@[sorted@[a].1].total_memory.spec_to_bytes());
            assert(sorted@[b].0 == processes@[sorted@[b].1].total_memory.spec_to_bytes());
        }
        assert forall|a: int, b: int| 0 <= a < b < ranked.len() implies (
        #[trigger] ranked[a]).1.total_memory.spec_to_bytes() >= (
        #[trigger] ranked[b]).1.total_memory.spec_to_bytes() by {
            assert(sorted@[a].0 >= sorted@[b].0);
            assert(sorted@[a].0 == processes@[sorted@[a].1].total_memory.spec_to_bytes());
            assert(sorted@[b].0 == processes@[sorted@[b].1].total_memory.spec_to_bytes());
        }
        assert forall|pid: u32, a: int|
            #![trigger is_candidate(processes@, pid), ranked[a]]
            is_candidate(processes@, pid) && 0 <= a < ranked.len() && (forall|k: int|
                0 <= k < ranked.len() ==> (#[trigger] ranked[k]).0 != pid)
                implies processes@[pid].total_memory.spec_to_bytes()
            <= ranked[a].1.total_memory.spec_to_bytes() by {
            let entry = (processes@[pid].total_memory.spec_to_bytes(), pid);
            assert(unsorted.contains(entry));
            assert(sorted@.contains(entry));
            let at = choose|at: int| 0 <= at < sorted@.len() && sorted@[at] == entry;
            if at < ranked.len() {
                assert(ranked[at].0 == pid);
            }
            assert(sorted@[a].0 >= sorted@[at].0);
            assert(sorted@[a].0 == processes@[sorted@[a].1].total_memory.spec_to_bytes());
        }
        assert forall|a: int| 0 <= a < ranked.len() implies is_candidate(
            processes@,
            (#[trigger] ranked[a]).0,
        ) && ranked[a].1 == processes@[ranked[a].0] by {
            assert(is_candidate(processes@, sorted@[a].1));
        }
    }
    top
}

} // verus!
