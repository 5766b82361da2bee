//! The process tree below a launched command: the launched process is only the
//! root of what a development command runs (compilers, bundlers, workers), so
//! its resource use is the sum over everything that descends from it.

use vstd::prelude::*;
use vstd::set_lib::{lemma_int_range, lemma_len_subset, set_int_range};

verus! {

/// One entry of a snapshot of the process table.
#[derive(Debug, Clone, Copy, PartialEq, Eq)]
pub struct ProcessSample {
    pub pid: u32,
    pub parent: Option<u32>,
    /// Resident memory, in bytes.
    pub memory: u64,
}

/// No two entries of the snapshot have the same pid.
pub open spec fn distinct_pids(procs: Seq<ProcessSample>) -> bool {
    forall|i: int, j: int| 0 <= i < procs.len() && 0 <= j < procs.len() && i != j ==> procs[i].pid != procs[j].pid
}

/// Whether the snapshot has a process `c` whose parent is `p`.
pub open spec fn is_child(procs: Seq<ProcessSample>, c: u32, p: u32) -> bool {
    exists|j: int| 0 <= j < procs.len() && #[trigger] procs[j].pid == c && procs[j].parent == Some(p)
}

/// A path down the tree that starts at `root`, each pid a child of the one before.
pub open spec fn is_chain(procs: Seq<ProcessSample>, root: u32, path: Seq<u32>) -> bool {
    &&& path.len() > 0
    &&& path[0] == root
    &&& forall|k: int| 0 <= k < path.len() - 1 ==> #[trigger] is_child(procs, path[k + 1], path[k])
}

/// Whether `x` is `root` or descends from it.
pub open spec fn in_subtree(procs: Seq<ProcessSample>, root: u32, x: u32) -> bool {
    exists|path: Seq<u32>| #[trigger] is_chain(procs, root, path) && path.last() == x
}

/// Memory of the process with the given pid.
pub open spec fn memory_of(procs: Seq<ProcessSample>, pid: u32) -> u64 {
    procs[choose|j: int| 0 <= j < procs.len() && procs[j].pid == pid].memory
}

/// Total memory of the processes with the given pids.
pub open spec fn memory_total(procs: Seq<ProcessSample>, pids: Seq<u32>) -> nat
    decreases pids.len(),
{
    if pids.len() == 0 {
        0
    } else {
        memory_total(procs, pids.drop_last()) + memory_of(procs, pids.last()) as nat
    }
}

proof fn lemma_memory_of(procs: Seq<ProcessSample>, j: int)
    requires
        distinct_pids(procs),
        0 <= j < procs.len(),
    ensures
        memory_of(procs, procs[j].pid) == procs[j].memory,
{
    let pid = procs[j].pid;
    let k = choose|k: int| 0 <= k < procs.len() && procs[k].pid == pid;
    assert(k == j);
}

proof fn lemma_chain_extend(procs: Seq<ProcessSample>, root: u32, path: Seq<u32>, c: u32)
    requires
        is_chain(procs, root, path),
        is_child(procs, c, path.last()),
    ensures
        is_chain(procs, root, path.push(c)),
{
    let q = path.push(c);
    assert forall|k: int| 0 <= k < q.len() - 1 implies #[trigger] is_child(procs, q[k + 1], q[k]) by {
        if k < path.len() - 1 {
            assert(q[k + 1] == path[k + 1] && q[k] == path[k]);
        } else {
            assert(q[k + 1] == c && q[k] == path.last());
        }
    }
}

/// Every index in the queue is seen, and every seen index is in the queue.
pub open spec fn queue_matches(queue: Seq<usize>, seen: Set<int>) -> bool {
    &&& forall|q: int| 0 <= q < queue.len() ==> #[trigger] seen.contains(queue[q] as int)
    &&& forall|j: int| #[trigger] seen.contains(j) ==> exists|q: int| 0 <= q < queue.len() && queue[q] as int == j
}

proof fn lemma_chain_prefix(procs: Seq<ProcessSample>, root: u32, path: Seq<u32>)
    requires
        is_chain(procs, root, path),
        path.len() > 1,
    ensures
        is_chain(procs, root, path.drop_last()),
{
    let p = path.drop_last();
    assert forall|k: int| 0 <= k < p.len() - 1 implies #[trigger] is_child(procs, p[k + 1], p[k]) by {
        assert(p[k + 1] == path[k + 1] && p[k] == path[k]);
    }
}

proof fn lemma_chain_reached(
    procs: Seq<ProcessSample>,
    root: u32,
    path: Seq<u32>,
    queue: Seq<usize>,
    seen: Set<int>,
)
    requires
        is_chain(procs, root, path),
        queue.len() > 0,
        procs[queue[0] as int].pid == root,
        forall|q: int| 0 <= q < queue.len() ==> #[trigger] queue[q] < procs.len(),
        queue_matches(queue, seen),
        forall|q: int, j: int|
            0 <= q < queue.len() && 0 <= j < procs.len() && #[trigger] procs[j].parent == Some(procs[#[trigger] queue[q] as int].pid)
                ==> seen.contains(j),
    ensures
        exists|q: int| 0 <= q < queue.len() && #[trigger] procs[queue[q] as int].pid == path.last(),
    decreases path.len(),
{
    if path.len() == 1 {
        assert(procs[queue[0] as int].pid == path.last());
    } else {
        lemma_chain_prefix(procs, root, path);
        lemma_chain_reached(procs, root, path.drop_last(), queue, seen);
        let q = choose|q: int| 0 <= q < queue.len() && #[trigger] procs[queue[q] as int].pid == path.drop_last().last();
        let k = path.len() - 2;
        assert(is_child(procs, path[k + 1], path[k]));
        let j = choose|j: int| 0 <= j < procs.len() && #[trigger] procs[j].pid == path[k + 1] && procs[j].parent == Some(path[k]);
        assert(procs[j].parent == Some(procs[queue[q] as int].pid));
        assert(seen.contains(j));
        let q2 = choose|q2: int| 0 <= q2 < queue.len() && queue[q2] as int == j;
        assert(procs[queue[q2] as int].pid == path.last());
    }
}

/// The pids of `root` and every process that descends from it in the snapshot,
/// each once, with their total memory in bytes; `None` when `root` is not in
/// the snapshot.
pub fn subtree_usage(root: u32, procs: &Vec<ProcessSample>) -> (r: Option<(Vec<u32>, u128)>)
    requires
        distinct_pids(procs@),
    ensures
        r is None <==> !(exists|j: int| 0 <= j < procs@.len() && #[trigger] procs@[j].pid == root),
        r matches Some((pids, mem)) ==> {
            &&& pids@.no_duplicates()
            &&& forall|x: u32| #[trigger] pids@.contains(x) <==> in_subtree(procs@, root, x)
            &&& mem == memory_total(procs@, pids@)
        },
{
    let n = procs.len();
    let mut r0: usize = 0;
    while r0 < n && procs[r0].pid != root
        invariant
            r0 <= n == procs@.len(),
            forall|j: int| 0 <= j < r0 ==> #[trigger] procs@[j].pid != root,
        decreases n - r0,
    {
        r0 = r0 + 1;
    }
    if r0 == n {
        return None;
    }
    let mut flags: Vec<bool> = Vec::new();
    for j in 0..n
        invariant
            flags@.len() == j,
            forall|k: int| 0 <= k < j ==> !#[trigger] flags@[k],
    {
        flags.push(false);
    }
    flags.set(r0, true);
    let mut queue: Vec<usize> = Vec::new();
    queue.push(r0);
    let ghost mut seen: Set<int> = Set::empty().insert(r0 as int);
    proof {
        lemma_int_range(0, n as int);
        let path = seq![root];
        assert(is_chain(procs@, root, path));
        assert(in_subtree(procs@, root, procs@[r0 as int].pid));
        assert(queue@[0] == r0);
    }
    let mut head: usize = 0;
    while head < queue.len()
        invariant
            n == procs@.len() == flags@.len(),
            distinct_pids(procs@),
            r0 < n,
            procs@[r0 as int].pid == root,
            head <= queue@.len(),
            seen.finite(),
            seen.subset_of(set_int_range(0, n as int)),
            set_int_range(0, n as int).finite(),
            set_int_range(0, n as int).len() == n,
            forall|j: int| 0 <= j < n ==> (#[trigger] flags@[j] <==> seen.contains(j)),
            queue_matches(queue@, seen),
            forall|q: int| 0 <= q < queue@.len() ==> #[trigger] queue@[q] < n,
            queue@.no_duplicates(),
            queue@[0] == r0,
            queue@.len() > 0,
            forall|j: int| 0 <= j < n && #[trigger] seen.contains(j) ==> in_subtree(procs@, root, procs@[j].pid),
            forall|q: int, j: int|
                0 <= q < head && 0 <= j < n && #[trigger] procs@[j].parent == Some(procs@[#[trigger] queue@[q] as int].pid)
                    ==> seen.contains(j),
        decreases n - seen.len(), queue@.len() - head,
    {
        let i = queue[head];
        let pid = procs[i].pid;
        let ghost seen_before = seen;
        let ghost queue_before = queue@;
        proof {
            assert(seen.contains(queue@[head as int] as int));
        }
        for j in 0..n
            invariant
                n == procs@.len() == flags@.len(),
                distinct_pids(procs@),
                i < n,
                pid == procs@[i as int].pid,
                head < queue_before.len(),
                queue_before[head as int] == i,
                r0 < n,
                procs@[r0 as int].pid == root,
                seen.finite(),
                seen.subset_of(set_int_range(0, n as int)),
                seen_before.subset_of(seen),
                seen_before.contains(i as int),
                seen.len() == seen_before.len() ==> queue@ == queue_before,
                seen.len() >= seen_before.len(),
                queue_before.len() <= queue@.len(),
                forall|q: int| 0 <= q < queue_before.len() ==> #[trigger] queue@[q] == queue_before[q],
                forall|k: int| 0 <= k < n ==> (#[trigger] flags@[k] <==> seen.contains(k)),
                queue_matches(queue@, seen),
                forall|q: int| 0 <= q < queue@.len() ==> #[trigger] queue@[q] < n,
                queue@.no_duplicates(),
                forall|k: int| 0 <= k < n && #[trigger] seen.contains(k) ==> in_subtree(procs@, root, procs@[k].pid),
                forall|q: int, k: int|
                    0 <= q < head && 0 <= k < n && #[trigger] procs@[k].parent == Some(procs@[#[trigger] queue_before[q] as int].pid)
                        ==> seen.contains(k),
                forall|k: int| 0 <= k < j && #[trigger] procs@[k].parent == Some(pid) ==> seen.contains(k),
        {
            if !flags[j] && procs[j].parent == Some(pid) {
                proof {
                    assert(!seen.contains(j as int));
                    let pi = procs@[i as int].pid;
                    assert(seen.contains(i as int));
                    assert(in_subtree(procs@, root, pi));
                    let path = choose|path: Seq<u32>| #[trigger] is_chain(procs@, root, path) && path.last() == pi;
                    assert(is_child(procs@, procs@[j as int].pid, pi));
                    lemma_chain_extend(procs@, root, path, procs@[j as int].pid);
                    assert(path.push(procs@[j as int].pid).last() == procs@[j as int].pid);
                    if queue@.contains(j) {
                        let t = choose|t: int| 0 <= t < queue@.len() && queue@[t] == j;
                        assert(seen.contains(queue@[t] as int));
                    }
                }
                flags.set(j, true);
                let ghost q_before = queue@;
                let ghost s_before = seen;
                queue.push(j);
                proof {
                    seen = seen.insert(j as int);
                    assert forall|q: int| 0 <= q < queue@.len() implies #[trigger] seen.contains(queue@[q] as int) by {
                        if q < q_before.len() {
                            assert(queue@[q] == q_before[q]);
                            assert(s_before.contains(q_before[q] as int));
                        }
                    }
                    assert forall|k: int| #[trigger] seen.contains(k) implies exists|q: int| 0 <= q < queue@.len() && queue@[q] as int == k by {
                        if k == j as int {
                            assert(queue@[q_before.len() as int] as int == k);
                        } else {
                            assert(s_before.contains(k));
                            let q = choose|q: int| 0 <= q < q_before.len() && q_before[q] as int == k;
                            assert(queue@[q] as int == k);
                        }
                    }
                    assert(queue@.no_duplicates()) by {
                        assert forall|a: int, b: int| 0 <= a < queue@.len() && 0 <= b < queue@.len() && a != b implies queue@[a] != queue@[b] by {
                            if a == q_before.len() && b < q_before.len() {
                                assert(s_before.contains(q_before[b] as int));
                            }
                            if b == q_before.len() && a < q_before.len() {
                                assert(s_before.contains(q_before[a] as int));
                            }
                        }
                    }
                    assert(seen.len() == s_before.len() + 1);
                }
            }
        }
        proof {
            assert forall|q: int, k: int|
                0 <= q < head + 1 && 0 <= k < n && #[trigger] procs@[k].parent == Some(procs@[#[trigger] queue@[q] as int].pid)
                    implies seen.contains(k) by {
                assert(queue@[q] == queue_before[q]);
            }
        }
        head = head + 1;
        proof {
            lemma_len_subset(seen, set_int_range(0, n as int));
        }
    }
    let m = queue.len();
    let mut pids: Vec<u32> = Vec::new();
    let mut mem: u128 = 0;
    for k in 0..m
        invariant
            m == queue@.len(),
            n == procs@.len(),
            distinct_pids(procs@),
            forall|q: int| 0 <= q < queue@.len() ==> #[trigger] queue@[q] < n,
            pids@.len() == k,
            forall|q: int| 0 <= q < k ==> #[trigger] pids@[q] == procs@[queue@[q] as int].pid,
            mem == memory_total(procs@, pids@),
            mem <= k * 0x1_0000_0000_0000_0000,
    {
        let idx = queue[k];
        let ghost before = pids@;
        pids.push(procs[idx].pid);
        proof {
            assert(pids@.drop_last() =~= before);
            lemma_memory_of(procs@, idx as int);
            assert(mem + procs@[idx as int].memory <= (k + 1) * 0x1_0000_0000_0000_0000) by (nonlinear_arith)
                requires
                    mem <= k * 0x1_0000_0000_0000_0000,
                    procs@[idx as int].memory < 0x1_0000_0000_0000_0000;
            assert((k + 1) * 0x1_0000_0000_0000_0000 <= 0x1_0000_0000_0000_0000 * 0x1_0000_0000_0000_0000) by (nonlinear_arith)
                requires
                    k + 1 <= 0x1_0000_0000_0000_0000;
        }
        mem = mem + procs[idx].memory as u128;
    }
    proof {
        assert(head == queue@.len());
        assert forall|x: u32| #[trigger] pids@.contains(x) <==> in_subtree(procs@, root, x) by {
            if pids@.contains(x) {
                let q = choose|q: int| 0 <= q < pids@.len() && pids@[q] == x;
                assert(seen.contains(queue@[q] as int));
            }
            if in_subtree(procs@, root, x) {
                let path = choose|path: Seq<u32>| #[trigger] is_chain(procs@, root, path) && path.last() == x;
                lemma_chain_reached(procs@, root, path, queue@, seen);
                let q = choose|q: int| 0 <= q < queue@.len() && #[trigger] procs@[queue@[q] as int].pid == path.last();
                assert(pids@[q] == x);
            }
        }
        assert(pids@.no_duplicates()) by {
            assert forall|a: int, b: int| 0 <= a < pids@.len() && 0 <= b < pids@.len() && a != b implies pids@[a] != pids@[b] by {
                assert(queue@[a] != queue@[b]);
            }
        }
    }
    Some((pids, mem))
}

} // verus!
