//! Search over polygon adjacency: a corridor of polygons from the one holding
//! the start to the one holding the goal, or none when they are not
//! connected.
use vstd::prelude::*;

use vstd::set_lib::{lemma_int_range, lemma_len_subset, set_int_range};

verus! {

/// Every link names a polygon of the graph.
pub open spec fn graph_wf(links: Seq<Vec<usize>>) -> bool {
    forall|i: int, k: int|
        0 <= i < links.len() && 0 <= k < links[i]@.len() ==> #[trigger] links[i]@[k] < links.len()
}

/// `path` walks from `start` to `goal`, each step along a link.
pub open spec fn is_path(links: Seq<Vec<usize>>, path: Seq<usize>, start: usize, goal: usize) -> bool {
    &&& path.len() >= 1
    &&& path[0] == start
    &&& path.last() == goal
    &&& forall|i: int| 0 <= i < path.len() ==> #[trigger] path[i] < links.len()
    &&& forall|i: int| 0 <= i < path.len() - 1 ==> links[path[i] as int]@.contains(#[trigger] path[i + 1])
}

proof fn lemma_closed_set_holds_path(
    links: Seq<Vec<usize>>,
    visited: Seq<bool>,
    path: Seq<usize>,
    start: usize,
    goal: usize,
    i: int,
)
    requires
        visited.len() == links.len(),
        visited[start as int],
        forall|a: int, k: int|
            0 <= a < links.len() && visited[a] && 0 <= k < links[a]@.len() ==> visited[#[trigger] links[a]@[k] as int],
        is_path(links, path, start, goal),
        0 <= i < path.len(),
    ensures
        visited[path[i] as int],
    decreases i,
{
    if i > 0 {
        lemma_closed_set_holds_path(links, visited, path, start, goal, i - 1);
        let p = path[i - 1];
        assert(links[path[i - 1] as int]@.contains(path[(i - 1) + 1]));
        let k = choose|k: int| 0 <= k < links[p as int]@.len() && links[p as int]@[k] == path[i];
        assert(visited[links[p as int]@[k] as int]);
    }
}

/// A corridor of linked polygons from `start` to `goal`, found breadth
/// first, or `None` exactly when no such corridor exists.
pub fn find_polygon_path(links: &Vec<Vec<usize>>, start: usize, goal: usize) -> (r: Option<
    Vec<usize>,
>)
    requires
        graph_wf(links@),
        start < links@.len(),
        goal < links@.len(),
    ensures
        match r {
            Some(path) => is_path(links@, path@, start, goal),
            None => forall|path: Seq<usize>| !is_path(links@, path, start, goal),
        },
{
    let n = links.len();
    let mut visited: Vec<bool> = Vec::new();
    let mut parent: Vec<usize> = Vec::new();
    let mut depth: Vec<usize> = Vec::new();
    let mut i: usize = 0;
    while i < n
        invariant
            0 <= i <= n == links@.len(),
            visited@.len() == i,
            parent@.len() == i,
            depth@.len() == i,
            forall|j: int| 0 <= j < i ==> visited@[j] == (j == start),
            forall|j: int| 0 <= j < i ==> depth@[j] == 0,
        decreases n - i,
    {
        visited.push(i == start);
        parent.push(i);
        depth.push(0);
        i = i + 1;
    }
    let mut queue: Vec<usize> = Vec::new();
    queue.push(start);
    let mut head: usize = 0;
    proof {
        assert forall|j: int| 0 <= j < n && #[trigger] visited@[j] implies queue@.contains(j as usize) by {
            assert(queue@[0] == start);
        }
    }
    while head < queue.len()
        invariant
            n == links@.len(),
            graph_wf(links@),
            start < n,
            goal < n,
            visited@.len() == n,
            parent@.len() == n,
            depth@.len() == n,
            head <= queue@.len(),
            visited@[start as int],
            depth@[start as int] == 0,
            forall|q: int| 0 <= q < queue@.len() ==> #[trigger] queue@[q] < n && visited@[queue@[q] as int],
            forall|j: int| 0 <= j < n && #[trigger] visited@[j] ==> queue@.contains(j as usize),
            forall|a: int, b: int| 0 <= a < b < queue@.len() ==> #[trigger] queue@[a] != #[trigger] queue@[b],
            forall|q: int, k: int|
                0 <= q < head && 0 <= k < links@[queue@[q] as int]@.len() ==> visited@[#[trigger] links@[queue@[q] as int]@[k] as int],
            forall|j: int|
                0 <= j < n && visited@[j] && j != start ==> {
                    &&& #[trigger] parent@[j] < n
                    &&& visited@[parent@[j] as int]
                    &&& links@[parent@[j] as int]@.contains(j as usize)
                    &&& depth@[parent@[j] as int] < depth@[j]
                },
            forall|j: int| 0 <= j < n && visited@[j] ==> #[trigger] depth@[j] <= head,
            queue@.len() <= n,
        decreases n - queue@.len(), queue@.len() - head,
    {
        let p = queue[head];
        let neighbours = &links[p];
        let ghost q0 = queue@.len();
        let mut k: usize = 0;
        while k < neighbours.len()
            invariant
                n == links@.len(),
                graph_wf(links@),
                p < n,
                visited@[p as int],
                neighbours@ == links@[p as int]@,
                head < queue@.len(),
                queue@[head as int] == p,
                start < n,
                visited@.len() == n,
                parent@.len() == n,
                depth@.len() == n,
                visited@[start as int],
                depth@[start as int] == 0,
                0 <= k <= neighbours@.len(),
                forall|q: int| 0 <= q < queue@.len() ==> #[trigger] queue@[q] < n && visited@[queue@[q] as int],
                forall|j: int| 0 <= j < n && #[trigger] visited@[j] ==> queue@.contains(j as usize),
                forall|a: int, b: int| 0 <= a < b < queue@.len() ==> #[trigger] queue@[a] != #[trigger] queue@[b],
                forall|q: int, kk: int|
                    0 <= q < head && 0 <= kk < links@[queue@[q] as int]@.len() ==> visited@[#[trigger] links@[queue@[q] as int]@[kk] as int],
                forall|kk: int| 0 <= kk < k ==> visited@[#[trigger] neighbours@[kk] as int],
                forall|j: int|
                    0 <= j < n && visited@[j] && j != start ==> {
                        &&& #[trigger] parent@[j] < n
                        &&& visited@[parent@[j] as int]
                        &&& links@[parent@[j] as int]@.contains(j as usize)
                        &&& depth@[parent@[j] as int] < depth@[j]
                    },
                depth@[p as int] <= head,
                forall|j: int| 0 <= j < n && visited@[j] ==> #[trigger] depth@[j] <= head + 1,
                queue@.len() <= n,
                queue@.len() >= q0,
            decreases neighbours@.len() - k,
        {
            let j = neighbours[k];
            assert(links@[p as int]@[k as int] == j);
            if !visited[j] {
                proof {
                    assert(!queue@.contains(j)) by {
                        if queue@.contains(j) {
                            let q = choose|q: int| 0 <= q < queue@.len() && queue@[q] == j;
                            assert(visited@[queue@[q] as int]);
                        }
                    }
                    assert(neighbours@.contains(j)) by {
                        assert(neighbours@[k as int] == j);
                    }
                }
                let ghost old_queue = queue@;
                visited.set(j, true);
                parent.set(j, p);
                depth.set(j, depth[p] + 1);
                queue.push(j);
                proof {
                    assert forall|a: int, b: int| 0 <= a < b < queue@.len() implies #[trigger] queue@[a]
                        != #[trigger] queue@[b] by {
                        if b == queue@.len() - 1 {
                            assert(old_queue.contains(queue@[a]) || a == b);
                        }
                    }
                    assert forall|jj: int| 0 <= jj < n && #[trigger] visited@[jj] implies queue@.contains(
                        jj as usize,
                    ) by {
                        if jj == j {
                            assert(queue@[queue@.len() - 1] == j);
                        } else {
                            let q = choose|q: int| 0 <= q < old_queue.len() && old_queue[q] == jj as usize;
                            assert(queue@[q] == old_queue[q]);
                        }
                    }
                    lemma_distinct_bound(queue@, n as int);
                }
            }
            k = k + 1;
        }
        head = head + 1;
    }
    if !visited[goal] {
        proof {
            assert forall|path: Seq<usize>| !is_path(links@, path, start, goal) by {
                if is_path(links@, path, start, goal) {
                    assert forall|a: int, kk: int|
                        0 <= a < links@.len() && visited@[a] && 0 <= kk < links@[a]@.len() implies visited@[#[trigger] links@[a]@[kk] as int] by {
                        assert(queue@.contains(a as usize));
                        let q = choose|q: int| 0 <= q < queue@.len() && queue@[q] == a as usize;
                        assert(links@[queue@[q] as int]@[kk] == links@[a]@[kk]);
                    }
                    lemma_closed_set_holds_path(links@, visited@, path, start, goal, path.len() - 1);
                }
            }
        }
        return None;
    }
    let mut path: Vec<usize> = Vec::new();
    path.push(goal);
    let mut cur = goal;
    while cur != start
        invariant
            n == links@.len(),
            start < n,
            goal < n,
            cur < n,
            visited@.len() == n,
            parent@.len() == n,
            depth@.len() == n,
            visited@[cur as int],
            forall|j: int|
                0 <= j < n && visited@[j] && j != start ==> {
                    &&& #[trigger] parent@[j] < n
                    &&& visited@[parent@[j] as int]
                    &&& links@[parent@[j] as int]@.contains(j as usize)
                    &&& depth@[parent@[j] as int] < depth@[j]
                },
            is_path(links@, path@, cur, goal),
        decreases depth@[cur as int],
    {
        let p = parent[cur];
        assert(links@[p as int]@.contains(cur));
        let ghost old_path = path@;
        path.insert(0, p);
        proof {
            assert(path@ == old_path.insert(0, p));
            assert forall|i: int| 0 <= i < path@.len() - 1 implies links@[path@[i] as int]@.contains(
                #[trigger] path@[i + 1],
            ) by {
                if i > 0 {
                    assert(path@[i] == old_path[i - 1]);
                    assert(path@[i + 1] == old_path[i]);
                    assert(links@[old_path[i - 1] as int]@.contains(old_path[(i - 1) + 1]));
                } else {
                    assert(path@[0] == p);
                    assert(path@[1] == old_path[0]);
                }
            }
            assert forall|i: int| 0 <= i < path@.len() implies #[trigger] path@[i] < links@.len() by {
                if i > 0 {
                    assert(path@[i] == old_path[i - 1]);
                }
            }
        }
        cur = p;
    }
    Some(path)
}

/// A sequence of distinct values below `n` has at most `n` entries.
proof fn lemma_distinct_bound(s: Seq<usize>, n: int)
    requires
        n >= 0,
        forall|q: int| 0 <= q < s.len() ==> #[trigger] s[q] < n,
        forall|a: int, b: int| 0 <= a < b < s.len() ==> #[trigger] s[a] != #[trigger] s[b],
    ensures
        s.len() <= n,
{
    let t = s.map_values(|v: usize| v as int);
    assert(t.no_duplicates()) by {
        assert forall|a: int, b: int| 0 <= a < t.len() && 0 <= b < t.len() && a != b implies t[a]
            != t[b] by {
            if a < b {
                assert(s[a] != s[b]);
            } else {
                assert(s[b] != s[a]);
            }
        }
    }
    t.unique_seq_to_set();
    assert(t.to_set().subset_of(set_int_range(0, n))) by {
        assert forall|x: int| t.to_set().contains(x) implies set_int_range(0, n).contains(x) by {
            assert(t.contains(x));
            let q = choose|q: int| 0 <= q < t.len() && t[q] == x;
            assert(s[q] < n);
        }
    }
    lemma_int_range(0, n);
    lemma_len_subset(t.to_set(), set_int_range(0, n));
}

} // verus!
