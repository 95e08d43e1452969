//! Execution order of a render graph: which node depends on which, what an
//! execution order is, the dependency cycles that rule one out, and the
//! counting facts behind the ordering algorithm.
use crate::types::{lemma_buffer_key_injective, lemma_texture_key_injective, Node, ResourceHandle, SlotHandle};
use std::collections::{HashMap, VecDeque};
use vstd::prelude::*;
use vstd::set_lib::*;

verus! {

/// Node `node` lists `r` among its outputs.
pub open spec fn writes<E>(node: Node<E>, r: ResourceHandle) -> bool {
    exists|k: int| 0 <= k < node.outputs@.len() && #[trigger] node.outputs@[k].resource == r
}

/// Node `writer` writes something that node `reader` lists among its first
/// `k` inputs.
pub open spec fn reads_output_of<E>(nodes: Seq<Node<E>>, reader: int, writer: int, k: int) -> bool {
    exists|j: int| 0 <= j < k && #[trigger] writes(nodes[writer], nodes[reader].inputs@[j].resource)
}

/// Node `reader` reads a resource that another node, `writer`, writes, so
/// `writer` has to run before `reader`. A node that reads what it writes
/// itself (updating it in place) does not depend on itself.
pub open spec fn depends_on<E>(nodes: Seq<Node<E>>, reader: int, writer: int) -> bool {
    &&& 0 <= reader < nodes.len()
    &&& 0 <= writer < nodes.len()
    &&& reader != writer
    &&& reads_output_of(nodes, reader, writer, nodes[reader].inputs@.len() as int)
}

/// `order` lists every node exactly once, and every node comes after each
/// node it depends on.
pub open spec fn is_execution_order<E>(nodes: Seq<Node<E>>, order: Seq<usize>) -> bool {
    &&& order.len() == nodes.len()
    &&& forall|i: int| 0 <= i < order.len() ==> #[trigger] order[i] < nodes.len()
    &&& order.no_duplicates()
    &&& forall|i: int, j: int|
        0 <= i < order.len() && 0 <= j < order.len() && depends_on(
            nodes,
            #[trigger] order[i] as int,
            #[trigger] order[j] as int,
        ) ==> j < i
}

/// The node that follows position `i` of `c` when going round it: the next
/// one, and the first after the last.
pub open spec fn cycle_next(c: Seq<int>, i: int) -> int {
    if i + 1 < c.len() {
        c[i + 1]
    } else {
        c[0]
    }
}

/// `c` is a cycle of dependencies: each node in it depends on the one that
/// follows it, and the last on the first.
pub open spec fn is_dependency_cycle<E>(nodes: Seq<Node<E>>, c: Seq<int>) -> bool {
    &&& c.len() > 0
    &&& forall|i: int| 0 <= i < c.len() ==> depends_on(nodes, c[i], #[trigger] cycle_next(c, i))
}

/// The dependencies of the graph run in a cycle.
pub open spec fn has_dependency_cycle<E>(nodes: Seq<Node<E>>) -> bool {
    exists|c: Seq<int>| is_dependency_cycle(nodes, c)
}

/// The nodes among the first `m` that write `r`, in increasing order.
pub open spec fn writers_among<E>(nodes: Seq<Node<E>>, r: ResourceHandle, m: int) -> Seq<usize>
    decreases m,
{
    if m <= 0 {
        Seq::empty()
    } else if writes(nodes[m - 1], r) {
        writers_among(nodes, r, m - 1).push((m - 1) as usize)
    } else {
        writers_among(nodes, r, m - 1)
    }
}

/// The writers found among the first `m` nodes are those of them that write
/// `r`, each once, in increasing order.
pub proof fn lemma_writers_among<E>(nodes: Seq<Node<E>>, r: ResourceHandle, m: int)
    requires
        0 <= m <= usize::MAX + 1,
    ensures
        forall|i: int| 0 <= i < writers_among(nodes, r, m).len() ==> #[trigger] writers_among(nodes, r, m)[i] < m,
        forall|i: int, j: int|
            0 <= i < j < writers_among(nodes, r, m).len() ==> #[trigger] writers_among(nodes, r, m)[i]
                < #[trigger] writers_among(nodes, r, m)[j],
        forall|w: int| 0 <= w < m ==> (#[trigger] writers_among(nodes, r, m).contains(w as usize) <==> writes(nodes[w], r)),
    decreases m,
{
    if m > 0 {
        lemma_writers_among(nodes, r, m - 1);
        let p = writers_among(nodes, r, m - 1);
        let s = writers_among(nodes, r, m);
        assert forall|w: int| 0 <= w < m implies (#[trigger] s.contains(w as usize) <==> writes(nodes[w], r)) by {
            if s.contains(w as usize) {
                let i = choose|i: int| 0 <= i < s.len() && s[i] == w as usize;
                if i < p.len() {
                    assert(p[i] == s[i]);
                    assert(p.contains(w as usize));
                }
            }
            if w < m - 1 && p.contains(w as usize) {
                let i = choose|i: int| 0 <= i < p.len() && p[i] == w as usize;
                assert(s[i] == p[i]);
            }
            if w == m - 1 && writes(nodes[w], r) {
                assert(s[s.len() - 1] == w as usize);
            }
            if w == m - 1 && p.contains(w as usize) {
                let i = choose|i: int| 0 <= i < p.len() && p[i] == w as usize;
                assert(p[i] < m - 1);
            }
        }
    }
}

/// The writers that the two tables (textures and buffers, keyed by handle
/// key) record for a resource.
pub closed spec fn table_writers(textures: Map<u64, Vec<usize>>, buffers: Map<u64, Vec<usize>>, r: ResourceHandle) -> Seq<
    usize,
> {
    match r {
        ResourceHandle::Texture(h) => if textures.dom().contains(h.key()) {
            textures[h.key()]@
        } else {
            Seq::empty()
        },
        ResourceHandle::Buffer(h) => if buffers.dom().contains(h.key()) {
            buffers[h.key()]@
        } else {
            Seq::empty()
        },
    }
}

/// The writers of `r` once the first `idx` nodes and the first `k` outputs of
/// node `idx` have been seen.
closed spec fn writers_partial<E>(nodes: Seq<Node<E>>, r: ResourceHandle, idx: int, k: int) -> Seq<usize> {
    if exists|j: int| 0 <= j < k && #[trigger] nodes[idx].outputs@[j].resource == r {
        writers_among(nodes, r, idx).push(idx as usize)
    } else {
        writers_among(nodes, r, idx)
    }
}

/// Adds `idx` to the writers of `key`, unless it is already the last of them.
fn record_writer(table: &mut HashMap<u64, Vec<usize>>, key: u64, idx: usize)
    ensures
        final(table)@.dom() == old(table)@.dom().insert(key),
        forall|k: u64| k != key && old(table)@.dom().contains(k) ==> #[trigger] final(table)@[k] == old(table)@[k],
        final(table)@[key]@ == ({
            let prev = if old(table)@.dom().contains(key) {
                old(table)@[key]@
            } else {
                Seq::<usize>::empty()
            };
            if prev.len() > 0 && prev.last() == idx {
                prev
            } else {
                prev.push(idx)
            }
        }),
{
    broadcast use vstd::std_specs::hash::group_hash_axioms;

    let mut list = match table.remove(&key) {
        Some(l) => l,
        None => Vec::new(),
    };
    let len = list.len();
    if len == 0 || list[len - 1] != idx {
        list.push(idx);
    }
    table.insert(key, list);
}

/// Records, for every resource, the nodes that write it, in increasing order.
pub(crate) fn writer_tables<E>(nodes: &Vec<Node<E>>) -> (res: (HashMap<u64, Vec<usize>>, HashMap<u64, Vec<usize>>))
    ensures
        forall|r: ResourceHandle| #[trigger] table_writers(res.0@, res.1@, r) == writers_among(nodes@, r, nodes@.len() as int),
{
    broadcast use vstd::std_specs::hash::group_hash_axioms;

    let mut textures: HashMap<u64, Vec<usize>> = HashMap::new();
    let mut buffers: HashMap<u64, Vec<usize>> = HashMap::new();
    let mut idx: usize = 0;
    assert forall|r: ResourceHandle| #[trigger] table_writers(textures@, buffers@, r) == writers_among(nodes@, r, 0) by {}
    while idx < nodes.len()
        invariant
            idx <= nodes.len(),
            forall|r: ResourceHandle| #[trigger] table_writers(textures@, buffers@, r) == writers_among(nodes@, r, idx as int),
        decreases nodes.len() - idx,
    {
        let outputs = &nodes[idx].outputs;
        let mut k: usize = 0;
        assert forall|r: ResourceHandle| #[trigger] table_writers(textures@, buffers@, r) == writers_partial(
            nodes@,
            r,
            idx as int,
            0,
        ) by {}
        while k < outputs.len()
            invariant
                idx < nodes.len(),
                outputs == &nodes@[idx as int].outputs,
                k <= outputs.len(),
                forall|r: ResourceHandle| #[trigger]
                    table_writers(textures@, buffers@, r) == writers_partial(nodes@, r, idx as int, k as int),
            decreases outputs.len() - k,
        {
            let ghost old_t = textures@;
            let ghost old_b = buffers@;
            let written = outputs[k].resource;
            match written {
                ResourceHandle::Texture(h) => {
                    record_writer(&mut textures, h.as_ffi(), idx);
                },
                ResourceHandle::Buffer(h) => {
                    record_writer(&mut buffers, h.as_ffi(), idx);
                },
            }
            proof {
                assert(nodes@[idx as int].outputs@[k as int].resource == written);
                lemma_writers_among(nodes@, written, idx as int);
                assert forall|r: ResourceHandle| #[trigger]
                    table_writers(textures@, buffers@, r) == writers_partial(nodes@, r, idx as int, k + 1) by {
                    if r == written {
                        let w = writers_among(nodes@, r, idx as int);
                        assert(table_writers(old_t, old_b, r) == writers_partial(nodes@, r, idx as int, k as int));
                        if exists|j: int| 0 <= j < k && #[trigger] nodes@[idx as int].outputs@[j].resource == r {
                            let j = choose|j: int| 0 <= j < k && #[trigger] nodes@[idx as int].outputs@[j].resource == r;
                            assert(exists|j2: int| 0 <= j2 < k + 1 && #[trigger] nodes@[idx as int].outputs@[j2].resource == r);
                            assert(writers_partial(nodes@, r, idx as int, k + 1) == w.push(idx as usize));
                            assert(w.push(idx as usize).last() == idx);
                        } else {
                            assert(exists|j2: int| 0 <= j2 < k + 1 && #[trigger] nodes@[idx as int].outputs@[j2].resource == r);
                            assert(writers_partial(nodes@, r, idx as int, k + 1) == w.push(idx as usize));
                            if w.len() > 0 {
                                assert(w[w.len() - 1] < idx);
                            }
                        }
                    } else {
                        match (r, written) {
                            (ResourceHandle::Texture(a), ResourceHandle::Texture(b)) => {
                                lemma_texture_key_injective(a, b);
                            },
                            (ResourceHandle::Buffer(a), ResourceHandle::Buffer(b)) => {
                                lemma_buffer_key_injective(a, b);
                            },
                            _ => {},
                        }
                        assert(table_writers(textures@, buffers@, r) == table_writers(old_t, old_b, r));
                        if exists|j: int| 0 <= j < k + 1 && #[trigger] nodes@[idx as int].outputs@[j].resource == r {
                            let j = choose|j: int| 0 <= j < k + 1 && #[trigger] nodes@[idx as int].outputs@[j].resource == r;
                            assert(j < k);
                        }
                    }
                }
            }
            k = k + 1;
        }
        proof {
            assert forall|r: ResourceHandle| #[trigger]
                table_writers(textures@, buffers@, r) == writers_among(nodes@, r, idx + 1) by {
                if writes(nodes@[idx as int], r) {
                    let j = choose|j: int| 0 <= j < nodes@[idx as int].outputs@.len() && #[trigger] nodes@[idx as int].outputs@[j].resource == r;
                    assert(exists|j2: int| 0 <= j2 < k && #[trigger] nodes@[idx as int].outputs@[j2].resource == r);
                }
            }
        }
        idx = idx + 1;
    }
    (textures, buffers)
}

/// The writers that the tables record for a resource.
fn lookup_writers<'a>(textures: &'a HashMap<u64, Vec<usize>>, buffers: &'a HashMap<u64, Vec<usize>>, r: ResourceHandle) -> (ws: Option<&'a Vec<usize>>)
    ensures
        match ws {
            Some(l) => l@ == table_writers(textures@, buffers@, r),
            None => table_writers(textures@, buffers@, r) == Seq::<usize>::empty(),
        },
{
    broadcast use vstd::std_specs::hash::group_hash_axioms;

    match r {
        ResourceHandle::Texture(h) => {
            let key = h.as_ffi();
            textures.get(&key)
        },
        ResourceHandle::Buffer(h) => {
            let key = h.as_ffi();
            buffers.get(&key)
        },
    }
}

/// 1 when node `v` depends on node `w`, else 0.
pub open spec fn dependency_indicator<E>(nodes: Seq<Node<E>>, v: int, w: int) -> nat {
    if depends_on(nodes, v, w) {
        1
    } else {
        0
    }
}

/// How many of the first `m` nodes node `v` depends on and `done` does not
/// list.
pub closed spec fn pending_among<E>(nodes: Seq<Node<E>>, v: int, done: Seq<usize>, m: int) -> nat
    decreases m,
{
    if m <= 0 {
        0
    } else {
        pending_among(nodes, v, done, m - 1) + (if depends_on(nodes, v, m - 1) && !done.contains((m - 1) as usize) {
            1nat
        } else {
            0nat
        })
    }
}

/// How many nodes node `v` depends on that `done` does not list.
pub open spec fn pending_dependencies<E>(nodes: Seq<Node<E>>, v: int, done: Seq<usize>) -> nat {
    pending_among(nodes, v, done, nodes.len() as int)
}

/// How often `v` occurs in `s`.
pub closed spec fn occurrences(s: Seq<usize>, v: int) -> nat
    decreases s.len(),
{
    if s.len() == 0 {
        0
    } else {
        occurrences(s.drop_last(), v) + (if s.last() as int == v {
            1nat
        } else {
            0nat
        })
    }
}

pub proof fn lemma_occurrences_push(s: Seq<usize>, x: usize, v: int)
    ensures
        occurrences(s.push(x), v) == occurrences(s, v) + (if x as int == v {
            1nat
        } else {
            0nat
        }),
{
    assert(s.push(x).drop_last() =~= s);
}

/// `v` occurs in `s` exactly when some entry of `s` is `v`.
pub proof fn lemma_occurrences_positive(s: Seq<usize>, v: int)
    ensures
        occurrences(s, v) > 0 <==> exists|i: int| 0 <= i < s.len() && #[trigger] s[i] as int == v,
    decreases s.len(),
{
    if s.len() > 0 {
        lemma_occurrences_positive(s.drop_last(), v);
        if exists|i: int| 0 <= i < s.drop_last().len() && #[trigger] s.drop_last()[i] as int == v {
            let i = choose|i: int| 0 <= i < s.drop_last().len() && #[trigger] s.drop_last()[i] as int == v;
            assert(s[i] == s.drop_last()[i]);
        }
        if exists|i: int| 0 <= i < s.len() && #[trigger] s[i] as int == v {
            let i = choose|i: int| 0 <= i < s.len() && #[trigger] s[i] as int == v;
            if i < s.len() - 1 {
                assert(s.drop_last()[i] == s[i]);
            }
        }
    }
}

pub proof fn lemma_occurrences_prefix_step(s: Seq<usize>, i: int, v: int)
    requires
        0 <= i < s.len(),
    ensures
        occurrences(s.subrange(0, i + 1), v) == occurrences(s.subrange(0, i), v) + (if s[i] as int
            == v {
            1nat
        } else {
            0nat
        }),
{
    assert(s.subrange(0, i + 1).drop_last() =~= s.subrange(0, i));
}

pub proof fn lemma_occurrences_prefix_le(s: Seq<usize>, i: int, v: int)
    requires
        0 <= i <= s.len(),
    ensures
        occurrences(s.subrange(0, i), v) <= occurrences(s, v),
    decreases s.len() - i,
{
    if i == s.len() {
        assert(s.subrange(0, i) =~= s);
    } else {
        lemma_occurrences_prefix_step(s, i, v);
        lemma_occurrences_prefix_le(s, i + 1, v);
    }
}

/// Taking node `u` out of the pending dependencies removes `u` if `v`
/// depends on it.
pub proof fn lemma_pending_split<E>(nodes: Seq<Node<E>>, v: int, done: Seq<usize>, u: usize, m: int)
    requires
        !done.contains(u),
        m <= nodes.len() <= usize::MAX,
    ensures
        pending_among(nodes, v, done, m) == pending_among(nodes, v, done.push(u), m) + (if depends_on(nodes, v, u as int) && u < m {
            1nat
        } else {
            0nat
        }),
    decreases m,
{
    if m > 0 {
        lemma_pending_split(nodes, v, done, u, m - 1);
        let w = (m - 1) as usize;
        assert(done.push(u).contains(w) <==> (done.contains(w) || w == u)) by {
            if done.push(u).contains(w) {
                let i = choose|i: int| 0 <= i < done.push(u).len() && done.push(u)[i] == w;
                if i < done.len() {
                    assert(done[i] == w);
                }
            }
            if done.contains(w) {
                let i = choose|i: int| 0 <= i < done.len() && done[i] == w;
                assert(done.push(u)[i] == w);
            }
            if w == u {
                assert(done.push(u)[done.len() as int] == u);
            }
        }
    }
}

/// With nothing pending, every node among the first `m` that `v` depends on
/// is listed in `done`.
pub proof fn lemma_pending_zero<E>(nodes: Seq<Node<E>>, v: int, done: Seq<usize>, m: int)
    requires
        pending_among(nodes, v, done, m) == 0,
    ensures
        forall|w: int| 0 <= w < m && #[trigger] depends_on(nodes, v, w) ==> done.contains(w as usize),
    decreases m,
{
    if m > 0 {
        lemma_pending_zero(nodes, v, done, m - 1);
    }
}

/// With something pending, `v` depends on a node among the first `m` that
/// `done` does not list.
pub proof fn lemma_pending_positive<E>(nodes: Seq<Node<E>>, v: int, done: Seq<usize>, m: int)
    requires
        pending_among(nodes, v, done, m) > 0,
    ensures
        exists|w: int| 0 <= w < m && #[trigger] depends_on(nodes, v, w) && !done.contains(w as usize),
    decreases m,
{
    if m > 0 {
        if pending_among(nodes, v, done, m - 1) > 0 {
            lemma_pending_positive(nodes, v, done, m - 1);
        } else {
            assert(depends_on(nodes, v, m - 1));
        }
    }
}

/// How many of the first `m` rows of `edges` list `v`.
closed spec fn rows_listing(edges: Seq<Vec<usize>>, v: int, m: int) -> nat
    decreases m,
{
    if m <= 0 {
        0
    } else {
        rows_listing(edges, v, m - 1) + (if occurrences(edges[m - 1]@, v) > 0 {
            1nat
        } else {
            0nat
        })
    }
}

proof fn lemma_rows_listing_bound(edges: Seq<Vec<usize>>, v: int, m: int)
    requires
        0 <= m,
    ensures
        rows_listing(edges, v, m) <= m,
    decreases m,
{
    if m > 0 {
        lemma_rows_listing_bound(edges, v, m - 1);
    }
}

proof fn lemma_rows_listing_zero(edges: Seq<Vec<usize>>, v: int, m: int)
    requires
        forall|w: int| 0 <= w < m ==> #[trigger] occurrences(edges[w]@, v) == 0,
    ensures
        rows_listing(edges, v, m) == 0,
    decreases m,
{
    if m > 0 {
        lemma_rows_listing_zero(edges, v, m - 1);
    }
}

/// Listing `v` in one more row, `w0`, counts one more row.
proof fn lemma_rows_listing_add(a: Seq<Vec<usize>>, b: Seq<Vec<usize>>, w0: int, v: int, m: int)
    requires
        0 <= w0,
        forall|w: int| 0 <= w < m && w != w0 ==> #[trigger] b[w]@ == a[w]@,
        occurrences(a[w0]@, v) == 0,
        occurrences(b[w0]@, v) > 0,
    ensures
        rows_listing(b, v, m) == rows_listing(a, v, m) + (if w0 < m {
            1nat
        } else {
            0nat
        }),
    decreases m,
{
    if m > 0 {
        lemma_rows_listing_add(a, b, w0, v, m - 1);
        if m - 1 != w0 {
            assert(b[m - 1]@ == a[m - 1]@);
        }
    }
}

/// Rows that list `v` exactly for the nodes `v` depends on count its
/// dependencies.
proof fn lemma_rows_listing_dependencies<E>(nodes: Seq<Node<E>>, edges: Seq<Vec<usize>>, v: int, m: int)
    requires
        forall|w: int| 0 <= w < m ==> (#[trigger] occurrences(edges[w]@, v) > 0 <==> depends_on(nodes, v, w)),
    ensures
        rows_listing(edges, v, m) == pending_among(nodes, v, Seq::empty(), m),
    decreases m,
{
    if m > 0 {
        lemma_rows_listing_dependencies(nodes, edges, v, m - 1);
        assert(occurrences(edges[m - 1]@, v) > 0 <==> depends_on(nodes, v, m - 1));
    }
}

/// `edges[w]` lists, once each and in increasing order, the nodes that depend
/// on `w`.
pub closed spec fn edges_match<E>(nodes: Seq<Node<E>>, edges: Seq<Vec<usize>>) -> bool {
    &&& edges.len() == nodes.len()
    &&& forall|w: int, v: int|
        0 <= w < nodes.len() && 0 <= v < nodes.len() ==> #[trigger] occurrences(edges[w]@, v)
            == dependency_indicator(nodes, v, w)
    &&& forall|w: int, x: int| 0 <= w < nodes.len() && 0 <= x < edges[w]@.len() ==> #[trigger] edges[w]@[x] < nodes.len()
    &&& forall|w: int, x: int, y: int|
        0 <= w < nodes.len() && 0 <= x < y < edges[w]@.len() ==> #[trigger] edges[w]@[x] <= #[trigger] edges[w]@[y]
}

/// Whether node `w` is counted as a dependency of the current reader `v`
/// once its first `k` inputs and the first `t` writers of input `k` are seen.
closed spec fn seen_dependency<E>(nodes: Seq<Node<E>>, v: int, w: int, k: int, ws: Seq<usize>, t: int) -> nat {
    if w != v && (reads_output_of(nodes, v, w, k) || ws.subrange(0, t).contains(w as usize)) {
        1
    } else {
        0
    }
}

/// Builds the dependency edges (each writer to each node that reads what it
/// writes, once) and the number of dependencies of each node.
pub(crate) fn dependency_edges<E>(
    nodes: &Vec<Node<E>>,
    textures: &HashMap<u64, Vec<usize>>,
    buffers: &HashMap<u64, Vec<usize>>,
) -> (res: (Vec<Vec<usize>>, Vec<usize>))
    requires
        forall|r: ResourceHandle| #[trigger] table_writers(textures@, buffers@, r) == writers_among(nodes@, r, nodes@.len() as int),
    ensures
        edges_match(nodes@, res.0@),
        res.1@.len() == nodes@.len(),
        forall|v: int| 0 <= v < nodes@.len() ==> #[trigger] res.1@[v] == pending_dependencies(nodes@, v, Seq::empty()),
{
    let n = nodes.len();
    let mut edges: Vec<Vec<usize>> = Vec::new();
    let mut dependency_count: Vec<usize> = Vec::new();
    let mut i: usize = 0;
    while i < n
        invariant
            n == nodes.len(),
            i <= n,
            edges@.len() == i,
            dependency_count@.len() == i,
            forall|w: int| 0 <= w < i ==> #[trigger] edges@[w]@.len() == 0,
            forall|w: int| 0 <= w < i ==> #[trigger] dependency_count@[w] == 0,
        decreases n - i,
    {
        edges.push(Vec::new());
        dependency_count.push(0);
        i = i + 1;
    }
    proof {
        assert forall|w: int, v: int| 0 <= w < n && 0 <= v < n implies #[trigger] occurrences(edges@[w]@, v) == 0 by {
            assert(edges@[w]@ =~= Seq::<usize>::empty());
        }
    }
    let mut reader: usize = 0;
    while reader < n
        invariant
            n == nodes.len(),
            reader <= n,
            forall|r: ResourceHandle| #[trigger] table_writers(textures@, buffers@, r) == writers_among(nodes@, r, n as int),
            edges@.len() == n,
            dependency_count@.len() == n,
            forall|w: int, v: int|
                0 <= w < n && 0 <= v < n ==> #[trigger] occurrences(edges@[w]@, v) == (if v < reader {
                    dependency_indicator(nodes@, v, w)
                } else {
                    0
                }),
            forall|w: int, x: int| 0 <= w < n && 0 <= x < edges@[w]@.len() ==> #[trigger] edges@[w]@[x] < reader,
            forall|w: int, x: int, y: int|
                0 <= w < n && 0 <= x < y < edges@[w]@.len() ==> #[trigger] edges@[w]@[x] <= #[trigger] edges@[w]@[y],
            forall|v: int| 0 <= v < n ==> #[trigger] dependency_count@[v] == (if v < reader {
                pending_dependencies(nodes@, v, Seq::empty())
            } else {
                0
            }),
        decreases n - reader,
    {
        let inputs = &nodes[reader].inputs;
        proof {
            lemma_rows_listing_zero(edges@, reader as int, n as int);
        }
        let mut k: usize = 0;
        while k < inputs.len()
            invariant
                n == nodes.len(),
                reader < n,
                inputs == &nodes@[reader as int].inputs,
                k <= inputs.len(),
                forall|r: ResourceHandle| #[trigger] table_writers(textures@, buffers@, r) == writers_among(nodes@, r, n as int),
                edges@.len() == n,
                dependency_count@.len() == n,
                forall|w: int, v: int|
                    0 <= w < n && 0 <= v < n ==> #[trigger] occurrences(edges@[w]@, v) == (if v < reader {
                        dependency_indicator(nodes@, v, w)
                    } else if v == reader {
                        if w != v && reads_output_of(nodes@, v, w, k as int) {
                            1nat
                        } else {
                            0nat
                        }
                    } else {
                        0
                    }),
                forall|w: int, x: int| 0 <= w < n && 0 <= x < edges@[w]@.len() ==> #[trigger] edges@[w]@[x] <= reader,
                forall|w: int, x: int, y: int|
                    0 <= w < n && 0 <= x < y < edges@[w]@.len() ==> #[trigger] edges@[w]@[x] <= #[trigger] edges@[w]@[y],
                forall|v: int| 0 <= v < n ==> #[trigger] dependency_count@[v] == (if v < reader {
                    pending_dependencies(nodes@, v, Seq::empty())
                } else if v == reader {
                    rows_listing(edges@, v, n as int)
                } else {
                    0
                }),
            decreases inputs.len() - k,
        {
            let resource = inputs[k].resource;
            let found = lookup_writers(textures, buffers, resource);
            let no_writers: Vec<usize> = Vec::new();
            let ws: &Vec<usize> = match found {
                Some(l) => l,
                None => &no_writers,
            };
            proof {
                assert(ws@ == writers_among(nodes@, resource, n as int));
                lemma_writers_among(nodes@, resource, n as int);
                assert(ws@.subrange(0, 0) =~= Seq::<usize>::empty());
            }
            let mut t: usize = 0;
            while t < ws.len()
                invariant
                    n == nodes.len(),
                    reader < n,
                    inputs == &nodes@[reader as int].inputs,
                    k < inputs.len(),
                    resource == nodes@[reader as int].inputs@[k as int].resource,
                    ws@ == writers_among(nodes@, resource, n as int),
                    forall|i: int| 0 <= i < ws@.len() ==> #[trigger] ws@[i] < n,
                    t <= ws.len(),
                    edges@.len() == n,
                    dependency_count@.len() == n,
                    forall|w: int, v: int|
                        0 <= w < n && 0 <= v < n ==> #[trigger] occurrences(edges@[w]@, v) == (if v < reader {
                            dependency_indicator(nodes@, v, w)
                        } else if v == reader {
                            seen_dependency(nodes@, v, w, k as int, ws@, t as int)
                        } else {
                            0
                        }),
                    forall|w: int, x: int| 0 <= w < n && 0 <= x < edges@[w]@.len() ==> #[trigger] edges@[w]@[x] <= reader,
                    forall|w: int, x: int, y: int|
                        0 <= w < n && 0 <= x < y < edges@[w]@.len() ==> #[trigger] edges@[w]@[x] <= #[trigger] edges@[w]@[y],
                    forall|v: int| 0 <= v < n ==> #[trigger] dependency_count@[v] == (if v < reader {
                        pending_dependencies(nodes@, v, Seq::empty())
                    } else if v == reader {
                        rows_listing(edges@, v, n as int)
                    } else {
                        0
                    }),
                decreases ws.len() - t,
            {
                let w = ws[t];
                let ghost old_edges = edges@;
                let row_len = edges[w].len();
                let listed = row_len > 0 && edges[w][row_len - 1] == reader;
                proof {
                    lemma_occurrences_positive(old_edges[w as int]@, reader as int);
                    if occurrences(old_edges[w as int]@, reader as int) > 0 {
                        let i = choose|i: int| 0 <= i < old_edges[w as int]@.len() && #[trigger] old_edges[w as int]@[i] as int == reader;
                        if i < row_len - 1 {
                            assert(old_edges[w as int]@[i] <= old_edges[w as int]@[row_len - 1]);
                        }
                    }
                    if listed {
                        assert(old_edges[w as int]@[row_len - 1] as int == reader);
                    }
                    assert(listed <==> occurrences(old_edges[w as int]@, reader as int) > 0);
                    assert(ws@.subrange(0, t + 1) =~= ws@.subrange(0, t as int).push(w));
                }
                if w != reader && !listed {
                    edges[w].push(reader);
                    proof {
                        lemma_occurrences_push(old_edges[w as int]@, reader, reader as int);
                        lemma_rows_listing_add(old_edges, edges@, w as int, reader as int, n as int);
                        lemma_rows_listing_bound(edges@, reader as int, n as int);
                    }
                    dependency_count.set(reader, dependency_count[reader] + 1);
                }
                proof {
                    assert forall|w2: int, v: int| 0 <= w2 < n && 0 <= v < n implies #[trigger] occurrences(edges@[w2]@, v)
                        == (if v < reader {
                            dependency_indicator(nodes@, v, w2)
                        } else if v == reader {
                            seen_dependency(nodes@, v, w2, k as int, ws@, t + 1)
                        } else {
                            0
                        }) by {
                        assert(ws@.subrange(0, t + 1).contains(w2 as usize) <==> (ws@.subrange(0, t as int).contains(
                            w2 as usize,
                        ) || w2 == w)) by {
                            let s = ws@.subrange(0, t as int);
                            if s.push(w).contains(w2 as usize) {
                                let i = choose|i: int| 0 <= i < s.push(w).len() && s.push(w)[i] == w2 as usize;
                                if i < s.len() {
                                    assert(s[i] == w2 as usize);
                                }
                            }
                            if s.contains(w2 as usize) {
                                let i = choose|i: int| 0 <= i < s.len() && s[i] == w2 as usize;
                                assert(s.push(w)[i] == w2 as usize);
                            }
                            if w2 == w {
                                assert(s.push(w)[s.len() as int] == w);
                            }
                        }
                        if w2 == w as int && w != reader && !listed {
                            lemma_occurrences_push(old_edges[w2]@, reader, v);
                        } else {
                            assert(edges@[w2] == old_edges[w2]);
                        }
                    }
                    assert forall|w2: int, x: int| 0 <= w2 < n && 0 <= x < edges@[w2]@.len() implies #[trigger] edges@[w2]@[x]
                        <= reader by {
                        if w2 == w as int && w != reader && !listed && x == old_edges[w2]@.len() {
                        } else {
                            assert(edges@[w2]@[x] == old_edges[w2]@[x]);
                        }
                    }
                    assert forall|w2: int, x: int, y: int|
                        0 <= w2 < n && 0 <= x < y < edges@[w2]@.len() implies #[trigger] edges@[w2]@[x]
                            <= #[trigger] edges@[w2]@[y] by {
                        assert(edges@[w2]@[x] == old_edges[w2]@[x]);
                        if w2 == w as int && w != reader && !listed && y == old_edges[w2]@.len() {
                        } else {
                            assert(edges@[w2]@[y] == old_edges[w2]@[y]);
                        }
                    }
                }
                t = t + 1;
            }
            proof {
                assert(ws@.subrange(0, ws@.len() as int) =~= ws@);
                assert forall|w: int| 0 <= w < n implies (reads_output_of(nodes@, reader as int, w, k + 1) <==> (
                reads_output_of(nodes@, reader as int, w, k as int) || ws@.contains(w as usize))) by {
                    assert(ws@.contains(w as usize) <==> writes(nodes@[w], resource));
                    if reads_output_of(nodes@, reader as int, w, k + 1) {
                        let j = choose|j: int|
                            0 <= j < k + 1 && #[trigger] writes(nodes@[w], nodes@[reader as int].inputs@[j].resource);
                        if j < k {
                            assert(reads_output_of(nodes@, reader as int, w, k as int));
                        }
                    }
                    if reads_output_of(nodes@, reader as int, w, k as int) {
                        let j = choose|j: int|
                            0 <= j < k as int && #[trigger] writes(nodes@[w], nodes@[reader as int].inputs@[j].resource);
                        assert(writes(nodes@[w], nodes@[reader as int].inputs@[j].resource));
                    }
                    if ws@.contains(w as usize) {
                        assert(writes(nodes@[w], nodes@[reader as int].inputs@[k as int].resource));
                    }
                }
                assert forall|w: int, v: int| 0 <= w < n && 0 <= v < n implies #[trigger] occurrences(edges@[w]@, v)
                    == (if v < reader {
                        dependency_indicator(nodes@, v, w)
                    } else if v == reader {
                        if w != v && reads_output_of(nodes@, v, w, k + 1) {
                            1nat
                        } else {
                            0nat
                        }
                    } else {
                        0
                    }) by {}
            }
            k = k + 1;
        }
        proof {
            assert forall|w: int| 0 <= w < n implies (#[trigger] occurrences(edges@[w]@, reader as int) > 0
                <==> depends_on(nodes@, reader as int, w)) by {}
            lemma_rows_listing_dependencies(nodes@, edges@, reader as int, n as int);
            assert forall|w: int, v: int| 0 <= w < n && 0 <= v < n implies #[trigger] occurrences(edges@[w]@, v) == (
            if v < reader + 1 {
                dependency_indicator(nodes@, v, w)
            } else {
                0
            }) by {}
        }
        reader = reader + 1;
    }
    (edges, dependency_count)
}

/// A sequence of distinct numbers below `n` has at most `n` elements, and
/// with exactly `n` it holds every number below `n`.
pub proof fn lemma_distinct_below(s: Seq<usize>, n: int)
    requires
        0 <= n,
        s.no_duplicates(),
        forall|i: int| 0 <= i < s.len() ==> #[trigger] s[i] < n,
    ensures
        s.len() <= n,
        s.len() == n ==> forall|v: usize| v < n ==> #[trigger] s.contains(v),
{
    let t = s.map_values(|x: usize| x as int);
    assert(t.no_duplicates()) by {
        assert forall|i: int, j: int| 0 <= i < t.len() && 0 <= j < t.len() && i != j implies t[i]
            != t[j] by {
            assert(s[i] != s[j]);
        }
    }
    t.unique_seq_to_set();
    if s.len() == 0 {
        return;
    }
    assert(s[0] < n);
    lemma_int_range(0, n);
    assert(t.to_set().subset_of(set_int_range(0, n))) by {
        assert forall|x: int| t.to_set().contains(x) implies set_int_range(0, n).contains(x) by {
            assert(t.contains(x));
            let i = choose|i: int| 0 <= i < t.len() && t[i] == x;
            assert(s[i] < n);
        }
    }
    lemma_len_subset(t.to_set(), set_int_range(0, n));
    if s.len() == n {
        lemma_subset_equality(t.to_set(), set_int_range(0, n));
        assert forall|v: usize| v < n implies #[trigger] s.contains(v) by {
            assert(set_int_range(0, n).contains(v as int));
            assert(t.to_set().contains(v as int));
            assert(t.contains(v as int));
            let i = choose|i: int| 0 <= i < t.len() && t[i] == v as int;
            assert(s[i] == v);
        }
    }
}

/// A sequence of distinct values, each of which occurs in another sequence of
/// distinct values, is no longer than it.
pub proof fn lemma_distinct_included(a: Seq<usize>, b: Seq<usize>)
    requires
        a.no_duplicates(),
        b.no_duplicates(),
        forall|i: int| 0 <= i < a.len() ==> b.contains(#[trigger] a[i]),
    ensures
        a.len() <= b.len(),
{
    a.unique_seq_to_set();
    b.unique_seq_to_set();
    assert(a.to_set().subset_of(b.to_set())) by {
        assert forall|x: usize| a.to_set().contains(x) implies b.to_set().contains(x) by {
            assert(a.contains(x));
            let i = choose|i: int| 0 <= i < a.len() && a[i] == x;
            assert(b.contains(a[i]));
        }
    }
    lemma_len_subset(a.to_set(), b.to_set());
}

/// When every node outside `done` still waits for a node outside `done`,
/// every node that an execution order lists up to position `i` is in `done`.
proof fn lemma_order_prefix_done<E>(nodes: Seq<Node<E>>, done: Seq<usize>, o: Seq<usize>, i: int)
    requires
        nodes.len() <= usize::MAX,
        forall|v: usize| v < nodes.len() && !done.contains(v) ==> #[trigger] pending_dependencies(nodes, v as int, done) > 0,
        is_execution_order(nodes, o),
        0 <= i < o.len(),
    ensures
        forall|j: int| 0 <= j <= i ==> done.contains(#[trigger] o[j]),
    decreases i,
{
    if i > 0 {
        lemma_order_prefix_done(nodes, done, o, i - 1);
    }
    let v = o[i];
    if !done.contains(v) {
        assert(pending_dependencies(nodes, v as int, done) > 0);
        lemma_pending_positive(nodes, v as int, done, nodes.len() as int);
        let w = choose|w: int| 0 <= w < nodes.len() && #[trigger] depends_on(nodes, v as int, w) && !done.contains(w as usize);
        lemma_distinct_below(o, nodes.len() as int);
        assert(o.contains(w as usize));
        let j = choose|j: int| 0 <= j < o.len() && o[j] == w as usize;
        assert(depends_on(nodes, o[i] as int, o[j] as int));
        assert(j < i);
        assert(done.contains(o[j]));
    }
}

/// When every node outside `done` still waits for a node outside `done` and
/// not every node is done, the graph has no execution order.
pub proof fn lemma_stuck_means_no_order<E>(nodes: Seq<Node<E>>, done: Seq<usize>)
    requires
        nodes.len() <= usize::MAX,
        done.no_duplicates(),
        done.len() < nodes.len(),
        forall|v: usize| v < nodes.len() && !done.contains(v) ==> #[trigger] pending_dependencies(nodes, v as int, done) > 0,
    ensures
        forall|o: Seq<usize>| !is_execution_order(nodes, o),
{
    assert forall|o: Seq<usize>| !is_execution_order(nodes, o) by {
        if is_execution_order(nodes, o) {
            lemma_order_prefix_done(nodes, done, o, o.len() - 1);
            lemma_distinct_included(o, done);
        }
    }
}

/// A node outside `done` that node `v` depends on, when there is one.
spec fn blocking_dependency<E>(nodes: Seq<Node<E>>, done: Seq<usize>, v: int) -> int {
    choose|w: int| #[trigger] depends_on(nodes, v, w) && !done.contains(w as usize)
}

/// The node reached from `start` by following blocking dependencies `k`
/// times.
spec fn blocked_walk<E>(nodes: Seq<Node<E>>, done: Seq<usize>, start: int, k: nat) -> int
    decreases k,
{
    if k == 0 {
        start
    } else {
        blocking_dependency(nodes, done, blocked_walk(nodes, done, start, (k - 1) as nat))
    }
}

proof fn lemma_blocked_walk<E>(nodes: Seq<Node<E>>, done: Seq<usize>, start: int, k: nat)
    requires
        nodes.len() <= usize::MAX,
        0 <= start < nodes.len(),
        !done.contains(start as usize),
        forall|v: usize| v < nodes.len() && !done.contains(v) ==> #[trigger] pending_dependencies(nodes, v as int, done) > 0,
    ensures
        0 <= blocked_walk(nodes, done, start, k) < nodes.len(),
        !done.contains(blocked_walk(nodes, done, start, k) as usize),
        depends_on(nodes, blocked_walk(nodes, done, start, k), blocked_walk(nodes, done, start, k + 1)),
        !done.contains(blocked_walk(nodes, done, start, k + 1) as usize),
    decreases k,
{
    if k > 0 {
        lemma_blocked_walk(nodes, done, start, (k - 1) as nat);
    }
    let v = blocked_walk(nodes, done, start, k);
    assert(pending_dependencies(nodes, (v as usize) as int, done) > 0);
    lemma_pending_positive(nodes, v, done, nodes.len() as int);
    let w = choose|w: int| 0 <= w < nodes.len() && #[trigger] depends_on(nodes, v, w) && !done.contains(w as usize);
    assert(depends_on(nodes, v, w) && !done.contains(w as usize));
    assert(blocked_walk(nodes, done, start, k + 1) == blocking_dependency(nodes, done, v));
}

/// When every node outside `done` still waits for a node outside `done` and
/// not every node is done, the dependencies of the graph run in a cycle.
pub proof fn lemma_stuck_has_cycle<E>(nodes: Seq<Node<E>>, done: Seq<usize>)
    requires
        nodes.len() <= usize::MAX,
        done.no_duplicates(),
        done.len() < nodes.len(),
        forall|i: int| 0 <= i < done.len() ==> #[trigger] done[i] < nodes.len(),
        forall|v: usize| v < nodes.len() && !done.contains(v) ==> #[trigger] pending_dependencies(nodes, v as int, done) > 0,
    ensures
        has_dependency_cycle(nodes),
{
    let n = nodes.len() as int;
    if forall|v: usize| v < n ==> #[trigger] done.contains(v) {
        let all = Seq::new(n as nat, |i: int| i as usize);
        assert forall|i: int| 0 <= i < all.len() implies done.contains(#[trigger] all[i]) by {
            assert(all[i] < n);
        }
        lemma_distinct_included(all, done);
    }
    let start = choose|v: usize| v < n && !#[trigger] done.contains(v);
    let s = Seq::new((n + 1) as nat, |k: int| blocked_walk(nodes, done, start as int, k as nat) as usize);
    assert forall|k: int| 0 <= k < s.len() implies #[trigger] s[k] < n by {
        lemma_blocked_walk(nodes, done, start as int, k as nat);
    }
    if s.no_duplicates() {
        lemma_distinct_below(s, n);
    }
    let (a, b) = choose|a: int, b: int| 0 <= a < s.len() && 0 <= b < s.len() && a != b && s[a] == s[b];
    let lo = if a < b {
        a
    } else {
        b
    };
    let hi = if a < b {
        b
    } else {
        a
    };
    lemma_blocked_walk(nodes, done, start as int, lo as nat);
    lemma_blocked_walk(nodes, done, start as int, hi as nat);
    assert(s[lo] == s[hi]);
    assert(blocked_walk(nodes, done, start as int, lo as nat) == blocked_walk(nodes, done, start as int, hi as nat));
    let c = Seq::new((hi - lo) as nat, |t: int| blocked_walk(nodes, done, start as int, (lo + t) as nat));
    assert forall|t: int| 0 <= t < c.len() implies depends_on(nodes, c[t], #[trigger] cycle_next(c, t)) by {
        lemma_blocked_walk(nodes, done, start as int, (lo + t) as nat);
        assert(((lo + t) as nat + 1) as nat == (lo + t + 1) as nat);
    }
    assert(is_dependency_cycle(nodes, c));
}

/// The position, among the first `n` entries of `order`, of the last node
/// that node `x` depends on; -1 when it depends on none of them.
pub open spec fn last_dependency_position<E>(nodes: Seq<Node<E>>, order: Seq<usize>, x: int, n: int) -> int
    decreases n,
{
    if n <= 0 {
        -1
    } else if depends_on(nodes, x, order[n - 1] as int) {
        n - 1
    } else {
        last_dependency_position(nodes, order, x, n - 1)
    }
}

/// The position in `order` after which node `x` is ready to run: that of the
/// last node it depends on, or -1 when it depends on none.
pub open spec fn ready_position<E>(nodes: Seq<Node<E>>, order: Seq<usize>, x: int) -> int {
    last_dependency_position(nodes, order, x, order.len() as int)
}

/// Node `x` becomes ready before node `y`, or with it and was added first.
pub open spec fn ready_before<E>(nodes: Seq<Node<E>>, order: Seq<usize>, x: int, y: int) -> bool {
    ||| ready_position(nodes, order, x) < ready_position(nodes, order, y)
    ||| ready_position(nodes, order, x) == ready_position(nodes, order, y) && x < y
}

/// Nodes run first in, first out as they become ready: a node becomes ready
/// right after the last node it depends on has run (a node that depends on
/// none is ready from the start), and nodes that become ready together run
/// in the order they were added.
pub open spec fn runs_in_ready_order<E>(nodes: Seq<Node<E>>, order: Seq<usize>) -> bool {
    forall|i: int, j: int|
        0 <= i < j < order.len() ==> ready_before(nodes, order, #[trigger] order[i] as int, #[trigger] order[j] as int)
}

proof fn lemma_last_dependency_range<E>(nodes: Seq<Node<E>>, order: Seq<usize>, x: int, n: int)
    requires
        0 <= n,
    ensures
        -1 <= last_dependency_position(nodes, order, x, n) < n,
    decreases n,
{
    if n > 0 {
        lemma_last_dependency_range(nodes, order, x, n - 1);
    }
}

proof fn lemma_last_dependency_push<E>(nodes: Seq<Node<E>>, order: Seq<usize>, u: usize, x: int, n: int)
    requires
        0 <= n <= order.len(),
    ensures
        last_dependency_position(nodes, order.push(u), x, n) == last_dependency_position(nodes, order, x, n),
    decreases n,
{
    if n > 0 {
        assert(order.push(u)[n - 1] == order[n - 1]);
        lemma_last_dependency_push(nodes, order, u, x, n - 1);
    }
}

/// Appending a node that `x` does not depend on leaves when `x` is ready.
proof fn lemma_ready_push_independent<E>(nodes: Seq<Node<E>>, order: Seq<usize>, u: usize, x: int)
    requires
        !depends_on(nodes, x, u as int),
    ensures
        ready_position(nodes, order.push(u), x) == ready_position(nodes, order, x),
{
    assert(order.push(u)[order.len() as int] == u);
    lemma_last_dependency_push(nodes, order, u, x, order.len() as int);
}

/// When every node `x` depends on comes before position `a`, so does the
/// last of them.
proof fn lemma_last_dependency_before<E>(nodes: Seq<Node<E>>, order: Seq<usize>, x: int, n: int, a: int)
    requires
        0 <= a,
        forall|y: int| 0 <= y < n && depends_on(nodes, x, #[trigger] order[y] as int) ==> y < a,
    ensures
        last_dependency_position(nodes, order, x, n) < a,
    decreases n,
{
    if n > 0 {
        lemma_last_dependency_before(nodes, order, x, n - 1, a);
    }
}


/// `s` lists nodes in the order they become ready, given `order`.
spec fn ready_sorted<E>(nodes: Seq<Node<E>>, order: Seq<usize>, s: Seq<usize>) -> bool {
    forall|a: int, b: int|
        0 <= a < b < s.len() ==> ready_before(nodes, order, #[trigger] s[a] as int, #[trigger] s[b] as int)
}

/// Kahn's algorithm over the dependency edges, taking ready nodes in
/// first-in, first-out order. When it gets stuck, the nodes left over
/// depend on each other in a cycle.
pub(crate) fn schedule<E>(nodes: &Vec<Node<E>>, edges: &Vec<Vec<usize>>, dependency_count: Vec<usize>) -> (res: Result<Vec<usize>, ()>)
    requires
        edges_match(nodes@, edges@),
        dependency_count@.len() == nodes@.len(),
        forall|v: int| 0 <= v < nodes@.len() ==> #[trigger] dependency_count@[v] == pending_dependencies(nodes@, v, Seq::empty()),
    ensures
        match res {
            Ok(order) => is_execution_order(nodes@, order@) && runs_in_ready_order(nodes@, order@),
            Err(()) => has_dependency_cycle(nodes@) && forall|o: Seq<usize>| !is_execution_order(nodes@, o),
        },
{
    let mut dependency_count = dependency_count;
    let n = nodes.len();
    let mut queue: VecDeque<usize> = VecDeque::new();
    let mut order: Vec<usize> = Vec::new();
    let mut i: usize = 0;
    while i < n
        invariant
            n == nodes.len(),
            i <= n,
            order@ == Seq::<usize>::empty(),
            dependency_count@.len() == n,
            forall|v: int| 0 <= v < n ==> #[trigger] dependency_count@[v] == pending_dependencies(nodes@, v, order@),
            queue@.no_duplicates(),
            forall|x: int| 0 <= x < queue@.len() ==> #[trigger] queue@[x] < i,
            forall|a: int, b: int| 0 <= a < b < queue@.len() ==> #[trigger] queue@[a] < #[trigger] queue@[b],
            forall|v: usize| v < n ==> (#[trigger] queue@.contains(v) <==> (v < i && dependency_count@[v as int] == 0)),
        decreases n - i,
    {
        let ghost old_q = queue@;
        if dependency_count[i] == 0 {
            queue.push_back(i);
            proof {
                assert forall|x: int| 0 <= x < old_q.len() implies old_q[x] != i by {}
            }
        }
        proof {
            assert forall|v: usize| v < n implies (#[trigger] queue@.contains(v) <==> (v < i + 1 && dependency_count@[v as int] == 0)) by {
                assert(old_q.contains(v) <==> (v < i && dependency_count@[v as int] == 0));
                if queue@.contains(v) && v != i {
                    let x = choose|x: int| 0 <= x < queue@.len() && queue@[x] == v;
                    assert(old_q[x] == v);
                }
                if v < i && dependency_count@[v as int] == 0 {
                    assert(old_q.contains(v));
                    let x = choose|x: int| 0 <= x < old_q.len() && old_q[x] == v;
                    assert(queue@[x] == v);
                }
                if v == i && dependency_count@[v as int] == 0 {
                    assert(queue@[queue@.len() - 1] == v);
                }
            }
        }
        i = i + 1;
    }
    loop
        invariant
            n == nodes.len(),
            edges_match(nodes@, edges@),
            dependency_count@.len() == n,
            order@.no_duplicates(),
            queue@.no_duplicates(),
            forall|x: int| 0 <= x < order@.len() ==> #[trigger] order@[x] < n,
            forall|x: int| 0 <= x < queue@.len() ==> #[trigger] queue@[x] < n,
            forall|x: int| 0 <= x < queue@.len() ==> !order@.contains(#[trigger] queue@[x]),
            forall|v: int| 0 <= v < n ==> #[trigger] dependency_count@[v] == pending_dependencies(nodes@, v, order@),
            forall|v: usize| v < n ==> ((order@.contains(v) || queue@.contains(v)) <==> #[trigger] dependency_count@[v as int] == 0),
            forall|x: int, y: int|
                0 <= x < order@.len() && 0 <= y < order@.len() && depends_on(
                    nodes@,
                    #[trigger] order@[x] as int,
                    #[trigger] order@[y] as int,
                ) ==> y < x,
            ready_sorted(nodes@, order@, order@ + queue@),
        ensures
            queue@.len() == 0,
            order@.no_duplicates(),
            forall|x: int| 0 <= x < order@.len() ==> #[trigger] order@[x] < n,
            forall|v: int| 0 <= v < n ==> #[trigger] dependency_count@[v] == pending_dependencies(nodes@, v, order@),
            forall|v: usize| v < n ==> ((order@.contains(v) || queue@.contains(v)) <==> #[trigger] dependency_count@[v as int] == 0),
            forall|x: int, y: int|
                0 <= x < order@.len() && 0 <= y < order@.len() && depends_on(
                    nodes@,
                    #[trigger] order@[x] as int,
                    #[trigger] order@[y] as int,
                ) ==> y < x,
            ready_sorted(nodes@, order@, order@ + queue@),
        decreases n - order@.len(),
    {
        proof {
            lemma_distinct_below(order@, n as int);
        }
        let ghost old_order = order@;
        let ghost old_queue = queue@;
        let next = queue.pop_front();
        let u = match next {
            Some(u) => u,
            None => break,
        };
        proof {
            assert(old_queue[0] == u);
            assert(!old_order.contains(u));
            assert(old_queue.contains(u));
            assert(dependency_count@[u as int] == 0);
            lemma_pending_zero(nodes@, u as int, old_order, n as int);
        }
        order.push(u);
        proof {
            let m = old_order.len() as int;
            assert(order@[m] == u);
            assert forall|x: int| 0 <= x < queue@.len() implies !order@.contains(#[trigger] queue@[x]) by {
                assert(queue@[x] == old_queue[x + 1]);
                assert(old_queue[x + 1] != old_queue[0]);
                if order@.contains(queue@[x]) {
                    let y = choose|y: int| 0 <= y < order@.len() && order@[y] == queue@[x];
                    if y < m {
                        assert(old_order.contains(old_queue[x + 1]));
                    }
                }
            }
            assert(order@.no_duplicates()) by {
                assert forall|a: int, b: int| 0 <= a < order@.len() && 0 <= b < order@.len() && a != b implies order@[a] != order@[b] by {
                    if a < m && b < m {
                    } else if a < m {
                        assert(old_order.contains(order@[a]));
                    } else if b < m {
                        assert(old_order.contains(order@[b]));
                    }
                }
            }
            assert forall|x: int, y: int|
                0 <= x < order@.len() && 0 <= y < order@.len() && depends_on(
                    nodes@,
                    #[trigger] order@[x] as int,
                    #[trigger] order@[y] as int,
                ) implies y < x by {
                if x == m {
                    assert(depends_on(nodes@, u as int, order@[y] as int));
                    assert(old_order.contains(order@[y]));
                    if y == m {
                    }
                } else if y == m {
                    let v = order@[x];
                    assert(old_order[x] == v);
                    assert(old_order.contains(v));
                    assert(dependency_count@[v as int] == 0);
                    lemma_pending_zero(nodes@, v as int, old_order, n as int);
                    assert(depends_on(nodes@, v as int, u as int));
                    assert(old_order.contains(u));
                }
            }
            assert forall|v: usize| v < n implies ((order@.contains(v) || queue@.contains(v)) <==> #[trigger] dependency_count@[v as int] == 0) by {
                assert((old_order.contains(v) || old_queue.contains(v)) <==> dependency_count@[v as int] == 0);
                if order@.contains(v) && v != u {
                    let y = choose|y: int| 0 <= y < order@.len() && order@[y] == v;
                    assert(old_order[y] == v);
                }
                if old_order.contains(v) {
                    let y = choose|y: int| 0 <= y < old_order.len() && old_order[y] == v;
                    assert(order@[y] == v);
                }
                if queue@.contains(v) {
                    let y = choose|y: int| 0 <= y < queue@.len() && queue@[y] == v;
                    assert(old_queue[y + 1] == v);
                }
                if old_queue.contains(v) && v != u {
                    let y = choose|y: int| 0 <= y < old_queue.len() && old_queue[y] == v;
                    assert(y != 0);
                    assert(queue@[y - 1] == v);
                }
            }
            assert forall|v: int| 0 <= v < n implies #[trigger] pending_dependencies(nodes@, v, old_order)
                == pending_dependencies(nodes@, v, order@) + occurrences(edges@[u as int]@, v) by {
                lemma_pending_split(nodes@, v, old_order, u, n as int);
            }
            // Nothing already ordered or waiting depends on `u`, so running `u`
            // changes when none of them became ready.
            assert forall|x: usize| #[trigger] old_order.contains(x) || #[trigger] old_queue.contains(x) implies !depends_on(
                nodes@,
                x as int,
                u as int,
            ) by {
                if old_order.contains(x) {
                    let t = choose|t: int| 0 <= t < old_order.len() && old_order[t] == x;
                    assert(old_order[t] < n);
                } else {
                    let t = choose|t: int| 0 <= t < old_queue.len() && old_queue[t] == x;
                    assert(old_queue[t] < n);
                }
                assert(dependency_count@[x as int] == 0);
                lemma_pending_zero(nodes@, x as int, old_order, n as int);
                if depends_on(nodes@, x as int, u as int) {
                    assert(old_order.contains(u));
                }
            }
            let s_old = old_order + old_queue;
            let s_new = order@ + queue@;
            assert(s_new =~= s_old);
            assert forall|a: int| 0 <= a < s_old.len() implies ready_position(nodes@, order@, #[trigger] s_old[a] as int)
                == ready_position(nodes@, old_order, s_old[a] as int) by {
                if a < old_order.len() {
                    assert(old_order[a] == s_old[a]);
                    assert(old_order.contains(s_old[a]));
                } else {
                    assert(old_queue[a - old_order.len()] == s_old[a]);
                    assert(old_queue.contains(s_old[a]));
                }
                lemma_ready_push_independent(nodes@, old_order, u, s_old[a] as int);
            }
            assert forall|a: int, b: int| 0 <= a < b < s_new.len() implies ready_before(
                nodes@,
                order@,
                #[trigger] s_new[a] as int,
                #[trigger] s_new[b] as int,
            ) by {
                assert(s_new[a] == s_old[a] && s_new[b] == s_old[b]);
            }

        }
        let row = &edges[u];
        let mut e: usize = 0;
        assert(row@.subrange(0, 0) =~= Seq::<usize>::empty());
        assert forall|x: usize| #[trigger] queue@.contains(x) && ready_position(nodes@, order@, x as int) == order@.len() - 1
            implies row@.subrange(0, e as int).contains(x) by {
            // Nothing waiting depends on `u` yet, so none of it is ready right after `u`.
            let t = choose|t: int| 0 <= t < queue@.len() && queue@[t] == x;
            assert(old_queue[t + 1] == x);
            assert(old_queue.contains(x));
            lemma_ready_push_independent(nodes@, old_order, u, x as int);
            lemma_last_dependency_range(nodes@, old_order, x as int, old_order.len() as int);
        }
        while e < row.len()
            invariant
                n == nodes.len(),
                u < n,
                row == &edges@[u as int],
                e <= row.len(),
                edges_match(nodes@, edges@),
                dependency_count@.len() == n,
                order@.no_duplicates(),
                queue@.no_duplicates(),
                forall|x: int| 0 <= x < order@.len() ==> #[trigger] order@[x] < n,
                forall|x: int| 0 <= x < queue@.len() ==> #[trigger] queue@[x] < n,
                forall|x: int| 0 <= x < queue@.len() ==> !order@.contains(#[trigger] queue@[x]),
                forall|v: int| 0 <= v < n ==> #[trigger] dependency_count@[v] + occurrences(row@.subrange(0, e as int), v)
                    == pending_dependencies(nodes@, v, order@) + occurrences(row@, v),
                forall|v: usize| v < n ==> ((order@.contains(v) || queue@.contains(v)) <==> #[trigger] dependency_count@[v as int] == 0),
                forall|x: int, y: int|
                    0 <= x < order@.len() && 0 <= y < order@.len() && depends_on(
                        nodes@,
                        #[trigger] order@[x] as int,
                        #[trigger] order@[y] as int,
                    ) ==> y < x,
                ready_sorted(nodes@, order@, order@ + queue@),
                order@.len() > 0,
                order@.last() == u,
                forall|x: usize| #[trigger] queue@.contains(x) && ready_position(nodes@, order@, x as int) == order@.len() - 1
                    ==> row@.subrange(0, e as int).contains(x),
            decreases row.len() - e,
        {
            let v = row[e];
            proof {
                lemma_occurrences_prefix_step(row@, e as int, v as int);
                lemma_occurrences_prefix_le(row@, e + 1, v as int);
            }
            let ghost old_q = queue@;
            assert(edges@[u as int]@[e as int] == v);
            assert(v < n);
            assert(dependency_count@[v as int] > 0);
            let ghost was_done = order@.contains(v) || old_q.contains(v);
            assert(!was_done);
            dependency_count[v] = dependency_count[v] - 1;
            if dependency_count[v] == 0 {
                queue.push_back(v);
                proof {
                    assert(!old_q.contains(v));
                }
            }
            proof {
                assert forall|w: int| 0 <= w < n implies #[trigger] dependency_count@[w] + occurrences(row@.subrange(0, e + 1), w)
                    == pending_dependencies(nodes@, w, order@) + occurrences(row@, w) by {
                    lemma_occurrences_prefix_step(row@, e as int, w);
                }
                assert forall|w: usize| w < n implies ((order@.contains(w) || queue@.contains(w)) <==> #[trigger] dependency_count@[w as int] == 0) by {
                    if w != v {
                        if queue@.contains(w) {
                            let x = choose|x: int| 0 <= x < queue@.len() && queue@[x] == w;
                            assert(old_q[x] == w);
                        }
                        if old_q.contains(w) {
                            let x = choose|x: int| 0 <= x < old_q.len() && old_q[x] == w;
                            assert(queue@[x] == w);
                        }
                    } else if dependency_count@[v as int] == 0 {
                        assert(queue@[queue@.len() - 1] == v);
                    }
                }
                assert forall|x: int| 0 <= x < queue@.len() implies !order@.contains(#[trigger] queue@[x]) by {
                    if x < old_q.len() {
                        assert(queue@[x] == old_q[x]);
                    }
                }
                let len = order@.len() as int;
                assert(row@.subrange(0, e + 1)[e as int] == v);
                assert forall|x: usize| #[trigger] queue@.contains(x) && ready_position(nodes@, order@, x as int) == len - 1
                    implies row@.subrange(0, e + 1).contains(x) by {
                    if x == v {
                    } else {
                        let t = choose|t: int| 0 <= t < queue@.len() && queue@[t] == x;
                        if t < old_q.len() {
                            assert(old_q[t] == x);
                        }
                        assert(old_q.contains(x));
                        assert(row@.subrange(0, e as int).contains(x));
                        let q = choose|q: int| 0 <= q < e && #[trigger] row@.subrange(0, e as int)[q] == x;
                        assert(row@.subrange(0, e + 1)[q] == x);
                    }
                }
                if queue@.len() > old_q.len() {
                    // `v` became ready right after `u`, the last node it depends on.
                    assert(occurrences(row@, v as int) > 0);
                    assert(occurrences(edges@[u as int]@, v as int) == dependency_indicator(nodes@, v as int, u as int));
                    assert(depends_on(nodes@, v as int, u as int));
                    assert(order@[len - 1] == u);
                    assert(ready_position(nodes@, order@, v as int) == len - 1);
                    let s_old = order@ + old_q;
                    let s_new = order@ + queue@;
                    assert(s_new =~= s_old.push(v));
                    assert forall|a: int, b: int| 0 <= a < b < s_new.len() implies ready_before(
                        nodes@,
                        order@,
                        #[trigger] s_new[a] as int,
                        #[trigger] s_new[b] as int,
                    ) by {
                        if b < s_old.len() {
                            assert(s_new[a] == s_old[a] && s_new[b] == s_old[b]);
                        } else {
                            let x = s_new[a];
                            assert(x == s_old[a]);
                            lemma_last_dependency_range(nodes@, order@, x as int, len);
                            if ready_position(nodes@, order@, x as int) == len - 1 {
                                if a < len {
                                    assert(x == order@[a]);
                                    lemma_last_dependency_before(nodes@, order@, x as int, len, a);
                                } else {
                                    assert(old_q[a - len] == x);
                                    assert(old_q.contains(x));
                                    assert(queue@[a - len] == x);
                                    assert(queue@.contains(x));
                                    assert(row@.subrange(0, e + 1).contains(x));
                                    let q = choose|q: int| 0 <= q < e + 1 && #[trigger] row@.subrange(0, e + 1)[q] == x;
                                    assert(row@[q] == x);
                                    assert(row@[e as int] == v);
                                    if q < e {
                                        assert(row@[q] <= row@[e as int]);
                                    }
                                    assert(x != v);
                                }
                            }
                        }
                    }
                } else {
                    assert(queue@ == old_q);
                }
            }
            e = e + 1;
        }
        proof {
            assert(row@.subrange(0, row@.len() as int) =~= row@);
        }
    }
    if order.len() == n {
        proof {
            assert(is_execution_order(nodes@, order@));
            assert(order@ + queue@ =~= order@);
        }
        Ok(order)
    } else {
        proof {
            lemma_distinct_below(order@, n as int);
            assert forall|v: usize| v < n && !order@.contains(v) implies #[trigger] pending_dependencies(
                nodes@,
                v as int,
                order@,
            ) > 0 by {
                assert(!queue@.contains(v));
                assert(dependency_count@[v as int] != 0);
            }
            lemma_stuck_means_no_order(nodes@, order@);
            lemma_stuck_has_cycle(nodes@, order@);
        }
        Err(())
    }
}

/// In an execution order, every other node that writes something a node
/// reads runs before that node.
pub proof fn lemma_writer_runs_first<E>(nodes: Seq<Node<E>>, order: Seq<usize>, i: int, k: int, w: int)
    requires
        nodes.len() <= usize::MAX,
        is_execution_order(nodes, order),
        0 <= i < order.len(),
        0 <= k < nodes[order[i] as int].inputs@.len(),
        0 <= w < nodes.len(),
        w != order[i] as int,
        writes(nodes[w], nodes[order[i] as int].inputs@[k].resource),
    ensures
        exists|j: int| 0 <= j < i && order[j] as int == w,
{
    assert(depends_on(nodes, order[i] as int, w));
    lemma_distinct_below(order, nodes.len() as int);
    assert(order.contains(w as usize));
    let j = choose|j: int| 0 <= j < order.len() && order[j] == w as usize;
    assert(depends_on(nodes, order[i] as int, order[j] as int));
}

/// Where node `x` stands in `o`.
spec fn position_in(o: Seq<usize>, x: int) -> int {
    choose|j: int| 0 <= j < o.len() && o[j] as int == x
}

/// Along a dependency cycle, each node stands earlier in an execution order
/// than the one before it.
proof fn lemma_cycle_positions_fall<E>(nodes: Seq<Node<E>>, o: Seq<usize>, c: Seq<int>, i: int)
    requires
        nodes.len() <= usize::MAX,
        is_execution_order(nodes, o),
        is_dependency_cycle(nodes, c),
        0 <= i < c.len(),
    ensures
        0 <= position_in(o, c[i]) < o.len(),
        o[position_in(o, c[i])] as int == c[i],
        position_in(o, c[i]) <= position_in(o, c[0]) - i,
    decreases i,
{
    lemma_distinct_below(o, nodes.len() as int);
    assert(depends_on(nodes, c[i], cycle_next(c, i)));
    assert(o.contains(c[i] as usize));
    let j = choose|j: int| 0 <= j < o.len() && o[j] == c[i] as usize;
    assert(o[j] as int == c[i]);
    if i > 0 {
        lemma_cycle_positions_fall(nodes, o, c, i - 1);
        assert(depends_on(nodes, c[i - 1], cycle_next(c, i - 1)));
        assert(cycle_next(c, i - 1) == c[i]);
        let a = position_in(o, c[i - 1]);
        let b = position_in(o, c[i]);
        assert(depends_on(nodes, o[a] as int, o[b] as int));
    }
}

/// A graph whose dependencies run in a cycle has no execution order.
pub proof fn lemma_cycle_has_no_order<E>(nodes: Seq<Node<E>>, c: Seq<int>, o: Seq<usize>)
    requires
        nodes.len() <= usize::MAX,
        is_dependency_cycle(nodes, c),
    ensures
        !is_execution_order(nodes, o),
{
    if is_execution_order(nodes, o) {
        let last = c.len() - 1;
        lemma_cycle_positions_fall(nodes, o, c, last);
        lemma_cycle_positions_fall(nodes, o, c, 0);
        assert(depends_on(nodes, c[last], cycle_next(c, last)));
        assert(cycle_next(c, last) == c[0]);
        let a = position_in(o, c[last]);
        let b = position_in(o, c[0]);
        assert(depends_on(nodes, o[a] as int, o[b] as int));
    }
}

/// The nodes in the order they were added: 0, 1, 2, and so on.
pub open spec fn declaration_order(n: nat) -> Seq<usize> {
    Seq::new(n, |i: int| i as usize)
}

/// With no node depending on another, the order the nodes were added in is
/// an execution order that runs them as they become ready.
pub proof fn lemma_declaration_order_is_ready<E>(nodes: Seq<Node<E>>)
    requires
        nodes.len() <= usize::MAX,
        forall|v: int, w: int| !#[trigger] depends_on(nodes, v, w),
    ensures
        is_execution_order(nodes, declaration_order(nodes.len())),
        runs_in_ready_order(nodes, declaration_order(nodes.len())),
{
    let s = declaration_order(nodes.len());
    assert forall|x: int| #![trigger ready_position(nodes, s, x)] ready_position(nodes, s, x) == -1 by {
        lemma_last_dependency_before(nodes, s, x, s.len() as int, 0);
        lemma_last_dependency_range(nodes, s, x, s.len() as int);
    }
    assert forall|i: int, j: int| 0 <= i < j < s.len() implies ready_before(nodes, s, #[trigger] s[i] as int, #[trigger] s[j] as int) by {
        assert(ready_position(nodes, s, s[i] as int) == -1);
        assert(ready_position(nodes, s, s[j] as int) == -1);
    }
}

/// A graph in which no node depends on another has exactly one execution
/// order that runs nodes as they become ready: the order the nodes were added
/// in.
pub proof fn lemma_independent_nodes_keep_order<E>(nodes: Seq<Node<E>>, o: Seq<usize>)
    requires
        nodes.len() <= usize::MAX,
        forall|v: int, w: int| !#[trigger] depends_on(nodes, v, w),
        is_execution_order(nodes, o),
        runs_in_ready_order(nodes, o),
    ensures
        o == declaration_order(nodes.len()),
{
    lemma_declaration_order_is_ready(nodes);
    lemma_ready_order_unique(nodes, o, declaration_order(nodes.len()));
}

proof fn lemma_last_dependency_skip<E>(nodes: Seq<Node<E>>, order: Seq<usize>, x: int, m: int, n: int)
    requires
        0 <= m <= n,
        forall|y: int| m <= y < n ==> !depends_on(nodes, x, #[trigger] order[y] as int),
    ensures
        last_dependency_position(nodes, order, x, n) == last_dependency_position(nodes, order, x, m),
    decreases n - m,
{
    if n > m {
        lemma_last_dependency_skip(nodes, order, x, m, n - 1);
    }
}

proof fn lemma_last_dependency_same_prefix<E>(nodes: Seq<Node<E>>, a: Seq<usize>, b: Seq<usize>, x: int, m: int)
    requires
        0 <= m <= a.len(),
        m <= b.len(),
        a.subrange(0, m) == b.subrange(0, m),
    ensures
        last_dependency_position(nodes, a, x, m) == last_dependency_position(nodes, b, x, m),
    decreases m,
{
    if m > 0 {
        assert(a[m - 1] == a.subrange(0, m)[m - 1]);
        assert(b[m - 1] == b.subrange(0, m)[m - 1]);
        assert(a.subrange(0, m - 1) =~= a.subrange(0, m).subrange(0, m - 1));
        assert(b.subrange(0, m - 1) =~= b.subrange(0, m).subrange(0, m - 1));
        lemma_last_dependency_same_prefix(nodes, a, b, x, m - 1);
    }
}

/// Two execution orders that agree on their first `m` nodes agree on when
/// the node at position `m` of the first becomes ready.
proof fn lemma_ready_agree<E>(nodes: Seq<Node<E>>, oa: Seq<usize>, ob: Seq<usize>, m: int)
    requires
        nodes.len() <= usize::MAX,
        is_execution_order(nodes, oa),
        is_execution_order(nodes, ob),
        0 <= m < oa.len(),
        oa.subrange(0, m) == ob.subrange(0, m),
    ensures
        ready_position(nodes, oa, oa[m] as int) == ready_position(nodes, ob, oa[m] as int),
{
    let n = oa.len() as int;
    let x = oa[m] as int;
    lemma_distinct_below(oa, n);
    lemma_distinct_below(ob, n);
    assert forall|y: int| m <= y < n implies !depends_on(nodes, x, #[trigger] oa[y] as int) by {}
    lemma_last_dependency_skip(nodes, oa, x, m, n);
    assert forall|y: int| m <= y < n implies !depends_on(nodes, x, #[trigger] ob[y] as int) by {
        if depends_on(nodes, x, ob[y] as int) {
            let w = ob[y];
            assert(oa.contains(w));
            let p = choose|p: int| 0 <= p < n && oa[p] == w;
            assert(depends_on(nodes, oa[m] as int, oa[p] as int));
            assert(p < m);
            assert(ob[p] == ob.subrange(0, m)[p]);
            assert(oa[p] == oa.subrange(0, m)[p]);
            assert(ob[p] == w);
        }
    }
    lemma_last_dependency_skip(nodes, ob, x, m, n);
    lemma_last_dependency_same_prefix(nodes, oa, ob, x, m);
}

proof fn lemma_ready_orders_agree_up_to<E>(nodes: Seq<Node<E>>, o1: Seq<usize>, o2: Seq<usize>, i: int)
    requires
        nodes.len() <= usize::MAX,
        is_execution_order(nodes, o1) && runs_in_ready_order(nodes, o1),
        is_execution_order(nodes, o2) && runs_in_ready_order(nodes, o2),
        0 <= i <= o1.len(),
    ensures
        o1.subrange(0, i) == o2.subrange(0, i),
    decreases i,
{
    if i == 0 {
        assert(o1.subrange(0, 0) =~= o2.subrange(0, 0));
        return;
    }
    let m = i - 1;
    let n = o1.len() as int;
    lemma_ready_orders_agree_up_to(nodes, o1, o2, m);
    let x = o1[m];
    let y = o2[m];
    if x != y {
        lemma_distinct_below(o1, n);
        lemma_distinct_below(o2, n);
        assert(o1.contains(y));
        let j = choose|j: int| 0 <= j < n && o1[j] == y;
        if j < m {
            assert(o1[j] == o1.subrange(0, m)[j]);
            assert(o2[j] == o2.subrange(0, m)[j]);
        }
        assert(o2.contains(x));
        let k = choose|k: int| 0 <= k < n && o2[k] == x;
        if k < m {
            assert(o1[k] == o1.subrange(0, m)[k]);
            assert(o2[k] == o2.subrange(0, m)[k]);
        }
        assert(ready_before(nodes, o1, o1[m] as int, o1[j] as int));
        assert(ready_before(nodes, o2, o2[m] as int, o2[k] as int));
        lemma_ready_agree(nodes, o1, o2, m);
        lemma_ready_agree(nodes, o2, o1, m);
    }
    assert(o1.subrange(0, i) =~= o2.subrange(0, i)) by {
        assert forall|t: int| 0 <= t < i implies o1.subrange(0, i)[t] == o2.subrange(0, i)[t] by {
            if t < m {
                assert(o1.subrange(0, m)[t] == o2.subrange(0, m)[t]);
            }
        }
    }
}

/// At most one execution order runs the nodes in the order they become ready,
/// so that order is determined by the graph alone.
pub proof fn lemma_ready_order_unique<E>(nodes: Seq<Node<E>>, o1: Seq<usize>, o2: Seq<usize>)
    requires
        nodes.len() <= usize::MAX,
        is_execution_order(nodes, o1) && runs_in_ready_order(nodes, o1),
        is_execution_order(nodes, o2) && runs_in_ready_order(nodes, o2),
    ensures
        o1 == o2,
{
    lemma_ready_orders_agree_up_to(nodes, o1, o2, o1.len() as int);
    assert(o1 =~= o1.subrange(0, o1.len() as int));
    assert(o2 =~= o2.subrange(0, o2.len() as int));
}

} // verus!
