use vstd::prelude::*;
use vstd::set_lib::{lemma_int_range, lemma_len_subset, set_int_range};
use crate::cache::{cache_matches, config_equal, str_eq_full, strings_view, BuildCache};
use crate::paths::{classify, is_source, is_source_path, kind_of, relative_key};
use crate::target::FileMeta;

verus! {

/// Every file the build knows of. Nodes are addressed by their index in
/// `nodes`; edges are held as indices on both of their ends.
#[derive(Debug)]
pub struct BuildGraph {
    pub nodes: Vec<FileMeta>,
}

/// Every edge index names a node.
pub open spec fn edges_in_range(nodes: Seq<FileMeta>) -> bool {
    &&& forall|i: int, k: int|
        0 <= i < nodes.len() && 0 <= k < nodes[i].deps@.len() ==> #[trigger] nodes[i].deps@[k]
            < nodes.len()
    &&& forall|i: int, k: int|
        0 <= i < nodes.len() && 0 <= k < nodes[i].dependents@.len()
            ==> #[trigger] nodes[i].dependents@[k] < nodes.len()
}

/// `y` is a dependent of `x` exactly when `x` is a dependency of `y`.
pub open spec fn edges_symmetric(nodes: Seq<FileMeta>) -> bool {
    forall|x: int, y: int|
        0 <= x < nodes.len() && 0 <= y < nodes.len() ==> (
        #[trigger] nodes[x].dependents@.contains(y as usize) <==> #[trigger] nodes[y].deps@.contains(
            x as usize,
        ))
}

/// No two nodes share a path.
pub open spec fn paths_unique(nodes: Seq<FileMeta>) -> bool {
    forall|i: int, j: int|
        0 <= i < nodes.len() && 0 <= j < nodes.len() && i != j ==> nodes[i].path@ != nodes[j].path@
}

pub open spec fn graph_wf(nodes: Seq<FileMeta>) -> bool {
    edges_in_range(nodes) && edges_symmetric(nodes) && paths_unique(nodes)
}

/// Two node sequences that differ at most in their dirty flags.
pub open spec fn same_shape(a: Seq<FileMeta>, b: Seq<FileMeta>) -> bool {
    &&& a.len() == b.len()
    &&& forall|i: int|
        #![trigger b[i]]
        #![trigger a[i]]
        0 <= i < a.len() ==> {
            &&& b[i].path == a[i].path
            &&& b[i].hash == a[i].hash
            &&& b[i].last_modified == a[i].last_modified
            &&& b[i].deps == a[i].deps
            &&& b[i].dependents == a[i].dependents
        }
}

/// The reverse edges of every node.
pub open spec fn dependents_of(nodes: Seq<FileMeta>) -> Seq<Seq<usize>> {
    nodes.map_values(|m: FileMeta| m.dependents@)
}

/// The dirty flag of every node.
pub open spec fn dirty_of(nodes: Seq<FileMeta>) -> Seq<bool> {
    nodes.map_values(|m: FileMeta| m.dirty)
}

/// `w` is a walk that starts at a seed and follows reverse edges.
pub open spec fn is_walk(adj: Seq<Seq<usize>>, seed: Seq<bool>, w: Seq<int>) -> bool {
    &&& w.len() > 0
    &&& forall|t: int| 0 <= t < w.len() ==> 0 <= #[trigger] w[t] < seed.len()
    &&& seed[w[0]]
    &&& forall|t: int|
        0 <= t < w.len() - 1 ==> 0 <= #[trigger] w[t] < adj.len() && adj[w[t]].contains(
            w[t + 1] as usize,
        )
}

/// Node `i` is a seed or lies downstream of one along reverse edges.
pub open spec fn downstream(adj: Seq<Seq<usize>>, seed: Seq<bool>, i: int) -> bool {
    exists|w: Seq<int>| #[trigger] is_walk(adj, seed, w) && w.last() == i
}

/// The nodes that must be rebuilt before propagation: those without a cache
/// entry of the same hash under their relative key.
pub open spec fn stale_seed(
    nodes: Seq<FileMeta>,
    cache: Map<Seq<char>, (Seq<char>, i64)>,
    root: Seq<char>,
) -> Seq<bool> {
    Seq::new(
        nodes.len(),
        |i: int| !cache_matches(cache, nodes[i].path@, nodes[i].hash@, root),
    )
}

/// A set that holds the seeds and every dependent of its members holds
/// every node downstream of the seeds.
proof fn lemma_closed_holds_downstream(
    adj: Seq<Seq<usize>>,
    seed: Seq<bool>,
    s: Set<int>,
    w: Seq<int>,
)
    requires
        seed.len() == adj.len(),
        forall|j: int| 0 <= j < seed.len() && seed[j] ==> s.contains(j),
        forall|p: int, t: int|
            0 <= p < adj.len() && s.contains(p) && 0 <= t < adj[p].len() ==> s.contains(
                #[trigger] adj[p][t] as int,
            ),
        is_walk(adj, seed, w),
        forall|t: int| 0 <= t < w.len() ==> 0 <= #[trigger] w[t] < adj.len(),
        adj.len() <= usize::MAX,
    ensures
        s.contains(w.last()),
    decreases w.len(),
{
    assert(0 <= w[w.len() - 1] < adj.len());
    if w.len() == 1 {
        assert(w.last() == w[0]);
    } else {
        let v = w.drop_last();
        assert forall|t: int| 0 <= t < v.len() - 1 implies 0 <= #[trigger] v[t] < adj.len()
            && adj[v[t]].contains(v[t + 1] as usize) by {
            assert(w[t] == v[t] && w[t + 1] == v[t + 1]);
        }
        assert forall|t: int| 0 <= t < v.len() implies 0 <= #[trigger] v[t] < adj.len() by {
            assert(w[t] == v[t]);
        }
        lemma_closed_holds_downstream(adj, seed, s, v);
        let j = w[w.len() - 2];
        assert(v.last() == j);
        assert(adj[j].contains(w.last() as usize));
        let t = choose|t: int| 0 <= t < adj[j].len() && adj[j][t] == w.last() as usize;
        assert(s.contains(adj[j][t] as int));
        assert(adj[j][t] as int == w.last());
    }
}

/// A walk to `j` followed by the edge from `j` to `i` is a walk to `i`.
proof fn lemma_walk_extend(adj: Seq<Seq<usize>>, seed: Seq<bool>, w: Seq<int>, i: int)
    requires
        is_walk(adj, seed, w),
        0 <= w.last() < adj.len(),
        0 <= i < seed.len(),
        adj[w.last()].contains(i as usize),
    ensures
        is_walk(adj, seed, w.push(i)),
        w.push(i).last() == i,
{
    let v = w.push(i);
    assert forall|t: int| 0 <= t < v.len() implies 0 <= #[trigger] v[t] < seed.len() by {
        if t < w.len() {
            assert(v[t] == w[t]);
        }
    }
    assert forall|t: int| 0 <= t < v.len() - 1 implies 0 <= #[trigger] v[t] < adj.len()
        && adj[v[t]].contains(v[t + 1] as usize) by {
        if t < w.len() - 1 {
            assert(v[t] == w[t] && v[t + 1] == w[t + 1]);
        } else {
            assert(v[t] == w.last());
        }
    }
}

proof fn lemma_push_contains<T>(s: Seq<T>, e: T, a: T)
    ensures
        s.push(e).contains(a) <==> (s.contains(a) || a == e),
{
    if s.contains(a) {
        let t = choose|t: int| 0 <= t < s.len() && s[t] == a;
        assert(s.push(e)[t] == a);
    }
    if a == e {
        assert(s.push(e)[s.len() as int] == a);
    }
    if s.push(e).contains(a) {
        let t = choose|t: int| 0 <= t < s.push(e).len() && s.push(e)[t] == a;
        if t < s.len() {
            assert(s[t] == a);
        }
    }
}

/// `new` is `old` followed by any number of copies of `x`.
pub open spec fn extended_by(old: Seq<usize>, new: Seq<usize>, x: usize) -> bool {
    &&& new.len() >= old.len()
    &&& new.subrange(0, old.len() as int) == old
    &&& forall|t: int| old.len() <= t < new.len() ==> #[trigger] new[t] == x
}

proof fn lemma_extended_push(old: Seq<usize>, new: Seq<usize>, x: usize)
    requires
        extended_by(old, new, x),
    ensures
        extended_by(old, new.push(x), x),
{
    assert(new.push(x).subrange(0, old.len() as int) =~= new.subrange(0, old.len() as int));
}

impl BuildGraph {
    pub open spec fn wf(&self) -> bool {
        graph_wf(self.nodes@)
    }

    /// An empty graph.
    pub fn new() -> (r: BuildGraph)
        ensures
            r.wf(),
            r.nodes@.len() == 0,
    {
        BuildGraph { nodes: Vec::new() }
    }

    /// Index of the node for `path`, if there is one.
    pub fn find(&self, path: &str) -> (r: Option<usize>)
        ensures
            match r {
                Some(i) => i < self.nodes@.len() && self.nodes@[i as int].path@ == path@,
                None => forall|i: int| 0 <= i < self.nodes@.len() ==> self.nodes@[i].path@ != path@,
            },
    {
        let mut i: usize = 0;
        while i < self.nodes.len()
            invariant
                i <= self.nodes@.len(),
                forall|j: int| 0 <= j < i ==> self.nodes@[j].path@ != path@,
            decreases self.nodes@.len() - i,
        {
            if str_eq_full(self.nodes[i].path.as_str(), path) {
                return Some(i);
            }
            i = i + 1;
        }
        None
    }

    /// The node for `path`, added as a new dirty record without edges when
    /// the graph has none yet. Existing nodes are not touched.
    pub fn insert_file(&mut self, path: String, last_modified: i64) -> (r: usize)
        requires
            old(self).wf(),
        ensures
            final(self).wf(),
            r < final(self).nodes@.len(),
            final(self).nodes@[r as int].path@ == path@,
            (exists|i: int| 0 <= i < old(self).nodes@.len() && old(self).nodes@[i].path@ == path@)
                ==> final(self).nodes@ == old(self).nodes@,
            (forall|i: int| 0 <= i < old(self).nodes@.len() ==> old(self).nodes@[i].path@ != path@)
                ==> {
                &&& r == old(self).nodes@.len()
                &&& final(self).nodes@.len() == old(self).nodes@.len() + 1
                &&& final(self).nodes@.subrange(0, r as int) == old(self).nodes@
                &&& final(self).nodes@[r as int].hash@.len() == 0
                &&& final(self).nodes@[r as int].last_modified == last_modified
                &&& final(self).nodes@[r as int].deps@.len() == 0
                &&& final(self).nodes@[r as int].dependents@.len() == 0
                &&& final(self).nodes@[r as int].dirty
            },
    {
        match self.find(path.as_str()) {
            Some(i) => i,
            None => {
                let ghost old_nodes = self.nodes@;
                let r = self.nodes.len();
                self.nodes.push(FileMeta::new(path, last_modified));
                proof {
                    let s = self.nodes@;
                    assert(s.subrange(0, r as int) =~= old_nodes);
                    assert forall|x: int, y: int| 0 <= x < s.len() && 0 <= y < s.len() implies (
                    #[trigger] s[x].dependents@.contains(y as usize) <==> #[trigger] s[y].deps@.contains(
                        x as usize,
                    )) by {
                        if x < r && y < r {
                        } else if x == r {
                            if s[y].deps@.contains(x as usize) {
                                let t = choose|t: int| 0 <= t < s[y].deps@.len() && s[y].deps@[t] == x as usize;
                                assert(old_nodes[y].deps@[t] < r);
                            }
                        } else {
                            if s[x].dependents@.contains(y as usize) {
                                let t = choose|t: int|
                                    0 <= t < s[x].dependents@.len() && s[x].dependents@[t] == y as usize;
                                assert(old_nodes[x].dependents@[t] < r);
                            }
                        }
                    }
                }
                r
            },
        }
    }

    /// Adds the edge "`from` includes `to`" on both of its ends.
    pub fn add_edge(&mut self, from: usize, to: usize)
        requires
            old(self).wf(),
            from < old(self).nodes@.len(),
            to < old(self).nodes@.len(),
        ensures
            final(self).wf(),
            final(self).nodes@.len() == old(self).nodes@.len(),
            final(self).nodes@[from as int].deps@ == old(self).nodes@[from as int].deps@.push(to),
            final(self).nodes@[to as int].dependents@ == old(
                self,
            ).nodes@[to as int].dependents@.push(from),
            forall|i: int|
                0 <= i < final(self).nodes@.len() ==> {
                    &&& #[trigger] final(self).nodes@[i].path == old(self).nodes@[i].path
                    &&& final(self).nodes@[i].hash == old(self).nodes@[i].hash
                    &&& final(self).nodes@[i].last_modified == old(self).nodes@[i].last_modified
                    &&& final(self).nodes@[i].dirty == old(self).nodes@[i].dirty
                    &&& i != from ==> final(self).nodes@[i].deps == old(self).nodes@[i].deps
                    &&& i != to ==> final(self).nodes@[i].dependents == old(
                        self,
                    ).nodes@[i].dependents
                },
    {
        let ghost o = self.nodes@;
        let _n = self.nodes.len();
        self.nodes[from].deps.push(to);
        self.nodes[to].dependents.push(from);
        proof {
            let s = self.nodes@;
            assert(s[to as int].dependents@ == o[to as int].dependents@.push(from));
            assert(s[from as int].deps@ == o[from as int].deps@.push(to));
            assert forall|i: int, k: int|
                0 <= i < s.len() && 0 <= k < s[i].deps@.len() implies #[trigger] s[i].deps@[k]
                < s.len() by {
                if i == from && k == o[i].deps@.len() {
                } else {
                    assert(s[i].deps@[k] == o[i].deps@[k]);
                }
            }
            assert forall|i: int, k: int|
                0 <= i < s.len() && 0 <= k < s[i].dependents@.len()
                    implies #[trigger] s[i].dependents@[k] < s.len() by {
                if i == to && k == o[i].dependents@.len() {
                } else {
                    assert(s[i].dependents@[k] == o[i].dependents@[k]);
                }
            }
            assert forall|x: int, y: int| 0 <= x < s.len() && 0 <= y < s.len() implies (
            #[trigger] s[x].dependents@.contains(y as usize) <==> #[trigger] s[y].deps@.contains(
                x as usize,
            )) by {
                if x == to as int {
                    lemma_push_contains(o[x].dependents@, from, y as usize);
                } else {
                    assert(s[x].dependents == o[x].dependents);
                }
                if y == from as int {
                    lemma_push_contains(o[y].deps@, to, x as usize);
                } else {
                    assert(s[y].deps == o[y].deps);
                }
                assert(s[x].dependents@.contains(y as usize) <==> (o[x].dependents@.contains(
                    y as usize,
                ) || (x == to && y == from)));
                assert(s[y].deps@.contains(x as usize) <==> (o[y].deps@.contains(x as usize) || (
                x == to && y == from)));
            }
        }
    }

    /// Marks every node dirty.
    pub fn invalidate_all(&mut self)
        requires
            old(self).wf(),
        ensures
            final(self).wf(),
            same_shape(old(self).nodes@, final(self).nodes@),
            forall|i: int| 0 <= i < final(self).nodes@.len() ==> #[trigger] final(self).nodes@[i].dirty,
    {
        let ghost o = self.nodes@;
        let n = self.nodes.len();
        for i in 0..n
            invariant
                n == self.nodes@.len(),
                same_shape(o, self.nodes@),
                forall|j: int| 0 <= j < i ==> #[trigger] self.nodes@[j].dirty,
        {
            self.nodes[i].dirty = true;
        }
        proof {
            lemma_same_shape_wf(o, self.nodes@);
        }
    }

    /// The nodes downstream of `seeds`, found breadth-first along the
    /// reverse edges. A seen-set keeps each node from being expanded twice,
    /// so cycles end the walk.
    pub fn reach_closure(&self, seeds: &Vec<bool>) -> (mark: Vec<bool>)
        requires
            self.wf(),
            seeds@.len() == self.nodes@.len(),
        ensures
            mark@.len() == self.nodes@.len(),
            forall|i: int|
                0 <= i < self.nodes@.len() ==> #[trigger] mark@[i] == downstream(
                    dependents_of(self.nodes@),
                    seeds@,
                    i,
                ),
    {
        let ghost o = self.nodes@;
        let ghost adj = dependents_of(o);
        let ghost seed = seeds@;
        let n = self.nodes.len();
        let mut mark: Vec<bool> = Vec::new();
        let mut queue: Vec<usize> = Vec::new();
        let ghost mut marked: Set<int> = Set::empty();
        for i in 0..n
            invariant
                n == self.nodes@.len(),
                self.nodes@ == o,
                adj == dependents_of(o),
                seed == seeds@,
                seed.len() == n,
                mark@.len() == i,
                forall|j: int| 0 <= j < i ==> mark@[j] == seed[j],
                marked.finite(),
                queue@.len() == marked.len(),
                forall|j: int| 0 <= j < n ==> (marked.contains(j) <==> (j < i && seed[j])),
                forall|q: int| 0 <= q < queue@.len() ==> #[trigger] queue@[q] < n && marked.contains(queue@[q] as int),
                forall|j: int| #[trigger] marked.contains(j) ==> 0 <= j < n && exists|q: int| 0 <= q < queue@.len() && queue@[q] == j,
        {
            mark.push(seeds[i]);
            if seeds[i] {
                let ghost oq = queue@;
                queue.push(i);
                proof {
                    assert(!marked.contains(i as int));
                    marked = marked.insert(i as int);
                    assert(queue@[queue@.len() - 1] == i);
                    assert forall|jj: int| #[trigger] marked.contains(jj) implies 0 <= jj < n && exists|q: int| 0 <= q < queue@.len() && queue@[q] == jj by {
                        if jj == i as int {
                            assert(queue@[oq.len() as int] == jj);
                        } else {
                            let q = choose|q: int| 0 <= q < oq.len() && oq[q] == jj;
                            assert(queue@[q] == jj);
                        }
                    }
                }
            }
        }
        let mut seen: Vec<bool> = Vec::new();
        for i in 0..n
            invariant
                seen@.len() == i,
                forall|j: int| 0 <= j < i ==> !seen@[j],
        {
            seen.push(false);
        }
        let mut head: usize = 0;
        proof {
            lemma_int_range(0, n as int);
            assert(marked.subset_of(set_int_range(0, n as int)));
            lemma_len_subset(marked, set_int_range(0, n as int));
            assert forall|j: int| 0 <= j < n && #[trigger] marked.contains(j) implies downstream(adj, seed, j) by {
                let w = seq![j];
                assert(is_walk(adj, seed, w) && w.last() == j);
            }
        }
        while head < queue.len()
            invariant
                n == self.nodes@.len(),
                self.nodes@ == o,
                mark@.len() == n,
                adj == dependents_of(o),
                seed == seeds@,
                adj.len() == n,
                seed.len() == n,
                graph_wf(o),
                seen@.len() == n,
                marked.finite(),
                marked.len() <= n,
                head <= queue@.len(),
                queue@.len() == marked.len(),
                forall|j: int| 0 <= j < n ==> (marked.contains(j) <==> #[trigger] mark@[j]),
                forall|j: int| 0 <= j < n && seed[j] ==> marked.contains(j),
                forall|q: int| 0 <= q < queue@.len() ==> #[trigger] queue@[q] < n && marked.contains(queue@[q] as int),
                forall|j: int| #[trigger] marked.contains(j) ==> 0 <= j < n && exists|q: int| 0 <= q < queue@.len() && queue@[q] == j,
                forall|j: int| 0 <= j < n && #[trigger] marked.contains(j) ==> downstream(adj, seed, j),
                forall|q: int, t: int|
                    0 <= q < head && 0 <= t < adj[queue@[q] as int].len() ==> marked.contains(
                        #[trigger] adj[queue@[q] as int][t] as int,
                    ),
                forall|j: int| 0 <= j < n && #[trigger] seen@[j] ==> exists|q: int| 0 <= q < head && queue@[q] == j,
            decreases n - head,
        {
            let p = queue[head];
            let ghost ph = head as int;
            if !seen[p] {
                let ghost old_seen = seen@;
                seen.set(p, true);
                proof {
                    assert forall|jj: int| 0 <= jj < n && #[trigger] seen@[jj] implies exists|q: int| 0 <= q <= ph && queue@[q] == jj by {
                        if jj == p as int {
                            assert(queue@[ph] == jj);
                        } else {
                            assert(old_seen[jj]);
                        }
                    }
                }
                assert(self.nodes@[p as int].dependents == o[p as int].dependents);
                let len = self.nodes[p].dependents.len();
                let mut j: usize = 0;
                while j < len
                    invariant
                        n == self.nodes@.len(),
                        self.nodes@ == o,
                mark@.len() == n,
                        adj == dependents_of(o),
                        seed == seeds@,
                        adj.len() == n,
                        seed.len() == n,
                        graph_wf(o),
                        p < n,
                        queue@[ph] == p,
                        0 <= ph < queue@.len(),
                        head as int == ph,
                        len == adj[p as int].len(),
                        j <= len,
                        seen@.len() == n,
                        marked.finite(),
                        marked.len() <= n,
                        queue@.len() == marked.len(),
                        forall|jj: int| 0 <= jj < n ==> (marked.contains(jj) <==> #[trigger] mark@[jj]),
                        forall|jj: int| 0 <= jj < n && seed[jj] ==> marked.contains(jj),
                        forall|q: int| 0 <= q < queue@.len() ==> #[trigger] queue@[q] < n && marked.contains(queue@[q] as int),
                        forall|jj: int| #[trigger] marked.contains(jj) ==> 0 <= jj < n && exists|q: int| 0 <= q < queue@.len() && queue@[q] == jj,
                        forall|jj: int| 0 <= jj < n && #[trigger] marked.contains(jj) ==> downstream(adj, seed, jj),
                        forall|q: int, t: int|
                            0 <= q < ph && 0 <= t < adj[queue@[q] as int].len() ==> marked.contains(
                                #[trigger] adj[queue@[q] as int][t] as int,
                            ),
                        forall|t: int| 0 <= t < j ==> marked.contains(#[trigger] adj[p as int][t] as int),
                        forall|jj: int| 0 <= jj < n && #[trigger] seen@[jj] ==> exists|q: int| 0 <= q <= ph && queue@[q] == jj,
                    decreases len - j,
                {
                    assert(self.nodes@[p as int].dependents == o[p as int].dependents);
                    let d = self.nodes[p].dependents[j];
                    proof {
                        assert(adj[p as int][j as int] == d);
                        assert(o[p as int].dependents@[j as int] == d);
                    }
                    if !mark[d] {
                        let ghost oq = queue@;
                        mark.set(d, true);
                        queue.push(d);
                        proof {
                            assert(marked.contains(p as int));
                            let w = choose|w: Seq<int>| #[trigger] is_walk(adj, seed, w) && w.last() == p as int;
                            assert(adj[p as int].contains(d));
                            lemma_walk_extend(adj, seed, w, d as int);
                            assert(!marked.contains(d as int));
                            marked = marked.insert(d as int);
                            assert(queue@[queue@.len() - 1] == d);
                            assert forall|jj: int| #[trigger] marked.contains(jj) implies 0 <= jj < n && exists|q: int| 0 <= q < queue@.len() && queue@[q] == jj by {
                                if jj == d as int {
                                    assert(queue@[oq.len() as int] == jj);
                                } else {
                                    let q = choose|q: int| 0 <= q < oq.len() && oq[q] == jj;
                                    assert(queue@[q] == jj);
                                }
                            }
                            assert forall|jj: int| 0 <= jj < n && #[trigger] seen@[jj] implies exists|q: int| 0 <= q <= ph && queue@[q] == jj by {
                                let q = choose|q: int| 0 <= q <= ph && oq[q] == jj;
                                assert(queue@[q] == jj);
                            }
                            lemma_int_range(0, n as int);
                            assert(marked.subset_of(set_int_range(0, n as int)));
                            lemma_len_subset(marked, set_int_range(0, n as int));
                        }
                    }
                    j = j + 1;
                }
            } else {
                proof {
                    let q0 = choose|q: int| 0 <= q < head && queue@[q] == p;
                    assert forall|t: int| 0 <= t < adj[p as int].len() implies marked.contains(
                        #[trigger] adj[p as int][t] as int) by {
                        assert(adj[queue@[q0] as int][t] == adj[p as int][t]);
                    }
                }
            }
            head = head + 1;
        }
        proof {
            assert forall|i: int| 0 <= i < n implies #[trigger] mark@[i] == downstream(adj, seed, i) by {
                if downstream(adj, seed, i) {
                    let w = choose|w: Seq<int>| #[trigger] is_walk(adj, seed, w) && w.last() == i;
                    assert forall|t: int| 0 <= t < w.len() implies 0 <= #[trigger] w[t] < adj.len() by {
                        if t < w.len() - 1 {
                        } else if t > 0 {
                            let pp = w[t - 1];
                            assert(adj[pp].contains(w[t] as usize));
                            let u = choose|u: int| 0 <= u < adj[pp].len() && adj[pp][u] == w[t] as usize;
                            assert(o[pp].dependents@[u] < n);
                        }
                    }
                    assert forall|pp: int, t: int|
                        0 <= pp < adj.len() && marked.contains(pp) && 0 <= t < adj[pp].len()
                            implies marked.contains(#[trigger] adj[pp][t] as int) by {
                        let q = choose|q: int| 0 <= q < queue@.len() && queue@[q] == pp;
                        assert(adj[queue@[q] as int][t] == adj[pp][t]);
                    }
                    lemma_closed_holds_downstream(adj, seed, marked, w);
                }
            }
        }
        mark
    }

    /// The dirty flag of every node.
    pub fn dirty_flags(&self) -> (r: Vec<bool>)
        ensures
            r@ == dirty_of(self.nodes@),
    {
        let mut r: Vec<bool> = Vec::new();
        for i in 0..self.nodes.len()
            invariant
                r@.len() == i,
                forall|j: int| 0 <= j < i ==> r@[j] == self.nodes@[j].dirty,
        {
            r.push(self.nodes[i].dirty);
        }
        assert(r@ =~= dirty_of(self.nodes@));
        r
    }

    /// Sets the dirty flag of every node from `flags`.
    fn set_dirty_flags(&mut self, flags: &Vec<bool>)
        requires
            old(self).wf(),
            flags@.len() == old(self).nodes@.len(),
        ensures
            final(self).wf(),
            same_shape(old(self).nodes@, final(self).nodes@),
            dirty_of(final(self).nodes@) == flags@,
    {
        let ghost o = self.nodes@;
        let n = self.nodes.len();
        for i in 0..n
            invariant
                n == self.nodes@.len(),
                flags@.len() == n,
                same_shape(o, self.nodes@),
                forall|j: int| 0 <= j < i ==> #[trigger] self.nodes@[j].dirty == flags@[j],
        {
            self.nodes[i].dirty = flags[i];
        }
        proof {
            lemma_same_shape_wf(o, self.nodes@);
        }
        assert(dirty_of(self.nodes@) =~= flags@);
    }

    /// Marks dirty every node downstream of a dirty node along the reverse
    /// edges; edges, paths and hashes are left as they are.
    pub fn propagate(&mut self)
        requires
            old(self).wf(),
        ensures
            final(self).wf(),
            same_shape(old(self).nodes@, final(self).nodes@),
            forall|i: int|
                0 <= i < final(self).nodes@.len() ==> #[trigger] final(self).nodes@[i].dirty
                    == downstream(dependents_of(old(self).nodes@), dirty_of(old(self).nodes@), i),
    {
        let seeds = self.dirty_flags();
        let mark = self.reach_closure(&seeds);
        self.set_dirty_flags(&mark);
        proof {
            assert forall|i: int| 0 <= i < self.nodes@.len() implies #[trigger] self.nodes@[i].dirty == mark@[i] by {
                assert(dirty_of(self.nodes@)[i] == self.nodes@[i].dirty);
            }
        }
    }

    /// Recomputes every dirty flag from the cache and propagates: a node ends
    /// dirty exactly when it lies downstream of a node whose hash the cache
    /// does not hold under its relative key.
    pub fn update_dirty(&mut self, cache: &BuildCache, root: &str)
        requires
            old(self).wf(),
            cache.wf(),
        ensures
            final(self).wf(),
            same_shape(old(self).nodes@, final(self).nodes@),
            forall|i: int|
                0 <= i < final(self).nodes@.len() ==> #[trigger] final(self).nodes@[i].dirty
                    == downstream(
                    dependents_of(old(self).nodes@),
                    stale_seed(old(self).nodes@, cache@, root@),
                    i,
                ),
    {
        let ghost o = self.nodes@;
        let n = self.nodes.len();
        let mut seeds: Vec<bool> = Vec::new();
        for i in 0..n
            invariant
                n == self.nodes@.len(),
                self.nodes@ == o,
                cache.wf(),
                seeds@.len() == i,
                forall|j: int| 0 <= j < i ==> seeds@[j] == stale_seed(o, cache@, root@)[j],
        {
            let stale = !cache.file_matches(&self.nodes[i], root);
            seeds.push(stale);
        }
        assert(seeds@ =~= stale_seed(o, cache@, root@));
        let mark = self.reach_closure(&seeds);
        self.set_dirty_flags(&mark);
        proof {
            assert forall|i: int| 0 <= i < n implies #[trigger] self.nodes@[i].dirty == mark@[i] by {
                assert(dirty_of(self.nodes@)[i] == self.nodes@[i].dirty);
            }
        }
    }

    /// Decides what must be rebuilt: when the stored compiler or flags differ
    /// from these every node is dirty; otherwise as `update_dirty`.
    pub fn mark_stale(&mut self, cache: &BuildCache, root: &str, compiler: &str, flags: &Vec<String>)
        requires
            old(self).wf(),
            cache.wf(),
        ensures
            final(self).wf(),
            same_shape(old(self).nodes@, final(self).nodes@),
            !config_equal(cache.compiler, cache.flags@, compiler@, flags@) ==> forall|i: int|
                0 <= i < final(self).nodes@.len() ==> #[trigger] final(self).nodes@[i].dirty,
            config_equal(cache.compiler, cache.flags@, compiler@, flags@) ==> forall|i: int|
                0 <= i < final(self).nodes@.len() ==> #[trigger] final(self).nodes@[i].dirty
                    == downstream(
                    dependents_of(old(self).nodes@),
                    stale_seed(old(self).nodes@, cache@, root@),
                    i,
                ),
    {
        if !cache.config_matches(compiler, flags) {
            self.invalidate_all();
        } else {
            self.update_dirty(cache, root);
        }
    }
}

/// `u` is a dependency of `v` that lies inside the universe `univ`.
pub open spec fn univ_dep(nodes: Seq<FileMeta>, univ: Seq<bool>, v: int, u: int) -> bool {
    0 <= u < nodes.len() && univ[u] && nodes[v].deps@.contains(u as usize)
}

/// `u` stands among the first `k` entries of `order`.
pub open spec fn placed_before(order: Seq<usize>, k: int, u: int) -> bool {
    exists|q: int| 0 <= q < k && #[trigger] order[q] as int == u
}

/// What Kahn's algorithm yields over the universe `univ`: distinct members
/// of the universe; each after all of its dependencies inside the universe;
/// and every member whose dependencies inside the universe are all placed
/// is placed too. Members on or behind a dependency cycle are left out.
pub open spec fn kahn_order_ok(nodes: Seq<FileMeta>, univ: Seq<bool>, order: Seq<usize>) -> bool {
    &&& forall|p: int| 0 <= p < order.len() ==> #[trigger] order[p] < nodes.len() && univ[order[p] as int]
    &&& order.no_duplicates()
    &&& forall|p: int, u: int|
        0 <= p < order.len() && #[trigger] univ_dep(nodes, univ, order[p] as int, u) ==> placed_before(order, p, u)
    &&& forall|v: int|
        0 <= v < nodes.len() && univ[v] && (forall|u: int| #[trigger] univ_dep(nodes, univ, v, u) ==> placed_before(order, order.len() as int, u))
            ==> placed_before(order, order.len() as int, v)
    &&& starts_with_ready(nodes, univ, order)
}

/// Node `v` of the universe has no dependency inside the universe.
pub open spec fn ready_at_start(nodes: Seq<FileMeta>, univ: Seq<bool>, v: int) -> bool {
    0 <= v < nodes.len() && univ[v] && forall|u: int| !#[trigger] univ_dep(nodes, univ, v, u)
}

/// The first `m` entries of `order` are exactly its nodes that are ready
/// from the start, by increasing index.
pub open spec fn ready_prefix(nodes: Seq<FileMeta>, univ: Seq<bool>, order: Seq<usize>, m: int) -> bool {
    &&& 0 <= m <= order.len()
    &&& forall|p: int| 0 <= p < m ==> ready_at_start(nodes, univ, #[trigger] order[p] as int)
    &&& forall|p: int| m <= p < order.len() ==> !ready_at_start(nodes, univ, #[trigger] order[p] as int)
    &&& forall|p: int, q: int| 0 <= p < q < m ==> #[trigger] order[p] < #[trigger] order[q]
}

/// What the queue of `kahn_order` keeps of its start: its first `m0`
/// entries are `q0` (the nodes ready from the start, by increasing index),
/// no later entry is ready from the start, and every such node is queued.
#[verifier::opaque]
pub open spec fn fifo_start_inv(
    nodes: Seq<FileMeta>,
    univ: Seq<bool>,
    queue: Seq<usize>,
    queued: Seq<bool>,
    q0: Seq<usize>,
    m0: int,
) -> bool {
    &&& 0 <= m0 <= queue.len()
    &&& queue.subrange(0, m0) == q0
    &&& forall|p: int| 0 <= p < m0 ==> ready_at_start(nodes, univ, #[trigger] q0[p] as int)
    &&& forall|p: int, q: int| 0 <= p < q < m0 ==> #[trigger] q0[p] < #[trigger] q0[q]
    &&& forall|p: int| m0 <= p < queue.len() ==> !ready_at_start(nodes, univ, #[trigger] queue[p] as int)
    &&& forall|v: int| #[trigger] ready_at_start(nodes, univ, v) ==> queued[v]
}

proof fn lemma_fifo_start_push(
    nodes: Seq<FileMeta>,
    univ: Seq<bool>,
    queue: Seq<usize>,
    queued: Seq<bool>,
    q0: Seq<usize>,
    m0: int,
    d: usize,
)
    requires
        fifo_start_inv(nodes, univ, queue, queued, q0, m0),
        0 <= d < queued.len(),
        queued.len() == nodes.len(),
        !queued[d as int],
    ensures
        fifo_start_inv(nodes, univ, queue.push(d), queued.update(d as int, true), q0, m0),
{
    reveal(fifo_start_inv);
    let nq = queue.push(d);
    let nu = queued.update(d as int, true);
    assert(nq.subrange(0, m0) =~= queue.subrange(0, m0));
    assert(!ready_at_start(nodes, univ, d as int));
    assert forall|v: int| #[trigger] ready_at_start(nodes, univ, v) implies nu[v] by {
        if v != d as int {
            assert(queued[v]);
        }
    }
    assert forall|p: int| m0 <= p < nq.len() implies !ready_at_start(nodes, univ, #[trigger] nq[p] as int) by {
        if p < queue.len() {
            assert(nq[p] == queue[p]);
        }
    }
}

/// The tie-break of the order: it opens with the nodes that are ready from
/// the start, lowest index first.
pub open spec fn starts_with_ready(nodes: Seq<FileMeta>, univ: Seq<bool>, order: Seq<usize>) -> bool {
    exists|m: int| #[trigger] ready_prefix(nodes, univ, order, m)
}

/// The compilable sources of `order`, in the same order.
pub open spec fn sources_in(nodes: Seq<FileMeta>, order: Seq<usize>) -> Seq<usize> {
    order.filter(|i: usize| i < nodes.len() && is_source_path(nodes[i as int].path@))
}

impl BuildGraph {
    /// Whether every dependency of node `d` inside `univ` is marked in `emitted`.
    fn deps_all_emitted(&self, d: usize, univ: &Vec<bool>, emitted: &Vec<bool>) -> (r: bool)
        requires
            self.wf(),
            d < self.nodes@.len(),
            univ@.len() == self.nodes@.len(),
            emitted@.len() == self.nodes@.len(),
        ensures
            r == forall|u: int| #[trigger] univ_dep(self.nodes@, univ@, d as int, u) ==> emitted@[u],
    {
        let _n = self.nodes.len();
        let len = self.nodes[d].deps.len();
        let mut t: usize = 0;
        while t < len
            invariant
                self.wf(),
                d < self.nodes@.len(),
                univ@.len() == self.nodes@.len(),
                emitted@.len() == self.nodes@.len(),
                len == self.nodes@[d as int].deps@.len(),
                t <= len,
                forall|k: int| 0 <= k < t ==> #[trigger] univ@[self.nodes@[d as int].deps@[k] as int] ==> emitted@[self.nodes@[d as int].deps@[k] as int],
            decreases len - t,
        {
            let u = self.nodes[d].deps[t];
            proof {
                assert(u < self.nodes@.len());
            }
            if univ[u] && !emitted[u] {
                assert(univ_dep(self.nodes@, univ@, d as int, u as int));
                return false;
            }
            t = t + 1;
        }
        proof {
            assert forall|u: int| #[trigger] univ_dep(self.nodes@, univ@, d as int, u) implies emitted@[u] by {
                let k = choose|k: int| 0 <= k < len && self.nodes@[d as int].deps@[k] == u as usize;
                assert(self.nodes@[d as int].deps@[k] as int == u);
                assert(univ@[self.nodes@[d as int].deps@[k] as int]);
            }
        }
        true
    }

    /// A build order over the universe `univ` by Kahn's algorithm: a node
    /// becomes ready once all of its dependencies inside the universe are
    /// placed; ready nodes are taken first in, first out, starting with the
    /// nodes ready from the start by increasing index.
    pub fn kahn_order(&self, univ: &Vec<bool>) -> (order: Vec<usize>)
        requires
            self.wf(),
            univ@.len() == self.nodes@.len(),
        ensures
            kahn_order_ok(self.nodes@, univ@, order@),
    {
        let ghost nodes = self.nodes@;
        let n = self.nodes.len();
        let mut emitted: Vec<bool> = Vec::new();
        let mut queued: Vec<bool> = Vec::new();
        for i in 0..n
            invariant
                emitted@.len() == i,
                queued@.len() == i,
                forall|j: int| 0 <= j < i ==> !emitted@[j] && !queued@[j],
        {
            emitted.push(false);
            queued.push(false);
        }
        let mut queue: Vec<usize> = Vec::new();
        let ghost mut qset: Set<int> = Set::empty();
        for i in 0..n
            invariant
                n == nodes.len(),
                self.nodes@ == nodes,
                self.wf(),
                univ@.len() == n,
                emitted@.len() == n,
                queued@.len() == n,
                forall|j: int| 0 <= j < n ==> !emitted@[j],
                qset.finite(),
                qset.len() == queue@.len(),
                queue@.no_duplicates(),
                forall|q: int| 0 <= q < queue@.len() ==> #[trigger] queue@[q] < n && univ@[queue@[q] as int]
                    && queue@[q] < i,
                forall|p: int, q: int| 0 <= p < q < queue@.len() ==> #[trigger] queue@[p] < #[trigger] queue@[q],
                forall|j: int| 0 <= j < n ==> (#[trigger] queued@[j] <==> qset.contains(j)),
                forall|j: int| qset.contains(j) <==> placed_before(queue@, queue@.len() as int, j),
                forall|q: int, u: int| 0 <= q < queue@.len() ==> !#[trigger] univ_dep(nodes, univ@, queue@[q] as int, u),
                forall|v: int| 0 <= v < i && univ@[v] && !queued@[v] ==> exists|u: int| #[trigger] univ_dep(nodes, univ@, v, u) && !emitted@[u],
        {
            if univ[i] && self.deps_all_emitted(i, univ, &emitted) {
                let ghost oq = queue@;
                queue.push(i);
                queued.set(i, true);
                proof {
                    assert(!qset.contains(i as int));
                    qset = qset.insert(i as int);
                    assert(queue@[oq.len() as int] == i);
                    assert forall|j: int| qset.contains(j) <==> placed_before(queue@, queue@.len() as int, j) by {
                        if j == i as int {
                            assert(queue@[oq.len() as int] as int == j);
                        } else if placed_before(oq, oq.len() as int, j) {
                            let q = choose|q: int| 0 <= q < oq.len() && #[trigger] oq[q] as int == j;
                            assert(queue@[q] as int == j);
                        }
                        if placed_before(queue@, queue@.len() as int, j) && j != i as int {
                            let q = choose|q: int| 0 <= q < queue@.len() && #[trigger] queue@[q] as int == j;
                            assert(oq[q] as int == j);
                        }
                    }
                }
            }
        }
        proof {
            lemma_int_range(0, n as int);
            assert(qset.subset_of(set_int_range(0, n as int)));
            lemma_len_subset(qset, set_int_range(0, n as int));
        }
        let ghost q0 = queue@;
        let ghost m0 = queue@.len() as int;
        proof {
            assert forall|v: int| #[trigger] ready_at_start(nodes, univ@, v) implies queued@[v] by {
                if !queued@[v] {
                    let u = choose|u: int| #[trigger] univ_dep(nodes, univ@, v, u) && !emitted@[u];
                }
            }
            assert forall|p: int| 0 <= p < m0 implies ready_at_start(nodes, univ@, #[trigger] q0[p] as int) by {
                assert forall|u: int| !#[trigger] univ_dep(nodes, univ@, q0[p] as int, u) by {}
            }
            assert(queue@.subrange(0, m0) =~= q0);
            reveal(fifo_start_inv);
        }
        let mut head: usize = 0;
        while head < queue.len()
            invariant
                n == nodes.len(),
                self.nodes@ == nodes,
                self.wf(),
                univ@.len() == n,
                emitted@.len() == n,
                queued@.len() == n,
                head <= queue@.len(),
                qset.finite(),
                qset.len() == queue@.len(),
                qset.len() <= n,
                queue@.no_duplicates(),
                forall|q: int| 0 <= q < queue@.len() ==> #[trigger] queue@[q] < n && univ@[queue@[q] as int],
                forall|j: int| 0 <= j < n ==> (#[trigger] queued@[j] <==> qset.contains(j)),
                forall|j: int| qset.contains(j) <==> placed_before(queue@, queue@.len() as int, j),
                forall|j: int| 0 <= j < n ==> (#[trigger] emitted@[j] <==> placed_before(queue@, head as int, j)),
                forall|p: int, u: int|
                    0 <= p < queue@.len() && #[trigger] univ_dep(nodes, univ@, queue@[p] as int, u) ==> placed_before(queue@, p, u),
                forall|v: int| 0 <= v < n && univ@[v] && !queued@[v] ==> exists|u: int| #[trigger] univ_dep(nodes, univ@, v, u) && !emitted@[u],
                fifo_start_inv(nodes, univ@, queue@, queued@, q0, m0),
            decreases n - head,
        {
            let x = queue[head];
            let ghost oe = emitted@;
            emitted.set(x, true);
            head = head + 1;
            proof {
                assert forall|j: int| 0 <= j < n implies (#[trigger] emitted@[j] <==> placed_before(queue@, head as int, j)) by {
                    if j == x as int {
                        assert(queue@[head - 1] as int == j);
                    } else {
                        if placed_before(queue@, head as int, j) {
                            let q = choose|q: int| 0 <= q < head && #[trigger] queue@[q] as int == j;
                            assert(q != head - 1);
                            assert(placed_before(queue@, head - 1, j));
                        }
                        if oe[j] {
                            let q = choose|q: int| 0 <= q < head - 1 && #[trigger] queue@[q] as int == j;
                            assert(placed_before(queue@, head as int, j));
                        }
                    }
                }
            }
            let len = self.nodes[x].dependents.len();
            proof {
                assert forall|v: int| 0 <= v < n && univ@[v] && !queued@[v] implies (exists|u: int| #[trigger] univ_dep(nodes, univ@, v, u) && !emitted@[u])
                    || (exists|t: int| 0 <= t < len && #[trigger] nodes[x as int].dependents@[t] as int == v) by {
                    let u = choose|u: int| #[trigger] univ_dep(nodes, univ@, v, u) && !oe[u];
                    if u == x as int {
                        assert(nodes[v].deps@.contains(x as usize));
                        assert(nodes[x as int].dependents@.contains(v as usize));
                        let t = choose|t: int| 0 <= t < len && nodes[x as int].dependents@[t] == v as usize;
                        assert(nodes[x as int].dependents@[t] as int == v);
                    } else {
                        assert(!emitted@[u]);
                    }
                }
            }
            let mut j: usize = 0;
            while j < len
                invariant
                    n == nodes.len(),
                    self.nodes@ == nodes,
                    self.wf(),
                    univ@.len() == n,
                    emitted@.len() == n,
                    queued@.len() == n,
                    x < n,
                    emitted@[x as int],
                    len == nodes[x as int].dependents@.len(),
                    j <= len,
                    0 < head <= queue@.len(),
                    qset.finite(),
                    qset.len() == queue@.len(),
                    qset.len() <= n,
                    queue@.no_duplicates(),
                    forall|q: int| 0 <= q < queue@.len() ==> #[trigger] queue@[q] < n && univ@[queue@[q] as int],
                    forall|jj: int| 0 <= jj < n ==> (#[trigger] queued@[jj] <==> qset.contains(jj)),
                    forall|jj: int| qset.contains(jj) <==> placed_before(queue@, queue@.len() as int, jj),
                    forall|jj: int| 0 <= jj < n ==> (#[trigger] emitted@[jj] <==> placed_before(queue@, head as int, jj)),
                    forall|p: int, u: int|
                        0 <= p < queue@.len() && #[trigger] univ_dep(nodes, univ@, queue@[p] as int, u) ==> placed_before(queue@, p, u),
                    forall|v: int| 0 <= v < n && univ@[v] && !queued@[v] ==> (exists|u: int| #[trigger] univ_dep(nodes, univ@, v, u) && !emitted@[u])
                        || (exists|t: int| j <= t < len && #[trigger] nodes[x as int].dependents@[t] as int == v),
                    fifo_start_inv(nodes, univ@, queue@, queued@, q0, m0),
                decreases len - j,
            {
                let d = self.nodes[x].dependents[j];
                if univ[d] && !queued[d] && self.deps_all_emitted(d, univ, &emitted) {
                    let ghost oq = queue@;
                    let ghost oqu = queued@;
                    queue.push(d);
                    queued.set(d, true);
                    proof {
                        lemma_fifo_start_push(nodes, univ@, oq, oqu, q0, m0, d);
                        assert(queue@ == oq.push(d));
                        assert(queued@ == oqu.update(d as int, true));
                        assert(!qset.contains(d as int));
                        qset = qset.insert(d as int);
                        lemma_int_range(0, n as int);
                        assert(qset.subset_of(set_int_range(0, n as int)));
                        lemma_len_subset(qset, set_int_range(0, n as int));
                        assert(queue@[oq.len() as int] == d);
                        assert forall|jj: int| qset.contains(jj) <==> placed_before(queue@, queue@.len() as int, jj) by {
                            if jj == d as int {
                                assert(queue@[oq.len() as int] as int == jj);
                            } else if placed_before(oq, oq.len() as int, jj) {
                                let q = choose|q: int| 0 <= q < oq.len() && #[trigger] oq[q] as int == jj;
                                assert(queue@[q] as int == jj);
                            }
                            if placed_before(queue@, queue@.len() as int, jj) && jj != d as int {
                                let q = choose|q: int| 0 <= q < queue@.len() && #[trigger] queue@[q] as int == jj;
                                assert(oq[q] as int == jj);
                            }
                        }
                        assert forall|jj: int| 0 <= jj < n implies (#[trigger] emitted@[jj] <==> placed_before(queue@, head as int, jj)) by {
                            if placed_before(oq, head as int, jj) {
                                let q = choose|q: int| 0 <= q < head && #[trigger] oq[q] as int == jj;
                                assert(queue@[q] as int == jj);
                            }
                            if placed_before(queue@, head as int, jj) {
                                let q = choose|q: int| 0 <= q < head && #[trigger] queue@[q] as int == jj;
                                assert(oq[q] as int == jj);
                            }
                        }
                        assert forall|p: int, u: int|
                            0 <= p < queue@.len() && #[trigger] univ_dep(nodes, univ@, queue@[p] as int, u) implies placed_before(queue@, p, u) by {
                            if p < oq.len() {
                                assert(queue@[p] == oq[p]);
                                assert(placed_before(oq, p, u));
                                let q = choose|q: int| 0 <= q < p && #[trigger] oq[q] as int == u;
                                assert(queue@[q] as int == u);
                            } else {
                                assert(emitted@[u]);
                                let q = choose|q: int| 0 <= q < head && #[trigger] oq[q] as int == u;
                                assert(queue@[q] as int == u);
                            }
                        }
                    }
                }
                j = j + 1;
            }
        }
        proof {
            assert forall|v: int|
                0 <= v < n && univ@[v] && (forall|u: int| #[trigger] univ_dep(nodes, univ@, v, u) ==> placed_before(queue@, queue@.len() as int, u))
                    implies placed_before(queue@, queue@.len() as int, v) by {
                if !queued@[v] {
                    let u = choose|u: int| #[trigger] univ_dep(nodes, univ@, v, u) && !emitted@[u];
                    assert(emitted@[u]);
                }
            }
            reveal(fifo_start_inv);
            assert forall|p: int| 0 <= p < m0 implies ready_at_start(nodes, univ@, #[trigger] queue@[p] as int) by {
                assert(queue@.subrange(0, m0)[p] == queue@[p]);
            }
            assert forall|p: int, q: int| 0 <= p < q < m0 implies #[trigger] queue@[p] < #[trigger] queue@[q] by {
                assert(queue@.subrange(0, m0)[p] == queue@[p]);
                assert(queue@.subrange(0, m0)[q] == queue@[q]);
            }
            assert(ready_prefix(nodes, univ@, queue@, m0));
        }
        queue
    }
}

/// The dirty nodes and every node downstream of them.
pub open spec fn dirty_universe(nodes: Seq<FileMeta>) -> Seq<bool> {
    Seq::new(nodes.len(), |i: int| downstream(dependents_of(nodes), dirty_of(nodes), i))
}

pub open spec fn is_source_node(nodes: Seq<FileMeta>, i: usize) -> bool {
    i < nodes.len() && is_source_path(nodes[i as int].path@)
}

impl BuildGraph {
    /// The sources to rebuild, in dependency order: a Kahn order over the
    /// dirty nodes and everything downstream of them, with headers left out.
    pub fn topo_sort_dirty(&self) -> (r: Vec<usize>)
        requires
            self.wf(),
        ensures
            exists|order: Seq<usize>|
                #[trigger] kahn_order_ok(self.nodes@, dirty_universe(self.nodes@), order) && r@
                    == order.filter(|i: usize| is_source_node(self.nodes@, i)),
    {
        let seeds = self.dirty_flags();
        let univ = self.reach_closure(&seeds);
        assert(univ@ =~= dirty_universe(self.nodes@));
        let order = self.kahn_order(&univ);
        let ghost pred = |i: usize| is_source_node(self.nodes@, i);
        let mut r: Vec<usize> = Vec::new();
        proof {
            reveal(Seq::filter);
            assert(order@.subrange(0, 0).filter(pred) =~= Seq::<usize>::empty());
        }
        for k in 0..order.len()
            invariant
                kahn_order_ok(self.nodes@, univ@, order@),
                pred == (|i: usize| is_source_node(self.nodes@, i)),
                r@ == order@.subrange(0, k as int).filter(pred),
        {
            let i = order[k];
            proof {
                reveal(Seq::filter);
                assert(order@.subrange(0, k + 1).drop_last() =~= order@.subrange(0, k as int));
                assert(order@.subrange(0, k + 1).last() == i);
                assert(i < self.nodes@.len());
            }
            if is_source(self.nodes[i].path.as_str()) {
                r.push(i);
            }
        }
        assert(order@.subrange(0, order@.len() as int) =~= order@);
        r
    }
}

/// A file met while walking the project: its canonical path and its
/// modification time in milliseconds since the Unix epoch.
#[derive(Debug)]
pub struct FoundFile {
    pub path: String,
    pub last_modified: i64,
}

/// `p` is the path of a found file with a recognised extension.
pub open spec fn tracked_in(found: Seq<FoundFile>, p: Seq<char>) -> bool {
    exists|k: int| 0 <= k < found.len() && (kind_of(found[k].path@)) is Some && found[k].path@ == p
}

impl BuildGraph {
    /// Adds a node for every found file whose extension is a recognised
    /// source or header one. Nodes already present are kept as they are.
    pub fn scan(&mut self, found: &Vec<FoundFile>)
        requires
            old(self).wf(),
        ensures
            final(self).wf(),
            final(self).nodes@.len() >= old(self).nodes@.len(),
            final(self).nodes@.subrange(0, old(self).nodes@.len() as int) == old(self).nodes@,
            forall|k: int|
                0 <= k < found@.len() && (#[trigger] kind_of(found@[k].path@)) is Some ==> exists|i: int|
                    0 <= i < final(self).nodes@.len() && final(self).nodes@[i].path@ == found@[k].path@,
            forall|i: int|
                old(self).nodes@.len() <= i < final(self).nodes@.len() ==> {
                    &&& tracked_in(found@, final(self).nodes@[i].path@)
                    &&& final(self).nodes@[i].dirty
                    &&& final(self).nodes@[i].deps@.len() == 0
                    &&& final(self).nodes@[i].dependents@.len() == 0
                },
    {
        let ghost o = self.nodes@;
        for k in 0..found.len()
            invariant
                self.wf(),
                self.nodes@.len() >= o.len(),
                self.nodes@.subrange(0, o.len() as int) == o,
                forall|q: int|
                    0 <= q < k && (#[trigger] kind_of(found@[q].path@)) is Some ==> exists|i: int|
                        0 <= i < self.nodes@.len() && self.nodes@[i].path@ == found@[q].path@,
                forall|i: int|
                    o.len() <= i < self.nodes@.len() ==> {
                        &&& tracked_in(found@, self.nodes@[i].path@)
                        &&& self.nodes@[i].dirty
                        &&& self.nodes@[i].deps@.len() == 0
                        &&& self.nodes@[i].dependents@.len() == 0
                    },
        {
            let f = &found[k];
            if classify(f.path.as_str()).is_some() {
                let ghost before = self.nodes@;
                let r = self.insert_file(f.path.clone(), f.last_modified);
                proof {
                    let s = self.nodes@;
                    if s.len() > before.len() {
                        assert(s.subrange(0, before.len() as int) == before);
                        assert forall|i: int| 0 <= i < before.len() implies s[i] == before[i] by {
                            assert(s.subrange(0, before.len() as int)[i] == s[i]);
                        }
                        assert(s.subrange(0, o.len() as int) =~= before.subrange(0, o.len() as int));
                        assert(s[r as int].path@ == found@[k as int].path@);
                        assert(tracked_in(found@, s[r as int].path@));
                    }
                }
            }
        }
    }

    /// Records that source node `source` includes each of `deps`, in order.
    /// A path that is not a node yet becomes one: dirty, without a hash or
    /// forward edges, stamped with `now`. Each forward edge gets its reverse
    /// edge; nothing else changes.
    pub fn record_deps(&mut self, source: usize, deps: &Vec<String>, now: i64)
        requires
            old(self).wf(),
            source < old(self).nodes@.len(),
        ensures
            final(self).wf(),
            final(self).nodes@.len() >= old(self).nodes@.len(),
            final(self).nodes@[source as int].deps@.len() == old(self).nodes@[source as int].deps@.len() + deps@.len(),
            final(self).nodes@[source as int].deps@.subrange(0, old(self).nodes@[source as int].deps@.len() as int)
                == old(self).nodes@[source as int].deps@,
            forall|k: int| 0 <= k < deps@.len() ==> {
                let d = #[trigger] final(self).nodes@[source as int].deps@[old(self).nodes@[source as int].deps@.len() + k];
                d < final(self).nodes@.len() && final(self).nodes@[d as int].path@ == deps@[k]@
            },
            forall|i: int| 0 <= i < old(self).nodes@.len() ==> {
                &&& #[trigger] final(self).nodes@[i].path == old(self).nodes@[i].path
                &&& final(self).nodes@[i].hash == old(self).nodes@[i].hash
                &&& final(self).nodes@[i].last_modified == old(self).nodes@[i].last_modified
                &&& final(self).nodes@[i].dirty == old(self).nodes@[i].dirty
                &&& i != source ==> final(self).nodes@[i].deps == old(self).nodes@[i].deps
                &&& extended_by(old(self).nodes@[i].dependents@, final(self).nodes@[i].dependents@, source)
            },
            forall|i: int| old(self).nodes@.len() <= i < final(self).nodes@.len() ==> {
                &&& (#[trigger] final(self).nodes@[i]).hash@.len() == 0
                &&& final(self).nodes@[i].last_modified == now
                &&& final(self).nodes@[i].dirty
                &&& final(self).nodes@[i].deps@.len() == 0
                &&& extended_by(Seq::empty(), final(self).nodes@[i].dependents@, source)
            },
    {
        let ghost o = self.nodes@;
        let ghost base = o[source as int].deps@.len();
        proof {
            assert forall|i: int| 0 <= i < o.len() implies extended_by(o[i].dependents@, o[i].dependents@, source) by {
                assert(o[i].dependents@.subrange(0, o[i].dependents@.len() as int) =~= o[i].dependents@);
            }
        }
        for k in 0..deps.len()
            invariant
                self.wf(),
                source < o.len(),
                base == o[source as int].deps@.len(),
                self.nodes@.len() >= o.len(),
                forall|i: int| 0 <= i < o.len() ==> {
                    &&& #[trigger] self.nodes@[i].path == o[i].path
                    &&& self.nodes@[i].hash == o[i].hash
                    &&& self.nodes@[i].last_modified == o[i].last_modified
                    &&& self.nodes@[i].dirty == o[i].dirty
                    &&& i != source ==> self.nodes@[i].deps == o[i].deps
                    &&& extended_by(o[i].dependents@, self.nodes@[i].dependents@, source)
                },
                forall|i: int| o.len() <= i < self.nodes@.len() ==> {
                    &&& (#[trigger] self.nodes@[i]).hash@.len() == 0
                    &&& self.nodes@[i].last_modified == now
                    &&& self.nodes@[i].dirty
                    &&& self.nodes@[i].deps@.len() == 0
                    &&& extended_by(Seq::empty(), self.nodes@[i].dependents@, source)
                },
                self.nodes@[source as int].deps@.len() == base + k,
                self.nodes@[source as int].deps@.subrange(0, base as int) == o[source as int].deps@,
                forall|q: int| 0 <= q < k ==> {
                    let d = #[trigger] self.nodes@[source as int].deps@[base + q];
                    d < self.nodes@.len() && self.nodes@[d as int].path@ == deps@[q]@
                },
        {
            let ghost s0 = self.nodes@;
            let idx = self.insert_file(deps[k].clone(), now);
            let ghost s1 = self.nodes@;
            proof {
                if s1.len() > s0.len() {
                    assert forall|i: int| 0 <= i < s0.len() implies s1[i] == s0[i] by {
                        assert(s1.subrange(0, s0.len() as int)[i] == s1[i]);
                    }
                }
                assert forall|i: int| 0 <= i < s0.len() implies s1[i] == s0[i] by {
                    if s1.len() > s0.len() {
                        assert(s1.subrange(0, s0.len() as int)[i] == s1[i]);
                    }
                }
                if s1.len() > s0.len() {
                    assert(s1[s0.len() as int].dependents@ =~= Seq::<usize>::empty());
                    assert(Seq::<usize>::empty().subrange(0, 0) =~= Seq::<usize>::empty());
                    assert(extended_by(Seq::empty(), s1[s0.len() as int].dependents@, source));
                }
            }
            self.add_edge(source, idx);
            proof {
                let s2 = self.nodes@;
                assert(s2[source as int].deps@ == s1[source as int].deps@.push(idx));
                assert forall|i: int| 0 <= i < s2.len() implies s2[i].dependents@ == (if i == idx as int {
                    s1[i].dependents@.push(source)
                } else {
                    s1[i].dependents@
                }) by {}
                assert forall|i: int| 0 <= i < o.len() implies extended_by(o[i].dependents@, s2[i].dependents@, source) by {
                    if i == idx as int {
                        lemma_extended_push(o[i].dependents@, s1[i].dependents@, source);
                    }
                }
                assert forall|i: int| o.len() <= i < s2.len() implies extended_by(Seq::empty(), s2[i].dependents@, source) by {
                    if i == idx as int {
                        lemma_extended_push(Seq::empty(), s1[i].dependents@, source);
                    }
                }
                assert(s2[source as int].deps@.subrange(0, base as int) =~= s1[source as int].deps@.subrange(0, base as int));
                assert forall|q: int| 0 <= q < k + 1 implies {
                    let d = #[trigger] s2[source as int].deps@[base + q];
                    d < s2.len() && s2[d as int].path@ == deps@[q]@
                } by {
                    if q < k {
                        let d = s0[source as int].deps@[base + q];
                        assert(s2[source as int].deps@[base + q] == d);
                        assert(s2[d as int].path == s1[d as int].path);
                        assert(s1[d as int] == s0[d as int]);
                    } else {
                        assert(s2[source as int].deps@[base + q] == idx);
                        assert(s2[idx as int].path == s1[idx as int].path);
                    }
                }
            }
        }
    }

    /// The cache key of every node, in node order.
    pub fn relative_keys(&self, root: &str) -> (r: Vec<String>)
        ensures
            strings_view(r@) == self.nodes@.map_values(|m: FileMeta| relative_key(m.path@, root@)),
    {
        let mut r: Vec<String> = Vec::new();
        for i in 0..self.nodes.len()
            invariant
                r@.len() == i,
                i <= self.nodes@.len(),
                forall|k: int| 0 <= k < i ==> #[trigger] r@[k]@ == relative_key(self.nodes@[k].path@, root@),
        {
            r.push(BuildCache::make_relative(self.nodes[i].path.as_str(), root));
        }
        assert(strings_view(r@) =~= self.nodes@.map_values(|m: FileMeta| relative_key(m.path@, root@)));
        r
    }
}

pub(crate) proof fn lemma_same_shape_wf(a: Seq<FileMeta>, b: Seq<FileMeta>)
    requires
        graph_wf(a),
        same_shape(a, b),
    ensures
        graph_wf(b),
{
    assert forall|i: int, k: int| 0 <= i < b.len() && 0 <= k < b[i].deps@.len() implies #[trigger] b[i].deps@[k] < b.len() by {
        assert(b[i].deps == a[i].deps);
    }
    assert forall|i: int, k: int| 0 <= i < b.len() && 0 <= k < b[i].dependents@.len() implies #[trigger] b[i].dependents@[k] < b.len() by {
        assert(b[i].dependents == a[i].dependents);
    }
    assert forall|x: int, y: int| 0 <= x < b.len() && 0 <= y < b.len() implies (
    #[trigger] b[x].dependents@.contains(y as usize) <==> #[trigger] b[y].deps@.contains(x as usize)) by {
        assert(b[x].dependents == a[x].dependents);
        assert(b[y].deps == a[y].deps);
        assert(a[x].dependents@.contains(y as usize) <==> a[y].deps@.contains(x as usize));
    }
    assert forall|i: int, j: int| 0 <= i < b.len() && 0 <= j < b.len() && i != j implies b[i].path@ != b[j].path@ by {
        assert(b[i].path == a[i].path);
        assert(b[j].path == a[j].path);
    }
}

} // verus!

verus! {

/// Edge symmetry: in every well-formed graph (and every graph that `new`,
/// `insert_file`, `add_edge`, `scan` and `record_deps` build is one), `y` is
/// a dependent of `x` exactly when `x` is a dependency of `y`.
pub proof fn edge_symmetry(g: &BuildGraph, x: int, y: int)
    requires
        g.wf(),
        0 <= x < g.nodes@.len(),
        0 <= y < g.nodes@.len(),
    ensures
        g.nodes@[x].dependents@.contains(y as usize) <==> g.nodes@[y].deps@.contains(x as usize),
{
}

/// Propagation soundness: after `propagate`, every node reached from a node
/// that was dirty by following reverse edges is dirty, cycles included; and
/// the dirty nodes are closed under reverse edges.
pub proof fn propagation_is_sound(before: Seq<FileMeta>, after: Seq<FileMeta>, w: Seq<int>, h: int, d: int)
    requires
        graph_wf(before),
        same_shape(before, after),
        forall|i: int|
            0 <= i < after.len() ==> #[trigger] after[i].dirty == downstream(
                dependents_of(before),
                dirty_of(before),
                i,
            ),
    ensures
        is_walk(dependents_of(before), dirty_of(before), w) ==> after[w.last()].dirty,
        0 <= h < after.len() && after[h].dirty && after[h].dependents@.contains(d as usize) && 0 <= d
            < after.len() ==> after[d].dirty,
{
    let adj = dependents_of(before);
    let seed = dirty_of(before);
    if is_walk(adj, seed, w) {
        let t = w.len() - 1;
        if t > 0 {
            let p = w[t - 1];
            assert(adj[p].contains(w[t] as usize));
            let u = choose|u: int| 0 <= u < adj[p].len() && adj[p][u] == w[t] as usize;
            assert(before[p].dependents@[u] < before.len());
        } else {
            assert(w.last() == w[0]);
        }
        assert(downstream(adj, seed, w.last()));
        assert(0 <= w.last() < after.len());
        assert(after[w.last()].dirty);
    }
    if 0 <= h < after.len() && after[h].dirty && after[h].dependents@.contains(d as usize) && 0 <= d
        < after.len() {
        let v = choose|v: Seq<int>| #[trigger] is_walk(adj, seed, v) && v.last() == h;
        assert(after[h].dependents == before[h].dependents);
        lemma_walk_extend(adj, seed, v, d);
    }
}

} // verus!
