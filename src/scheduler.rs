use vstd::prelude::*;
use crate::cache::{config_equal, strings_view, BuildCache};
use crate::graph::{
    dependents_of, dirty_of, dirty_universe, downstream, is_source_node, is_walk, kahn_order_ok,
    same_shape, stale_seed, BuildGraph,
};
use crate::paths::{
    absolute_of, file_stem, is_cpp_path, is_source, is_source_path, relative_key,
    stem_of, toolchain_for, toolchain_of, FileKind, Toolchain, classify,
};
use crate::target::FileMeta;

verus! {

/// Why a build batch did not finish.
#[derive(Clone, Copy, Debug, PartialEq, Eq, Structural)]
pub enum BuildError {
    /// At least one source of the batch failed to compile.
    CompileFailed,
}

/// Everything one worker needs to compile one source, owned.
#[derive(Debug)]
pub struct CompileJob {
    pub node: usize,
    pub source: String,
    pub object: String,
    pub toolchain: Toolchain,
    pub args: Vec<String>,
}

pub open spec fn target_name() -> Seq<char> {
    seq!['t', 'a', 'r', 'g', 'e', 't']
}

pub open spec fn profile_name(is_debug: bool) -> Seq<char> {
    if is_debug {
        seq!['d', 'e', 'b', 'u', 'g']
    } else {
        seq!['r', 'e', 'l', 'e', 'a', 's', 'e']
    }
}

/// `<root>/target/<debug|release>`.
pub open spec fn output_dir_of(root: Seq<char>, is_debug: bool) -> Seq<char> {
    absolute_of(profile_name(is_debug), absolute_of(target_name(), root))
}

/// The object file of a source: its stem, with any last extension of the
/// stem replaced by `.o`, in the output directory.
pub open spec fn object_of(root: Seq<char>, is_debug: bool, source: Seq<char>) -> Seq<char> {
    absolute_of(stem_of(stem_of(source)) + seq!['.', 'o'], output_dir_of(root, is_debug))
}

/// The arguments of a compile: `-c <source> -o <object>` and `-g` for a
/// debug build or `-O3` for a release build.
pub open spec fn compile_args_of(source: Seq<char>, object: Seq<char>, is_debug: bool) -> Seq<
    Seq<char>,
> {
    seq![
        seq!['-', 'c'],
        source,
        seq!['-', 'o'],
        object,
        if is_debug {
            seq!['-', 'g']
        } else {
            seq!['-', 'O', '3']
        },
    ]
}

/// The executable's name for the driver.
pub open spec fn program_of(t: Toolchain) -> Seq<char> {
    match t {
        Toolchain::CCompiler => seq!['g', 'c', 'c'],
        Toolchain::CppCompiler => seq!['g', '+', '+'],
    }
}

/// The cache after recording every node's hash and time, in node order.
pub open spec fn with_nodes(
    m: Map<Seq<char>, (Seq<char>, i64)>,
    nodes: Seq<FileMeta>,
    root: Seq<char>,
) -> Map<Seq<char>, (Seq<char>, i64)>
    decreases nodes.len(),
{
    if nodes.len() == 0 {
        m
    } else {
        with_nodes(m, nodes.drop_last(), root).insert(
            relative_key(nodes.last().path@, root),
            (nodes.last().hash@, nodes.last().last_modified),
        )
    }
}

fn lit(s: &str) -> (r: String)
    ensures
        r@ == s@,
{
    String::from_str(s)
}

impl Toolchain {
    /// The program that runs this driver.
    pub fn program(&self) -> (r: String)
        ensures
            r@ == program_of(*self),
    {
        match self {
            Toolchain::CCompiler => {
                let r = lit("gcc");
                proof {
                    reveal_strlit("gcc");
                }
                r
            },
            Toolchain::CppCompiler => {
                let r = lit("g++");
                proof {
                    reveal_strlit("g++");
                }
                r
            },
        }
    }
}

/// The directory that holds the objects and the executable of a profile.
pub fn output_dir(root: &str, is_debug: bool) -> (r: String)
    ensures
        r@ == output_dir_of(root@, is_debug),
{
    let t = lit("target");
    proof {
        reveal_strlit("target");
        assert(t@ =~= target_name());
    }
    let base = BuildCache::make_absolute(t.as_str(), root);
    let p = if is_debug {
        let p = lit("debug");
        proof {
            reveal_strlit("debug");
            assert(p@ =~= profile_name(is_debug));
        }
        p
    } else {
        let p = lit("release");
        proof {
            reveal_strlit("release");
            assert(p@ =~= profile_name(is_debug));
        }
        p
    };
    BuildCache::make_absolute(p.as_str(), base.as_str())
}

/// The object file that compiling `source` produces.
pub fn object_path(root: &str, is_debug: bool, source: &str) -> (r: String)
    ensures
        r@ == object_of(root@, is_debug, source@),
{
    let stem = file_stem(source);
    let mut name = file_stem(stem.as_str());
    name.append(".o");
    proof {
        reveal_strlit(".o");
        assert(name@ =~= stem_of(stem_of(source@)) + seq!['.', 'o']);
    }
    let dir = output_dir(root, is_debug);
    BuildCache::make_absolute(name.as_str(), dir.as_str())
}

/// The arguments that compile `source` into `object`.
pub fn compile_args(source: &str, object: &str, is_debug: bool) -> (r: Vec<String>)
    ensures
        strings_view(r@) == compile_args_of(source@, object@, is_debug),
{
    let mut r: Vec<String> = Vec::new();
    r.push(lit("-c"));
    r.push(String::from_str(source));
    r.push(lit("-o"));
    r.push(String::from_str(object));
    if is_debug {
        r.push(lit("-g"));
    } else {
        r.push(lit("-O3"));
    }
    proof {
        reveal_strlit("-c");
        reveal_strlit("-o");
        reveal_strlit("-g");
        reveal_strlit("-O3");
        assert(r@[0]@ =~= seq!['-', 'c']);
        assert(r@[2]@ =~= seq!['-', 'o']);
        if is_debug {
            assert(r@[4]@ =~= seq!['-', 'g']);
        } else {
            assert(r@[4]@ =~= seq!['-', 'O', '3']);
        }
        assert(strings_view(r@) =~= compile_args_of(source@, object@, is_debug));
    }
    r
}

/// The owned description of the compile of node `i`.
pub fn compile_job(graph: &BuildGraph, i: usize, root: &str, is_debug: bool) -> (r: CompileJob)
    requires
        i < graph.nodes@.len(),
    ensures
        r.node == i,
        r.source@ == graph.nodes@[i as int].path@,
        r.object@ == object_of(root@, is_debug, graph.nodes@[i as int].path@),
        r.toolchain == toolchain_for(graph.nodes@[i as int].path@),
        strings_view(r.args@) == compile_args_of(r.source@, r.object@, is_debug),
{
    let source = graph.nodes[i].path.clone();
    let object = object_path(root, is_debug, source.as_str());
    let toolchain = toolchain_of(source.as_str());
    let args = compile_args(source.as_str(), object.as_str(), is_debug);
    CompileJob { node: i, source, object, toolchain, args }
}

/// The dirty sources to compile, in build order. `None` when the build order
/// is empty: then nothing is compiled, linked or recorded.
pub fn plan_build(graph: &BuildGraph) -> (r: Option<Vec<usize>>)
    requires
        graph.wf(),
    ensures
        exists|order: Seq<usize>|
            #[trigger] kahn_order_ok(graph.nodes@, dirty_universe(graph.nodes@), order) && {
                let topo = order.filter(|i: usize| is_source_node(graph.nodes@, i));
                &&& (r is None <==> topo.len() == 0)
                &&& r is Some ==> r->0@ == topo.filter(
                    |i: usize| i < graph.nodes@.len() && graph.nodes@[i as int].dirty,
                )
            },
{
    let order = graph.topo_sort_dirty();
    if order.len() == 0 {
        return None;
    }
    let ghost pred = |i: usize| i < graph.nodes@.len() && graph.nodes@[i as int].dirty;
    let mut work: Vec<usize> = Vec::new();
    proof {
        reveal(Seq::filter);
        assert(order@.subrange(0, 0).filter(pred) =~= Seq::<usize>::empty());
    }
    for k in 0..order.len()
        invariant
            pred == (|i: usize| i < graph.nodes@.len() && graph.nodes@[i as int].dirty),
            work@ == order@.subrange(0, k as int).filter(pred),
    {
        let i = order[k];
        proof {
            reveal(Seq::filter);
            assert(order@.subrange(0, k + 1).drop_last() =~= order@.subrange(0, k as int));
            assert(order@.subrange(0, k + 1).last() == i);
        }
        if i < graph.nodes.len() && graph.nodes[i].dirty {
            work.push(i);
        }
    }
    assert(order@.subrange(0, order@.len() as int) =~= order@);
    Some(work)
}

/// Settles a compile batch run with `compiler` and `flags`. On failure
/// nothing changes: the dirty flags stay, and the cache keeps its entries and
/// its recorded configuration, so the next run retries all pending work. On
/// success the compiled sources are clean, every node's hash and time is
/// recorded in the cache together with the configuration, and the result
/// says whether anything was compiled (so whether to link).
pub fn finish_build(
    graph: &mut BuildGraph,
    cache: &mut BuildCache,
    root: &str,
    compiler: &str,
    flags: &Vec<String>,
    built: &Vec<usize>,
    failed: bool,
) -> (r: Result<bool, BuildError>)
    requires
        old(graph).wf(),
        old(cache).wf(),
        forall|k: int| 0 <= k < built@.len() ==> #[trigger] built@[k] < old(graph).nodes@.len(),
    ensures
        final(graph).wf(),
        final(cache).wf(),
        failed ==> r == Err::<bool, BuildError>(BuildError::CompileFailed),
        failed ==> final(graph).nodes@ == old(graph).nodes@,
        failed ==> *final(cache) == *old(cache),
        !failed ==> r == Ok::<bool, BuildError>(built@.len() > 0),
        !failed ==> same_shape(old(graph).nodes@, final(graph).nodes@),
        !failed ==> forall|i: int|
            0 <= i < final(graph).nodes@.len() ==> #[trigger] final(graph).nodes@[i].dirty == (old(
                graph,
            ).nodes@[i].dirty && !built@.contains(i as usize)),
        !failed ==> final(cache)@ == with_nodes(old(cache)@, old(graph).nodes@, root@),
        !failed ==> final(cache).compiler is Some && final(cache).compiler->0@ == compiler@,
        !failed ==> strings_view(final(cache).flags@) == strings_view(flags@),
        final(cache).saved_at == old(cache).saved_at,
{
    if failed {
        return Err(BuildError::CompileFailed);
    }
    let ghost o = graph.nodes@;
    let ghost m0 = cache@;
    let n = graph.nodes.len();
    for k in 0..built.len()
        invariant
            n == graph.nodes@.len(),
            same_shape(o, graph.nodes@),
            forall|q: int| 0 <= q < built@.len() ==> #[trigger] built@[q] < n,
            forall|i: int|
                0 <= i < n ==> #[trigger] graph.nodes@[i].dirty == (o[i].dirty
                    && !built@.subrange(0, k as int).contains(i as usize)),
    {
        let p = built[k];
        graph.nodes[p].dirty = false;
        proof {
            assert forall|i: int| 0 <= i < n implies #[trigger] graph.nodes@[i].dirty == (o[i].dirty
                && !built@.subrange(0, k + 1).contains(i as usize)) by {
                let s0 = built@.subrange(0, k as int);
                let s1 = built@.subrange(0, k + 1);
                assert(s1 =~= s0.push(p));
                if s0.contains(i as usize) {
                    let t = choose|t: int| 0 <= t < s0.len() && s0[t] == i as usize;
                    assert(s1[t] == i as usize);
                }
                if s1.contains(i as usize) && i != p as int {
                    let t = choose|t: int| 0 <= t < s1.len() && s1[t] == i as usize;
                    assert(s0[t] == i as usize);
                }
                if i == p as int {
                    assert(s1[k as int] == p);
                }
            }
        }
    }
    assert(built@.subrange(0, built@.len() as int) =~= built@);
    proof {
        crate::graph::lemma_same_shape_wf(o, graph.nodes@);
        assert(o.subrange(0, 0) =~= Seq::<FileMeta>::empty());
    }
    for i in 0..n
        invariant
            n == graph.nodes@.len(),
            same_shape(o, graph.nodes@),
            cache.wf(),
            cache@ == with_nodes(m0, o.subrange(0, i as int), root@),
            cache.saved_at == old(cache).saved_at,
    {
        cache.update_file(&graph.nodes[i], root);
        proof {
            assert(o.subrange(0, i + 1).drop_last() =~= o.subrange(0, i as int));
            assert(o.subrange(0, i + 1).last() == o[i as int]);
        }
    }
    assert(o.subrange(0, n as int) =~= o);
    cache.set_config(compiler, flags);
    Ok(built.len() > 0)
}

/// The objects that a link would take: the object path of every source
/// node, in node order. Which of them exist is for the caller to see.
pub fn link_candidates(graph: &BuildGraph, root: &str, is_debug: bool) -> (r: Vec<String>)
    ensures
        strings_view(r@) == graph.nodes@.filter(|m: FileMeta| is_source_path(m.path@)).map_values(
            |m: FileMeta| object_of(root@, is_debug, m.path@),
        ),
{
    let ghost pred = |m: FileMeta| is_source_path(m.path@);
    let ghost f = |m: FileMeta| object_of(root@, is_debug, m.path@);
    let mut r: Vec<String> = Vec::new();
    proof {
        reveal(Seq::filter);
        assert(graph.nodes@.subrange(0, 0).filter(pred) =~= Seq::<FileMeta>::empty());
        assert(strings_view(r@) =~= graph.nodes@.subrange(0, 0).filter(pred).map_values(f));
    }
    for i in 0..graph.nodes.len()
        invariant
            pred == (|m: FileMeta| is_source_path(m.path@)),
            f == (|m: FileMeta| object_of(root@, is_debug, m.path@)),
            strings_view(r@) == graph.nodes@.subrange(0, i as int).filter(pred).map_values(f),
    {
        let ghost before = graph.nodes@.subrange(0, i as int).filter(pred);
        proof {
            reveal(Seq::filter);
            assert(graph.nodes@.subrange(0, i + 1).drop_last() =~= graph.nodes@.subrange(0, i as int));
            assert(graph.nodes@.subrange(0, i + 1).last() == graph.nodes@[i as int]);
        }
        if is_source(graph.nodes[i].path.as_str()) {
            let o = object_path(root, is_debug, graph.nodes[i].path.as_str());
            let ghost prev = r@;
            r.push(o);
            proof {
                assert(strings_view(r@) =~= strings_view(prev).push(o@));
                assert(before.push(graph.nodes@[i as int]).map_values(f) =~= before.map_values(f).push(
                    f(graph.nodes@[i as int]),
                ));
            }
        }
    }
    assert(graph.nodes@.subrange(0, graph.nodes@.len() as int) =~= graph.nodes@);
    r
}

/// The link driver: the C++ one when any source of the project is of the
/// C++ family, the C one otherwise.
pub fn link_toolchain(graph: &BuildGraph) -> (r: Toolchain)
    ensures
        r == (if exists|i: int| 0 <= i < graph.nodes@.len() && is_cpp_path(graph.nodes@[i].path@) {
            Toolchain::CppCompiler
        } else {
            Toolchain::CCompiler
        }),
{
    let mut i: usize = 0;
    while i < graph.nodes.len()
        invariant
            i <= graph.nodes@.len(),
            forall|j: int| 0 <= j < i ==> !is_cpp_path(#[trigger] graph.nodes@[j].path@),
        decreases graph.nodes@.len() - i,
    {
        match classify(graph.nodes[i].path.as_str()) {
            Some(FileKind::CppSource) => {
                return Toolchain::CppCompiler;
            },
            _ => {},
        }
        i = i + 1;
    }
    Toolchain::CCompiler
}

/// The arguments of a link: every object, then `-o <output>`.
pub fn link_args(objects: &Vec<String>, output: &str) -> (r: Vec<String>)
    ensures
        strings_view(r@) == strings_view(objects@) + seq![seq!['-', 'o'], output@],
{
    let mut r: Vec<String> = Vec::new();
    for i in 0..objects.len()
        invariant
            r@.len() == i,
            i <= objects@.len(),
            forall|k: int| 0 <= k < i ==> #[trigger] r@[k]@ == objects@[k]@,
    {
        r.push(objects[i].clone());
    }
    r.push(lit("-o"));
    r.push(String::from_str(output));
    proof {
        reveal_strlit("-o");
        assert(r@[objects@.len() as int]@ =~= seq!['-', 'o']);
        assert(strings_view(r@) =~= strings_view(objects@) + seq![seq!['-', 'o'], output@]);
    }
    r
}

} // verus!

verus! {

/// Gets a run ready: drops the cache entries of files that are no longer
/// nodes, decides what is dirty (everything when the compiler or the flags
/// changed, else what the cache does not match and everything downstream of
/// it). The configuration is recorded only when a batch succeeds.
pub fn prepare_run(
    graph: &mut BuildGraph,
    cache: &mut BuildCache,
    root: &str,
    compiler: &str,
    flags: &Vec<String>,
)
    requires
        old(graph).wf(),
        old(cache).wf(),
    ensures
        final(graph).wf(),
        final(cache).wf(),
        same_shape(old(graph).nodes@, final(graph).nodes@),
        final(cache)@ == old(cache)@.restrict(node_keys(old(graph).nodes@, root@)),
        final(cache).compiler == old(cache).compiler,
        final(cache).flags == old(cache).flags,
        final(cache).saved_at == old(cache).saved_at,
        !config_equal(old(cache).compiler, old(cache).flags@, compiler@, flags@) ==> forall|i: int|
            0 <= i < final(graph).nodes@.len() ==> #[trigger] final(graph).nodes@[i].dirty,
        config_equal(old(cache).compiler, old(cache).flags@, compiler@, flags@) ==> forall|i: int|
            0 <= i < final(graph).nodes@.len() ==> #[trigger] final(graph).nodes@[i].dirty
                == downstream(
                dependents_of(old(graph).nodes@),
                stale_seed(old(graph).nodes@, old(cache)@, root@),
                i,
            ),
{
    let ghost o = graph.nodes@;
    let ghost m0 = cache@;
    let keys = graph.relative_keys(root);
    cache.retain_keys(&keys);
    proof {
        assert(strings_view(keys@).to_set() =~= node_keys(o, root@));
        assert forall|i: int| 0 <= i < o.len() implies node_keys(o, root@).contains(
            #[trigger] relative_key(o[i].path@, root@),
        ) by {
            assert(o.map_values(|m: FileMeta| relative_key(m.path@, root@))[i] == relative_key(
                o[i].path@,
                root@,
            ));
        }
        assert(stale_seed(o, cache@, root@) =~= stale_seed(o, m0, root@));
    }
    graph.mark_stale(cache, root, compiler, flags);
}

/// The cache keys of a graph's nodes.
pub open spec fn node_keys(nodes: Seq<FileMeta>, root: Seq<char>) -> Set<Seq<char>> {
    nodes.map_values(|m: FileMeta| relative_key(m.path@, root)).to_set()
}

/// No two nodes share a cache key.
pub open spec fn node_keys_distinct(nodes: Seq<FileMeta>, root: Seq<char>) -> bool {
    forall|i: int, j: int|
        0 <= i < nodes.len() && 0 <= j < nodes.len() && i != j ==> relative_key(nodes[i].path@, root)
            != relative_key(nodes[j].path@, root)
}

proof fn lemma_with_nodes_holds(
    m: Map<Seq<char>, (Seq<char>, i64)>,
    nodes: Seq<FileMeta>,
    root: Seq<char>,
    i: int,
)
    requires
        node_keys_distinct(nodes, root),
        0 <= i < nodes.len(),
    ensures
        with_nodes(m, nodes, root).contains_key(relative_key(nodes[i].path@, root)),
        with_nodes(m, nodes, root)[relative_key(nodes[i].path@, root)] == (
            nodes[i].hash@,
            nodes[i].last_modified,
        ),
    decreases nodes.len(),
{
    if i < nodes.len() - 1 {
        let t = nodes.drop_last();
        assert(node_keys_distinct(t, root));
        lemma_with_nodes_holds(m, t, root, i);
        assert(t[i] == nodes[i]);
    }
}

/// A second build with no source changes has nothing to do: after a
/// successful build recorded every node in the cache, a rescan that finds
/// the same paths with the same hashes leaves no node stale; so after
/// `update_dirty` (whose result is `after`) no node is dirty, and the build
/// order over the dirty nodes and their dependents is empty: nothing is
/// compiled and nothing linked.
pub proof fn rebuild_without_changes_is_empty(
    m: Map<Seq<char>, (Seq<char>, i64)>,
    built: Seq<FileMeta>,
    rescanned: Seq<FileMeta>,
    after: Seq<FileMeta>,
    root: Seq<char>,
    order: Seq<usize>,
)
    requires
        node_keys_distinct(built, root),
        rescanned.len() == built.len(),
        forall|i: int|
            0 <= i < built.len() ==> #[trigger] rescanned[i].path@ == built[i].path@
                && rescanned[i].hash@ == built[i].hash@,
        same_shape(rescanned, after),
        forall|i: int|
            0 <= i < after.len() ==> #[trigger] after[i].dirty == downstream(
                dependents_of(rescanned),
                stale_seed(rescanned, with_nodes(m, built, root), root),
                i,
            ),
        kahn_order_ok(after, dirty_universe(after), order),
    ensures
        forall|i: int|
            0 <= i < rescanned.len() ==> !#[trigger] stale_seed(
                rescanned,
                with_nodes(m, built, root),
                root,
            )[i],
        forall|i: int| 0 <= i < after.len() ==> !#[trigger] after[i].dirty,
        order.len() == 0,
        order.filter(|i: usize| is_source_node(after, i)).len() == 0,
{
    let c = with_nodes(m, built, root);
    assert forall|i: int| 0 <= i < rescanned.len() implies !#[trigger] stale_seed(
        rescanned,
        c,
        root,
    )[i] by {
        lemma_with_nodes_holds(m, built, root, i);
    }
    assert forall|i: int| 0 <= i < after.len() implies !#[trigger] after[i].dirty by {
        if downstream(dependents_of(rescanned), stale_seed(rescanned, c, root), i) {
            let w = choose|w: Seq<int>|
                #[trigger] is_walk(dependents_of(rescanned), stale_seed(rescanned, c, root), w)
                    && w.last() == i;
            assert(stale_seed(rescanned, c, root)[w[0]]);
        }
    }
    if order.len() > 0 {
        let v = order[0] as int;
        assert(dirty_universe(after)[v]);
        let w = choose|w: Seq<int>|
            #[trigger] is_walk(dependents_of(after), dirty_of(after), w) && w.last() == v;
        assert(dirty_of(after)[w[0]]);
        assert(after[w[0]].dirty);
    }
    reveal(Seq::filter);
}

} // verus!
