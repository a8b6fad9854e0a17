use buildy::cache::{BuildCache, CacheRecord, CachedEntry};
use buildy::graph::{BuildGraph, FoundFile};
use buildy::target::FileMeta;

fn found(path: &str) -> FoundFile {
    FoundFile { path: path.to_string(), last_modified: 1 }
}

fn record(key: &str, hash: &str) -> CacheRecord {
    CacheRecord {
        key: key.to_string(),
        entry: CachedEntry { hash: hash.to_string(), last_modified: 7 },
    }
}

fn empty_cache() -> BuildCache {
    BuildCache::empty(0)
}

fn symmetric(g: &BuildGraph) -> bool {
    let n = g.nodes.len();
    for x in 0..n {
        for y in 0..n {
            let a = g.nodes[x].dependents.contains(&y);
            let b = g.nodes[y].deps.contains(&x);
            if a != b {
                return false;
            }
        }
    }
    true
}

#[test]
fn new_record_is_dirty_and_bare() {
    let m = FileMeta::new("/r/a.c".to_string(), 5);
    assert_eq!(m.hash, "");
    assert_eq!(m.last_modified, 5);
    assert!(m.dirty);
    assert!(m.deps.is_empty() && m.dependents.is_empty());
}

#[test]
fn refresh_sets_hash_and_time() {
    let mut m = FileMeta::new("/r/a.c".to_string(), 5);
    m.refresh("abc".to_string(), 9);
    assert_eq!(m.hash, "abc");
    assert_eq!(m.last_modified, 9);
    assert!(m.dirty);
}

#[test]
fn scan_keeps_tracked_files_only() {
    let mut g = BuildGraph::new();
    g.scan(&vec![found("/r/a.c"), found("/r/notes.txt"), found("/r/x.h"), found("/r/a.c")]);
    assert_eq!(g.nodes.len(), 2);
    assert_eq!(g.nodes[0].path, "/r/a.c");
    assert_eq!(g.nodes[1].path, "/r/x.h");
    assert_eq!(g.find("/r/x.h"), Some(1));
    assert_eq!(g.find("/r/notes.txt"), None);
}

#[test]
fn record_deps_adds_both_edges_and_lazy_nodes() {
    let mut g = BuildGraph::new();
    g.scan(&vec![found("/r/a.c"), found("/r/x.h")]);
    g.record_deps(0, &vec!["/r/x.h".to_string(), "/r/gen/y.h".to_string()], 42);
    assert_eq!(g.nodes.len(), 3);
    assert_eq!(g.nodes[0].deps, vec![1, 2]);
    assert_eq!(g.nodes[1].dependents, vec![0]);
    assert_eq!(g.nodes[2].dependents, vec![0]);
    assert_eq!(g.nodes[2].path, "/r/gen/y.h");
    assert!(g.nodes[2].dirty);
    assert_eq!(g.nodes[2].hash, "");
    assert_eq!(g.nodes[2].last_modified, 42);
    assert!(g.nodes[2].deps.is_empty());
    assert!(symmetric(&g));
}

#[test]
fn edges_stay_symmetric() {
    let mut g = BuildGraph::new();
    let a = g.insert_file("/r/a.c".to_string(), 0);
    let b = g.insert_file("/r/b.c".to_string(), 0);
    let x = g.insert_file("/r/x.h".to_string(), 0);
    let y = g.insert_file("/r/y.h".to_string(), 0);
    g.add_edge(a, x);
    g.add_edge(b, x);
    g.add_edge(x, y);
    g.add_edge(y, x);
    assert!(symmetric(&g));
    assert_eq!(g.insert_file("/r/x.h".to_string(), 3), x);
    assert_eq!(g.nodes.len(), 4);
}

#[test]
fn propagation_follows_dependents_through_cycles() {
    let mut g = BuildGraph::new();
    let h = g.insert_file("/r/h.h".to_string(), 0);
    let i = g.insert_file("/r/i.h".to_string(), 0);
    let a = g.insert_file("/r/a.c".to_string(), 0);
    let z = g.insert_file("/r/z.c".to_string(), 0);
    g.add_edge(i, h);
    g.add_edge(h, i);
    g.add_edge(a, i);
    for n in g.nodes.iter_mut() {
        n.dirty = false;
    }
    g.nodes[h].dirty = true;
    g.propagate();
    assert!(g.nodes[h].dirty && g.nodes[i].dirty && g.nodes[a].dirty);
    assert!(!g.nodes[z].dirty);
}

#[test]
fn update_dirty_recomputes_from_cache() {
    let mut g = BuildGraph::new();
    let a = g.insert_file("/r/a.c".to_string(), 0);
    let x = g.insert_file("/r/x.h".to_string(), 0);
    let b = g.insert_file("/r/b.c".to_string(), 0);
    g.add_edge(a, x);
    g.nodes[a].refresh("ha".to_string(), 1);
    g.nodes[x].refresh("hx2".to_string(), 1);
    g.nodes[b].refresh("hb".to_string(), 1);
    let mut c = empty_cache();
    c.insert_entry("a.c".to_string(), CachedEntry { hash: "ha".to_string(), last_modified: 1 });
    c.insert_entry("x.h".to_string(), CachedEntry { hash: "hx1".to_string(), last_modified: 1 });
    c.insert_entry("b.c".to_string(), CachedEntry { hash: "hb".to_string(), last_modified: 1 });
    g.update_dirty(&c, "/r");
    assert!(g.nodes[x].dirty);
    assert!(g.nodes[a].dirty);
    assert!(!g.nodes[b].dirty);
}

#[test]
fn changed_configuration_invalidates_everything() {
    let mut g = BuildGraph::new();
    let a = g.insert_file("/r/a.c".to_string(), 0);
    g.nodes[a].refresh("ha".to_string(), 1);
    let mut c = empty_cache();
    c.update_file(&g.nodes[a], "/r");
    c.set_config("gcc", &vec!["-g".to_string()]);
    g.nodes[a].dirty = false;
    g.mark_stale(&c, "/r", "gcc", &vec!["-O3".to_string()]);
    assert!(g.nodes[a].dirty);
    g.mark_stale(&c, "/r", "gcc", &vec!["-g".to_string()]);
    assert!(!g.nodes[a].dirty);
}

#[test]
fn topological_order_puts_dependencies_first() {
    let mut g = BuildGraph::new();
    let x = g.insert_file("/r/x.h".to_string(), 0);
    let b = g.insert_file("/r/b.c".to_string(), 0);
    let a = g.insert_file("/r/a.c".to_string(), 0);
    let z = g.insert_file("/r/z.c".to_string(), 0);
    g.add_edge(a, b);
    g.add_edge(b, x);
    for n in g.nodes.iter_mut() {
        n.dirty = false;
    }
    g.nodes[x].dirty = true;
    assert_eq!(g.topo_sort_dirty(), vec![b, a]);
    assert!(!g.topo_sort_dirty().contains(&z));
}

#[test]
fn cycles_among_sources_are_left_out() {
    let mut g = BuildGraph::new();
    let a = g.insert_file("/r/a.c".to_string(), 0);
    let b = g.insert_file("/r/b.c".to_string(), 0);
    let c = g.insert_file("/r/c.c".to_string(), 0);
    g.add_edge(a, b);
    g.add_edge(b, a);
    assert_eq!(g.topo_sort_dirty(), vec![c]);
}

#[test]
fn nothing_dirty_gives_empty_order() {
    let mut g = BuildGraph::new();
    let a = g.insert_file("/r/a.c".to_string(), 0);
    g.nodes[a].dirty = false;
    assert!(g.topo_sort_dirty().is_empty());
}

#[test]
fn file_matches_compares_hash_under_relative_key() {
    let mut c = empty_cache();
    let mut m = FileMeta::new("/r/src/a.c".to_string(), 3);
    m.refresh("h1".to_string(), 3);
    assert!(!c.file_matches(&m, "/r"));
    c.update_file(&m, "/r");
    assert_eq!(c.files.len(), 1);
    assert_eq!(c.files[0].key, "src/a.c");
    assert!(c.file_matches(&m, "/r"));
    m.refresh("h2".to_string(), 3);
    assert!(!c.file_matches(&m, "/r"));
    c.update_file(&m, "/r");
    assert_eq!(c.files.len(), 1);
    assert_eq!(c.files[0].entry.hash, "h2");
}

#[test]
fn config_matches_needs_same_compiler_and_ordered_flags() {
    let mut c = empty_cache();
    assert!(!c.config_matches("gcc", &vec![]));
    c.set_config("gcc", &vec!["-g".to_string(), "-Wall".to_string()]);
    assert!(c.config_matches("gcc", &vec!["-g".to_string(), "-Wall".to_string()]));
    assert!(!c.config_matches("gcc", &vec!["-Wall".to_string(), "-g".to_string()]));
    assert!(!c.config_matches("clang", &vec!["-g".to_string(), "-Wall".to_string()]));
}

#[test]
fn pruning_drops_entries_of_missing_files() {
    let mut c = empty_cache();
    c.files = vec![record("a.c", "1"), record("gone.c", "2"), record("x.h", "3")];
    c.retain_keys(&vec!["x.h".to_string(), "a.c".to_string()]);
    let keys: Vec<&str> = c.files.iter().map(|r| r.key.as_str()).collect();
    assert_eq!(keys, vec!["a.c", "x.h"]);
}

#[test]
fn loading_normalizes_absolute_keys() {
    let mut c = empty_cache();
    c.files = vec![record("/old/root/a.c", "1"), record("b.c", "2"), record("/elsewhere/c.c", "3")];
    c.normalize_paths("/old/root");
    let keys: Vec<&str> = c.files.iter().map(|r| r.key.as_str()).collect();
    assert_eq!(keys, vec!["a.c", "b.c", "/elsewhere/c.c"]);
}

#[test]
fn normalizing_merges_keys_that_coincide() {
    let mut c = empty_cache();
    c.files = vec![record("a.c", "old"), record("/r/a.c", "new")];
    c.normalize_paths("/r");
    assert_eq!(c.files.len(), 1);
    assert_eq!(c.files[0].key, "a.c");
    assert_eq!(c.files[0].entry.hash, "new");
}

#[test]
fn saving_stamps_the_time() {
    let mut c = empty_cache();
    c.mark_saved(1234);
    assert_eq!(c.saved_at, 1234);
    assert!(c.files.is_empty());
}

#[test]
fn stored_keys_as_absolute_paths() {
    let mut c = BuildCache::default();
    assert!(c.files.is_empty() && c.compiler.is_none());
    c.files = vec![record("src/a.c", "1"), record("/abs/b.c", "2")];
    assert_eq!(c.iter_absolute_paths("/r"), vec!["/r/src/a.c", "/abs/b.c"]);
}

#[test]
fn nodes_ready_from_the_start_come_first_by_index() {
    let mut g = BuildGraph::new();
    let z = g.insert_file("/r/z.c".to_string(), 0);
    let h = g.insert_file("/r/h.h".to_string(), 0);
    let a = g.insert_file("/r/a.c".to_string(), 0);
    let b = g.insert_file("/r/b.c".to_string(), 0);
    g.add_edge(z, h);
    let order = g.kahn_order(&vec![true, true, true, true]);
    assert_eq!(order, vec![h, a, b, z]);
}

#[test]
fn earlier_records_keep_their_edges() {
    let mut g = BuildGraph::new();
    g.scan(&vec![found("/r/a.c"), found("/r/b.c"), found("/r/x.h")]);
    g.record_deps(0, &vec!["/r/x.h".to_string()], 5);
    g.record_deps(1, &vec!["/r/x.h".to_string()], 5);
    assert_eq!(g.nodes[0].deps, vec![2]);
    assert_eq!(g.nodes[1].deps, vec![2]);
    assert_eq!(g.nodes[2].dependents, vec![0, 1]);
    assert!(g.nodes[2].deps.is_empty());
}
