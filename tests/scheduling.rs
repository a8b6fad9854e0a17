use buildy::cache::BuildCache;
use buildy::graph::{BuildGraph, FoundFile};
use buildy::paths::Toolchain;
use buildy::scheduler::{
    compile_args, compile_job, finish_build, link_args, link_candidates, link_toolchain,
    object_path, output_dir, plan_build, prepare_run, BuildError,
};

fn found(path: &str) -> FoundFile {
    FoundFile { path: path.to_string(), last_modified: 1 }
}

/// The project of two sources that include one header, scanned afresh and
/// with the given header content hash.
fn project(header_hash: &str) -> BuildGraph {
    let mut g = BuildGraph::new();
    g.scan(&vec![found("/p/a.c"), found("/p/b.c"), found("/p/x.h")]);
    g.record_deps(0, &vec!["/p/x.h".to_string()], 42);
    g.record_deps(1, &vec!["/p/x.h".to_string()], 42);
    g.nodes[0].refresh("ha".to_string(), 1);
    g.nodes[1].refresh("hb".to_string(), 1);
    g.nodes[2].refresh(header_hash.to_string(), 1);
    g
}

fn flags() -> Vec<String> {
    vec!["-g".to_string()]
}

#[test]
fn output_and_object_paths() {
    assert_eq!(output_dir("/p", true), "/p/target/debug");
    assert_eq!(output_dir("/p", false), "/p/target/release");
    assert_eq!(object_path("/p", true, "/p/src/foo.c"), "/p/target/debug/foo.o");
    assert_eq!(object_path("/p", false, "/p/foo.bar.cpp"), "/p/target/release/foo.o");
}

#[test]
fn compile_arguments_by_profile() {
    assert_eq!(compile_args("a.c", "a.o", true), vec!["-c", "a.c", "-o", "a.o", "-g"]);
    assert_eq!(compile_args("a.c", "a.o", false), vec!["-c", "a.c", "-o", "a.o", "-O3"]);
}

#[test]
fn compile_job_picks_driver_by_extension() {
    let mut g = BuildGraph::new();
    g.scan(&vec![found("/p/a.c"), found("/p/b.cc")]);
    let j = compile_job(&g, 1, "/p", false);
    assert_eq!(j.node, 1);
    assert_eq!(j.source, "/p/b.cc");
    assert_eq!(j.object, "/p/target/release/b.o");
    assert_eq!(j.toolchain, Toolchain::CppCompiler);
    assert_eq!(j.toolchain.program(), "g++");
    assert_eq!(compile_job(&g, 0, "/p", true).toolchain.program(), "gcc");
}

#[test]
fn link_uses_every_source_object_and_project_driver() {
    let mut g = BuildGraph::new();
    g.scan(&vec![found("/p/a.c"), found("/p/x.h"), found("/p/b.c")]);
    assert_eq!(
        link_candidates(&g, "/p", true),
        vec!["/p/target/debug/a.o", "/p/target/debug/b.o"]
    );
    assert_eq!(link_toolchain(&g), Toolchain::CCompiler);
    g.scan(&vec![found("/p/c.cxx")]);
    assert_eq!(link_toolchain(&g), Toolchain::CppCompiler);
    let objs = vec!["a.o".to_string(), "b.o".to_string()];
    assert_eq!(link_args(&objs, "/p/target/debug/p"), vec!["a.o", "b.o", "-o", "/p/target/debug/p"]);
}

#[test]
fn failed_batch_changes_nothing() {
    let mut g = project("hx");
    let mut c = BuildCache::empty(0);
    prepare_run(&mut g, &mut c, "/p", "gcc", &flags());
    let before = c.files.len();
    let r = finish_build(&mut g, &mut c, "/p", "gcc", &flags(), &vec![0], true);
    assert_eq!(r, Err(BuildError::CompileFailed));
    assert_eq!(c.files.len(), before);
    assert!(g.nodes.iter().all(|n| n.dirty));
}

#[test]
fn header_change_rebuilds_both_includers() {
    let mut c = BuildCache::empty(0);

    let mut g = project("hx1");
    prepare_run(&mut g, &mut c, "/p", "gcc", &flags());
    assert!(g.nodes.iter().all(|n| n.dirty));
    let work = plan_build(&g).unwrap();
    assert_eq!(work, vec![0, 1]);
    assert_eq!(finish_build(&mut g, &mut c, "/p", "gcc", &flags(), &work, false), Ok(true));
    assert_eq!(c.files.len(), 3);
    assert!(!g.nodes[0].dirty && !g.nodes[1].dirty);

    let mut g = project("hx2");
    prepare_run(&mut g, &mut c, "/p", "gcc", &flags());
    assert!(g.nodes[0].dirty && g.nodes[1].dirty && g.nodes[2].dirty);
    let work = plan_build(&g).unwrap();
    assert_eq!(work, vec![0, 1]);
    assert_eq!(finish_build(&mut g, &mut c, "/p", "gcc", &flags(), &work, false), Ok(true));
}

#[test]
fn unchanged_second_build_does_nothing() {
    let mut c = BuildCache::empty(0);
    let mut g = project("hx");
    prepare_run(&mut g, &mut c, "/p", "gcc", &flags());
    let work = plan_build(&g).unwrap();
    assert_eq!(finish_build(&mut g, &mut c, "/p", "gcc", &flags(), &work, false), Ok(true));

    let mut g = project("hx");
    prepare_run(&mut g, &mut c, "/p", "gcc", &flags());
    assert!(g.nodes.iter().all(|n| !n.dirty));
    assert!(g.topo_sort_dirty().is_empty());
    assert_eq!(plan_build(&g), None);
}

#[test]
fn empty_batch_reports_no_link() {
    let mut c = BuildCache::empty(0);
    let mut g = project("hx");
    prepare_run(&mut g, &mut c, "/p", "gcc", &flags());
    assert_eq!(finish_build(&mut g, &mut c, "/p", "gcc", &flags(), &vec![], false), Ok(false));
    assert_eq!(c.files.len(), 3);
}

#[test]
fn flag_change_invalidates_clean_tree() {
    let mut c = BuildCache::empty(0);
    let mut g = project("hx");
    prepare_run(&mut g, &mut c, "/p", "gcc", &flags());
    let work = plan_build(&g).unwrap();
    finish_build(&mut g, &mut c, "/p", "gcc", &flags(), &work, false).unwrap();

    let mut g = project("hx");
    prepare_run(&mut g, &mut c, "/p", "gcc", &vec!["-O3".to_string()]);
    assert!(g.nodes.iter().all(|n| n.dirty));
}

#[test]
fn pruning_happens_before_a_run() {
    let mut c = BuildCache::empty(0);
    let mut g = project("hx");
    prepare_run(&mut g, &mut c, "/p", "gcc", &flags());
    finish_build(&mut g, &mut c, "/p", "gcc", &flags(), &vec![0, 1], false).unwrap();
    let mut g = BuildGraph::new();
    g.scan(&vec![found("/p/a.c")]);
    g.nodes[0].refresh("ha".to_string(), 1);
    prepare_run(&mut g, &mut c, "/p", "gcc", &flags());
    assert_eq!(c.files.len(), 1);
    assert_eq!(c.files[0].key, "a.c");
}

#[test]
fn failed_batch_keeps_previous_configuration() {
    let mut c = BuildCache::empty(0);
    let mut g = project("hx");
    prepare_run(&mut g, &mut c, "/p", "gcc", &flags());
    let work = plan_build(&g).unwrap();
    finish_build(&mut g, &mut c, "/p", "gcc", &flags(), &work, false).unwrap();
    assert!(c.config_matches("gcc", &flags()));

    let release = vec!["-O3".to_string()];
    let mut g = project("hx");
    prepare_run(&mut g, &mut c, "/p", "gcc", &release);
    assert!(c.config_matches("gcc", &flags()));
    let work = plan_build(&g).unwrap();
    let r = finish_build(&mut g, &mut c, "/p", "gcc", &release, &work, true);
    assert_eq!(r, Err(BuildError::CompileFailed));
    assert!(c.config_matches("gcc", &flags()));
    assert!(!c.config_matches("gcc", &release));

    let mut g = project("hx");
    prepare_run(&mut g, &mut c, "/p", "gcc", &release);
    assert!(g.nodes.iter().all(|n| n.dirty));
}
