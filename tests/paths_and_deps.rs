use buildy::cache::BuildCache;
use buildy::deps::{parse_deps, split_words, trim_token};
use buildy::paths::{
    classify, file_stem, is_source, toolchain_of,
    FileKind, Toolchain,
};

#[test]
fn classify_recognised_extensions() {
    assert_eq!(classify("/p/a.c"), Some(FileKind::CSource));
    assert_eq!(classify("/p/a.cpp"), Some(FileKind::CppSource));
    assert_eq!(classify("/p/a.cc"), Some(FileKind::CppSource));
    assert_eq!(classify("/p/a.cxx"), Some(FileKind::CppSource));
    assert_eq!(classify("/p/a.h"), Some(FileKind::Header));
    assert_eq!(classify("/p/a.hpp"), Some(FileKind::Header));
}

#[test]
fn classify_rejects_other_names() {
    assert_eq!(classify("/p/Makefile"), None);
    assert_eq!(classify("/p/.c"), None);
    assert_eq!(classify("/p/dir.c/readme"), None);
    assert_eq!(classify("/p/a.rs"), None);
    assert_eq!(classify(""), None);
}

#[test]
fn sources_and_toolchains() {
    assert!(is_source("a.c"));
    assert!(is_source("a.cxx"));
    assert!(!is_source("a.h"));
    assert_eq!(toolchain_of("/p/a.c"), Toolchain::CCompiler);
    assert_eq!(toolchain_of("/p/a.cpp"), Toolchain::CppCompiler);
}

#[test]
fn stems() {
    assert_eq!(file_stem("/p/foo.c"), "foo");
    assert_eq!(file_stem("/p/foo.bar.c"), "foo.bar");
    assert_eq!(file_stem("/p/.hidden"), ".hidden");
    assert_eq!(file_stem("noext"), "noext");
}

#[test]
fn relative_keys_strip_the_root() {
    assert_eq!(BuildCache::make_relative("/r/src/a.c", "/r"), "src/a.c");
    assert_eq!(BuildCache::make_relative("/r/src/a.c", "/r/"), "src/a.c");
    assert_eq!(BuildCache::make_relative("/r", "/r"), "");
    assert_eq!(BuildCache::make_relative("/rx/a.c", "/r"), "/rx/a.c");
    assert_eq!(BuildCache::make_relative("/other/a.c", "/r"), "/other/a.c");
}

#[test]
fn absolute_paths_join_the_root() {
    assert_eq!(BuildCache::make_absolute("src/a.c", "/r"), "/r/src/a.c");
    assert_eq!(BuildCache::make_absolute("src/a.c", "/r/"), "/r/src/a.c");
    assert_eq!(BuildCache::make_absolute("/abs/a.c", "/r"), "/abs/a.c");
}

#[test]
fn words_split_on_whitespace() {
    assert_eq!(split_words("  a.o:  a.c\tx.h \n"), vec!["a.o:", "a.c", "x.h"]);
    assert!(split_words("   ").is_empty());
}

#[test]
fn markers_are_trimmed() {
    assert_eq!(trim_token("x.h\\"), "x.h");
    assert_eq!(trim_token("a.o:"), "a.o");
    assert_eq!(trim_token("\\:"), "");
}

#[test]
fn dependency_listing_is_parsed() {
    let text = "a.o: a.c x.h \\\n /usr/include/stdio.h <built-in> sub/y.h: \\\n";
    assert_eq!(parse_deps(text), vec!["a.c", "x.h", "sub/y.h"]);
}

#[test]
fn empty_listing_has_no_deps() {
    assert!(parse_deps("").is_empty());
    assert!(parse_deps("a.o:").is_empty());
}

#[test]
fn unicode_whitespace_separates_tokens() {
    let text = "a.o:\u{A0}a.c\u{2003}x.h\u{3000}y.h";
    assert_eq!(parse_deps(text), vec!["a.c", "x.h", "y.h"]);
    assert_eq!(split_words("a\u{85}b\u{2028}c"), vec!["a", "b", "c"]);
}
