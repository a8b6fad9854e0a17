use vstd::prelude::*;

verus! {

/// What a tracked file is, decided by its extension.
#[derive(Clone, Copy, Debug, PartialEq, Eq, Structural)]
pub enum FileKind {
    CSource,
    CppSource,
    Header,
}

/// The toolchain driver used for a compile or a link.
#[derive(Clone, Copy, Debug, PartialEq, Eq, Structural)]
pub enum Toolchain {
    CCompiler,
    CppCompiler,
}

/// Index of the first character of the final path component.
pub open spec fn name_start(p: Seq<char>) -> int
    decreases p.len(),
{
    if p.len() == 0 {
        0
    } else if p.last() == '/' {
        p.len() as int
    } else {
        name_start(p.drop_last())
    }
}

/// The final component of a path.
pub open spec fn file_name(p: Seq<char>) -> Seq<char> {
    p.subrange(name_start(p), p.len() as int)
}

/// Index of the last '.' in `n`, or -1 when there is none.
pub open spec fn last_dot(n: Seq<char>) -> int
    decreases n.len(),
{
    if n.len() == 0 {
        -1
    } else if n.last() == '.' {
        n.len() - 1
    } else {
        last_dot(n.drop_last())
    }
}

/// The extension of a path: what follows the last '.' of its final
/// component, when that '.' is not the component's first character.
pub open spec fn extension_of(p: Seq<char>) -> Option<Seq<char>> {
    let n = file_name(p);
    let d = last_dot(n);
    if d > 0 {
        Some(n.subrange(d + 1, n.len() as int))
    } else {
        None
    }
}

/// The final component without its extension.
pub open spec fn stem_of(p: Seq<char>) -> Seq<char> {
    let n = file_name(p);
    let d = last_dot(n);
    if d > 0 {
        n.subrange(0, d)
    } else {
        n
    }
}

pub open spec fn kind_of_ext(e: Seq<char>) -> Option<FileKind> {
    if e == seq!['c'] {
        Some(FileKind::CSource)
    } else if e == seq!['c', 'p', 'p'] || e == seq!['c', 'c'] || e == seq!['c', 'x', 'x'] {
        Some(FileKind::CppSource)
    } else if e == seq!['h'] || e == seq!['h', 'p', 'p'] {
        Some(FileKind::Header)
    } else {
        None
    }
}

/// The kind of a path, if its extension is one of the recognised ones.
pub open spec fn kind_of(p: Seq<char>) -> Option<FileKind> {
    match extension_of(p) {
        Some(e) => kind_of_ext(e),
        None => None,
    }
}

pub open spec fn is_source_kind(k: Option<FileKind>) -> bool {
    k == Some(FileKind::CSource) || k == Some(FileKind::CppSource)
}

/// A compilable source (not a header).
pub open spec fn is_source_path(p: Seq<char>) -> bool {
    is_source_kind(kind_of(p))
}

/// A source of the C++ family.
pub open spec fn is_cpp_path(p: Seq<char>) -> bool {
    kind_of(p) == Some(FileKind::CppSource)
}

/// The compiler for a source: the C driver for `.c`, the C++ driver otherwise.
pub open spec fn toolchain_for(p: Seq<char>) -> Toolchain {
    if kind_of(p) == Some(FileKind::CSource) {
        Toolchain::CCompiler
    } else {
        Toolchain::CppCompiler
    }
}

pub open spec fn is_absolute(p: Seq<char>) -> bool {
    p.len() > 0 && p[0] == '/'
}

/// The key of `p` relative to `root`: the part of `p` below `root` when
/// `root` is a whole-component prefix of `p`, else `p` itself.
pub open spec fn relative_key(p: Seq<char>, root: Seq<char>) -> Seq<char> {
    if root.len() == 0 || root.len() > p.len() || p.subrange(0, root.len() as int) != root {
        p
    } else if p.len() == root.len() {
        Seq::empty()
    } else if root.last() == '/' {
        p.subrange(root.len() as int, p.len() as int)
    } else if p[root.len() as int] == '/' {
        p.subrange(root.len() as int + 1, p.len() as int)
    } else {
        p
    }
}

/// `rel` joined under `root`; an absolute `rel` stands as it is.
pub open spec fn absolute_of(rel: Seq<char>, root: Seq<char>) -> Seq<char> {
    if is_absolute(rel) || root.len() == 0 {
        rel
    } else if root.last() == '/' {
        root + rel
    } else {
        root + seq!['/'] + rel
    }
}

/// A cache key as stored after loading: absolute keys are made relative.
pub open spec fn normalized_key(k: Seq<char>, root: Seq<char>) -> Seq<char> {
    if is_absolute(k) {
        relative_key(k, root)
    } else {
        k
    }
}

pub(crate) fn char_at(s: &str, i: usize) -> (c: char)
    requires
        i < s@.len(),
    ensures
        c == s@[i as int],
{
    s.get_char(i)
}

fn find_name_start(p: &str) -> (r: usize)
    ensures
        r as int == name_start(p@),
        r <= p@.len(),
{
    let len = p.unicode_len();
    let mut i: usize = len;
    assert(p@.subrange(0, len as int) =~= p@);
    while i > 0
        invariant
            i <= len,
            len == p@.len(),
            name_start(p@) == name_start(p@.subrange(0, i as int)),
        decreases i,
    {
        let sub = Ghost(p@.subrange(0, i as int));
        if char_at(p, i - 1) == '/' {
            assert(sub@.last() == '/');
            return i;
        }
        assert(sub@.drop_last() =~= p@.subrange(0, i - 1));
        i = i - 1;
    }
    assert(p@.subrange(0, 0) =~= Seq::<char>::empty());
    0
}

proof fn lemma_name_start_bounds(p: Seq<char>)
    ensures
        0 <= name_start(p) <= p.len(),
        name_start(p) > 0 ==> p[name_start(p) - 1] == '/',
        forall|j: int| name_start(p) <= j < p.len() ==> p[j] != '/',
    decreases p.len(),
{
    if p.len() > 0 && p.last() != '/' {
        lemma_name_start_bounds(p.drop_last());
        assert(forall|j: int| 0 <= j < p.len() - 1 ==> p.drop_last()[j] == p[j]);
    }
}

/// Start of the final component and position of its last '.', if any.
fn split_name(p: &str) -> (r: (usize, Option<usize>))
    ensures
        r.0 as int == name_start(p@),
        r.0 <= p@.len(),
        match r.1 {
            Some(d) => r.0 <= d < p@.len() && d - r.0 == last_dot(file_name(p@)),
            None => last_dot(file_name(p@)) == -1,
        },
{
    let start = find_name_start(p);
    proof {
        lemma_name_start_bounds(p@);
    }
    let len = p.unicode_len();
    let ghost n = file_name(p@);
    let mut i: usize = len;
    assert(n.subrange(0, len - start) =~= n);
    while i > start
        invariant
            start <= i <= len,
            len == p@.len(),
            start as int == name_start(p@),
            n == p@.subrange(start as int, len as int),
            last_dot(n) == last_dot(n.subrange(0, i - start)),
        decreases i,
    {
        let ghost sub = n.subrange(0, i - start);
        if char_at(p, i - 1) == '.' {
            assert(sub.last() == '.');
            return (start, Some(i - 1));
        }
        assert(sub.drop_last() =~= n.subrange(0, i - 1 - start));
        i = i - 1;
    }
    assert(n.subrange(0, 0) =~= Seq::<char>::empty());
    (start, None)
}

/// Whether the characters of `s` from `from` on are exactly `lit`.
fn tail_is(s: &str, from: usize, lit: &Vec<char>) -> (r: bool)
    requires
        from <= s@.len(),
    ensures
        r == (s@.subrange(from as int, s@.len() as int) == lit@),
{
    let len = s.unicode_len();
    if len - from != lit.len() {
        return false;
    }
    let mut i: usize = 0;
    while i < lit.len()
        invariant
            len == s@.len(),
            from <= len,
            len - from == lit@.len(),
            i <= lit@.len(),
            forall|j: int| 0 <= j < i ==> s@[from + j] == lit@[j],
        decreases lit@.len() - i,
    {
        if char_at(s, from + i) != lit[i] {
            assert(s@.subrange(from as int, len as int)[i as int] != lit@[i as int]);
            return false;
        }
        i = i + 1;
    }
    assert(s@.subrange(from as int, len as int) =~= lit@);
    true
}

/// The kind of a path, from its extension.
pub fn classify(p: &str) -> (r: Option<FileKind>)
    ensures
        r == kind_of(p@),
{
    let (start, dot) = split_name(p);
    let _len = p.unicode_len();
    let ghost n = file_name(p@);
    match dot {
        None => None,
        Some(d) => {
            if d == start {
                return None;
            }
            proof {
                lemma_name_start_bounds(p@);
                assert(n.subrange(d - start + 1, n.len() as int) =~= p@.subrange(
                    d + 1,
                    p@.len() as int,
                ));
            }
            let e = d + 1;
            assert(extension_of(p@) == Some(p@.subrange(e as int, p@.len() as int)));
            let c = vec!['c'];
            let cpp = vec!['c', 'p', 'p'];
            let cc = vec!['c', 'c'];
            let cxx = vec!['c', 'x', 'x'];
            let h = vec!['h'];
            let hpp = vec!['h', 'p', 'p'];
            assert(c@ =~= seq!['c'] && cpp@ =~= seq!['c', 'p', 'p'] && cc@ =~= seq!['c', 'c']);
            assert(cxx@ =~= seq!['c', 'x', 'x'] && h@ =~= seq!['h'] && hpp@ =~= seq!['h', 'p', 'p']);
            if tail_is(p, e, &c) {
                Some(FileKind::CSource)
            } else if tail_is(p, e, &cpp) || tail_is(p, e, &cc) || tail_is(p, e, &cxx) {
                Some(FileKind::CppSource)
            } else if tail_is(p, e, &h) || tail_is(p, e, &hpp) {
                Some(FileKind::Header)
            } else {
                None
            }
        },
    }
}

/// Whether a path names a compilable source.
pub fn is_source(p: &str) -> (r: bool)
    ensures
        r == is_source_path(p@),
{
    match classify(p) {
        Some(FileKind::CSource) | Some(FileKind::CppSource) => true,
        _ => false,
    }
}

/// The driver that compiles a source.
pub fn toolchain_of(p: &str) -> (r: Toolchain)
    ensures
        r == toolchain_for(p@),
{
    match classify(p) {
        Some(FileKind::CSource) => Toolchain::CCompiler,
        _ => Toolchain::CppCompiler,
    }
}

/// The final component of a path without its extension.
pub fn file_stem(p: &str) -> (r: String)
    ensures
        r@ == stem_of(p@),
{
    let (start, dot) = split_name(p);
    let len = p.unicode_len();
    proof {
        lemma_name_start_bounds(p@);
    }
    let ghost n = file_name(p@);
    match dot {
        Some(d) => {
            if d > start {
                let s = p.substring_char(start, d);
                assert(s@ =~= n.subrange(0, d - start));
                return String::from_str(s);
            }
        },
        None => {},
    }
    let s = p.substring_char(start, len);
    String::from_str(s)
}

pub(crate) fn starts_with_slash(p: &str) -> (r: bool)
    ensures
        r == is_absolute(p@),
{
    p.unicode_len() > 0 && char_at(p, 0) == '/'
}

/// Whether `root` is a prefix of `p`, character for character.
pub(crate) fn has_prefix(p: &str, root: &str) -> (r: bool)
    requires
        root@.len() <= p@.len(),
    ensures
        r == (p@.subrange(0, root@.len() as int) == root@),
{
    let n = root.unicode_len();
    let mut i: usize = 0;
    while i < n
        invariant
            n == root@.len(),
            n <= p@.len(),
            i <= n,
            forall|j: int| 0 <= j < i ==> p@[j] == root@[j],
        decreases n - i,
    {
        if char_at(p, i) != char_at(root, i) {
            assert(p@.subrange(0, n as int)[i as int] != root@[i as int]);
            return false;
        }
        i = i + 1;
    }
    assert(p@.subrange(0, n as int) =~= root@);
    true
}

} // verus!
