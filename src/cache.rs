use vstd::prelude::*;
use crate::paths::{
    absolute_of, char_at, has_prefix, normalized_key, relative_key, starts_with_slash,
};
use crate::target::FileMeta;

verus! {

/// What the cache last knew of a file: its digest and its modification time.
#[derive(Debug)]
pub struct CachedEntry {
    pub hash: String,
    pub last_modified: i64,
}

/// One entry of the cache, under its project-relative key.
#[derive(Debug)]
pub struct CacheRecord {
    pub key: String,
    pub entry: CachedEntry,
}

/// The persisted state between builds: one record per relative key, the
/// compiler and flags of the last run, and when it was saved (milliseconds
/// since the Unix epoch).
#[derive(Debug)]
pub struct BuildCache {
    pub files: Vec<CacheRecord>,
    pub compiler: Option<String>,
    pub flags: Vec<String>,
    pub saved_at: i64,
}

/// No two records share a key.
pub open spec fn keys_unique(s: Seq<CacheRecord>) -> bool {
    forall|i: int, j: int|
        0 <= i < s.len() && 0 <= j < s.len() && i != j ==> s[i].key@ != s[j].key@
}

pub open spec fn has_key(s: Seq<CacheRecord>, k: Seq<char>) -> bool {
    exists|i: int| 0 <= i < s.len() && s[i].key@ == k
}

pub open spec fn entry_view(e: CachedEntry) -> (Seq<char>, i64) {
    (e.hash@, e.last_modified)
}

/// The records as a map from key to (hash, modification time).
pub open spec fn records_view(s: Seq<CacheRecord>) -> Map<Seq<char>, (Seq<char>, i64)> {
    Map::new(
        |k: Seq<char>| has_key(s, k),
        |k: Seq<char>|
            {
                let i = choose|i: int| 0 <= i < s.len() && s[i].key@ == k;
                entry_view(s[i].entry)
            },
    )
}

pub open spec fn strings_view(v: Seq<String>) -> Seq<Seq<char>> {
    v.map_values(|s: String| s@)
}

proof fn lemma_lookup(s: Seq<CacheRecord>, i: int)
    requires
        keys_unique(s),
        0 <= i < s.len(),
    ensures
        records_view(s).contains_key(s[i].key@),
        records_view(s)[s[i].key@] == entry_view(s[i].entry),
{
    let k = s[i].key@;
    assert(has_key(s, k));
    let j = choose|j: int| 0 <= j < s.len() && s[j].key@ == k;
    assert(j == i);
}

/// The map built by storing the records one after another.
pub open spec fn records_fold(s: Seq<CacheRecord>) -> Map<Seq<char>, (Seq<char>, i64)>
    decreases s.len(),
{
    if s.len() == 0 {
        Map::empty()
    } else {
        records_fold(s.drop_last()).insert(s.last().key@, entry_view(s.last().entry))
    }
}

/// The map built by storing the records one after another, each under its
/// normalized key.
pub open spec fn normalized_fold(s: Seq<CacheRecord>, root: Seq<char>) -> Map<
    Seq<char>,
    (Seq<char>, i64),
>
    decreases s.len(),
{
    if s.len() == 0 {
        Map::empty()
    } else {
        normalized_fold(s.drop_last(), root).insert(
            normalized_key(s.last().key@, root),
            entry_view(s.last().entry),
        )
    }
}

/// With unique keys, storing the records in order gives the records' map.
proof fn lemma_fold_is_view(s: Seq<CacheRecord>)
    requires
        keys_unique(s),
    ensures
        records_fold(s) == records_view(s),
    decreases s.len(),
{
    if s.len() == 0 {
        assert(records_view(s) =~= Map::empty());
    } else {
        let t = s.drop_last();
        let n = s.len() - 1;
        assert(keys_unique(t));
        lemma_fold_is_view(t);
        let k = s.last().key@;
        let v = entry_view(s.last().entry);
        let m = records_view(t).insert(k, v);
        assert forall|q: Seq<char>|
            #[trigger] records_view(s).dom().contains(q) == m.dom().contains(q) && (records_view(
                s,
            ).dom().contains(q) ==> records_view(s)[q] == m[q]) by {
            if q == k {
                lemma_lookup(s, n);
            } else if has_key(s, q) {
                let j = choose|j: int| 0 <= j < s.len() && s[j].key@ == q;
                assert(t[j] == s[j]);
                lemma_lookup(s, j);
                lemma_lookup(t, j);
            } else if has_key(t, q) {
                let j = choose|j: int| 0 <= j < t.len() && t[j].key@ == q;
                assert(s[j] == t[j]);
            }
        }
        assert(records_view(s) =~= m);
    }
}

impl BuildCache {
    pub open spec fn view(&self) -> Map<Seq<char>, (Seq<char>, i64)> {
        records_view(self.files@)
    }

    pub open spec fn wf(&self) -> bool {
        keys_unique(self.files@)
    }

    /// An empty cache, stamped with `now` (milliseconds since the Unix epoch).
    pub fn empty(now: i64) -> (r: BuildCache)
        ensures
            r.wf(),
            r@ == Map::<Seq<char>, (Seq<char>, i64)>::empty(),
            r.files@.len() == 0,
            r.compiler is None,
            r.flags@.len() == 0,
            r.saved_at == now,
    {
        let r = BuildCache {
            files: Vec::new(),
            compiler: None,
            flags: Vec::new(),
            saved_at: now,
        };
        assert(r@ =~= Map::<Seq<char>, (Seq<char>, i64)>::empty());
        r
    }

    /// Index of the record under `key`, if there is one.
    pub fn find(&self, key: &str) -> (r: Option<usize>)
        ensures
            match r {
                Some(i) => i < self.files@.len() && self.files@[i as int].key@ == key@,
                None => !has_key(self.files@, key@),
            },
    {
        let mut i: usize = 0;
        while i < self.files.len()
            invariant
                i <= self.files@.len(),
                forall|j: int| 0 <= j < i ==> self.files@[j].key@ != key@,
            decreases self.files@.len() - i,
        {
            if self.files[i].key.as_str().unicode_len() == key.unicode_len() && str_eq(
                self.files[i].key.as_str(),
                key,
            ) {
                return Some(i);
            }
            i = i + 1;
        }
        None
    }

    /// Stores `entry` under `key`, replacing what was there.
    pub fn insert_entry(&mut self, key: String, entry: CachedEntry)
        requires
            old(self).wf(),
        ensures
            final(self).wf(),
            final(self)@ == old(self)@.insert(key@, entry_view(entry)),
            final(self).files@.len() <= old(self).files@.len() + 1,
            old(self)@.contains_key(key@) ==> final(self).files@.len() == old(self).files@.len(),
            final(self).compiler == old(self).compiler,
            final(self).flags == old(self).flags,
            final(self).saved_at == old(self).saved_at,
    {
        let ghost k = key@;
        let ghost v = entry_view(entry);
        let ghost old_files = self.files@;
        match self.find(key.as_str()) {
            Some(i) => {
                self.files[i].entry = entry;
                proof {
                    let s = self.files@;
                    assert(keys_unique(s));
                    let m = records_view(old_files).insert(k, v);
                    assert forall|q: Seq<char>|
                        #[trigger] records_view(s).dom().contains(q) == m.dom().contains(q)
                            && (records_view(s).dom().contains(q) ==> records_view(s)[q]
                            == m[q]) by {
                        if q == k {
                            lemma_lookup(s, i as int);
                        } else if has_key(s, q) {
                            let j = choose|j: int| 0 <= j < s.len() && s[j].key@ == q;
                            lemma_lookup(s, j);
                            lemma_lookup(old_files, j);
                        } else {
                            if has_key(old_files, q) {
                                let j = choose|j: int|
                                    0 <= j < old_files.len() && old_files[j].key@ == q;
                                assert(s[j].key@ == q);
                            }
                        }
                    }
                    assert(records_view(s) =~= records_view(old_files).insert(k, v));
                }
            },
            None => {
                self.files.push(CacheRecord { key, entry });
                proof {
                    let s = self.files@;
                    let n = old_files.len() as int;
                    assert(keys_unique(s));
                    let m = records_view(old_files).insert(k, v);
                    assert forall|q: Seq<char>|
                        #[trigger] records_view(s).dom().contains(q) == m.dom().contains(q)
                            && (records_view(s).dom().contains(q) ==> records_view(s)[q]
                            == m[q]) by {
                        if q == k {
                            lemma_lookup(s, n);
                        } else if has_key(s, q) {
                            let j = choose|j: int| 0 <= j < s.len() && s[j].key@ == q;
                            lemma_lookup(s, j);
                            lemma_lookup(old_files, j);
                        } else {
                            if has_key(old_files, q) {
                                let j = choose|j: int|
                                    0 <= j < old_files.len() && old_files[j].key@ == q;
                                assert(s[j].key@ == q);
                            }
                        }
                    }
                    assert(records_view(s) =~= records_view(old_files).insert(k, v));
                }
            },
        }
    }

    /// Keeps only the entries whose key is one of `keys`.
    pub fn retain_keys(&mut self, keys: &Vec<String>)
        requires
            old(self).wf(),
        ensures
            final(self).wf(),
            final(self)@ == old(self)@.restrict(strings_view(keys@).to_set()),
            final(self).compiler == old(self).compiler,
            final(self).flags == old(self).flags,
            final(self).saved_at == old(self).saved_at,
    {
        let mut old_files: Vec<CacheRecord> = Vec::new();
        std::mem::swap(&mut self.files, &mut old_files);
        let ghost os = old_files@;
        let ghost ks = strings_view(keys@).to_set();
        proof {
            lemma_fold_is_view(os);
            assert(self@ =~= Map::<Seq<char>, (Seq<char>, i64)>::empty());
            assert(os.subrange(0, 0) =~= Seq::<CacheRecord>::empty());
            assert(records_fold(os.subrange(0, 0)).restrict(ks) =~= Map::empty());
        }
        for i in 0..old_files.len()
            invariant
                os == old_files@,
                self.wf(),
                self@ == records_fold(os.subrange(0, i as int)).restrict(ks),
                ks == strings_view(keys@).to_set(),
                self.compiler == old(self).compiler,
                self.flags == old(self).flags,
                self.saved_at == old(self).saved_at,
        {
            let rec = &old_files[i];
            proof {
                assert(os.subrange(0, i + 1).drop_last() =~= os.subrange(0, i as int));
                assert(os.subrange(0, i + 1).last() == os[i as int]);
            }
            if contains_str(keys, rec.key.as_str()) {
                let entry = CachedEntry {
                    hash: rec.entry.hash.clone(),
                    last_modified: rec.entry.last_modified,
                };
                self.insert_entry(rec.key.clone(), entry);
                proof {
                    assert(self@ =~= records_fold(os.subrange(0, i + 1)).restrict(ks));
                }
            } else {
                proof {
                    assert(!ks.contains(rec.key@));
                    assert(self@ =~= records_fold(os.subrange(0, i + 1)).restrict(ks));
                }
            }
        }
        proof {
            assert(os.subrange(0, os.len() as int) =~= os);
        }
    }

    /// Rewrites every absolute key as relative to `root`; relative keys stay.
    /// Where two keys come to coincide, the later record wins.
    pub fn normalize_paths(&mut self, root: &str)
        requires
            old(self).wf(),
        ensures
            final(self).wf(),
            final(self)@ == normalized_fold(old(self).files@, root@),
            final(self).files@.len() <= old(self).files@.len(),
            final(self).compiler == old(self).compiler,
            final(self).flags == old(self).flags,
            final(self).saved_at == old(self).saved_at,
    {
        let mut old_files: Vec<CacheRecord> = Vec::new();
        std::mem::swap(&mut self.files, &mut old_files);
        let ghost os = old_files@;
        proof {
            assert(self@ =~= Map::<Seq<char>, (Seq<char>, i64)>::empty());
            assert(os.subrange(0, 0) =~= Seq::<CacheRecord>::empty());
        }
        for i in 0..old_files.len()
            invariant
                os == old_files@,
                self.wf(),
                self@ == normalized_fold(os.subrange(0, i as int), root@),
                self.files@.len() <= i,
                self.compiler == old(self).compiler,
                self.flags == old(self).flags,
                self.saved_at == old(self).saved_at,
        {
            let rec = &old_files[i];
            proof {
                assert(os.subrange(0, i + 1).drop_last() =~= os.subrange(0, i as int));
                assert(os.subrange(0, i + 1).last() == os[i as int]);
            }
            let key = BuildCache::normalize_key(rec.key.as_str(), root);
            let entry = CachedEntry {
                hash: rec.entry.hash.clone(),
                last_modified: rec.entry.last_modified,
            };
            self.insert_entry(key, entry);
        }
        proof {
            assert(os.subrange(0, os.len() as int) =~= os);
        }
    }

    /// Stamps the save time with `now` (milliseconds since the Unix epoch).
    pub fn mark_saved(&mut self, now: i64)
        ensures
            final(self).saved_at == now,
            final(self).files == old(self).files,
            final(self).compiler == old(self).compiler,
            final(self).flags == old(self).flags,
    {
        self.saved_at = now;
    }

    /// Records the configuration of the current run.
    pub fn set_config(&mut self, compiler: &str, flags: &Vec<String>)
        ensures
            final(self).files == old(self).files,
            final(self).saved_at == old(self).saved_at,
            final(self).compiler is Some,
            final(self).compiler->0@ == compiler@,
            strings_view(final(self).flags@) == strings_view(flags@),
    {
        self.compiler = Some(String::from_str(compiler));
        let mut f: Vec<String> = Vec::new();
        for i in 0..flags.len()
            invariant
                f@.len() == i,
                i <= flags@.len(),
                forall|k: int| 0 <= k < i ==> #[trigger] f@[k]@ == flags@[k]@,
        {
            f.push(flags[i].clone());
        }
        self.flags = f;
        assert(strings_view(self.flags@) =~= strings_view(flags@));
    }

    /// Records `meta`'s current hash and time under its key relative to `root`.
    pub fn update_file(&mut self, meta: &FileMeta, root: &str)
        requires
            old(self).wf(),
        ensures
            final(self).wf(),
            final(self)@ == old(self)@.insert(
                relative_key(meta.path@, root@),
                (meta.hash@, meta.last_modified),
            ),
            final(self).compiler == old(self).compiler,
            final(self).flags == old(self).flags,
            final(self).saved_at == old(self).saved_at,
    {
        let key = BuildCache::make_relative(meta.path.as_str(), root);
        let entry = CachedEntry { hash: meta.hash.clone(), last_modified: meta.last_modified };
        self.insert_entry(key, entry);
    }

    /// Whether the cache holds an entry for `meta`'s relative key whose hash
    /// equals `meta`'s current hash. Timestamps are not compared.
    pub fn file_matches(&self, meta: &FileMeta, root: &str) -> (r: bool)
        requires
            self.wf(),
        ensures
            r == cache_matches(self@, meta.path@, meta.hash@, root@),
    {
        let key = BuildCache::make_relative(meta.path.as_str(), root);
        match self.find(key.as_str()) {
            Some(i) => {
                proof {
                    lemma_lookup(self.files@, i as int);
                }
                str_eq_full(self.files[i].entry.hash.as_str(), meta.hash.as_str())
            },
            None => false,
        }
    }

    /// Whether the stored compiler and the ordered flags equal these.
    pub fn config_matches(&self, compiler: &str, flags: &Vec<String>) -> (r: bool)
        ensures
            r == config_equal(self.compiler, self.flags@, compiler@, flags@),
    {
        match &self.compiler {
            None => false,
            Some(c) => {
                if !str_eq_full(c.as_str(), compiler) {
                    return false;
                }
                if self.flags.len() != flags.len() {
                    assert(strings_view(self.flags@).len() != strings_view(flags@).len());
                    return false;
                }
                let mut i: usize = 0;
                while i < flags.len()
                    invariant
                        i <= flags@.len(),
                        self.flags@.len() == flags@.len(),
                        forall|j: int| 0 <= j < i ==> self.flags@[j]@ == flags@[j]@,
                    decreases flags@.len() - i,
                {
                    if !str_eq_full(self.flags[i].as_str(), flags[i].as_str()) {
                        assert(strings_view(self.flags@)[i as int] != strings_view(flags@)[i as int]);
                        return false;
                    }
                    i = i + 1;
                }
                assert(strings_view(self.flags@) =~= strings_view(flags@));
                true
            },
        }
    }
}

impl BuildCache {
    /// The cache key of `path` relative to the project root.
    pub fn make_relative(path: &str, root: &str) -> (r: String)
        ensures
            r@ == relative_key(path@, root@),
    {
        let plen = path.unicode_len();
        let rlen = root.unicode_len();
        if rlen == 0 || rlen > plen || !has_prefix(path, root) {
            return String::from_str(path);
        }
        if plen == rlen {
            return String::new();
        }
        if char_at(root, rlen - 1) == '/' {
            return String::from_str(path.substring_char(rlen, plen));
        }
        if char_at(path, rlen) == '/' {
            return String::from_str(path.substring_char(rlen + 1, plen));
        }
        String::from_str(path)
    }

    /// The absolute path of a stored key, joined under the project root.
    pub fn make_absolute(rel: &str, root: &str) -> (r: String)
        ensures
            r@ == absolute_of(rel@, root@),
    {
        let rlen = root.unicode_len();
        if starts_with_slash(rel) || rlen == 0 {
            return String::from_str(rel);
        }
        let mut s = String::from_str(root);
        if char_at(root, rlen - 1) != '/' {
            s.append("/");
            proof {
                reveal_strlit("/");
            }
        }
        s.append(rel);
        s
    }

    /// The key under which a loaded cache entry is kept.
    fn normalize_key(k: &str, root: &str) -> (r: String)
        ensures
            r@ == normalized_key(k@, root@),
    {
        if starts_with_slash(k) {
            BuildCache::make_relative(k, root)
        } else {
            String::from_str(k)
        }
    }
}

impl Default for BuildCache {
    /// An empty cache, stamped with the Unix epoch.
    fn default() -> (r: BuildCache)
        ensures
            r.wf(),
            r@ == Map::<Seq<char>, (Seq<char>, i64)>::empty(),
            r.compiler is None,
            r.flags@.len() == 0,
            r.saved_at == 0,
    {
        BuildCache::empty(0)
    }
}

impl BuildCache {
    /// The stored keys as absolute paths under `root`, in record order.
    pub fn iter_absolute_paths(&self, root: &str) -> (r: Vec<String>)
        ensures
            strings_view(r@) == self.files@.map_values(|rec: CacheRecord| absolute_of(rec.key@, root@)),
    {
        let mut r: Vec<String> = Vec::new();
        for i in 0..self.files.len()
            invariant
                r@.len() == i,
                i <= self.files@.len(),
                forall|k: int| 0 <= k < i ==> #[trigger] r@[k]@ == absolute_of(self.files@[k].key@, root@),
        {
            r.push(BuildCache::make_absolute(self.files[i].key.as_str(), root));
        }
        assert(strings_view(r@) =~= self.files@.map_values(|rec: CacheRecord| absolute_of(rec.key@, root@)));
        r
    }
}

/// Whether `view` holds, under the key of `path`, the hash `hash`.
pub open spec fn cache_matches(
    view: Map<Seq<char>, (Seq<char>, i64)>,
    path: Seq<char>,
    hash: Seq<char>,
    root: Seq<char>,
) -> bool {
    let k = relative_key(path, root);
    view.contains_key(k) && view[k].0 == hash
}

/// Whether a stored configuration equals the current one.
pub open spec fn config_equal(
    stored_compiler: Option<String>,
    stored_flags: Seq<String>,
    compiler: Seq<char>,
    flags: Seq<String>,
) -> bool {
    stored_compiler is Some && stored_compiler->0@ == compiler && strings_view(stored_flags)
        == strings_view(flags)
}

/// Character-wise equality of two strings of the same length.
fn str_eq(a: &str, b: &str) -> (r: bool)
    requires
        a@.len() == b@.len(),
    ensures
        r == (a@ == b@),
{
    let n = a.unicode_len();
    let mut i: usize = 0;
    while i < n
        invariant
            n == a@.len(),
            a@.len() == b@.len(),
            i <= n,
            forall|j: int| 0 <= j < i ==> a@[j] == b@[j],
        decreases n - i,
    {
        if a.get_char(i) != b.get_char(i) {
            return false;
        }
        i = i + 1;
    }
    assert(a@ =~= b@);
    true
}

/// Whether `v` holds a string equal to `s`.
pub fn contains_str(v: &Vec<String>, s: &str) -> (r: bool)
    ensures
        r == strings_view(v@).contains(s@),
{
    let mut i: usize = 0;
    while i < v.len()
        invariant
            i <= v@.len(),
            forall|k: int| 0 <= k < i ==> #[trigger] v@[k]@ != s@,
        decreases v@.len() - i,
    {
        if str_eq_full(v[i].as_str(), s) {
            assert(strings_view(v@)[i as int] == s@);
            return true;
        }
        i = i + 1;
    }
    proof {
        if strings_view(v@).contains(s@) {
            let k = choose|k: int| 0 <= k < v@.len() && strings_view(v@)[k] == s@;
            assert(v@[k]@ == s@);
        }
    }
    false
}

/// Equality of two strings.
pub fn str_eq_full(a: &str, b: &str) -> (r: bool)
    ensures
        r == (a@ == b@),
{
    a.unicode_len() == b.unicode_len() && str_eq(a, b)
}

} // verus!

verus! {

/// Cache portability: normalizing a loaded cache keeps exactly one entry
/// per normalized key (the records stay unique by `wf`), none is lost and
/// none appears from nowhere: the keys after are the normalized keys before.
pub proof fn normalization_keeps_every_key(s: Seq<CacheRecord>, root: Seq<char>, k: Seq<char>)
    ensures
        normalized_fold(s, root).contains_key(k) <==> exists|i: int|
            0 <= i < s.len() && #[trigger] normalized_key(s[i].key@, root) == k,
    decreases s.len(),
{
    if s.len() > 0 {
        let t = s.drop_last();
        normalization_keeps_every_key(t, root, k);
        if exists|i: int| 0 <= i < t.len() && #[trigger] normalized_key(t[i].key@, root) == k {
            let i = choose|i: int| 0 <= i < t.len() && #[trigger] normalized_key(t[i].key@, root) == k;
            assert(s[i] == t[i]);
        }
        if exists|i: int| 0 <= i < s.len() && #[trigger] normalized_key(s[i].key@, root) == k {
            let i = choose|i: int| 0 <= i < s.len() && #[trigger] normalized_key(s[i].key@, root) == k;
            if i < t.len() {
                assert(s[i] == t[i]);
            }
        }
    }
}

/// An absolute key below an absolute root loses the root and its separator.
pub proof fn normalized_key_strips_root(root: Seq<char>, rest: Seq<char>)
    requires
        root.len() > 0,
        root[0] == '/',
        root.last() != '/',
    ensures
        normalized_key(root + seq!['/'] + rest, root) == rest,
{
    let p = root + seq!['/'] + rest;
    assert(p.subrange(0, root.len() as int) =~= root);
    assert(p[root.len() as int] == '/');
    assert(p.subrange(root.len() as int + 1, p.len() as int) =~= rest);
}

} // verus!
