//! The render cache: a key-value store of rendered diagram pages.
//!
//! The cache maps a relative diagram path and a page name to rendered
//! content stamped with the time it was stored. An entry is live only while
//! its stamp is at least the diagram source's modification time; a stale
//! entry is removed on detection and reported absent. Absolute diagram
//! paths are rejected, so a cache stays portable across cache roots.
//!
//! The store itself is the in-memory value this module verifies; every
//! mutation is also recorded in a journal of file operations (one file per
//! entry under the cache root), which the unverified shell drains and
//! mirrors to disk.

use vstd::prelude::*;

use crate::paths::{BookPath, PathModel, join_spec, parse_spec};

verus! {

/// Errors of the cache operations.
#[derive(Debug, PartialEq, Eq, Structural, Clone, Copy)]
pub enum CacheError {
    /// The diagram path was absolute, which the cache rejects.
    InvalidPath,
    /// No live entry: the caller must render and populate.
    Miss,
}

/// A file operation the shell must mirror to disk, with the full on-disk
/// path of the entry under the cache root.
pub enum CacheOp {
    /// Write `content` to the file at `path`, creating directories as
    /// needed.
    Write { path: BookPath, content: String },
    /// Remove the file at `path` if it exists.
    Remove { path: BookPath },
}

/// The mathematical value of one journal operation.
pub struct OpModel {
    pub write: bool,
    pub path: PathModel,
    pub content: Seq<char>,
}

pub open spec fn op_model(op: CacheOp) -> OpModel {
    match op {
        CacheOp::Write { path, content } => OpModel {
            write: true,
            path: path@,
            content: content@,
        },
        CacheOp::Remove { path } => OpModel { write: false, path: path@, content: Seq::empty() },
    }
}

pub open spec fn ops_model(ops: Seq<CacheOp>) -> Seq<OpModel> {
    Seq::new(ops.len(), |i: int| op_model(ops[i]))
}

/// The cache key of a diagram path and page name.
pub open spec fn key_of(path: PathModel, page: Seq<char>) -> PathModel {
    join_spec(path, parse_spec(page))
}

/// What `get` does to a cache `m`: a missing key is a miss; an entry older
/// than the source is removed and reported a miss; a live entry is returned.
pub open spec fn get_model(
    m: Map<PathModel, (u64, Seq<char>)>,
    k: PathModel,
    source_mtime: u64,
) -> (Map<PathModel, (u64, Seq<char>)>, Option<Seq<char>>) {
    if !m.contains_key(k) {
        (m, None)
    } else if source_mtime > m[k].0 {
        (m.remove(k), None)
    } else {
        (m, Some(m[k].1))
    }
}

/// What `put` does to a cache `m`: the entry is stored, replacing any older
/// one under the same key.
pub open spec fn put_model(
    m: Map<PathModel, (u64, Seq<char>)>,
    k: PathModel,
    now: u64,
    v: Seq<char>,
) -> Map<PathModel, (u64, Seq<char>)> {
    m.insert(k, (now, v))
}

/// Populating the cache twice with the same key and the same content leaves
/// exactly what populating it once (at the later time) leaves.
pub proof fn lemma_put_idempotent(
    m: Map<PathModel, (u64, Seq<char>)>,
    k: PathModel,
    v: Seq<char>,
    t1: u64,
    t2: u64,
)
    ensures
        put_model(put_model(m, k, t1, v), k, t2, v) == put_model(m, k, t2, v),
{
    assert(put_model(put_model(m, k, t1, v), k, t2, v) =~= put_model(m, k, t2, v));
}

/// `put(k, v)` followed by `get(k)` returns `v` and leaves the cache as it
/// stands, as long as the source is not newer than the store time.
pub proof fn lemma_put_get_roundtrip(
    m: Map<PathModel, (u64, Seq<char>)>,
    k: PathModel,
    v: Seq<char>,
    now: u64,
    source_mtime: u64,
)
    requires
        source_mtime <= now,
    ensures
        get_model(put_model(m, k, now, v), k, source_mtime).0 == put_model(m, k, now, v),
        get_model(put_model(m, k, now, v), k, source_mtime).1 == Some(v),
{
}

/// An entry whose source has been modified after it was stored is removed
/// by `get` and reported absent.
pub proof fn lemma_stale_entry_removed(
    m: Map<PathModel, (u64, Seq<char>)>,
    k: PathModel,
    source_mtime: u64,
)
    requires
        m.contains_key(k),
        source_mtime > m[k].0,
    ensures
        get_model(m, k, source_mtime).0 == m.remove(k),
        !get_model(m, k, source_mtime).0.contains_key(k),
        get_model(m, k, source_mtime).1 is None,
{
}

/// One stored entry: its key, its store time and its rendered content.
struct CacheEntry {
    key: BookPath,
    mtime: u64,
    content: String,
}

/// The store as a map, later entries overriding earlier ones.
spec fn store_map(entries: Seq<CacheEntry>) -> Map<PathModel, (u64, Seq<char>)>
    decreases entries.len(),
{
    if entries.len() == 0 {
        Map::empty()
    } else {
        store_map(entries.drop_last()).insert(
            entries.last().key@,
            (entries.last().mtime, entries.last().content@),
        )
    }
}

spec fn keys_distinct(entries: Seq<CacheEntry>) -> bool {
    forall|i: int, j: int|
        0 <= i < j < entries.len() ==> (#[trigger] entries[i].key@) != (#[trigger] entries[j].key@)
}

/// A key under none of the entries is not in the store.
proof fn lemma_store_absent(entries: Seq<CacheEntry>, k: PathModel)
    requires
        forall|i: int| 0 <= i < entries.len() ==> (#[trigger] entries[i].key@) != k,
    ensures
        !store_map(entries).contains_key(k),
    decreases entries.len(),
{
    if entries.len() > 0 {
        lemma_store_absent(entries.drop_last(), k);
        assert(entries.last() == entries[entries.len() - 1]);
    }
}

/// The entry at `i` is what the store holds under its key.
proof fn lemma_store_found(entries: Seq<CacheEntry>, i: int)
    requires
        keys_distinct(entries),
        0 <= i < entries.len(),
    ensures
        store_map(entries).contains_key(entries[i].key@),
        store_map(entries)[entries[i].key@] == (entries[i].mtime, entries[i].content@),
    decreases entries.len(),
{
    if i == entries.len() - 1 {
        assert(entries.last() == entries[i]);
    } else {
        assert(keys_distinct(entries.drop_last()));
        assert(entries.drop_last()[i] == entries[i]);
        lemma_store_found(entries.drop_last(), i);
        assert(entries.last() == entries[entries.len() - 1]);
        assert(entries[entries.len() - 1].key@ != entries[i].key@);
    }
}

/// Removing the entry at `i` removes its key from the store.
proof fn lemma_store_remove(entries: Seq<CacheEntry>, i: int)
    requires
        keys_distinct(entries),
        0 <= i < entries.len(),
    ensures
        store_map(entries.remove(i)) == store_map(entries).remove(entries[i].key@),
        keys_distinct(entries.remove(i)),
        forall|j: int|
            0 <= j < entries.remove(i).len() ==> (#[trigger] entries.remove(i)[j].key@)
                != entries[i].key@,
    decreases entries.len(),
{
    let k = entries[i].key@;
    let r = entries.remove(i);
    assert forall|j: int| 0 <= j < r.len() implies (#[trigger] r[j].key@) != k by {
        if j < i {
            assert(r[j] == entries[j]);
        } else {
            assert(r[j] == entries[j + 1]);
        }
    }
    assert forall|a: int, b: int| 0 <= a < b < r.len() implies (#[trigger] r[a].key@) != (
    #[trigger] r[b].key@) by {
        if b < i {
            assert(r[a] == entries[a] && r[b] == entries[b]);
        } else if a < i {
            assert(r[a] == entries[a] && r[b] == entries[b + 1]);
        } else {
            assert(r[a] == entries[a + 1] && r[b] == entries[b + 1]);
        }
    }
    if i == entries.len() - 1 {
        assert(r =~= entries.drop_last());
        assert(entries.last() == entries[i]);
        assert forall|j: int| 0 <= j < entries.drop_last().len() implies (#[trigger] entries.drop_last()[j].key@)
            != k by {
            assert(entries.drop_last()[j] == entries[j]);
        }
        lemma_store_absent(entries.drop_last(), k);
        assert(store_map(entries.drop_last()) =~= store_map(entries.drop_last()).remove(k));
        assert(store_map(entries).remove(k) =~= store_map(entries.drop_last()).remove(k));
    } else {
        assert(keys_distinct(entries.drop_last()));
        assert(entries.drop_last()[i] == entries[i]);
        lemma_store_remove(entries.drop_last(), i);
        assert(r.drop_last() =~= entries.drop_last().remove(i));
        assert(r.last() == entries.last());
        assert(store_map(r) == store_map(entries.drop_last().remove(i)).insert(
            entries.last().key@,
            (entries.last().mtime, entries.last().content@),
        ));
        assert(entries.last() == entries[entries.len() - 1]);
        assert(entries.last().key@ != k);
        assert(store_map(entries).remove(k) =~= store_map(entries.drop_last()).remove(k).insert(
            entries.last().key@,
            (entries.last().mtime, entries.last().content@),
        ));
    }
}

/// Appending an entry whose key no other entry holds stores it.
proof fn lemma_store_push(entries: Seq<CacheEntry>, e: CacheEntry)
    requires
        keys_distinct(entries),
        forall|j: int| 0 <= j < entries.len() ==> (#[trigger] entries[j].key@) != e.key@,
    ensures
        store_map(entries.push(e)) == store_map(entries).insert(e.key@, (e.mtime, e.content@)),
        keys_distinct(entries.push(e)),
{
    let r = entries.push(e);
    assert(r.drop_last() =~= entries);
    assert(r.last() == e);
    assert forall|a: int, b: int| 0 <= a < b < r.len() implies (#[trigger] r[a].key@) != (
    #[trigger] r[b].key@) by {
        if b < entries.len() {
            assert(r[a] == entries[a] && r[b] == entries[b]);
        } else {
            assert(r[a] == entries[a] && r[b] == e);
        }
    }
}

/// The render cache: the verified in-memory store of rendered pages, the
/// cache root its files live under, and the journal of file operations the
/// shell still has to mirror.
pub struct DrawIoCache {
    root_dir: BookPath,
    entries: Vec<CacheEntry>,
    journal: Vec<CacheOp>,
}

impl View for DrawIoCache {
    type V = Map<PathModel, (u64, Seq<char>)>;

    closed spec fn view(&self) -> Map<PathModel, (u64, Seq<char>)> {
        store_map(self.entries@)
    }
}

impl DrawIoCache {
    /// The store's keys are distinct; every operation keeps this.
    pub closed spec fn wf(&self) -> bool {
        keys_distinct(self.entries@)
    }

    /// The cache root all entry files live under.
    pub closed spec fn spec_root(&self) -> PathModel {
        self.root_dir@
    }

    /// The file operations not yet mirrored to disk.
    pub closed spec fn spec_journal(&self) -> Seq<OpModel> {
        ops_model(self.journal@)
    }

    /// An empty cache rooted at `root_dir`.
    pub fn new(root_dir: BookPath) -> (c: DrawIoCache)
        ensures
            c.wf(),
            c@ == Map::<PathModel, (u64, Seq<char>)>::empty(),
            c.spec_root() == root_dir@,
            c.spec_journal() == Seq::<OpModel>::empty(),
    {
        let c = DrawIoCache { root_dir, entries: Vec::new(), journal: Vec::new() };
        proof {
            assert(c.spec_journal() =~= Seq::<OpModel>::empty());
        }
        c
    }

    /// The on-disk path of the entry for `path` and `page`: the cache root,
    /// then the diagram path, then the page name. An absolute diagram path
    /// is rejected.
    pub fn get_diagram_cache_path(&self, path: &BookPath, page: &str) -> (r: Result<
        BookPath,
        CacheError,
    >)
        ensures
            match r {
                Ok(p) => !path@.absolute && p@ == join_spec(
                    join_spec(self.spec_root(), path@),
                    parse_spec(page@),
                ),
                Err(e) => path@.absolute && e == CacheError::InvalidPath,
            },
    {
        if path.is_absolute() {
            return Err(CacheError::InvalidPath);
        }
        Ok(self.root_dir.join(path).join(&BookPath::parse(page)))
    }

    /// The index of the entry for `key`, if one is stored.
    fn find_entry(&self, key: &BookPath) -> (r: Option<usize>)
        requires
            self.wf(),
        ensures
            match r {
                Some(i) => i < self.entries@.len() && self.entries@[i as int].key@ == key@
                    && self@.contains_key(key@) && self@[key@] == (
                self.entries@[i as int].mtime,
                self.entries@[i as int].content@,
                ),
                None => !self@.contains_key(key@) && forall|j: int|
                    0 <= j < self.entries@.len() ==> (#[trigger] self.entries@[j].key@) != key@,
            },
    {
        let mut i: usize = 0;
        while i < self.entries.len()
            invariant
                self.wf(),
                i <= self.entries@.len(),
                forall|j: int| 0 <= j < i ==> (#[trigger] self.entries@[j].key@) != key@,
            decreases self.entries@.len() - i,
        {
            if self.entries[i].key == *key {
                proof {
                    lemma_store_found(self.entries@, i as int);
                }
                return Some(i);
            }
            i += 1;
        }
        proof {
            lemma_store_absent(self.entries@, key@);
        }
        None
    }

    /// The time the entry for `path` and `page` was stored, if one is.
    pub fn get_time(&self, path: &BookPath, page: &str) -> (r: Option<u64>)
        requires
            self.wf(),
        ensures
            match r {
                Some(t) => !path@.absolute && self@.contains_key(key_of(path@, page@))
                    && self@[key_of(path@, page@)].0 == t,
                None => path@.absolute || !self@.contains_key(key_of(path@, page@)),
            },
    {
        if path.is_absolute() {
            return None;
        }
        let key = path.join(&BookPath::parse(page));
        match self.find_entry(&key) {
            Some(i) => Some(self.entries[i].mtime),
            None => None,
        }
    }

    /// Looks the entry for `path` and `page` up, given the diagram source's
    /// current modification time. An absolute path is rejected; an entry
    /// older than the source is removed (the removal journalled) and a miss
    /// reported; a live entry's content is returned.
    pub fn get_diagram(&mut self, path: &BookPath, page: &str, source_mtime: u64) -> (r: Result<
        String,
        CacheError,
    >)
        requires
            old(self).wf(),
        ensures
            final(self).wf(),
            final(self).spec_root() == old(self).spec_root(),
            path@.absolute ==> r == Err::<String, CacheError>(CacheError::InvalidPath)
                && final(self)@ == old(self)@ && final(self).spec_journal() == old(
                self,
            ).spec_journal(),
            !path@.absolute ==> {
                let k = key_of(path@, page@);
                let after = get_model(old(self)@, k, source_mtime);
                &&& final(self)@ == after.0
                &&& match r {
                    Ok(c) => after.1 == Some(c@),
                    Err(e) => after.1 is None && e == CacheError::Miss,
                }
                &&& if old(self)@.contains_key(k) && source_mtime > old(self)@[k].0 {
                    final(self).spec_journal() == old(self).spec_journal().push(
                        OpModel {
                            write: false,
                            path: join_spec(
                                join_spec(old(self).spec_root(), path@),
                                parse_spec(page@),
                            ),
                            content: Seq::<char>::empty(),
                        },
                    )
                } else {
                    final(self).spec_journal() == old(self).spec_journal()
                }
            },
    {
        if path.is_absolute() {
            return Err(CacheError::InvalidPath);
        }
        let key = path.join(&BookPath::parse(page));
        match self.find_entry(&key) {
            Some(i) => {
                if source_mtime > self.entries[i].mtime {
                    let file = self.root_dir.join(path).join(&BookPath::parse(page));
                    proof {
                        lemma_store_remove(self.entries@, i as int);
                    }
                    self.entries.remove(i);
                    let ghost prej = self.journal@;
                    self.journal.push(CacheOp::Remove { path: file });
                    proof {
                        assert(self.spec_journal() =~= ops_model(prej).push(
                            op_model(self.journal@.last()),
                        ));
                    }
                    Err(CacheError::Miss)
                } else {
                    Ok(self.entries[i].content.clone())
                }
            },
            None => Err(CacheError::Miss),
        }
    }

    /// Stores rendered content for `path` and `page` at time `now`,
    /// overwriting any entry under the same key, and journals the write.
    /// An absolute path is rejected.
    pub fn add_diagram(&mut self, path: &BookPath, page: &str, content: &str, now: u64) -> (r:
        Result<(), CacheError>)
        requires
            old(self).wf(),
        ensures
            final(self).wf(),
            final(self).spec_root() == old(self).spec_root(),
            path@.absolute ==> r == Err::<(), CacheError>(CacheError::InvalidPath) && final(self)@
                == old(self)@ && final(self).spec_journal() == old(self).spec_journal(),
            !path@.absolute ==> r == Ok::<(), CacheError>(()) && final(self)@ == put_model(
                old(self)@,
                key_of(path@, page@),
                now,
                content@,
            ) && final(self).spec_journal() == old(self).spec_journal().push(
                OpModel {
                    write: true,
                    path: join_spec(join_spec(old(self).spec_root(), path@), parse_spec(page@)),
                    content: content@,
                },
            ),
    {
        if path.is_absolute() {
            return Err(CacheError::InvalidPath);
        }
        let key = path.join(&BookPath::parse(page));
        let file = self.root_dir.join(path).join(&BookPath::parse(page));
        match self.find_entry(&key) {
            Some(i) => {
                proof {
                    lemma_store_remove(self.entries@, i as int);
                }
                self.entries.remove(i);
            },
            None => {},
        }
        proof {
            assert(forall|j: int|
                0 <= j < self.entries@.len() ==> (#[trigger] self.entries@[j].key@) != key@);
        }
        let owned = String::from_str(content);
        let ghost pre = self.entries@;
        let e = CacheEntry { key, mtime: now, content: owned };
        proof {
            lemma_store_push(pre, e);
        }
        self.entries.push(e);
        let ghost prej = self.journal@;
        self.journal.push(CacheOp::Write { path: file, content: String::from_str(content) });
        proof {
            assert(self.spec_journal() =~= ops_model(prej).push(op_model(self.journal@.last())));
            assert(self@ =~= put_model(old(self)@, key_of(path@, page@), now, content@));
        }
        Ok(())
    }

    /// Removes the entry for `path` and `page` if one is stored, journalling
    /// the removal; a no-op otherwise. An absolute path is rejected.
    pub fn clear_diagram(&mut self, path: &BookPath, page: &str) -> (r: Result<(), CacheError>)
        requires
            old(self).wf(),
        ensures
            final(self).wf(),
            final(self).spec_root() == old(self).spec_root(),
            path@.absolute ==> r == Err::<(), CacheError>(CacheError::InvalidPath) && final(self)@
                == old(self)@ && final(self).spec_journal() == old(self).spec_journal(),
            !path@.absolute ==> {
                let k = key_of(path@, page@);
                &&& r == Ok::<(), CacheError>(())
                &&& final(self)@ == old(self)@.remove(k)
                &&& if old(self)@.contains_key(k) {
                    final(self).spec_journal() == old(self).spec_journal().push(
                        OpModel {
                            write: false,
                            path: join_spec(
                                join_spec(old(self).spec_root(), path@),
                                parse_spec(page@),
                            ),
                            content: Seq::<char>::empty(),
                        },
                    )
                } else {
                    final(self).spec_journal() == old(self).spec_journal()
                }
            },
    {
        if path.is_absolute() {
            return Err(CacheError::InvalidPath);
        }
        let key = path.join(&BookPath::parse(page));
        match self.find_entry(&key) {
            Some(i) => {
                let file = self.root_dir.join(path).join(&BookPath::parse(page));
                proof {
                    lemma_store_remove(self.entries@, i as int);
                }
                self.entries.remove(i);
                let ghost prej = self.journal@;
                self.journal.push(CacheOp::Remove { path: file });
                proof {
                    assert(self.spec_journal() =~= ops_model(prej).push(
                        op_model(self.journal@.last()),
                    ));
                }
            },
            None => {
                proof {
                    assert(old(self)@.remove(key_of(path@, page@)) =~= old(self)@);
                }
            },
        }
        Ok(())
    }

    /// Brings an entry observed on disk into the store, unless the store
    /// already holds that key (what this process wrote is newer than what
    /// the disk showed before). Nothing is journalled: the entry came from
    /// disk.
    pub fn load_entry(&mut self, path: &BookPath, page: &str, mtime: u64, content: &str)
        requires
            old(self).wf(),
        ensures
            final(self).wf(),
            final(self).spec_root() == old(self).spec_root(),
            final(self).spec_journal() == old(self).spec_journal(),
            path@.absolute || old(self)@.contains_key(key_of(path@, page@)) ==> final(self)@
                == old(self)@,
            !path@.absolute && !old(self)@.contains_key(key_of(path@, page@)) ==> final(self)@
                == put_model(old(self)@, key_of(path@, page@), mtime, content@),
    {
        if path.is_absolute() {
            return ;
        }
        let key = path.join(&BookPath::parse(page));
        match self.find_entry(&key) {
            Some(_) => {},
            None => {
                let ghost pre = self.entries@;
                let e = CacheEntry { key, mtime, content: String::from_str(content) };
                proof {
                    lemma_store_push(pre, e);
                }
                self.entries.push(e);
            },
        }
    }

    /// Hands the journalled file operations over for the shell to apply, in
    /// the order they were journalled, and empties the journal.
    pub fn take_journal(&mut self) -> (ops: Vec<CacheOp>)
        requires
            old(self).wf(),
        ensures
            final(self).wf(),
            final(self).spec_root() == old(self).spec_root(),
            final(self)@ == old(self)@,
            ops_model(ops@) == old(self).spec_journal(),
            final(self).spec_journal() == Seq::<OpModel>::empty(),
    {
        let mut out: Vec<CacheOp> = Vec::new();
        core::mem::swap(&mut self.journal, &mut out);
        proof {
            assert(final(self).spec_journal() =~= Seq::<OpModel>::empty());
        }
        out
    }
}

} // verus!
