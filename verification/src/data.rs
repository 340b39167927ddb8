//! Data substrate: a typed registry of loaded values with hot-reload
//! bookkeeping, and the versioned keyed save container.
//!
//! Reading files and parsing text happen outside; this module decides what a
//! load or a poll does to the registry, and what a save container holds.

use vstd::prelude::*;
use crate::hash::str_eq;

verus! {

/// Modification time of a data file, as (seconds, nanoseconds) since the
/// Unix epoch.
pub type Mtime = (u64, u32);

/// Stable handle to a registry entry.
#[derive(Clone, Copy, Debug, PartialEq, Eq, Structural)]
pub struct DataHandle(pub usize);

pub struct Entry<T> {
    pub path: String,
    pub mtime: Option<Mtime>,
    pub value: T,
}

/// One registry per data type. A reload swaps the value in place and bumps
/// `version` so systems can notice.
pub struct DataRegistry<T> {
    entries: Vec<Entry<T>>,
    /// Bumped on every successful (re)load; cheap change detection.
    version: u64,
    /// When false, polling never reloads (release builds).
    hot_reload: bool,
}

impl<T> DataRegistry<T> {
    /// The loaded values, in load order.
    pub closed spec fn values(self) -> Seq<T> {
        self.entries@.map_values(|e: Entry<T>| e.value)
    }

    /// Source path of each entry ("" for in-memory values).
    pub closed spec fn paths(self) -> Seq<Seq<char>> {
        self.entries@.map_values(|e: Entry<T>| e.path@)
    }

    /// Last seen modification time of each entry.
    pub closed spec fn mtimes(self) -> Seq<Option<Mtime>> {
        self.entries@.map_values(|e: Entry<T>| e.mtime)
    }

    pub closed spec fn ver(self) -> u64 {
        self.version
    }

    pub closed spec fn hot(self) -> bool {
        self.hot_reload
    }

    /// Bumped on every successful (re)load.
    pub fn version(&self) -> (r: u64)
        ensures
            r == self.ver(),
    {
        self.version
    }

    pub fn hot_reload(&self) -> (r: bool)
        ensures
            r == self.hot(),
    {
        self.hot_reload
    }

    pub fn set_hot_reload(&mut self, on: bool)
        ensures
            final(self).hot() == on,
            final(self).ver() == old(self).ver(),
            final(self).values() == old(self).values(),
            final(self).paths() == old(self).paths(),
            final(self).mtimes() == old(self).mtimes(),
    {
        self.hot_reload = on;
    }

    pub fn new(hot_reload: bool) -> (r: Self)
        ensures
            r.values() == Seq::<T>::empty(),
            r.paths() == Seq::<Seq<char>>::empty(),
            r.mtimes() == Seq::<Option<Mtime>>::empty(),
            r.ver() == 0,
            r.hot() == hot_reload,
    {
        let r = DataRegistry { entries: Vec::new(), version: 0, hot_reload };
        assert(r.values() =~= Seq::<T>::empty());
        assert(r.paths() =~= Seq::<Seq<char>>::empty());
        assert(r.mtimes() =~= Seq::<Option<Mtime>>::empty());
        r
    }

    /// Registers a value read from `path` (modified at `mtime`).
    pub fn insert_loaded(&mut self, path: String, mtime: Option<Mtime>, value: T) -> (h: DataHandle)
        requires
            old(self).ver() < u64::MAX,
        ensures
            h.0 == old(self).values().len(),
            final(self).values() == old(self).values().push(value),
            final(self).paths() == old(self).paths().push(path@),
            final(self).mtimes() == old(self).mtimes().push(mtime),
            final(self).ver() == old(self).ver() + 1,
            final(self).hot() == old(self).hot(),
    {
        let ghost pre = *self;
        self.entries.push(Entry { path, mtime, value });
        self.version = self.version + 1;
        proof {
            assert(self.values() =~= pre.values().push(value));
            assert(self.paths() =~= pre.paths().push(path@));
            assert(self.mtimes() =~= pre.mtimes().push(mtime));
        }
        DataHandle(self.entries.len() - 1)
    }

    /// Registers an in-memory value (tests, embedded defaults).
    pub fn insert(&mut self, value: T) -> (h: DataHandle)
        requires
            old(self).ver() < u64::MAX,
        ensures
            h.0 == old(self).values().len(),
            final(self).values() == old(self).values().push(value),
            final(self).paths() == old(self).paths().push(Seq::<char>::empty()),
            final(self).mtimes() == old(self).mtimes().push(None),
            final(self).ver() == old(self).ver() + 1,
            final(self).hot() == old(self).hot(),
    {
        self.insert_loaded(String::new(), None, value)
    }

    pub fn get(&self, h: &DataHandle) -> (r: &T)
        requires
            h.0 < self.values().len(),
        ensures
            *r == self.values()[h.0 as int],
    {
        &self.entries[h.0].value
    }

    /// All values, in load order.
    pub fn iter(&self) -> (r: Vec<&T>)
        ensures
            r@.len() == self.values().len(),
            forall|i: int| 0 <= i < r@.len() ==> *r@[i] == self.values()[i],
    {
        let mut out: Vec<&T> = Vec::new();
        let n = self.entries.len();
        let mut i: usize = 0;
        while i < n
            invariant
                n == self.entries@.len(),
                i <= n,
                out@.len() == i,
                forall|k: int| 0 <= k < i ==> *out@[k] == self.values()[k],
            decreases n - i,
        {
            out.push(&self.entries[i].value);
            i = i + 1;
        }
        out
    }

    pub fn len(&self) -> (r: usize)
        ensures
            r == self.values().len(),
    {
        self.entries.len()
    }

    pub fn is_empty(&self) -> (r: bool)
        ensures
            r == (self.values().len() == 0),
    {
        self.entries.len() == 0
    }

    /// Law: every entry has one value, one path and one modification time,
    /// so the three lists always have the same length.
    pub proof fn law_entries_aligned(self)
        ensures
            self.paths().len() == self.values().len(),
            self.mtimes().len() == self.values().len(),
    {
    }

    /// Path of entry `i`.
    pub fn path(&self, i: usize) -> (r: &String)
        requires
            i < self.values().len(),
        ensures
            r@ == self.paths()[i as int],
    {
        &self.entries[i].path
    }

    /// Whether a poll that observed `mtime` for entry `i` must re-read it:
    /// hot reload is on, the entry came from a file, and the observed time is
    /// known and differs from the last one seen.
    pub fn needs_reload(&self, i: usize, mtime: Option<Mtime>) -> (r: bool)
        requires
            i < self.values().len(),
        ensures
            r == (self.hot() && self.paths()[i as int].len() > 0 && mtime is Some
                && mtime != self.mtimes()[i as int]),
    {
        if !self.hot_reload {
            return false;
        }
        let e = &self.entries[i];
        if e.path.as_str().is_empty() {
            return false;
        }
        match (mtime, e.mtime) {
            (None, _) => false,
            (Some(a), None) => true,
            (Some(a), Some(b)) => a.0 != b.0 || a.1 != b.1,
        }
    }

    /// Records a poll's outcome for entry `i`: the new modification time,
    /// and the freshly parsed value if parsing succeeded (a failed parse keeps
    /// the old value). Returns whether the value was replaced.
    pub fn record_reload(&mut self, i: usize, mtime: Option<Mtime>, parsed: Option<T>) -> (r: bool)
        requires
            i < old(self).values().len(),
        ensures
            r == parsed is Some,
            final(self).mtimes() == old(self).mtimes().update(i as int, mtime),
            final(self).values() == match parsed {
                Some(v) => old(self).values().update(i as int, v),
                None => old(self).values(),
            },
            final(self).paths() == old(self).paths(),
            final(self).ver() == old(self).ver(),
            final(self).hot() == old(self).hot(),
    {
        let ghost pre = *self;
        let old_entry = self.entries.remove(i);
        let Entry { path, mtime: _, value } = old_entry;
        let replaced = parsed.is_some();
        let v = match parsed {
            Some(v) => v,
            None => value,
        };
        self.entries.insert(i, Entry { path, mtime, value: v });
        proof {
            assert(self.mtimes() =~= pre.mtimes().update(i as int, mtime));
            assert(self.paths() =~= pre.paths());
            if replaced {
                assert(self.values() =~= pre.values().update(i as int, v));
            } else {
                assert(self.values() =~= pre.values());
            }
        }
        replaced
    }

    /// Ends a poll that replaced `reloaded` values: the version moves on iff
    /// anything was replaced. Returns `reloaded`.
    pub fn finish_poll(&mut self, reloaded: usize) -> (r: usize)
        requires
            old(self).ver() < u64::MAX,
        ensures
            r == reloaded,
            final(self).ver() == if reloaded > 0 { old(self).ver() + 1 } else { old(self).ver() as int },
            final(self).values() == old(self).values(),
            final(self).paths() == old(self).paths(),
            final(self).mtimes() == old(self).mtimes(),
            final(self).hot() == old(self).hot(),
    {
        if reloaded > 0 {
            self.version = self.version + 1;
        }
        reloaded
    }
}

/// Why a save container could not give what was asked.
#[derive(Clone, Debug, PartialEq, Eq)]
pub enum SaveError {
    /// No section under this key.
    MissingSection(String),
    /// The container was written by a newer engine.
    NewerVersion { found: u32, supported: u32 },
}

/// Version of the save layout this engine writes.
pub const SAVE_CURRENT_VERSION: u32 = 1;

/// The save container: game-defined serialized state under stable string
/// keys; `version` gates migration on load.
#[derive(Clone, Debug)]
pub struct SaveFile {
    version: u32,
    sections: Vec<(String, String)>,
}

/// Keys are stored once each.
pub open spec fn keys_unique(s: Seq<(String, String)>) -> bool {
    forall|i: int, j: int| 0 <= i < s.len() && 0 <= j < s.len() && i != j ==> s[i].0@ != s[j].0@
}

/// Sections by key.
pub open spec fn section_map(s: Seq<(String, String)>) -> Map<Seq<char>, Seq<char>> {
    Map::new(
        |k: Seq<char>| exists|i: int| 0 <= i < s.len() && s[i].0@ == k,
        |k: Seq<char>| s[choose|i: int| 0 <= i < s.len() && s[i].0@ == k].1@,
    )
}

proof fn lemma_section_at(s: Seq<(String, String)>, i: int)
    requires
        keys_unique(s),
        0 <= i < s.len(),
    ensures
        section_map(s).contains_key(s[i].0@),
        section_map(s)[s[i].0@] == s[i].1@,
{
    assert(s[i].0@ == s[i].0@);
    let j = choose|j: int| 0 <= j < s.len() && s[j].0@ == s[i].0@;
    assert(j == i);
}

impl SaveFile {
    pub closed spec fn ver(self) -> u32 {
        self.version
    }

    pub fn version(&self) -> (r: u32)
        ensures
            r == self.ver(),
    {
        self.version
    }

    /// Rebuilds a container from stored parts (as read back from disk);
    /// `None` when a key occurs twice.
    pub fn from_parts(version: u32, parts: Vec<(String, String)>) -> (r: Option<Self>)
        ensures
            match r {
                Some(f) => f.wf() && f.ver() == version && f.section_seq() == parts@,
                None => !keys_unique(parts@),
            },
    {
        let n = parts.len();
        let mut i: usize = 0;
        while i < n
            invariant
                n == parts@.len(),
                i <= n,
                forall|a: int, b: int| 0 <= a < i && 0 <= b < n && a != b ==> parts@[a].0@ != parts@[b].0@,
            decreases n - i,
        {
            let mut j: usize = 0;
            while j < n
                invariant
                    n == parts@.len(),
                    i < n,
                    j <= n,
                    forall|a: int, b: int| 0 <= a < i && 0 <= b < n && a != b ==> parts@[a].0@ != parts@[b].0@,
                    forall|b: int| 0 <= b < j && b != i ==> parts@[i as int].0@ != parts@[b].0@,
                decreases n - j,
            {
                if j != i && str_eq(parts[i].0.as_str(), parts[j].0.as_str()) {
                    return None;
                }
                j = j + 1;
            }
            i = i + 1;
        }
        Some(SaveFile { version, sections: parts })
    }

    pub closed spec fn sections(self) -> Map<Seq<char>, Seq<char>> {
        section_map(self.sections@)
    }

    pub closed spec fn wf(self) -> bool {
        keys_unique(self.sections@)
    }

    /// The (key, text) pairs in storage order.
    pub closed spec fn section_seq(self) -> Seq<(String, String)> {
        self.sections@
    }

    /// Law: the stored pairs are exactly the sections, each key once.
    pub proof fn law_section_seq_is_map(self)
        requires
            self.wf(),
        ensures
            keys_unique(self.section_seq()),
            section_map(self.section_seq()) == self.sections(),
    {
    }

    pub fn new() -> (r: Self)
        ensures
            r.wf(),
            r.ver() == SAVE_CURRENT_VERSION,
            r.sections() == Map::<Seq<char>, Seq<char>>::empty(),
    {
        let r = SaveFile { version: SAVE_CURRENT_VERSION, sections: Vec::new() };
        assert(r.sections() =~= Map::<Seq<char>, Seq<char>>::empty());
        r
    }

    fn find(&self, key: &str) -> (r: Option<usize>)
        requires
            self.wf(),
        ensures
            match r {
                Some(i) => i < self.sections@.len() && self.sections@[i as int].0@ == key@,
                None => !self.sections().contains_key(key@),
            },
    {
        let n = self.sections.len();
        let mut i: usize = 0;
        while i < n
            invariant
                n == self.sections@.len(),
                i <= n,
                forall|j: int| 0 <= j < i ==> self.sections@[j].0@ != key@,
            decreases n - i,
        {
            if str_eq(self.sections[i].0.as_str(), key) {
                return Some(i);
            }
            i = i + 1;
        }
        None
    }

    pub fn has(&self, key: &str) -> (r: bool)
        requires
            self.wf(),
        ensures
            r == self.sections().contains_key(key@),
    {
        self.find(key).is_some()
    }

    /// Stores serialized `text` under `key` (replacing any previous section).
    pub fn put_text(&mut self, key: &str, text: String)
        requires
            old(self).wf(),
        ensures
            final(self).wf(),
            final(self).ver() == old(self).ver(),
            final(self).sections() == old(self).sections().insert(key@, text@),
    {
        let ghost pre = self.sections@;
        match self.find(key) {
            Some(i) => {
                let k = key.to_owned();
                self.sections.set(i, (k, text));
                proof {
                    let s = self.sections@;
                    assert forall|a: int, b: int| 0 <= a < s.len() && 0 <= b < s.len() && a != b implies s[a].0@ != s[b].0@ by {
                        assert(s[a].0@ == pre[a].0@);
                        assert(s[b].0@ == pre[b].0@);
                    }
                    let lhs = section_map(s);
                    let rhs = section_map(pre).insert(key@, text@);
                    assert forall|c: Seq<char>| #[trigger] lhs.contains_key(c) <==> rhs.contains_key(c) by {
                        if lhs.contains_key(c) {
                            let j = choose|j: int| 0 <= j < s.len() && s[j].0@ == c;
                            assert(pre[j].0@ == c);
                        }
                        if rhs.contains_key(c) && c != key@ {
                            let j = choose|j: int| 0 <= j < pre.len() && pre[j].0@ == c;
                            assert(s[j].0@ == c);
                        }
                        assert(s[i as int].0@ == key@);
                    }
                    assert forall|c: Seq<char>| #[trigger] lhs.contains_key(c) implies lhs[c] == rhs[c] by {
                        let j = choose|j: int| 0 <= j < s.len() && s[j].0@ == c;
                        lemma_section_at(s, j);
                        if j != i {
                            lemma_section_at(pre, j);
                        }
                    }
                    assert(lhs =~= rhs);
                }
            },
            None => {
                let k = key.to_owned();
                self.sections.push((k, text));
                proof {
                    let s = self.sections@;
                    let n = pre.len();
                    assert forall|a: int, b: int| 0 <= a < s.len() && 0 <= b < s.len() && a != b implies s[a].0@ != s[b].0@ by {
                        if a == n {
                            assert(!section_map(pre).contains_key(key@));
                            assert(s[b] == pre[b]);
                        } else if b == n {
                            assert(!section_map(pre).contains_key(key@));
                            assert(s[a] == pre[a]);
                        }
                    }
                    let lhs = section_map(s);
                    let rhs = section_map(pre).insert(key@, text@);
                    assert forall|c: Seq<char>| #[trigger] lhs.contains_key(c) <==> rhs.contains_key(c) by {
                        if lhs.contains_key(c) && c != key@ {
                            let j = choose|j: int| 0 <= j < s.len() && s[j].0@ == c;
                            assert(pre[j].0@ == c);
                        }
                        if rhs.contains_key(c) && c != key@ {
                            let j = choose|j: int| 0 <= j < pre.len() && pre[j].0@ == c;
                            assert(s[j].0@ == c);
                        }
                        assert(s[n as int].0@ == key@);
                    }
                    assert forall|c: Seq<char>| #[trigger] lhs.contains_key(c) implies lhs[c] == rhs[c] by {
                        let j = choose|j: int| 0 <= j < s.len() && s[j].0@ == c;
                        lemma_section_at(s, j);
                        if j < n {
                            lemma_section_at(pre, j);
                        }
                    }
                    assert(lhs =~= rhs);
                }
            },
        }
    }

    /// The serialized text stored under `key`.
    pub fn section_text(&self, key: &str) -> (r: Result<&String, SaveError>)
        requires
            self.wf(),
        ensures
            match r {
                Ok(t) => self.sections().contains_key(key@) && t@ == self.sections()[key@],
                Err(e) => !self.sections().contains_key(key@) && (match e {
                    SaveError::MissingSection(k) => k@ == key@,
                    _ => false,
                }),
            },
    {
        match self.find(key) {
            Some(i) => {
                proof {
                    lemma_section_at(self.sections@, i as int);
                }
                Ok(&self.sections[i].1)
            },
            None => Err(SaveError::MissingSection(key.to_owned())),
        }
    }

    /// The load-time version gate: a container from a newer engine is refused.
    pub fn check_version(&self) -> (r: Result<(), SaveError>)
        ensures
            r is Ok <==> self.ver() <= SAVE_CURRENT_VERSION,
            r is Err ==> r == Err::<(), SaveError>(SaveError::NewerVersion { found: self.ver(), supported: SAVE_CURRENT_VERSION }),
    {
        if self.version > SAVE_CURRENT_VERSION {
            Err(SaveError::NewerVersion { found: self.version, supported: SAVE_CURRENT_VERSION })
        } else {
            Ok(())
        }
    }

    /// All (key, text) sections in storage order.
    pub fn section_list(&self) -> (r: &[(String, String)])
        ensures
            r@ == self.section_seq(),
    {
        self.sections.as_slice()
    }
}

} // verus!
