use crate::fingerprint::{hex_encode, hex_of, join_comma, Fingerprint};
use crate::graph;
use crate::Script;
use vstd::prelude::*;
use vstd::string::StringExecFns;

verus! {

/// Where a run keeps its local cache, below the working directory.
pub open spec fn cache_dir_spec(working_dir: Seq<char>) -> Seq<char> {
    working_dir + "/.hasty/cache"@
}

/// The cache directory of a working directory.
pub fn get_cache_dir(working_dir: &String) -> (r: String)
    ensures
        r@ == cache_dir_spec(working_dir@),
{
    let mut r = working_dir.clone();
    r.append("/.hasty/cache");
    r
}

/// The directory a cached result for `id` with `fingerprint` would live in:
/// the cache directory, the hex-encoded task id, then the fingerprint.
pub open spec fn cache_path_spec(
    working_dir: Seq<char>,
    id: Seq<char>,
    fingerprint: Seq<char>,
) -> Seq<char> {
    cache_dir_spec(working_dir) + "/"@ + hex_of(vstd::utf8::encode_utf8(id)) + "/"@ + fingerprint
}

/// A cache: given a task and its content fingerprint, whether a previously
/// cached result exists.
pub trait Cache: Sized {
    fn new(working_dir: &String) -> Self;

    fn cached(&self, script: &Script, fingerprint: &Fingerprint) -> bool;
}

/// The local filesystem cache, handed the set of cached result directories
/// that exist under its working directory.
pub struct LocalCache {
    pub working_dir: String,
    pub entries: Vec<String>,
}

impl LocalCache {
    /// The known cache entries, as character sequences.
    pub open spec fn entries_view(self) -> Seq<Seq<char>> {
        self.entries@.map_values(|s: String| s@)
    }

    /// A local cache that also knows which cached result directories exist.
    pub fn with_entries(working_dir: &String, entries: Vec<String>) -> (c: LocalCache)
        ensures
            c.working_dir@ == working_dir@,
            c.entries == entries,
    {
        LocalCache { working_dir: working_dir.clone(), entries }
    }

    /// The directory where a cached result for the given script would live.
    pub fn cache_path(&self, script: &Script, fingerprint: &Fingerprint) -> (r: String)
        ensures
            r@ == cache_path_spec(
                self.working_dir@,
                script@.id_spec(),
                join_comma(fingerprint.hashes_view()),
            ),
    {
        let id = script.id();
        let id_bytes = id.as_str().as_bytes();
        proof {
            assert(id_bytes@ == vstd::utf8::encode_utf8(script@.id_spec()));
        }
        let hexed = hex_encode(id_bytes);
        let mut r = get_cache_dir(&self.working_dir);
        r.append("/");
        r.append(hexed.as_str());
        r.append("/");
        let fp = fingerprint.string();
        r.append(fp.as_str());
        proof {
            assert(r@ =~= cache_path_spec(
                self.working_dir@,
                script@.id_spec(),
                join_comma(fingerprint.hashes_view()),
            ));
        }
        r
    }

    /// Whether the known entries include the given script's cache path.
    pub fn lookup(&self, script: &Script, fingerprint: &Fingerprint) -> (r: bool)
        ensures
            r == self.entries_view().contains(
                cache_path_spec(
                    self.working_dir@,
                    script@.id_spec(),
                    join_comma(fingerprint.hashes_view()),
                ),
            ),
    {
        let path = self.cache_path(script, fingerprint);
        let ghost target = path@;
        let mut i: usize = 0;
        while i < self.entries.len()
            invariant
                i <= self.entries@.len(),
                target == cache_path_spec(
                    self.working_dir@,
                    script@.id_spec(),
                    join_comma(fingerprint.hashes_view()),
                ),
                path@ == target,
                forall|k: int| 0 <= k < i ==> (#[trigger] self.entries@[k])@ != target,
            decreases self.entries@.len() - i,
        {
            if graph::str_eq(self.entries[i].as_str(), path.as_str()) {
                proof {
                    assert(self.entries_view()[i as int] == target);
                }
                return true;
            }
            i = i + 1;
        }
        proof {
            if self.entries_view().contains(target) {
                let k = choose|k: int|
                    0 <= k < self.entries_view().len() && self.entries_view()[k] == target;
                assert(self.entries@[k]@ != target);
            }
        }
        false
    }
}

impl Cache for LocalCache {
    /// A local cache over a working directory, before any entries are known.
    fn new(working_dir: &String) -> Self {
        LocalCache { working_dir: working_dir.clone(), entries: Vec::new() }
    }

    /// Whether a previously cached result directory for the given script
    /// is among the known entries.
    fn cached(&self, script: &Script, fingerprint: &Fingerprint) -> bool {
        self.lookup(script, fingerprint)
    }
}

} // verus!
