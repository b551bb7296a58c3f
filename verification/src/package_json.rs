use crate::graph;
use vstd::prelude::*;

verus! {

/// One resolved workspace member, as the workspace resolver hands it to the
/// engine: plain name/command pairs in declaration order.
#[derive(Debug)]
pub struct PackageJSON {
    pub name: String,
    pub version: Option<String>,
    pub scripts: Option<Vec<(String, String)>>,
    pub dependencies: Option<Vec<(String, String)>>,
    pub dev_dependencies: Option<Vec<(String, String)>>,
    pub peer_dependencies: Option<Vec<(String, String)>>,
    pub optional_dependencies: Option<Vec<(String, String)>>,
    pub workspaces: Option<Vec<String>>,
    pub private: Option<bool>,
    pub dir: Option<String>,
}

/// The keys of an optional name/value list, in declaration order.
pub open spec fn key_names(m: Option<Vec<(String, String)>>) -> Seq<Seq<char>> {
    match m {
        Some(v) => v@.map_values(|p: (String, String)| p.0@),
        None => Seq::empty(),
    }
}

impl PackageJSON {
    /// The script names this package defines.
    pub open spec fn script_names(self) -> Seq<Seq<char>> {
        key_names(self.scripts)
    }

    /// The declared dependency package names.
    pub open spec fn dep_names(self) -> Seq<Seq<char>> {
        key_names(self.dependencies)
    }

    /// The declared dev-dependency package names.
    pub open spec fn dev_dep_names(self) -> Seq<Seq<char>> {
        key_names(self.dev_dependencies)
    }

    /// Whether this package's manifest defines a script called `name`.
    pub fn defines_script(&self, name: &str) -> (r: bool)
        ensures
            r == self.script_names().contains(name@),
    {
        match &self.scripts {
            None => {
                assert(!self.script_names().contains(name@));
                false
            },
            Some(list) => {
                let ghost keys = self.script_names();
                let mut i: usize = 0;
                while i < list.len()
                    invariant
                        i <= list@.len(),
                        keys == self.script_names(),
                        self.scripts matches Some(l) && l@ == list@,
                        keys.len() == list@.len(),
                        forall|k: int| 0 <= k < list@.len() ==> keys[k] == list@[k].0@,
                        forall|k: int| 0 <= k < i ==> keys[k] != name@,
                    decreases list@.len() - i,
                {
                    if graph::str_eq(list[i].0.as_str(), name) {
                        assert(keys[i as int] == name@);
                        return true;
                    }
                    i = i + 1;
                }
                proof {
                    if keys.contains(name@) {
                        let k = choose|k: int| 0 <= k < keys.len() && keys[k] == name@;
                        assert(keys[k] != name@);
                    }
                }
                false
            },
        }
    }
}

} // verus!
