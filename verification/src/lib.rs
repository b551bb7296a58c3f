pub mod cache;
pub mod engine;
pub mod fingerprint;
pub mod graph;
pub mod options;
pub mod package_json;

use vstd::prelude::*;
use vstd::string::StringExecFns;

verus! {

/// The id of a task, written "<package>#<command>".
pub open spec fn script_id_spec(package_name: Seq<char>, script_name: Seq<char>) -> Seq<char> {
    package_name + seq!['#'] + script_name
}

pub fn make_script_id(package_name: &str, script_name: &str) -> (id: String)
    ensures
        id@ == script_id_spec(package_name@, script_name@),
{
    let mut id = package_name.to_owned();
    id.append("#");
    id.append(script_name);
    proof {
        reveal_strlit("#");
        assert(id@ =~= script_id_spec(package_name@, script_name@));
    }
    id
}

/// The two kinds of declared dependency: a script of the same package, or a
/// topological dependency, resolved against every direct upstream package.
#[derive(Clone, Copy, Debug, PartialEq, Eq, Structural)]
pub enum DepKind {
    Same,
    Topological,
}

/// One declared dependency of a pipeline entry.
#[derive(Debug)]
pub struct Dependency {
    pub kind: DepKind,
    pub name: String,
}

#[verifier::ext_equal]
pub struct DependencyV {
    pub kind: DepKind,
    pub name: Seq<char>,
}

impl View for Dependency {
    type V = DependencyV;

    open spec fn view(&self) -> DependencyV {
        DependencyV { kind: self.kind, name: self.name@ }
    }
}

/// The names of the dependencies of the given kind, in declaration order.
pub open spec fn dep_names_of_kind(deps: Seq<DependencyV>, kind: DepKind) -> Seq<Seq<char>>
    decreases deps.len(),
{
    if deps.len() == 0 {
        Seq::empty()
    } else {
        let rest = dep_names_of_kind(deps.drop_last(), kind);
        if deps.last().kind == kind {
            rest.push(deps.last().name)
        } else {
            rest
        }
    }
}

/// One pipeline entry: the underlying command, its declared dependencies, and
/// the file lists consumed by the cache collaborator.
#[derive(Debug)]
pub struct CommandConfig {
    pub command: String,
    pub dependencies: Option<Vec<Dependency>>,
    pub files: Option<Vec<String>>,
    pub output: Option<Vec<String>>,
}

#[verifier::ext_equal]
pub struct CommandConfigV {
    pub command: Seq<char>,
    pub dependencies: Option<Seq<DependencyV>>,
    pub files: Option<Seq<Seq<char>>>,
    pub output: Option<Seq<Seq<char>>>,
}

impl View for CommandConfig {
    type V = CommandConfigV;

    open spec fn view(&self) -> CommandConfigV {
        CommandConfigV {
            command: self.command@,
            dependencies: match self.dependencies {
                Some(v) => Some(v@.map_values(|d: Dependency| d@)),
                None => None,
            },
            files: match self.files {
                Some(v) => Some(v@.map_values(|s: String| s@)),
                None => None,
            },
            output: match self.output {
                Some(v) => Some(v@.map_values(|s: String| s@)),
                None => None,
            },
        }
    }
}

/// The pipeline configuration: task name to command descriptor.
#[derive(Debug)]
pub struct Config {
    pub pipeline: Vec<(String, CommandConfig)>,
}

impl Config {
    /// The first pipeline entry named `name`, if any.
    pub open spec fn pipeline_find(self, name: Seq<char>) -> Option<CommandConfigV> {
        pipeline_find_rec(self.pipeline@.map_values(|p: (String, CommandConfig)| (p.0@, p.1@)), name)
    }

    /// Looks a pipeline entry up by name; `Some` exactly when an entry with
    /// that name is declared.
    pub fn lookup(&self, name: &str) -> (r: Option<&CommandConfig>)
        ensures
            match r {
                Some(c) => self.pipeline_find(name@) == Some(c@),
                None => self.pipeline_find(name@) is None,
            },
    {
        let ghost pv = self.pipeline@.map_values(|p: (String, CommandConfig)| (p.0@, p.1@));
        proof {
            assert(pv.skip(0) =~= pv);
        }
        let mut i: usize = 0;
        while i < self.pipeline.len()
            invariant
                i <= self.pipeline@.len(),
                pv == self.pipeline@.map_values(|p: (String, CommandConfig)| (p.0@, p.1@)),
                forall|k: int| 0 <= k < i ==> pv[k].0 != name@,
                pipeline_find_rec(pv.skip(i as int), name@) == pipeline_find_rec(pv, name@),
            decreases self.pipeline@.len() - i,
        {
            proof {
                assert(pv.skip(i as int).len() > 0);
                assert(pv.skip(i as int)[0] == pv[i as int]);
                assert(pv.skip(i as int).drop_first() =~= pv.skip(i + 1));
            }
            if graph::str_eq(self.pipeline[i].0.as_str(), name) {
                return Some(&self.pipeline[i].1);
            }
            i = i + 1;
        }
        proof {
            assert(pv.skip(i as int) =~= Seq::<(Seq<char>, CommandConfigV)>::empty());
        }
        None
    }
}

/// First-match lookup in a name/config list.
pub open spec fn pipeline_find_rec(
    entries: Seq<(Seq<char>, CommandConfigV)>,
    name: Seq<char>,
) -> Option<CommandConfigV>
    decreases entries.len(),
{
    if entries.len() == 0 {
        None
    } else if entries[0].0 == name {
        Some(entries[0].1)
    } else {
        pipeline_find_rec(entries.drop_first(), name)
    }
}

/// The lifecycle of a task: `Waiting` until its dependencies finish, `Ready`
/// when it has none, `Running` while its process is in flight, then
/// `Finished`; `Error` is reserved for runs that must short-circuit.
#[derive(Clone, Copy, Debug, PartialEq, Eq, Structural)]
pub enum ScriptStatus {
    Waiting,
    Ready,
    Running,
    Finished,
    Error,
}

/// One executable unit: a command bound to a package and a directory.
#[derive(Debug)]
pub struct Script {
    pub status: ScriptStatus,
    pub command: String,
    pub package_name: String,
    pub config: CommandConfig,
    pub dir: String,
}

#[verifier::ext_equal]
pub struct ScriptV {
    pub status: ScriptStatus,
    pub command: Seq<char>,
    pub package_name: Seq<char>,
    pub config: CommandConfigV,
    pub dir: Seq<char>,
}

impl View for Script {
    type V = ScriptV;

    open spec fn view(&self) -> ScriptV {
        ScriptV {
            status: self.status,
            command: self.command@,
            package_name: self.package_name@,
            config: self.config@,
            dir: self.dir@,
        }
    }
}

impl ScriptV {
    pub open spec fn id_spec(self) -> Seq<char> {
        script_id_spec(self.package_name, self.command)
    }

    /// The declared dependency list, empty when none is declared.
    pub open spec fn declared_deps(self) -> Seq<DependencyV> {
        match self.config.dependencies {
            Some(d) => d,
            None => Seq::empty(),
        }
    }

    pub open spec fn same_dep_names(self) -> Seq<Seq<char>> {
        dep_names_of_kind(self.declared_deps(), DepKind::Same)
    }

    pub open spec fn topo_dep_names(self) -> Seq<Seq<char>> {
        dep_names_of_kind(self.declared_deps(), DepKind::Topological)
    }

    /// At least one dependency is declared.
    pub open spec fn has_deps(self) -> bool {
        self.config.dependencies matches Some(d) && d.len() > 0
    }

    /// The same value with another status.
    pub open spec fn with_status(self, status: ScriptStatus) -> ScriptV {
        ScriptV { status, ..self }
    }
}

impl Script {
    pub open spec fn id_spec(self) -> Seq<char> {
        script_id_spec(self.package_name@, self.command@)
    }

    /// Builds a task from a pipeline entry.  Its status is `Waiting` when the
    /// entry declares a dependency, `Ready` when it declares none.
    pub fn new(config: CommandConfig, dir: &String, package_name: &str) -> (s: Script)
        ensures
            s@.config == config@,
            s@.command == config@.command,
            s@.package_name == package_name@,
            s@.dir == dir@,
            s@.status == (if config@.dependencies matches Some(d) && d.len() > 0 {
                ScriptStatus::Waiting
            } else {
                ScriptStatus::Ready
            }),
    {
        let name = config.command.clone();
        let mut status = ScriptStatus::Ready;
        match &config.dependencies {
            Some(deps) => {
                if deps.len() > 0 {
                    status = ScriptStatus::Waiting;
                }
            },
            None => {},
        }
        Script {
            config,
            package_name: String::from_str(package_name),
            dir: dir.clone(),
            command: name,
            status,
        }
    }

    /// Whether any dependency is declared.
    pub fn has_dependencies(&self) -> (r: bool)
        ensures
            r == self@.has_deps(),
    {
        match &self.config.dependencies {
            Some(deps) => deps.len() > 0,
            None => false,
        }
    }

    /// The declared same-package dependency names; `None` when the entry
    /// declares no dependency list at all.
    pub fn dependencies(&self) -> (r: Option<Vec<String>>)
        ensures
            match r {
                Some(v) => (self@.config.dependencies is Some) && v@.map_values(|s: String| s@)
                    == self@.same_dep_names(),
                None => self@.config.dependencies is None,
            },
    {
        match &self.config.dependencies {
            None => None,
            Some(deps) => Some(dep_names_exec(deps, DepKind::Same)),
        }
    }

    /// The declared topological dependency names; `None` when the entry
    /// declares no dependency list at all.
    pub fn topological_dependencies(&self) -> (r: Option<Vec<String>>)
        ensures
            match r {
                Some(v) => (self@.config.dependencies is Some) && v@.map_values(|s: String| s@)
                    == self@.topo_dep_names(),
                None => self@.config.dependencies is None,
            },
    {
        match &self.config.dependencies {
            None => None,
            Some(deps) => Some(dep_names_exec(deps, DepKind::Topological)),
        }
    }

    /// The id of the script, "<package>#<command>".
    pub fn id(&self) -> (r: String)
        ensures
            r@ == self@.id_spec(),
    {
        make_script_id(self.package_name.as_str(), self.command.as_str())
    }

    /// A field-for-field copy of the script.
    pub fn duplicate(&self) -> (r: Script)
        ensures
            r@ == self@,
    {
        Script {
            status: self.status,
            command: self.command.clone(),
            package_name: self.package_name.clone(),
            config: self.config.duplicate(),
            dir: self.dir.clone(),
        }
    }
}

impl PartialEq for Script {
    /// Two scripts are equal when they run the same underlying command.
    fn eq(&self, other: &Script) -> (r: bool) {
        graph::str_eq(self.config.command.as_str(), other.config.command.as_str())
    }
}

impl vstd::std_specs::cmp::PartialEqSpecImpl for Script {
    open spec fn obeys_eq_spec() -> bool {
        true
    }

    open spec fn eq_spec(&self, other: &Script) -> bool {
        self.config.command@ == other.config.command@
    }
}

/// The names of the dependencies of `kind` among `deps`, in order.
fn dep_names_exec(deps: &Vec<Dependency>, kind: DepKind) -> (r: Vec<String>)
    ensures
        r@.map_values(|s: String| s@) == dep_names_of_kind(
            deps@.map_values(|d: Dependency| d@),
            kind,
        ),
{
    let ghost dv = deps@.map_values(|d: Dependency| d@);
    let mut out: Vec<String> = Vec::new();
    let mut i: usize = 0;
    while i < deps.len()
        invariant
            i <= deps@.len(),
            dv == deps@.map_values(|d: Dependency| d@),
            out@.map_values(|s: String| s@) == dep_names_of_kind(dv.take(i as int), kind),
        decreases deps@.len() - i,
    {
        let ghost prev = out@.map_values(|s: String| s@);
        proof {
            assert(dv.take(i + 1).drop_last() =~= dv.take(i as int));
            assert(dv.take(i + 1).last() == dv[i as int]);
        }
        if deps[i].kind == kind {
            out.push(deps[i].name.clone());
            proof {
                assert(out@.map_values(|s: String| s@) =~= prev.push(dv[i as int].name));
            }
        }
        i = i + 1;
    }
    proof {
        assert(dv.take(deps@.len() as int) =~= dv);
    }
    out
}

fn clone_string_vec(v: &Vec<String>) -> (r: Vec<String>)
    ensures
        r@.map_values(|s: String| s@) == v@.map_values(|s: String| s@),
{
    let mut out: Vec<String> = Vec::new();
    let mut i: usize = 0;
    while i < v.len()
        invariant
            i <= v@.len(),
            out@.len() == i,
            forall|k: int| 0 <= k < i ==> out@[k]@ == v@[k]@,
        decreases v@.len() - i,
    {
        out.push(v[i].clone());
        i = i + 1;
    }
    proof {
        assert(out@.map_values(|s: String| s@) =~= v@.map_values(|s: String| s@));
    }
    out
}

fn clone_dep_vec(v: &Vec<Dependency>) -> (r: Vec<Dependency>)
    ensures
        r@.map_values(|d: Dependency| d@) == v@.map_values(|d: Dependency| d@),
{
    let mut out: Vec<Dependency> = Vec::new();
    let mut i: usize = 0;
    while i < v.len()
        invariant
            i <= v@.len(),
            out@.len() == i,
            forall|k: int| 0 <= k < i ==> out@[k]@ == v@[k]@,
        decreases v@.len() - i,
    {
        out.push(Dependency { kind: v[i].kind, name: v[i].name.clone() });
        i = i + 1;
    }
    proof {
        assert(out@.map_values(|d: Dependency| d@) =~= v@.map_values(|d: Dependency| d@));
    }
    out
}

impl CommandConfig {
    /// A copy of this entry (field for field).
    pub fn duplicate(&self) -> (r: CommandConfig)
        ensures
            r@ == self@,
    {
        CommandConfig {
            command: self.command.clone(),
            dependencies: match &self.dependencies {
                Some(d) => Some(clone_dep_vec(d)),
                None => None,
            },
            files: match &self.files {
                Some(f) => Some(clone_string_vec(f)),
                None => None,
            },
            output: match &self.output {
                Some(o) => Some(clone_string_vec(o)),
                None => None,
            },
        }
    }
}

} // verus!
