//! The configuration: watch rules and named task definitions.

use vstd::prelude::*;

verus! {

/// A rule: which paths under `path` trigger which tasks.
#[derive(Debug)]
pub struct WatchRule {
    pub path: String,
    pub recursive: bool,
    /// Glob patterns of which a path must hit one (none given: every path).
    pub patterns: Vec<String>,
    /// Glob patterns that exclude a path that one of `patterns` hit.
    pub ignore: Vec<String>,
    /// Names of the tasks to run, in order.
    pub tasks: Vec<String>,
}

/// A command to run: program, arguments and working directory.
#[derive(Debug)]
pub struct TaskDefinition {
    pub command: String,
    pub args: Vec<String>,
    pub cwd: Option<String>,
}

/// The mathematical value of a task definition.
pub struct TaskDefinitionView {
    pub command: Seq<char>,
    pub args: Seq<Seq<char>>,
    pub cwd: Option<Seq<char>>,
}

impl View for TaskDefinition {
    type V = TaskDefinitionView;

    open spec fn view(&self) -> TaskDefinitionView {
        TaskDefinitionView {
            command: self.command@,
            args: self.args.deep_view(),
            cwd: self.cwd.deep_view(),
        }
    }
}

/// Copies a list of strings.
pub fn copy_strings(v: &Vec<String>) -> (r: Vec<String>)
    ensures
        r.deep_view() == v.deep_view(),
{
    let mut r: Vec<String> = Vec::new();
    let mut i: usize = 0;
    while i < v.len()
        invariant
            0 <= i <= v.len(),
            r@.len() == i,
            forall|k: int| 0 <= k < i ==> #[trigger] r@[k]@ == v@[k]@,
        decreases v.len() - i,
    {
        r.push(v[i].clone());
        i = i + 1;
    }
    assert(r.deep_view() =~= v.deep_view());
    r
}

impl TaskDefinition {
    /// A copy with the same command, arguments and working directory.
    pub fn duplicate(&self) -> (r: TaskDefinition)
        ensures
            r@ == self@,
    {
        let cwd = match &self.cwd {
            Some(c) => Some(c.clone()),
            None => None,
        };
        TaskDefinition { command: self.command.clone(), args: copy_strings(&self.args), cwd }
    }
}

/// The configuration: the watch rules, in order, and the task definitions
/// by name. No two task definitions share a name.
#[derive(Debug)]
pub struct Config {
    watch: Vec<WatchRule>,
    tasks: Vec<(String, TaskDefinition)>,
}

impl Config {
    /// The names of the task definitions, in storage order.
    pub closed spec fn task_names(self) -> Seq<Seq<char>> {
        self.tasks@.map_values(|e: (String, TaskDefinition)| e.0@)
    }

    #[verifier::type_invariant]
    closed spec fn names_unique(self) -> bool {
        self.task_names().no_duplicates()
    }

    /// Where the task named `k` is stored.
    closed spec fn slot(self, k: Seq<char>) -> int {
        choose|i: int| 0 <= i < self.tasks@.len() && self.tasks@[i].0@ == k
    }

    /// The task definitions, by name.
    pub closed spec fn tasks_view(self) -> Map<Seq<char>, TaskDefinitionView> {
        Map::new(
            |k: Seq<char>| self.task_names().contains(k),
            |k: Seq<char>| self.tasks@[self.slot(k)].1@,
        )
    }

    /// What looking up `name` gives: the definition of that name, if any.
    pub open spec fn lookup(self, name: Seq<char>) -> Option<TaskDefinitionView> {
        if self.tasks_view().contains_key(name) {
            Some(self.tasks_view()[name])
        } else {
            None
        }
    }

    /// `self` is `before` with the task `name` defined as `task`: what
    /// `insert_task` makes of it.
    pub open spec fn defines(self, before: Config, name: Seq<char>, task: TaskDefinitionView) -> bool {
        &&& self.tasks_view() == before.tasks_view().insert(name, task)
        &&& self.rules() == before.rules()
    }

    /// The watch rules, in order.
    pub closed spec fn rules(self) -> Seq<WatchRule> {
        self.watch@
    }

    proof fn lemma_entry(self, i: int)
        requires
            self.names_unique(),
            0 <= i < self.tasks@.len(),
        ensures
            self.tasks_view().contains_key(self.tasks@[i].0@),
            self.tasks_view()[self.tasks@[i].0@] == self.tasks@[i].1@,
    {
        let k = self.tasks@[i].0@;
        assert(self.task_names()[i] == k);
        assert(self.task_names().contains(k));
        assert(self.tasks_view().dom().contains(k));
        let j = self.slot(k);
        assert(0 <= j < self.tasks@.len() && self.tasks@[j].0@ == k);
        assert(self.task_names()[j] == k);
        assert(j == i);
        assert(self.tasks_view()[k] == self.tasks@[j].1@);
    }

    /// An empty configuration: no rules and no tasks.
    pub fn new() -> (r: Config)
        ensures
            r.rules().len() == 0,
            r.tasks_view() == Map::<Seq<char>, TaskDefinitionView>::empty(),
    {
        let r = Config { watch: Vec::new(), tasks: Vec::new() };
        assert(r.task_names() =~= Seq::<Seq<char>>::empty());
        assert(r.tasks_view() =~= Map::<Seq<char>, TaskDefinitionView>::empty());
        r
    }

    /// The watch rules, in order.
    pub fn watch(&self) -> (r: &Vec<WatchRule>)
        ensures
            r@ == self.rules(),
    {
        &self.watch
    }

    /// Appends a watch rule after the existing ones.
    pub fn add_rule(&mut self, rule: WatchRule)
        ensures
            final(self).rules() == old(self).rules().push(rule),
            final(self).tasks_view() == old(self).tasks_view(),
    {
        proof { use_type_invariant(&*self); }
        let mut rules: Vec<WatchRule> = Vec::new();
        std::mem::swap(&mut rules, &mut self.watch);
        rules.push(rule);
        self.watch = rules;
    }

    /// The names of the task definitions, each once.
    pub fn names(&self) -> (r: Vec<String>)
        ensures
            r.deep_view() == self.task_names(),
            r.deep_view().to_set() == self.tasks_view().dom(),
            r.deep_view().no_duplicates(),
    {
        proof { use_type_invariant(self); }
        let mut r: Vec<String> = Vec::new();
        let mut i: usize = 0;
        while i < self.tasks.len()
            invariant
                0 <= i <= self.tasks@.len(),
                r.deep_view() == self.task_names().take(i as int),
            decreases self.tasks.len() - i,
        {
            let ghost before = r.deep_view();
            r.push(self.tasks[i].0.clone());
            assert(r.deep_view() =~= before.push(self.task_names()[i as int]));
            assert(self.task_names().take(i + 1) =~= self.task_names().take(i as int).push(
                self.task_names()[i as int],
            ));
            i = i + 1;
        }
        assert(self.task_names().take(self.tasks@.len() as int) =~= self.task_names());
        assert(r.deep_view().to_set() =~= self.tasks_view().dom());
        r
    }

    /// The number of task definitions.
    pub fn tasks_len(&self) -> (r: usize)
        ensures
            r == self.tasks_view().len(),
    {
        proof {
            use_type_invariant(self);
            self.task_names().unique_seq_to_set();
            assert(self.tasks_view().dom() =~= self.task_names().to_set());
        }
        self.tasks.len()
    }

    /// The position of the task named `name`, if there is one.
    fn position(&self, name: &String) -> (r: Option<usize>)
        ensures
            match r {
                Some(i) => i < self.tasks@.len() && self.tasks@[i as int].0@ == name@,
                None => !self.task_names().contains(name@),
            },
    {
        let mut i: usize = 0;
        while i < self.tasks.len()
            invariant
                0 <= i <= self.tasks@.len(),
                forall|k: int| 0 <= k < i ==> self.tasks@[k].0@ != name@,
            decreases self.tasks.len() - i,
        {
            if self.tasks[i].0 == *name {
                return Some(i);
            }
            i = i + 1;
        }
        proof {
            if self.task_names().contains(name@) {
                let k = choose|k: int| 0 <= k < self.task_names().len() && self.task_names()[k] == name@;
                assert(self.tasks@[k].0@ == name@);
            }
        }
        None
    }

    /// The task definition named `name`, if there is one.
    pub fn task(&self, name: &str) -> (r: Option<&TaskDefinition>)
        ensures
            r is Some <==> self.tasks_view().contains_key(name@),
            r matches Some(t) ==> t@ == self.tasks_view()[name@],
            (match r {
                Some(t) => Some(t@),
                None => None,
            }) == self.lookup(name@),
    {
        proof { use_type_invariant(self); }
        let key = name.to_owned();
        match self.position(&key) {
            Some(i) => {
                proof { self.lemma_entry(i as int); }
                Some(&self.tasks[i].1)
            },
            None => None,
        }
    }

    /// Defines the task `name`, replacing an earlier definition of that name.
    pub fn insert_task(&mut self, name: String, task: TaskDefinition)
        ensures
            final(self).tasks_view() == old(self).tasks_view().insert(name@, task@),
            final(self).rules() == old(self).rules(),
            final(self).defines(*old(self), name@, task@),
    {
        proof { use_type_invariant(&*self); }
        let ghost old_self = *self;
        let ghost key = name@;
        let ghost val = task@;
        let pos = self.position(&name);
        let mut entries: Vec<(String, TaskDefinition)> = Vec::new();
        std::mem::swap(&mut entries, &mut self.tasks);
        match pos {
            Some(i) => {
                entries.set(i, (name, task));
                proof {
                    assert(entries@.map_values(|e: (String, TaskDefinition)| e.0@)
                        =~= old_self.task_names());
                }
                self.tasks = entries;
                proof {
                    assert(self.task_names() =~= old_self.task_names());
                    assert forall|k: Seq<char>| #[trigger] self.tasks_view().contains_key(k)
                        implies self.tasks_view()[k] == old_self.tasks_view().insert(key, val)[k] by {
                        let j = choose|j: int| 0 <= j < self.task_names().len() && self.task_names()[j] == k;
                        self.lemma_entry(j);
                        assert(old_self.task_names()[i as int] == key);
                        if j != i {
                            assert(self.tasks@[j] == old_self.tasks@[j]);
                            assert(old_self.task_names()[j] == k);
                            assert(k != key);
                            old_self.lemma_entry(j);
                        } else {
                            assert(k == key);
                        }
                    }
                    assert(old_self.task_names()[i as int] == key);
                    assert(old_self.task_names().contains(key));
                    assert(self.tasks_view().dom() =~= old_self.tasks_view().dom().insert(key));
                    assert(self.tasks_view() =~= old_self.tasks_view().insert(key, val));
                }
            },
            None => {
                entries.push((name, task));
                proof {
                    assert(entries@.map_values(|e: (String, TaskDefinition)| e.0@)
                        =~= old_self.task_names().push(key));
                }
                self.tasks = entries;
                proof {
                    assert(self.task_names() =~= old_self.task_names().push(key));
                    assert forall|k: Seq<char>| #[trigger] self.tasks_view().contains_key(k)
                        implies self.tasks_view()[k] == old_self.tasks_view().insert(key, val)[k] by {
                        let j = choose|j: int| 0 <= j < self.task_names().len() && self.task_names()[j] == k;
                        self.lemma_entry(j);
                        if j < old_self.tasks@.len() {
                            assert(self.tasks@[j] == old_self.tasks@[j]);
                            assert(old_self.task_names()[j] == k);
                            assert(k != key);
                            old_self.lemma_entry(j);
                        } else {
                            assert(k == key);
                        }
                    }
                    let n = old_self.tasks@.len() as int;
                    assert forall|k: Seq<char>| #[trigger] self.task_names().contains(k)
                        <==> (old_self.task_names().contains(k) || k == key) by {
                        if old_self.task_names().contains(k) {
                            let j = choose|j: int| 0 <= j < old_self.task_names().len() && old_self.task_names()[j] == k;
                            assert(self.task_names()[j] == k);
                        }
                        if k == key {
                            assert(self.task_names()[n] == k);
                        }
                        if self.task_names().contains(k) {
                            let j = choose|j: int| 0 <= j < self.task_names().len() && self.task_names()[j] == k;
                            if j < n {
                                assert(old_self.task_names()[j] == k);
                            }
                        }
                    }
                    assert(self.tasks_view().dom() =~= old_self.tasks_view().dom().insert(key));
                    assert(self.tasks_view() =~= old_self.tasks_view().insert(key, val));
                }
            },
        }
    }
}

impl Default for Config {
    /// An empty configuration, used when no configuration file exists.
    fn default() -> (r: Config)
        ensures
            r.rules().len() == 0,
            r.tasks_view() == Map::<Seq<char>, TaskDefinitionView>::empty(),
    {
        Config::new()
    }
}

/// Reading a task after defining it gives back the definition: after
/// `insert_task(name, task)`, `task(name)` finds `task`, every other name
/// finds what it found before, and the rules stay as they were.
pub proof fn law_task_read_after_write(
    before: Config,
    after: Config,
    name: Seq<char>,
    task: TaskDefinitionView,
    other: Seq<char>,
)
    requires
        after.defines(before, name, task),
    ensures
        after.lookup(name) == Some(task),
        other != name ==> after.lookup(other) == before.lookup(other),
        after.rules() == before.rules(),
        after.tasks_view().dom() == before.tasks_view().dom().insert(name),
{
}

/// The arguments of a command, each after a space.
pub open spec fn spaced_args(args: Seq<Seq<char>>) -> Seq<char>
    decreases args.len(),
{
    if args.len() == 0 {
        seq![]
    } else {
        spaced_args(args.drop_last()) + " "@ + args.last()
    }
}

/// The line that lists a task: its name, a colon, and its command line.
pub open spec fn listing_line(name: Seq<char>, task: TaskDefinitionView) -> Seq<char> {
    name + ": "@ + task.command + spaced_args(task.args)
}

/// The lines that list the configured tasks, one per task, in the order of
/// `Config::names`.
pub fn task_listing(config: &Config) -> (r: Vec<String>)
    ensures
        r.deep_view() == config.task_names().map_values(
            |n: Seq<char>| listing_line(n, config.tasks_view()[n]),
        ),
{
    let names = config.names();
    let ghost nv = names.deep_view();
    let ghost tv = config.tasks_view();
    let mut r: Vec<String> = Vec::new();
    let mut i: usize = 0;
    while i < names.len()
        invariant
            nv == names.deep_view(),
            nv == config.task_names(),
            nv.to_set() == tv.dom(),
            tv == config.tasks_view(),
            0 <= i <= names.len(),
            r.deep_view() == nv.take(i as int).map_values(|n: Seq<char>| listing_line(n, tv[n])),
        decreases names.len() - i,
    {
        assert(nv.to_set().contains(nv[i as int]));
        let line = match config.task(names[i].as_str()) {
            Some(t) => {
                let mut line = names[i].clone();
                line.append(": ");
                line.append(t.command.as_str());
                let ghost av = t.args.deep_view();
                let mut k: usize = 0;
                while k < t.args.len()
                    invariant
                        av == t.args.deep_view(),
                        0 <= k <= t.args.len(),
                        line@ == names[i as int]@ + ": "@ + t.command@ + spaced_args(av.take(k as int)),
                    decreases t.args.len() - k,
                {
                    assert(av.take(k + 1).drop_last() =~= av.take(k as int));
                    line.append(" ");
                    line.append(t.args[k].as_str());
                    assert(line@ =~= names[i as int]@ + ": "@ + t.command@ + spaced_args(av.take(k + 1)));
                    k = k + 1;
                }
                assert(av.take(t.args.len() as int) =~= av);
                line
            },
            None => {
                proof {
                    assert(false);
                }
                String::new()
            },
        };
        let ghost prev = r.deep_view();
        r.push(line);
        assert(r.deep_view() =~= prev.push(listing_line(nv[i as int], tv[nv[i as int]])));
        assert(nv.take(i + 1).map_values(|n: Seq<char>| listing_line(n, tv[n])) =~= nv.take(
            i as int,
        ).map_values(|n: Seq<char>| listing_line(n, tv[n])).push(listing_line(nv[i as int], tv[nv[i as int]])));
        i = i + 1;
    }
    assert(nv.take(names.len() as int) =~= nv);
    r
}

/// The operations of the `task` command.
#[derive(Debug, Clone, Copy, PartialEq, Eq, Structural)]
pub enum TaskOperation {
    /// List the configured tasks.
    List,
    /// Any other operation, which is not supported.
    Unsupported,
}

/// The operation that the word `operation` names: `list` lists the tasks;
/// any other word is not supported.
pub fn task_operation(operation: &str) -> (r: TaskOperation)
    ensures
        r == (if operation@ == "list"@ {
            TaskOperation::List
        } else {
            TaskOperation::Unsupported
        }),
{
    if operation.to_owned() == String::from_str("list") {
        TaskOperation::List
    } else {
        TaskOperation::Unsupported
    }
}

/// The file formats a configuration can be written in.
#[derive(Debug, Clone, Copy, PartialEq, Eq, Structural)]
pub enum ConfigFormat {
    Json,
    Toml,
    Yaml,
}

/// The format read for a file with extension `ext`: JSON for `json`, TOML
/// for `toml`, YAML for anything else and for no extension.
pub open spec fn format_for_extension(ext: Option<Seq<char>>) -> ConfigFormat {
    if ext == Some("json"@) {
        ConfigFormat::Json
    } else if ext == Some("toml"@) {
        ConfigFormat::Toml
    } else {
        ConfigFormat::Yaml
    }
}

impl ConfigFormat {
    /// The format for a file with extension `ext` (see `format_for_extension`).
    pub fn from_extension(ext: Option<&str>) -> (r: ConfigFormat)
        ensures
            r == format_for_extension(
                match ext {
                    Some(e) => Some(e@),
                    None => None,
                },
            ),
    {
        match ext {
            Some(e) => {
                let e = e.to_owned();
                if e == String::from_str("json") {
                    ConfigFormat::Json
                } else if e == String::from_str("toml") {
                    ConfigFormat::Toml
                } else {
                    ConfigFormat::Yaml
                }
            },
            None => ConfigFormat::Yaml,
        }
    }
}

/// The extension that `std::path::Path::extension` finds in the path
/// `path` (the text after the last `.` of the file name), when there is one
/// and it is valid UTF-8. Path syntax is that of the target the crate is
/// built for.
pub uninterp spec fn path_extension_of(path: Seq<char>) -> Option<Seq<char>>;

/// The extension of the file that `path` names, by
/// `std::path::Path::extension`.
/// Trusted: the result is the one named by `path_extension_of`; an
/// extension holds no `.`, and a path with an extension holds a `.`, as the
/// documentation of `Path::extension` says.
#[verifier::external_body]
fn path_extension(path: &str) -> (r: Option<String>)
    ensures
        r.deep_view() == path_extension_of(path@),
        r matches Some(e) ==> !e@.contains('.') && path@.contains('.'),
{
    match std::path::Path::new(path).extension() {
        Some(e) => match e.to_str() {
            Some(s) => Some(s.to_string()),
            None => None,
        },
        None => None,
    }
}

/// The format in which the configuration file at `path` is read: by the
/// extension of the file it names (see `format_for_extension`). A path
/// without a `.` has no extension and is read as YAML.
pub fn config_format(path: &str) -> (r: ConfigFormat)
    ensures
        r == format_for_extension(path_extension_of(path@)),
        !path@.contains('.') ==> r == ConfigFormat::Yaml,
{
    let ext = path_extension(path);
    match &ext {
        Some(e) => ConfigFormat::from_extension(Some(e.as_str())),
        None => ConfigFormat::from_extension(None),
    }
}

/// The file names searched, in order, when no configuration path is given.
pub open spec fn default_config_names() -> Seq<Seq<char>> {
    seq!["watchmanx.yml"@, "watchmanx.yaml"@, "watchmanx.json"@, "watchmanx.toml"@]
}

/// The file names searched, in order, when no configuration path is given.
pub fn default_config_candidates() -> (r: Vec<String>)
    ensures
        r.deep_view() == default_config_names(),
{
    let mut r: Vec<String> = Vec::new();
    r.push(String::from_str("watchmanx.yml"));
    r.push(String::from_str("watchmanx.yaml"));
    r.push(String::from_str("watchmanx.json"));
    r.push(String::from_str("watchmanx.toml"));
    assert(r.deep_view() =~= default_config_names());
    r
}

/// The default file at position `i` is the first that exists: `exists[k]`
/// tells whether the `k`-th default name exists (a missing entry counts as
/// "does not exist").
pub open spec fn first_existing(exists: Seq<bool>, i: int) -> bool {
    0 <= i < default_config_names().len() && i < exists.len() && exists[i] && forall|k: int|
        0 <= k < i ==> !exists[k]
}

/// Which configuration file to read: the given path when there is one;
/// otherwise the first default name that exists; `None` when none does
/// (then the empty default configuration is used).
pub fn select_config_path(explicit: Option<&str>, exists: &Vec<bool>) -> (r: Option<String>)
    ensures
        explicit matches Some(p) ==> r matches Some(q) && q@ == p@,
        explicit is None ==> match r {
            Some(q) => exists|i: int| first_existing(exists@, i) && q@ == default_config_names()[i],
            None => forall|i: int|
                0 <= i < default_config_names().len() && i < exists@.len() ==> !exists@[i],
        },
{
    if let Some(p) = explicit {
        return Some(String::from_str(p));
    }
    let names = default_config_candidates();
    let mut i: usize = 0;
    while i < names.len()
        invariant
            names.deep_view() == default_config_names(),
            explicit is None,
            0 <= i <= names.len(),
            forall|k: int| 0 <= k < i && k < exists@.len() ==> !exists@[k],
        decreases names.len() - i,
    {
        if i < exists.len() && exists[i] {
            let chosen = names[i].clone();
            assert(first_existing(exists@, i as int));
            return Some(chosen);
        }
        i = i + 1;
    }
    None
}

} // verus!
