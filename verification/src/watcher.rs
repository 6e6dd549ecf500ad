//! Decisions of the watcher: which rules a changed path matches, which
//! tasks an event runs and with what environment, and when the
//! configuration is to be reloaded.

use vstd::prelude::*;
use crate::config::{Config, TaskDefinition, TaskDefinitionView, WatchRule};
use crate::debounce::ChangeBatch;
use crate::pattern::{glob_compiles, glob_match, glob_matches, pattern_hits};

verus! {

/// A file system event as the watcher reads it: whether it is a mere access
/// (a read or an open), and the changed paths, each `None` where the path is
/// not valid UTF-8.
#[derive(Debug)]
pub struct FsEvent {
    pub is_access: bool,
    pub paths: Vec<Option<String>>,
}

/// What to do for one task name that a matched rule lists: run the
/// definition with the given environment, or report that no task of that
/// name is configured.
#[derive(Debug)]
pub enum TaskAction {
    Run { task_name: String, task: TaskDefinition, env: Vec<(String, String)> },
    Missing { task_name: String },
}

/// The mathematical value of a `TaskAction`.
pub enum ActionView {
    Run { task_name: Seq<char>, task: TaskDefinitionView, env: Seq<(Seq<char>, Seq<char>)> },
    Missing { task_name: Seq<char> },
}

impl View for TaskAction {
    type V = ActionView;

    open spec fn view(&self) -> ActionView {
        match self {
            TaskAction::Run { task_name, task, env } => ActionView::Run {
                task_name: task_name@,
                task: task@,
                env: env.deep_view(),
            },
            TaskAction::Missing { task_name } => ActionView::Missing { task_name: task_name@ },
        }
    }
}

/// The values of a sequence of actions.
pub open spec fn actions_view(actions: Seq<TaskAction>) -> Seq<ActionView> {
    actions.map_values(|a: TaskAction| a@)
}

/// The paths of `paths` that are valid UTF-8, in order.
pub open spec fn present_paths(paths: Seq<Option<Seq<char>>>) -> Seq<Seq<char>>
    decreases paths.len(),
{
    if paths.len() == 0 {
        seq![]
    } else {
        let rest = present_paths(paths.drop_last());
        match paths.last() {
            Some(p) => rest.push(p),
            None => rest,
        }
    }
}

/// The items of `list` separated by commas.
pub open spec fn comma_joined(list: Seq<Seq<char>>) -> Seq<char>
    decreases list.len(),
{
    if list.len() == 0 {
        seq![]
    } else if list.len() == 1 {
        list[0]
    } else {
        comma_joined(list.drop_last()) + seq![','] + list.last()
    }
}

/// The environment that a task started for an event gets: the changed paths,
/// comma-separated, and the task's name.
pub open spec fn task_env(task_name: Seq<char>, changed: Seq<char>) -> Seq<(Seq<char>, Seq<char>)> {
    seq![("WATCHMANX_EVENT_PATHS"@, changed), ("WATCHMANX_TASK_NAME"@, task_name)]
}

/// The action for the task name `name`.
pub open spec fn planned_action(
    name: Seq<char>,
    tasks: Map<Seq<char>, TaskDefinitionView>,
    changed: Seq<char>,
) -> ActionView {
    if tasks.contains_key(name) {
        ActionView::Run { task_name: name, task: tasks[name], env: task_env(name, changed) }
    } else {
        ActionView::Missing { task_name: name }
    }
}

/// The actions that one rule asks for on one path: one per task name it
/// lists, in order, when the path matches it; none otherwise.
pub open spec fn rule_actions(
    rule: WatchRule,
    path: Option<Seq<char>>,
    tasks: Map<Seq<char>, TaskDefinitionView>,
    changed: Seq<char>,
) -> Seq<ActionView> {
    if rule_matches(rule.patterns.deep_view(), rule.ignore.deep_view(), path) {
        rule.tasks.deep_view().map_values(|n: Seq<char>| planned_action(n, tasks, changed))
    } else {
        seq![]
    }
}

/// The actions of all rules, in order, on one path.
pub open spec fn path_actions(
    rules: Seq<WatchRule>,
    path: Option<Seq<char>>,
    tasks: Map<Seq<char>, TaskDefinitionView>,
    changed: Seq<char>,
) -> Seq<ActionView>
    decreases rules.len(),
{
    if rules.len() == 0 {
        seq![]
    } else {
        path_actions(rules.drop_last(), path, tasks, changed) + rule_actions(
            rules.last(),
            path,
            tasks,
            changed,
        )
    }
}

/// The actions for every path, in order.
pub open spec fn paths_actions(
    paths: Seq<Option<Seq<char>>>,
    rules: Seq<WatchRule>,
    tasks: Map<Seq<char>, TaskDefinitionView>,
    changed: Seq<char>,
) -> Seq<ActionView>
    decreases paths.len(),
{
    if paths.len() == 0 {
        seq![]
    } else {
        paths_actions(paths.drop_last(), rules, tasks, changed) + path_actions(
            rules,
            paths.last(),
            tasks,
            changed,
        )
    }
}

/// The plan for an event: nothing for an access; otherwise, for each path,
/// each rule and each task that the rule names, in that nesting, the action
/// for that task.
pub open spec fn event_plan(
    is_access: bool,
    paths: Seq<Option<Seq<char>>>,
    rules: Seq<WatchRule>,
    tasks: Map<Seq<char>, TaskDefinitionView>,
) -> Seq<ActionView> {
    if is_access {
        seq![]
    } else {
        paths_actions(paths, rules, tasks, comma_joined(present_paths(paths)))
    }
}

/// Some pattern of `patterns` hits `path`.
pub open spec fn any_hits(patterns: Seq<Seq<char>>, path: Seq<char>) -> bool {
    exists|i: int| 0 <= i < patterns.len() && #[trigger] pattern_hits(patterns[i], path)
}

/// Whether a changed path matches a rule. A path that is not valid UTF-8
/// (`None`) matches nothing. A rule without selecting patterns matches every
/// path, and its ignore patterns are then not consulted. Otherwise one
/// selecting pattern must hit the path and no ignore pattern may hit it;
/// patterns that do not compile hit nothing.
pub open spec fn rule_matches(
    patterns: Seq<Seq<char>>,
    ignore: Seq<Seq<char>>,
    path: Option<Seq<char>>,
) -> bool {
    match path {
        None => false,
        Some(p) => patterns.len() == 0 || (any_hits(patterns, p) && !any_hits(ignore, p)),
    }
}

/// The view of a path as the rule specification reads it.
pub open spec fn path_view(path: Option<&str>) -> Option<Seq<char>> {
    match path {
        Some(s) => Some(s@),
        None => None,
    }
}

/// What the glob calls answered for each pattern of `patterns` on `path`:
/// `None` where the pattern does not compile, otherwise whether it matches.
pub fn glob_answers(patterns: &Vec<String>, path: &str) -> (r: Vec<Option<bool>>)
    ensures
        r@.len() == patterns@.len(),
        forall|i: int|
            0 <= i < r@.len() ==> (#[trigger] r@[i] is Some <==> glob_compiles(
                patterns.deep_view()[i],
            )),
        forall|i: int|
            0 <= i < r@.len() ==> (#[trigger] r@[i] matches Some(b) ==> b == glob_matches(
                patterns.deep_view()[i],
                path@,
            )),
{
    let ghost pats = patterns.deep_view();
    let mut r: Vec<Option<bool>> = Vec::new();
    let mut i: usize = 0;
    while i < patterns.len()
        invariant
            pats == patterns.deep_view(),
            0 <= i <= patterns.len(),
            r@.len() == i,
            forall|k: int| 0 <= k < i ==> (#[trigger] r@[k] is Some <==> glob_compiles(pats[k])),
            forall|k: int|
                0 <= k < i ==> (#[trigger] r@[k] matches Some(b) ==> b == glob_matches(
                    pats[k],
                    path@,
                )),
        decreases patterns.len() - i,
    {
        r.push(glob_match(patterns[i].as_str(), path));
        i = i + 1;
    }
    r
}

/// Some answer is a match.
pub open spec fn some_hit(answers: Seq<Option<bool>>) -> bool {
    exists|i: int| 0 <= i < answers.len() && answers[i] == Some(true)
}

/// The verdict of a rule from the glob answers: no match for a path that is
/// not valid UTF-8; a match when there are no selecting patterns; otherwise a
/// match when a selecting pattern matched and no ignore pattern did.
pub open spec fn rule_verdict_spec(
    path_valid: bool,
    wanted: Seq<Option<bool>>,
    ignore: Seq<Option<bool>>,
) -> bool {
    path_valid && (wanted.len() == 0 || (some_hit(wanted) && !some_hit(ignore)))
}

/// Whether some answer is a match.
fn any_match(answers: &Vec<Option<bool>>) -> (r: bool)
    ensures
        r == some_hit(answers@),
{
    let mut i: usize = 0;
    while i < answers.len()
        invariant
            0 <= i <= answers.len(),
            forall|k: int| 0 <= k < i ==> answers@[k] != Some(true),
        decreases answers.len() - i,
    {
        if let Some(true) = answers[i] {
            return true;
        }
        i = i + 1;
    }
    false
}

/// The verdict of a rule from the glob answers for its selecting and ignore
/// patterns (see `rule_verdict_spec`).
pub fn rule_verdict(path_valid: bool, wanted: &Vec<Option<bool>>, ignore: &Vec<Option<bool>>) -> (r:
    bool)
    ensures
        r == rule_verdict_spec(path_valid, wanted@, ignore@),
{
    if !path_valid {
        return false;
    }
    if wanted.len() == 0 {
        return true;
    }
    any_match(wanted) && !any_match(ignore)
}

proof fn lemma_answers_hit(
    patterns: Seq<Seq<char>>,
    answers: Seq<Option<bool>>,
    path: Seq<char>,
)
    requires
        answers.len() == patterns.len(),
        forall|i: int| 0 <= i < answers.len() ==> (#[trigger] answers[i] is Some <==> glob_compiles(patterns[i])),
        forall|i: int|
            0 <= i < answers.len() ==> (#[trigger] answers[i] matches Some(b) ==> b == glob_matches(
                patterns[i],
                path,
            )),
    ensures
        some_hit(answers) == any_hits(patterns, path),
{
    if some_hit(answers) {
        let i = choose|i: int| 0 <= i < answers.len() && answers[i] == Some(true);
        assert(pattern_hits(patterns[i], path));
    }
    if any_hits(patterns, path) {
        let i = choose|i: int| 0 <= i < patterns.len() && #[trigger] pattern_hits(patterns[i], path);
        assert(answers[i] is Some);
        assert(answers[i] == Some(true));
    }
}

/// Whether `path` matches `rule` (see `rule_matches`).
pub fn matches_rule(path: Option<&str>, rule: &WatchRule) -> (r: bool)
    ensures
        r == rule_matches(rule.patterns.deep_view(), rule.ignore.deep_view(), path_view(path)),
{
    match path {
        None => rule_verdict(false, &Vec::new(), &Vec::new()),
        Some(p) => {
            let wanted = glob_answers(&rule.patterns, p);
            let ignore = glob_answers(&rule.ignore, p);
            proof {
                lemma_answers_hit(rule.patterns.deep_view(), wanted@, p@);
                lemma_answers_hit(rule.ignore.deep_view(), ignore@, p@);
            }
            rule_verdict(true, &wanted, &ignore)
        },
    }
}

/// An access (a read or an open) triggers nothing.
pub proof fn law_access_plans_nothing(
    paths: Seq<Option<Seq<char>>>,
    rules: Seq<WatchRule>,
    tasks: Map<Seq<char>, TaskDefinitionView>,
)
    ensures
        event_plan(true, paths, rules, tasks) == Seq::<ActionView>::empty(),
{
}

/// A path that is not valid UTF-8 matches no rule.
pub proof fn law_invalid_path_matches_nothing(patterns: Seq<Seq<char>>, ignore: Seq<Seq<char>>)
    ensures
        !rule_matches(patterns, ignore, None),
{
}

/// A rule without selecting patterns matches every valid path, whatever its
/// ignore patterns say.
pub proof fn law_no_selecting_patterns_match_all(ignore: Seq<Seq<char>>, path: Seq<char>)
    ensures
        rule_matches(seq![], ignore, Some(path)),
{
}

/// When a rule has selecting patterns, an ignore pattern that hits a path
/// keeps the rule from matching it.
pub proof fn law_ignore_wins(
    patterns: Seq<Seq<char>>,
    ignore: Seq<Seq<char>>,
    path: Seq<char>,
    j: int,
)
    requires
        patterns.len() > 0,
        0 <= j < ignore.len(),
        pattern_hits(ignore[j], path),
    ensures
        !rule_matches(patterns, ignore, Some(path)),
{
}

/// A rule matches a valid path only through a selecting pattern that hits
/// it, unless it has no selecting patterns at all.
pub proof fn law_match_needs_selecting_hit(
    patterns: Seq<Seq<char>>,
    ignore: Seq<Seq<char>>,
    path: Seq<char>,
)
    requires
        patterns.len() > 0,
        rule_matches(patterns, ignore, Some(path)),
    ensures
        exists|i: int| 0 <= i < patterns.len() && pattern_hits(patterns[i], path),
{
}

/// One hit suffices: a valid path that some selecting pattern compiles to
/// and matches, and that no ignore pattern compiles to and matches, matches
/// the rule, whatever the other selecting patterns say.
pub proof fn law_one_hit_suffices(
    patterns: Seq<Seq<char>>,
    ignore: Seq<Seq<char>>,
    path: Seq<char>,
    i: int,
)
    requires
        0 <= i < patterns.len(),
        glob_compiles(patterns[i]),
        glob_matches(patterns[i], path),
        forall|j: int|
            0 <= j < ignore.len() ==> !(glob_compiles(ignore[j]) && #[trigger] glob_matches(
                ignore[j],
                path,
            )),
    ensures
        rule_matches(patterns, ignore, Some(path)),
{
    assert(pattern_hits(patterns[i], path));
    assert forall|j: int| 0 <= j < ignore.len() implies !#[trigger] pattern_hits(ignore[j], path) by {
        assert(!(glob_compiles(ignore[j]) && glob_matches(ignore[j], path)));
    }
}

/// The verdict from the glob answers, in full: a valid path matches when
/// the rule has no selecting patterns, or when some selecting answer is a
/// match and no ignore answer is; an invalid path never matches. In
/// particular one matching answer suffices, whatever the others are.
pub proof fn law_verdict_from_answers(
    path_valid: bool,
    wanted: Seq<Option<bool>>,
    ignore: Seq<Option<bool>>,
)
    ensures
        rule_verdict_spec(path_valid, wanted, ignore) <==> (path_valid && (wanted.len() == 0 || (
        (exists|i: int| 0 <= i < wanted.len() && wanted[i] == Some(true)) && (forall|j: int|
            0 <= j < ignore.len() ==> ignore[j] != Some(true))))),
{
}

/// The plan of the first rules is where the plan of all rules starts.
proof fn lemma_path_actions_prefix(
    rules: Seq<WatchRule>,
    m: int,
    path: Option<Seq<char>>,
    tasks: Map<Seq<char>, TaskDefinitionView>,
    changed: Seq<char>,
)
    requires
        0 <= m <= rules.len(),
    ensures
        path_actions(rules, path, tasks, changed).take(
            path_actions(rules.take(m), path, tasks, changed).len() as int,
        ) == path_actions(rules.take(m), path, tasks, changed),
        path_actions(rules.take(m), path, tasks, changed).len() <= path_actions(
            rules,
            path,
            tasks,
            changed,
        ).len(),
    decreases rules.len() - m,
{
    if m == rules.len() {
        assert(rules.take(m) =~= rules);
    } else {
        let shorter = rules.drop_last();
        assert(shorter.take(m) =~= rules.take(m));
        lemma_path_actions_prefix(shorter, m, path, tasks, changed);
        let a = path_actions(shorter, path, tasks, changed);
        let b = rule_actions(rules.last(), path, tasks, changed);
        let p = path_actions(rules.take(m), path, tasks, changed);
        assert((a + b).take(p.len() as int) =~= a.take(p.len() as int));
    }
}

/// A rule that matches a path runs its tasks there: in the plan of a path,
/// right after the actions of the rules before it, a matching rule adds one
/// action per task name it lists, in order, each the configured run or a
/// report of a missing task; no other field of the rule plays a part. The
/// actions of the rules up to it start the plan of all rules.
pub proof fn law_matching_rule_runs_its_tasks(
    rules: Seq<WatchRule>,
    k: int,
    path: Option<Seq<char>>,
    tasks: Map<Seq<char>, TaskDefinitionView>,
    changed: Seq<char>,
)
    requires
        0 <= k < rules.len(),
        rule_matches(rules[k].patterns.deep_view(), rules[k].ignore.deep_view(), path),
    ensures
        path_actions(rules.take(k + 1), path, tasks, changed) == path_actions(
            rules.take(k),
            path,
            tasks,
            changed,
        ) + rules[k].tasks.deep_view().map_values(|n: Seq<char>| planned_action(n, tasks, changed)),
        path_actions(rules, path, tasks, changed).take(
            path_actions(rules.take(k + 1), path, tasks, changed).len() as int,
        ) == path_actions(rules.take(k + 1), path, tasks, changed),
{
    assert(rules.take(k + 1).drop_last() =~= rules.take(k));
    assert(rules.take(k + 1).last() == rules[k]);
    lemma_path_actions_prefix(rules, k + 1, path, tasks, changed);
}

/// The plan of the first paths is where the plan of all paths starts.
proof fn lemma_paths_actions_prefix(
    paths: Seq<Option<Seq<char>>>,
    m: int,
    rules: Seq<WatchRule>,
    tasks: Map<Seq<char>, TaskDefinitionView>,
    changed: Seq<char>,
)
    requires
        0 <= m <= paths.len(),
    ensures
        paths_actions(paths, rules, tasks, changed).take(
            paths_actions(paths.take(m), rules, tasks, changed).len() as int,
        ) == paths_actions(paths.take(m), rules, tasks, changed),
        paths_actions(paths.take(m), rules, tasks, changed).len() <= paths_actions(
            paths,
            rules,
            tasks,
            changed,
        ).len(),
    decreases paths.len() - m,
{
    if m == paths.len() {
        assert(paths.take(m) =~= paths);
    } else {
        let shorter = paths.drop_last();
        assert(shorter.take(m) =~= paths.take(m));
        lemma_paths_actions_prefix(shorter, m, rules, tasks, changed);
        let a = paths_actions(shorter, rules, tasks, changed);
        let b = path_actions(rules, paths.last(), tasks, changed);
        let p = paths_actions(paths.take(m), rules, tasks, changed);
        assert((a + b).take(p.len() as int) =~= a.take(p.len() as int));
    }
}

/// Each changed path gets its own actions, in path order: in the plan of
/// the paths, right after the actions of the paths before it, a path adds
/// the actions of all rules for it; the actions up to it start the plan of
/// all paths.
pub proof fn law_each_path_planned_in_order(
    paths: Seq<Option<Seq<char>>>,
    i: int,
    rules: Seq<WatchRule>,
    tasks: Map<Seq<char>, TaskDefinitionView>,
    changed: Seq<char>,
)
    requires
        0 <= i < paths.len(),
    ensures
        paths_actions(paths.take(i + 1), rules, tasks, changed) == paths_actions(
            paths.take(i),
            rules,
            tasks,
            changed,
        ) + path_actions(rules, paths[i], tasks, changed),
        paths_actions(paths, rules, tasks, changed).take(
            paths_actions(paths.take(i + 1), rules, tasks, changed).len() as int,
        ) == paths_actions(paths.take(i + 1), rules, tasks, changed),
{
    assert(paths.take(i + 1).drop_last() =~= paths.take(i));
    assert(paths.take(i + 1).last() == paths[i]);
    lemma_paths_actions_prefix(paths, i + 1, rules, tasks, changed);
}

/// Every planned action agrees with the configuration: a run carries the
/// configured definition of its task and the event environment with the
/// task's name; a missing task is one that is not configured.
pub open spec fn actions_agree(
    actions: Seq<ActionView>,
    tasks: Map<Seq<char>, TaskDefinitionView>,
    changed: Seq<char>,
) -> bool {
    forall|i: int|
        0 <= i < actions.len() ==> match #[trigger] actions[i] {
            ActionView::Run { task_name, task, env } => tasks.contains_key(task_name) && task
                == tasks[task_name] && env == task_env(task_name, changed),
            ActionView::Missing { task_name } => !tasks.contains_key(task_name),
        }
}

proof fn lemma_concat_agrees(
    a: Seq<ActionView>,
    b: Seq<ActionView>,
    tasks: Map<Seq<char>, TaskDefinitionView>,
    changed: Seq<char>,
)
    requires
        actions_agree(a, tasks, changed),
        actions_agree(b, tasks, changed),
    ensures
        actions_agree(a + b, tasks, changed),
{
    assert forall|i: int| 0 <= i < (a + b).len() implies match #[trigger] (a + b)[i] {
        ActionView::Run { task_name, task, env } => tasks.contains_key(task_name) && task
            == tasks[task_name] && env == task_env(task_name, changed),
        ActionView::Missing { task_name } => !tasks.contains_key(task_name),
    } by {
        if i < a.len() {
            assert((a + b)[i] == a[i]);
        } else {
            assert((a + b)[i] == b[i - a.len()]);
        }
    }
}

proof fn lemma_path_actions_agree(
    rules: Seq<WatchRule>,
    path: Option<Seq<char>>,
    tasks: Map<Seq<char>, TaskDefinitionView>,
    changed: Seq<char>,
)
    ensures
        actions_agree(path_actions(rules, path, tasks, changed), tasks, changed),
    decreases rules.len(),
{
    if rules.len() > 0 {
        lemma_path_actions_agree(rules.drop_last(), path, tasks, changed);
        let ra = rule_actions(rules.last(), path, tasks, changed);
        assert(actions_agree(ra, tasks, changed));
        lemma_concat_agrees(path_actions(rules.drop_last(), path, tasks, changed), ra, tasks, changed);
    }
}

/// Every action planned for any paths and rules agrees with the
/// configuration (see `actions_agree`).
pub proof fn law_plan_agrees_with_config(
    paths: Seq<Option<Seq<char>>>,
    rules: Seq<WatchRule>,
    tasks: Map<Seq<char>, TaskDefinitionView>,
    changed: Seq<char>,
)
    ensures
        actions_agree(paths_actions(paths, rules, tasks, changed), tasks, changed),
    decreases paths.len(),
{
    if paths.len() > 0 {
        law_plan_agrees_with_config(paths.drop_last(), rules, tasks, changed);
        lemma_path_actions_agree(rules, paths.last(), tasks, changed);
        lemma_concat_agrees(
            paths_actions(paths.drop_last(), rules, tasks, changed),
            path_actions(rules, paths.last(), tasks, changed),
            tasks,
            changed,
        );
    }
}

/// A path that matches none of the rules triggers nothing.
pub proof fn law_unmatched_path_triggers_nothing(
    rules: Seq<WatchRule>,
    path: Option<Seq<char>>,
    tasks: Map<Seq<char>, TaskDefinitionView>,
    changed: Seq<char>,
)
    requires
        forall|k: int|
            0 <= k < rules.len() ==> !rule_matches(
                #[trigger] rules[k].patterns.deep_view(),
                rules[k].ignore.deep_view(),
                path,
            ),
    ensures
        path_actions(rules, path, tasks, changed) == Seq::<ActionView>::empty(),
    decreases rules.len(),
{
    if rules.len() > 0 {
        let last = rules.len() - 1;
        assert(!rule_matches(rules[last].patterns.deep_view(), rules[last].ignore.deep_view(), path));
        assert forall|k: int| 0 <= k < rules.drop_last().len() implies !rule_matches(
            #[trigger] rules.drop_last()[k].patterns.deep_view(),
            rules.drop_last()[k].ignore.deep_view(),
            path,
        ) by {
            assert(rules.drop_last()[k] == rules[k]);
        }
        law_unmatched_path_triggers_nothing(rules.drop_last(), path, tasks, changed);
        assert(path_actions(rules, path, tasks, changed) =~= Seq::<ActionView>::empty());
    }
}

/// The changed paths that are valid UTF-8, separated by commas.
pub fn joined_paths(paths: &Vec<Option<String>>) -> (r: String)
    ensures
        r@ == comma_joined(present_paths(paths.deep_view())),
{
    let ghost pv = paths.deep_view();
    let mut r = String::new();
    let mut any = false;
    let mut i: usize = 0;
    proof {
        reveal_strlit(",");
    }
    while i < paths.len()
        invariant
            pv == paths.deep_view(),
            0 <= i <= paths.len(),
            any == (present_paths(pv.take(i as int)).len() > 0),
            r@ == comma_joined(present_paths(pv.take(i as int))),
            ","@ == seq![','],
        decreases paths.len() - i,
    {
        assert(pv.take(i + 1).drop_last() =~= pv.take(i as int));
        let ghost done = present_paths(pv.take(i as int));
        match &paths[i] {
            Some(p) => {
                assert(pv.take(i + 1).last() == Some(p@));
                assert(present_paths(pv.take(i + 1)) == done.push(p@));
                assert(done.push(p@).drop_last() =~= done);
                if any {
                    r.append(",");
                }
                r.append(p.as_str());
                assert(r@ =~= comma_joined(done.push(p@)));
                any = true;
            },
            None => {
                assert(pv.take(i + 1).last() == None::<Seq<char>>);
            },
        }
        i = i + 1;
    }
    assert(pv.take(paths.len() as int) =~= pv);
    r
}

/// The environment for a task started for an event (see `task_env`).
pub fn task_environment(task_name: &str, changed: &str) -> (r: Vec<(String, String)>)
    ensures
        r.deep_view() == task_env(task_name@, changed@),
{
    let mut r: Vec<(String, String)> = Vec::new();
    r.push((String::from_str("WATCHMANX_EVENT_PATHS"), String::from_str(changed)));
    r.push((String::from_str("WATCHMANX_TASK_NAME"), String::from_str(task_name)));
    assert(r.deep_view() =~= task_env(task_name@, changed@));
    r
}

/// The environment for a task started by hand or on a remote request,
/// where no file changed: the task's name, and no changed paths.
pub fn manual_environment(task_name: &str) -> (r: Vec<(String, String)>)
    ensures
        r.deep_view() == task_env(task_name@, seq![]),
{
    let none = "";
    proof {
        reveal_strlit("");
        assert(none@ =~= Seq::<char>::empty());
    }
    task_environment(task_name, none)
}

/// The patterns of `patterns` that do not compile, in order.
pub open spec fn uncompiled(patterns: Seq<Seq<char>>) -> Seq<Seq<char>>
    decreases patterns.len(),
{
    if patterns.len() == 0 {
        seq![]
    } else {
        let before = uncompiled(patterns.drop_last());
        if glob_compiles(patterns.last()) {
            before
        } else {
            before.push(patterns.last())
        }
    }
}

/// The selecting patterns of `rules` that do not compile, rule by rule, in
/// order (ignore patterns are not listed).
pub open spec fn rules_uncompiled(rules: Seq<WatchRule>) -> Seq<Seq<char>>
    decreases rules.len(),
{
    if rules.len() == 0 {
        seq![]
    } else {
        rules_uncompiled(rules.drop_last()) + uncompiled(rules.last().patterns.deep_view())
    }
}

/// The selecting patterns of the configured rules that do not compile, so
/// that they can be reported: such a pattern never selects a path.
pub fn invalid_patterns(config: &Config) -> (r: Vec<String>)
    ensures
        r.deep_view() == rules_uncompiled(config.rules()),
{
    let rules = config.watch();
    let ghost rv = rules@;
    let mut r: Vec<String> = Vec::new();
    let mut j: usize = 0;
    while j < rules.len()
        invariant
            rv == rules@,
            0 <= j <= rules.len(),
            r.deep_view() == rules_uncompiled(rv.take(j as int)),
        decreases rules.len() - j,
    {
        let pats = &rules[j].patterns;
        let ghost pv = pats.deep_view();
        let ghost start = r.deep_view();
        let mut i: usize = 0;
        while i < pats.len()
            invariant
                pv == pats.deep_view(),
                0 <= i <= pats.len(),
                r.deep_view() == start + uncompiled(pv.take(i as int)),
            decreases pats.len() - i,
        {
            assert(pv.take(i + 1).drop_last() =~= pv.take(i as int));
            assert(pv.take(i + 1).last() == pv[i as int]);
            if glob_match(pats[i].as_str(), "").is_none() {
                let ghost prev = r.deep_view();
                r.push(pats[i].clone());
                assert(r.deep_view() =~= prev.push(pv[i as int]));
            }
            assert(r.deep_view() =~= start + uncompiled(pv.take(i + 1)));
            i = i + 1;
        }
        assert(pv.take(pats.len() as int) =~= pv);
        assert(rv.take(j + 1).drop_last() =~= rv.take(j as int));
        j = j + 1;
    }
    assert(rv.take(rules.len() as int) =~= rv);
    r
}

/// The action for the task named `name`.
fn action_for(name: &String, config: &Config, changed: &String) -> (r: TaskAction)
    ensures
        r@ == planned_action(name@, config.tasks_view(), changed@),
{
    match config.task(name.as_str()) {
        Some(t) => TaskAction::Run {
            task_name: name.clone(),
            task: t.duplicate(),
            env: task_environment(name.as_str(), changed.as_str()),
        },
        None => TaskAction::Missing { task_name: name.clone() },
    }
}

/// What the watcher does for one event: see `event_plan`.
pub fn plan_event(event: &FsEvent, config: &Config) -> (r: Vec<TaskAction>)
    ensures
        actions_view(r@) == event_plan(
            event.is_access,
            event.paths.deep_view(),
            config.rules(),
            config.tasks_view(),
        ),
{
    if event.is_access {
        let actions: Vec<TaskAction> = Vec::new();
        assert(actions_view(actions@) =~= seq![]);
        return actions;
    }
    let changed = joined_paths(&event.paths);
    plan_paths(&event.paths, config, &changed)
}

/// The actions for the changed paths `paths`, each run carrying `changed`
/// as its list of changed paths (see `paths_actions`).
fn plan_paths(paths: &Vec<Option<String>>, config: &Config, changed: &String) -> (r: Vec<
    TaskAction,
>)
    ensures
        actions_view(r@) == paths_actions(
            paths.deep_view(),
            config.rules(),
            config.tasks_view(),
            changed@,
        ),
{
    let mut actions: Vec<TaskAction> = Vec::new();
    let ghost pv = paths.deep_view();
    let ghost tasks = config.tasks_view();
    let ghost cj = changed@;
    let rules = config.watch();
    let ghost rv = rules@;
    let mut i: usize = 0;
    while i < paths.len()
        invariant
            pv == paths.deep_view(),
            tasks == config.tasks_view(),
            cj == changed@,
            rv == rules@,
            rv == config.rules(),
            0 <= i <= paths.len(),
            actions_view(actions@) == paths_actions(pv.take(i as int), rv, tasks, cj),
        decreases paths.len() - i,
    {
        let path: Option<&str> = match &paths[i] {
            Some(s) => Some(s.as_str()),
            None => None,
        };
        let ghost pth = pv[i as int];
        assert(path_view(path) == pth);
        let ghost before = actions_view(actions@);
        let mut j: usize = 0;
        while j < rules.len()
            invariant
                tasks == config.tasks_view(),
                cj == changed@,
                rv == rules@,
                path_view(path) == pth,
                0 <= j <= rules.len(),
                actions_view(actions@) == before + path_actions(rv.take(j as int), pth, tasks, cj),
            decreases rules.len() - j,
        {
            let rule = &rules[j];
            let ghost mid = actions_view(actions@);
            assert(rv.take(j + 1).drop_last() =~= rv.take(j as int));
            if matches_rule(path, rule) {
                let ghost names = rule.tasks.deep_view();
                let mut k: usize = 0;
                while k < rule.tasks.len()
                    invariant
                        tasks == config.tasks_view(),
                        cj == changed@,
                        names == rule.tasks.deep_view(),
                        0 <= k <= rule.tasks.len(),
                        actions_view(actions@) == mid + names.take(k as int).map_values(
                            |n: Seq<char>| planned_action(n, tasks, cj),
                        ),
                    decreases rule.tasks.len() - k,
                {
                    let a = action_for(&rule.tasks[k], config, changed);
                    let ghost prev = actions@;
                    actions.push(a);
                    assert(actions_view(actions@) =~= actions_view(prev).push(a@));
                    assert(names.take(k + 1).map_values(|n: Seq<char>| planned_action(n, tasks, cj))
                        =~= names.take(k as int).map_values(|n: Seq<char>| planned_action(n, tasks, cj)).push(
                            planned_action(names[k as int], tasks, cj),
                        ));
                    assert(actions_view(actions@) =~= mid + names.take(k + 1).map_values(
                        |n: Seq<char>| planned_action(n, tasks, cj),
                    ));
                    k = k + 1;
                }
                assert(names.take(rule.tasks.len() as int) =~= names);
            } else {
                assert(rule_actions(*rule, pth, tasks, cj) =~= seq![]);
            }
            assert(actions_view(actions@) =~= before + path_actions(rv.take(j + 1), pth, tasks, cj));
            j = j + 1;
        }
        assert(rv.take(rules.len() as int) =~= rv);
        assert(pv.take(i + 1).drop_last() =~= pv.take(i as int));
        assert(actions_view(actions@) =~= paths_actions(pv.take(i + 1), rv, tasks, cj));
        i = i + 1;
    }
    assert(pv.take(paths.len() as int) =~= pv);
    actions
}

/// The event changes the file `target`: it is not a mere access and one of
/// its paths is exactly `target`.
pub open spec fn event_touches(is_access: bool, paths: Seq<Option<Seq<char>>>, target: Seq<char>) -> bool {
    !is_access && paths.contains(Some(target))
}

/// Whether `paths` holds exactly `target`.
fn paths_contain(paths: &Vec<Option<String>>, target: &str) -> (r: bool)
    ensures
        r == paths.deep_view().contains(Some(target@)),
{
    let ghost pv = paths.deep_view();
    let key = target.to_owned();
    let mut i: usize = 0;
    while i < paths.len()
        invariant
            pv == paths.deep_view(),
            key@ == target@,
            0 <= i <= paths.len(),
            forall|k: int| 0 <= k < i ==> pv[k] != Some(target@),
        decreases paths.len() - i,
    {
        if let Some(p) = &paths[i] {
            if *p == key {
                assert(pv[i as int] == Some(target@));
                assert(pv.contains(Some(target@)));
                return true;
            }
        }
        i = i + 1;
    }
    false
}

/// Whether `event` changes the file `target` (see `event_touches`).
pub fn touches_path(event: &FsEvent, target: &str) -> (r: bool)
    ensures
        r == event_touches(event.is_access, event.paths.deep_view(), target@),
{
    if event.is_access {
        return false;
    }
    paths_contain(&event.paths, target)
}

/// The task name that an action is about.
pub open spec fn action_name(a: ActionView) -> Seq<char> {
    match a {
        ActionView::Run { task_name, .. } => task_name,
        ActionView::Missing { task_name } => task_name,
    }
}

/// The names of `names`, each once, in the order of their first occurrence.
pub open spec fn distinct_names(names: Seq<Seq<char>>) -> Seq<Seq<char>>
    decreases names.len(),
{
    if names.len() == 0 {
        seq![]
    } else {
        let before = distinct_names(names.drop_last());
        if before.contains(names.last()) {
            before
        } else {
            before.push(names.last())
        }
    }
}

/// Keeping first occurrences yields a list without repeats that holds
/// exactly the names of the original list.
pub proof fn lemma_distinct_names(names: Seq<Seq<char>>)
    ensures
        distinct_names(names).no_duplicates(),
        forall|x: Seq<char>| #[trigger] distinct_names(names).contains(x) <==> names.contains(x),
    decreases names.len(),
{
    if names.len() > 0 {
        let rest = names.drop_last();
        let last = names.last();
        lemma_distinct_names(rest);
        let before = distinct_names(rest);
        assert forall|x: Seq<char>| #[trigger] names.contains(x) <==> (rest.contains(x) || x == last) by {
            if names.contains(x) {
                let k = choose|k: int| 0 <= k < names.len() && names[k] == x;
                if k < rest.len() {
                    assert(rest[k] == x);
                }
            }
            if rest.contains(x) {
                let k = choose|k: int| 0 <= k < rest.len() && rest[k] == x;
                assert(names[k] == x);
            }
            if x == last {
                assert(names[names.len() - 1] == x);
            }
        }
        if !before.contains(last) {
            assert forall|x: Seq<char>| #[trigger] before.push(last).contains(x) <==> (before.contains(x)
                || x == last) by {
                if before.push(last).contains(x) {
                    let k = choose|k: int| 0 <= k < before.push(last).len() && before.push(last)[k] == x;
                    if k < before.len() {
                        assert(before[k] == x);
                    }
                }
                if before.contains(x) {
                    let k = choose|k: int| 0 <= k < before.len() && before[k] == x;
                    assert(before.push(last)[k] == x);
                }
                if x == last {
                    assert(before.push(last)[before.len() as int] == x);
                }
            }
        }
    }
}

/// The paths handed to the tasks of a batch hold every valid path of the
/// batch, and each once.
pub proof fn law_batch_paths_listed_once(changes: Seq<Seq<Option<Seq<char>>>>)
    ensures
        distinct_names(all_present(changes)).no_duplicates(),
        forall|p: Seq<char>| #[trigger] distinct_names(all_present(changes)).contains(p) <==> all_present(
            changes,
        ).contains(p),
{
    lemma_distinct_names(all_present(changes));
}

/// `x` occurs first at position `k` of `s`.
pub open spec fn first_at(s: Seq<Seq<char>>, x: Seq<char>, k: int) -> bool {
    0 <= k < s.len() && s[k] == x && forall|m: int| 0 <= m < k ==> s[m] != x
}

/// The items of `ds` come in the order of their first occurrence in `s`.
pub open spec fn in_first_order(ds: Seq<Seq<char>>, s: Seq<Seq<char>>) -> bool {
    forall|i: int, j: int, ki: int, kj: int|
        0 <= i < j < ds.len() && #[trigger] first_at(s, ds[i], ki) && #[trigger] first_at(
            s,
            ds[j],
            kj,
        ) ==> ki < kj
}

proof fn lemma_first_at_unique(s: Seq<Seq<char>>, x: Seq<char>, k1: int, k2: int)
    requires
        first_at(s, x, k1),
        first_at(s, x, k2),
    ensures
        k1 == k2,
{
    if k1 < k2 {
        assert(s[k1] == x);
    } else if k2 < k1 {
        assert(s[k2] == x);
    }
}

proof fn lemma_first_at_extends(s: Seq<Seq<char>>, y: Seq<char>, k: int)
    requires
        s.len() > 0,
        first_at(s.drop_last(), y, k),
    ensures
        first_at(s, y, k),
{
    let rest = s.drop_last();
    assert(s[k] == rest[k]);
    assert forall|m: int| 0 <= m < k implies s[m] != y by {
        assert(s[m] == rest[m]);
    }
}

proof fn lemma_first_exists(s: Seq<Seq<char>>, x: Seq<char>)
    requires
        s.contains(x),
    ensures
        exists|k: int| first_at(s, x, k),
    decreases s.len(),
{
    let rest = s.drop_last();
    if rest.contains(x) {
        lemma_first_exists(rest, x);
        let k = choose|k: int| first_at(rest, x, k);
        lemma_first_at_extends(s, x, k);
    } else {
        let n = s.len() - 1;
        let j = choose|j: int| 0 <= j < s.len() && s[j] == x;
        if j < n {
            assert(rest[j] == x);
        }
        assert forall|m: int| 0 <= m < n implies s[m] != x by {
            if s[m] == x {
                assert(rest[m] == x);
            }
        }
        assert(first_at(s, x, n));
    }
}

proof fn lemma_distinct_in_first_order(s: Seq<Seq<char>>)
    ensures
        in_first_order(distinct_names(s), s),
    decreases s.len(),
{
    if s.len() > 0 {
        let rest = s.drop_last();
        let x = s.last();
        lemma_distinct_in_first_order(rest);
        lemma_distinct_names(rest);
        let d = distinct_names(rest);
        let e = distinct_names(s);
        assert(s.drop_last() == rest);
        if d.contains(x) {
            assert(e == d);
        } else {
            assert(e == d.push(x));
        }
        assert forall|i: int, j: int, ki: int, kj: int|
            0 <= i < j < e.len() && #[trigger] first_at(s, e[i], ki) && #[trigger] first_at(
                s,
                e[j],
                kj,
            ) implies ki < kj by {
            assert(e[i] == d[i]);
            assert(d.contains(d[i]));
            assert(rest.contains(e[i]));
            lemma_first_exists(rest, e[i]);
            let ri = choose|k: int| first_at(rest, e[i], k);
            lemma_first_at_extends(s, e[i], ri);
            lemma_first_at_unique(s, e[i], ri, ki);
            if j < d.len() {
                assert(e[j] == d[j]);
                assert(d.contains(d[j]));
                assert(rest.contains(e[j]));
                lemma_first_exists(rest, e[j]);
                let rj = choose|k: int| first_at(rest, e[j], k);
                lemma_first_at_extends(s, e[j], rj);
                lemma_first_at_unique(s, e[j], rj, kj);
                assert(first_at(rest, d[i], ri));
                assert(first_at(rest, d[j], rj));
            } else {
                assert(e[j] == x);
                assert(!d.contains(x));
                assert(!rest.contains(x));
                assert(first_at(s, x, s.len() - 1)) by {
                    assert forall|m: int| 0 <= m < s.len() - 1 implies s[m] != x by {
                        if s[m] == x {
                            assert(rest[m] == x);
                        }
                    }
                }
                lemma_first_at_unique(s, x, s.len() - 1, kj);
            }
        }
    }
}

proof fn lemma_first_order_unique(a: Seq<Seq<char>>, b: Seq<Seq<char>>, s: Seq<Seq<char>>)
    requires
        a.no_duplicates(),
        b.no_duplicates(),
        forall|p: Seq<char>| #[trigger] a.contains(p) <==> b.contains(p),
        forall|p: Seq<char>| #[trigger] a.contains(p) ==> s.contains(p),
        in_first_order(a, s),
        in_first_order(b, s),
    ensures
        a == b,
    decreases a.len() + b.len(),
{
    if a.len() == 0 {
        if b.len() > 0 {
            assert(b.contains(b[0]));
            assert(a.contains(b[0]));
        }
        assert(a =~= b);
    } else if b.len() == 0 {
        assert(a.contains(a[0]));
    } else {
        let x = a.last();
        let y = b.last();
        let na = a.len() - 1;
        let nb = b.len() - 1;
        assert(a.contains(x));
        assert(b.contains(y));
        if x != y {
            assert(a.contains(y));
            assert(b.contains(x));
            lemma_first_exists(s, x);
            lemma_first_exists(s, y);
            let kx = choose|k: int| first_at(s, x, k);
            let ky = choose|k: int| first_at(s, y, k);
            let iy = choose|i: int| 0 <= i < a.len() && a[i] == y;
            assert(iy != na);
            assert(first_at(s, a[iy], ky));
            assert(first_at(s, a[na], kx));
            assert(ky < kx);
            let ix = choose|i: int| 0 <= i < b.len() && b[i] == x;
            assert(ix != nb);
            assert(first_at(s, b[ix], kx));
            assert(first_at(s, b[nb], ky));
            assert(kx < ky);
        }
        let a2 = a.drop_last();
        let b2 = b.drop_last();
        assert forall|p: Seq<char>| #[trigger] a2.contains(p) <==> (a.contains(p) && p != x) by {
            if a2.contains(p) {
                let i = choose|i: int| 0 <= i < a2.len() && a2[i] == p;
                assert(a[i] == p);
                assert(a[na] == x);
            }
            if a.contains(p) && p != x {
                let i = choose|i: int| 0 <= i < a.len() && a[i] == p;
                assert(i != na);
                assert(a2[i] == p);
            }
        }
        assert forall|p: Seq<char>| #[trigger] b2.contains(p) <==> (b.contains(p) && p != y) by {
            if b2.contains(p) {
                let i = choose|i: int| 0 <= i < b2.len() && b2[i] == p;
                assert(b[i] == p);
                assert(b[nb] == y);
            }
            if b.contains(p) && p != y {
                let i = choose|i: int| 0 <= i < b.len() && b[i] == p;
                assert(i != nb);
                assert(b2[i] == p);
            }
        }
        assert forall|i: int, j: int, ki: int, kj: int|
            0 <= i < j < a2.len() && #[trigger] first_at(s, a2[i], ki) && #[trigger] first_at(
                s,
                a2[j],
                kj,
            ) implies ki < kj by {
            assert(a2[i] == a[i] && a2[j] == a[j]);
            assert(first_at(s, a[i], ki) && first_at(s, a[j], kj));
        }
        assert forall|i: int, j: int, ki: int, kj: int|
            0 <= i < j < b2.len() && #[trigger] first_at(s, b2[i], ki) && #[trigger] first_at(
                s,
                b2[j],
                kj,
            ) implies ki < kj by {
            assert(b2[i] == b[i] && b2[j] == b[j]);
            assert(first_at(s, b[i], ki) && first_at(s, b[j], kj));
        }
        lemma_first_order_unique(a2, b2, s);
        assert(a =~= a2.push(x));
        assert(b =~= b2.push(y));
    }
}

proof fn lemma_present_paths_contains(paths: Seq<Option<Seq<char>>>)
    ensures
        forall|p: Seq<char>| #[trigger] present_paths(paths).contains(p) <==> paths.contains(Some(p)),
    decreases paths.len(),
{
    if paths.len() > 0 {
        let rest = paths.drop_last();
        lemma_present_paths_contains(rest);
        let pr = present_paths(rest);
        assert forall|p: Seq<char>| #[trigger] present_paths(paths).contains(p) <==> paths.contains(Some(p)) by {
            if paths.contains(Some(p)) {
                let i = choose|i: int| 0 <= i < paths.len() && paths[i] == Some(p);
                if i < rest.len() {
                    assert(rest[i] == Some(p));
                }
            }
            if rest.contains(Some(p)) {
                let i = choose|i: int| 0 <= i < rest.len() && rest[i] == Some(p);
                assert(paths[i] == Some(p));
            }
            match paths.last() {
                Some(q) => {
                    if pr.push(q).contains(p) {
                        let k = choose|k: int| 0 <= k < pr.push(q).len() && pr.push(q)[k] == p;
                        if k < pr.len() {
                            assert(pr[k] == p);
                        } else {
                            assert(paths[paths.len() - 1] == Some(p));
                        }
                    }
                    if pr.contains(p) {
                        let k = choose|k: int| 0 <= k < pr.len() && pr[k] == p;
                        assert(pr.push(q)[k] == p);
                    }
                    if p == q {
                        assert(pr.push(q)[pr.len() as int] == p);
                    }
                },
                None => {},
            }
        }
    }
}

proof fn lemma_all_present_contains(changes: Seq<Seq<Option<Seq<char>>>>)
    ensures
        forall|p: Seq<char>| #[trigger] all_present(changes).contains(p) <==> exists|i: int|
            0 <= i < changes.len() && changes[i].contains(Some(p)),
    decreases changes.len(),
{
    if changes.len() > 0 {
        let rest = changes.drop_last();
        let last = changes.last();
        lemma_all_present_contains(rest);
        lemma_present_paths_contains(last);
        let a = all_present(rest);
        let b = present_paths(last);
        assert forall|p: Seq<char>| #[trigger] all_present(changes).contains(p) <==> exists|i: int|
            0 <= i < changes.len() && changes[i].contains(Some(p)) by {
            if (a + b).contains(p) {
                let k = choose|k: int| 0 <= k < (a + b).len() && (a + b)[k] == p;
                if k < a.len() {
                    assert(a[k] == p);
                    assert(a.contains(p));
                    let i = choose|i: int| 0 <= i < rest.len() && rest[i].contains(Some(p));
                    assert(changes[i] == rest[i]);
                } else {
                    assert(b[k - a.len()] == p);
                    assert(b.contains(p));
                    assert(changes[changes.len() - 1] == last);
                }
            }
            if exists|i: int| 0 <= i < changes.len() && changes[i].contains(Some(p)) {
                let i = choose|i: int| 0 <= i < changes.len() && changes[i].contains(Some(p));
                if i < rest.len() {
                    assert(rest[i] == changes[i]);
                    assert(a.contains(p));
                    let k = choose|k: int| 0 <= k < a.len() && a[k] == p;
                    assert((a + b)[k] == p);
                } else {
                    assert(b.contains(p));
                    let k = choose|k: int| 0 <= k < b.len() && b[k] == p;
                    assert((a + b)[a.len() + k] == p);
                }
            }
        }
    }
}

/// The changed paths that the tasks of a batch get are exactly the valid
/// paths of the batch's changes, each once, in the order in which they first
/// changed, separated by commas: for any list `ds` of that kind, the list
/// handed to the tasks is `ds` joined by commas.
pub proof fn law_batch_changed_paths_are_the_changes(
    changes: Seq<Seq<Option<Seq<char>>>>,
    ds: Seq<Seq<char>>,
)
    requires
        ds.no_duplicates(),
        forall|p: Seq<char>| #[trigger] ds.contains(p) <==> exists|i: int|
            0 <= i < changes.len() && changes[i].contains(Some(p)),
        in_first_order(ds, all_present(changes)),
    ensures
        batch_changed(changes) == comma_joined(ds),
{
    let s = all_present(changes);
    lemma_all_present_contains(changes);
    lemma_distinct_names(s);
    lemma_distinct_in_first_order(s);
    let d = distinct_names(s);
    assert forall|p: Seq<char>| #[trigger] d.contains(p) <==> ds.contains(p) by {}
    assert forall|p: Seq<char>| #[trigger] d.contains(p) ==> s.contains(p) by {}
    lemma_first_order_unique(d, ds, s);
}

/// The names of `names` that are not in `seen`, in order, repeats kept.
pub open spec fn unseen_names(names: Seq<Seq<char>>, seen: Seq<Seq<char>>) -> Seq<Seq<char>>
    decreases names.len(),
{
    if names.len() == 0 {
        seq![]
    } else {
        let before = unseen_names(names.drop_last(), seen);
        if seen.contains(names.last()) {
            before
        } else {
            before.push(names.last())
        }
    }
}

/// The valid paths of all the changes of a batch, change after change.
pub open spec fn all_present(changes: Seq<Seq<Option<Seq<char>>>>) -> Seq<Seq<char>>
    decreases changes.len(),
{
    if changes.len() == 0 {
        seq![]
    } else {
        all_present(changes.drop_last()) + present_paths(changes.last())
    }
}

/// The list of changed paths that the tasks of a batch get: every valid path
/// of the batch, once, in the order it first changed, separated by commas.
pub open spec fn batch_changed(changes: Seq<Seq<Option<Seq<char>>>>) -> Seq<char> {
    comma_joined(distinct_names(all_present(changes)))
}

/// The task names that the actions for the changed paths `paths` are about,
/// in plan order.
pub open spec fn change_names(
    paths: Seq<Option<Seq<char>>>,
    rules: Seq<WatchRule>,
    tasks: Map<Seq<char>, TaskDefinitionView>,
    changed: Seq<char>,
) -> Seq<Seq<char>> {
    paths_actions(paths, rules, tasks, changed).map_values(|a: ActionView| action_name(a))
}

/// The task names of a batch: those of the first change, then, change after
/// change, those of the next change that no earlier change named (with
/// their repeats within that change).
pub open spec fn merged_names(
    changes: Seq<Seq<Option<Seq<char>>>>,
    rules: Seq<WatchRule>,
    tasks: Map<Seq<char>, TaskDefinitionView>,
    changed: Seq<char>,
) -> Seq<Seq<char>>
    decreases changes.len(),
{
    if changes.len() == 0 {
        seq![]
    } else {
        let before = merged_names(changes.drop_last(), rules, tasks, changed);
        before + unseen_names(change_names(changes.last(), rules, tasks, changed), before)
    }
}

/// The plan for a batch of changes: a single change runs what it would run
/// alone; of a later change, only the tasks that no earlier change of the
/// batch named run (so a burst starts a task once). Every run carries the
/// batch's changed paths (see `batch_changed`).
pub open spec fn batch_plan(
    changes: Seq<Seq<Option<Seq<char>>>>,
    rules: Seq<WatchRule>,
    tasks: Map<Seq<char>, TaskDefinitionView>,
) -> Seq<ActionView> {
    merged_names(changes, rules, tasks, batch_changed(changes)).map_values(
        |n: Seq<char>| planned_action(n, tasks, batch_changed(changes)),
    )
}

proof fn lemma_unseen_names(names: Seq<Seq<char>>, seen: Seq<Seq<char>>)
    ensures
        forall|x: Seq<char>| #[trigger] unseen_names(names, seen).contains(x) <==> (names.contains(x)
            && !seen.contains(x)),
        seen.len() == 0 ==> unseen_names(names, seen) == names,
    decreases names.len(),
{
    if names.len() > 0 {
        let rest = names.drop_last();
        let last = names.last();
        lemma_unseen_names(rest, seen);
        let before = unseen_names(rest, seen);
        assert forall|x: Seq<char>| #[trigger] names.contains(x) <==> (rest.contains(x) || x == last) by {
            if names.contains(x) {
                let k = choose|k: int| 0 <= k < names.len() && names[k] == x;
                if k < rest.len() {
                    assert(rest[k] == x);
                }
            }
            if rest.contains(x) {
                let k = choose|k: int| 0 <= k < rest.len() && rest[k] == x;
                assert(names[k] == x);
            }
            if x == last {
                assert(names[names.len() - 1] == x);
            }
        }
        if !seen.contains(last) {
            assert forall|x: Seq<char>| #[trigger] before.push(last).contains(x) <==> (before.contains(x)
                || x == last) by {
                if before.push(last).contains(x) {
                    let k = choose|k: int| 0 <= k < before.push(last).len() && before.push(last)[k] == x;
                    if k < before.len() {
                        assert(before[k] == x);
                    }
                }
                if before.contains(x) {
                    let k = choose|k: int| 0 <= k < before.len() && before[k] == x;
                    assert(before.push(last)[k] == x);
                }
                if x == last {
                    assert(before.push(last)[before.len() as int] == x);
                }
            }
        }
        if seen.len() == 0 {
            assert(rest.push(last) =~= names);
        }
    }
}

/// An action that agrees with the configuration is the planned action for
/// its name.
proof fn lemma_agreeing_actions_are_planned(
    actions: Seq<ActionView>,
    tasks: Map<Seq<char>, TaskDefinitionView>,
    changed: Seq<char>,
)
    requires
        actions_agree(actions, tasks, changed),
    ensures
        actions.map_values(|a: ActionView| action_name(a)).map_values(
            |n: Seq<char>| planned_action(n, tasks, changed),
        ) == actions,
{
    assert forall|i: int| 0 <= i < actions.len() implies #[trigger] planned_action(
        action_name(actions[i]),
        tasks,
        changed,
    ) == actions[i] by {
        match actions[i] {
            ActionView::Run { task_name, task, env } => {},
            ActionView::Missing { task_name } => {},
        }
    }
    assert(actions.map_values(|a: ActionView| action_name(a)).map_values(
        |n: Seq<char>| planned_action(n, tasks, changed),
    ) =~= actions);
}

/// A batch of one change runs exactly what that change calls for on its
/// own: the plan of its paths, in order, repeats included.
pub proof fn law_single_change_batch(
    paths: Seq<Option<Seq<char>>>,
    rules: Seq<WatchRule>,
    tasks: Map<Seq<char>, TaskDefinitionView>,
)
    ensures
        batch_plan(seq![paths], rules, tasks) == paths_actions(
            paths,
            rules,
            tasks,
            batch_changed(seq![paths]),
        ),
{
    let changes = seq![paths];
    let c = batch_changed(changes);
    assert(changes.drop_last() =~= Seq::<Seq<Option<Seq<char>>>>::empty());
    let names = change_names(paths, rules, tasks, c);
    let none = merged_names(changes.drop_last(), rules, tasks, c);
    assert(none =~= Seq::<Seq<char>>::empty());
    assert(changes.last() == paths);
    lemma_unseen_names(names, none);
    assert(unseen_names(names, none) == names);
    assert(merged_names(changes, rules, tasks, c) == none + unseen_names(names, none));
    assert(merged_names(changes, rules, tasks, c) =~= names);
    law_plan_agrees_with_config(paths, rules, tasks, c);
    lemma_agreeing_actions_are_planned(paths_actions(paths, rules, tasks, c), tasks, c);
}

/// Earlier changes win: adding a change to a batch keeps the names planned
/// for the earlier changes as they were, and adds only names that none of
/// them planned.
pub proof fn law_earlier_changes_win(
    changes: Seq<Seq<Option<Seq<char>>>>,
    next: Seq<Option<Seq<char>>>,
    rules: Seq<WatchRule>,
    tasks: Map<Seq<char>, TaskDefinitionView>,
    changed: Seq<char>,
)
    ensures
        merged_names(changes.push(next), rules, tasks, changed).take(
            merged_names(changes, rules, tasks, changed).len() as int,
        ) == merged_names(changes, rules, tasks, changed),
        forall|i: int|
            merged_names(changes, rules, tasks, changed).len() <= i < merged_names(
                changes.push(next),
                rules,
                tasks,
                changed,
            ).len() ==> !merged_names(changes, rules, tasks, changed).contains(
                #[trigger] merged_names(changes.push(next), rules, tasks, changed)[i],
            ),
{
    let m = merged_names(changes, rules, tasks, changed);
    let cn = change_names(next, rules, tasks, changed);
    assert(changes.push(next).drop_last() =~= changes);
    let u = unseen_names(cn, m);
    lemma_unseen_names(cn, m);
    assert((m + u).take(m.len() as int) =~= m);
    assert forall|i: int| m.len() <= i < (m + u).len() implies !m.contains(#[trigger] (m + u)[i]) by {
        assert((m + u)[i] == u[i - m.len()]);
        assert(u.contains(u[i - m.len()]));
    }
}

/// A batch runs exactly the tasks that its changes call for: a name is
/// planned for the batch exactly when some change of the batch names it.
pub proof fn law_batch_covers_the_changes(
    changes: Seq<Seq<Option<Seq<char>>>>,
    rules: Seq<WatchRule>,
    tasks: Map<Seq<char>, TaskDefinitionView>,
    changed: Seq<char>,
    name: Seq<char>,
)
    ensures
        merged_names(changes, rules, tasks, changed).contains(name) <==> exists|i: int|
            0 <= i < changes.len() && #[trigger] change_names(changes[i], rules, tasks, changed).contains(
                name,
            ),
    decreases changes.len(),
{
    if changes.len() > 0 {
        let rest = changes.drop_last();
        law_batch_covers_the_changes(rest, rules, tasks, changed, name);
        let m = merged_names(rest, rules, tasks, changed);
        let cn = change_names(changes.last(), rules, tasks, changed);
        lemma_unseen_names(cn, m);
        let u = unseen_names(cn, m);
        assert((m + u).contains(name) <==> (m.contains(name) || u.contains(name))) by {
            if (m + u).contains(name) {
                let k = choose|k: int| 0 <= k < (m + u).len() && (m + u)[k] == name;
                if k < m.len() {
                    assert(m[k] == name);
                } else {
                    assert(u[k - m.len()] == name);
                }
            }
            if m.contains(name) {
                let k = choose|k: int| 0 <= k < m.len() && m[k] == name;
                assert((m + u)[k] == name);
            }
            if u.contains(name) {
                let k = choose|k: int| 0 <= k < u.len() && u[k] == name;
                assert((m + u)[m.len() + k] == name);
            }
        }
        if exists|i: int|
            0 <= i < changes.len() && #[trigger] change_names(changes[i], rules, tasks, changed).contains(
                name,
            ) {
            let i = choose|i: int|
                0 <= i < changes.len() && #[trigger] change_names(changes[i], rules, tasks, changed).contains(
                    name,
                );
            if i < rest.len() {
                assert(rest[i] == changes[i]);
            }
        }
        if m.contains(name) {
            let i = choose|i: int|
                0 <= i < rest.len() && #[trigger] change_names(rest[i], rules, tasks, changed).contains(
                    name,
                );
            assert(changes[i] == rest[i]);
        }
    }
}

/// The name that an action is about.
fn name_of(a: &TaskAction) -> (r: &String)
    ensures
        r@ == action_name(a@),
{
    match a {
        TaskAction::Run { task_name, .. } => task_name,
        TaskAction::Missing { task_name } => task_name,
    }
}

/// The items of `list` separated by commas.
fn comma_join(list: &Vec<String>) -> (r: String)
    ensures
        r@ == comma_joined(list.deep_view()),
{
    let ghost lv = list.deep_view();
    let mut r = String::new();
    let mut i: usize = 0;
    proof {
        reveal_strlit(",");
    }
    while i < list.len()
        invariant
            lv == list.deep_view(),
            0 <= i <= list.len(),
            r@ == comma_joined(lv.take(i as int)),
            ","@ == seq![','],
        decreases list.len() - i,
    {
        assert(lv.take(i + 1).drop_last() =~= lv.take(i as int));
        if i > 0 {
            r.append(",");
        }
        r.append(list[i].as_str());
        assert(r@ =~= comma_joined(lv.take(i + 1)));
        i = i + 1;
    }
    assert(lv.take(list.len() as int) =~= lv);
    r
}

/// The changed paths of a batch (see `batch_changed`).
pub fn batch_changed_paths(batch: &ChangeBatch) -> (r: String)
    ensures
        r@ == batch_changed(batch.changes.deep_view()),
{
    let ghost cv = batch.changes.deep_view();
    let mut seen: Vec<String> = Vec::new();
    let mut i: usize = 0;
    while i < batch.changes.len()
        invariant
            cv == batch.changes.deep_view(),
            0 <= i <= batch.changes.len(),
            seen.deep_view() == distinct_names(all_present(cv.take(i as int))),
        decreases batch.changes.len() - i,
    {
        let paths = &batch.changes[i];
        let ghost pv = paths.deep_view();
        let ghost base = all_present(cv.take(i as int));
        let mut j: usize = 0;
        while j < paths.len()
            invariant
                pv == paths.deep_view(),
                0 <= j <= paths.len(),
                seen.deep_view() == distinct_names(base + present_paths(pv.take(j as int))),
            decreases paths.len() - j,
        {
            assert(pv.take(j + 1).drop_last() =~= pv.take(j as int));
            if let Some(p) = &paths[j] {
                assert(pv.take(j + 1).last() == Some(p@));
                assert(present_paths(pv.take(j + 1)) == present_paths(pv.take(j as int)).push(p@));
                assert((base + present_paths(pv.take(j + 1))) =~= (base + present_paths(
                    pv.take(j as int),
                )).push(p@));
                assert((base + present_paths(pv.take(j as int))).push(p@).drop_last() =~= base
                    + present_paths(pv.take(j as int)));
                if !crate::debounce::contains_string(&seen, p) {
                    let ghost before = seen.deep_view();
                    seen.push(p.clone());
                    assert(seen.deep_view() =~= before.push(p@));
                }
            } else {
                assert(pv.take(j + 1).last() == None::<Seq<char>>);
                assert(present_paths(pv.take(j + 1)) == present_paths(pv.take(j as int)));
            }
            j = j + 1;
        }
        assert(pv.take(paths.len() as int) =~= pv);
        assert(cv.take(i + 1).drop_last() =~= cv.take(i as int));
        assert(cv.take(i + 1).last() == pv);
        i = i + 1;
    }
    assert(cv.take(batch.changes.len() as int) =~= cv);
    comma_join(&seen)
}

/// The plan for a batch of changes (see `batch_plan`).
pub fn plan_batch(batch: &ChangeBatch, config: &Config) -> (r: Vec<TaskAction>)
    ensures
        actions_view(r@) == batch_plan(
            batch.changes.deep_view(),
            config.rules(),
            config.tasks_view(),
        ),
{
    let changed = batch_changed_paths(batch);
    let ghost cv = batch.changes.deep_view();
    let ghost cj = changed@;
    let ghost rules = config.rules();
    let ghost tasks = config.tasks_view();
    let mut names: Vec<String> = Vec::new();
    let mut i: usize = 0;
    while i < batch.changes.len()
        invariant
            cv == batch.changes.deep_view(),
            cj == changed@,
            rules == config.rules(),
            tasks == config.tasks_view(),
            0 <= i <= batch.changes.len(),
            names.deep_view() == merged_names(cv.take(i as int), rules, tasks, cj),
        decreases batch.changes.len() - i,
    {
        let acts = plan_paths(&batch.changes[i], config, &changed);
        let ghost cn = change_names(cv[i as int], rules, tasks, cj);
        assert(cn == actions_view(acts@).map_values(|a: ActionView| action_name(a)));
        let seen = crate::config::copy_strings(&names);
        let ghost m = seen.deep_view();
        let mut k: usize = 0;
        while k < acts.len()
            invariant
                cn == actions_view(acts@).map_values(|a: ActionView| action_name(a)),
                cn.len() == acts@.len(),
                m == seen.deep_view(),
                0 <= k <= acts.len(),
                names.deep_view() == m + unseen_names(cn.take(k as int), m),
            decreases acts.len() - k,
        {
            let name = name_of(&acts[k]);
            assert(cn[k as int] == name@);
            assert(cn.take(k + 1).drop_last() =~= cn.take(k as int));
            assert(cn.take(k + 1).last() == name@);
            if !crate::debounce::contains_string(&seen, name) {
                let ghost before = names.deep_view();
                names.push(name.clone());
                assert(names.deep_view() =~= before.push(name@));
                assert(names.deep_view() =~= m + unseen_names(cn.take(k + 1), m));
            } else {
                assert(names.deep_view() =~= m + unseen_names(cn.take(k + 1), m));
            }
            k = k + 1;
        }
        assert(cn.take(acts.len() as int) =~= cn);
        assert(cv.take(i + 1).drop_last() =~= cv.take(i as int));
        assert(cv.take(i + 1).last() == cv[i as int]);
        i = i + 1;
    }
    assert(cv.take(batch.changes.len() as int) =~= cv);
    let ghost nv = names.deep_view();
    let mut r: Vec<TaskAction> = Vec::new();
    let mut k: usize = 0;
    while k < names.len()
        invariant
            nv == names.deep_view(),
            tasks == config.tasks_view(),
            cj == changed@,
            0 <= k <= names.len(),
            actions_view(r@) == nv.take(k as int).map_values(
                |n: Seq<char>| planned_action(n, tasks, cj),
            ),
        decreases names.len() - k,
    {
        let a = action_for(&names[k], config, &changed);
        let ghost prev = r@;
        r.push(a);
        assert(actions_view(r@) =~= actions_view(prev).push(a@));
        assert(nv.take(k + 1).map_values(|n: Seq<char>| planned_action(n, tasks, cj)) =~= nv.take(
            k as int,
        ).map_values(|n: Seq<char>| planned_action(n, tasks, cj)).push(
            planned_action(nv[k as int], tasks, cj),
        ));
        k = k + 1;
    }
    assert(nv.take(names.len() as int) =~= nv);
    r
}

/// Some change of the batch is exactly the file `target`.
pub open spec fn batch_touches(changes: Seq<Seq<Option<Seq<char>>>>, target: Seq<char>) -> bool {
    exists|i: int| 0 <= i < changes.len() && #[trigger] changes[i].contains(Some(target))
}

/// Whether some change of `batch` is the file `target`.
pub fn batch_touches_path(batch: &ChangeBatch, target: &str) -> (r: bool)
    ensures
        r == batch_touches(batch.changes.deep_view(), target@),
{
    let ghost cv = batch.changes.deep_view();
    let mut i: usize = 0;
    while i < batch.changes.len()
        invariant
            cv == batch.changes.deep_view(),
            0 <= i <= batch.changes.len(),
            forall|k: int| 0 <= k < i ==> !(#[trigger] cv[k]).contains(Some(target@)),
        decreases batch.changes.len() - i,
    {
        if paths_contain(&batch.changes[i], target) {
            assert(cv[i as int].contains(Some(target@)));
            return true;
        }
        i = i + 1;
    }
    false
}

/// What the watcher does with a batch of changes: the tasks to run (or
/// report as missing), in order, and whether the configuration is then to
/// be reloaded.
#[derive(Debug)]
pub struct EventResponse {
    /// Run (or report as missing) these tasks, in order.
    pub actions: Vec<TaskAction>,
    /// The configuration file changed: reload it afterwards and start over.
    pub reload: bool,
}

/// The watcher's answer to a batch of changes: the plan of `plan_batch`,
/// and a reload exactly when `config_file` names the loaded configuration
/// file and the batch changes it.
pub fn respond_to_batch(batch: &ChangeBatch, config: &Config, config_file: Option<&str>) -> (r:
    EventResponse)
    ensures
        r.reload == (config_file matches Some(f) && batch_touches(batch.changes.deep_view(), f@)),
        actions_view(r.actions@) == batch_plan(
            batch.changes.deep_view(),
            config.rules(),
            config.tasks_view(),
        ),
{
    let reload = match config_file {
        Some(f) => batch_touches_path(batch, f),
        None => false,
    };
    EventResponse { actions: plan_batch(batch, config), reload }
}

/// The text by which the watcher asks the program to reload its
/// configuration; it travels inside an error message.
pub fn reload_signal() -> (r: &'static str)
    ensures
        r@ == "RELOAD_CONFIG"@,
{
    "RELOAD_CONFIG"
}

/// `needle` occurs in `haystack` at position `at`.
pub open spec fn occurs_at(haystack: Seq<char>, needle: Seq<char>, at: int) -> bool {
    0 <= at && at + needle.len() <= haystack.len() && haystack.subrange(at, at + needle.len())
        == needle
}

/// `needle` occurs somewhere in `haystack`.
pub open spec fn contains_text(haystack: Seq<char>, needle: Seq<char>) -> bool {
    exists|at: int| occurs_at(haystack, needle, at)
}

/// Whether `needle` occurs in `haystack`.
pub fn text_contains(haystack: &str, needle: &str) -> (r: bool)
    ensures
        r == contains_text(haystack@, needle@),
{
    let n = haystack.unicode_len();
    let m = needle.unicode_len();
    if m > n {
        assert forall|at: int| !occurs_at(haystack@, needle@, at) by {}
        return false;
    }
    let mut at: usize = 0;
    while at <= n - m
        invariant
            n == haystack@.len(),
            m == needle@.len(),
            m <= n,
            0 <= at <= n - m + 1,
            forall|k: int| 0 <= k < at ==> !occurs_at(haystack@, needle@, k),
        decreases n - m + 1 - at,
    {
        let mut j: usize = 0;
        let mut same = true;
        while j < m
            invariant
                n == haystack@.len(),
                m == needle@.len(),
                at + m <= n,
                0 <= j <= m,
                same ==> forall|q: int| 0 <= q < j ==> haystack@[at + q] == needle@[q],
                !same ==> exists|q: int| 0 <= q < m && haystack@[at + q] != needle@[q],
            decreases m - j,
        {
            if haystack.get_char(at + j) != needle.get_char(j) {
                same = false;
            }
            j = j + 1;
        }
        if same {
            assert(haystack@.subrange(at as int, at + m) =~= needle@);
            assert(occurs_at(haystack@, needle@, at as int));
            return true;
        }
        proof {
            let q = choose|q: int| 0 <= q < m && haystack@[at + q] != needle@[q];
            assert(haystack@.subrange(at as int, at + m)[q] != needle@[q]);
        }
        at = at + 1;
    }
    assert forall|k: int| !occurs_at(haystack@, needle@, k) by {
        if 0 <= k && k + m <= n {
            assert(k < at);
        }
    }
    false
}

/// A message that holds the reload signal anywhere, whatever surrounds it,
/// is recognised as a reload request.
pub proof fn law_reload_signal_recognised(before: Seq<char>, after: Seq<char>)
    ensures
        contains_text(before + "RELOAD_CONFIG"@ + after, "RELOAD_CONFIG"@),
{
    let m = before + "RELOAD_CONFIG"@ + after;
    let n = "RELOAD_CONFIG"@.len();
    assert(m.subrange(before.len() as int, (before.len() + n) as int) =~= "RELOAD_CONFIG"@);
    assert(occurs_at(m, "RELOAD_CONFIG"@, before.len() as int));
}

/// Whether an error message asks for a configuration reload: it contains
/// the reload signal.
pub fn is_reload_request(message: &str) -> (r: bool)
    ensures
        r == contains_text(message@, "RELOAD_CONFIG"@),
{
    text_contains(message, reload_signal())
}

} // verus!
