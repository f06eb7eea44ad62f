//! The data model: tasks, task sets, the run configuration, and the
//! spec-level view of the dependency graph (edges, paths, reachability).
use vstd::prelude::*;

verus! {

/// The command(s) of a task: a single shell command string, or a list of
/// them.  A single command is semantically a one-element list.
#[derive(Clone)]
pub enum CommandSpec {
    Single(String),
    Multiple(Vec<String>),
}

impl CommandSpec {
    /// The commands as a sequence of character strings; a single command
    /// is the one-element sequence.
    pub open spec fn spec_commands(&self) -> Seq<Seq<char>> {
        match self {
            CommandSpec::Single(s) => seq![s@],
            CommandSpec::Multiple(l) => l@.map_values(|c: String| c@),
        }
    }
}

/// A named unit of work: one or more shell commands, dependencies on
/// other tasks by name, optional watch patterns with a debounce interval,
/// an environment overlay, and a per-task concurrency override.
#[derive(Clone)]
pub struct Task {
    pub cmd: CommandSpec,
    pub desc: Option<String>,
    pub deps: Vec<String>,
    pub watch: Vec<String>,
    pub cache: bool,
    pub watch_debounce: u64,
    pub watch_propagate: bool,
    pub env: Vec<(String, String)>,
    pub concurrent: Option<bool>,
}

/// Collection-level configuration: the optional default task and the
/// global concurrency policy.
#[derive(Clone)]
pub struct Config {
    pub default: Option<String>,
    pub concurrent: bool,
}

/// A task set with its configuration.  Tasks are kept as a list of
/// (name, task) pairs so that duplicate names survive until validation
/// and iteration order is stable.
#[derive(Clone)]
pub struct TasksFile {
    pub config: Config,
    pub tasks: Vec<(String, Task)>,
}

/// The views of a list of strings, in order.
pub open spec fn str_seq(v: Seq<String>) -> Seq<Seq<char>> {
    v.map_values(|s: String| s@)
}

/// Whether a list of strings holds the name `n`.
pub open spec fn in_names(v: Seq<String>, n: Seq<char>) -> bool {
    exists|m: int| 0 <= m < v.len() && #[trigger] v[m]@ == n
}

/// The dependency names of a task, in order.
pub open spec fn spec_deps(t: Task) -> Seq<Seq<char>> {
    str_seq(t.deps@)
}

/// Whether some entry of the task list is named `n`.
pub open spec fn has_task(ts: Seq<(String, Task)>, n: Seq<char>) -> bool {
    exists|i: int| 0 <= i < ts.len() && #[trigger] ts[i].0@ == n
}

/// Whether the entries all carry distinct names.
pub open spec fn names_unique(ts: Seq<(String, Task)>) -> bool {
    forall|i: int, j: int|
        0 <= i < j < ts.len() ==> #[trigger] ts[i].0@ != #[trigger] ts[j].0@
}

/// Whether every dependency of every entry names some entry of the list.
pub open spec fn all_deps_present(ts: Seq<(String, Task)>) -> bool {
    forall|i: int, d: Seq<char>|
        0 <= i < ts.len() && #[trigger] spec_deps(ts[i].1).contains(d) ==> has_task(ts, d)
}

/// The dependency edge relation: `a` depends directly on `b`, i.e. some
/// entry named `a` lists `b` among its dependencies.
pub open spec fn dep_edge(ts: Seq<(String, Task)>, a: Seq<char>, b: Seq<char>) -> bool {
    exists|i: int|
        0 <= i < ts.len() && #[trigger] ts[i].0@ == a && spec_deps(ts[i].1).contains(b)
}

/// A walk along dependency edges: nonempty, and each element depends
/// directly on the next.
pub open spec fn is_dep_path(ts: Seq<(String, Task)>, p: Seq<Seq<char>>) -> bool {
    &&& p.len() >= 1
    &&& forall|i: int| 0 <= i < p.len() - 1 ==> dep_edge(ts, #[trigger] p[i], p[i + 1])
}

/// Reflexive-transitive reachability along dependency edges: `a` itself,
/// or anything some dependency of `a` reaches.
pub open spec fn reaches(ts: Seq<(String, Task)>, a: Seq<char>, b: Seq<char>) -> bool {
    exists|p: Seq<Seq<char>>| #[trigger] is_dep_path(ts, p) && p.first() == a && p.last() == b
}

/// The dependency closure of `start`: every name `start` transitively
/// depends on, `start` included.
pub open spec fn dependency_closure(ts: Seq<(String, Task)>, start: Seq<char>) -> Set<Seq<char>> {
    Set::new(|n: Seq<char>| reaches(ts, start, n))
}

/// Strict reachability: a walk of at least one dependency edge from `a`
/// to `b`.
pub open spec fn reaches_plus(ts: Seq<(String, Task)>, a: Seq<char>, b: Seq<char>) -> bool {
    exists|p: Seq<Seq<char>>|
        #[trigger] is_dep_path(ts, p) && p.len() >= 2 && p.first() == a && p.last() == b
}

/// The dependents closure of `changed`: every task that directly or
/// indirectly declares `changed` as a dependency.
pub open spec fn dependents_closure(ts: Seq<(String, Task)>, changed: Seq<char>) -> Set<Seq<char>> {
    Set::new(|b: Seq<char>| reaches_plus(ts, b, changed))
}

/// Whether the dependency graph contains a cycle: a walk of at least one
/// edge that returns to its first element.
pub open spec fn has_cycle(ts: Seq<(String, Task)>) -> bool {
    exists|p: Seq<Seq<char>>|
        #[trigger] is_dep_path(ts, p) && p.len() >= 2 && p.first() == p.last()
}

/// Whether the name `x` starts (and closes) a dependency cycle.
pub open spec fn on_cycle(ts: Seq<(String, Task)>, x: Seq<char>) -> bool {
    exists|p: Seq<Seq<char>>|
        #[trigger] is_dep_path(ts, p) && p.len() >= 2 && p.first() == p.last() && p.first() == x
}

/// Whether a task can be scheduled: it exists, everything it transitively
/// depends on exists, and no dependency cycle is reachable from it.
/// These are exactly the tasks a topological order can emit.
pub open spec fn schedulable(ts: Seq<(String, Task)>, t: Seq<char>) -> bool {
    &&& has_task(ts, t)
    &&& forall|d: Seq<char>| #[trigger] reaches(ts, t, d) ==> has_task(ts, d)
    &&& !(exists|x: Seq<char>| #[trigger] reaches(ts, t, x) && on_cycle(ts, x))
}

/// A duplicate-free sequence of integers in `[0, n)` has at most `n`
/// elements.
pub proof fn lemma_distinct_ints_bounded(s: Seq<int>, n: int)
    requires
        n >= 0,
        forall|i: int| 0 <= i < s.len() ==> 0 <= #[trigger] s[i] < n,
        forall|i: int, j: int| 0 <= i < j < s.len() ==> s[i] != s[j],
    ensures
        s.len() <= n,
{
    if s.len() == 0 {
        return ;
    }
    assert(0 <= s[0] < n);
    assert(s.no_duplicates());
    s.unique_seq_to_set();
    let rng = vstd::set_lib::set_int_range(0, n);
    vstd::set_lib::lemma_int_range(0, n);
    assert(s.to_set().subset_of(rng)) by {
        assert forall|x: int| s.to_set().contains(x) implies rng.contains(x) by {
            assert(s.contains(x));
            let i = choose|i: int| 0 <= i < s.len() && s[i] == x;
            assert(0 <= s[i] < n);
        }
    }
    vstd::set_lib::lemma_len_subset(s.to_set(), rng);
}

/// A duplicate-free sequence of indices below `n` has at most `n`
/// elements.
pub proof fn lemma_distinct_indices_bounded(s: Seq<usize>, n: nat)
    requires
        forall|i: int| 0 <= i < s.len() ==> (#[trigger] s[i] as int) < n,
        forall|i: int, j: int| 0 <= i < j < s.len() ==> s[i] != s[j],
    ensures
        s.len() <= n,
{
    let t = Seq::new(s.len(), |i: int| s[i] as int);
    assert forall|i: int, j: int| 0 <= i < j < t.len() implies t[i] != t[j] by {
        assert(s[i] != s[j]);
    }
    lemma_distinct_ints_bounded(t, n as int);
}

/// Walks a successor relation inside `s`: from `j0`, a chain of `len`
/// dependency steps whose nodes all lie in `s`.
proof fn build_succ_path(ts: Seq<(String, Task)>, s: Set<int>, j0: int, len: nat) -> (p: Seq<int>)
    requires
        s.contains(j0),
        forall|j: int| #[trigger] s.contains(j) ==> 0 <= j < ts.len(),
        forall|j: int| #[trigger] s.contains(j) ==> exists|jd: int|
            s.contains(jd) && spec_deps(ts[j].1).contains(ts[jd].0@),
    ensures
        p.len() == len + 1,
        p[0] == j0,
        forall|i: int| 0 <= i < p.len() ==> s.contains(#[trigger] p[i]),
        forall|i: int| 0 <= i < p.len() - 1 ==> spec_deps(ts[#[trigger] p[i]].1).contains(
            ts[p[i + 1]].0@,
        ),
    decreases len,
{
    if len == 0 {
        let p = seq![j0];
        p
    } else {
        let jd = choose|jd: int| s.contains(jd) && spec_deps(ts[j0].1).contains(ts[jd].0@);
        let rest = build_succ_path(ts, s, jd, (len - 1) as nat);
        let p = seq![j0] + rest;
        assert(p[0] == j0);
        assert(forall|i: int| 0 <= i < rest.len() ==> p[i + 1] == rest[i]);
        assert forall|i: int| 0 <= i < p.len() - 1 implies spec_deps(
            ts[#[trigger] p[i]].1,
        ).contains(ts[p[i + 1]].0@) by {
            if i == 0 {
                assert(p[1] == rest[0] && rest[0] == jd);
            } else {
                assert(p[i] == rest[i - 1] && p[i + 1] == rest[i]);
                assert(spec_deps(ts[rest[i - 1]].1).contains(ts[rest[i]].0@));
            }
        }
        p
    }
}

/// An index walk longer than the number of tasks repeats an index, and
/// the repeated stretch is a dependency cycle.
proof fn lemma_index_path_cycle(ts: Seq<(String, Task)>, p: Seq<int>)
    requires
        p.len() > ts.len(),
        forall|i: int| 0 <= i < p.len() ==> 0 <= #[trigger] p[i] < ts.len(),
        forall|i: int| 0 <= i < p.len() - 1 ==> spec_deps(ts[#[trigger] p[i]].1).contains(
            ts[p[i + 1]].0@,
        ),
    ensures
        has_cycle(ts),
        exists|i: int| 0 <= i < p.len() && on_cycle(ts, ts[#[trigger] p[i]].0@),
{
    assert(exists|a: int, b: int| 0 <= a < b < p.len() && p[a] == p[b]) by {
        if forall|a: int, b: int| 0 <= a < b < p.len() ==> p[a] != p[b] {
            lemma_distinct_ints_bounded(p, ts.len() as int);
            assert(false);
        }
    }
    let (a, b) = choose|a: int, b: int| 0 <= a < b < p.len() && p[a] == p[b];
    let q = Seq::new((b - a + 1) as nat, |i: int| ts[p[a + i]].0@);
    assert forall|i: int| 0 <= i < q.len() - 1 implies dep_edge(ts, #[trigger] q[i], q[i + 1]) by {
        let w = p[a + i];
        assert(spec_deps(ts[w].1).contains(ts[p[a + i + 1]].0@));
        assert(0 <= w < ts.len() && ts[w].0@ == q[i] && spec_deps(ts[w].1).contains(q[i + 1]));
    }
    assert(is_dep_path(ts, q));
    assert(q.first() == ts[p[a]].0@);
    assert(q.last() == ts[p[b]].0@);
    assert(q.len() >= 2);
    assert(on_cycle(ts, ts[p[a]].0@));
}

/// A nonempty set of task indices in which every member has a dependency
/// on another member yields a dependency cycle.
pub proof fn lemma_succ_cycle(ts: Seq<(String, Task)>, s: Set<int>, j0: int)
    requires
        s.contains(j0),
        forall|j: int| #[trigger] s.contains(j) ==> 0 <= j < ts.len(),
        forall|j: int| #[trigger] s.contains(j) ==> exists|jd: int|
            s.contains(jd) && spec_deps(ts[j].1).contains(ts[jd].0@),
    ensures
        has_cycle(ts),
        exists|j: int| #[trigger] s.contains(j) && on_cycle(ts, ts[j].0@),
{
    let p = build_succ_path(ts, s, j0, ts.len() as nat);
    lemma_index_path_cycle(ts, p);
    let i = choose|i: int| 0 <= i < p.len() && on_cycle(ts, ts[#[trigger] p[i]].0@);
    assert(s.contains(p[i]));
}

/// Reachability is reflexive.
pub proof fn lemma_reaches_self(ts: Seq<(String, Task)>, a: Seq<char>)
    ensures
        reaches(ts, a, a),
{
    let p = seq![a];
    assert(p.first() == a && p.last() == a);
    assert(is_dep_path(ts, p));
}

/// Reachability extends across one more dependency edge.
pub proof fn lemma_reaches_step(ts: Seq<(String, Task)>, a: Seq<char>, b: Seq<char>, c: Seq<char>)
    requires
        reaches(ts, a, b),
        dep_edge(ts, b, c),
    ensures
        reaches(ts, a, c),
{
    let p = choose|p: Seq<Seq<char>>| #[trigger] is_dep_path(ts, p) && p.first() == a && p.last() == b;
    let q = p.push(c);
    assert(q.last() == c);
    assert(q.first() == a);
    assert forall|i: int| 0 <= i < q.len() - 1 implies dep_edge(ts, #[trigger] q[i], q[i + 1]) by {
        if i < p.len() - 1 {
            assert(dep_edge(ts, p[i], p[i + 1]));
        } else {
            assert(q[i] == p.last());
        }
    }
    assert(is_dep_path(ts, q));
}

/// A task's dependency views hold a name exactly when the string list
/// does.
pub proof fn lemma_spec_deps_in_names(t: Task, x: Seq<char>)
    ensures
        spec_deps(t).contains(x) <==> in_names(t.deps@, x),
{
    if spec_deps(t).contains(x) {
        let i = choose|i: int| 0 <= i < spec_deps(t).len() && spec_deps(t)[i] == x;
        assert(t.deps@[i]@ == x);
    }
    if in_names(t.deps@, x) {
        let m = choose|m: int| 0 <= m < t.deps@.len() && #[trigger] t.deps@[m]@ == x;
        assert(spec_deps(t)[m] == x);
    }
}

/// Prepending a dependency edge to a walk yields a strict walk.
pub proof fn lemma_reaches_prepend(
    ts: Seq<(String, Task)>,
    a: Seq<char>,
    b: Seq<char>,
    c: Seq<char>,
)
    requires
        dep_edge(ts, a, b),
        reaches(ts, b, c),
    ensures
        reaches_plus(ts, a, c),
{
    let p = choose|p: Seq<Seq<char>>|
        #[trigger] is_dep_path(ts, p) && p.first() == b && p.last() == c;
    let q = seq![a] + p;
    assert(q.first() == a);
    assert(q.last() == c);
    assert(forall|i: int| 0 <= i < p.len() ==> q[i + 1] == p[i]);
    assert forall|i: int| 0 <= i < q.len() - 1 implies dep_edge(ts, #[trigger] q[i], q[i + 1]) by {
        if i == 0 {
            assert(q[1] == p[0] && p[0] == b);
        } else {
            assert(q[i] == p[i - 1] && q[i + 1] == p[i]);
            assert(dep_edge(ts, p[i - 1], p[i]));
        }
    }
    assert(is_dep_path(ts, q) && q.len() >= 2);
}

/// Between two distinct names, plain and strict reachability coincide;
/// so a task lies in the dependents closure of another exactly when the
/// other lies in its dependency closure.
pub proof fn lemma_dependents_inverse(ts: Seq<(String, Task)>, a: Seq<char>, b: Seq<char>)
    requires
        a != b,
    ensures
        dependents_closure(ts, a).contains(b) <==> dependency_closure(ts, b).contains(a),
{
    if dependents_closure(ts, a).contains(b) {
        let p = choose|p: Seq<Seq<char>>|
            #[trigger] is_dep_path(ts, p) && p.len() >= 2 && p.first() == b && p.last() == a;
        assert(reaches(ts, b, a));
    }
    if dependency_closure(ts, b).contains(a) {
        let p = choose|p: Seq<Seq<char>>|
            #[trigger] is_dep_path(ts, p) && p.first() == b && p.last() == a;
        if p.len() < 2 {
            assert(p.first() == p.last());
            assert(false);
        }
        assert(reaches_plus(ts, b, a));
    }
}

/// Any set that contains the last element of a strict walk and is closed
/// under taking direct dependents contains the walk's first element.
pub proof fn lemma_path_in_pred_closed_set(
    ts: Seq<(String, Task)>,
    s: Set<Seq<char>>,
    c: Seq<char>,
    p: Seq<Seq<char>>,
)
    requires
        is_dep_path(ts, p),
        p.len() >= 2,
        s.contains(p.last()) || p.last() == c,
        forall|a: Seq<char>, x: Seq<char>|
            (s.contains(x) || x == c) && #[trigger] dep_edge(ts, a, x) ==> s.contains(a),
    ensures
        s.contains(p.first()),
    decreases p.len(),
{
    if p.len() == 2 {
        assert(dep_edge(ts, p[0], p[1]));
    } else {
        let q = p.subrange(1, p.len() as int);
        assert(q.len() == p.len() - 1);
        assert(forall|i: int| 0 <= i < q.len() ==> q[i] == p[i + 1]);
        assert forall|i: int| 0 <= i < q.len() - 1 implies dep_edge(ts, #[trigger] q[i], q[i + 1])
            by {
            assert(dep_edge(ts, p[i + 1], p[i + 2]));
        }
        assert(is_dep_path(ts, q));
        assert(q.last() == p.last());
        lemma_path_in_pred_closed_set(ts, s, c, q);
        assert(s.contains(p[1]));
        assert(dep_edge(ts, p[0], p[1]));
    }
}

/// Any set that contains the first element of a dependency path and is
/// closed under dependency edges contains the path's last element.
pub proof fn lemma_path_in_closed_set(
    ts: Seq<(String, Task)>,
    s: Set<Seq<char>>,
    p: Seq<Seq<char>>,
)
    requires
        is_dep_path(ts, p),
        s.contains(p.first()),
        forall|a: Seq<char>, b: Seq<char>|
            s.contains(a) && #[trigger] dep_edge(ts, a, b) ==> s.contains(b),
    ensures
        s.contains(p.last()),
    decreases p.len(),
{
    if p.len() == 1 {
        assert(p.last() == p.first());
    } else {
        let q = p.drop_last();
        assert(is_dep_path(ts, q));
        lemma_path_in_closed_set(ts, s, q);
        assert(dep_edge(ts, p[p.len() - 2], p[p.len() - 1]));
        assert(q.last() == p[p.len() - 2]);
    }
}

} // verus!
