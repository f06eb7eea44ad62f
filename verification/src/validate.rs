//! The validator: certifies that a task set is well-formed — no
//! duplicate names, no dangling or self dependencies, no blank commands,
//! and no dependency cycles — accumulating every finding.
use vstd::prelude::*;
use crate::model::{
    Task, TasksFile, CommandSpec, spec_deps, has_task, names_unique, dep_edge, is_dep_path,
    has_cycle, in_names, str_seq, lemma_spec_deps_in_names, lemma_distinct_ints_bounded,
};
use crate::schedule::{find_task, contains_string, count_in};

verus! {

/// A structural fault found by the validator.
pub enum ValidationError {
    DuplicatedTask(String),
    DependencyNotFound { task: String, dep: String },
    EmptyCommand(String),
    SelfDependency(String),
    CyclicDependency { cycle: Vec<String> },
}

/// The whitespace characters a command may not consist of: the Unicode
/// white-space set, as `char::is_whitespace` recognizes it.
pub open spec fn is_space_char(c: char) -> bool {
    ||| c == '\u{0009}'
    ||| c == '\u{000A}'
    ||| c == '\u{000B}'
    ||| c == '\u{000C}'
    ||| c == '\u{000D}'
    ||| c == '\u{0020}'
    ||| c == '\u{0085}'
    ||| c == '\u{00A0}'
    ||| c == '\u{1680}'
    ||| (c as u32 >= 0x2000 && c as u32 <= 0x200A)
    ||| c == '\u{2028}'
    ||| c == '\u{2029}'
    ||| c == '\u{202F}'
    ||| c == '\u{205F}'
    ||| c == '\u{3000}'
}

/// Decides whitespace-ness of one character.
fn is_space(c: char) -> (r: bool)
    ensures
        r == is_space_char(c),
{
    c == '\u{0009}' || c == '\u{000A}' || c == '\u{000B}' || c == '\u{000C}' || c == '\u{000D}'
        || c == '\u{0020}' || c == '\u{0085}' || c == '\u{00A0}' || c == '\u{1680}' || (c as u32
        >= 0x2000 && c as u32 <= 0x200A) || c == '\u{2028}' || c == '\u{2029}' || c == '\u{202F}'
        || c == '\u{205F}' || c == '\u{3000}'
}

/// Whether a command string is empty or whitespace-only.
pub open spec fn spec_is_blank(s: Seq<char>) -> bool {
    forall|i: int| 0 <= i < s.len() ==> is_space_char(#[trigger] s[i])
}

/// Whether a task's commands are usable: at least one command, none of
/// them blank.
pub open spec fn commands_ok(t: Task) -> bool {
    &&& t.cmd.spec_commands().len() >= 1
    &&& forall|k: int|
        0 <= k < t.cmd.spec_commands().len() ==> !spec_is_blank(#[trigger] t.cmd.spec_commands()[k])
}

/// Whether a reported cycle is genuine: nonempty, and walking it through
/// each task's dependencies returns to its first element.
pub open spec fn wf_cycle(ts: Seq<(String, Task)>, c: Seq<String>) -> bool {
    &&& c.len() >= 1
    &&& is_dep_path(ts, str_seq(c).push(c[0]@))
}

/// Whether the members of a reported cycle are pairwise distinct.
pub open spec fn cycle_distinct(c: Seq<String>) -> bool {
    forall|x1: int, x2: int| 0 <= x1 < x2 < c.len() ==> c[x1]@ != c[x2]@
}

/// A well-formed reported cycle witnesses a cycle in the graph.
pub proof fn lemma_wf_cycle_has_cycle(ts: Seq<(String, Task)>, c: Seq<String>)
    requires
        wf_cycle(ts, c),
    ensures
        has_cycle(ts),
{
    let q = str_seq(c).push(c[0]@);
    assert(q.len() >= 2);
    assert(q.first() == c[0]@);
    assert(q.last() == c[0]@);
}

/// Whether the string holds only whitespace (or nothing).
pub fn is_blank(s: &String) -> (r: bool)
    ensures
        r == spec_is_blank(s@),
{
    let slice = s.as_str();
    let len = slice.unicode_len();
    let mut i: usize = 0;
    while i < len
        invariant
            len == slice@.len(),
            slice@ == s@,
            i <= len,
            forall|j: int| 0 <= j < i ==> is_space_char(#[trigger] s@[j]),
        decreases len - i,
    {
        let c = slice.get_char(i);
        if !is_space(c) {
            return false;
        }
        i += 1;
    }
    true
}

/// How many of the first `m` tasks are still fresh — neither on the
/// stack nor done: search work not yet begun.
pub open spec fn count_fresh(visiting: Seq<bool>, visited: Seq<bool>, m: int) -> nat
    decreases m,
{
    if m <= 0 {
        0
    } else {
        count_fresh(visiting, visited, m - 1) + if !visiting[m - 1] && !visited[m - 1] {
            1nat
        } else {
            0nat
        }
    }
}

proof fn lemma_count_fresh_same(
    v1: Seq<bool>,
    d1: Seq<bool>,
    v2: Seq<bool>,
    d2: Seq<bool>,
    m: int,
)
    requires
        forall|j: int| 0 <= j < m ==> ((!v1[j] && !d1[j]) <==> (!v2[j] && !d2[j])),
    ensures
        count_fresh(v1, d1, m) == count_fresh(v2, d2, m),
    decreases m,
{
    if m > 0 {
        lemma_count_fresh_same(v1, d1, v2, d2, m - 1);
    }
}

proof fn lemma_count_fresh_drop(
    v1: Seq<bool>,
    d1: Seq<bool>,
    v2: Seq<bool>,
    d2: Seq<bool>,
    m: int,
    jc: int,
)
    requires
        0 <= jc < m,
        !v1[jc] && !d1[jc],
        !(!v2[jc] && !d2[jc]),
        forall|j: int| 0 <= j < m && j != jc ==> ((!v1[j] && !d1[j]) <==> (!v2[j] && !d2[j])),
    ensures
        count_fresh(v2, d2, m) + 1 == count_fresh(v1, d1, m),
    decreases m,
{
    if jc == m - 1 {
        lemma_count_fresh_same(v1, d1, v2, d2, m - 1);
    } else {
        lemma_count_fresh_drop(v1, d1, v2, d2, m - 1, jc);
    }
}

/// The work left in one stack frame: its remaining dependency slots.
pub open spec fn frame_work(ts: Seq<(String, Task)>, f: (usize, usize)) -> nat {
    if f.0 < ts.len() && f.1 <= spec_deps(ts[f.0 as int].1).len() {
        (1 + spec_deps(ts[f.0 as int].1).len() - f.1) as nat
    } else {
        0
    }
}

/// The work left on the whole stack.
pub open spec fn frames_work(ts: Seq<(String, Task)>, fs: Seq<(usize, usize)>) -> nat
    decreases fs.len(),
{
    if fs.len() == 0 {
        0
    } else {
        frames_work(ts, fs.drop_last()) + frame_work(ts, fs.last())
    }
}

/// Like the walk-position argument for run orders, but over a finish
/// sequence that only places dependencies that name real tasks earlier:
/// a walk whose nodes are all task names ends strictly before it starts.
proof fn lemma_walk_back_guarded(
    ts: Seq<(String, Task)>,
    fin: Seq<String>,
    p: Seq<Seq<char>>,
    mf: int,
)
    requires
        is_dep_path(ts, p),
        p.len() >= 2,
        0 <= mf < fin.len(),
        fin[mf]@ == p.first(),
        forall|i: int| 0 <= i < p.len() ==> has_task(ts, #[trigger] p[i]),
        forall|i: int| 0 <= i < ts.len() ==> in_names(fin, #[trigger] ts[i].0@),
        forall|m1: int, m2: int| 0 <= m1 < m2 < fin.len() ==> fin[m1]@ != fin[m2]@,
        forall|m: int, d: Seq<char>|
            0 <= m < fin.len() && #[trigger] dep_edge(ts, fin[m]@, d) && has_task(ts, d)
                ==> exists|m2: int| 0 <= m2 < m && fin[m2]@ == d,
    ensures
        exists|ml: int| 0 <= ml < mf && #[trigger] fin[ml]@ == p.last(),
    decreases p.len(),
{
    assert(dep_edge(ts, p[0], p[1]));
    assert(dep_edge(ts, fin[mf]@, p[1]));
    assert(has_task(ts, p[1]));
    let m1 = choose|m2: int| 0 <= m2 < mf && fin[m2]@ == p[1];
    if p.len() == 2 {
        assert(fin[m1]@ == p.last());
    } else {
        let q = p.subrange(1, p.len() as int);
        assert(forall|i: int| 0 <= i < q.len() ==> q[i] == p[i + 1]);
        assert forall|i: int| 0 <= i < q.len() - 1 implies dep_edge(ts, #[trigger] q[i], q[i + 1])
            by {
            assert(dep_edge(ts, p[i + 1], p[i + 2]));
        }
        assert(is_dep_path(ts, q));
        assert(q.first() == p[1] && q.last() == p.last());
        lemma_walk_back_guarded(ts, fin, q, m1);
        let ml = choose|ml: int| 0 <= ml < m1 && #[trigger] fin[ml]@ == q.last();
        assert(fin[ml]@ == p.last());
    }
}

/// A depth-first finish sequence in which every task appears and every
/// present dependency finishes before its dependent rules out cycles.
proof fn lemma_finish_acyclic(ts: Seq<(String, Task)>, fin: Seq<String>)
    requires
        forall|i: int| 0 <= i < ts.len() ==> in_names(fin, #[trigger] ts[i].0@),
        forall|m1: int, m2: int| 0 <= m1 < m2 < fin.len() ==> fin[m1]@ != fin[m2]@,
        forall|m: int, d: Seq<char>|
            0 <= m < fin.len() && #[trigger] dep_edge(ts, fin[m]@, d) && has_task(ts, d)
                ==> exists|m2: int| 0 <= m2 < m && fin[m2]@ == d,
    ensures
        !has_cycle(ts),
{
    if has_cycle(ts) {
        let q = choose|q: Seq<Seq<char>>|
            #[trigger] is_dep_path(ts, q) && q.len() >= 2 && q.first() == q.last();
        assert forall|i: int| 0 <= i < q.len() implies has_task(ts, #[trigger] q[i]) by {
            if i < q.len() - 1 {
                assert(dep_edge(ts, q[i], q[i + 1]));
                let w = choose|w: int|
                    0 <= w < ts.len() && #[trigger] ts[w].0@ == q[i] && spec_deps(
                        ts[w].1,
                    ).contains(q[i + 1]);
            } else {
                assert(q[i] == q.first());
                assert(dep_edge(ts, q[0], q[1]));
                let w = choose|w: int|
                    0 <= w < ts.len() && #[trigger] ts[w].0@ == q[0] && spec_deps(
                        ts[w].1,
                    ).contains(q[1]);
            }
        }
        let i0 = choose|i0: int| 0 <= i0 < ts.len() && #[trigger] ts[i0].0@ == q.first();
        assert(in_names(fin, ts[i0].0@));
        let mf = choose|mf: int| 0 <= mf < fin.len() && #[trigger] fin[mf]@ == q.first();
        lemma_walk_back_guarded(ts, fin, q, mf);
        let ml = choose|ml: int| 0 <= ml < mf && #[trigger] fin[ml]@ == q.last();
        assert(fin[ml]@ == fin[mf]@);
        assert(false);
    }
}

/// Cycle detection: an iterative depth-first search over the dependency
/// graph with three node states (fresh, on the stack, done), run from
/// every task.  When the search meets a node already on the stack, the
/// stack suffix from that node's first occurrence is one cycle.  Every
/// reported cycle is genuine, and on a task list with unique names an
/// empty report certifies the graph acyclic.
#[verifier::loop_isolation(false)]
#[verifier::rlimit(100)]
pub fn detect_cycles(tasks: &Vec<(String, Task)>) -> (cycles: Vec<Vec<String>>)
    ensures
        forall|c: int| 0 <= c < cycles@.len() ==> wf_cycle(tasks@, #[trigger] cycles@[c]@),
        names_unique(tasks@) ==> forall|c: int|
            0 <= c < cycles@.len() ==> cycle_distinct(#[trigger] cycles@[c]@),
        names_unique(tasks@) && cycles@.len() == 0 ==> !has_cycle(tasks@),
{
    let ghost ts = tasks@;
    let n = tasks.len();
    let mut visiting: Vec<bool> = Vec::new();
    let mut visited: Vec<bool> = Vec::new();
    let mut i: usize = 0;
    while i < n
        invariant
            visiting@.len() == i <= n,
            visited@.len() == i,
            forall|j: int| 0 <= j < i ==> !visiting@[j] && !visited@[j],
        decreases n - i,
    {
        visiting.push(false);
        visited.push(false);
        i += 1;
    }
    let ghost mut sdepth: Seq<int> = Seq::new(n as nat, |j: int| -1);
    let ghost mut frank: Seq<int> = Seq::new(n as nat, |j: int| -1);
    let ghost mut fin: Seq<String> = Seq::empty();
    let ghost mut fowner: Seq<int> = Seq::empty();
    let mut cycles: Vec<Vec<String>> = Vec::new();
    let mut root: usize = 0;
    while root < n
        invariant
            root <= n,
            visiting@.len() == n,
            visited@.len() == n,
            sdepth.len() == n,
            frank.len() == n,
            fowner.len() == fin.len() <= n,
            forall|j: int| 0 <= j < n ==> !visiting@[j],
            forall|j: int| 0 <= j < n ==> sdepth[j] == -1,
            forall|j: int| 0 <= j < root ==> visited@[j],
            forall|j: int| 0 <= j < n ==> ((#[trigger] frank[j] >= 0) <==> visited@[j]),
            forall|j: int|
                0 <= j < n && frank[j] >= 0 ==> frank[j] < fin.len() && fin[#[trigger] frank[j]]
                    == ts[j].0,
            forall|m: int|
                0 <= m < fin.len() ==> 0 <= #[trigger] fowner[m] < n && frank[fowner[m]] == m
                    && fin[m] == ts[fowner[m]].0,
            forall|c: int| 0 <= c < cycles@.len() ==> wf_cycle(ts, #[trigger] cycles@[c]@),
            names_unique(ts) ==> forall|c: int|
                0 <= c < cycles@.len() ==> cycle_distinct(#[trigger] cycles@[c]@),
            names_unique(ts) && cycles@.len() == 0 ==> forall|j: int, jd: int|
                0 <= j < n && 0 <= jd < n && #[trigger] frank[j] >= 0 && spec_deps(
                    ts[j].1,
                ).contains(ts[jd].0@) ==> 0 <= #[trigger] frank[jd] < frank[j],
        decreases n - root,
    {
        if !visited[root] {
            let mut frames: Vec<(usize, usize)> = Vec::new();
            visiting.set(root, true);
            frames.push((root, 0));
            proof {
                sdepth = sdepth.update(root as int, 0);
            }
            while frames.len() > 0
                invariant
                    visiting@.len() == n,
                    visited@.len() == n,
                    sdepth.len() == n,
                    frank.len() == n,
                    fowner.len() == fin.len() <= n,
                    forall|j: int| 0 <= j < n ==> #[trigger] sdepth[j] >= -1,
                    forall|j: int| 0 <= j < root ==> #[trigger] visited@[j],
                    frames@.len() > 0 ==> frames@[0].0 == root,
                    frames@.len() == 0 ==> visited@[root as int],
                    forall|j: int|
                        0 <= j < n ==> ((#[trigger] sdepth[j] >= 0) <==> visiting@[j]),
                    forall|j: int| 0 <= j < n ==> #[trigger] sdepth[j] < frames@.len(),
                    forall|j: int|
                        0 <= j < n && sdepth[j] >= 0 ==> frames@[#[trigger] sdepth[j]].0 == j,
                    forall|fi: int|
                        0 <= fi < frames@.len() ==> #[trigger] frames@[fi].0 < n && sdepth[
                            frames@[fi].0 as int
                        ] == fi,
                    forall|fi: int|
                        0 <= fi < frames@.len() ==> #[trigger] frames@[fi].1 <= spec_deps(
                            ts[frames@[fi].0 as int].1,
                        ).len(),
                    forall|fi: int|
                        0 <= fi < frames@.len() - 1 ==> #[trigger] frames@[fi].1 >= 1
                            && spec_deps(ts[frames@[fi].0 as int].1)[frames@[fi].1 - 1]
                            == ts[frames@[fi + 1].0 as int].0@,
                    forall|j: int| 0 <= j < n ==> ((#[trigger] frank[j] >= 0) <==> visited@[j]),
                    forall|j: int| 0 <= j < n ==> !(visiting@[j] && visited@[j]),
                    forall|j: int|
                        0 <= j < n && frank[j] >= 0 ==> frank[j] < fin.len()
                            && fin[#[trigger] frank[j]] == ts[j].0,
                    forall|m: int|
                        0 <= m < fin.len() ==> 0 <= #[trigger] fowner[m] < n && frank[fowner[m]]
                            == m && fin[m] == ts[fowner[m]].0,
                    forall|c: int| 0 <= c < cycles@.len() ==> wf_cycle(ts, #[trigger] cycles@[c]@),
                    names_unique(ts) ==> forall|c: int|
                        0 <= c < cycles@.len() ==> cycle_distinct(#[trigger] cycles@[c]@),
                    names_unique(ts) && cycles@.len() == 0 ==> forall|fi: int, kk: int, jd: int|
                        #![trigger spec_deps(ts[frames@[fi].0 as int].1)[kk], ts[jd].0@]
                        0 <= fi < frames@.len() && 0 <= kk < frames@[fi].1 && 0 <= jd < n
                            && ts[jd].0@ == spec_deps(ts[frames@[fi].0 as int].1)[kk]
                            ==> (0 <= frank[jd] || sdepth[jd] > fi),
                    names_unique(ts) && cycles@.len() == 0 ==> forall|j: int, jd: int|
                        0 <= j < n && 0 <= jd < n && #[trigger] frank[j] >= 0 && spec_deps(
                            ts[j].1,
                        ).contains(ts[jd].0@) ==> 0 <= #[trigger] frank[jd] < frank[j],
                decreases n - fin.len(), count_fresh(visiting@, visited@, n as int), frames_work(
                    ts,
                    frames@,
                ),
            {
                let fi = frames.len() - 1;
                let fr = frames[fi];
                let v = fr.0;
                let k = fr.1;
                let dl = tasks[v].1.deps.len();
                let ghost old_frames = frames@;
                let ghost old_visiting = visiting@;
                let ghost old_visited = visited@;
                if k < dl {
                    frames.set(fi, (v, k + 1));
                    proof {
                        assert(frames@ =~= old_frames.update(fi as int, (v, (k + 1) as usize)));
                        assert(frames@.drop_last() =~= old_frames.drop_last());
                        assert(frames_work(ts, frames@) + 1 == frames_work(ts, old_frames));
                        lemma_count_fresh_same(
                            old_visiting,
                            old_visited,
                            visiting@,
                            visited@,
                            n as int,
                        );
                    }
                    let d: &String = &tasks[v].1.deps[k];
                    assert(spec_deps(ts[v as int].1)[k as int] == d@);
                    match find_task(tasks, d) {
                        Some(j) => {
                            if visiting[j] {
                                let ghost jpos = sdepth[j as int];
                                let mut pos: usize = 0;
                                while frames[pos].0 != j
                                    invariant
                                        pos <= jpos,
                                        forall|f2: int| 0 <= f2 < pos ==> frames@[f2].0 != j,
                                    decreases jpos - pos,
                                {
                                    pos += 1;
                                }
                                let mut cyc: Vec<String> = Vec::new();
                                let mut f2: usize = pos;
                                while f2 < frames.len()
                                    invariant
                                        pos <= f2 <= frames@.len(),
                                        cyc@.len() == f2 - pos,
                                        forall|x: int|
                                            0 <= x < cyc@.len() ==> #[trigger] cyc@[x]
                                                == ts[frames@[pos + x].0 as int].0,
                                    decreases frames@.len() - f2,
                                {
                                    cyc.push(tasks[frames[f2].0].0.clone());
                                    f2 += 1;
                                }
                                proof {
                                    let q = str_seq(cyc@).push(cyc@[0]@);
                                    assert(cyc@.len() == frames@.len() - pos);
                                    assert(frames@[pos as int].0 == j);
                                    assert forall|x: int| 0 <= x < q.len() - 1 implies dep_edge(
                                        ts,
                                        #[trigger] q[x],
                                        q[x + 1],
                                    ) by {
                                        let w = frames@[pos + x].0 as int;
                                        assert(q[x] == ts[w].0@);
                                        if x < cyc@.len() - 1 {
                                            assert(spec_deps(ts[w].1)[frames@[pos + x].1 - 1]
                                                == ts[frames@[pos + x + 1].0 as int].0@);
                                            assert(spec_deps(ts[w].1).contains(q[x + 1]));
                                        } else {
                                            assert(w == v as int);
                                            assert(q[x + 1] == ts[j as int].0@);
                                            assert(spec_deps(ts[w].1)[k as int] == d@);
                                            assert(spec_deps(ts[w].1).contains(q[x + 1]));
                                        }
                                    }
                                    assert(wf_cycle(ts, cyc@));
                                    if names_unique(ts) {
                                        assert forall|x1: int, x2: int|
                                            0 <= x1 < x2 < cyc@.len() implies cyc@[x1]@
                                            != cyc@[x2]@ by {
                                            let w1 = frames@[pos + x1].0;
                                            let w2 = frames@[pos + x2].0;
                                            assert(sdepth[w1 as int] == pos + x1);
                                            assert(sdepth[w2 as int] == pos + x2);
                                            assert(w1 != w2);
                                            if ts[w1 as int].0@ == ts[w2 as int].0@ {
                                                assert(false);
                                            }
                                        }
                                        assert(cycle_distinct(cyc@));
                                    }
                                }
                                let ghost old_cycles = cycles@;
                                cycles.push(cyc);
                                proof {
                                    assert(forall|c: int|
                                        0 <= c < old_cycles.len() ==> cycles@[c] == old_cycles[c]);
                                }
                            } else if !visited[j] {
                                visiting.set(j, true);
                                frames.push((j, 0));
                                proof {
                                    sdepth = sdepth.update(j as int, frames@.len() - 1);
                                    assert(frames@.drop_last()
                                        =~= old_frames.update(fi as int, (v, (k + 1) as usize)));
                                    lemma_count_fresh_drop(
                                        old_visiting,
                                        old_visited,
                                        visiting@,
                                        visited@,
                                        n as int,
                                        j as int,
                                    );
                                }
                            }
                        },
                        None => {},
                    }
                } else {
                    let _popped = frames.pop();
                    visiting.set(v, false);
                    visited.set(v, true);
                    proof {
                        assert(frames@ =~= old_frames.drop_last());
                        let old_fowner = fowner;
                        assert forall|m: int| 0 <= m < fowner.len() implies fowner[m] != v as int
                            by {
                            if fowner[m] == v as int {
                                assert(frank[v as int] == m);
                            }
                        }
                        fowner = fowner.push(v as int);
                        assert forall|m1: int, m2: int|
                            0 <= m1 < m2 < fowner.len() implies fowner[m1] != fowner[m2] by {
                            if m2 < old_fowner.len() {
                                assert(frank[old_fowner[m1]] == m1);
                                assert(frank[old_fowner[m2]] == m2);
                            }
                        }
                        assert forall|m: int| 0 <= m < fowner.len() implies 0 <= #[trigger] fowner[m]
                            < n by {}
                        lemma_distinct_ints_bounded(fowner, n as int);
                        frank = frank.update(v as int, fin.len() as int);
                        fin = fin.push(tasks@[v as int].0);
                        sdepth = sdepth.update(v as int, -1);
                        lemma_count_fresh_same(
                            old_visiting,
                            old_visited,
                            visiting@,
                            visited@,
                            n as int,
                        );
                        if names_unique(ts) && cycles@.len() == 0 {
                            assert forall|j: int, jd: int|
                                0 <= j < n && 0 <= jd < n && #[trigger] frank[j] >= 0 && spec_deps(
                                    ts[j].1,
                                ).contains(ts[jd].0@) implies 0 <= #[trigger] frank[jd] < frank[j]
                                by {
                                if j == v as int {
                                    let kk = choose|kk: int|
                                        0 <= kk < spec_deps(ts[j].1).len() && spec_deps(ts[j].1)[kk]
                                            == ts[jd].0@;
                                    assert(0 <= kk < old_frames[fi as int].1);
                                    assert(0 <= frank[jd] || sdepth[jd] > fi);
                                    assert(frank[jd] < fin.len() - 1 || jd == v as int);
                                }
                            }
                        }
                    }
                }
            }
            proof {
                assert forall|j: int| 0 <= j < n implies !(#[trigger] visiting@[j]) by {
                    assert(sdepth[j] < frames@.len());
                }
                assert forall|j: int| 0 <= j < n implies #[trigger] sdepth[j] == -1 by {
                    assert(sdepth[j] < frames@.len());
                }
            }
        }
        root += 1;
    }
    proof {
        if names_unique(ts) && cycles@.len() == 0 {
            assert forall|i2: int| 0 <= i2 < ts.len() implies in_names(
                fin,
                #[trigger] ts[i2].0@,
            ) by {
                assert(visited@[i2]);
                assert(fin[frank[i2]] == ts[i2].0);
                assert(fin[frank[i2]]@ == ts[i2].0@);
            }
            assert forall|m1: int, m2: int| 0 <= m1 < m2 < fin.len() implies fin[m1]@ != fin[m2]@
                by {
                if fin[m1]@ == fin[m2]@ {
                    assert(ts[fowner[m1]].0@ == ts[fowner[m2]].0@);
                    assert(fowner[m1] == fowner[m2]);
                    assert(frank[fowner[m1]] == m1);
                    assert(false);
                }
            }
            assert forall|m: int, d: Seq<char>|
                0 <= m < fin.len() && #[trigger] dep_edge(ts, fin[m]@, d) && has_task(ts, d)
                    implies exists|m2: int| 0 <= m2 < m && fin[m2]@ == d by {
                let i2 = choose|i2: int|
                    0 <= i2 < ts.len() && #[trigger] ts[i2].0@ == fin[m]@ && spec_deps(
                        ts[i2].1,
                    ).contains(d);
                assert(i2 == fowner[m]) by {
                    if i2 != fowner[m] {
                        assert(ts[i2].0@ == ts[fowner[m]].0@);
                    }
                }
                assert(frank[i2] == m);
                let jd = choose|jd: int| 0 <= jd < ts.len() && #[trigger] ts[jd].0@ == d;
                assert(0 <= frank[jd] < frank[i2]);
                assert(fin[frank[jd]]@ == d);
                assert(0 <= frank[jd] < m && fin[frank[jd]]@ == d);
            }
            lemma_finish_acyclic(ts, fin);
        }
    }
    cycles
}

/// Whether all tasks of the list are well-formed together: unique
/// names, every dependency present, usable commands, no task depending
/// on itself, and no dependency cycle.
pub open spec fn spec_valid(ts: Seq<(String, Task)>) -> bool {
    &&& names_unique(ts)
    &&& forall|i: int, d: Seq<char>|
        0 <= i < ts.len() && #[trigger] spec_deps(ts[i].1).contains(d) ==> has_task(ts, d)
    &&& forall|i: int| 0 <= i < ts.len() ==> commands_ok(#[trigger] ts[i].1)
    &&& forall|i: int| 0 <= i < ts.len() ==> !spec_deps(#[trigger] ts[i].1).contains(ts[i].0@)
    &&& !has_cycle(ts)
}

/// Whether the error reports `dep` of `task` as missing.
pub open spec fn is_missing_err(e: ValidationError, t: Seq<char>, d: Seq<char>) -> bool {
    e matches ValidationError::DependencyNotFound { task, dep } && task@ == t && dep@ == d
}

/// Whether the error reports the commands of the task named `x` as
/// empty.
pub open spec fn is_empty_err(e: ValidationError, x: Seq<char>) -> bool {
    e matches ValidationError::EmptyCommand(nm) && nm@ == x
}

/// Whether the error reports the task named `x` as self-dependent.
pub open spec fn is_self_err(e: ValidationError, x: Seq<char>) -> bool {
    e matches ValidationError::SelfDependency(nm) && nm@ == x
}

/// Whether a cycle error carries a real cycle of the task list.
pub open spec fn cyc_err_ok(ts: Seq<(String, Task)>, e: ValidationError) -> bool {
    e matches ValidationError::CyclicDependency { cycle } ==> wf_cycle(ts, cycle@)
}

/// Whether a cycle error's members are pairwise distinct.
pub open spec fn cyc_err_distinct(e: ValidationError) -> bool {
    e matches ValidationError::CyclicDependency { cycle } ==> cycle_distinct(cycle@)
}

/// How many errors in the list report the task named `x` as
/// self-dependent.
pub open spec fn count_self_errs(errors: Seq<ValidationError>, x: Seq<char>) -> nat
    decreases errors.len(),
{
    if errors.len() == 0 {
        0
    } else {
        count_self_errs(errors.drop_last(), x) + if is_self_err(errors.last(), x) {
            1nat
        } else {
            0nat
        }
    }
}

/// How many entries named `x` list their own name among their
/// dependencies.
pub open spec fn count_self_deps(ts: Seq<(String, Task)>, x: Seq<char>) -> nat
    decreases ts.len(),
{
    if ts.len() == 0 {
        0
    } else {
        count_self_deps(ts.drop_last(), x) + if ts.last().0@ == x && spec_deps(
            ts.last().1,
        ).contains(x) {
            1nat
        } else {
            0nat
        }
    }
}

/// How many errors in the list report `d` as a missing dependency of
/// the task named `t`.
pub open spec fn count_missing_errs(errors: Seq<ValidationError>, t: Seq<char>, d: Seq<char>) -> nat
    decreases errors.len(),
{
    if errors.len() == 0 {
        0
    } else {
        count_missing_errs(errors.drop_last(), t, d) + if is_missing_err(errors.last(), t, d) {
            1nat
        } else {
            0nat
        }
    }
}

/// How many times entries named `t` list the dependency `d`.
pub open spec fn dep_occurrences(ts: Seq<(String, Task)>, t: Seq<char>, d: Seq<char>) -> nat
    decreases ts.len(),
{
    if ts.len() == 0 {
        0
    } else {
        dep_occurrences(ts.drop_last(), t, d) + if ts.last().0@ == t {
            count_in(spec_deps(ts.last().1), d)
        } else {
            0nat
        }
    }
}

proof fn lemma_count_self_push(errors: Seq<ValidationError>, e: ValidationError)
    ensures
        forall|x: Seq<char>| #[trigger] count_self_errs(errors.push(e), x) == count_self_errs(
            errors,
            x,
        ) + (if is_self_err(e, x) {
            1nat
        } else {
            0nat
        }),
{
    assert(errors.push(e).drop_last() =~= errors);
    assert(errors.push(e).last() == e);
}

proof fn lemma_count_self_none(errors: Seq<ValidationError>)
    requires
        forall|k: int| 0 <= k < errors.len() ==> !((#[trigger] errors[k]) is SelfDependency),
    ensures
        forall|x: Seq<char>| #[trigger] count_self_errs(errors, x) == 0,
    decreases errors.len(),
{
    if errors.len() > 0 {
        assert(forall|k: int|
            0 <= k < errors.drop_last().len() ==> errors.drop_last()[k] == errors[k]);
        lemma_count_self_none(errors.drop_last());
        assert(!(errors.last() is SelfDependency));
        assert forall|x: Seq<char>| #[trigger] count_self_errs(errors, x) == 0 by {
            assert(count_self_errs(errors.drop_last(), x) == 0);
            assert(!is_self_err(errors.last(), x));
        }
    }
}

proof fn lemma_count_missing_push(errors: Seq<ValidationError>, e: ValidationError)
    ensures
        forall|t: Seq<char>, d: Seq<char>| #[trigger] count_missing_errs(errors.push(e), t, d)
            == count_missing_errs(errors, t, d) + (if is_missing_err(e, t, d) {
            1nat
        } else {
            0nat
        }),
{
    assert(errors.push(e).drop_last() =~= errors);
    assert(errors.push(e).last() == e);
}

proof fn lemma_count_missing_none(errors: Seq<ValidationError>)
    requires
        forall|k: int| 0 <= k < errors.len() ==> !((#[trigger] errors[k]) is DependencyNotFound),
    ensures
        forall|t: Seq<char>, d: Seq<char>| #[trigger] count_missing_errs(errors, t, d) == 0,
    decreases errors.len(),
{
    if errors.len() > 0 {
        assert(forall|k: int|
            0 <= k < errors.drop_last().len() ==> errors.drop_last()[k] == errors[k]);
        lemma_count_missing_none(errors.drop_last());
        assert(!(errors.last() is DependencyNotFound));
        assert forall|t: Seq<char>, d: Seq<char>| #[trigger] count_missing_errs(errors, t, d)
            == 0 by {
            assert(count_missing_errs(errors.drop_last(), t, d) == 0);
            assert(!is_missing_err(errors.last(), t, d));
        }
    }
}

/// Whether a task's commands are usable, decided executably.
fn check_commands(t: &Task) -> (r: bool)
    ensures
        r == commands_ok(*t),
{
    match &t.cmd {
        CommandSpec::Single(s) => {
            let b = is_blank(s);
            proof {
                assert(t.cmd.spec_commands() =~= seq![s@]);
                assert(t.cmd.spec_commands()[0] == s@);
            }
            !b
        },
        CommandSpec::Multiple(list) => {
            proof {
                assert(t.cmd.spec_commands() =~= list@.map_values(|c: String| c@));
            }
            if list.len() == 0 {
                return false;
            }
            let mut k: usize = 0;
            while k < list.len()
                invariant
                    k <= list@.len(),
                    forall|kk: int|
                        0 <= kk < k ==> !spec_is_blank(
                            #[trigger] t.cmd.spec_commands()[kk],
                        ),
                    t.cmd.spec_commands() == list@.map_values(|c: String| c@),
                decreases list@.len() - k,
            {
                assert(t.cmd.spec_commands()[k as int] == list@[k as int]@);
                if is_blank(&list[k]) {
                    assert(spec_is_blank(t.cmd.spec_commands()[k as int]));
                    return false;
                }
                k += 1;
            }
            true
        },
    }
}

/// Validation: runs five independent checks over the task list —
/// duplicate names, missing dependencies, empty or blank commands,
/// self-dependencies, and dependency cycles — and accumulates every
/// finding.  The result is empty exactly when the task list is valid.
#[verifier::loop_isolation(false)]
#[verifier::rlimit(100)]
pub fn validate_tasks_file(file: &TasksFile) -> (errors: Vec<ValidationError>)
    ensures
        errors@.len() == 0 <==> spec_valid(file.tasks@),
        (exists|k: int| 0 <= k < errors@.len() && #[trigger] errors@[k] is DuplicatedTask)
            <==> !names_unique(file.tasks@),
        forall|k: int|
            0 <= k < errors@.len() ==> (#[trigger] errors@[k] matches
                ValidationError::DependencyNotFound { task, dep } ==> exists|i: int|
                0 <= i < file.tasks@.len() && file.tasks@[i].0@ == task@ && spec_deps(
                    file.tasks@[i].1,
                ).contains(dep@) && !has_task(file.tasks@, dep@)),
        forall|i: int, d: Seq<char>|
            0 <= i < file.tasks@.len() && #[trigger] spec_deps(file.tasks@[i].1).contains(d)
                && !has_task(file.tasks@, d) ==> exists|k: int|
                0 <= k < errors@.len() && is_missing_err(
                    #[trigger] errors@[k],
                    file.tasks@[i].0@,
                    d,
                ),
        forall|k: int|
            0 <= k < errors@.len() ==> (#[trigger] errors@[k] matches ValidationError::EmptyCommand(
                nm,
            ) ==> exists|i: int|
                0 <= i < file.tasks@.len() && file.tasks@[i].0@ == nm@ && !commands_ok(
                    file.tasks@[i].1,
                )),
        forall|i: int|
            0 <= i < file.tasks@.len() && !commands_ok(#[trigger] file.tasks@[i].1)
                ==> exists|k: int|
                0 <= k < errors@.len() && is_empty_err(#[trigger] errors@[k], file.tasks@[i].0@),
        forall|k: int|
            0 <= k < errors@.len() ==> (#[trigger] errors@[k] matches
                ValidationError::SelfDependency(nm) ==> exists|i: int|
                0 <= i < file.tasks@.len() && file.tasks@[i].0@ == nm@ && spec_deps(
                    file.tasks@[i].1,
                ).contains(nm@)),
        forall|i: int|
            0 <= i < file.tasks@.len() && #[trigger] spec_deps(file.tasks@[i].1).contains(
                file.tasks@[i].0@,
            ) ==> exists|k: int|
                0 <= k < errors@.len() && is_self_err(#[trigger] errors@[k], file.tasks@[i].0@),
        forall|k: int| 0 <= k < errors@.len() ==> cyc_err_ok(file.tasks@, #[trigger] errors@[k]),
        names_unique(file.tasks@) ==> forall|k: int|
            0 <= k < errors@.len() ==> cyc_err_distinct(#[trigger] errors@[k]),
        forall|t: Seq<char>, d: Seq<char>| #[trigger] count_missing_errs(errors@, t, d) == (
        if has_task(file.tasks@, d) {
            0nat
        } else {
            dep_occurrences(file.tasks@, t, d)
        }),
        forall|x: Seq<char>| #[trigger] count_self_errs(errors@, x) == count_self_deps(
            file.tasks@,
            x,
        ),
        names_unique(file.tasks@) && has_cycle(file.tasks@) ==> exists|k: int|
            0 <= k < errors@.len() && #[trigger] errors@[k] is CyclicDependency,
{
    let tasks = &file.tasks;
    let ghost ts = tasks@;
    let n = tasks.len();
    let mut errors: Vec<ValidationError> = Vec::new();

    let mut seen: Vec<String> = Vec::new();
    let mut i: usize = 0;
    while i < n
        invariant
            i <= n,
            forall|x: Seq<char>|
                #[trigger] in_names(seen@, x) <==> exists|j: int|
                    0 <= j < i && ts[j].0@ == x,
            (errors@.len() == 0) <==> (forall|j1: int, j2: int|
                0 <= j1 < j2 < i ==> ts[j1].0@ != ts[j2].0@),
            forall|k: int| 0 <= k < errors@.len() ==> #[trigger] errors@[k] is DuplicatedTask,
        decreases n - i,
    {
        if contains_string(&seen, &tasks[i].0) {
            proof {
                let j = choose|j: int| 0 <= j < i && ts[j].0@ == ts[i as int].0@;
                assert(!names_unique(ts));
            }
            let ghost old_errors = errors@;
            errors.push(ValidationError::DuplicatedTask(tasks[i].0.clone()));
            proof {
                assert(forall|k: int| 0 <= k < old_errors.len() ==> errors@[k] == old_errors[k]);
                assert(errors@[errors@.len() - 1] is DuplicatedTask);
            }
        } else {
            let ghost old_seen = seen@;
            seen.push(tasks[i].0.clone());
            proof {
                assert(seen@[old_seen.len() as int]@ == ts[i as int].0@);
                assert(forall|m: int| 0 <= m < old_seen.len() ==> seen@[m] == old_seen[m]);
                assert forall|x: Seq<char>| #[trigger] in_names(seen@, x) implies exists|j: int|
                    0 <= j < i + 1 && ts[j].0@ == x by {
                    let m = choose|m: int| 0 <= m < seen@.len() && #[trigger] seen@[m]@ == x;
                    if m < old_seen.len() {
                        assert(in_names(old_seen, x));
                    } else {
                        assert(ts[i as int].0@ == x);
                    }
                }
                assert forall|x: Seq<char>|
                    (exists|j: int| 0 <= j < i + 1 && ts[j].0@ == x) implies #[trigger] in_names(
                    seen@,
                    x,
                ) by {
                    let j = choose|j: int| 0 <= j < i + 1 && ts[j].0@ == x;
                    if j < i {
                        assert(in_names(old_seen, x));
                        let m = choose|m: int|
                            0 <= m < old_seen.len() && #[trigger] old_seen[m]@ == x;
                        assert(seen@[m]@ == x);
                    } else {
                        assert(seen@[old_seen.len() as int]@ == x);
                    }
                }
            }
        }
        i += 1;
    }
    let ghost dup_end = errors@.len() as int;
    let ghost err_a = errors@;
    proof {
        assert((dup_end == 0) <==> names_unique(ts));
    }

    let ghost mut mowner: Map<(int, int), int> = Map::empty();
    let mut i: usize = 0;
    while i < n
        invariant
            i <= n,
            err_a.len() <= errors@.len(),
            forall|k: int| 0 <= k < err_a.len() ==> #[trigger] errors@[k] == err_a[k],
            forall|k: int|
                err_a.len() <= k < errors@.len() ==> (#[trigger] errors@[k] matches
                    ValidationError::DependencyNotFound { task, dep } ==> exists|i2: int|
                    0 <= i2 < n && ts[i2].0@ == task@ && spec_deps(ts[i2].1).contains(dep@)
                        && !has_task(ts, dep@)),
            forall|k: int|
                err_a.len() <= k < errors@.len() ==> #[trigger] errors@[k] is DependencyNotFound,
            forall|i2: int, kk: int|
                #![trigger spec_deps(ts[i2].1)[kk]]
                0 <= i2 < i && 0 <= kk < spec_deps(ts[i2].1).len() && !has_task(
                    ts,
                    spec_deps(ts[i2].1)[kk],
                ) ==> mowner.contains_key((i2, kk)) && 0 <= mowner[(i2, kk)] < errors@.len()
                    && is_missing_err(
                    errors@[mowner[(i2, kk)]],
                    ts[i2].0@,
                    spec_deps(ts[i2].1)[kk],
                ),
            forall|t: Seq<char>, d: Seq<char>| #[trigger] count_missing_errs(errors@, t, d)
                == count_missing_errs(err_a, t, d) + (if has_task(ts, d) {
                0nat
            } else {
                dep_occurrences(ts.subrange(0, i as int), t, d)
            }),
        decreases n - i,
    {
        let dl = tasks[i].1.deps.len();
        proof {
            assert forall|t: Seq<char>, d: Seq<char>| #[trigger] count_missing_errs(errors@, t, d)
                == count_missing_errs(err_a, t, d) + (if has_task(ts, d) {
                0nat
            } else {
                dep_occurrences(ts.subrange(0, i as int), t, d) + (if ts[i as int].0@ == t {
                    count_in(spec_deps(ts[i as int].1).subrange(0, 0), d)
                } else {
                    0nat
                })
            }) by {
                assert(count_in(spec_deps(ts[i as int].1).subrange(0, 0), d) == 0);
            }
        }
        let mut kk: usize = 0;
        while kk < dl
            invariant
                i < n,
                kk <= dl,
                dl == spec_deps(ts[i as int].1).len(),
                err_a.len() <= errors@.len(),
                forall|k: int| 0 <= k < err_a.len() ==> #[trigger] errors@[k] == err_a[k],
                forall|k: int|
                    err_a.len() <= k < errors@.len() ==> (#[trigger] errors@[k] matches
                        ValidationError::DependencyNotFound { task, dep } ==> exists|i2: int|
                        0 <= i2 < n && ts[i2].0@ == task@ && spec_deps(ts[i2].1).contains(dep@)
                            && !has_task(ts, dep@)),
                forall|k: int|
                    err_a.len() <= k < errors@.len() ==> #[trigger] errors@[
                        k
                    ] is DependencyNotFound,
                forall|i2: int, kk2: int|
                    #![trigger spec_deps(ts[i2].1)[kk2]]
                    (0 <= i2 < i && 0 <= kk2 < spec_deps(ts[i2].1).len() || i2 == i && 0 <= kk2
                        < kk) && !has_task(ts, spec_deps(ts[i2].1)[kk2]) && 0 <= i2 < n
                        ==> mowner.contains_key((i2, kk2)) && 0 <= mowner[(i2, kk2)]
                        < errors@.len() && is_missing_err(
                        errors@[mowner[(i2, kk2)]],
                        ts[i2].0@,
                        spec_deps(ts[i2].1)[kk2],
                    ),
                forall|t: Seq<char>, d: Seq<char>| #[trigger] count_missing_errs(errors@, t, d)
                    == count_missing_errs(err_a, t, d) + (if has_task(ts, d) {
                    0nat
                } else {
                    dep_occurrences(ts.subrange(0, i as int), t, d) + (if ts[i as int].0@ == t {
                        count_in(spec_deps(ts[i as int].1).subrange(0, kk as int), d)
                    } else {
                        0nat
                    })
                }),
            decreases dl - kk,
        {
            let d: &String = &tasks[i].1.deps[kk];
            assert(spec_deps(ts[i as int].1)[kk as int] == d@);
            let ghost deps_i = spec_deps(ts[i as int].1);
            match find_task(tasks, d) {
                Some(_) => {
                    proof {
                        assert(has_task(ts, d@));
                        assert(deps_i.subrange(0, kk + 1).drop_last() =~= deps_i.subrange(
                            0,
                            kk as int,
                        ));
                        assert(deps_i.subrange(0, kk + 1).last() == deps_i[kk as int]);
                        assert forall|t: Seq<char>, d2: Seq<char>| #[trigger] count_missing_errs(
                            errors@,
                            t,
                            d2,
                        ) == count_missing_errs(err_a, t, d2) + (if has_task(ts, d2) {
                            0nat
                        } else {
                            dep_occurrences(ts.subrange(0, i as int), t, d2) + (if ts[i as int].0@
                                == t {
                                count_in(deps_i.subrange(0, kk + 1), d2)
                            } else {
                                0nat
                            })
                        }) by {
                            assert(count_in(deps_i.subrange(0, kk + 1), d2) == count_in(
                                deps_i.subrange(0, kk as int),
                                d2,
                            ) + (if deps_i[kk as int] == d2 {
                                1nat
                            } else {
                                0nat
                            }));
                            if deps_i[kk as int] == d2 {
                                assert(has_task(ts, d2));
                            }
                        }
                    }
                },
                None => {
                    let ghost old_errors = errors@;
                    errors.push(
                        ValidationError::DependencyNotFound {
                            task: tasks[i].0.clone(),
                            dep: d.clone(),
                        },
                    );
                    proof {
                        assert(forall|k: int|
                            0 <= k < old_errors.len() ==> errors@[k] == old_errors[k]);
                        assert(is_missing_err(errors@[errors@.len() - 1], ts[i as int].0@, d@));
                        mowner = mowner.insert((i as int, kk as int), errors@.len() - 1);
                        lemma_count_missing_push(old_errors, errors@[errors@.len() - 1]);
                        assert(deps_i.subrange(0, kk + 1).drop_last() =~= deps_i.subrange(
                            0,
                            kk as int,
                        ));
                        assert(deps_i.subrange(0, kk + 1).last() == deps_i[kk as int]);
                        assert forall|t: Seq<char>, d2: Seq<char>| #[trigger] count_missing_errs(
                            errors@,
                            t,
                            d2,
                        ) == count_missing_errs(err_a, t, d2) + (if has_task(ts, d2) {
                            0nat
                        } else {
                            dep_occurrences(ts.subrange(0, i as int), t, d2) + (if ts[i as int].0@
                                == t {
                                count_in(deps_i.subrange(0, kk + 1), d2)
                            } else {
                                0nat
                            })
                        }) by {
                            assert(count_missing_errs(errors@, t, d2) == count_missing_errs(
                                old_errors,
                                t,
                                d2,
                            ) + (if is_missing_err(errors@[errors@.len() - 1], t, d2) {
                                1nat
                            } else {
                                0nat
                            }));
                            assert(count_in(deps_i.subrange(0, kk + 1), d2) == count_in(
                                deps_i.subrange(0, kk as int),
                                d2,
                            ) + (if deps_i[kk as int] == d2 {
                                1nat
                            } else {
                                0nat
                            }));
                            assert(is_missing_err(errors@[errors@.len() - 1], t, d2) == (t
                                == ts[i as int].0@ && d2 == d@));
                        }
                    }
                },
            }
            kk += 1;
        }
        proof {
            assert(spec_deps(ts[i as int].1).subrange(0, dl as int) =~= spec_deps(
                ts[i as int].1,
            ));
            assert(ts.subrange(0, i + 1).drop_last() =~= ts.subrange(0, i as int));
            assert(ts.subrange(0, i + 1).last() == ts[i as int]);
            assert forall|t: Seq<char>, d2: Seq<char>| #[trigger] count_missing_errs(
                errors@,
                t,
                d2,
            ) == count_missing_errs(err_a, t, d2) + (if has_task(ts, d2) {
                0nat
            } else {
                dep_occurrences(ts.subrange(0, i + 1), t, d2)
            }) by {
                assert(dep_occurrences(ts.subrange(0, i + 1), t, d2) == dep_occurrences(
                    ts.subrange(0, i as int),
                    t,
                    d2,
                ) + (if ts[i as int].0@ == t {
                    count_in(spec_deps(ts[i as int].1), d2)
                } else {
                    0nat
                }));
            }
        }
        i += 1;
    }
    let ghost err_b = errors@;
    proof {
        assert((errors@.len() == err_a.len()) <==> (forall|i2: int, d: Seq<char>|
            0 <= i2 < ts.len() && #[trigger] spec_deps(ts[i2].1).contains(d) ==> has_task(
                ts,
                d,
            ))) by {
            if errors@.len() != err_a.len() {
                assert(errors@[err_a.len() as int] is DependencyNotFound);
            }
            if errors@.len() == err_a.len() {
                assert forall|i2: int, d: Seq<char>|
                    0 <= i2 < ts.len() && #[trigger] spec_deps(ts[i2].1).contains(d)
                        implies has_task(ts, d) by {
                    if !has_task(ts, d) {
                        let kk2 = choose|kk2: int|
                            0 <= kk2 < spec_deps(ts[i2].1).len() && spec_deps(ts[i2].1)[kk2] == d;
                        assert(mowner.contains_key((i2, kk2)));
                        assert(err_a.len() <= mowner[(i2, kk2)] < errors@.len());
                        assert(false) by {
                            assert(errors@[mowner[(i2, kk2)]] == err_a[mowner[(i2, kk2)]]);
                            assert(err_a[mowner[(i2, kk2)]] is DuplicatedTask);
                            assert(is_missing_err(errors@[mowner[(i2, kk2)]], ts[i2].0@, d));
                        }
                    }
                }
            }
        }
    }

    let ghost mut eowner: Map<int, int> = Map::empty();
    let mut i: usize = 0;
    while i < n
        invariant
            i <= n,
            err_b.len() <= errors@.len(),
            forall|k: int| 0 <= k < err_b.len() ==> #[trigger] errors@[k] == err_b[k],
            forall|k: int|
                err_b.len() <= k < errors@.len() ==> #[trigger] errors@[k] is EmptyCommand,
            forall|k: int|
                err_b.len() <= k < errors@.len() ==> (#[trigger] errors@[k] matches
                    ValidationError::EmptyCommand(nm) ==> exists|i2: int|
                    0 <= i2 < n && ts[i2].0@ == nm@ && !commands_ok(ts[i2].1)),
            forall|i2: int|
                0 <= i2 < i && !commands_ok(#[trigger] ts[i2].1) ==> eowner.contains_key(i2) && 0
                    <= eowner[i2] < errors@.len() && is_empty_err(errors@[eowner[i2]], ts[i2].0@),
            forall|t: Seq<char>, d: Seq<char>| #[trigger] count_missing_errs(errors@, t, d)
                == count_missing_errs(err_b, t, d),
        decreases n - i,
    {
        if !check_commands(&tasks[i].1) {
            let ghost old_errors = errors@;
            errors.push(ValidationError::EmptyCommand(tasks[i].0.clone()));
            proof {
                assert(forall|k: int| 0 <= k < old_errors.len() ==> errors@[k] == old_errors[k]);
                assert(is_empty_err(errors@[errors@.len() - 1], ts[i as int].0@));
                eowner = eowner.insert(i as int, errors@.len() - 1);
                lemma_count_missing_push(old_errors, errors@[errors@.len() - 1]);
                assert forall|t: Seq<char>, d: Seq<char>| #[trigger] count_missing_errs(
                    errors@,
                    t,
                    d,
                ) == count_missing_errs(err_b, t, d) by {
                    assert(!is_missing_err(errors@[errors@.len() - 1], t, d));
                }
            }
        }
        i += 1;
    }
    let ghost err_c = errors@;
    proof {
        assert((errors@.len() == err_b.len()) <==> (forall|i2: int|
            0 <= i2 < ts.len() ==> commands_ok(#[trigger] ts[i2].1))) by {
            if errors@.len() != err_b.len() {
                assert(errors@[err_b.len() as int] is EmptyCommand);
            }
            if errors@.len() == err_b.len() {
                assert forall|i2: int| 0 <= i2 < ts.len() implies commands_ok(
                    #[trigger] ts[i2].1,
                ) by {
                    if !commands_ok(ts[i2].1) {
                        assert(errors@[eowner[i2]] == err_b[eowner[i2]]);
                        assert(is_empty_err(errors@[eowner[i2]], ts[i2].0@));
                        assert(err_b[eowner[i2]] is DuplicatedTask || err_b[
                            eowner[i2]
                        ] is DependencyNotFound);
                        assert(false);
                    }
                }
            }
        }
    }

    let ghost mut sowner: Map<int, int> = Map::empty();
    let mut i: usize = 0;
    while i < n
        invariant
            i <= n,
            err_c.len() <= errors@.len(),
            forall|k: int| 0 <= k < err_c.len() ==> #[trigger] errors@[k] == err_c[k],
            forall|k: int|
                err_c.len() <= k < errors@.len() ==> #[trigger] errors@[k] is SelfDependency,
            forall|k: int|
                err_c.len() <= k < errors@.len() ==> (#[trigger] errors@[k] matches
                    ValidationError::SelfDependency(nm) ==> exists|i2: int|
                    0 <= i2 < n && ts[i2].0@ == nm@ && spec_deps(ts[i2].1).contains(nm@)),
            forall|i2: int|
                0 <= i2 < i && spec_deps(#[trigger] ts[i2].1).contains(ts[i2].0@)
                    ==> sowner.contains_key(i2) && 0 <= sowner[i2] < errors@.len() && is_self_err(
                    errors@[sowner[i2]],
                    ts[i2].0@,
                ),
            forall|t: Seq<char>, d: Seq<char>| #[trigger] count_missing_errs(errors@, t, d)
                == count_missing_errs(err_c, t, d),
            forall|x: Seq<char>| #[trigger] count_self_errs(errors@, x) == count_self_errs(
                err_c,
                x,
            ) + count_self_deps(ts.subrange(0, i as int), x),
        decreases n - i,
    {
        let selfdep = contains_string(&tasks[i].1.deps, &tasks[i].0);
        proof {
            lemma_spec_deps_in_names(ts[i as int].1, ts[i as int].0@);
            assert(ts.subrange(0, i + 1).drop_last() =~= ts.subrange(0, i as int));
            assert(ts.subrange(0, i + 1).last() == ts[i as int]);
        }
        if selfdep {
            let ghost old_errors = errors@;
            errors.push(ValidationError::SelfDependency(tasks[i].0.clone()));
            proof {
                assert(forall|k: int| 0 <= k < old_errors.len() ==> errors@[k] == old_errors[k]);
                assert(is_self_err(errors@[errors@.len() - 1], ts[i as int].0@));
                sowner = sowner.insert(i as int, errors@.len() - 1);
                lemma_count_missing_push(old_errors, errors@[errors@.len() - 1]);
                lemma_count_self_push(old_errors, errors@[errors@.len() - 1]);
                assert forall|t: Seq<char>, d: Seq<char>| #[trigger] count_missing_errs(
                    errors@,
                    t,
                    d,
                ) == count_missing_errs(err_c, t, d) by {
                    assert(!is_missing_err(errors@[errors@.len() - 1], t, d));
                }
                assert forall|x: Seq<char>| #[trigger] count_self_errs(errors@, x)
                    == count_self_errs(err_c, x) + count_self_deps(ts.subrange(0, i + 1), x) by {
                    assert(count_self_deps(ts.subrange(0, i + 1), x) == count_self_deps(
                        ts.subrange(0, i as int),
                        x,
                    ) + (if ts[i as int].0@ == x && spec_deps(ts[i as int].1).contains(x) {
                        1nat
                    } else {
                        0nat
                    }));
                    assert(is_self_err(errors@[errors@.len() - 1], x) == (x == ts[i as int].0@));
                }
            }
        } else {
            proof {
                assert forall|x: Seq<char>| #[trigger] count_self_errs(errors@, x)
                    == count_self_errs(err_c, x) + count_self_deps(ts.subrange(0, i + 1), x) by {
                    assert(count_self_deps(ts.subrange(0, i + 1), x) == count_self_deps(
                        ts.subrange(0, i as int),
                        x,
                    ) + (if ts[i as int].0@ == x && spec_deps(ts[i as int].1).contains(x) {
                        1nat
                    } else {
                        0nat
                    }));
                }
            }
        }
        i += 1;
    }
    let ghost err_d = errors@;
    proof {
        assert((errors@.len() == err_c.len()) <==> (forall|i2: int|
            0 <= i2 < ts.len() ==> !spec_deps(#[trigger] ts[i2].1).contains(ts[i2].0@))) by {
            if errors@.len() != err_c.len() {
                assert(errors@[err_c.len() as int] is SelfDependency);
            }
            if errors@.len() == err_c.len() {
                assert forall|i2: int| 0 <= i2 < ts.len() implies !spec_deps(
                    #[trigger] ts[i2].1,
                ).contains(ts[i2].0@) by {
                    if spec_deps(ts[i2].1).contains(ts[i2].0@) {
                        assert(errors@[sowner[i2]] == err_c[sowner[i2]]);
                        assert(is_self_err(errors@[sowner[i2]], ts[i2].0@));
                        assert(err_c[sowner[i2]] is DuplicatedTask || err_c[
                            sowner[i2]
                        ] is DependencyNotFound || err_c[sowner[i2]] is EmptyCommand);
                        assert(false);
                    }
                }
            }
        }
    }

    let mut cycles = detect_cycles(tasks);
    let ghost all_cycles = cycles@;
    while cycles.len() > 0
        invariant
            err_d.len() <= errors@.len(),
            forall|k: int| 0 <= k < err_d.len() ==> #[trigger] errors@[k] == err_d[k],
            forall|k: int|
                err_d.len() <= k < errors@.len() ==> #[trigger] errors@[k] is CyclicDependency,
            forall|k: int|
                err_d.len() <= k < errors@.len() ==> cyc_err_ok(ts, #[trigger] errors@[k]),
            forall|c: int| 0 <= c < cycles@.len() ==> wf_cycle(ts, #[trigger] cycles@[c]@),
            names_unique(ts) ==> forall|c: int|
                0 <= c < cycles@.len() ==> cycle_distinct(#[trigger] cycles@[c]@),
            names_unique(ts) ==> forall|k: int|
                err_d.len() <= k < errors@.len() ==> cyc_err_distinct(#[trigger] errors@[k]),
            forall|t: Seq<char>, d: Seq<char>| #[trigger] count_missing_errs(errors@, t, d)
                == count_missing_errs(err_d, t, d),
            forall|x: Seq<char>| #[trigger] count_self_errs(errors@, x) == count_self_errs(
                err_d,
                x,
            ),
            errors@.len() - err_d.len() == all_cycles.len() - cycles@.len(),
        decreases cycles@.len(),
    {
        let c = cycles.pop();
        match c {
            Some(cyc) => {
                let ghost old_errors = errors@;
                errors.push(ValidationError::CyclicDependency { cycle: cyc });
                proof {
                    assert(forall|k: int|
                        0 <= k < old_errors.len() ==> errors@[k] == old_errors[k]);
                    assert(errors@[errors@.len() - 1] is CyclicDependency);
                    assert(cyc_err_ok(ts, errors@[errors@.len() - 1]));
                    if names_unique(ts) {
                        assert(cyc_err_distinct(errors@[errors@.len() - 1]));
                    }
                    lemma_count_missing_push(old_errors, errors@[errors@.len() - 1]);
                    lemma_count_self_push(old_errors, errors@[errors@.len() - 1]);
                    assert forall|t: Seq<char>, d: Seq<char>| #[trigger] count_missing_errs(
                        errors@,
                        t,
                        d,
                    ) == count_missing_errs(err_d, t, d) by {
                        assert(!is_missing_err(errors@[errors@.len() - 1], t, d));
                    }
                    assert forall|x: Seq<char>| #[trigger] count_self_errs(errors@, x)
                        == count_self_errs(err_d, x) by {
                        assert(!is_self_err(errors@[errors@.len() - 1], x));
                    }
                }
            },
            None => {
                proof {
                    assert(false);
                }
            },
        }
    }
    proof {
        if names_unique(ts) && errors@.len() == err_d.len() {
            assert(all_cycles.len() == 0);
            assert(!has_cycle(ts));
        }
        if errors@.len() == 0 {
            assert(err_a.len() == 0 && err_b.len() == 0 && err_c.len() == 0 && err_d.len() == 0);
            assert(spec_valid(ts));
        }
        if spec_valid(ts) {
            assert(err_a.len() == 0);
            assert(err_b.len() == err_a.len());
            assert(err_c.len() == err_b.len());
            assert(err_d.len() == err_c.len());
            if all_cycles.len() > 0 {
                assert(wf_cycle(ts, all_cycles[0]@));
                lemma_wf_cycle_has_cycle(ts, all_cycles[0]@);
                assert(false);
            }
            assert(all_cycles.len() == 0);
            assert(errors@.len() == 0);
        }
        if !names_unique(ts) {
            assert(err_a.len() > 0);
            assert(errors@[0] == err_a[0]);
            assert(errors@[0] is DuplicatedTask);
        }
        if exists|k: int| 0 <= k < errors@.len() && #[trigger] errors@[k] is DuplicatedTask {
            let k = choose|k: int|
                0 <= k < errors@.len() && #[trigger] errors@[k] is DuplicatedTask;
            assert(k < err_a.len()) by {
                if k >= err_a.len() {
                    assert(errors@[k] is DependencyNotFound || errors@[k] is EmptyCommand
                        || errors@[k] is SelfDependency || errors@[k] is CyclicDependency);
                }
            }
            assert(err_a.len() > 0);
            assert(!names_unique(ts));
        }
        if names_unique(ts) && has_cycle(ts) {
            assert(errors@.len() > err_d.len());
            assert(errors@[err_d.len() as int] is CyclicDependency);
        }
        assert(ts.subrange(0, n as int) =~= ts);
        assert forall|k: int| 0 <= k < err_a.len() implies !((#[trigger] err_a[
            k
        ]) is DependencyNotFound) by {
            assert(err_a[k] is DuplicatedTask);
        }
        lemma_count_missing_none(err_a);
        assert forall|k: int| 0 <= k < err_c.len() implies !((#[trigger] err_c[
            k
        ]) is SelfDependency) by {
            if k < err_a.len() {
                assert(err_c[k] == err_b[k] && err_b[k] == err_a[k]);
                assert(err_a[k] is DuplicatedTask);
            } else if k < err_b.len() {
                assert(err_c[k] == err_b[k]);
                assert(err_b[k] is DependencyNotFound);
            } else {
                assert(err_c[k] is EmptyCommand);
            }
        }
        lemma_count_self_none(err_c);
        assert forall|t: Seq<char>, d: Seq<char>| #[trigger] count_missing_errs(errors@, t, d)
            == (if has_task(ts, d) {
            0nat
        } else {
            dep_occurrences(ts, t, d)
        }) by {
            assert(count_missing_errs(errors@, t, d) == count_missing_errs(err_d, t, d));
            assert(count_missing_errs(err_d, t, d) == count_missing_errs(err_c, t, d));
            assert(count_missing_errs(err_c, t, d) == count_missing_errs(err_b, t, d));
            assert(count_missing_errs(err_b, t, d) == count_missing_errs(err_a, t, d) + (
            if has_task(ts, d) {
                0nat
            } else {
                dep_occurrences(ts.subrange(0, n as int), t, d)
            }));
            assert(count_missing_errs(err_a, t, d) == 0);
        }
        assert forall|x: Seq<char>| #[trigger] count_self_errs(errors@, x) == count_self_deps(
            ts,
            x,
        ) by {
            assert(count_self_errs(errors@, x) == count_self_errs(err_d, x));
            assert(count_self_errs(err_d, x) == count_self_errs(err_c, x) + count_self_deps(
                ts.subrange(0, n as int),
                x,
            ));
            assert(count_self_errs(err_c, x) == 0);
        }
        if names_unique(ts) {
            assert forall|k: int| 0 <= k < errors@.len() implies cyc_err_distinct(
                #[trigger] errors@[k],
            ) by {
                if k < err_d.len() {
                    assert(errors@[k] == err_d[k]);
                    if k < err_a.len() {
                        assert(err_a[k] is DuplicatedTask);
                    } else if k < err_b.len() {
                        assert(err_b[k] is DependencyNotFound);
                    } else if k < err_c.len() {
                        assert(err_c[k] is EmptyCommand);
                    } else {
                        assert(err_d[k] is SelfDependency);
                    }
                }
            }
        }
        assert forall|i2: int, d: Seq<char>|
            0 <= i2 < ts.len() && #[trigger] spec_deps(ts[i2].1).contains(d) && !has_task(ts, d)
            implies exists|k: int|
            0 <= k < errors@.len() && is_missing_err(#[trigger] errors@[k], ts[i2].0@, d) by {
            let kk2 = choose|kk2: int|
                0 <= kk2 < spec_deps(ts[i2].1).len() && spec_deps(ts[i2].1)[kk2] == d;
            let k = mowner[(i2, kk2)];
            assert(0 <= k < err_b.len());
            assert(errors@[k] == err_b[k]);
            assert(is_missing_err(errors@[k], ts[i2].0@, d));
        }
        assert forall|i2: int|
            0 <= i2 < ts.len() && !commands_ok(#[trigger] ts[i2].1) implies exists|k: int|
            0 <= k < errors@.len() && is_empty_err(#[trigger] errors@[k], ts[i2].0@) by {
            let k = eowner[i2];
            assert(0 <= k < err_c.len());
            assert(errors@[k] == err_c[k]);
            assert(is_empty_err(errors@[k], ts[i2].0@));
        }
        assert forall|i2: int|
            0 <= i2 < ts.len() && #[trigger] spec_deps(ts[i2].1).contains(ts[i2].0@)
            implies exists|k: int|
            0 <= k < errors@.len() && is_self_err(#[trigger] errors@[k], ts[i2].0@) by {
            let k = sowner[i2];
            assert(0 <= k < err_d.len());
            assert(errors@[k] == err_d[k]);
            assert(is_self_err(errors@[k], ts[i2].0@));
        }
    }
    errors
}

} // verus!
