//! The scheduler: dependency closures, dependents closures, the global
//! topological order, and the run order for a start task.
use vstd::prelude::*;
use crate::model::{
    Task, spec_deps, has_task, names_unique, all_deps_present, dep_edge, is_dep_path,
    reaches, has_cycle, lemma_reaches_self, lemma_reaches_step,
    lemma_path_in_closed_set, in_names, lemma_distinct_indices_bounded,
    lemma_distinct_ints_bounded, lemma_succ_cycle, str_seq, reaches_plus,
    lemma_reaches_prepend, lemma_spec_deps_in_names, lemma_path_in_pred_closed_set,
    schedulable, on_cycle,
};

verus! {

/// Whether two strings hold the same characters.
pub fn string_eq(a: &String, b: &String) -> (r: bool)
    ensures
        r == (a@ == b@),
{
    a.eq(b)
}

/// Whether `v` holds a string equal to `s`.
pub fn contains_string(v: &Vec<String>, s: &String) -> (r: bool)
    ensures
        r == in_names(v@, s@),
{
    let mut i: usize = 0;
    while i < v.len()
        invariant
            i <= v@.len(),
            forall|j: int| 0 <= j < i ==> #[trigger] v@[j]@ != s@,
        decreases v@.len() - i,
    {
        if string_eq(&v[i], s) {
            return true;
        }
        i += 1;
    }
    false
}

/// The first entry of the task list named `name`, if any.
pub fn find_task(tasks: &Vec<(String, Task)>, name: &String) -> (r: Option<usize>)
    ensures
        match r {
            Some(i) => i < tasks@.len() && tasks@[i as int].0@ == name@ && forall|j: int|
                0 <= j < i ==> tasks@[j].0@ != name@,
            None => !has_task(tasks@, name@),
        },
{
    let mut i: usize = 0;
    while i < tasks.len()
        invariant
            i <= tasks@.len(),
            forall|j: int| 0 <= j < i ==> tasks@[j].0@ != name@,
        decreases tasks@.len() - i,
    {
        if string_eq(&tasks[i].0, name) {
            return Some(i);
        }
        i += 1;
    }
    None
}

/// The reflexive-transitive dependency closure of `start`: the set of
/// names `start` transitively depends on, `start` itself included, as a
/// duplicate-free list.  On a task list with unique names it holds
/// exactly the names reachable from `start` along dependency edges.
pub fn collect_dependencies(tasks: &Vec<(String, Task)>, start: &str) -> (r: Vec<String>)
    ensures
        forall|m: int| 0 <= m < r@.len() ==> reaches(tasks@, start@, #[trigger] r@[m]@),
        in_names(r@, start@),
        forall|m1: int, m2: int| 0 <= m1 < m2 < r@.len() ==> r@[m1]@ != r@[m2]@,
        names_unique(tasks@) ==> forall|n: Seq<char>|
            #[trigger] reaches(tasks@, start@, n) ==> in_names(r@, n),
{
    let ghost ts = tasks@;
    let n = tasks.len();
    let start_string: String = start.to_owned();
    let mut result: Vec<String> = Vec::new();
    result.push(start_string.clone());
    proof {
        lemma_reaches_self(ts, start@);
        assert(result@[0]@ == start@);
    }
    let mut queue: Vec<usize> = Vec::new();
    match find_task(tasks, &start_string) {
        Some(i) => {
            queue.push(i);
            proof {
                assert(queue@[0] == i);
                assert(result@[0]@ == ts[i as int].0@);
            }
        },
        None => {},
    }
    let mut head: usize = 0;
    while head < queue.len()
        invariant
            tasks@ == ts,
            n == ts.len(),
            head <= queue@.len(),
            queue@.len() <= n,
            forall|qi: int| 0 <= qi < queue@.len() ==> #[trigger] queue@[qi] < n,
            forall|q1: int, q2: int|
                0 <= q1 < q2 < queue@.len() ==> queue@[q1] != queue@[q2],
            forall|qi: int| 0 <= qi < queue@.len() ==> in_names(
                result@,
                ts[#[trigger] queue@[qi] as int].0@,
            ),
            forall|m: int| 0 <= m < result@.len() ==> reaches(ts, start@, #[trigger] result@[m]@),
            result@.len() >= 1 && result@[0]@ == start@,
            forall|m1: int, m2: int| 0 <= m1 < m2 < result@.len() ==> result@[m1]@ != result@[m2]@,
            forall|qi: int, d: Seq<char>|
                0 <= qi < head && #[trigger] spec_deps(ts[queue@[qi] as int].1).contains(d)
                    ==> in_names(result@, d),
            forall|m: int|
                0 <= m < result@.len() && has_task(ts, #[trigger] result@[m]@) ==> exists|qi: int|
                    0 <= qi < queue@.len() && ts[#[trigger] queue@[qi] as int].0@ == result@[m]@,
        decreases n - head,
    {
        let v = queue[head];
        head += 1;
        let deps_len = tasks[v].1.deps.len();
        let mut k: usize = 0;
        while k < deps_len
            invariant
                tasks@ == ts,
                n == ts.len(),
                v < n,
                v == queue@[head - 1],
                1 <= head <= queue@.len(),
                queue@.len() <= n,
                deps_len == spec_deps(ts[v as int].1).len(),
                forall|qi: int| 0 <= qi < queue@.len() ==> #[trigger] queue@[qi] < n,
                forall|q1: int, q2: int|
                    0 <= q1 < q2 < queue@.len() ==> queue@[q1] != queue@[q2],
                forall|qi: int| 0 <= qi < queue@.len() ==> in_names(
                    result@,
                    ts[#[trigger] queue@[qi] as int].0@,
                ),
                forall|m: int| 0 <= m < result@.len() ==> reaches(
                    ts,
                    start@,
                    #[trigger] result@[m]@,
                ),
                result@.len() >= 1 && result@[0]@ == start@,
                forall|m1: int, m2: int|
                    0 <= m1 < m2 < result@.len() ==> result@[m1]@ != result@[m2]@,
                forall|qi: int, d: Seq<char>|
                    0 <= qi < head - 1 && #[trigger] spec_deps(ts[queue@[qi] as int].1).contains(d)
                        ==> in_names(result@, d),
                forall|m: int|
                    0 <= m < result@.len() && has_task(ts, #[trigger] result@[m]@)
                        ==> exists|qi: int| 0 <= qi < queue@.len()
                        && ts[#[trigger] queue@[qi] as int].0@ == result@[m]@,
                forall|kk: int| 0 <= kk < k ==> in_names(
                    result@,
                    #[trigger] spec_deps(ts[v as int].1)[kk],
                ),
            decreases deps_len - k,
        {
            let d: &String = &tasks[v].1.deps[k];
            assert(spec_deps(ts[v as int].1)[k as int] == d@);
            if !contains_string(&result, d) {
                proof {
                    assert(in_names(result@, ts[v as int].0@));
                    let m = choose|m: int|
                        0 <= m < result@.len() && #[trigger] result@[m]@ == ts[v as int].0@;
                    assert(reaches(ts, start@, ts[v as int].0@));
                    assert(dep_edge(ts, ts[v as int].0@, d@)) by {
                        assert(0 <= v < ts.len() && ts[v as int].0@ == ts[v as int].0@
                            && spec_deps(ts[v as int].1).contains(d@));
                    }
                    lemma_reaches_step(ts, start@, ts[v as int].0@, d@);
                }
                let ghost old_result = result@;
                result.push(d.clone());
                proof {
                    assert(result@[old_result.len() as int]@ == d@);
                    assert(forall|m: int|
                        0 <= m < old_result.len() ==> result@[m] == old_result[m]);
                    assert(in_names(result@, d@));
                    assert forall|x: Seq<char>| #[trigger] in_names(old_result, x) implies in_names(
                        result@,
                        x,
                    ) by {
                        let m = choose|m: int|
                            0 <= m < old_result.len() && #[trigger] old_result[m]@ == x;
                        assert(result@[m]@ == x);
                    }
                }
                match find_task(tasks, d) {
                    Some(j) => {
                        proof {
                            assert(ts[j as int].0@ == d@);
                            assert forall|qi: int| 0 <= qi < queue@.len() implies #[trigger] queue@[qi]
                                != j by {
                                if queue@[qi] == j {
                                    assert(in_names(old_result, ts[j as int].0@));
                                }
                            }
                        }
                        let ghost old_queue = queue@;
                        queue.push(j);
                        proof {
                            assert(queue@[old_queue.len() as int] == j);
                            assert(forall|qi: int|
                                0 <= qi < old_queue.len() ==> queue@[qi] == old_queue[qi]);
                            lemma_distinct_indices_bounded(queue@, n as nat);
                        }
                    },
                    None => {
                        proof {
                            assert(!has_task(ts, d@));
                        }
                    },
                }
            }
            k += 1;
        }
        proof {
            assert forall|d: Seq<char>| #[trigger] spec_deps(ts[v as int].1).contains(d)
                implies in_names(result@, d) by {
                let kk = choose|kk: int|
                    0 <= kk < spec_deps(ts[v as int].1).len() && spec_deps(ts[v as int].1)[kk]
                        == d;
                assert(in_names(result@, spec_deps(ts[v as int].1)[kk]));
            }
        }
    }
    proof {
        if names_unique(ts) {
            let s = Set::new(|nn: Seq<char>| in_names(result@, nn));
            assert forall|a: Seq<char>, b: Seq<char>|
                s.contains(a) && #[trigger] dep_edge(ts, a, b) implies s.contains(b) by {
                let i = choose|i: int|
                    0 <= i < ts.len() && #[trigger] ts[i].0@ == a && spec_deps(ts[i].1).contains(
                        b,
                    );
                assert(has_task(ts, a));
                let m = choose|m: int| 0 <= m < result@.len() && #[trigger] result@[m]@ == a;
                let qi = choose|qi: int|
                    0 <= qi < queue@.len() && ts[#[trigger] queue@[qi] as int].0@ == a;
                assert(queue@[qi] as int == i) by {
                    if queue@[qi] as int != i {
                        assert(ts[queue@[qi] as int].0@ == ts[i].0@);
                    }
                }
                assert(in_names(result@, b));
            }
            assert(s.contains(start@));
            assert forall|nn: Seq<char>| #[trigger] reaches(ts, start@, nn) implies in_names(
                result@,
                nn,
            ) by {
                let p = choose|p: Seq<Seq<char>>|
                    #[trigger] is_dep_path(ts, p) && p.first() == start@ && p.last() == nn;
                lemma_path_in_closed_set(ts, s, p);
            }
        }
    }
    result
}

/// How many entries of `deps` equal `x`.
pub open spec fn count_in(deps: Seq<Seq<char>>, x: Seq<char>) -> nat
    decreases deps.len(),
{
    if deps.len() == 0 {
        0
    } else {
        count_in(deps.drop_last(), x) + if deps.last() == x {
            1nat
        } else {
            0nat
        }
    }
}

/// How many entries of `deps` name no member of `popped`: the indegree a
/// task retains once the tasks in `popped` have been emitted.
pub open spec fn remaining_deps(deps: Seq<Seq<char>>, popped: Seq<String>) -> nat
    decreases deps.len(),
{
    if deps.len() == 0 {
        0
    } else {
        remaining_deps(deps.drop_last(), popped) + if in_names(popped, deps.last()) {
            0nat
        } else {
            1nat
        }
    }
}

proof fn lemma_in_names_push(v: Seq<String>, x: String, d: Seq<char>)
    ensures
        in_names(v.push(x), d) <==> (in_names(v, d) || x@ == d),
{
    if in_names(v.push(x), d) {
        let m = choose|m: int| 0 <= m < v.push(x).len() && #[trigger] v.push(x)[m]@ == d;
        if m < v.len() {
            assert(v[m]@ == d);
        }
    }
    if in_names(v, d) {
        let m = choose|m: int| 0 <= m < v.len() && #[trigger] v[m]@ == d;
        assert(v.push(x)[m]@ == d);
    }
    if x@ == d {
        assert(v.push(x)[v.len() as int]@ == d);
    }
}

proof fn lemma_remaining_push(deps: Seq<Seq<char>>, popped: Seq<String>, x: String)
    ensures
        in_names(popped, x@) ==> remaining_deps(deps, popped.push(x)) == remaining_deps(
            deps,
            popped,
        ),
        !in_names(popped, x@) ==> remaining_deps(deps, popped.push(x)) + count_in(deps, x@)
            == remaining_deps(deps, popped),
    decreases deps.len(),
{
    if deps.len() > 0 {
        lemma_remaining_push(deps.drop_last(), popped, x);
        lemma_in_names_push(popped, x, deps.last());
    }
}

proof fn lemma_remaining_zero(deps: Seq<Seq<char>>, popped: Seq<String>)
    ensures
        (remaining_deps(deps, popped) == 0) <==> (forall|kk: int|
            0 <= kk < deps.len() ==> in_names(popped, #[trigger] deps[kk])),
    decreases deps.len(),
{
    if deps.len() > 0 {
        lemma_remaining_zero(deps.drop_last(), popped);
        assert(forall|kk: int| 0 <= kk < deps.len() - 1 ==> deps.drop_last()[kk] == deps[kk]);
        assert(deps.last() == deps[deps.len() - 1]);
        if remaining_deps(deps, popped) == 0 {
            assert forall|kk: int| 0 <= kk < deps.len() implies in_names(
                popped,
                #[trigger] deps[kk],
            ) by {
                if kk < deps.len() - 1 {
                    assert(in_names(popped, deps.drop_last()[kk]));
                }
            }
        }
    }
}

proof fn lemma_remaining_start(deps: Seq<Seq<char>>)
    ensures
        remaining_deps(deps, Seq::<String>::empty()) == deps.len(),
    decreases deps.len(),
{
    if deps.len() > 0 {
        lemma_remaining_start(deps.drop_last());
    }
}

/// How many dependency entries equal `x`.
fn count_deps_matching(deps: &Vec<String>, x: &String) -> (c: usize)
    ensures
        c == count_in(str_seq(deps@), x@),
{
    let ghost all = str_seq(deps@);
    let mut c: usize = 0;
    let mut k: usize = 0;
    while k < deps.len()
        invariant
            k <= deps@.len(),
            all == str_seq(deps@),
            c <= k,
            c == count_in(all.subrange(0, k as int), x@),
        decreases deps@.len() - k,
    {
        proof {
            assert(all.subrange(0, k as int + 1).drop_last() =~= all.subrange(0, k as int));
            assert(all.subrange(0, k as int + 1).last() == deps@[k as int]@);
        }
        if string_eq(&deps[k], x) {
            c += 1;
        }
        k += 1;
    }
    proof {
        assert(all.subrange(0, deps@.len() as int) =~= all);
    }
    c
}

/// The global topological order of the task list, by Kahn's algorithm:
/// indegrees are dependency counts, the ready queue is seeded and served
/// in the list's stable order, and each emitted task releases the tasks
/// depending on it.  On a well-formed acyclic list the result is a
/// permutation of all task names in which every task's dependencies
/// appear before the task; on a cyclic one it is the partial order of
/// the tasks outside the cycles.
/// In a duplicate-free sequence of task names in which every dependency
/// edge points strictly backwards, every emitted name is schedulable.
proof fn lemma_emitted_schedulable(ts: Seq<(String, Task)>, result: Seq<String>)
    requires
        forall|m: int| 0 <= m < result.len() ==> has_task(ts, #[trigger] result[m]@),
        forall|m1: int, m2: int| 0 <= m1 < m2 < result.len() ==> result[m1]@ != result[m2]@,
        forall|m: int, d: Seq<char>|
            0 <= m < result.len() && #[trigger] dep_edge(ts, result[m]@, d) ==> exists|m2: int|
                0 <= m2 < m && result[m2]@ == d,
    ensures
        forall|t: Seq<char>| #[trigger] in_names(result, t) ==> schedulable(ts, t),
{
    let sres = Set::new(|x: Seq<char>| in_names(result, x));
    assert forall|a: Seq<char>, b: Seq<char>|
        sres.contains(a) && #[trigger] dep_edge(ts, a, b) implies sres.contains(b) by {
        let ma = choose|ma: int| 0 <= ma < result.len() && #[trigger] result[ma]@ == a;
        assert(dep_edge(ts, result[ma]@, b));
        let m2 = choose|m2: int| 0 <= m2 < ma && #[trigger] result[m2]@ == b;
        assert(in_names(result, b));
    }
    assert forall|t: Seq<char>| #[trigger] in_names(result, t) implies schedulable(ts, t) by {
        let m = choose|m: int| 0 <= m < result.len() && #[trigger] result[m]@ == t;
        assert(has_task(ts, t));
        assert forall|d: Seq<char>| #[trigger] reaches(ts, t, d) implies has_task(ts, d) by {
            let pth = choose|pth: Seq<Seq<char>>|
                #[trigger] is_dep_path(ts, pth) && pth.first() == t && pth.last() == d;
            assert(sres.contains(t));
            lemma_path_in_closed_set(ts, sres, pth);
            assert(in_names(result, d));
            let md = choose|md: int| 0 <= md < result.len() && #[trigger] result[md]@ == d;
            assert(has_task(ts, result[md]@));
        }
        if exists|x: Seq<char>| #[trigger] reaches(ts, t, x) && on_cycle(ts, x) {
            let x = choose|x: Seq<char>| #[trigger] reaches(ts, t, x) && on_cycle(ts, x);
            let pth = choose|pth: Seq<Seq<char>>|
                #[trigger] is_dep_path(ts, pth) && pth.first() == t && pth.last() == x;
            assert(sres.contains(t));
            lemma_path_in_closed_set(ts, sres, pth);
            assert(in_names(result, x));
            let mf = choose|mf: int| 0 <= mf < result.len() && #[trigger] result[mf]@ == x;
            let q = choose|q: Seq<Seq<char>>|
                #[trigger] is_dep_path(ts, q) && q.len() >= 2 && q.first() == q.last()
                    && q.first() == x;
            lemma_path_before(ts, result, q, mf);
            let ml = choose|ml: int| 0 <= ml < mf && #[trigger] result[ml]@ == q.last();
            assert(result[ml]@ == result[mf]@);
            assert(false);
        }
    }
}

/// At the end of the ready-queue run, every schedulable task was
/// emitted: a schedulable task left out would sit in a leftover set in
/// which every member keeps an unemitted dependency, and such a set
/// yields a cycle reachable from the task.
proof fn lemma_schedulable_emitted(
    ts: Seq<(String, Task)>,
    result: Seq<String>,
    queue: Seq<usize>,
    queued: Seq<bool>,
    indeg: Seq<usize>,
)
    requires
        queued.len() == ts.len(),
        indeg.len() == ts.len(),
        result.len() == queue.len(),
        forall|j: int| 0 <= j < ts.len() ==> ((#[trigger] queued[j]) <==> exists|qi: int|
            0 <= qi < queue.len() && #[trigger] queue[qi] == j),
        forall|j: int| 0 <= j < ts.len() ==> ((#[trigger] indeg[j] == 0) <==> queued[j]),
        forall|j: int|
            0 <= j < ts.len() ==> #[trigger] indeg[j] == remaining_deps(
                spec_deps(ts[j].1),
                result,
            ),
        forall|m: int|
            0 <= m < queue.len() ==> #[trigger] result[m]@ == ts[queue[m] as int].0@,
        forall|qi: int| 0 <= qi < queue.len() ==> #[trigger] queue[qi] < ts.len(),
    ensures
        forall|t: Seq<char>| #[trigger] schedulable(ts, t) ==> in_names(result, t),
{
    let n = ts.len() as int;
    assert forall|t: Seq<char>| #[trigger] schedulable(ts, t) implies in_names(result, t) by {
        let jt = choose|jt: int| 0 <= jt < ts.len() && #[trigger] ts[jt].0@ == t;
        if !queued[jt] {
            let s2 = Set::new(|j: int| 0 <= j < n && !queued[j] && reaches(ts, t, ts[j].0@));
            lemma_reaches_self(ts, t);
            assert(s2.contains(jt));
            assert forall|j: int| #[trigger] s2.contains(j) implies exists|jd: int|
                s2.contains(jd) && spec_deps(ts[j].1).contains(ts[jd].0@) by {
                assert(indeg[j] != 0);
                lemma_remaining_zero(spec_deps(ts[j].1), result);
                let kk = choose|kk: int|
                    0 <= kk < spec_deps(ts[j].1).len() && !in_names(
                        result,
                        #[trigger] spec_deps(ts[j].1)[kk],
                    );
                let dd = spec_deps(ts[j].1)[kk];
                assert(spec_deps(ts[j].1).contains(dd));
                assert(dep_edge(ts, ts[j].0@, dd)) by {
                    assert(0 <= j < ts.len() && ts[j].0@ == ts[j].0@ && spec_deps(
                        ts[j].1,
                    ).contains(dd));
                }
                assert(reaches(ts, t, ts[j].0@));
                lemma_reaches_step(ts, t, ts[j].0@, dd);
                assert(has_task(ts, dd));
                let jd = choose|jd: int| 0 <= jd < ts.len() && #[trigger] ts[jd].0@ == dd;
                if queued[jd] {
                    let qi = choose|qi: int|
                        0 <= qi < queue.len() && #[trigger] queue[qi] == jd;
                    assert(result[qi]@ == ts[jd].0@);
                    assert(in_names(result, dd));
                    assert(false);
                }
                assert(s2.contains(jd));
            }
            lemma_succ_cycle(ts, s2, jt);
            let jcy = choose|jcy: int| #[trigger] s2.contains(jcy) && on_cycle(ts, ts[jcy].0@);
            assert(reaches(ts, t, ts[jcy].0@) && on_cycle(ts, ts[jcy].0@));
            assert(false);
        }
        let qi = choose|qi: int| 0 <= qi < queue.len() && #[trigger] queue[qi] == jt;
        assert(result[qi]@ == ts[jt].0@);
    }
}

#[verifier::rlimit(100)]
pub fn topological_order(tasks: &Vec<(String, Task)>) -> (r: Vec<String>)
    ensures
        forall|m: int| 0 <= m < r@.len() ==> has_task(tasks@, #[trigger] r@[m]@),
        names_unique(tasks@) ==> forall|m1: int, m2: int|
            0 <= m1 < m2 < r@.len() ==> r@[m1]@ != r@[m2]@,
        names_unique(tasks@) ==> forall|m: int, d: Seq<char>|
            0 <= m < r@.len() && #[trigger] dep_edge(tasks@, r@[m]@, d) ==> exists|m2: int|
                0 <= m2 < m && r@[m2]@ == d,
        names_unique(tasks@) && all_deps_present(tasks@) && !has_cycle(tasks@) ==> (r@.len()
            == tasks@.len() && forall|i: int|
            0 <= i < tasks@.len() ==> in_names(r@, #[trigger] tasks@[i].0@)),
        names_unique(tasks@) ==> forall|t: Seq<char>|
            #[trigger] in_names(r@, t) ==> schedulable(tasks@, t),
        names_unique(tasks@) ==> forall|t: Seq<char>|
            #[trigger] schedulable(tasks@, t) ==> in_names(r@, t),
{
    let ghost ts = tasks@;
    let n = tasks.len();
    let mut indeg: Vec<usize> = Vec::new();
    let mut i: usize = 0;
    while i < n
        invariant
            ts == tasks@,
            n == ts.len(),
            indeg@.len() == i <= n,
            forall|j: int| 0 <= j < i ==> indeg@[j] == spec_deps(ts[j].1).len(),
        decreases n - i,
    {
        indeg.push(tasks[i].1.deps.len());
        i += 1;
    }
    let mut queued: Vec<bool> = Vec::new();
    let mut i: usize = 0;
    while i < n
        invariant
            queued@.len() == i <= n,
            forall|j: int| 0 <= j < i ==> !queued@[j],
        decreases n - i,
    {
        queued.push(false);
        i += 1;
    }
    let mut queue: Vec<usize> = Vec::new();
    let mut i: usize = 0;
    while i < n
        invariant
            ts == tasks@,
            n == ts.len(),
            indeg@.len() == n,
            queued@.len() == n,
            i <= n,
            forall|j: int| 0 <= j < n ==> indeg@[j] == spec_deps(ts[j].1).len(),
            forall|qi: int| 0 <= qi < queue@.len() ==> #[trigger] queue@[qi] < i,
            forall|q1: int, q2: int| 0 <= q1 < q2 < queue@.len() ==> queue@[q1] != queue@[q2],
            forall|j: int| 0 <= j < n ==> (queued@[j] <==> exists|qi: int|
                0 <= qi < queue@.len() && #[trigger] queue@[qi] == j),
            forall|j: int| 0 <= j < i ==> ((indeg@[j] == 0) <==> queued@[j]),
            forall|j: int| i <= j < n ==> !queued@[j],
            queue@.len() <= n,
        decreases n - i,
    {
        if indeg[i] == 0 {
            let ghost old_queue = queue@;
            queue.push(i);
            queued.set(i, true);
            proof {
                assert(queue@[old_queue.len() as int] == i);
                assert(forall|qi: int| 0 <= qi < old_queue.len() ==> queue@[qi] == old_queue[qi]);
                lemma_distinct_indices_bounded(queue@, n as nat);
            }
        }
        i += 1;
    }
    let mut result: Vec<String> = Vec::new();
    proof {
        assert forall|j: int| 0 <= j < n implies indeg@[j] == remaining_deps(
            spec_deps(ts[j].1),
            result@,
        ) by {
            lemma_remaining_start(spec_deps(ts[j].1));
            assert(result@ =~= Seq::<String>::empty());
        }
    }
    proof {
        assert forall|qi: int, d: Seq<char>|
            0 <= qi < queue@.len() && #[trigger] spec_deps(ts[queue@[qi] as int].1).contains(d)
            implies in_names(result@, d) by {
            let j = queue@[qi];
            assert(exists|qi2: int| 0 <= qi2 < queue@.len() && #[trigger] queue@[qi2] == j);
            assert(queued@[j as int]);
            assert(indeg@[j as int] == 0);
            assert(spec_deps(ts[j as int].1).len() == 0);
        }
    }
    let mut head: usize = 0;
    while head < queue.len()
        invariant
            ts == tasks@,
            n == ts.len(),
            indeg@.len() == n,
            queued@.len() == n,
            head <= queue@.len(),
            queue@.len() <= n,
            result@.len() == head,
            forall|qi: int| 0 <= qi < queue@.len() ==> #[trigger] queue@[qi] < n,
            forall|q1: int, q2: int| 0 <= q1 < q2 < queue@.len() ==> queue@[q1] != queue@[q2],
            forall|j: int| 0 <= j < n ==> (queued@[j] <==> exists|qi: int|
                0 <= qi < queue@.len() && #[trigger] queue@[qi] == j),
            forall|j: int| 0 <= j < n ==> ((indeg@[j] == 0) <==> queued@[j]),
            forall|j: int| 0 <= j < n ==> #[trigger] indeg@[j] == remaining_deps(
                spec_deps(ts[j].1),
                result@,
            ),
            forall|m: int| 0 <= m < head ==> result@[m]@ == ts[#[trigger] queue@[m] as int].0@,
            forall|m: int, d: Seq<char>|
                0 <= m < head && #[trigger] spec_deps(ts[queue@[m] as int].1).contains(d)
                    ==> exists|m2: int| 0 <= m2 < m && #[trigger] result@[m2]@ == d,
            forall|qi: int, d: Seq<char>|
                head <= qi < queue@.len() && #[trigger] spec_deps(
                    ts[queue@[qi] as int].1,
                ).contains(d) ==> in_names(result@, d),
        decreases n - head,
    {
        let v = queue[head];
        let name_v: String = tasks[v].0.clone();
        let fresh = !contains_string(&result, &name_v);
        proof {
            if names_unique(ts) && !fresh {
                let m = choose|m: int| 0 <= m < result@.len() && #[trigger] result@[m]@ == name_v@;
                assert(result@[m]@ == ts[queue@[m] as int].0@);
                assert(queue@[m] != queue@[head as int]);
                assert(false);
            }
        }
        head += 1;
        let ghost old_result = result@;
        result.push(name_v);
        proof {
            assert(result@[old_result.len() as int]@ == ts[v as int].0@);
            assert(forall|m: int| 0 <= m < old_result.len() ==> result@[m] == old_result[m]);
            assert forall|x: Seq<char>| #[trigger] in_names(old_result, x) implies in_names(
                result@,
                x,
            ) by {
                let m = choose|m: int| 0 <= m < old_result.len() && #[trigger] old_result[m]@ == x;
                assert(result@[m]@ == x);
            }
        }
        if fresh {
            let mut j: usize = 0;
            while j < n
                invariant
                    ts == tasks@,
                    n == ts.len(),
                    indeg@.len() == n,
                    queued@.len() == n,
                    v < n,
                    v == queue@[head - 1],
                    1 <= head <= queue@.len(),
                    queue@.len() <= n,
                    result@.len() == head,
                    result@ == old_result.push(tasks@[v as int].0),
                    !in_names(old_result, ts[v as int].0@),
                    result@[head - 1]@ == ts[v as int].0@,
                    j <= n,
                    forall|qi: int| 0 <= qi < queue@.len() ==> #[trigger] queue@[qi] < n,
                    forall|q1: int, q2: int|
                        0 <= q1 < q2 < queue@.len() ==> queue@[q1] != queue@[q2],
                    forall|jj: int| 0 <= jj < n ==> (queued@[jj] <==> exists|qi: int|
                        0 <= qi < queue@.len() && #[trigger] queue@[qi] == jj),
                    forall|jj: int| 0 <= jj < n ==> ((indeg@[jj] == 0) <==> queued@[jj]),
                    forall|jj: int| 0 <= jj < j ==> #[trigger] indeg@[jj] == remaining_deps(
                        spec_deps(ts[jj].1),
                        result@,
                    ),
                    forall|jj: int| j <= jj < n ==> #[trigger] indeg@[jj] == remaining_deps(
                        spec_deps(ts[jj].1),
                        old_result,
                    ),
                    forall|m: int| 0 <= m < head ==> result@[m]@ == ts[#[trigger] queue@[m] as int].0@,
                    forall|m: int, d: Seq<char>|
                        0 <= m < head && #[trigger] spec_deps(ts[queue@[m] as int].1).contains(d)
                            ==> exists|m2: int| 0 <= m2 < m && #[trigger] result@[m2]@ == d,
                    forall|qi: int, d: Seq<char>|
                        head <= qi < queue@.len() && #[trigger] spec_deps(
                            ts[queue@[qi] as int].1,
                        ).contains(d) ==> in_names(result@, d),
                decreases n - j,
            {
                let c = count_deps_matching(&tasks[j].1.deps, &tasks[v].0);
                proof {
                    lemma_remaining_push(spec_deps(ts[j as int].1), old_result, tasks@[v as int].0);
                }
                if c > 0 {
                    let nd = indeg[j] - c;
                    indeg.set(j, nd);
                    if nd == 0 {
                        proof {
                            assert forall|qi: int| 0 <= qi < queue@.len() implies #[trigger] queue@[qi]
                                != j by {
                                if queue@[qi] == j {
                                    assert(queued@[j as int]);
                                    assert(false);
                                }
                            }
                        }
                        let ghost old_queue = queue@;
                        queue.push(j);
                        queued.set(j, true);
                        proof {
                            assert(queue@[old_queue.len() as int] == j);
                            assert(forall|qi: int|
                                0 <= qi < old_queue.len() ==> queue@[qi] == old_queue[qi]);
                            lemma_distinct_indices_bounded(queue@, n as nat);
                            lemma_remaining_zero(spec_deps(ts[j as int].1), result@);
                            assert forall|d: Seq<char>| #[trigger] spec_deps(
                                ts[j as int].1,
                            ).contains(d) implies in_names(result@, d) by {
                                let kk = choose|kk: int|
                                    0 <= kk < spec_deps(ts[j as int].1).len() && spec_deps(
                                        ts[j as int].1,
                                    )[kk] == d;
                                assert(in_names(result@, spec_deps(ts[j as int].1)[kk]));
                            }
                        }
                    }
                }
                j += 1;
            }
        } else {
            proof {
                assert forall|jj: int| 0 <= jj < n implies #[trigger] indeg@[jj] == remaining_deps(
                    spec_deps(ts[jj].1),
                    result@,
                ) by {
                    lemma_remaining_push(spec_deps(ts[jj].1), old_result, tasks@[v as int].0);
                }
            }
        }
    }
    proof {
        if names_unique(ts) {
            assert forall|m1: int, m2: int| 0 <= m1 < m2 < result@.len() implies result@[m1]@
                != result@[m2]@ by {
                assert(result@[m1]@ == ts[queue@[m1] as int].0@);
                assert(result@[m2]@ == ts[queue@[m2] as int].0@);
                assert(queue@[m1] != queue@[m2]);
            }
            assert forall|m: int, d: Seq<char>|
                0 <= m < result@.len() && #[trigger] dep_edge(ts, result@[m]@, d)
                    implies exists|m2: int| 0 <= m2 < m && #[trigger] result@[m2]@ == d by {
                let i0 = choose|i0: int|
                    0 <= i0 < ts.len() && #[trigger] ts[i0].0@ == result@[m]@ && spec_deps(
                        ts[i0].1,
                    ).contains(d);
                assert(result@[m]@ == ts[queue@[m] as int].0@);
                assert(queue@[m] as int == i0) by {
                    if queue@[m] as int != i0 {
                        assert(ts[queue@[m] as int].0@ == ts[i0].0@);
                    }
                }
                assert(spec_deps(ts[queue@[m] as int].1).contains(d));
            }
            assert forall|m: int| 0 <= m < result@.len() implies has_task(
                ts,
                #[trigger] result@[m]@,
            ) by {
                assert(result@[m]@ == ts[queue@[m] as int].0@);
            }
            lemma_emitted_schedulable(ts, result@);
            lemma_schedulable_emitted(ts, result@, queue@, queued@, indeg@);
            if all_deps_present(ts) && !has_cycle(ts) {
                let s = Set::new(|j: int| 0 <= j < n && !queued@[j]);
                if exists|j: int| 0 <= j < n && !(#[trigger] queued@[j]) {
                    let j0 = choose|j: int| 0 <= j < n && !(#[trigger] queued@[j]);
                    assert forall|j: int| #[trigger] s.contains(j) implies exists|jd: int|
                        s.contains(jd) && spec_deps(ts[j].1).contains(ts[jd].0@) by {
                        assert(indeg@[j] != 0);
                        lemma_remaining_zero(spec_deps(ts[j].1), result@);
                        let kk = choose|kk: int|
                            0 <= kk < spec_deps(ts[j].1).len() && !in_names(
                                result@,
                                #[trigger] spec_deps(ts[j].1)[kk],
                            );
                        let d = spec_deps(ts[j].1)[kk];
                        assert(spec_deps(ts[j].1).contains(d));
                        assert(has_task(ts, d));
                        let jd = choose|jd: int| 0 <= jd < ts.len() && #[trigger] ts[jd].0@ == d;
                        if queued@[jd] {
                            let qi = choose|qi: int|
                                0 <= qi < queue@.len() && #[trigger] queue@[qi] == jd;
                            assert(result@[qi]@ == ts[jd].0@);
                            assert(in_names(result@, d));
                            assert(false);
                        }
                        assert(s.contains(jd));
                    }
                    lemma_succ_cycle(ts, s, j0);
                    assert(false);
                }
                assert forall|jj: int| 0 <= jj < n implies queued@[jj] by {}
                let t = Seq::new(n as nat, |j: int| choose|qi: int|
                    0 <= qi < queue@.len() && queue@[qi] == j);
                assert forall|j: int| 0 <= j < n implies 0 <= #[trigger] t[j] < queue@.len()
                    && queue@[t[j]] == j by {
                    assert(queued@[j]);
                    let qi = choose|qi: int| 0 <= qi < queue@.len() && #[trigger] queue@[qi] == j;
                    assert(queue@[t[j]] == j);
                }
                assert forall|j1: int, j2: int| 0 <= j1 < j2 < n implies t[j1] != t[j2] by {
                    assert(queue@[t[j1]] == j1 && queue@[t[j2]] == j2);
                }
                lemma_distinct_ints_bounded(t, queue@.len() as int);
                assert(queue@.len() == n);
                assert forall|i0: int| 0 <= i0 < ts.len() implies in_names(
                    result@,
                    #[trigger] ts[i0].0@,
                ) by {
                    assert(queued@[i0]);
                    let qi = choose|qi: int| 0 <= qi < queue@.len() && #[trigger] queue@[qi] == i0;
                    assert(result@[qi]@ == ts[i0].0@);
                }
            }
        }
        assert forall|m: int| 0 <= m < result@.len() implies has_task(ts, #[trigger] result@[m]@) by {
            assert(result@[m]@ == ts[queue@[m] as int].0@);
        }
    }
    result
}


/// The transitive dependents of `changed`: every task that directly or
/// indirectly declares `changed` as a dependency, as a duplicate-free
/// list.  It holds exactly the names from which `changed` is reachable
/// along at least one dependency edge; `changed` itself appears only
/// when it sits on a cycle.
pub fn collect_dependents(tasks: &Vec<(String, Task)>, changed: &str) -> (r: Vec<String>)
    ensures
        forall|m: int| 0 <= m < r@.len() ==> reaches_plus(tasks@, #[trigger] r@[m]@, changed@),
        forall|m1: int, m2: int| 0 <= m1 < m2 < r@.len() ==> r@[m1]@ != r@[m2]@,
        forall|b: Seq<char>| #[trigger] reaches_plus(tasks@, b, changed@) ==> in_names(r@, b),
{
    let ghost ts = tasks@;
    let n = tasks.len();
    let changed_string: String = changed.to_owned();
    let mut result: Vec<String> = Vec::new();
    let mut queue: Vec<usize> = Vec::new();
    let ghost mut owner: Seq<int> = Seq::empty();
    let mut j: usize = 0;
    while j < n
        invariant
            ts == tasks@,
            n == ts.len(),
            j <= n,
            queue@.len() <= n,
            changed_string@ == changed@,
            forall|qi: int| 0 <= qi < queue@.len() ==> #[trigger] queue@[qi] < n,
            forall|q1: int, q2: int| 0 <= q1 < q2 < queue@.len() ==> queue@[q1] != queue@[q2],
            forall|qi: int| 0 <= qi < queue@.len() ==> in_names(
                result@,
                ts[#[trigger] queue@[qi] as int].0@,
            ),
            forall|m: int| 0 <= m < result@.len() ==> reaches_plus(
                ts,
                #[trigger] result@[m]@,
                changed@,
            ),
            forall|m1: int, m2: int| 0 <= m1 < m2 < result@.len() ==> result@[m1]@ != result@[m2]@,
            forall|jj: int|
                0 <= jj < j && in_names(ts[jj].1.deps@, changed@) ==> in_names(
                    result@,
                    #[trigger] ts[jj].0@,
                ),
            owner.len() == result@.len(),
            forall|m: int|
                0 <= m < result@.len() ==> 0 <= #[trigger] owner[m] < queue@.len()
                    && ts[queue@[owner[m]] as int].0@ == result@[m]@,
        decreases n - j,
    {
        if contains_string(&tasks[j].1.deps, &changed_string) && !contains_string(
            &result,
            &tasks[j].0,
        ) {
            proof {
                lemma_spec_deps_in_names(ts[j as int].1, changed@);
                assert(dep_edge(ts, ts[j as int].0@, changed@)) by {
                    assert(0 <= j < ts.len() && ts[j as int].0@ == ts[j as int].0@ && spec_deps(
                        ts[j as int].1,
                    ).contains(changed@));
                }
                lemma_reaches_self(ts, changed@);
                lemma_reaches_prepend(ts, ts[j as int].0@, changed@, changed@);
                assert forall|qi: int| 0 <= qi < queue@.len() implies #[trigger] queue@[qi] != j by {
                    if queue@[qi] == j {
                        assert(in_names(result@, ts[j as int].0@));
                    }
                }
            }
            let ghost old_result = result@;
            let ghost old_queue = queue@;
            result.push(tasks[j].0.clone());
            queue.push(j);
            proof {
                assert(queue@[old_queue.len() as int] == j);
                assert(forall|qi: int| 0 <= qi < old_queue.len() ==> queue@[qi] == old_queue[qi]);
                assert(result@[old_result.len() as int]@ == ts[j as int].0@);
                assert(forall|m: int| 0 <= m < old_result.len() ==> result@[m] == old_result[m]);
                assert forall|x: Seq<char>| #[trigger] in_names(old_result, x) implies in_names(
                    result@,
                    x,
                ) by {
                    let m = choose|m: int|
                        0 <= m < old_result.len() && #[trigger] old_result[m]@ == x;
                    assert(result@[m]@ == x);
                }
                lemma_distinct_indices_bounded(queue@, n as nat);
                owner = owner.push(old_queue.len() as int);
                assert(ts[queue@[owner[owner.len() - 1]] as int].0@ == result@[result@.len() - 1]@);
            }
        }
        j += 1;
    }
    let mut head: usize = 0;
    while head < queue.len()
        invariant
            ts == tasks@,
            n == ts.len(),
            head <= queue@.len(),
            queue@.len() <= n,
            changed_string@ == changed@,
            forall|qi: int| 0 <= qi < queue@.len() ==> #[trigger] queue@[qi] < n,
            forall|q1: int, q2: int| 0 <= q1 < q2 < queue@.len() ==> queue@[q1] != queue@[q2],
            forall|qi: int| 0 <= qi < queue@.len() ==> in_names(
                result@,
                ts[#[trigger] queue@[qi] as int].0@,
            ),
            forall|m: int| 0 <= m < result@.len() ==> reaches_plus(
                ts,
                #[trigger] result@[m]@,
                changed@,
            ),
            forall|m1: int, m2: int| 0 <= m1 < m2 < result@.len() ==> result@[m1]@ != result@[m2]@,
            forall|jj: int|
                0 <= jj < n && in_names(ts[jj].1.deps@, changed@) ==> in_names(
                    result@,
                    #[trigger] ts[jj].0@,
                ),
            forall|qi: int, jj: int|
                0 <= qi < head && 0 <= jj < n && in_names(
                    ts[jj].1.deps@,
                    ts[#[trigger] queue@[qi] as int].0@,
                ) ==> in_names(result@, #[trigger] ts[jj].0@),
            owner.len() == result@.len(),
            forall|m: int|
                0 <= m < result@.len() ==> 0 <= #[trigger] owner[m] < queue@.len()
                    && ts[queue@[owner[m]] as int].0@ == result@[m]@,
        decreases n - head,
    {
        let v = queue[head];
        head += 1;
        let mut j: usize = 0;
        while j < n
            invariant
                ts == tasks@,
                n == ts.len(),
                v < n,
                v == queue@[head - 1],
                1 <= head <= queue@.len(),
                queue@.len() <= n,
                j <= n,
                changed_string@ == changed@,
                forall|qi: int| 0 <= qi < queue@.len() ==> #[trigger] queue@[qi] < n,
                forall|q1: int, q2: int| 0 <= q1 < q2 < queue@.len() ==> queue@[q1] != queue@[q2],
                forall|qi: int| 0 <= qi < queue@.len() ==> in_names(
                    result@,
                    ts[#[trigger] queue@[qi] as int].0@,
                ),
                forall|m: int| 0 <= m < result@.len() ==> reaches_plus(
                    ts,
                    #[trigger] result@[m]@,
                    changed@,
                ),
                forall|m1: int, m2: int|
                    0 <= m1 < m2 < result@.len() ==> result@[m1]@ != result@[m2]@,
                forall|jj: int|
                    0 <= jj < n && in_names(ts[jj].1.deps@, changed@) ==> in_names(
                        result@,
                        #[trigger] ts[jj].0@,
                    ),
                forall|qi: int, jj: int|
                    0 <= qi < head - 1 && 0 <= jj < n && in_names(
                        ts[jj].1.deps@,
                        ts[#[trigger] queue@[qi] as int].0@,
                    ) ==> in_names(result@, #[trigger] ts[jj].0@),
                forall|jj: int|
                    0 <= jj < j && in_names(ts[jj].1.deps@, ts[v as int].0@) ==> in_names(
                        result@,
                        #[trigger] ts[jj].0@,
                    ),
                owner.len() == result@.len(),
                forall|m: int|
                    0 <= m < result@.len() ==> 0 <= #[trigger] owner[m] < queue@.len()
                        && ts[queue@[owner[m]] as int].0@ == result@[m]@,
            decreases n - j,
        {
            if contains_string(&tasks[j].1.deps, &tasks[v].0) && !contains_string(
                &result,
                &tasks[j].0,
            ) {
                proof {
                    lemma_spec_deps_in_names(ts[j as int].1, ts[v as int].0@);
                    assert(dep_edge(ts, ts[j as int].0@, ts[v as int].0@)) by {
                        assert(0 <= j < ts.len() && ts[j as int].0@ == ts[j as int].0@
                            && spec_deps(ts[j as int].1).contains(ts[v as int].0@));
                    }
                    assert(in_names(result@, ts[v as int].0@));
                    let m = choose|m: int|
                        0 <= m < result@.len() && #[trigger] result@[m]@ == ts[v as int].0@;
                    assert(reaches_plus(ts, ts[v as int].0@, changed@));
                    let pw = choose|pw: Seq<Seq<char>>|
                        #[trigger] is_dep_path(ts, pw) && pw.len() >= 2 && pw.first()
                            == ts[v as int].0@ && pw.last() == changed@;
                    assert(reaches(ts, ts[v as int].0@, changed@));
                    lemma_reaches_prepend(ts, ts[j as int].0@, ts[v as int].0@, changed@);
                    assert forall|qi: int| 0 <= qi < queue@.len() implies #[trigger] queue@[qi]
                        != j by {
                        if queue@[qi] == j {
                            assert(in_names(result@, ts[j as int].0@));
                        }
                    }
                }
                let ghost old_result = result@;
                let ghost old_queue = queue@;
                result.push(tasks[j].0.clone());
                queue.push(j);
                proof {
                    assert(queue@[old_queue.len() as int] == j);
                    assert(forall|qi: int|
                        0 <= qi < old_queue.len() ==> queue@[qi] == old_queue[qi]);
                    assert(result@[old_result.len() as int]@ == ts[j as int].0@);
                    assert(forall|m: int|
                        0 <= m < old_result.len() ==> result@[m] == old_result[m]);
                    assert forall|x: Seq<char>| #[trigger] in_names(old_result, x) implies in_names(
                        result@,
                        x,
                    ) by {
                        let m = choose|m: int|
                            0 <= m < old_result.len() && #[trigger] old_result[m]@ == x;
                        assert(result@[m]@ == x);
                    }
                    lemma_distinct_indices_bounded(queue@, n as nat);
                    owner = owner.push(old_queue.len() as int);
                    assert(ts[queue@[owner[owner.len() - 1]] as int].0@ == result@[result@.len() - 1]@);
                }
            }
            j += 1;
        }
    }
    proof {
        let s = Set::new(|b: Seq<char>| in_names(result@, b));
        assert forall|a: Seq<char>, x: Seq<char>|
            (s.contains(x) || x == changed@) && #[trigger] dep_edge(ts, a, x) implies s.contains(
            a,
        ) by {
            let i = choose|i: int|
                0 <= i < ts.len() && #[trigger] ts[i].0@ == a && spec_deps(ts[i].1).contains(x);
            lemma_spec_deps_in_names(ts[i].1, x);
            if x == changed@ {
                assert(in_names(result@, ts[i].0@));
            } else {
                let m = choose|m: int| 0 <= m < result@.len() && #[trigger] result@[m]@ == x;
                let qi = owner[m];
                assert(ts[queue@[qi] as int].0@ == x);
                assert(in_names(ts[i].1.deps@, ts[queue@[qi] as int].0@));
                assert(in_names(result@, ts[i].0@));
            }
        }
        assert forall|b: Seq<char>| #[trigger] reaches_plus(ts, b, changed@) implies in_names(
            result@,
            b,
        ) by {
            let p = choose|p: Seq<Seq<char>>|
                #[trigger] is_dep_path(ts, p) && p.len() >= 2 && p.first() == b && p.last()
                    == changed@;
            lemma_path_in_pred_closed_set(ts, s, changed@, p);
        }
    }
    result
}


/// Along any dependency walk, positions in a duplicate-free sequence
/// that places every dependency before its dependent strictly decrease:
/// the walk's last element appears before its first.
proof fn lemma_path_before(ts: Seq<(String, Task)>, ord: Seq<String>, p: Seq<Seq<char>>, mf: int)
    requires
        is_dep_path(ts, p),
        p.len() >= 2,
        0 <= mf < ord.len(),
        ord[mf]@ == p.first(),
        forall|m1: int, m2: int| 0 <= m1 < m2 < ord.len() ==> ord[m1]@ != ord[m2]@,
        forall|m: int, d: Seq<char>|
            0 <= m < ord.len() && #[trigger] dep_edge(ts, ord[m]@, d) ==> exists|m2: int|
                0 <= m2 < m && ord[m2]@ == d,
    ensures
        exists|ml: int| 0 <= ml < mf && #[trigger] ord[ml]@ == p.last(),
    decreases p.len(),
{
    assert(dep_edge(ts, p[0], p[1]));
    assert(dep_edge(ts, ord[mf]@, p[1]));
    let m1 = choose|m2: int| 0 <= m2 < mf && ord[m2]@ == p[1];
    if p.len() == 2 {
        assert(ord[m1]@ == p.last());
    } else {
        let q = p.subrange(1, p.len() as int);
        assert(forall|i: int| 0 <= i < q.len() ==> q[i] == p[i + 1]);
        assert forall|i: int| 0 <= i < q.len() - 1 implies dep_edge(ts, #[trigger] q[i], q[i + 1])
            by {
            assert(dep_edge(ts, p[i + 1], p[i + 2]));
        }
        assert(is_dep_path(ts, q));
        assert(q.first() == p[1] && q.last() == p.last());
        lemma_path_before(ts, ord, q, m1);
        let ml = choose|ml: int| 0 <= ml < m1 && #[trigger] ord[ml]@ == q.last();
        assert(ord[ml]@ == p.last());
    }
}

/// The run order for `start`: the global topological order restricted to
/// the dependency closure of `start`, keeping the global order's
/// relative sequencing.  On a well-formed acyclic task list that has
/// `start`, the result holds exactly the closure members, every task's
/// dependencies come before the task, and `start` comes last.
#[verifier::loop_isolation(false)]
pub fn run_order_from(tasks: &Vec<(String, Task)>, start: &str) -> (r: Vec<String>)
    ensures
        names_unique(tasks@) ==> forall|m1: int, m2: int|
            0 <= m1 < m2 < r@.len() ==> r@[m1]@ != r@[m2]@,
        forall|m: int| 0 <= m < r@.len() ==> reaches(tasks@, start@, #[trigger] r@[m]@),
        names_unique(tasks@) && all_deps_present(tasks@) && !has_cycle(tasks@) && has_task(
            tasks@,
            start@,
        ) ==> (forall|x: Seq<char>| #[trigger] reaches(tasks@, start@, x) ==> in_names(r@, x)),
        names_unique(tasks@) && all_deps_present(tasks@) && !has_cycle(tasks@) && has_task(
            tasks@,
            start@,
        ) ==> (forall|m: int, d: Seq<char>|
            0 <= m < r@.len() && #[trigger] dep_edge(tasks@, r@[m]@, d) ==> exists|m2: int|
                0 <= m2 < m && r@[m2]@ == d),
        names_unique(tasks@) && all_deps_present(tasks@) && !has_cycle(tasks@) && has_task(
            tasks@,
            start@,
        ) ==> r@.len() >= 1 && r@[r@.len() - 1]@ == start@,
{
    let ghost ts = tasks@;
    let deps = collect_dependencies(tasks, start);
    let order = topological_order(tasks);
    let mut r: Vec<String> = Vec::new();
    let ghost mut posmap: Seq<int> = Seq::empty();
    let mut k: usize = 0;
    while k < order.len()
        invariant
            k <= order@.len(),
            posmap.len() == r@.len(),
            forall|m: int| 0 <= m < r@.len() ==> 0 <= #[trigger] posmap[m] < k,
            forall|m1: int, m2: int| 0 <= m1 < m2 < r@.len() ==> posmap[m1] < posmap[m2],
            forall|m: int| 0 <= m < r@.len() ==> r@[m] == order@[#[trigger] posmap[m]],
            forall|m: int| 0 <= m < r@.len() ==> in_names(deps@, #[trigger] r@[m]@),
            forall|kk: int|
                0 <= kk < k && in_names(deps@, #[trigger] order@[kk]@) ==> in_names(
                    r@,
                    order@[kk]@,
                ),
        decreases order@.len() - k,
    {
        if contains_string(&deps, &order[k]) {
            let ghost old_r = r@;
            r.push(order[k].clone());
            proof {
                posmap = posmap.push(k as int);
                assert(r@[old_r.len() as int] == order@[k as int]);
                assert(forall|m: int| 0 <= m < old_r.len() ==> r@[m] == old_r[m]);
                assert forall|x: Seq<char>| #[trigger] in_names(old_r, x) implies in_names(r@, x)
                    by {
                    let m = choose|m: int| 0 <= m < old_r.len() && #[trigger] old_r[m]@ == x;
                    assert(r@[m]@ == x);
                }
            }
        }
        k += 1;
    }
    proof {
        assert forall|m: int| 0 <= m < r@.len() implies reaches(ts, start@, #[trigger] r@[m]@) by {
            let mm = choose|mm: int| 0 <= mm < deps@.len() && #[trigger] deps@[mm]@ == r@[m]@;
            assert(reaches(ts, start@, deps@[mm]@));
        }
        if names_unique(ts) {
            assert forall|m1: int, m2: int| 0 <= m1 < m2 < r@.len() implies r@[m1]@ != r@[m2]@ by {
                assert(posmap[m1] < posmap[m2]);
                assert(r@[m1]@ == order@[posmap[m1]]@);
                assert(r@[m2]@ == order@[posmap[m2]]@);
            }
        }
        if names_unique(ts) && all_deps_present(ts) && !has_cycle(ts) && has_task(ts, start@) {
            assert(forall|m1: int, m2: int| 0 <= m1 < m2 < r@.len() ==> r@[m1]@ != r@[m2]@);
            assert forall|x: Seq<char>| #[trigger] reaches(ts, start@, x) implies in_names(r@, x)
                by {
                assert(in_names(deps@, x));
                assert(has_task(ts, x)) by {
                    let p = choose|p: Seq<Seq<char>>|
                        #[trigger] is_dep_path(ts, p) && p.first() == start@ && p.last() == x;
                    if p.len() == 1 {
                        assert(x == start@);
                    } else {
                        assert(dep_edge(ts, p[p.len() - 2], p[p.len() - 1]));
                        let i = choose|i: int|
                            0 <= i < ts.len() && #[trigger] ts[i].0@ == p[p.len() - 2]
                                && spec_deps(ts[i].1).contains(x);
                        assert(has_task(ts, x));
                    }
                }
                let ix = choose|ix: int| 0 <= ix < ts.len() && #[trigger] ts[ix].0@ == x;
                assert(in_names(order@, ts[ix].0@));
                let kk = choose|kk: int| 0 <= kk < order@.len() && #[trigger] order@[kk]@ == x;
                assert(in_names(r@, order@[kk]@));
            }
            assert forall|m: int, d: Seq<char>|
                0 <= m < r@.len() && #[trigger] dep_edge(ts, r@[m]@, d) implies exists|m2: int|
                0 <= m2 < m && r@[m2]@ == d by {
                assert(reaches(ts, start@, r@[m]@));
                lemma_reaches_step(ts, start@, r@[m]@, d);
                assert(in_names(r@, d));
                let md = choose|md: int| 0 <= md < r@.len() && #[trigger] r@[md]@ == d;
                assert(dep_edge(ts, order@[posmap[m]]@, d));
                let m2o = choose|m2o: int| 0 <= m2o < posmap[m] && order@[m2o]@ == d;
                assert(order@[posmap[md]]@ == d);
                assert(posmap[md] == m2o) by {
                    if posmap[md] != m2o {
                        assert(order@[posmap[md]]@ != order@[m2o]@);
                    }
                }
                if md == m {
                    let cyc = seq![d, d];
                    assert(cyc.first() == d && cyc.last() == d);
                    assert(dep_edge(ts, cyc[0], cyc[1]));
                    assert(is_dep_path(ts, cyc) && cyc.len() >= 2);
                    assert(has_cycle(ts));
                    assert(false);
                }
                if md > m {
                    assert(posmap[m] < posmap[md]);
                    assert(false);
                }
                assert(0 <= md < m && r@[md]@ == d);
            }
            assert(in_names(r@, start@)) by {
                lemma_reaches_self(ts, start@);
            }
            let ms = choose|ms: int| 0 <= ms < r@.len() && #[trigger] r@[ms]@ == start@;
            assert forall|m: int| #![trigger r@[m]] 0 <= m < r@.len() && m != ms implies m < ms by {
                let x = r@[m]@;
                assert(x != start@);
                assert(reaches(ts, start@, x));
                let p = choose|p: Seq<Seq<char>>|
                    #[trigger] is_dep_path(ts, p) && p.first() == start@ && p.last() == x;
                if p.len() == 1 {
                    assert(false);
                }
                assert(order@[posmap[ms]]@ == start@);
                lemma_path_before(ts, order@, p, posmap[ms]);
                let ml = choose|ml: int| 0 <= ml < posmap[ms] && #[trigger] order@[ml]@ == x;
                assert(order@[posmap[m]]@ == x);
                assert(posmap[m] == ml) by {
                    if posmap[m] != ml {
                        assert(order@[posmap[m]]@ != order@[ml]@);
                    }
                }
                if m > ms {
                    assert(posmap[ms] < posmap[m]);
                    assert(false);
                }
            }
            let last = r@.len() - 1;
            if ms != last {
                assert(r@[last]@ == r@[last]@);
                assert(last < ms);
                assert(false);
            }
            assert(ms == r@.len() - 1);
        }
    }
    r
}

} // verus!
