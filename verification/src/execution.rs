//! The execution planner: resolves the effective concurrency policy,
//! normalizes a task's commands to a list, and judges a task's outcome
//! from its commands' exit statuses with fail-fast semantics.
use vstd::prelude::*;
use crate::model::{Task, CommandSpec, str_seq};

verus! {

/// The milliseconds a watcher waits after an accepted trigger before
/// accepting another one, for tasks that set no interval of their own.
pub fn default_debounce() -> (r: u64)
    ensures
        r == 500,
{
    500
}

/// The concurrency policy a task runs under: its own override when set,
/// the global default otherwise.
pub open spec fn spec_effective_concurrent(t: Task, global: bool) -> bool {
    match t.concurrent {
        Some(b) => b,
        None => global,
    }
}

/// Resolves the effective concurrency policy of a task.
pub fn effective_concurrent(t: &Task, global: bool) -> (r: bool)
    ensures
        r == spec_effective_concurrent(*t, global),
{
    match t.concurrent {
        Some(b) => b,
        None => global,
    }
}

/// The task's commands as a list: a single command becomes a one-element
/// list, a command list stays as it is.
pub fn command_list(t: &Task) -> (r: Vec<String>)
    ensures
        str_seq(r@) == t.cmd.spec_commands(),
{
    match &t.cmd {
        CommandSpec::Single(s) => {
            let mut v: Vec<String> = Vec::new();
            v.push(s.clone());
            proof {
                assert(str_seq(v@) =~= t.cmd.spec_commands());
            }
            v
        },
        CommandSpec::Multiple(list) => {
            let mut v: Vec<String> = Vec::new();
            let mut i: usize = 0;
            while i < list.len()
                invariant
                    i <= list@.len(),
                    v@.len() == i,
                    forall|j: int| 0 <= j < i ==> #[trigger] v@[j]@ == list@[j]@,
                decreases list@.len() - i,
            {
                v.push(list[i].clone());
                i += 1;
            }
            proof {
                assert(str_seq(v@) =~= t.cmd.spec_commands());
            }
            v
        },
    }
}

/// Everything the engine needs to run one task: its name, the
/// normalized command list, the resolved concurrency policy, and the
/// environment overlay.
pub struct ExecutionPlan {
    pub task_name: String,
    pub commands: Vec<String>,
    pub concurrent: bool,
    pub env: Vec<(String, String)>,
}

/// Builds the execution plan of a task under the global concurrency
/// default.
pub fn execution_plan(name: &str, t: &Task, global_concurrent: bool) -> (p: ExecutionPlan)
    ensures
        p.task_name@ == name@,
        str_seq(p.commands@) == t.cmd.spec_commands(),
        p.concurrent == spec_effective_concurrent(*t, global_concurrent),
        p.env@.len() == t.env@.len(),
        forall|i: int|
            0 <= i < t.env@.len() ==> #[trigger] p.env@[i].0@ == t.env@[i].0@ && p.env@[i].1@
                == t.env@[i].1@,
{
    let mut env: Vec<(String, String)> = Vec::new();
    let mut i: usize = 0;
    while i < t.env.len()
        invariant
            i <= t.env@.len(),
            env@.len() == i,
            forall|j: int|
                0 <= j < i ==> #[trigger] env@[j].0@ == t.env@[j].0@ && env@[j].1@
                    == t.env@[j].1@,
        decreases t.env@.len() - i,
    {
        env.push((t.env[i].0.clone(), t.env[i].1.clone()));
        i += 1;
    }
    ExecutionPlan {
        task_name: name.to_owned(),
        commands: command_list(t),
        concurrent: effective_concurrent(t, global_concurrent),
        env,
    }
}

/// How one task's run ended: success, or the task's name with the
/// specific command that failed.
pub enum RunOutcome {
    Success,
    Failure { task: String, command: String },
}

/// Judges a task's outcome from its commands and their exit statuses:
/// success exactly when every command succeeded, else a failure naming
/// the first command whose status was bad — under the sequential policy
/// the commands after it were never started, under the concurrent one
/// they were all awaited regardless.
pub fn task_outcome(name: &str, commands: &Vec<String>, ok_flags: &Vec<bool>) -> (r: RunOutcome)
    requires
        ok_flags@.len() == commands@.len(),
    ensures
        (r is Success) <==> (forall|i: int| 0 <= i < ok_flags@.len() ==> #[trigger] ok_flags@[i]),
        (r matches RunOutcome::Failure { task, command } ==> task@ == name@ && exists|i: int|
            0 <= i < ok_flags@.len() && !ok_flags@[i] && #[trigger] commands@[i]@ == command@
                && forall|j: int| 0 <= j < i ==> ok_flags@[j]),
{
    let mut i: usize = 0;
    while i < ok_flags.len()
        invariant
            i <= ok_flags@.len(),
            ok_flags@.len() == commands@.len(),
            forall|j: int| 0 <= j < i ==> #[trigger] ok_flags@[j],
        decreases ok_flags@.len() - i,
    {
        if !ok_flags[i] {
            proof {
                assert(!ok_flags@[i as int] && commands@[i as int]@ == commands@[i as int]@);
            }
            return RunOutcome::Failure { task: name.to_owned(), command: commands[i].clone() };
        }
        i += 1;
    }
    RunOutcome::Success
}

} // verus!
