//! The execution engine. A run walks the steps of one group in strictly
//! ascending lexicographic order of step name, keeping a running working
//! directory. The engine owns every decision of a run but performs no I/O
//! itself: `next_action` says what has to happen next (change the directory,
//! or spawn a process), the surrounding program performs it and reports the
//! result through `absorb`, and the first failure halts the run.
//!
//! A `cd` step with at least one argument changes the running directory
//! instead of spawning a process; a `cd` step without arguments falls through
//! to process invocation like any other command, which is the documented
//! behaviour, not an accident.

use vstd::prelude::*;

use crate::catalog::Catalog;
use crate::catalog::Group;
use crate::catalog::Step;
use crate::catalog::StepView;
use crate::catalog::entries_sorted;
use crate::order::lex_lt;
use crate::order::str_eq;

verus! {

/// How a path argument of a `cd` step combines with the running working
/// directory. The model is Unix-like: an argument starting with `/` is
/// absolute and replaces the directory, anything else is appended after a
/// `/` separator (no separator is doubled, an empty argument changes
/// nothing).
pub open spec fn spec_join_path(base: Seq<char>, arg: Seq<char>) -> Seq<char> {
    if arg.len() > 0 && arg[0] == '/' {
        arg
    } else if arg.len() == 0 {
        base
    } else if base.len() > 0 && base[base.len() - 1] == '/' {
        base + arg
    } else {
        base + seq!['/'] + arg
    }
}

/// Joins a `cd` argument onto the running working directory.
pub fn join_path(base: &str, arg: &str) -> (r: String)
    ensures
        r@ == spec_join_path(base@, arg@),
{
    let arg_len = arg.unicode_len();
    if arg_len > 0 && arg.get_char(0) == '/' {
        return arg.to_owned();
    }
    if arg_len == 0 {
        return base.to_owned();
    }
    let base_len = base.unicode_len();
    let mut s = base.to_owned();
    if !(base_len > 0 && base.get_char(base_len - 1) == '/') {
        s.append("/");
        proof {
            reveal_strlit("/");
            assert(s@ =~= base@ + seq!['/']);
        }
    }
    s.append(arg);
    proof {
        assert(s@ =~= spec_join_path(base@, arg@));
    }
    s
}

/// A step that the engine treats as a directory change: the literal command
/// `cd` with at least one argument.
pub open spec fn is_cd_step(s: StepView) -> bool {
    s.command == "cd"@ && s.args.len() > 0
}

/// What the engine asks the surrounding program to do next.
#[derive(Debug)]
pub enum Action {
    /// Change the working directory to `path` (already joined onto the
    /// running directory).
    ChangeDir { step_name: String, path: String },
    /// Spawn `command` with `args` in directory `cwd` and wait for it.
    Spawn { step_name: String, command: String, args: Vec<String>, cwd: String },
    /// Every step has finished; the run succeeded.
    Done,
}

/// What the surrounding program reports back after performing an action.
#[derive(Debug)]
pub enum StepOutcome {
    /// The directory change succeeded.
    DirChanged,
    /// The directory change failed.
    DirFailed,
    /// The spawned process ran to completion. `success` is whether its exit
    /// status was success; `exit_code` is its exit code, with `-1` standing
    /// in where none is available (for example after a signal).
    Exited { success: bool, exit_code: i32 },
    /// The process could not be spawned or awaited.
    SpawnFailed,
}

/// Why a run failed. Every error names the offending group or step.
#[derive(Debug)]
pub enum RunError {
    /// The requested group is not in the catalog.
    GroupNotFound { group: String },
    /// A `cd` step could not change into `path`.
    ChangeDirFailed { step_name: String, path: String },
    /// A step's process could not be spawned or awaited.
    SpawnFailed { step_name: String },
    /// A step's process exited unsuccessfully.
    StepFailed { step_name: String, exit_code: i32 },
}

/// The outcome kind the protocol allows for the step at hand: directory
/// outcomes for a `cd` step, process outcomes for everything else.
pub open spec fn outcome_fits(outcome: StepOutcome, step: StepView) -> bool {
    match outcome {
        StepOutcome::DirChanged | StepOutcome::DirFailed => is_cd_step(step),
        StepOutcome::Exited { .. } | StepOutcome::SpawnFailed => !is_cd_step(step),
    }
}

/// One run of one group: the group's steps, the position of the next step,
/// and the running working directory.
#[derive(Debug)]
pub struct Engine<'a> {
    pub steps: &'a Group,
    pub pos: usize,
    pub cwd: String,
    pub halted: bool,
}

impl<'a> Engine<'a> {
    /// The group's entries, in execution order.
    pub open spec fn entries(self) -> Seq<(Seq<char>, StepView)> {
        self.steps@
    }

    /// The position of the next step to run.
    pub open spec fn position(self) -> int {
        self.pos as int
    }

    /// The running working directory.
    pub open spec fn dir(self) -> Seq<char> {
        self.cwd@
    }

    /// A halted engine accepts no further work: a failure is final.
    pub open spec fn is_halted(self) -> bool {
        self.halted
    }

    pub open spec fn wf(self) -> bool {
        &&& entries_sorted(self.entries())
        &&& 0 <= self.position() <= self.entries().len()
    }

    /// Begins a run of the group named `group_name`, with the process's
    /// current directory as the initial running working directory. Fails
    /// exactly when the catalog has no such group.
    pub fn start(catalog: &'a Catalog, group_name: &str, initial_dir: String) -> (r: Result<
        Engine<'a>,
        RunError,
    >)
        requires
            catalog.wf(),
        ensures
            match r {
                Ok(e) => {
                    &&& catalog.has_group(group_name@)
                    &&& e.entries() == catalog.group_steps(group_name@)
                    &&& e.wf()
                    &&& e.position() == 0
                    &&& e.dir() == initial_dir@
                    &&& !e.is_halted()
                },
                Err(RunError::GroupNotFound { group }) => {
                    &&& !catalog.has_group(group_name@)
                    &&& group@ == group_name@
                },
                Err(_) => false,
            },
    {
        match catalog.get_group(group_name) {
            Some(g) => Ok(Engine { steps: g, pos: 0, cwd: initial_dir, halted: false }),
            None => Err(RunError::GroupNotFound { group: group_name.to_owned() }),
        }
    }

    /// What has to happen next: `Done` when every step has run, a directory
    /// change for a `cd` step with an argument, a process spawn (in the
    /// running working directory) for everything else.
    pub fn next_action(&self) -> (a: Action)
        requires
            self.wf(),
            !self.is_halted(),
        ensures
            ({
                let es = self.entries();
                let p = self.position();
                match a {
                    Action::Done => p == es.len(),
                    Action::ChangeDir { step_name, path } => {
                        &&& p < es.len()
                        &&& is_cd_step(es[p].1)
                        &&& step_name@ == es[p].0
                        &&& path@ == spec_join_path(self.dir(), es[p].1.args[0])
                    },
                    Action::Spawn { step_name, command, args, cwd } => {
                        &&& p < es.len()
                        &&& !is_cd_step(es[p].1)
                        &&& step_name@ == es[p].0
                        &&& command@ == es[p].1.command
                        &&& args.deep_view() == es[p].1.args
                        &&& cwd@ == self.dir()
                    },
                }
            }),
    {
        if self.pos >= self.steps.steps.len() {
            return Action::Done;
        }
        let entry = &self.steps.steps[self.pos];
        proof {
            assert(self.entries()[self.position()] == (
                self.steps.steps@[self.position()].0@,
                self.steps.steps@[self.position()].1@,
            ));
        }
        let name = entry.0.clone();
        if str_eq(entry.1.command.as_str(), "cd") && entry.1.args.len() > 0 {
            proof {
                assert(entry.1@.args[0] == entry.1.args@[0]@);
            }
            let path = join_path(self.cwd.as_str(), self.args_first(&entry.1));
            return Action::ChangeDir { step_name: name, path };
        }
        Action::Spawn {
            step_name: name,
            command: entry.1.command.clone(),
            args: clone_strings(&entry.1.args),
            cwd: self.cwd.clone(),
        }
    }

    /// The first argument of a step known to have one.
    fn args_first(&self, step: &'a Step) -> (r: &'a str)
        requires
            step@.args.len() > 0,
        ensures
            r@ == step@.args[0],
    {
        proof {
            assert(step@.args[0] == step.args@[0]@);
        }
        step.args[0].as_str()
    }

    /// Takes the result of the action for the step at the current position.
    /// On success the engine moves to the next step — a successful directory
    /// change updates the running working directory, which every later step
    /// then sees. On any failure the engine halts, runs nothing further, and
    /// reports an error naming exactly the step that failed.
    pub fn absorb(&mut self, outcome: StepOutcome) -> (r: Result<(), RunError>)
        requires
            old(self).wf(),
            !old(self).is_halted(),
            old(self).position() < old(self).entries().len(),
            outcome_fits(outcome, old(self).entries()[old(self).position()].1),
        ensures
            final(self).wf(),
            final(self).entries() == old(self).entries(),
            ({
                let es = old(self).entries();
                let p = old(self).position();
                match outcome {
                    StepOutcome::DirChanged => {
                        &&& r is Ok
                        &&& !final(self).is_halted()
                        &&& final(self).position() == p + 1
                        &&& final(self).dir() == spec_join_path(old(self).dir(), es[p].1.args[0])
                    },
                    StepOutcome::DirFailed => {
                        &&& final(self).is_halted()
                        &&& match r {
                            Result::Err(RunError::ChangeDirFailed { step_name, path }) => {
                                &&& step_name@ == es[p].0
                                &&& path@ == spec_join_path(old(self).dir(), es[p].1.args[0])
                            },
                            _ => false,
                        }
                    },
                    StepOutcome::Exited { success, exit_code } => {
                        if success {
                            &&& r is Ok
                            &&& !final(self).is_halted()
                            &&& final(self).position() == p + 1
                            &&& final(self).dir() == old(self).dir()
                        } else {
                            &&& final(self).is_halted()
                            &&& match r {
                                Result::Err(RunError::StepFailed { step_name, exit_code: c }) => {
                                    &&& step_name@ == es[p].0
                                    &&& c == exit_code
                                },
                                _ => false,
                            }
                        }
                    },
                    StepOutcome::SpawnFailed => {
                        &&& final(self).is_halted()
                        &&& match r {
                            Result::Err(RunError::SpawnFailed { step_name }) => step_name@
                                == es[p].0,
                            _ => false,
                        }
                    },
                }
            }),
    {
        let step_count = self.steps.steps.len();
        let entry = &self.steps.steps[self.pos];
        proof {
            assert(self.entries()[self.position()] == (
                self.steps.steps@[self.position()].0@,
                self.steps.steps@[self.position()].1@,
            ));
            assert(self.pos < step_count);
        }
        match outcome {
            StepOutcome::DirChanged => {
                proof {
                    assert(entry.1@.args[0] == entry.1.args@[0]@);
                }
                let new_dir = join_path(self.cwd.as_str(), self.args_first(&entry.1));
                self.cwd = new_dir;
                self.pos = self.pos + 1;
                Ok(())
            },
            StepOutcome::DirFailed => {
                proof {
                    assert(entry.1@.args[0] == entry.1.args@[0]@);
                }
                let path = join_path(self.cwd.as_str(), self.args_first(&entry.1));
                self.halted = true;
                Err(RunError::ChangeDirFailed { step_name: entry.0.clone(), path })
            },
            StepOutcome::Exited { success, exit_code } => {
                if success {
                    self.pos = self.pos + 1;
                    Ok(())
                } else {
                    self.halted = true;
                    Err(RunError::StepFailed { step_name: entry.0.clone(), exit_code })
                }
            },
            StepOutcome::SpawnFailed => {
                self.halted = true;
                Err(RunError::SpawnFailed { step_name: entry.0.clone() })
            },
        }
    }
}

/// Law: a run visits step names in strictly ascending lexicographic order —
/// of any two steps of the engine's group, the one at the earlier position
/// (visited first) is named strictly below the later one.
pub proof fn lemma_run_order<'a>(e: Engine<'a>, i: int, j: int)
    requires
        e.wf(),
        0 <= i < j < e.entries().len(),
    ensures
        lex_lt(e.entries()[i].0, e.entries()[j].0),
{
}

/// Law: in a well-formed catalog, the steps of any group stand in strictly
/// ascending lexicographic order of step name, so a run visits them in that
/// order.
pub proof fn lemma_group_order(c: Catalog, n: Seq<char>, i: int, j: int)
    requires
        c.wf(),
        c.has_group(n),
        0 <= i < j < c.group_steps(n).len(),
    ensures
        lex_lt(c.group_steps(n)[i].0, c.group_steps(n)[j].0),
{
}

/// Clones a list of arguments.
fn clone_strings(v: &Vec<String>) -> (r: Vec<String>)
    ensures
        r.deep_view() == v.deep_view(),
{
    let mut r: Vec<String> = Vec::new();
    let mut i: usize = 0;
    while i < v.len()
        invariant
            i <= v@.len(),
            r@.len() == i,
            forall|j: int| 0 <= j < i ==> (#[trigger] r@[j])@ == v@[j]@,
        decreases v@.len() - i,
    {
        r.push(v[i].clone());
        i = i + 1;
    }
    proof {
        assert forall|j: int| 0 <= j < v@.len() implies r.deep_view()[j] == v.deep_view()[j] by {
            assert(r.deep_view()[j] == r@[j]@);
            assert(v.deep_view()[j] == v@[j]@);
        }
        assert(r.deep_view() =~= v.deep_view());
    }
    r
}

} // verus!
