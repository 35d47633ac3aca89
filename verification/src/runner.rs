//! The action runner: drives an ordered list of shell command strings.
//!
//! The runner decides; the caller executes.  `run_commands` walks the list
//! in order and calls the supplied executor once per command, whatever the
//! earlier outcomes were — a failing command never cancels the rest of its
//! list.  A blank command (empty or all whitespace) is never handed to the
//! executor; it is recorded as a failure, as there is nothing to run.

use vstd::prelude::*;
use crate::text::{is_blank, is_blank_seq};

verus! {

/// Aggregate result of one batch: how many commands were attempted and how
/// many of them failed.  The aggregate is for reporting only; it never stops
/// a batch early.
#[derive(Clone, Copy, PartialEq, Eq, Structural, Debug)]
pub struct BatchReport {
    /// Number of commands walked; always the whole list.
    pub attempted: usize,
    /// Number of commands whose outcome was failure.
    pub failures: usize,
}

impl BatchReport {
    /// A batch counts as clean when no command failed.
    pub fn ok(&self) -> (r: bool)
        ensures
            r == (self.failures == 0),
    {
        self.failures == 0
    }
}

/// Number of failed outcomes in a batch.
pub open spec fn count_failures(outcomes: Seq<bool>) -> nat
    decreases outcomes.len(),
{
    if outcomes.len() == 0 {
        0
    } else {
        count_failures(outcomes.drop_last()) + (if outcomes.last() {
            0nat
        } else {
            1nat
        })
    }
}

/// Run every command of the list, in order, through `executor`; return the
/// report and the per-command outcomes.
///
/// Command isolation: every index of the list is given its turn — the
/// outcome of one command has no bearing on whether the later commands run.
/// Blank commands are failed without consulting the executor.
pub fn run_commands<F: Fn(&String) -> bool>(commands: &Vec<String>, executor: &F) -> (r: (
    BatchReport,
    Vec<bool>,
))
    requires
        forall|i: int| 0 <= i < commands@.len() ==> call_requires(*executor, (&commands@[i],)),
    ensures
        r.1@.len() == commands@.len(),
        r.0.attempted == commands@.len(),
        r.0.failures == count_failures(r.1@),
        forall|i: int|
            0 <= i < commands@.len() && is_blank_seq(commands@[i]@) ==> r.1@[i] == false,
        forall|i: int|
            0 <= i < commands@.len() && !is_blank_seq(commands@[i]@) ==> call_ensures(
                *executor,
                (&commands@[i],),
                #[trigger] r.1@[i],
            ),
{
    let mut outcomes: Vec<bool> = Vec::new();
    let mut failures: usize = 0;
    let mut i: usize = 0;
    while i < commands.len()
        invariant
            forall|j: int| 0 <= j < commands@.len() ==> call_requires(*executor, (&commands@[j],)),
            i <= commands@.len(),
            outcomes@.len() == i,
            failures == count_failures(outcomes@),
            failures <= i,
            forall|j: int|
                0 <= j < i && is_blank_seq(commands@[j]@) ==> outcomes@[j] == false,
            forall|j: int|
                0 <= j < i && !is_blank_seq(commands@[j]@) ==> call_ensures(
                    *executor,
                    (&commands@[j],),
                    #[trigger] outcomes@[j],
                ),
        decreases commands@.len() - i,
    {
        let cmd = &commands[i];
        let ok = if is_blank(cmd.as_str()) {
            false
        } else {
            executor(cmd)
        };
        let ghost pre = outcomes@;
        outcomes.push(ok);
        if !ok {
            failures = failures + 1;
        }
        proof {
            assert(outcomes@.drop_last() =~= pre);
        }
        i = i + 1;
    }
    (BatchReport { attempted: commands.len(), failures }, outcomes)
}

} // verus!
