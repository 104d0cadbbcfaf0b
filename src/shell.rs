use vstd::prelude::*;
use crate::command::{display_of, parse_line, parse_model, Command, CommandModel, ParseError};
use crate::history::History;
use crate::jobs::{Job, JobModel, JobTable};

verus! {

/// The state that the shell keeps from one line to the next.
pub struct Shell {
    pub history: History,
    pub jobs: JobTable,
}

impl Shell {
    pub fn new() -> (r: Shell)
        ensures
            r.history@ == Seq::<Seq<char>>::empty(),
            r.jobs@ == Seq::<JobModel>::empty(),
    {
        Shell { history: History::new(), jobs: JobTable::new() }
    }

    /// Takes one line as read: records it in the history, unless input has
    /// ended, and parses it.
    pub fn accept(&mut self, line: &str) -> (r: Result<Command, ParseError>)
        ensures
            match r {
                Ok(c) => parse_model(line@) == Ok::<CommandModel, ParseError>(c@),
                Err(e) => parse_model(line@) == Err::<CommandModel, ParseError>(e),
            },
            final(self).history@ == if r == Err::<Command, ParseError>(ParseError::EndOfInput) {
                old(self).history@
            } else {
                old(self).history@.push(line@)
            },
            final(self).jobs@ == old(self).jobs@,
    {
        let r = parse_line(line);
        match r {
            Err(ParseError::EndOfInput) => {},
            _ => self.history.record(line),
        }
        r
    }

    /// Once the processes of `cmd` have been started with ids `pids`: a
    /// background command becomes a job and nothing is waited for; otherwise
    /// the shell waits for every one of them.
    pub fn finish(&mut self, cmd: &Command, pids: Vec<i32>) -> (r: Vec<i32>)
        ensures
            cmd.background ==> r@.len() == 0 && final(self).jobs@ == old(self).jobs@.push(
                JobModel { pids: pids@, display: display_of(cmd@.stages) },
            ),
            !cmd.background ==> r@ == pids@ && final(self).jobs@ == old(self).jobs@,
            final(self).history@ == old(self).history@,
    {
        if cmd.background {
            let display = cmd.display();
            self.jobs.add(Job { pids, display });
            Vec::new()
        } else {
            pids
        }
    }
}

} // verus!
