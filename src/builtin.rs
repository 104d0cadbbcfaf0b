use vstd::prelude::*;
use crate::command::{Command, CommandKind, CommandModel};
use crate::redirect::{absolute, absolute_path};

verus! {

/// What the shell does with a parsed line.
#[derive(Clone, Debug)]
pub enum Action {
    /// An empty line: nothing.
    Nothing,
    /// `exit`: end the shell.
    Exit,
    /// `pwd`: print the working directory.
    Pwd,
    /// `cd`: change to the directory at this absolute path.
    ChangeDir(String),
    /// `kill`: send the termination signal to this process.
    Kill(i32),
    /// `history`: list the earlier lines.
    ShowHistory,
    /// `jobs`: list the background jobs still running.
    ShowJobs,
    /// Start the command's programs.
    Run,
}

/// The mathematical value of an `Action`.
pub enum ActionModel {
    Nothing,
    Exit,
    Pwd,
    ChangeDir(Seq<char>),
    Kill(i32),
    ShowHistory,
    ShowJobs,
    Run,
}

impl View for Action {
    type V = ActionModel;

    open spec fn view(&self) -> ActionModel {
        match self {
            Action::Nothing => ActionModel::Nothing,
            Action::Exit => ActionModel::Exit,
            Action::Pwd => ActionModel::Pwd,
            Action::ChangeDir(p) => ActionModel::ChangeDir(p@),
            Action::Kill(p) => ActionModel::Kill(*p),
            Action::ShowHistory => ActionModel::ShowHistory,
            Action::ShowJobs => ActionModel::ShowJobs,
            Action::Run => ActionModel::Run,
        }
    }
}

/// Why a builtin cannot be carried out.
#[derive(Clone, Copy, PartialEq, Eq, Structural, Debug)]
pub enum BuiltinError {
    /// `cd` without a directory: there is no default, such as a home
    /// directory, to change to.
    NoDirectory,
    /// `kill` without a process id.
    NoPid,
    /// `kill` with something that is not a process id.
    BadPid,
}

pub open spec fn is_digit(c: char) -> bool {
    48 <= (c as u32) <= 57
}

/// The number that the decimal digits `s` write.
pub open spec fn decimal(s: Seq<char>) -> int
    decreases s.len(),
{
    if s.len() == 0 {
        0
    } else {
        10 * decimal(s.drop_last()) + ((s.last() as u32) - 48)
    }
}

/// The process id that `s` writes: decimal digits only, from 1 to the largest `i32`.
pub open spec fn pid_of(s: Seq<char>) -> Option<i32> {
    if s.len() > 0 && (forall|k: int| 0 <= k < s.len() ==> is_digit(#[trigger] s[k])) && 1
        <= decimal(s) <= i32::MAX {
        Some(decimal(s) as i32)
    } else {
        None
    }
}

proof fn lemma_decimal_nonneg(s: Seq<char>)
    requires
        forall|k: int| 0 <= k < s.len() ==> is_digit(#[trigger] s[k]),
    ensures
        decimal(s) >= 0,
    decreases s.len(),
{
    if s.len() > 0 {
        let t = s.drop_last();
        assert forall|k: int| 0 <= k < t.len() implies is_digit(#[trigger] t[k]) by {
            assert(t[k] == s[k]);
        }
        lemma_decimal_nonneg(t);
        assert(is_digit(s[s.len() - 1]));
    }
}

/// Reads a process id written in decimal.
pub fn parse_pid(s: &str) -> (r: Option<i32>)
    ensures
        r == pid_of(s@),
{
    let n = s.unicode_len();
    if n == 0 {
        return None;
    }
    let cap: u64 = 2147483648;
    let mut acc: u64 = 0;
    let mut i: usize = 0;
    proof {
        assert(s@.subrange(0, 0) =~= Seq::<char>::empty());
    }
    while i < n
        invariant
            n == s@.len(),
            i <= n,
            cap == i32::MAX + 1,
            forall|k: int| 0 <= k < i ==> is_digit(#[trigger] s@[k]),
            acc <= cap,
            acc as int == if decimal(s@.subrange(0, i as int)) < cap {
                decimal(s@.subrange(0, i as int))
            } else {
                cap as int
            },
        decreases n - i,
    {
        let c = s.get_char(i);
        let code = c as u32;
        if code < 48 || code > 57 {
            assert(!is_digit(s@[i as int]));
            return None;
        }
        let d = (code - 48) as u64;
        let next = acc * 10 + d;
        let ghost x = decimal(s@.subrange(0, i as int));
        proof {
            let pre = s@.subrange(0, i + 1);
            assert(pre.drop_last() =~= s@.subrange(0, i as int));
            assert forall|k: int| 0 <= k < i implies is_digit(#[trigger] s@.subrange(0, i as int)[k]) by {
                assert(s@.subrange(0, i as int)[k] == s@[k]);
            }
            lemma_decimal_nonneg(s@.subrange(0, i as int));
            assert(decimal(pre) == 10 * x + d);
            let a = acc as int;
            let dd = d as int;
            let cc = cap as int;
            assert(x >= 0 && 0 <= dd <= 9 && cc > 0 && (a == if x < cc { x } else { cc }) ==> (if 10
                * a + dd < cc {
                10 * a + dd
            } else {
                cc
            }) == (if 10 * x + dd < cc {
                10 * x + dd
            } else {
                cc
            })) by (nonlinear_arith);
        }
        acc = if next < cap {
            next
        } else {
            cap
        };
        i = i + 1;
    }
    proof {
        assert(s@.subrange(0, n as int) =~= s@);
    }
    if acc == 0 || acc >= cap {
        None
    } else {
        Some(acc as i32)
    }
}

/// Whether two strings hold the same characters.
pub fn same_text(a: &str, b: &str) -> (r: bool)
    ensures
        r == (a@ == b@),
{
    let n = a.unicode_len();
    if n != b.unicode_len() {
        return false;
    }
    let mut i: usize = 0;
    while i < n
        invariant
            n == a@.len(),
            n == b@.len(),
            i <= n,
            forall|k: int| 0 <= k < i ==> a@[k] == b@[k],
        decreases n - i,
    {
        if a.get_char(i) != b.get_char(i) {
            return false;
        }
        i = i + 1;
    }
    proof {
        assert(a@ =~= b@);
    }
    true
}

/// What the shell does with a parsed command when its working directory is
/// `cwd`: a builtin, named by the exact first word of a one-stage command, or
/// else starting the programs.
pub open spec fn action_model(c: CommandModel, cwd: Seq<char>) -> Result<ActionModel, BuiltinError> {
    if c.kind == CommandKind::Pipeline {
        Ok(ActionModel::Run)
    } else if c.stages.len() == 0 || c.stages[0].len() == 0 {
        Ok(ActionModel::Nothing)
    } else {
        let ws = c.stages[0];
        let w = ws[0];
        if w == "exit"@ {
            Ok(ActionModel::Exit)
        } else if w == "pwd"@ {
            Ok(ActionModel::Pwd)
        } else if w == "cd"@ {
            if ws.len() < 2 {
                Err(BuiltinError::NoDirectory)
            } else {
                Ok(ActionModel::ChangeDir(absolute(ws[1], cwd)))
            }
        } else if w == "kill"@ {
            if ws.len() < 2 {
                Err(BuiltinError::NoPid)
            } else {
                match pid_of(ws[1]) {
                    Some(p) => Ok(ActionModel::Kill(p)),
                    None => Err(BuiltinError::BadPid),
                }
            }
        } else if w == "history"@ {
            Ok(ActionModel::ShowHistory)
        } else if w == "jobs"@ {
            Ok(ActionModel::ShowJobs)
        } else {
            Ok(ActionModel::Run)
        }
    }
}

/// Decides what the shell does with a parsed command.
pub fn dispatch(cmd: &Command, cwd: &str) -> (r: Result<Action, BuiltinError>)
    ensures
        match r {
            Ok(a) => action_model(cmd@, cwd@) == Ok::<ActionModel, BuiltinError>(a@),
            Err(e) => action_model(cmd@, cwd@) == Err::<ActionModel, BuiltinError>(e),
        },
{
    if cmd.kind == CommandKind::Pipeline {
        return Ok(Action::Run);
    }
    if cmd.stages.len() == 0 || cmd.stages[0].len() == 0 {
        return Ok(Action::Nothing);
    }
    let ws = &cmd.stages[0];
    let w = ws[0].as_str();
    assert(cmd@.stages[0] =~= crate::lexer::views(ws@));
    if same_text(w, "exit") {
        Ok(Action::Exit)
    } else if same_text(w, "pwd") {
        Ok(Action::Pwd)
    } else if same_text(w, "cd") {
        if ws.len() < 2 {
            Err(BuiltinError::NoDirectory)
        } else {
            Ok(Action::ChangeDir(absolute_path(ws[1].as_str(), cwd)))
        }
    } else if same_text(w, "kill") {
        if ws.len() < 2 {
            Err(BuiltinError::NoPid)
        } else {
            match parse_pid(ws[1].as_str()) {
                Some(p) => Ok(Action::Kill(p)),
                None => Err(BuiltinError::BadPid),
            }
        }
    } else if same_text(w, "history") {
        Ok(Action::ShowHistory)
    } else if same_text(w, "jobs") {
        Ok(Action::ShowJobs)
    } else {
        Ok(Action::Run)
    }
}

} // verus!
