use vstd::prelude::*;
use crate::command::Command;
use crate::lexer::views;
use crate::redirect::{resolve_model, resolve_stage, RedirectError, Redirected, RedirectedModel};

verus! {

/// Where a stage's standard input or output is bound.
#[derive(Clone, Debug)]
pub enum Endpoint {
    /// The shell's own stream, unchanged.
    Inherit,
    /// The read end of the pipe with this index.
    PipeRead(usize),
    /// The write end of the pipe with this index.
    PipeWrite(usize),
    /// The file at this absolute path.
    File(String),
}

/// The mathematical value of an `Endpoint`.
pub enum EndpointModel {
    Inherit,
    PipeRead(nat),
    PipeWrite(nat),
    File(Seq<char>),
}

impl View for Endpoint {
    type V = EndpointModel;

    open spec fn view(&self) -> EndpointModel {
        match self {
            Endpoint::Inherit => EndpointModel::Inherit,
            Endpoint::PipeRead(k) => EndpointModel::PipeRead(*k as nat),
            Endpoint::PipeWrite(k) => EndpointModel::PipeWrite(*k as nat),
            Endpoint::File(p) => EndpointModel::File(p@),
        }
    }
}

/// All that is needed to start one stage: the program and its arguments,
/// where its standard streams go, and the files to create before it starts.
#[derive(Clone, Debug)]
pub struct Launch {
    pub argv: Vec<String>,
    pub input: Endpoint,
    pub output: Endpoint,
    pub create: Vec<String>,
}

/// The mathematical value of a `Launch`.
pub struct LaunchModel {
    pub argv: Seq<Seq<char>>,
    pub input: EndpointModel,
    pub output: EndpointModel,
    pub create: Seq<Seq<char>>,
}

impl View for Launch {
    type V = LaunchModel;

    open spec fn view(&self) -> LaunchModel {
        LaunchModel {
            argv: views(self.argv@),
            input: self.input@,
            output: self.output@,
            create: views(self.create@),
        }
    }
}

/// Standard input of stage `i`: the last file named by `<`, else the pipe
/// from the stage before, else the shell's own input.
pub open spec fn input_of(r: RedirectedModel, i: nat) -> EndpointModel {
    if r.inputs.len() > 0 {
        EndpointModel::File(r.inputs.last())
    } else if i > 0 {
        EndpointModel::PipeRead((i - 1) as nat)
    } else {
        EndpointModel::Inherit
    }
}

/// Standard output of stage `i` of `n`: the last file named by `>`, else the
/// pipe to the stage after, else the shell's own output.
pub open spec fn output_of(r: RedirectedModel, i: nat, n: nat) -> EndpointModel {
    if r.outputs.len() > 0 {
        EndpointModel::File(r.outputs.last())
    } else if i + 1 < n {
        EndpointModel::PipeWrite(i)
    } else {
        EndpointModel::Inherit
    }
}

/// How stage `i` of `n`, with words `ws`, is started. Every file named by `>`
/// is created, the earlier ones too.
pub open spec fn plan_model(ws: Seq<Seq<char>>, cwd: Seq<char>, i: nat, n: nat) -> Result<
    LaunchModel,
    RedirectError,
> {
    match resolve_model(ws, cwd) {
        Ok(r) => Ok(
            LaunchModel {
                argv: r.argv,
                input: input_of(r, i),
                output: output_of(r, i, n),
                create: r.outputs,
            },
        ),
        Err(e) => Err(e),
    }
}

/// Whether `r` is the value of `m`.
pub open spec fn plan_is(r: Result<Launch, RedirectError>, m: Result<LaunchModel, RedirectError>) -> bool {
    match r {
        Ok(l) => m == Ok::<LaunchModel, RedirectError>(l@),
        Err(e) => m == Err::<LaunchModel, RedirectError>(e),
    }
}

/// How many pipes a command with `n` stages needs.
pub open spec fn pipes_for(n: nat) -> nat {
    if n > 0 {
        (n - 1) as nat
    } else {
        0
    }
}

pub fn pipe_count(cmd: &Command) -> (r: usize)
    ensures
        r == pipes_for(cmd@.stages.len()),
{
    if cmd.stages.len() > 0 {
        cmd.stages.len() - 1
    } else {
        0
    }
}

/// How stage `i` of `n`, with words `ws`, is started.
pub fn plan_stage(ws: &Vec<String>, cwd: &str, i: usize, n: usize) -> (r: Result<
    Launch,
    RedirectError,
>)
    requires
        i < n,
    ensures
        plan_is(r, plan_model(views(ws@), cwd@, i as nat, n as nat)),
{
    match resolve_stage(ws, cwd) {
        Ok(red) => {
            let input = if red.inputs.len() > 0 {
                Endpoint::File(red.inputs[red.inputs.len() - 1].clone())
            } else if i > 0 {
                Endpoint::PipeRead(i - 1)
            } else {
                Endpoint::Inherit
            };
            let output = if red.outputs.len() > 0 {
                Endpoint::File(red.outputs[red.outputs.len() - 1].clone())
            } else if i + 1 < n {
                Endpoint::PipeWrite(i)
            } else {
                Endpoint::Inherit
            };
            let Redirected { argv, inputs: _, outputs } = red;
            Ok(Launch { argv, input, output, create: outputs })
        },
        Err(e) => Err(e),
    }
}

/// How each stage of a command is started, in order; a stage whose
/// redirections are malformed, or that names no program, gives its error.
pub fn plan_command(cmd: &Command, cwd: &str) -> (r: Vec<Result<Launch, RedirectError>>)
    ensures
        r@.len() == cmd@.stages.len(),
        forall|i: int|
            0 <= i < r@.len() ==> plan_is(
                #[trigger] r@[i],
                plan_model(cmd@.stages[i], cwd@, i as nat, cmd@.stages.len()),
            ),
{
    let n = cmd.stages.len();
    let mut out: Vec<Result<Launch, RedirectError>> = Vec::new();
    let mut i: usize = 0;
    while i < n
        invariant
            n == cmd@.stages.len(),
            i <= n,
            out@.len() == i,
            forall|j: int|
                0 <= j < i ==> plan_is(
                    #[trigger] out@[j],
                    plan_model(cmd@.stages[j], cwd@, j as nat, n as nat),
                ),
        decreases n - i,
    {
        let p = plan_stage(&cmd.stages[i], cwd, i, n);
        out.push(p);
        i = i + 1;
    }
    out
}

/// A stage with no redirection, alone on its line, keeps the shell's own
/// standard input and output.
pub proof fn lemma_lone_stage_inherits(r: RedirectedModel)
    requires
        r.inputs.len() == 0,
        r.outputs.len() == 0,
    ensures
        input_of(r, 0) == EndpointModel::Inherit,
        output_of(r, 0, 1) == EndpointModel::Inherit,
{
}

/// In a pipeline, pipe `k` is written by stage `k` alone and read by stage
/// `k + 1` alone; between two stages without redirections, what the first
/// writes goes through that pipe to the second.
pub proof fn lemma_pipe_joins_neighbours(a: RedirectedModel, b: RedirectedModel, k: nat, n: nat)
    requires
        k + 1 < n,
    ensures
        forall|j: nat| output_of(a, j, n) == EndpointModel::PipeWrite(k) ==> j == k,
        forall|j: nat| input_of(b, j) == EndpointModel::PipeRead(k) ==> j == k + 1,
        a.outputs.len() == 0 ==> output_of(a, k, n) == EndpointModel::PipeWrite(k),
        b.inputs.len() == 0 ==> input_of(b, k + 1) == EndpointModel::PipeRead(k),
{
}

/// The pipe descriptors that the shell holds while it starts a pipeline:
/// pipe `k` has its read end at `2k` and its write end at `2k + 1`.
pub struct PipeSet {
    fds: Vec<i32>,
}

impl View for PipeSet {
    type V = Seq<i32>;

    closed spec fn view(&self) -> Seq<i32> {
        self.fds@
    }
}

impl PipeSet {
    pub fn new() -> (r: PipeSet)
        ensures
            r@ == Seq::<i32>::empty(),
    {
        PipeSet { fds: Vec::new() }
    }

    /// Takes hold of a new pipe's two ends.
    pub fn add(&mut self, read: i32, write: i32)
        ensures
            final(self)@ == old(self)@.push(read).push(write),
    {
        self.fds.push(read);
        self.fds.push(write);
    }

    /// How many pipes are held.
    pub fn len(&self) -> (r: usize)
        ensures
            r == self@.len() / 2,
    {
        self.fds.len() / 2
    }

    /// The read end of pipe `k`.
    pub fn read_end(&self, k: usize) -> (r: i32)
        requires
            2 * k + 1 < self@.len(),
        ensures
            r == self@[2 * k],
    {
        let held = self.fds.len();
        assert(2 * k + 1 < held);
        self.fds[2 * k]
    }

    /// The write end of pipe `k`.
    pub fn write_end(&self, k: usize) -> (r: i32)
        requires
            2 * k + 1 < self@.len(),
        ensures
            r == self@[2 * k + 1],
    {
        let held = self.fds.len();
        assert(2 * k + 1 < held);
        self.fds[2 * k + 1]
    }

    /// Every descriptor held, for a child to close once it has bound its own.
    pub fn descriptors(&self) -> (r: Vec<i32>)
        ensures
            r@ == self@,
    {
        self.fds.clone()
    }

    /// Gives up every descriptor held, each once, to be closed: afterwards none
    /// is held.
    pub fn release(&mut self) -> (r: Vec<i32>)
        ensures
            r@ == old(self)@,
            final(self)@.len() == 0,
    {
        let r = self.fds.clone();
        self.fds = Vec::new();
        r
    }
}

} // verus!
