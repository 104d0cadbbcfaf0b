use vstd::prelude::*;
use crate::lexer::views;

verus! {

/// Why a stage's words give no program to run.
#[derive(Clone, Copy, PartialEq, Eq, Structural, Debug)]
pub enum RedirectError {
    /// A lone `<` or `>` ends the stage: the file name is missing.
    MalformedRedirection,
    /// Once the redirections are taken out, no word is left to name a program.
    MissingProgram,
}

/// A stage's words sorted out: the program and its arguments, and the files
/// named by `<` and `>`, in order, as absolute paths. The last of each takes effect.
#[derive(Clone, Debug)]
pub struct Redirected {
    pub argv: Vec<String>,
    pub inputs: Vec<String>,
    pub outputs: Vec<String>,
}

/// The mathematical value of a `Redirected`.
pub struct RedirectedModel {
    pub argv: Seq<Seq<char>>,
    pub inputs: Seq<Seq<char>>,
    pub outputs: Seq<Seq<char>>,
}

impl View for Redirected {
    type V = RedirectedModel;

    open spec fn view(&self) -> RedirectedModel {
        RedirectedModel {
            argv: views(self.argv@),
            inputs: views(self.inputs@),
            outputs: views(self.outputs@),
        }
    }
}

/// Whether a word starts a redirection.
pub open spec fn is_marker(w: Seq<char>) -> bool {
    w.len() > 0 && (w[0] == '<' || w[0] == '>')
}

/// The path that `name` stands for when the working directory is `cwd`.
pub open spec fn absolute(name: Seq<char>, cwd: Seq<char>) -> Seq<char> {
    if name.len() > 0 && name[0] == '/' {
        name
    } else {
        cwd + seq!['/'] + name
    }
}

/// `a` followed by `b`: the words, and the files of each kind, in order.
pub open spec fn merge(a: RedirectedModel, b: RedirectedModel) -> RedirectedModel {
    RedirectedModel {
        argv: a.argv + b.argv,
        inputs: a.inputs + b.inputs,
        outputs: a.outputs + b.outputs,
    }
}

pub open spec fn no_words() -> RedirectedModel {
    RedirectedModel { argv: Seq::empty(), inputs: Seq::empty(), outputs: Seq::empty() }
}

/// How many words the redirection or word at the front of `ws` takes up.
pub open spec fn front_len(ws: Seq<Seq<char>>) -> int {
    if is_marker(ws[0]) && ws[0].len() == 1 {
        2
    } else {
        1
    }
}

/// What the redirection or word at the front of `ws` contributes.
pub open spec fn front(ws: Seq<Seq<char>>, cwd: Seq<char>) -> RedirectedModel {
    let w = ws[0];
    if is_marker(w) {
        let name = if w.len() == 1 {
            ws[1]
        } else {
            w.subrange(1, w.len() as int)
        };
        let path = absolute(name, cwd);
        if w[0] == '<' {
            RedirectedModel { argv: Seq::empty(), inputs: seq![path], outputs: Seq::empty() }
        } else {
            RedirectedModel { argv: Seq::empty(), inputs: Seq::empty(), outputs: seq![path] }
        }
    } else {
        RedirectedModel { argv: seq![w], inputs: Seq::empty(), outputs: Seq::empty() }
    }
}

/// The words of a stage sorted out, read from left to right: a word that starts
/// with `<` or `>` names a file, by its remainder or, if it is that character
/// alone, by the next word; every other word goes to the program's arguments.
pub open spec fn sort_out(ws: Seq<Seq<char>>, cwd: Seq<char>) -> Result<
    RedirectedModel,
    RedirectError,
>
    decreases ws.len(),
{
    if ws.len() == 0 {
        Ok(no_words())
    } else if front_len(ws) > ws.len() {
        Err(RedirectError::MalformedRedirection)
    } else {
        match sort_out(ws.subrange(front_len(ws), ws.len() as int), cwd) {
            Ok(rest) => Ok(merge(front(ws, cwd), rest)),
            Err(e) => Err(e),
        }
    }
}

/// What resolving a stage gives: its words sorted out, with a program to run.
pub open spec fn resolve_model(ws: Seq<Seq<char>>, cwd: Seq<char>) -> Result<
    RedirectedModel,
    RedirectError,
> {
    match sort_out(ws, cwd) {
        Ok(r) => if r.argv.len() == 0 {
            Err(RedirectError::MissingProgram)
        } else {
            Ok(r)
        },
        Err(e) => Err(e),
    }
}

/// The path that `name` stands for when the working directory is `cwd`.
pub fn absolute_path(name: &str, cwd: &str) -> (r: String)
    ensures
        r@ == absolute(name@, cwd@),
{
    if name.unicode_len() > 0 && name.get_char(0) == '/' {
        String::from_str(name)
    } else {
        let mut r = String::from_str(cwd);
        r.append("/");
        r.append(name);
        proof {
            reveal_strlit("/");
        }
        r
    }
}

proof fn lemma_merge_assoc(a: RedirectedModel, b: RedirectedModel, c: RedirectedModel)
    ensures
        merge(merge(a, b), c) == merge(a, merge(b, c)),
{
    assert(merge(merge(a, b), c).argv =~= merge(a, merge(b, c)).argv);
    assert(merge(merge(a, b), c).inputs =~= merge(a, merge(b, c)).inputs);
    assert(merge(merge(a, b), c).outputs =~= merge(a, merge(b, c)).outputs);
}

/// Sorts out the words of one stage, resolving file names against `cwd`.
pub fn resolve_stage(ws: &Vec<String>, cwd: &str) -> (r: Result<Redirected, RedirectError>)
    ensures
        match r {
            Ok(s) => resolve_model(views(ws@), cwd@) == Ok::<RedirectedModel, RedirectError>(s@),
            Err(e) => resolve_model(views(ws@), cwd@) == Err::<RedirectedModel, RedirectError>(e),
        },
{
    let ghost all = views(ws@);
    let n = ws.len();
    let mut acc = Redirected { argv: Vec::new(), inputs: Vec::new(), outputs: Vec::new() };
    let mut i: usize = 0;
    proof {
        assert(all.subrange(0, n as int) =~= all);
        let m = merge(acc@, sort_out(all, cwd@)->Ok_0);
        assert(m.argv =~= sort_out(all, cwd@)->Ok_0.argv);
        assert(m.inputs =~= sort_out(all, cwd@)->Ok_0.inputs);
        assert(m.outputs =~= sort_out(all, cwd@)->Ok_0.outputs);
    }
    while i < n
        invariant
            n == ws@.len(),
            all == views(ws@),
            i <= n,
            sort_out(all, cwd@) == match sort_out(all.subrange(i as int, n as int), cwd@) {
                Ok(rest) => Ok(merge(acc@, rest)),
                Err(e) => Err::<RedirectedModel, RedirectError>(e),
            },
        decreases n - i,
    {
        let ghost rest = all.subrange(i as int, n as int);
        let ghost before = acc@;
        let w = ws[i].as_str();
        let len = w.unicode_len();
        let first_marker = len > 0 && (w.get_char(0) == '<' || w.get_char(0) == '>');
        assert(rest[0] == w@);
        if first_marker {
            let step: usize = if len == 1 { 2 } else { 1 };
            if len == 1 && i + 1 >= n {
                return Err(RedirectError::MalformedRedirection);
            }
            let name = if len == 1 {
                ws[i + 1].as_str()
            } else {
                w.substring_char(1, len)
            };
            let path = absolute_path(name, cwd);
            if w.get_char(0) == '<' {
                acc.inputs.push(path);
            } else {
                acc.outputs.push(path);
            }
            proof {
                if len == 1 {
                    assert(rest[1] == ws@[i + 1]@);
                }
                let m = merge(before, front(rest, cwd@));
                assert(acc@.argv =~= m.argv);
                assert(acc@.inputs =~= m.inputs);
                assert(acc@.outputs =~= m.outputs);
                assert(rest.subrange(step as int, rest.len() as int) =~= all.subrange(
                    i + step,
                    n as int,
                ));
            }
            i = i + step;
        } else {
            acc.argv.push(ws[i].clone());
            proof {
                let m = merge(before, front(rest, cwd@));
                assert(acc@.argv =~= m.argv);
                assert(acc@.inputs =~= m.inputs);
                assert(acc@.outputs =~= m.outputs);
                assert(rest.subrange(1, rest.len() as int) =~= all.subrange(i + 1, n as int));
            }
            i = i + 1;
        }
        proof {
            match sort_out(all.subrange(i as int, n as int), cwd@) {
                Ok(r2) => lemma_merge_assoc(before, front(rest, cwd@), r2),
                Err(_) => {},
            }
        }
    }
    proof {
        assert(all.subrange(n as int, n as int) =~= Seq::<Seq<char>>::empty());
        assert(merge(acc@, no_words()).argv =~= acc@.argv);
        assert(merge(acc@, no_words()).inputs =~= acc@.inputs);
        assert(merge(acc@, no_words()).outputs =~= acc@.outputs);
    }
    if acc.argv.len() == 0 {
        return Err(RedirectError::MissingProgram);
    }
    Ok(acc)
}

/// Sorting out a stage's words looks at no file, so a file named by `<` need
/// not exist: it fails only where a lone `<` or `>` ends the words.
pub proof fn lemma_sort_out_ok(ws: Seq<Seq<char>>, cwd: Seq<char>)
    requires
        ws.len() > 0 ==> !(is_marker(ws.last()) && ws.last().len() == 1),
    ensures
        sort_out(ws, cwd) is Ok,
    decreases ws.len(),
{
    if ws.len() > 0 {
        let rest = ws.subrange(front_len(ws), ws.len() as int);
        if rest.len() > 0 {
            assert(rest.last() == ws.last());
        }
        lemma_sort_out_ok(rest, cwd);
    }
}

} // verus!
