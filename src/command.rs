use vstd::prelude::*;
use crate::lexer::{
    is_word, join, join_strings, lemma_join_last, lemma_join_no_bar, lemma_split_concat,
    lemma_split_chars, lemma_split_last, lemma_split_last_empty, lemma_split_nonempty,
    lemma_split_none, lemma_words_are_words, lemma_words_concat, lemma_words_empty, lemma_words_join,
    lemma_words_last,
    split, split_by, split_words, views, words, Separator,
};

verus! {

/// How a line is classified once parsed.
#[derive(Clone, Copy, PartialEq, Eq, Structural, Debug)]
pub enum CommandKind {
    /// A line with no words: nothing to do.
    Null,
    /// One program with its arguments.
    Simple,
    /// Two or more stages joined by `|`.
    Pipeline,
}

/// Why a line gives no command.
#[derive(Clone, Copy, PartialEq, Eq, Structural, Debug)]
pub enum ParseError {
    /// The line has no terminating newline: input has ended.
    EndOfInput,
    /// A stage of a pipeline has no words.
    EmptyStage,
}

/// A parsed line: its stages, each a list of words, and whether it runs in the background.
#[derive(Clone, Debug)]
pub struct Command {
    pub kind: CommandKind,
    pub stages: Vec<Vec<String>>,
    pub background: bool,
}

/// The mathematical value of a `Command`.
pub struct CommandModel {
    pub kind: CommandKind,
    pub stages: Seq<Seq<Seq<char>>>,
    pub background: bool,
}

pub open spec fn stage_views(v: Seq<Vec<String>>) -> Seq<Seq<Seq<char>>> {
    v.map_values(|s: Vec<String>| views(s@))
}

impl View for Command {
    type V = CommandModel;

    open spec fn view(&self) -> CommandModel {
        CommandModel { kind: self.kind, stages: stage_views(self.stages@), background: self.background }
    }
}

/// A character that may end a line without being part of its last word:
/// blanks, and the background marker `&`.
pub open spec fn is_trailer(c: char) -> bool {
    c == ' ' || c == '\t' || c == '&'
}

pub fn trailer(c: char) -> (r: bool)
    ensures
        r == is_trailer(c),
{
    c == ' ' || c == '\t' || c == '&'
}

/// The length of the longest suffix of `s` made of trailers only.
pub open spec fn trailer_len(s: Seq<char>) -> nat
    decreases s.len(),
{
    if s.len() > 0 && is_trailer(s.last()) {
        1 + trailer_len(s.drop_last())
    } else {
        0
    }
}

/// The line without its terminating newline, if it has one.
pub open spec fn strip_terminator(line: Seq<char>) -> Option<Seq<char>> {
    if line.len() > 0 && line.last() == '\n' {
        Some(line.drop_last())
    } else {
        None
    }
}

/// What is left of a line (without its newline) once the trailers are cut off.
pub open spec fn body_of(s: Seq<char>) -> Seq<char> {
    s.subrange(0, s.len() - trailer_len(s))
}

/// Whether the trailers at the end of a line hold a background marker.
pub open spec fn background_of(s: Seq<char>) -> bool {
    s.subrange(s.len() - trailer_len(s), s.len() as int).contains('&')
}

/// The words of each `|`-separated part of `body`.
pub open spec fn stages_of(body: Seq<char>) -> Seq<Seq<Seq<char>>> {
    split_by(body, Separator::Bar).map_values(|p: Seq<char>| words(p))
}

/// What parsing a line gives.
pub open spec fn parse_model(line: Seq<char>) -> Result<CommandModel, ParseError> {
    match strip_terminator(line) {
        None => Err(ParseError::EndOfInput),
        Some(s) => {
            let background = background_of(s);
            let stages = stages_of(body_of(s));
            if stages.len() == 1 {
                if stages[0].len() == 0 {
                    Ok(CommandModel { kind: CommandKind::Null, stages: Seq::empty(), background })
                } else {
                    Ok(CommandModel { kind: CommandKind::Simple, stages, background })
                }
            } else if exists|i: int| 0 <= i < stages.len() && (#[trigger] stages[i]).len() == 0 {
                Err(ParseError::EmptyStage)
            } else {
                Ok(CommandModel { kind: CommandKind::Pipeline, stages, background })
            }
        }
    }
}

/// Parses one input line, terminating newline included.
pub fn parse_line(line: &str) -> (r: Result<Command, ParseError>)
    ensures
        match r {
            Ok(c) => parse_model(line@) == Ok::<CommandModel, ParseError>(c@),
            Err(e) => parse_model(line@) == Err::<CommandModel, ParseError>(e),
        },
{
    let n = line.unicode_len();
    if n == 0 || line.get_char(n - 1) != '\n' {
        return Err(ParseError::EndOfInput);
    }
    let ghost s = line@.drop_last();
    let mut end: usize = n - 1;
    let mut background = false;
    proof {
        assert(s.subrange(0, end as int) =~= s);
        assert(!s.subrange(end as int, s.len() as int).contains('&'));
    }
    while end > 0 && trailer(line.get_char(end - 1))
        invariant
            n == line@.len(),
            s == line@.subrange(0, n - 1),
            end <= n - 1,
            trailer_len(s) == (n - 1 - end) + trailer_len(s.subrange(0, end as int)),
            background == s.subrange(end as int, s.len() as int).contains('&'),
        decreases end,
    {
        let c = line.get_char(end - 1);
        proof {
            let pre = s.subrange(0, end as int);
            assert(pre.drop_last() =~= s.subrange(0, end - 1));
            assert(pre.last() == c);
            let tail = s.subrange(end - 1, s.len() as int);
            let old_tail = s.subrange(end as int, s.len() as int);
            assert(tail =~= seq![c] + old_tail);
            if tail.contains('&') {
                let k = choose|k: int| 0 <= k < tail.len() && tail[k] == '&';
                if k > 0 {
                    assert(old_tail[k - 1] == '&');
                }
            }
            if old_tail.contains('&') {
                let k = choose|k: int| 0 <= k < old_tail.len() && old_tail[k] == '&';
                assert(tail[k + 1] == '&');
            }
            if c == '&' {
                assert(tail[0] == '&');
            }
        }
        if c == '&' {
            background = true;
        }
        end = end - 1;
    }
    proof {
        assert(trailer_len(s.subrange(0, end as int)) == 0);
    }
    let body = line.substring_char(0, end);
    proof {
        assert(body@ =~= body_of(s));
    }
    let parts = split(body, Separator::Bar);
    proof {
        assert(strip_terminator(line@) == Some(s));
    }
    if parts.len() == 1 {
        let ws = split_words(parts[0].as_str());
        if ws.len() == 0 {
            let c = Command { kind: CommandKind::Null, stages: Vec::new(), background };
            proof {
                assert(c@.stages =~= Seq::<Seq<Seq<char>>>::empty());
            }
            return Ok(c);
        }
        let mut stages: Vec<Vec<String>> = Vec::new();
        stages.push(ws);
        let c = Command { kind: CommandKind::Simple, stages, background };
        proof {
            assert(c@.stages =~= stages_of(body_of(s)));
        }
        return Ok(c);
    }
    let mut stages: Vec<Vec<String>> = Vec::new();
    let mut i: usize = 0;
    while i < parts.len()
        invariant
            i <= parts@.len(),
            parts@.len() != 1,
            body@ == body_of(s),
            strip_terminator(line@) == Some(s),
            background == background_of(s),
            views(parts@) == split_by(body@, Separator::Bar),
            stage_views(stages@) =~= stages_of(body@).subrange(0, i as int),
            forall|j: int| 0 <= j < i ==> (#[trigger] stages_of(body@)[j]).len() > 0,
        decreases parts@.len() - i,
    {
        let ws = split_words(parts[i].as_str());
        if ws.len() == 0 {
            proof {
                assert(stages_of(body@)[i as int].len() == 0);
            }
            return Err(ParseError::EmptyStage);
        }
        let ghost before = stages@;
        stages.push(ws);
        proof {
            assert(stages@ =~= before.push(ws));
            assert(stages_of(body@).subrange(0, i + 1) =~= stages_of(body@).subrange(
                0,
                i as int,
            ).push(words(parts@[i as int]@)));
        }
        i = i + 1;
    }
    let c = Command { kind: CommandKind::Pipeline, stages, background };
    proof {
        assert(c@.stages =~= stages_of(body_of(s)));
    }
    Ok(c)
}

/// The text of each stage: its words joined by single spaces.
pub open spec fn stage_texts(stages: Seq<Seq<Seq<char>>>) -> Seq<Seq<char>> {
    stages.map_values(|t: Seq<Seq<char>>| join(t, seq![' ']))
}

/// What stands between two stages in a listing.
pub open spec fn stage_bar() -> Seq<char> {
    seq![' ', '|', ' ']
}

/// The text that stands for a command's stages: the text of each stage,
/// joined by ` | `.
pub open spec fn display_of(stages: Seq<Seq<Seq<char>>>) -> Seq<char> {
    join(stage_texts(stages), stage_bar())
}

/// Stages as the parser gives them for a non-null line: at least one stage,
/// each a non-empty list of words, and the line not ending in a background marker.
pub open spec fn well_formed(stages: Seq<Seq<Seq<char>>>) -> bool {
    &&& stages.len() > 0
    &&& forall|i: int| 0 <= i < stages.len() ==> (#[trigger] stages[i]).len() > 0
    &&& forall|i: int, j: int|
        0 <= i < stages.len() && 0 <= j < stages[i].len() ==> is_word(#[trigger] stages[i][j])
    &&& stages.last().last().last() != '&'
}

impl Command {
    /// The command as it is listed among the jobs: the words of each stage
    /// joined by spaces, the stages joined by ` | `.
    pub fn display(&self) -> (r: String)
        ensures
            r@ == display_of(self@.stages),
    {
        let mut texts: Vec<String> = Vec::new();
        let mut i: usize = 0;
        proof {
            reveal_strlit(" ");
            reveal_strlit(" | ");
        }
        while i < self.stages.len()
            invariant
                i <= self.stages@.len(),
                views(texts@) =~= stage_texts(self@.stages).subrange(0, i as int),
                " "@ == seq![' '],
            decreases self.stages@.len() - i,
        {
            let t = join_strings(&self.stages[i], " ");
            let ghost before = texts@;
            texts.push(t);
            proof {
                assert(texts@ =~= before.push(t));
                assert(self@.stages[i as int] == views(self.stages@[i as int]@));
                assert(stage_texts(self@.stages).subrange(0, i + 1) =~= stage_texts(
                    self@.stages,
                ).subrange(0, i as int).push(t@));
            }
            i = i + 1;
        }
        proof {
            assert(views(texts@) =~= stage_texts(self@.stages));
        }
        let r = join_strings(&texts, " | ");
        proof {
            assert(" | "@ =~= stage_bar());
        }
        r
    }
}

/// Pieces of text without bars, joined by ` | `, split back at the bars into
/// pieces with the same words.
proof fn lemma_split_display(texts: Seq<Seq<char>>)
    requires
        texts.len() > 0,
        forall|i: int, k: int|
            0 <= i < texts.len() && 0 <= k < texts[i].len() ==> #[trigger] texts[i][k] != '|',
    ensures
        split_by(join(texts, stage_bar()), Separator::Bar).len() == texts.len(),
        forall|i: int|
            0 <= i < texts.len() ==> words(
                #[trigger] split_by(join(texts, stage_bar()), Separator::Bar)[i],
            ) == words(texts[i]),
    decreases texts.len(),
{
    let sep3 = stage_bar();
    if texts.len() == 1 {
        assert forall|k: int| 0 <= k < texts[0].len() implies !Separator::Bar.holds(
            #[trigger] texts[0][k],
        ) by {
            assert(texts[0][k] != '|');
        }
        lemma_split_none(texts[0], Separator::Bar);
    } else {
        let init = texts.drop_last();
        let d = join(init, sep3);
        let last = texts.last();
        assert forall|i: int, k: int| 0 <= i < init.len() && 0 <= k < init[i].len() implies #[trigger] init[i][k] != '|' by {
            assert(init[i] == texts[i]);
        }
        lemma_split_display(init);
        let left = d.push(' ');
        let right = seq![' '] + last;
        assert(join(texts, sep3) =~= left + seq!['|'] + right);
        lemma_split_concat(left, '|', right, Separator::Bar);
        assert(left.drop_last() =~= d);
        lemma_split_nonempty(d, Separator::Bar);
        assert forall|k: int| 0 <= k < right.len() implies !Separator::Bar.holds(
            #[trigger] right[k],
        ) by {
            if k > 0 {
                assert(right[k] == texts[texts.len() - 1][k - 1]);
            }
        }
        lemma_split_none(right, Separator::Bar);
        let p = split_by(d, Separator::Bar);
        let q = split_by(join(texts, sep3), Separator::Bar);
        assert(q =~= p.update(p.len() - 1, p.last().push(' ')) + seq![right]);
        lemma_words_empty();
        lemma_words_concat(p.last(), ' ', Seq::<char>::empty());
        assert(p.last() + seq![' '] + Seq::<char>::empty() =~= p.last().push(' '));
        assert(words(p.last()) + Seq::<Seq<char>>::empty() =~= words(p.last()));
        lemma_words_concat(Seq::<char>::empty(), ' ', last);
        assert(Seq::<char>::empty() + seq![' '] + last =~= right);
        assert(Seq::<Seq<char>>::empty() + words(last) =~= words(last));
        assert forall|i: int| 0 <= i < texts.len() implies words(#[trigger] q[i]) == words(
            texts[i],
        ) by {
            if i < texts.len() - 1 {
                assert(init[i] == texts[i]);
                if i < p.len() - 1 {
                    assert(q[i] == p[i]);
                }
            }
        }
    }
}

/// Listing a command and parsing the listing again gives back the same stages,
/// with the same boundaries between them; only the spacing may differ.
pub proof fn lemma_display_round_trip(stages: Seq<Seq<Seq<char>>>)
    requires
        well_formed(stages),
    ensures
        parse_model(display_of(stages).push('\n')) == Ok::<CommandModel, ParseError>(
            CommandModel {
                kind: if stages.len() == 1 {
                    CommandKind::Simple
                } else {
                    CommandKind::Pipeline
                },
                stages,
                background: false,
            },
        ),
{
    let texts = stage_texts(stages);
    let d = display_of(stages);
    assert forall|i: int| 0 <= i < texts.len() implies words(#[trigger] texts[i]) == stages[i]
        && forall|k: int| 0 <= k < texts[i].len() ==> #[trigger] texts[i][k] != '|' by {
        assert forall|j: int| 0 <= j < stages[i].len() implies is_word(#[trigger] stages[i][j]) by {
        }
        lemma_words_join(stages[i]);
        lemma_join_no_bar(stages[i]);
    }
    lemma_split_display(texts);
    let n = stages.len() - 1;
    assert(stages[n].len() > 0);
    assert(is_word(stages[n][stages[n].len() - 1]));
    lemma_join_last(stages[n], seq![' ']);
    lemma_join_last(texts, stage_bar());
    assert(!is_trailer(d.last()));
    assert(trailer_len(d) == 0);
    assert(d.push('\n').drop_last() =~= d);
    assert(body_of(d) =~= d);
    assert(d.subrange(d.len() as int, d.len() as int) =~= Seq::<char>::empty());
    assert(!background_of(d));
    assert(stages_of(body_of(d)) =~= stages);
}

proof fn lemma_trailer_len(s: Seq<char>)
    ensures
        trailer_len(s) <= s.len(),
        trailer_len(s) < s.len() ==> !is_trailer(s[s.len() - trailer_len(s) - 1]),
    decreases s.len(),
{
    if s.len() > 0 && is_trailer(s.last()) {
        let t = s.drop_last();
        lemma_trailer_len(t);
        if trailer_len(s) < s.len() {
            assert(t[t.len() - trailer_len(t) - 1] == s[s.len() - trailer_len(s) - 1]);
        }
    }
}

/// Every command that the parser gives, but for the null command, is well formed.
pub proof fn lemma_parsed_well_formed(line: Seq<char>)
    requires
        parse_model(line) is Ok,
        parse_model(line)->Ok_0.kind != CommandKind::Null,
    ensures
        well_formed(parse_model(line)->Ok_0.stages),
{
    let s = line.drop_last();
    let body = body_of(s);
    let parts = split_by(body, Separator::Bar);
    let stages = parse_model(line)->Ok_0.stages;
    assert(stages == stages_of(body));
    lemma_trailer_len(s);
    lemma_split_nonempty(body, Separator::Bar);
    lemma_split_chars(body, Separator::Bar, |c: char| true);
    assert forall|i: int, j: int|
        0 <= i < stages.len() && 0 <= j < stages[i].len() implies is_word(#[trigger] stages[i][j]) by {
        assert forall|k: int| 0 <= k < parts[i].len() implies #[trigger] parts[i][k] != '|' by {
            assert(!Separator::Bar.holds(parts[i][k]));
        }
        lemma_words_are_words(parts[i]);
    }
    assert forall|i: int| 0 <= i < stages.len() implies (#[trigger] stages[i]).len() > 0 by {
        if stages.len() == 1 {
            assert(i == 0);
        }
    }
    if body.len() == 0 {
        assert(parts == seq![Seq::<char>::empty()]);
        assert(stages[0] == words(Seq::<char>::empty()));
        lemma_words_empty();
        assert(false);
    }
    let c = body.last();
    assert(c == s[s.len() - trailer_len(s) - 1]);
    assert(!is_trailer(c));
    if c == '|' {
        lemma_split_last_empty(body, Separator::Bar);
        lemma_words_empty();
        assert(parts.last() =~= Seq::<char>::empty());
        assert(stages[stages.len() - 1] == words(parts.last()));
        assert(false);
    }
    lemma_split_last(body, Separator::Bar);
    lemma_words_last(parts.last());
    assert(stages.last() == words(parts.last()));
}

/// Parsing a line, listing the command it gives, and parsing the listing again
/// gives back the same kind of command with the same stages: the boundaries
/// between stages are kept, only the spacing may differ.
pub proof fn lemma_parse_display_round_trip(line: Seq<char>)
    requires
        parse_model(line) is Ok,
        parse_model(line)->Ok_0.kind != CommandKind::Null,
    ensures
        parse_model(display_of(parse_model(line)->Ok_0.stages).push('\n')) == Ok::<
            CommandModel,
            ParseError,
        >(
            CommandModel {
                kind: parse_model(line)->Ok_0.kind,
                stages: parse_model(line)->Ok_0.stages,
                background: false,
            },
        ),
{
    lemma_parsed_well_formed(line);
    lemma_display_round_trip(parse_model(line)->Ok_0.stages);
}

} // verus!
