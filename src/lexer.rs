use vstd::prelude::*;

verus! {

/// The characters that cut a line into pieces: the pipe bar between the stages
/// of a pipeline, or blanks between the words of a stage.
#[derive(Clone, Copy, PartialEq, Eq, Structural, Debug)]
pub enum Separator {
    Bar,
    Blank,
}

impl Separator {
    pub open spec fn holds(self, c: char) -> bool {
        match self {
            Separator::Bar => c == '|',
            Separator::Blank => is_blank(c),
        }
    }

    pub fn test(&self, c: char) -> (r: bool)
        ensures
            r == self.holds(c),
    {
        match self {
            Separator::Bar => c == '|',
            Separator::Blank => c == ' ' || c == '\t',
        }
    }
}

/// A character that separates words: a space, or a tab (which counts as a space).
pub open spec fn is_blank(c: char) -> bool {
    c == ' ' || c == '\t'
}

/// The views of a sequence of strings.
pub open spec fn views(v: Seq<String>) -> Seq<Seq<char>> {
    v.map_values(|s: String| s@)
}

/// The pieces of `s` between the characters on which `sep` holds, in order:
/// `k` separators give `k + 1` pieces, some of which may be empty.
pub open spec fn split_by(s: Seq<char>, sep: Separator) -> Seq<Seq<char>>
    decreases s.len(),
{
    if s.len() == 0 {
        seq![Seq::<char>::empty()]
    } else {
        let init = split_by(s.drop_last(), sep);
        if sep.holds(s.last()) {
            init.push(Seq::<char>::empty())
        } else {
            init.update(init.len() - 1, init.last().push(s.last()))
        }
    }
}

/// The non-empty pieces among `p`, in order.
pub open spec fn nonempty(p: Seq<Seq<char>>) -> Seq<Seq<char>> {
    p.filter(|w: Seq<char>| w.len() > 0)
}

/// The words of `s`: its maximal runs of characters that are not blanks.
pub open spec fn words(s: Seq<char>) -> Seq<Seq<char>> {
    nonempty(split_by(s, Separator::Blank))
}

pub proof fn lemma_split_nonempty(s: Seq<char>, sep: Separator)
    ensures
        split_by(s, sep).len() >= 1,
    decreases s.len(),
{
    if s.len() > 0 {
        lemma_split_nonempty(s.drop_last(), sep);
    }
}

/// Splitting at a separator that stands between `a` and `b` splits each side on its own.
pub proof fn lemma_split_concat(a: Seq<char>, c: char, b: Seq<char>, sep: Separator)
    requires
        sep.holds(c),
    ensures
        split_by(a + seq![c] + b, sep) == split_by(a, sep) + split_by(b, sep),
    decreases b.len(),
{
    let s = a + seq![c] + b;
    if b.len() == 0 {
        assert(s.drop_last() =~= a);
        assert(split_by(a + seq![c] + b, sep) =~= split_by(a, sep) + split_by(b, sep));
    } else {
        let b1 = b.drop_last();
        assert(s.drop_last() =~= a + seq![c] + b1);
        assert(s.last() == b.last());
        lemma_split_concat(a, c, b1, sep);
        lemma_split_nonempty(b1, sep);
        assert(split_by(s, sep) =~= split_by(a, sep) + split_by(b, sep));
    }
}

/// Without a separator in it, `s` is a single piece.
pub proof fn lemma_split_none(s: Seq<char>, sep: Separator)
    requires
        forall|k: int| 0 <= k < s.len() ==> !sep.holds(#[trigger] s[k]),
    ensures
        split_by(s, sep) == seq![s],
    decreases s.len(),
{
    if s.len() == 0 {
        assert(s =~= Seq::<char>::empty());
        assert(split_by(s, sep) =~= seq![s]);
    } else {
        let s1 = s.drop_last();
        assert forall|k: int| 0 <= k < s1.len() implies !sep.holds(#[trigger] s1[k]) by {
            assert(s1[k] == s[k]);
        }
        lemma_split_none(s1, sep);
        assert(s1.push(s.last()) =~= s);
        assert(split_by(s, sep) =~= seq![s]);
    }
}

/// A blank between `a` and `b` separates their words.
pub proof fn lemma_words_concat(a: Seq<char>, c: char, b: Seq<char>)
    requires
        is_blank(c),
    ensures
        words(a + seq![c] + b) == words(a) + words(b),
{
    lemma_split_concat(a, c, b, Separator::Blank);
    Seq::filter_distributes_over_add(
        split_by(a, Separator::Blank),
        split_by(b, Separator::Blank),
        |w: Seq<char>| w.len() > 0,
    );
}

/// The empty sequence has no words.
pub proof fn lemma_words_empty()
    ensures
        words(Seq::<char>::empty()) == Seq::<Seq<char>>::empty(),
{
    reveal_with_fuel(Seq::filter, 2);
    let e = seq![Seq::<char>::empty()];
    assert(split_by(Seq::<char>::empty(), Separator::Blank) == e);
    assert(e.drop_last() =~= Seq::<Seq<char>>::empty());
    assert(words(Seq::<char>::empty()) =~= Seq::<Seq<char>>::empty());
}

/// A word: a non-empty sequence with neither blanks nor bars in it.
pub open spec fn is_word(w: Seq<char>) -> bool {
    &&& w.len() > 0
    &&& forall|k: int| 0 <= k < w.len() ==> !is_blank(#[trigger] w[k]) && w[k] != '|'
}

/// A word is its own only word.
pub proof fn lemma_words_of_word(w: Seq<char>)
    requires
        is_word(w),
    ensures
        words(w) == seq![w],
{
    reveal(Seq::filter);
    lemma_split_none(w, Separator::Blank);
    let e = seq![w];
    assert(e.drop_last() =~= Seq::<Seq<char>>::empty());
    assert(words(w) =~= seq![w]);
}

/// `ws` joined into one sequence, with `sep` between consecutive elements.
pub open spec fn join(ws: Seq<Seq<char>>, sep: Seq<char>) -> Seq<char>
    decreases ws.len(),
{
    if ws.len() == 0 {
        Seq::empty()
    } else if ws.len() == 1 {
        ws[0]
    } else {
        join(ws.drop_last(), sep) + sep + ws.last()
    }
}

/// Words joined by single spaces split back into the same words.
pub proof fn lemma_words_join(ws: Seq<Seq<char>>)
    requires
        forall|i: int| 0 <= i < ws.len() ==> is_word(#[trigger] ws[i]),
    ensures
        words(join(ws, seq![' '])) == ws,
    decreases ws.len(),
{
    if ws.len() == 0 {
        lemma_words_empty();
    } else if ws.len() == 1 {
        lemma_words_of_word(ws[0]);
        assert(seq![ws[0]] =~= ws);
    } else {
        let init = ws.drop_last();
        lemma_words_join(init);
        lemma_words_concat(join(init, seq![' ']), ' ', ws.last());
        lemma_words_of_word(ws.last());
        assert(init + seq![ws.last()] =~= ws);
    }
}

/// Joining words with spaces adds no bar.
pub proof fn lemma_join_no_bar(ws: Seq<Seq<char>>)
    requires
        forall|i: int| 0 <= i < ws.len() ==> is_word(#[trigger] ws[i]),
    ensures
        forall|k: int|
            0 <= k < join(ws, seq![' ']).len() ==> #[trigger] join(ws, seq![' '])[k] != '|',
    decreases ws.len(),
{
    if ws.len() == 1 {
        assert(is_word(ws[0]));
    } else if ws.len() > 1 {
        let init = ws.drop_last();
        lemma_join_no_bar(init);
        let a = join(init, seq![' ']);
        let j = join(ws, seq![' ']);
        assert(is_word(ws.last()));
        assert forall|k: int| 0 <= k < j.len() implies #[trigger] j[k] != '|' by {
            if k < a.len() {
                assert(j[k] == a[k]);
            } else if k == a.len() {
                assert(j[k] == ' ');
            } else {
                assert(j[k] == ws.last()[k - a.len() - 1]);
            }
        }
    }
}

/// The last character of a join is that of its last element.
pub proof fn lemma_join_last(ws: Seq<Seq<char>>, sep: Seq<char>)
    requires
        ws.len() > 0,
        ws.last().len() > 0,
    ensures
        join(ws, sep).len() > 0,
        join(ws, sep).last() == ws.last().last(),
{
}

/// Every character of every piece is a character of `s`, and no separator.
pub proof fn lemma_split_chars(s: Seq<char>, sep: Separator, p: spec_fn(char) -> bool)
    requires
        forall|k: int| 0 <= k < s.len() ==> p(#[trigger] s[k]),
    ensures
        forall|i: int, k: int|
            0 <= i < split_by(s, sep).len() && 0 <= k < split_by(s, sep)[i].len() ==> p(
                #[trigger] split_by(s, sep)[i][k],
            ) && !sep.holds(split_by(s, sep)[i][k]),
    decreases s.len(),
{
    if s.len() > 0 {
        let t = s.drop_last();
        assert forall|k: int| 0 <= k < t.len() implies p(#[trigger] t[k]) by {
            assert(t[k] == s[k]);
        }
        lemma_split_chars(t, sep, p);
        lemma_split_nonempty(t, sep);
        let init = split_by(t, sep);
        let r = split_by(s, sep);
        assert(p(s[s.len() - 1]));
        assert forall|i: int, k: int| 0 <= i < r.len() && 0 <= k < r[i].len() implies p(
            #[trigger] r[i][k],
        ) && !sep.holds(r[i][k]) by {
            if sep.holds(s.last()) {
                if i < init.len() {
                    assert(r[i] == init[i]);
                }
            } else if i < init.len() - 1 {
                assert(r[i] == init[i]);
            } else if k < init.last().len() {
                assert(r[i][k] == init[i][k]);
            } else {
                assert(r[i][k] == s.last());
            }
        }
    }
}

/// The words of text without bars are words.
pub proof fn lemma_words_are_words(s: Seq<char>)
    requires
        forall|k: int| 0 <= k < s.len() ==> #[trigger] s[k] != '|',
    ensures
        forall|i: int| 0 <= i < words(s).len() ==> is_word(#[trigger] words(s)[i]),
{
    let sp = split_by(s, Separator::Blank);
    let pred = |w: Seq<char>| w.len() > 0;
    lemma_split_chars(s, Separator::Blank, |c: char| c != '|');
    assert forall|i: int| 0 <= i < words(s).len() implies is_word(#[trigger] words(s)[i]) by {
        let w = words(s)[i];
        sp.lemma_filter_pred(pred, i);
        assert(sp.filter(pred).contains(w));
        sp.lemma_filter_contains_rev(pred, w);
        let j = choose|j: int| 0 <= j < sp.len() && sp[j] == w;
        assert forall|k: int| 0 <= k < w.len() implies !is_blank(#[trigger] w[k]) && w[k] != '|' by {
            assert(w[k] == sp[j][k]);
        }
    }
}

/// A text that ends in no separator has a last piece that ends as it does.
pub proof fn lemma_split_last(s: Seq<char>, sep: Separator)
    requires
        s.len() > 0,
        !sep.holds(s.last()),
    ensures
        split_by(s, sep).last().len() > 0,
        split_by(s, sep).last().last() == s.last(),
{
    lemma_split_nonempty(s.drop_last(), sep);
}

/// A text that ends in a separator has an empty last piece.
pub proof fn lemma_split_last_empty(s: Seq<char>, sep: Separator)
    requires
        s.len() > 0,
        sep.holds(s.last()),
    ensures
        split_by(s, sep).last().len() == 0,
{
}

/// A text that ends in no blank has a last word that ends as it does.
pub proof fn lemma_words_last(s: Seq<char>)
    requires
        s.len() > 0,
        !is_blank(s.last()),
    ensures
        words(s).len() > 0,
        words(s).last().len() > 0,
        words(s).last().last() == s.last(),
{
    reveal(Seq::filter);
    lemma_split_last(s, Separator::Blank);
    lemma_split_nonempty(s, Separator::Blank);
    let sp = split_by(s, Separator::Blank);
    let pred = |w: Seq<char>| w.len() > 0;
    assert(pred(sp.last()));
    assert(sp.filter(pred) == sp.drop_last().filter(pred).push(sp.last()));
}

/// Splits `s` at every character on which `sep` holds.
pub fn split(s: &str, sep: Separator) -> (r: Vec<String>)
    ensures
        views(r@) == split_by(s@, sep),
{
    let n = s.unicode_len();
    let mut out: Vec<String> = Vec::new();
    let mut start: usize = 0;
    let mut i: usize = 0;
    proof {
        assert(s@.subrange(0, 0) =~= Seq::<char>::empty());
        assert(views(out@).push(s@.subrange(0, 0)) =~= split_by(Seq::<char>::empty(), sep));
    }
    while i < n
        invariant
            n == s@.len(),
            start <= i <= n,
            views(out@).push(s@.subrange(start as int, i as int)) == split_by(
                s@.subrange(0, i as int),
                sep,
            ),
        decreases n - i,
    {
        let c = s.get_char(i);
        let ghost prefix = s@.subrange(0, i as int);
        let ghost cur = s@.subrange(start as int, i as int);
        proof {
            let next = s@.subrange(0, i + 1);
            assert(next.drop_last() =~= prefix);
            assert(next.last() == c);
            lemma_split_nonempty(prefix, sep);
        }
        if sep.test(c) {
            let piece = String::from_str(s.substring_char(start, i));
            out.push(piece);
            start = i + 1;
            proof {
                assert(s@.subrange(start as int, i + 1) =~= Seq::<char>::empty());
                assert(views(out@) =~= split_by(prefix, sep));
                assert(views(out@).push(s@.subrange(start as int, i + 1)) =~= split_by(
                    s@.subrange(0, i + 1),
                    sep,
                ));
            }
        } else {
            proof {
                assert(s@.subrange(start as int, i + 1) =~= cur.push(c));
                assert(views(out@).push(s@.subrange(start as int, i + 1)) =~= split_by(
                    s@.subrange(0, i + 1),
                    sep,
                ));
            }
        }
        i = i + 1;
    }
    let last = String::from_str(s.substring_char(start, n));
    out.push(last);
    proof {
        assert(s@.subrange(0, n as int) =~= s@);
        assert(views(out@) =~= split_by(s@, sep));
    }
    out
}

/// The words of `s`, in order.
pub fn split_words(s: &str) -> (r: Vec<String>)
    ensures
        views(r@) == words(s@),
{
    let parts = split(s, Separator::Blank);
    let mut out: Vec<String> = Vec::new();
    let mut i: usize = 0;
    proof {
        reveal(Seq::filter);
        assert(views(parts@).subrange(0, 0) =~= Seq::<Seq<char>>::empty());
        assert(views(out@) =~= nonempty(views(parts@).subrange(0, 0)));
    }
    while i < parts.len()
        invariant
            i <= parts@.len(),
            views(parts@) == split_by(s@, Separator::Blank),
            views(out@) == nonempty(views(parts@).subrange(0, i as int)),
        decreases parts@.len() - i,
    {
        let ghost before = views(parts@).subrange(0, i as int);
        proof {
            assert(views(parts@).subrange(0, i + 1) =~= before.push(parts@[i as int]@));
            before.lemma_filter_push(parts@[i as int]@, |w: Seq<char>| w.len() > 0);
        }
        if parts[i].as_str().unicode_len() > 0 {
            out.push(parts[i].clone());
            proof {
                assert(views(out@) =~= nonempty(before).push(parts@[i as int]@));
            }
        }
        i = i + 1;
    }
    proof {
        assert(views(parts@).subrange(0, parts@.len() as int) =~= views(parts@));
    }
    out
}

/// `parts` joined into one string, with `sep` between consecutive parts.
pub fn join_strings(parts: &Vec<String>, sep: &str) -> (r: String)
    ensures
        r@ == join(views(parts@), sep@),
{
    let mut out = String::new();
    let mut i: usize = 0;
    proof {
        assert(out@ =~= join(views(parts@).subrange(0, 0), sep@));
    }
    while i < parts.len()
        invariant
            i <= parts@.len(),
            out@ == join(views(parts@).subrange(0, i as int), sep@),
        decreases parts@.len() - i,
    {
        let ghost before = out@;
        if i > 0 {
            out.append(sep);
        }
        out.append(parts[i].as_str());
        proof {
            let sub = views(parts@).subrange(0, i + 1);
            assert(sub.drop_last() =~= views(parts@).subrange(0, i as int));
            assert(sub.last() == parts@[i as int]@);
            if i == 0 {
                assert(out@ =~= parts@[0]@);
            } else {
                assert(out@ =~= before + sep@ + parts@[i as int]@);
            }
        }
        i = i + 1;
    }
    proof {
        assert(views(parts@).subrange(0, parts@.len() as int) =~= views(parts@));
    }
    out
}

} // verus!
