use vstd::prelude::*;

verus! {

/// One line of the history as it is listed, with its number.
#[derive(Clone, Debug)]
pub struct Entry {
    pub number: usize,
    pub line: String,
}

/// The lines read so far, in order, the current one last.
pub struct History {
    lines: Vec<String>,
}

impl View for History {
    type V = Seq<Seq<char>>;

    closed spec fn view(&self) -> Seq<Seq<char>> {
        self.lines@.map_values(|s: String| s@)
    }
}

/// What listing the history shows: every line before the current one,
/// numbered from 1.
pub open spec fn listing(lines: Seq<Seq<char>>) -> Seq<(nat, Seq<char>)> {
    let n: nat = if lines.len() > 0 {
        (lines.len() - 1) as nat
    } else {
        0
    };
    Seq::new(n, |i: int| ((i + 1) as nat, lines[i]))
}

pub open spec fn entry_views(v: Seq<Entry>) -> Seq<(nat, Seq<char>)> {
    v.map_values(|e: Entry| (e.number as nat, e.line@))
}

impl History {
    pub fn new() -> (r: History)
        ensures
            r@ == Seq::<Seq<char>>::empty(),
    {
        let r = History { lines: Vec::new() };
        proof {
            assert(r@ =~= Seq::<Seq<char>>::empty());
        }
        r
    }

    /// Appends a line as it was read.
    pub fn record(&mut self, line: &str)
        ensures
            final(self)@ == old(self)@.push(line@),
    {
        let ghost before = self.lines@;
        self.lines.push(String::from_str(line));
        proof {
            assert(self@ =~= before.map_values(|s: String| s@).push(line@));
        }
    }

    /// The lines before the current one, numbered from 1.
    pub fn prior(&self) -> (r: Vec<Entry>)
        ensures
            entry_views(r@) == listing(self@),
    {
        let n = if self.lines.len() > 0 {
            self.lines.len() - 1
        } else {
            0
        };
        let mut out: Vec<Entry> = Vec::new();
        let mut i: usize = 0;
        while i < n
            invariant
                n == listing(self@).len(),
                n <= self.lines@.len(),
                i <= n,
                entry_views(out@) =~= listing(self@).subrange(0, i as int),
            decreases n - i,
        {
            let ghost before = out@;
            out.push(Entry { number: i + 1, line: self.lines[i].clone() });
            proof {
                assert(entry_views(out@) =~= entry_views(before).push(((i + 1) as nat, self@[i as int])));
            }
            i = i + 1;
        }
        proof {
            assert(listing(self@).subrange(0, n as int) =~= listing(self@));
        }
        out
    }
}

/// Once a line is recorded, listing the history shows exactly the lines
/// before it, numbered from 1, and not the line itself.
pub proof fn lemma_listing_excludes_current(lines: Seq<Seq<char>>, current: Seq<char>)
    ensures
        listing(lines.push(current)).len() == lines.len(),
        forall|i: int|
            0 <= i < lines.len() ==> #[trigger] listing(lines.push(current))[i] == ((i + 1) as nat, lines[i]),
{
}

} // verus!
