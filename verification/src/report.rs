//! A report of a profiling session: the lines of a document, which the
//! session writes out, each line ended by CR LF.

use vstd::prelude::*;

verus! {

/// The text of a report whose lines are `lines`: each line followed by
/// `"\r\n"`.
pub open spec fn report_text(lines: Seq<Seq<char>>) -> Seq<char>
    decreases lines.len(),
{
    if lines.len() == 0 {
        Seq::empty()
    } else {
        report_text(lines.drop_last()) + lines.last() + "\r\n"@
    }
}

/// The lines written so far to a report of a session.
#[derive(Debug)]
pub struct Report {
    lines: Vec<String>,
}

impl View for Report {
    type V = Seq<Seq<char>>;

    closed spec fn view(&self) -> Seq<Seq<char>> {
        self.lines@.map_values(|s: String| s@)
    }
}

impl Report {
    /// A report with no line yet.
    pub fn new() -> (r: Report)
        ensures
            r@ == Seq::<Seq<char>>::empty(),
    {
        let r = Report { lines: Vec::new() };
        assert(r@ =~= Seq::<Seq<char>>::empty());
        r
    }

    /// Appends the line `text`.
    pub fn write_line(&mut self, text: String)
        ensures
            final(self)@ == old(self)@.push(text@),
    {
        self.lines.push(text);
        assert(self@ =~= old(self)@.push(text@));
    }

    /// Appends an empty line.
    pub fn new_line(&mut self)
        ensures
            final(self)@ == old(self)@.push(Seq::<char>::empty()),
    {
        self.write_line(String::new());
    }

    /// The text to write out: every line followed by CR LF.
    pub fn text(&self) -> (s: String)
        ensures
            s@ == report_text(self@),
    {
        let mut s = String::new();
        let n = self.lines.len();
        let mut i: usize = 0;
        while i < n
            invariant
                n == self@.len(),
                n == self.lines@.len(),
                i <= n,
                s@ == report_text(self@.take(i as int)),
            decreases n - i,
        {
            s.append(self.lines[i].as_str());
            s.append("\r\n");
            proof {
                assert(self@.take(i + 1).drop_last() =~= self@.take(i as int));
                assert(self@[i as int] == self.lines@[i as int]@);
            }
            i = i + 1;
        }
        assert(self@.take(n as int) =~= self@);
        s
    }
}

} // verus!
