use vstd::prelude::*;
use vstd::string::StringExecFns;
use crate::json::push_char;
use crate::tui::Tui;

verus! {

/// An issue as the viewer displays it.
pub struct Issue {
    pub id: String,
    pub title: String,
    pub status: String,
    pub level: String,
    pub culprit: String,
    pub last_seen: String,
    pub events: u32,
    pub users: u32,
}

/// A full-screen viewer for one issue: a canvas, the issue, and how far the
/// detail pane is scrolled.
pub struct IssueViewer {
    pub tui: Tui,
    pub issue: Issue,
    pub scroll_offset: u16,
}

/// The character for one decimal digit.
pub open spec fn digit_char(d: int) -> char
    recommends
        0 <= d < 10,
{
    if d == 0 { '0' }
    else if d == 1 { '1' }
    else if d == 2 { '2' }
    else if d == 3 { '3' }
    else if d == 4 { '4' }
    else if d == 5 { '5' }
    else if d == 6 { '6' }
    else if d == 7 { '7' }
    else if d == 8 { '8' }
    else { '9' }
}

/// The decimal text of a number, most significant digit first, with no
/// leading zero except for the number zero itself.
pub open spec fn dec_str_of(n: nat) -> Seq<char>
    decreases n,
{
    if n < 10 {
        seq![digit_char(n as int)]
    } else {
        dec_str_of(n / 10).push(digit_char((n % 10) as int))
    }
}

fn digit_to_char(d: u32) -> (r: char)
    requires
        d < 10,
    ensures
        r == digit_char(d as int),
{
    if d == 0 { '0' }
    else if d == 1 { '1' }
    else if d == 2 { '2' }
    else if d == 3 { '3' }
    else if d == 4 { '4' }
    else if d == 5 { '5' }
    else if d == 6 { '6' }
    else if d == 7 { '7' }
    else if d == 8 { '8' }
    else { '9' }
}

fn push_dec(s: &mut String, n: u32)
    ensures
        final(s)@ == old(s)@ + dec_str_of(n as nat),
    decreases n,
{
    if n >= 10 {
        push_dec(s, n / 10);
    }
    let ghost mid = s@;
    push_char(s, digit_to_char(n % 10));
    proof {
        if n < 10 {
            assert(s@ =~= old(s)@ + dec_str_of(n as nat));
        } else {
            assert(mid == old(s)@ + dec_str_of((n / 10) as nat));
            assert(dec_str_of(n as nat) == dec_str_of((n / 10) as nat).push(
                digit_char((n % 10) as int)));
            assert(s@ =~= old(s)@ + dec_str_of(n as nat));
        }
    }
}

/// The decimal text of a number.
pub fn u32_to_string(n: u32) -> (r: String)
    ensures
        r@ == dec_str_of(n as nat),
{
    let mut s = String::new();
    push_dec(&mut s, n);
    proof {
        assert(s@ =~= dec_str_of(n as nat));
    }
    s
}

fn labeled_line(label: &str, value: &str) -> (r: String)
    ensures
        r@ == label@ + value@,
{
    let mut s = String::from_str(label);
    s.append(value);
    s
}

impl IssueViewer {
    /// A viewer sized to the current terminal, scrolled to the top.
    pub fn new(issue: Issue) -> (r: Result<IssueViewer, ()>)
        ensures
            r is Ok ==> r.unwrap().issue == issue && r.unwrap().scroll_offset == 0,
    {
        match Tui::new() {
            Ok(tui) => Ok(IssueViewer { tui, issue, scroll_offset: 0 }),
            Err(_) => Err(()),
        }
    }

    /// A viewer over a given canvas, scrolled to the top.
    pub fn new_with_tui(issue: Issue, tui: Tui) -> (r: IssueViewer)
        ensures
            r.issue == issue,
            r.tui == tui,
            r.scroll_offset == 0,
    {
        IssueViewer { tui, issue, scroll_offset: 0 }
    }

    /// Draw the full issue screen: the outer border, the title row, a
    /// separator, the issue's fields and the key-help footer.
    pub fn render(&self) -> (r: Result<(), ()>)
        requires
            self.tui.width >= 20,
            self.tui.height >= 1,
    {
        self.tui.clear()?;

        self.tui.draw_box(0, 0, self.tui.width(), self.tui.height())?;

        self.tui.write_at(2, 1, "Issue Details")?;
        self.tui.write_at(self.tui.width() - 20, 1, "Press 'q' to quit")?;

        let mut i: u16 = 1;
        while i < self.tui.width() - 1
            invariant
                1 <= i <= self.tui.width,
            decreases self.tui.width - i,
        {
            self.tui.write_at(i, 2, "─")?;
            i = i + 1;
        }

        self.tui.write_at(2, 3, labeled_line("ID: ", self.issue.id.as_str()).as_str())?;
        self.tui.write_at(2, 4, labeled_line("Title: ", self.issue.title.as_str()).as_str())?;
        self.tui.write_at(2, 5, labeled_line("Status: ", self.issue.status.as_str()).as_str())?;
        self.tui.write_at(2, 6, labeled_line("Level: ", self.issue.level.as_str()).as_str())?;
        self.tui.write_at(2, 7, labeled_line("Culprit: ", self.issue.culprit.as_str()).as_str())?;
        self.tui.write_at(
            2,
            8,
            labeled_line("Last Seen: ", self.issue.last_seen.as_str()).as_str(),
        )?;
        self.tui.write_at(
            2,
            9,
            labeled_line("Events: ", u32_to_string(self.issue.events).as_str()).as_str(),
        )?;
        self.tui.write_at(
            2,
            10,
            labeled_line("Users Affected: ", u32_to_string(self.issue.users).as_str()).as_str(),
        )?;

        self.tui.write_at(2, self.tui.height() - 1, "j/k: scroll down/up")?;

        Ok(())
    }

    /// Scroll one row up, stopping at the top.
    pub fn scroll_up(&mut self)
        ensures
            final(self).scroll_offset == if old(self).scroll_offset > 0 {
                old(self).scroll_offset - 1
            } else {
                0
            },
            final(self).issue == old(self).issue,
            final(self).tui == old(self).tui,
    {
        if self.scroll_offset > 0 {
            self.scroll_offset = self.scroll_offset - 1;
        }
    }

    /// Scroll one row down.
    pub fn scroll_down(&mut self)
        requires
            old(self).scroll_offset < u16::MAX,
        ensures
            final(self).scroll_offset == old(self).scroll_offset + 1,
            final(self).issue == old(self).issue,
            final(self).tui == old(self).tui,
    {
        self.scroll_offset = self.scroll_offset + 1;
    }

    /// How far the detail pane is scrolled.
    pub fn scroll_offset(&self) -> (r: u16)
        ensures
            r == self.scroll_offset,
    {
        self.scroll_offset
    }
}

} // verus!
