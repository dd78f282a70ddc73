//! What the screen shows, decided apart from the drawing: row styles, the
//! selection marker, the status line, the details pane, the confirmation
//! dialog's lines and the dialog's area.
use vstd::prelude::*;
use crate::app::{App, Row};
use crate::procs::{has_pid, proc_of};
use crate::cpu::{cpu_level, level_of, no_rate_text, rate_text, CpuLevel};
use crate::text::{decimal, i32_to_string, signed_decimal, u64_to_string, usize_to_string};
use ratatui::layout::{Constraint, Layout, Rect};

verus! {

broadcast use vstd::std_specs::hash::group_hash_axioms;

/// How a row is drawn.
#[derive(Clone, Copy, PartialEq, Eq, Debug)]
pub enum RowStyle {
    /// Part of the user's own session: greyed and struck through.
    Locked,
    /// A direct match that may be killed: plain.
    Plain,
    /// Shown only as the ancestor of a match: highlighted as context.
    Context,
}

/// The style of a row: locked when protected, plain when killable, else context.
pub fn row_style(r: &Row) -> (s: RowStyle)
    ensures
        s == (if r.protected {
            RowStyle::Locked
        } else if r.killable {
            RowStyle::Plain
        } else {
            RowStyle::Context
        }),
{
    if r.protected {
        RowStyle::Locked
    } else if r.killable {
        RowStyle::Plain
    } else {
        RowStyle::Context
    }
}

/// The mark drawn before a selected row.
pub open spec fn selected_mark() -> Seq<char> {
    "● "@
}

/// The mark drawn before an unselected row.
pub open spec fn unselected_mark() -> Seq<char> {
    "  "@
}

/// A rectangle of terminal cells.
#[derive(Clone, Copy, PartialEq, Eq, Debug)]
pub struct Area {
    pub x: u16,
    pub y: u16,
    pub width: u16,
    pub height: u16,
}

/// `a` lies within `outer`.
pub open spec fn within(a: Area, outer: Area) -> bool {
    &&& outer.x <= a.x
    &&& a.x + a.width <= outer.x + outer.width
    &&& outer.y <= a.y
    &&& a.y + a.height <= outer.y + outer.height
}

/// The areas that ratatui's layout solver gives when it splits `area` (top to
/// bottom when `vertical`, else left to right) by the percentages `first`,
/// `middle` and `last`, which together take at most the whole area.
pub uninterp spec fn percent_split(area: Area, vertical: bool, first: u16, middle: u16, last: u16) -> Seq<Area>;

/// Splits an area with `ratatui::layout::Layout::split` under three
/// `Constraint::Percentage` constraints that sum to at most 100, so that the
/// constraints can all be met and the solver's answer does not depend on how it
/// picks among equally good ones. The result is then a function of the
/// arguments alone (named `percent_split`), with one area per constraint; where
/// the areas lie is not stated here.
#[verifier::external_body]
fn split_percentages(area: Area, vertical: bool, first: u16, middle: u16, last: u16) -> (r: Vec<Area>)
    requires
        first + middle + last <= 100,
    ensures
        r@ == percent_split(area, vertical, first, middle, last),
        r@.len() == 3,
        forall|k: int| 0 <= k < 3 ==> within(#[trigger] r@[k], area),
{
    let cs = [Constraint::Percentage(first), Constraint::Percentage(middle), Constraint::Percentage(last)];
    let layout = if vertical { Layout::vertical(cs) } else { Layout::horizontal(cs) };
    let rect = Rect::new(area.x, area.y, area.width, area.height);
    layout.split(rect).iter().map(|r| Area { x: r.x, y: r.y, width: r.width, height: r.height }).collect()
}

/// The area centred in `r` that takes `percent_x` of its width and `percent_y` of its height.
pub open spec fn centered_area(percent_x: u16, percent_y: u16, r: Area) -> Area {
    let mx = ((100 - percent_x) / 2) as u16;
    let my = ((100 - percent_y) / 2) as u16;
    let band = percent_split(r, true, my, percent_y, my)[1];
    percent_split(band, false, mx, percent_x, mx)[1]
}

/// The area centred in `r` that takes `percent_x` of its width and `percent_y`
/// of its height: the middle of three vertical bands, then the middle of three
/// horizontal pieces of it.
pub fn centered_rect(percent_x: u16, percent_y: u16, r: Area) -> (c: Area)
    requires
        percent_x <= 100,
        percent_y <= 100,
    ensures
        c == centered_area(percent_x, percent_y, r),
        within(c, r),
{
    let my = (100 - percent_y) / 2;
    let v = split_percentages(r, true, my, percent_y, my);
    let mx = (100 - percent_x) / 2;
    let h = split_percentages(v[1], false, mx, percent_x, mx);
    h[1]
}

/// The status line: the message (if any) and a separator, then the counts and the key help.
pub open spec fn status_text(message: Seq<char>, shown: nat, selected: nat) -> Seq<char> {
    (if message.len() > 0 {
        message + "  ·  "@
    } else {
        Seq::empty()
    }) + decimal(shown) + " shown · "@ + decimal(selected)
        + " selected  ·  ↑↓ move · tab select · enter kill · ctrl+u clear · ctrl+r refresh · esc quit"@
}

/// The text of the details pane: the fields line and the command line.
pub open spec fn detail_text(pid: i32, ppid: i32, user: Seq<char>, cpu: Seq<char>, mem: Seq<char>, etime: Seq<char>) -> Seq<
    Seq<char>,
> {
    seq![
        " pid "@ + signed_decimal(pid as int) + " "@,
        "ppid "@ + signed_decimal(ppid as int) + " "@,
        "user "@ + user + " "@,
        "%cpu "@ + cpu + " "@,
        "%mem "@ + mem + " "@,
        "up "@ + etime,
    ]
}

/// The line of the confirmation dialog for one target: "  <pid>  <name>".
pub open spec fn target_line(pid: i32, name: Seq<char>) -> Seq<char> {
    "  "@ + signed_decimal(pid as int) + "  "@ + name
}

/// The line that counts the targets the dialog has no room for.
pub open spec fn more_line(n: nat) -> Seq<char> {
    "  … +"@ + decimal(n) + " more"@
}

/// Appends `s` to `r`.
fn append_all(r: &mut String, s: &str)
    ensures
        final(r)@ == old(r)@ + s@,
{
    r.append(s);
}

impl App {
    /// The mark before the row of `pid`: a bullet when it is selected.
    pub fn selection_marker(&self, pid: i32) -> (m: &'static str)
        ensures
            m@ == (if self.selected@.contains(pid) {
                selected_mark()
            } else {
                unselected_mark()
            }),
    {
        if self.selected.contains(&pid) {
            "● "
        } else {
            "  "
        }
    }

    /// The CPU column of the row of `pid` and its colour level: the rate from the
    /// last two refreshes, right-aligned in five columns, or a dash when the
    /// process has no rate yet.
    pub fn cpu_label(&self, pid: i32) -> (r: (String, CpuLevel))
        ensures
            if self.cpu_rates@.contains_key(pid) {
                r.0@ == rate_text(self.cpu_rates@[pid]) && r.1 == level_of(self.cpu_rates@[pid])
            } else {
                r.0@ == no_rate_text() && r.1 == CpuLevel::Calm
            },
    {
        match self.cpu_rates.get(&pid) {
            Some(rate) => {
                let mut t = u64_to_string(*rate);
                append_all(&mut t, "%");
                let n = crate::text::chars_of(t.as_str()).len();
                let mut out = String::new();
                let start: usize = if n < 5 {
                    n
                } else {
                    5
                };
                let mut i: usize = start;
                while i < 5
                    invariant
                        start <= i <= 5,
                        out@ == Seq::new((i - start) as nat, |k: int| ' '),
                    decreases 5 - i,
                {
                    append_all(&mut out, " ");
                    proof {
                        reveal_strlit(" ");
                        assert(out@ =~= Seq::new((i + 1 - start) as nat, |k: int| ' '));
                    }
                    i += 1;
                }
                let ghost pad = out@;
                append_all(&mut out, t.as_str());
                proof {
                    if n >= 5 {
                        assert(out@ =~= t@);
                    } else {
                        assert(pad =~= Seq::new((5 - t@.len()) as nat, |k: int| ' '));
                    }
                }
                (out, cpu_level(*rate))
            },
            None => {
                proof {
                    reveal_strlit("    -");
                }
                (String::from_str("    -"), CpuLevel::Calm)
            },
        }
    }

    /// The position to highlight: the cursor, kept on the last row.
    pub fn highlight_index(&self) -> (i: usize)
        ensures
            i == (if self.visible@.len() == 0 {
                0
            } else if self.cursor < self.visible@.len() {
                self.cursor as int
            } else {
                self.visible@.len() - 1
            }),
    {
        let last = if self.visible.len() > 0 {
            self.visible.len() - 1
        } else {
            0
        };
        if self.cursor < last {
            self.cursor
        } else {
            last
        }
    }

    /// The status line.
    pub fn status_line(&self) -> (s: String)
        ensures
            s@ == status_text(self.message@, self.visible@.len(), self.selected@.len()),
    {
        let mut s = String::new();
        if !self.message.as_str().is_empty() {
            append_all(&mut s, self.message.as_str());
            append_all(&mut s, "  ·  ");
        }
        append_all(&mut s, usize_to_string(self.visible.len()).as_str());
        append_all(&mut s, " shown · ");
        append_all(&mut s, usize_to_string(self.selected.len()).as_str());
        append_all(
            &mut s,
            " selected  ·  ↑↓ move · tab select · enter kill · ctrl+u clear · ctrl+r refresh · esc quit",
        );
        assert(s@ =~= status_text(self.message@, self.visible@.len(), self.selected@.len()));
        s
    }

    /// The details of the highlighted row's process (the fields, then the command
    /// line), or nothing when no listed process is highlighted.
    pub fn details(&self) -> (d: Option<(Vec<String>, String)>)
        requires
            self.procs.wf(),
        ensures
            match d {
                Some((fields, command)) => self.cursor < self.visible@.len() && has_pid(
                    self.procs@,
                    self.visible@[self.cursor as int].pid,
                ) && ({
                    let p = proc_of(self.procs@, self.visible@[self.cursor as int].pid);
                    crate::text::texts(fields@) == detail_text(
                        p.pid,
                        p.ppid,
                        p.user@,
                        p.cpu@,
                        p.mem@,
                        p.etime@,
                    ) && command@ == p.command@
                }),
                None => !(self.cursor < self.visible@.len() && has_pid(
                    self.procs@,
                    self.visible@[self.cursor as int].pid,
                )),
            },
    {
        if self.cursor >= self.visible.len() {
            return None;
        }
        let p = match self.procs.get(self.visible[self.cursor].pid) {
            Some(p) => p,
            None => {
                return None;
            },
        };
        let mut fields: Vec<String> = Vec::new();
        let mut f = String::from_str(" pid ");
        append_all(&mut f, i32_to_string(p.pid).as_str());
        append_all(&mut f, " ");
        fields.push(f);
        let mut f = String::from_str("ppid ");
        append_all(&mut f, i32_to_string(p.ppid).as_str());
        append_all(&mut f, " ");
        fields.push(f);
        let mut f = String::from_str("user ");
        append_all(&mut f, p.user.as_str());
        append_all(&mut f, " ");
        fields.push(f);
        let mut f = String::from_str("%cpu ");
        append_all(&mut f, p.cpu.as_str());
        append_all(&mut f, " ");
        fields.push(f);
        let mut f = String::from_str("%mem ");
        append_all(&mut f, p.mem.as_str());
        append_all(&mut f, " ");
        fields.push(f);
        let mut f = String::from_str("up ");
        append_all(&mut f, p.etime.as_str());
        fields.push(f);
        proof {
            assert(crate::text::texts(fields@) =~= detail_text(p.pid, p.ppid, p.user@, p.cpu@, p.mem@, p.etime@));
        }
        Some((fields, p.command.clone()))
    }

    /// The lines of the confirmation dialog for `targets` in a dialog whose inner
    /// area is `inner_height` rows high: one row is kept for the prompt and one
    /// for the overflow count, each target that fits gets a line with its pid and
    /// name (empty when it is gone), and a last line counts the targets left out.
    pub fn confirm_lines(&self, targets: &Vec<i32>, inner_height: u16) -> (lines: Vec<String>)
        requires
            self.procs.wf(),
        ensures
            ({
                let room = if inner_height >= 2 {
                    inner_height - 2
                } else {
                    0
                };
                let shown = if targets@.len() < room {
                    targets@.len() as int
                } else {
                    room as int
                };
                &&& lines@.len() == shown + (if targets@.len() > room {
                    1int
                } else {
                    0
                })
                &&& forall|i: int|
                    0 <= i < shown ==> #[trigger] lines@[i]@ == target_line(
                        targets@[i],
                        if has_pid(self.procs@, targets@[i]) {
                            proc_of(self.procs@, targets@[i]).name@
                        } else {
                            Seq::empty()
                        },
                    )
                &&& targets@.len() > room ==> lines@[shown]@ == more_line(
                    (targets@.len() - room) as nat,
                )
            }),
    {
        let list_height = inner_height.saturating_sub(1) as usize;
        let room = list_height.saturating_sub(1);
        let mut lines: Vec<String> = Vec::new();
        let mut i: usize = 0;
        while i < targets.len() && i < room
            invariant
                self.procs.wf(),
                i <= targets.len(),
                i <= room,
                room == (if inner_height >= 2 {
                    inner_height - 2
                } else {
                    0
                }),
                lines@.len() == i,
                forall|k: int|
                    0 <= k < i ==> #[trigger] lines@[k]@ == target_line(
                        targets@[k],
                        if has_pid(self.procs@, targets@[k]) {
                            proc_of(self.procs@, targets@[k]).name@
                        } else {
                            Seq::empty()
                        },
                    ),
            decreases targets.len() - i,
        {
            let pid = targets[i];
            let mut line = String::from_str("  ");
            append_all(&mut line, i32_to_string(pid).as_str());
            append_all(&mut line, "  ");
            match self.procs.get(pid) {
                Some(p) => append_all(&mut line, p.name.as_str()),
                None => {
                    proof {
                        reveal_strlit("");
                    }
                    append_all(&mut line, "")
                },
            }
            proof {
                assert(line@ =~= target_line(
                    pid,
                    if has_pid(self.procs@, pid) {
                        proc_of(self.procs@, pid).name@
                    } else {
                        Seq::empty()
                    },
                ));
            }
            lines.push(line);
            i += 1;
        }
        if targets.len() > room {
            let mut line = String::from_str("  … +");
            append_all(&mut line, usize_to_string(targets.len() - room).as_str());
            append_all(&mut line, " more");
            lines.push(line);
        }
        lines
    }
}

/// Whether the periodic reload is due: two seconds have passed since the last one.
pub fn refresh_due(elapsed_millis: u64) -> (due: bool)
    ensures
        due == (elapsed_millis >= 2000),
{
    elapsed_millis >= 2000
}

} // verus!
