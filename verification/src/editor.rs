//! The line editor: a state machine over a sequence of text lines with a
//! cursor and an incremental redraw protocol, readonly when viewing a book
//! and writable when authoring one.

use vstd::prelude::*;
use vstd::string::*;
use crate::text::{dec_chars, digit_count, fmt_usize, spaces, spaces_spec, parse_usize_spec,
    parse_usize, str_eq};

verus! {

/// Whether the editor session goes on.
#[derive(Clone, Debug, PartialEq, Eq)]
pub enum Passback {
    Quit,
    Continue,
}

/// One parsed editor command.
#[derive(Clone, Copy, Debug, PartialEq, Eq)]
pub enum Command {
    Quit,
    Help,
    Print,
    CountLines,
    LineNext(usize),
    LinePrev(usize),
    LineGotoIdx(usize),
    Insert,
    Append,
    Change,
    Delete,
}

/// What a command line means when it is not a bare or prefixed number.
pub open spec fn build_exact_spec(s: Seq<char>, num_lines: int) -> Option<Command> {
    if s == "q"@ || s == "quit"@ {
        Some(Command::Quit)
    } else if s == "?"@ || s == "h"@ || s == "help"@ {
        Some(Command::Help)
    } else if s == "p"@ {
        Some(Command::Print)
    } else if s == "l"@ {
        Some(Command::CountLines)
    } else if s == ""@ || s == "j"@ {
        Some(Command::LineNext(1))
    } else if s == "k"@ {
        Some(Command::LinePrev(1))
    } else if s == "g"@ {
        Some(Command::LineGotoIdx(0))
    } else if s == "G"@ {
        Some(
            Command::LineGotoIdx(
                if num_lines >= 1 {
                    (num_lines - 1) as usize
                } else {
                    0
                },
            ),
        )
    } else if s == "i"@ {
        Some(Command::Insert)
    } else if s == "a"@ {
        Some(Command::Append)
    } else if s == "c"@ {
        Some(Command::Change)
    } else if s == "d"@ {
        Some(Command::Delete)
    } else {
        None
    }
}

/// What a command line means: a bare number is a one-based goto, a number
/// after a movement marker is a relative move, and otherwise the line is
/// matched exactly.
pub open spec fn build_spec(s: Seq<char>, num_lines: int) -> Option<Command> {
    match parse_usize_spec(s) {
        Ok(v) => Some(
            Command::LineGotoIdx(
                if v >= 1 {
                    (v - 1) as usize
                } else {
                    0
                },
            ),
        ),
        Err(_) => if s.len() >= 1 && s[0] == 'j' && parse_usize_spec(s.skip(1)) is Ok {
            match parse_usize_spec(s.skip(1)) {
                Ok(v) => Some(Command::LineNext(v)),
                Err(_) => None,
            }
        } else if s.len() >= 1 && s[0] == 'k' && parse_usize_spec(s.skip(1)) is Ok {
            match parse_usize_spec(s.skip(1)) {
                Ok(v) => Some(Command::LinePrev(v)),
                Err(_) => None,
            }
        } else {
            build_exact_spec(s, num_lines)
        },
    }
}

impl Command {
    /// Parses one trimmed input line into an editor command.
    pub fn build(line: &str, num_lines: usize) -> (r: Option<Command>)
        ensures
            r == build_spec(line@, num_lines as int),
    {
        match parse_usize(line) {
            Ok(v) => {
                let idx = if v >= 1 {
                    v - 1
                } else {
                    0
                };
                return Some(Command::LineGotoIdx(idx));
            },
            Err(_) => {},
        }
        let len = line.unicode_len();
        if len >= 1 {
            let c0 = line.get_char(0);
            if c0 == 'j' || c0 == 'k' {
                let rest = line.substring_char(1, len);
                proof {
                    assert(rest@ =~= line@.skip(1));
                }
                match parse_usize(rest) {
                    Ok(v) => {
                        if c0 == 'j' {
                            return Some(Command::LineNext(v));
                        } else {
                            return Some(Command::LinePrev(v));
                        }
                    },
                    Err(_) => {},
                }
            }
        }
        if str_eq(line, "q") || str_eq(line, "quit") {
            Some(Command::Quit)
        } else if str_eq(line, "?") || str_eq(line, "h") || str_eq(line, "help") {
            Some(Command::Help)
        } else if str_eq(line, "p") {
            Some(Command::Print)
        } else if str_eq(line, "l") {
            Some(Command::CountLines)
        } else if str_eq(line, "") || str_eq(line, "j") {
            Some(Command::LineNext(1))
        } else if str_eq(line, "k") {
            Some(Command::LinePrev(1))
        } else if str_eq(line, "g") {
            Some(Command::LineGotoIdx(0))
        } else if str_eq(line, "G") {
            let idx = if num_lines >= 1 {
                num_lines - 1
            } else {
                0
            };
            Some(Command::LineGotoIdx(idx))
        } else if str_eq(line, "i") {
            Some(Command::Insert)
        } else if str_eq(line, "a") {
            Some(Command::Append)
        } else if str_eq(line, "c") {
            Some(Command::Change)
        } else if str_eq(line, "d") {
            Some(Command::Delete)
        } else {
            None
        }
    }
}

/// What the editor asks of its caller after taking a command.
#[derive(Clone, Copy, Debug, PartialEq, Eq)]
pub enum EditorAction {
    Nothing,
    ShowHelp,
    ShowCount(usize),
    Refused,
    InsertMode,
    ReplaceWanted,
}

/// The numbered margin before a line: the one-based line number right
/// aligned in the given column width, a separator, and a tab.
pub open spec fn margin_spec(pad: int, idx: int) -> Seq<char> {
    let linum = dec_chars((idx + 1) as nat);
    let fill: nat = if linum.len() < pad {
        (pad - linum.len()) as nat
    } else {
        0
    };
    spaces_spec(fill) + linum + " |\t"@
}

/// A rendered buffer line: margin, text, newline.
pub open spec fn fmt_line_spec(pad: int, lines: Seq<Seq<char>>, idx: int) -> Seq<char> {
    margin_spec(pad, idx) + lines[idx] + "\n"@
}

/// Which line indices a redraw prints, given the redraw anchor and the
/// cursor: the lines revealed since the anchor, and the cursor's line
/// unless it is the anchor itself.
pub open spec fn print_range_spec(prev: Option<usize>, cur: usize) -> Seq<int> {
    let start: int = match prev {
        Some(p) => p + 1,
        None => 0,
    };
    let core: Seq<int> = if start < cur {
        Seq::new((cur - start) as nat, |i: int| start + i)
    } else {
        Seq::empty()
    };
    if prev == Some(cur) {
        core
    } else {
        core.push(cur as int)
    }
}

/// Whether the previous command left the screen on a fresh prompt line, so
/// that no cursor movement is needed before redrawing.
pub open spec fn directly_printed_prev(
    prev_cmd: Option<Command>,
    prev_printed: Option<usize>,
) -> bool {
    match prev_cmd {
        Some(Command::LineGotoIdx(idx)) => match prev_printed {
            Some(p) => idx < p,
            None => false,
        },
        Some(Command::LinePrev(_)) | Some(Command::Print) | Some(Command::Insert)
            | Some(Command::Append) | Some(Command::Change) | Some(Command::Delete) | None => true,
        _ => false,
    }
}

/// The editor's state: the caller's lines, the capability flag, the cursor,
/// the redraw anchor, the margin width, and the last command taken.
pub struct Editor {
    pub lines: Vec<String>,
    pub readonly: bool,
    pub cur_line: usize,
    pub prev_line_printed: Option<usize>,
    pub linum_pad: usize,
    pub prev_cmd: Option<Command>,
}

/// What one redraw emits: whether to move the cursor up first, and the
/// rendered lines, each to be preceded by a clear-line sequence.
pub struct RenderOut {
    pub cursor_up: bool,
    pub lines: Vec<String>,
}

impl Editor {
    /// The buffer's lines as character sequences.
    pub open spec fn lines_view(&self) -> Seq<Seq<char>> {
        self.lines@.map_values(|l: String| l@)
    }

    /// Everything but the buffer, cursor, anchor and last command is kept.
    pub open spec fn same_flags(a: Editor, b: Editor) -> bool {
        &&& a.readonly == b.readonly
        &&& a.linum_pad == b.linum_pad
    }

    /// Builds an editor over the given lines.
    pub fn new(lines: Vec<String>, readonly: bool) -> (r: Editor)
        ensures
            r.lines_view() == lines@.map_values(|l: String| l@),
            r.readonly == readonly,
            r.cur_line == 0,
            r.prev_line_printed is None,
            r.prev_cmd is None,
            r.linum_pad == digit_count(lines@.len() as nat),
    {
        let mut editor = Editor {
            lines,
            readonly,
            cur_line: 0,
            prev_line_printed: None,
            linum_pad: 0,
            prev_cmd: None,
        };
        editor.recompute_pad();
        editor
    }

    /// How many lines the buffer holds.
    pub fn num_lines(&self) -> (r: usize)
        ensures
            r == self.lines@.len(),
    {
        self.lines.len()
    }

    /// Recomputes the margin width: the digit count of the line count.
    pub fn recompute_pad(&mut self)
        ensures
            final(self).linum_pad == digit_count(old(self).lines@.len() as nat),
            final(self).lines == old(self).lines,
            final(self).readonly == old(self).readonly,
            final(self).cur_line == old(self).cur_line,
            final(self).prev_line_printed == old(self).prev_line_printed,
            final(self).prev_cmd == old(self).prev_cmd,
    {
        let digits = fmt_usize(self.lines.len());
        self.linum_pad = digits.as_str().unicode_len();
    }

    /// Formats the numbered margin for a line index.
    pub fn fmt_margin(pad: usize, idx: usize) -> (r: String)
        requires
            idx < usize::MAX,
        ensures
            r@ == margin_spec(pad as int, idx as int),
    {
        let linum = fmt_usize(idx + 1);
        let digits = linum.as_str().unicode_len();
        let fill = if digits < pad {
            pad - digits
        } else {
            0
        };
        let mut r = spaces(fill);
        r.append(linum.as_str());
        r.append(" |\t");
        proof {
            assert(r@ =~= margin_spec(pad as int, idx as int));
        }
        r
    }

    /// Formats one buffer line with its margin and newline.
    pub fn fmt_line(pad: usize, lines: &Vec<String>, idx: usize) -> (r: String)
        requires
            idx < lines@.len(),
        ensures
            r@ == fmt_line_spec(pad as int, lines@.map_values(|l: String| l@), idx as int),
    {
        let n_lines = lines.len();
        assert(idx < n_lines);
        let mut r = Self::fmt_margin(pad, idx);
        r.append(lines[idx].as_str());
        r.append("\n");
        proof {
            assert(r@ =~= fmt_line_spec(pad as int, lines@.map_values(|l: String| l@), idx as int));
        }
        r
    }

    /// Clamps the cursor to a valid line, normalizing an empty buffer to
    /// one empty line.
    pub fn clamp_line(&mut self)
        ensures
            final(self).lines_view() == if old(self).lines@.len() == 0 {
                old(self).lines_view().push(Seq::<char>::empty())
            } else {
                old(self).lines_view()
            },
            final(self).cur_line == if old(self).lines@.len() == 0 {
                0int
            } else if old(self).cur_line < old(self).lines@.len() {
                old(self).cur_line as int
            } else {
                old(self).lines@.len() - 1
            },
            final(self).cur_line < final(self).lines_view().len(),
            Self::same_flags(*old(self), *final(self)),
            final(self).prev_line_printed == old(self).prev_line_printed,
            final(self).prev_cmd == old(self).prev_cmd,
    {
        let len = self.lines.len();
        let limit = if len == 0 {
            0
        } else {
            len - 1
        };
        if self.cur_line > limit {
            self.cur_line = limit;
        }
        if len == 0 {
            self.lines.push(String::new());
            proof {
                assert(self.lines_view() =~= old(self).lines_view().push(Seq::<char>::empty()));
            }
        }
    }

    /// The indices the next redraw will print.
    pub fn print_range(&self) -> (r: Vec<usize>)
        ensures
            r@.map_values(|x: usize| x as int) =~= print_range_spec(
                self.prev_line_printed,
                self.cur_line,
            ),
    {
        let mut out: Vec<usize> = Vec::new();
        let start: usize = match self.prev_line_printed {
            Some(p) => if p < usize::MAX {
                p + 1
            } else {
                p
            },
            None => 0,
        };
        let ghost start_spec: int = match self.prev_line_printed {
            Some(p) => p + 1,
            None => 0int,
        };
        let skip_cur = match self.prev_line_printed {
            Some(p) => p == self.cur_line,
            None => false,
        };
        let mut i = start;
        proof {
            if self.prev_line_printed matches Some(p) && p == usize::MAX {
                assert(start_spec >= self.cur_line);
            }
        }
        while i < self.cur_line
            invariant
                start_spec <= usize::MAX + 1,
                i <= self.cur_line || i == start,
                start_spec < self.cur_line ==> i <= self.cur_line && i >= start_spec,
                start_spec >= self.cur_line ==> out@.len() == 0 && i >= self.cur_line,
                out@.map_values(|x: usize| x as int) =~= (
                    if start_spec < self.cur_line {
                        Seq::new((i - start_spec) as nat, |k: int| start_spec + k)
                    } else {
                        Seq::<int>::empty()
                    }),
            decreases self.cur_line - i,
        {
            let ghost pre = out@;
            out.push(i);
            proof {
                assert(out@ =~= pre.push(i));
                let ghost mapped = out@.map_values(|x: usize| x as int);
                let ghost target = pre.map_values(|x: usize| x as int).push(i as int);
                assert forall|k: int| 0 <= k < mapped.len() implies #[trigger] mapped[k]
                    == target[k] by {
                    if k < pre.len() {
                        assert(out@[k] == pre[k]);
                    }
                }
                assert(mapped =~= target);
                assert(out@.map_values(|x: usize| x as int) =~= (
                    Seq::new((i + 1 - start_spec) as nat, |k: int| start_spec + k)));
            }
            i += 1;
        }
        if !skip_cur {
            let ghost pre = out@;
            out.push(self.cur_line);
            proof {
                assert(out@ =~= pre.push(self.cur_line));
                let ghost mapped = out@.map_values(|x: usize| x as int);
                let ghost target = pre.map_values(|x: usize| x as int).push(self.cur_line as int);
                assert forall|k: int| 0 <= k < mapped.len() implies #[trigger] mapped[k]
                    == target[k] by {
                    if k < pre.len() {
                        assert(out@[k] == pre[k]);
                    }
                }
                assert(mapped =~= target);
            }
        }
        proof {
            assert(out@.map_values(|x: usize| x as int) =~= print_range_spec(
                self.prev_line_printed,
                self.cur_line,
            ));
        }
        out
    }

    /// Performs one redraw step: clamps the cursor, decides whether the
    /// cursor must move up, renders exactly the lines that need printing,
    /// and advances the redraw anchor.
    pub fn render(&mut self) -> (r: RenderOut)
        ensures
            ({
                let mid_lines = if old(self).lines@.len() == 0 {
                    old(self).lines_view().push(Seq::<char>::empty())
                } else {
                    old(self).lines_view()
                };
                let ccur: int = if old(self).lines@.len() == 0 {
                    0int
                } else if old(self).cur_line < old(self).lines@.len() {
                    old(self).cur_line as int
                } else {
                    old(self).lines@.len() - 1
                };
                let range = print_range_spec(old(self).prev_line_printed, ccur as usize);
                &&& final(self).lines_view() == mid_lines
                &&& final(self).cur_line == ccur
                &&& Self::same_flags(*old(self), *final(self))
                &&& final(self).prev_cmd == old(self).prev_cmd
                &&& r.cursor_up == (!directly_printed_prev(
                    old(self).prev_cmd,
                    old(self).prev_line_printed,
                ) && range.len() > 0)
                &&& r.lines@.len() == range.len()
                &&& forall|j: int|
                    0 <= j < range.len() ==> (#[trigger] r.lines@[j])@ == fmt_line_spec(
                        old(self).linum_pad as int,
                        mid_lines,
                        range[j],
                    )
                &&& final(self).prev_line_printed == (
                    if range.len() == 0 {
                        old(self).prev_line_printed
                    } else {
                        Some(range.last() as usize)
                    })
            }),
    {
        self.clamp_line();
        let direct = match self.prev_cmd {
            Some(Command::LineGotoIdx(idx)) => match self.prev_line_printed {
                Some(p) => idx < p,
                None => false,
            },
            Some(Command::LinePrev(_)) | Some(Command::Print) | Some(Command::Insert)
                | Some(Command::Append) | Some(Command::Change) | Some(Command::Delete)
                | None => true,
            _ => false,
        };
        let range = self.print_range();
        let ghost range_spec = print_range_spec(self.prev_line_printed, self.cur_line);
        let cursor_up = !direct && range.len() > 0;
        let mut lines: Vec<String> = Vec::new();
        let mut j: usize = 0;
        proof {
            assert forall|k: int| 0 <= k < range_spec.len() implies 0 <= #[trigger] range_spec[k]
                < self.lines_view().len() by {
                if self.prev_line_printed matches Some(p) && p + 1 < self.cur_line {
                } else {
                }
            }
        }
        while j < range.len()
            invariant
                j <= range@.len(),
                range@.map_values(|x: usize| x as int) =~= range_spec,
                forall|k: int| 0 <= k < range_spec.len() ==> 0 <= #[trigger] range_spec[k]
                    < self.lines@.len(),
                lines@.len() == j,
                forall|k: int|
                    0 <= k < j ==> (#[trigger] lines@[k])@ == fmt_line_spec(
                        self.linum_pad as int,
                        self.lines_view(),
                        range_spec[k],
                    ),
            decreases range@.len() - j,
        {
            proof {
                assert(range@.map_values(|x: usize| x as int)[j as int] == range_spec[j as int]);
            }
            let line = Self::fmt_line(self.linum_pad, &self.lines, range[j]);
            lines.push(line);
            j += 1;
        }
        if range.len() > 0 {
            let last = range[range.len() - 1];
            proof {
                assert(range@.map_values(|x: usize| x as int)[range@.len() - 1] == range_spec.last());
            }
            self.prev_line_printed = Some(last);
        }
        RenderOut { cursor_up, lines }
    }
}


/// A refused editing command: the caller is told, and nothing changes but
/// the command memory.
pub open spec fn refusal_rel(
    pre: Editor,
    post: Editor,
    cmd: Command,
    r: (Passback, EditorAction),
) -> bool {
    &&& r == (Passback::Continue, EditorAction::Refused)
    &&& post.lines_view() == pre.lines_view()
    &&& post.cur_line == pre.cur_line
    &&& Editor::same_flags(pre, post)
    &&& post.prev_line_printed == pre.prev_line_printed
    &&& post.prev_cmd == Some(cmd)
}

/// Exactly what taking one command does to the editor state, and what it
/// asks of the caller.
pub open spec fn handle_cmd_rel(
    pre: Editor,
    post: Editor,
    cmd: Command,
    r: (Passback, EditorAction),
) -> bool {
    let keep = Editor::same_flags(pre, post);
    match cmd {
        Command::Quit => {
            &&& r == (Passback::Quit, EditorAction::Nothing)
            &&& keep
            &&& post.lines_view() == pre.lines_view()
            &&& post.cur_line == pre.cur_line
            &&& post.prev_line_printed == pre.prev_line_printed
            &&& post.prev_cmd == pre.prev_cmd
        },
        Command::Help => {
            &&& r == (Passback::Continue, EditorAction::ShowHelp)
            &&& keep
            &&& post.lines_view() == pre.lines_view()
            &&& post.cur_line == pre.cur_line
            &&& post.prev_line_printed == pre.prev_line_printed
            &&& post.prev_cmd == Some(Command::Help)
        },
        Command::Print => {
            &&& r == (Passback::Continue, EditorAction::Nothing)
            &&& keep
            &&& post.lines_view() == pre.lines_view()
            &&& post.cur_line == pre.cur_line
            &&& post.prev_line_printed is None
            &&& post.prev_cmd == Some(Command::Print)
        },
        Command::CountLines => {
            &&& r == (Passback::Continue, EditorAction::ShowCount(
                pre.lines_view().len() as usize,
            ))
            &&& keep
            &&& post.lines_view() == pre.lines_view()
            &&& post.cur_line == pre.cur_line
            &&& post.prev_line_printed == pre.prev_line_printed
            &&& post.prev_cmd == Some(cmd)
        },
        Command::LineNext(by) => {
            &&& r == (Passback::Continue, EditorAction::Nothing)
            &&& keep
            &&& post.lines_view() == pre.lines_view()
            &&& post.cur_line == if pre.cur_line + by > usize::MAX {
                usize::MAX as int
            } else {
                pre.cur_line + by
            }
            &&& post.prev_line_printed == pre.prev_line_printed
            &&& post.prev_cmd == Some(cmd)
        },
        Command::LinePrev(by) => {
            &&& r == (Passback::Continue, EditorAction::Nothing)
            &&& keep
            &&& post.lines_view() == pre.lines_view()
            &&& post.cur_line == if by > pre.cur_line {
                0int
            } else {
                pre.cur_line - by
            }
            &&& post.prev_line_printed == pre.prev_line_printed
            &&& post.prev_cmd == Some(cmd)
        },
        Command::LineGotoIdx(index) => {
            &&& r == (Passback::Continue, EditorAction::Nothing)
            &&& keep
            &&& post.lines_view() == pre.lines_view()
            &&& post.cur_line == index
            &&& post.prev_line_printed == Some(pre.cur_line)
            &&& post.prev_cmd == Some(cmd)
        },
        Command::Insert => if pre.readonly {
            refusal_rel(pre, post, cmd, r)
        } else {
            &&& r == (Passback::Continue, EditorAction::InsertMode)
            &&& keep
            &&& post.lines_view() == pre.lines_view()
            &&& post.cur_line == pre.cur_line
            &&& post.prev_line_printed == pre.prev_line_printed
            &&& post.prev_cmd == Some(cmd)
        },
        Command::Append => if pre.readonly {
            refusal_rel(pre, post, cmd, r)
        } else {
            &&& r == (Passback::Continue, EditorAction::InsertMode)
            &&& keep
            &&& post.lines_view() == pre.lines_view()
            &&& post.cur_line == pre.cur_line + 1
            &&& post.prev_line_printed == pre.prev_line_printed
            &&& post.prev_cmd == Some(cmd)
        },
        Command::Change => if pre.readonly {
            refusal_rel(pre, post, cmd, r)
        } else {
            &&& r == (Passback::Continue, EditorAction::ReplaceWanted)
            &&& keep
            &&& post.lines_view() == pre.lines_view()
            &&& post.cur_line == pre.cur_line
            &&& post.prev_line_printed == pre.prev_line_printed
            &&& post.prev_cmd == Some(cmd)
        },
        Command::Delete => if pre.readonly {
            refusal_rel(pre, post, cmd, r)
        } else {
            &&& r == (Passback::Continue, EditorAction::Nothing)
            &&& keep
            &&& post.lines_view() == pre.lines_view().remove(pre.cur_line as int)
            &&& post.cur_line == pre.cur_line
            &&& post.prev_line_printed is None
            &&& post.prev_cmd == Some(cmd)
        },
    }
}

impl Editor {
    /// Takes one command: moves the cursor, mutates the buffer where the
    /// command and the capability allow it, remembers the command, and
    /// tells the caller what to do next.
    pub fn handle_cmd(&mut self, cmd: Command) -> (r: (Passback, EditorAction))
        requires
            old(self).cur_line < old(self).lines@.len(),
        ensures
            handle_cmd_rel(*old(self), *final(self), cmd, r),
    {
        let action = match (self.readonly, cmd) {
            (_, Command::Quit) => {
                return (Passback::Quit, EditorAction::Nothing);
            },
            (_, Command::Help) => EditorAction::ShowHelp,
            (_, Command::Print) => {
                self.prev_line_printed = None;
                EditorAction::Nothing
            },
            (_, Command::CountLines) => EditorAction::ShowCount(self.lines.len()),
            (_, Command::LineNext(by)) => {
                self.cur_line = self.cur_line.saturating_add(by);
                EditorAction::Nothing
            },
            (_, Command::LinePrev(by)) => {
                self.cur_line = self.cur_line.saturating_sub(by);
                EditorAction::Nothing
            },
            (_, Command::LineGotoIdx(index)) => {
                self.prev_line_printed = Some(self.cur_line);
                self.cur_line = index;
                EditorAction::Nothing
            },
            (true, _) => EditorAction::Refused,
            (false, Command::Insert) => EditorAction::InsertMode,
            (false, Command::Append) => {
                let n = self.lines.len();
                assert(self.cur_line < n);
                self.cur_line = self.cur_line + 1;
                EditorAction::InsertMode
            },
            (false, Command::Change) => EditorAction::ReplaceWanted,
            (false, Command::Delete) => {
                let idx = self.cur_line;
                self.lines.remove(idx);
                self.prev_line_printed = None;
                proof {
                    assert(self.lines_view() =~= old(self).lines_view().remove(
                        old(self).cur_line as int,
                    )) by {
                        assert forall|k: int| 0 <= k < self.lines@.len() implies (
                        #[trigger] self.lines_view()[k]) == old(self).lines_view().remove(
                            old(self).cur_line as int,
                        )[k] by {
                            if k < old(self).cur_line {
                                assert(self.lines@[k] == old(self).lines@[k]);
                            } else {
                                assert(self.lines@[k] == old(self).lines@[k + 1]);
                            }
                        }
                    }
                }
                EditorAction::Nothing
            },
        };
        self.prev_cmd = Some(cmd);
        (Passback::Continue, action)
    }

    /// The numbered prompt shown while inserting or replacing at the
    /// cursor.
    pub fn current_prompt(&self) -> (r: String)
        requires
            self.cur_line < usize::MAX,
        ensures
            r@ == margin_spec(self.linum_pad as int, self.cur_line as int),
    {
        Self::fmt_margin(self.linum_pad, self.cur_line)
    }

    /// Takes one authored line: the column width is refreshed, the line is
    /// inserted at the cursor, and the cursor advances past it.
    pub fn insert_line(&mut self, line: String)
        requires
            old(self).cur_line <= old(self).lines@.len(),
            old(self).lines@.len() < usize::MAX,
        ensures
            final(self).lines_view() == old(self).lines_view().insert(
                old(self).cur_line as int,
                line@,
            ),
            final(self).cur_line == old(self).cur_line + 1,
            final(self).linum_pad == digit_count(old(self).lines@.len() as nat),
            final(self).readonly == old(self).readonly,
            final(self).prev_line_printed == old(self).prev_line_printed,
            final(self).prev_cmd == old(self).prev_cmd,
    {
        self.recompute_pad();
        let idx = self.cur_line;
        self.lines.insert(idx, line);
        proof {
            assert(self.lines_view() =~= old(self).lines_view().insert(
                old(self).cur_line as int,
                line@,
            )) by {
                assert forall|k: int| 0 <= k < self.lines@.len() implies (
                #[trigger] self.lines_view()[k]) == old(self).lines_view().insert(
                    old(self).cur_line as int,
                    line@,
                )[k] by {
                    if k < old(self).cur_line {
                        assert(self.lines@[k] == old(self).lines@[k]);
                    } else if k > old(self).cur_line {
                        assert(self.lines@[k] == old(self).lines@[k - 1]);
                    }
                }
            }
        }
        self.cur_line = idx + 1;
    }

    /// Ends the insert sub-loop: the cursor's line becomes the redraw
    /// anchor.
    pub fn end_insert(&mut self)
        ensures
            final(self).prev_line_printed == Some(old(self).cur_line),
            final(self).lines_view() == old(self).lines_view(),
            final(self).cur_line == old(self).cur_line,
            Self::same_flags(*old(self), *final(self)),
            final(self).prev_cmd == old(self).prev_cmd,
    {
        self.prev_line_printed = Some(self.cur_line);
    }

    /// Replaces the cursor's line with the authored text.
    pub fn replace_current(&mut self, line: String)
        requires
            old(self).cur_line < old(self).lines@.len(),
        ensures
            final(self).lines_view() == old(self).lines_view().update(
                old(self).cur_line as int,
                line@,
            ),
            final(self).cur_line == old(self).cur_line,
            final(self).prev_line_printed == Some(old(self).cur_line),
            Self::same_flags(*old(self), *final(self)),
            final(self).prev_cmd == old(self).prev_cmd,
    {
        let idx = self.cur_line;
        self.lines.set(idx, line);
        self.prev_line_printed = Some(idx);
        proof {
            assert(self.lines_view() =~= old(self).lines_view().update(
                old(self).cur_line as int,
                line@,
            ));
        }
    }

    /// Hands the lines back when the session is over.
    pub fn into_lines(self) -> (r: Vec<String>)
        ensures
            r@.map_values(|l: String| l@) == self.lines_view(),
    {
        self.lines
    }
}

/// Readonly refusal: in a readonly editor each editing command yields a
/// refusal and leaves the lines, the cursor and the redraw anchor
/// byte-for-byte unchanged.
pub proof fn lemma_readonly_refusal(
    pre: Editor,
    post: Editor,
    cmd: Command,
    r: (Passback, EditorAction),
)
    requires
        handle_cmd_rel(pre, post, cmd, r),
        pre.readonly,
        cmd == Command::Insert || cmd == Command::Append || cmd == Command::Change || cmd
            == Command::Delete,
    ensures
        post.lines_view() == pre.lines_view(),
        post.cur_line == pre.cur_line,
        post.prev_line_printed == pre.prev_line_printed,
        r == (Passback::Continue, EditorAction::Refused),
{
}

} // verus!
