//! The console: the lines it shows, the line being typed, and the history
//! of what was entered.

use std::collections::VecDeque;
use vstd::prelude::*;
use crate::text::{joined, push_str, split, split_text, views};

verus! {

/// Lines that the console shows, and entries that the history keeps.
pub const CONSOLE_LINES: usize = 32;

/// The last lines written to the console, and their text joined by line breaks.
pub struct ConsoleBuf {
    ring: VecDeque<String>,
    max_size: usize,
    string: String,
}

/// A command line taken apart at its spaces.
pub struct Command {
    pub name: String,
    pub args: Vec<String>,
}

/// The console.
pub struct Console {
    pub buf: ConsoleBuf,
    input: String,
    input_history: VecDeque<String>,
    input_history_cursor: usize,
}

/// What a console holds: the lines shown, oldest first; the line being
/// typed; the history, newest first; and how far back in the history the
/// typed line was taken from, 0 for "not from the history".
pub struct ConsoleView {
    pub lines: Seq<Seq<char>>,
    pub input: Seq<char>,
    pub history: Seq<Seq<char>>,
    pub cursor: nat,
}

/// `lines` with `line` appended, the oldest line dropped if that makes more
/// than [`CONSOLE_LINES`].
pub open spec fn pushed(lines: Seq<Seq<char>>, line: Seq<char>) -> Seq<Seq<char>> {
    if lines.len() >= CONSOLE_LINES {
        lines.subrange(1, lines.len() as int).push(line)
    } else {
        lines.push(line)
    }
}

/// `history` with `line` put in front, the oldest entry dropped if that
/// makes more than [`CONSOLE_LINES`].
pub open spec fn remembered(history: Seq<Seq<char>>, line: Seq<char>) -> Seq<Seq<char>> {
    let grown = seq![line] + history;
    if grown.len() > CONSOLE_LINES {
        grown.drop_last()
    } else {
        grown
    }
}

impl Command {
    /// Takes a command line apart: the text before the first space is the
    /// name, and each further piece between spaces is an argument.
    pub fn new(cmd: String) -> (c: Command)
        ensures
            c.name@ == split(cmd@, ' ')[0],
            views(c.args@) == split(cmd@, ' ').subrange(1, split(cmd@, ' ').len() as int),
    {
        let pieces = split_text(cmd.as_str(), ' ');
        proof {
            crate::text::lemma_split_pieces(cmd@, ' ');
        }
        let name = pieces[0].clone();
        let mut args: Vec<String> = Vec::new();
        let mut i: usize = 1;
        while i < pieces.len()
            invariant
                1 <= i <= pieces@.len(),
                args@.len() == i - 1,
                forall|j: int| 0 <= j < args@.len() ==> (#[trigger] args@[j])@ == pieces@[j + 1]@,
            decreases pieces@.len() - i,
        {
            args.push(pieces[i].clone());
            i += 1;
        }
        assert(views(args@) =~= views(pieces@).subrange(1, pieces@.len() as int));
        Command { name, args }
    }
}

impl ConsoleBuf {
    /// The lines shown, oldest first.
    pub closed spec fn lines(&self) -> Seq<Seq<char>> {
        views(self.ring@)
    }

    /// The buffer holds at most [`CONSOLE_LINES`] lines and its text is those
    /// lines joined by line breaks.
    pub closed spec fn wf(&self) -> bool {
        &&& self.max_size == CONSOLE_LINES
        &&& self.ring@.len() <= self.max_size
        &&& self.string@ == joined(views(self.ring@), "\n"@)
    }

    /// An empty buffer.
    pub fn new() -> (b: ConsoleBuf)
        ensures
            b.wf(),
            b.lines() == Seq::<Seq<char>>::empty(),
    {
        let b = ConsoleBuf { ring: VecDeque::new(), max_size: CONSOLE_LINES, string: String::new() };
        assert(views(b.ring@) =~= Seq::<Seq<char>>::empty());
        assert(b.string@ =~= joined(views(b.ring@), "\n"@));
        b
    }

    /// Joins the lines anew.
    fn rebuild_internal_string(&mut self)
        ensures
            final(self).ring == old(self).ring,
            final(self).max_size == old(self).max_size,
            final(self).string@ == joined(views(old(self).ring@), "\n"@),
    {
        let mut text = String::new();
        let mut i: usize = 0;
        assert(views(self.ring@).take(0) =~= Seq::<Seq<char>>::empty());
        while i < self.ring.len()
            invariant
                i <= self.ring@.len(),
                *self == *old(self),
                text@ == joined(views(self.ring@).take(i as int), "\n"@),
            decreases self.ring@.len() - i,
        {
            let ghost before = text@;
            if i > 0 {
                push_str(&mut text, "\n");
            }
            push_str(&mut text, self.ring[i].as_str());
            proof {
                let next = views(self.ring@).take(i + 1);
                assert(next.drop_last() =~= views(self.ring@).take(i as int));
                assert(next.last() == self.ring@[i as int]@);
                if i == 0 {
                    assert(before =~= Seq::<char>::empty());
                    assert(text@ =~= next[0]);
                } else {
                    assert(text@ =~= before + "\n"@ + next.last());
                }
            }
            i += 1;
        }
        assert(views(self.ring@).take(i as int) =~= views(self.ring@));
        self.string = text;
    }

    /// Appends a line; the oldest line goes where the buffer is full.
    pub fn push(&mut self, text: String)
        requires
            old(self).wf(),
        ensures
            final(self).wf(),
            final(self).lines() == pushed(old(self).lines(), text@),
    {
        let ghost before = views(self.ring@);
        self.ring.push_back(text);
        assert(views(self.ring@) =~= before.push(text@));
        if self.ring.len() > self.max_size {
            let ghost full = views(self.ring@);
            let _ = self.ring.pop_front();
            assert(views(self.ring@) =~= full.subrange(1, full.len() as int));
            assert(views(self.ring@) =~= pushed(before, text@));
        }
        self.rebuild_internal_string();
    }

    /// The text shown: the lines joined by line breaks.
    pub fn as_str(&self) -> (s: &str)
        requires
            self.wf(),
        ensures
            s@ == joined(self.lines(), "\n"@),
            self.lines().len() <= CONSOLE_LINES,
    {
        self.string.as_str()
    }
}

impl View for Console {
    type V = ConsoleView;

    closed spec fn view(&self) -> ConsoleView {
        ConsoleView {
            lines: self.buf.lines(),
            input: self.input@,
            history: views(self.input_history@),
            cursor: self.input_history_cursor as nat,
        }
    }
}

impl Console {
    /// The buffer is well-formed, the history holds at most
    /// [`CONSOLE_LINES`] entries and the cursor lies within it.
    pub closed spec fn wf(&self) -> bool {
        &&& self.buf.wf()
        &&& self.input_history@.len() <= CONSOLE_LINES
        &&& self.input_history_cursor <= self.input_history@.len()
    }

    /// A console that shows nothing and remembers nothing.
    pub fn new() -> (c: Console)
        ensures
            c.wf(),
            c@ == (ConsoleView {
                lines: Seq::empty(),
                input: Seq::empty(),
                history: Seq::empty(),
                cursor: 0,
            }),
    {
        let c = Console {
            buf: ConsoleBuf::new(),
            input: String::new(),
            input_history: VecDeque::new(),
            input_history_cursor: 0,
        };
        assert(views(c.input_history@) =~= Seq::<Seq<char>>::empty());
        c
    }

    /// The line being typed.
    pub fn input(&self) -> (s: &str)
        ensures
            s@ == self@.input,
    {
        self.input.as_str()
    }

    /// Replaces the line being typed.
    pub fn set_input(&mut self, text: String)
        requires
            old(self).wf(),
        ensures
            final(self).wf(),
            final(self)@ == (ConsoleView { input: text@, ..old(self)@ }),
    {
        self.input = text;
    }

    /// Steps one entry back in the history, as far as it reaches, and takes
    /// the typed line from there. With an empty history nothing changes.
    pub fn history_up(&mut self)
        requires
            old(self).wf(),
        ensures
            final(self).wf(),
            old(self)@.history.len() == 0 ==> final(self)@ == old(self)@,
            old(self)@.history.len() > 0 ==> {
                let cursor = if old(self)@.cursor < old(self)@.history.len() {
                    old(self)@.cursor + 1
                } else {
                    old(self)@.cursor
                };
                final(self)@ == (ConsoleView {
                    cursor: cursor as nat,
                    input: old(self)@.history[cursor - 1],
                    ..old(self)@
                })
            },
    {
        if self.input_history.len() == 0 {
            return ;
        }
        if self.input_history_cursor < self.input_history.len() {
            self.input_history_cursor += 1;
        }
        self.input = self.input_history[self.input_history_cursor - 1].clone();
    }

    /// Steps one entry forward in the history and takes the typed line from
    /// there. At the newest entry, or outside the history, nothing changes.
    pub fn history_down(&mut self)
        requires
            old(self).wf(),
        ensures
            final(self).wf(),
            old(self)@.cursor <= 1 ==> final(self)@ == old(self)@,
            old(self)@.cursor > 1 ==> final(self)@ == (ConsoleView {
                cursor: (old(self)@.cursor - 1) as nat,
                input: old(self)@.history[old(self)@.cursor - 2],
                ..old(self)@
            }),
    {
        if self.input_history_cursor > 1 {
            self.input_history_cursor -= 1;
            self.input = self.input_history[self.input_history_cursor - 1].clone();
        }
    }

    /// Enters the typed line. An empty line gives nothing and changes
    /// nothing. Any other line is shown behind `">>> "`, put in front of the
    /// history and returned as a command; the typed line is then empty.
    pub fn submit(&mut self) -> (r: Option<Command>)
        requires
            old(self).wf(),
        ensures
            final(self).wf(),
            old(self)@.input.len() == 0 ==> r.is_none() && final(self)@ == old(self)@,
            old(self)@.input.len() > 0 ==> {
                &&& r matches Some(c) && c.name@ == split(old(self)@.input, ' ')[0] && views(c.args@)
                    == split(old(self)@.input, ' ').subrange(
                    1,
                    split(old(self)@.input, ' ').len() as int,
                )
                &&& final(self)@ == (ConsoleView {
                    lines: pushed(old(self)@.lines, ">>> "@ + old(self)@.input),
                    input: Seq::empty(),
                    history: remembered(old(self)@.history, old(self)@.input),
                    cursor: 0,
                })
            },
    {
        if self.input.as_str().is_empty() {
            return None;
        }
        let mut line = String::new();
        push_str(&mut line, ">>> ");
        push_str(&mut line, self.input.as_str());
        assert(line@ =~= ">>> "@ + self.input@);
        self.buf.push(line);
        let ghost before = views(self.input_history@);
        self.input_history.push_front(self.input.clone());
        assert(views(self.input_history@) =~= seq![self.input@] + before);
        if self.input_history.len() > CONSOLE_LINES {
            let ghost grown = views(self.input_history@);
            let _ = self.input_history.pop_back();
            assert(views(self.input_history@) =~= grown.drop_last());
        }
        self.input_history_cursor = 0;
        let command = Command::new(self.input.clone());
        self.input = String::new();
        assert(self@ =~~= (ConsoleView {
            lines: pushed(old(self)@.lines, ">>> "@ + old(self)@.input),
            input: Seq::empty(),
            history: remembered(old(self)@.history, old(self)@.input),
            cursor: 0,
        }));
        Some(command)
    }
}

} // verus!
