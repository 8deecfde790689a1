//! Tools, keys, and what they ask for.

use vstd::prelude::*;

use crate::types::{KindView, StrokeKind};

verus! {

#[derive(Clone, Copy, Debug, PartialEq, Eq, Structural)]
pub enum Tool {
    Pen,
    Line,
    Rect,
    Ellipse,
    Text,
    Eraser,
    Pan,
}

impl Tool {
    pub open spec fn name(self) -> Seq<char> {
        match self {
            Tool::Pen => "✏ Pen"@,
            Tool::Line => "╱ Line"@,
            Tool::Rect => "▭ Rect"@,
            Tool::Ellipse => "◯ Ellipse"@,
            Tool::Text => "T Text"@,
            Tool::Eraser => "◻ Eraser"@,
            Tool::Pan => "✋ Pan"@,
        }
    }

    pub open spec fn key(self) -> Seq<char> {
        match self {
            Tool::Pen => "P"@,
            Tool::Line => "L"@,
            Tool::Rect => "R"@,
            Tool::Ellipse => "O"@,
            Tool::Text => "T"@,
            Tool::Eraser => "E"@,
            Tool::Pan => "H"@,
        }
    }

    pub fn label(self) -> (r: &'static str)
        ensures
            r@ == self.name(),
    {
        match self {
            Tool::Pen => "✏ Pen",
            Tool::Line => "╱ Line",
            Tool::Rect => "▭ Rect",
            Tool::Ellipse => "◯ Ellipse",
            Tool::Text => "T Text",
            Tool::Eraser => "◻ Eraser",
            Tool::Pan => "✋ Pan",
        }
    }

    pub fn hotkey(self) -> (r: &'static str)
        ensures
            r@ == self.key(),
    {
        match self {
            Tool::Pen => "P",
            Tool::Line => "L",
            Tool::Rect => "R",
            Tool::Ellipse => "O",
            Tool::Text => "T",
            Tool::Eraser => "E",
            Tool::Pan => "H",
        }
    }

    /// Every tool, in toolbar order.
    pub fn all() -> (r: [Tool; 7])
        ensures
            r@ == seq![
                Tool::Pen,
                Tool::Line,
                Tool::Rect,
                Tool::Ellipse,
                Tool::Text,
                Tool::Eraser,
                Tool::Pan,
            ],
    {
        let r = [
            Tool::Pen,
            Tool::Line,
            Tool::Rect,
            Tool::Ellipse,
            Tool::Text,
            Tool::Eraser,
            Tool::Pan,
        ];
        assert(r@ =~= seq![
            Tool::Pen,
            Tool::Line,
            Tool::Rect,
            Tool::Ellipse,
            Tool::Text,
            Tool::Eraser,
            Tool::Pan,
        ]);
        r
    }

    /// What a drag with the tool draws; freehand for the tools that draw
    /// nothing else.
    pub open spec fn draws(self) -> KindView {
        match self {
            Tool::Line => KindView::Line,
            Tool::Rect => KindView::Rect,
            Tool::Ellipse => KindView::Ellipse,
            _ => KindView::Freehand,
        }
    }

    /// What a drag with the tool draws.
    pub fn kind(self) -> (r: StrokeKind)
        ensures
            r@ == self.draws(),
    {
        match self {
            Tool::Line => StrokeKind::Line,
            Tool::Rect => StrokeKind::Rect,
            Tool::Ellipse => StrokeKind::Ellipse,
            _ => StrokeKind::Freehand,
        }
    }
}

/// The keys with a meaning on the canvas.
#[derive(Clone, Copy, Debug, PartialEq, Eq, Structural)]
pub enum KeyName {
    Z,
    Y,
    Backspace,
    Num0,
    P,
    L,
    R,
    O,
    T,
    E,
    H,
    OpenBracket,
    CloseBracket,
}

/// A key that went down, with what was held beside it.
#[derive(Clone, Copy, Debug)]
pub struct Press {
    pub key: KeyName,
    /// Ctrl, or the command key of a Mac.
    pub command: bool,
    pub ctrl: bool,
    pub shift: bool,
}

/// The keys pressed since the last frame.
#[derive(Debug)]
pub struct Keys {
    /// A focused text field (e.g. the label being typed) owns the keyboard.
    pub owned: bool,
    /// The space bar is held down.
    pub space: bool,
    pub presses: Vec<Press>,
}

/// Something the user asked for.
#[derive(Clone, Copy, Debug, PartialEq, Eq, Structural)]
pub enum Command {
    Undo,
    Redo,
    Clear,
    Select(Tool),
    /// Brush width (text size for the Text tool).
    Narrower,
    Wider,
    ResetView,
}

impl Press {
    /// Neither Ctrl nor the command key was held.
    pub open spec fn plain(self) -> bool {
        !self.command && !self.ctrl
    }

    /// What the key asks for. Shift tells redo from undo; where it has no
    /// meaning it does not matter.
    pub open spec fn asks(self) -> Option<Command> {
        match self.key {
            KeyName::Z => if !self.command {
                None
            } else if self.shift {
                Some(Command::Redo)
            } else {
                Some(Command::Undo)
            },
            KeyName::Y => if self.command {
                Some(Command::Redo)
            } else {
                None
            },
            KeyName::Backspace => if self.command && self.shift {
                Some(Command::Clear)
            } else {
                None
            },
            KeyName::Num0 => if self.command || self.plain() {
                Some(Command::ResetView)
            } else {
                None
            },
            KeyName::P => self.plainly(Command::Select(Tool::Pen)),
            KeyName::L => self.plainly(Command::Select(Tool::Line)),
            KeyName::R => self.plainly(Command::Select(Tool::Rect)),
            KeyName::O => self.plainly(Command::Select(Tool::Ellipse)),
            KeyName::T => self.plainly(Command::Select(Tool::Text)),
            KeyName::E => self.plainly(Command::Select(Tool::Eraser)),
            KeyName::H => self.plainly(Command::Select(Tool::Pan)),
            KeyName::OpenBracket => self.plainly(Command::Narrower),
            KeyName::CloseBracket => self.plainly(Command::Wider),
        }
    }

    pub open spec fn plainly(self, command: Command) -> Option<Command> {
        if self.plain() {
            Some(command)
        } else {
            None
        }
    }

    /// What the key asks for, if anything.
    pub fn meaning(&self) -> (r: Option<Command>)
        ensures
            r == self.asks(),
    {
        let plain = match self.key {
            KeyName::Z => {
                return if !self.command {
                    None
                } else if self.shift {
                    Some(Command::Redo)
                } else {
                    Some(Command::Undo)
                };
            },
            KeyName::Y => {
                return if self.command {
                    Some(Command::Redo)
                } else {
                    None
                };
            },
            KeyName::Backspace => {
                return if self.command && self.shift {
                    Some(Command::Clear)
                } else {
                    None
                };
            },
            KeyName::Num0 => {
                return if self.command || !self.ctrl {
                    Some(Command::ResetView)
                } else {
                    None
                };
            },
            KeyName::P => Command::Select(Tool::Pen),
            KeyName::L => Command::Select(Tool::Line),
            KeyName::R => Command::Select(Tool::Rect),
            KeyName::O => Command::Select(Tool::Ellipse),
            KeyName::T => Command::Select(Tool::Text),
            KeyName::E => Command::Select(Tool::Eraser),
            KeyName::H => Command::Select(Tool::Pan),
            KeyName::OpenBracket => Command::Narrower,
            KeyName::CloseBracket => Command::Wider,
        };
        if !self.command && !self.ctrl {
            Some(plain)
        } else {
            None
        }
    }
}

impl Keys {
    /// Whether some key asks for a command.
    pub open spec fn ask(self, command: Command) -> bool {
        exists|i: int|
            0 <= i < self.presses@.len() && (#[trigger] self.presses@[i]).asks() == Some(command)
    }

    /// The tool whose key was pressed; of several, the last in toolbar order.
    pub open spec fn tool(self) -> Option<Tool> {
        if self.ask(Command::Select(Tool::Pan)) {
            Some(Tool::Pan)
        } else if self.ask(Command::Select(Tool::Eraser)) {
            Some(Tool::Eraser)
        } else if self.ask(Command::Select(Tool::Text)) {
            Some(Tool::Text)
        } else if self.ask(Command::Select(Tool::Ellipse)) {
            Some(Tool::Ellipse)
        } else if self.ask(Command::Select(Tool::Rect)) {
            Some(Tool::Rect)
        } else if self.ask(Command::Select(Tool::Line)) {
            Some(Tool::Line)
        } else if self.ask(Command::Select(Tool::Pen)) {
            Some(Tool::Pen)
        } else {
            None
        }
    }

    /// What the keys ask for, in the order in which it is done. What is asked
    /// for twice is done once; to widen wins over to narrow.
    pub open spec fn commands(self) -> Seq<Command> {
        if self.owned {
            Seq::empty()
        } else {
            only_if(self.ask(Command::Undo), Command::Undo) + only_if(
                self.ask(Command::Redo),
                Command::Redo,
            ) + only_if(self.ask(Command::Clear), Command::Clear) + (match self.tool() {
                Some(tool) => seq![Command::Select(tool)],
                None => Seq::empty(),
            }) + (if self.ask(Command::Wider) {
                seq![Command::Wider]
            } else {
                only_if(self.ask(Command::Narrower), Command::Narrower)
            }) + only_if(self.ask(Command::ResetView), Command::ResetView)
        }
    }

    pub(crate) fn asked(&self, command: Command) -> (r: bool)
        ensures
            r == self.ask(command),
    {
        let mut i: usize = 0;
        while i < self.presses.len()
            invariant
                i <= self.presses@.len(),
                forall|k: int|
                    0 <= k < i ==> (#[trigger] self.presses@[k]).asks() != Some(command),
            decreases self.presses.len() - i,
        {
            if let Some(found) = self.presses[i].meaning() {
                if found == command {
                    return true;
                }
            }
            i += 1;
        }
        false
    }

    pub(crate) fn tool_key(&self) -> (r: Option<Tool>)
        ensures
            r == self.tool(),
    {
        if self.asked(Command::Select(Tool::Pan)) {
            Some(Tool::Pan)
        } else if self.asked(Command::Select(Tool::Eraser)) {
            Some(Tool::Eraser)
        } else if self.asked(Command::Select(Tool::Text)) {
            Some(Tool::Text)
        } else if self.asked(Command::Select(Tool::Ellipse)) {
            Some(Tool::Ellipse)
        } else if self.asked(Command::Select(Tool::Rect)) {
            Some(Tool::Rect)
        } else if self.asked(Command::Select(Tool::Line)) {
            Some(Tool::Line)
        } else if self.asked(Command::Select(Tool::Pen)) {
            Some(Tool::Pen)
        } else {
            None
        }
    }
}

pub open spec fn only_if(wanted: bool, command: Command) -> Seq<Command> {
    if wanted {
        seq![command]
    } else {
        Seq::empty()
    }
}

pub(crate) fn push_if(out: &mut Vec<Command>, wanted: bool, command: Command)
    ensures
        final(out)@ == old(out)@ + only_if(wanted, command),
{
    if wanted {
        out.push(command);
    }
    assert(out@ =~= old(out)@ + only_if(wanted, command));
}

/// What a drag on the canvas does.
#[derive(Clone, Copy, Debug, PartialEq, Eq, Structural)]
pub enum Route {
    /// The view moves.
    Pan,
    /// The view is about to be moved: gestures are dropped.
    Hold,
    Draw,
    Label,
    Erase,
}

} // verus!
