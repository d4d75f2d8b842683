//! Colours and bold text for one output stream.

use vstd::prelude::*;
use vstd::string::StringExecFns;

verus! {

/// `text` wrapped in the terminal escape sequence `code` when styling is `on`;
/// otherwise `text` as is.
pub open spec fn painted(on: bool, code: Seq<char>, text: Seq<char>) -> Seq<char> {
    if on {
        seq!['\x1b', '['] + code + seq!['m'] + text + seq!['\x1b', '[', '0', 'm']
    } else {
        text
    }
}

/// Colours and bold text for one output stream. Text is left as is when colours are off.
#[derive(Clone, Copy)]
pub struct Paint(bool);

impl Paint {
    /// Whether this stream gets colours and bold text.
    pub closed spec fn styled(self) -> bool {
        self.0
    }

    /// Styling for a stream: only on a terminal, and not when `NO_COLOR` asks for none,
    /// on the old Windows console (which prints the codes as text) or on a dumb terminal.
    pub fn for_stream(is_terminal: bool, no_color: bool, legacy_console: bool, dumb_terminal: bool) -> (paint:
        Paint)
        ensures
            paint.styled() == (is_terminal && !no_color && !legacy_console && !dumb_terminal),
    {
        Paint(is_terminal && !no_color && !legacy_console && !dumb_terminal)
    }

    /// `text` in the style that escape code `code` selects.
    pub fn wrap(self, code: &str, text: &str) -> (styled_text: String)
        ensures
            styled_text@ == painted(self.styled(), code@, text@),
    {
        if self.0 {
            proof {
                reveal_strlit("\x1b[");
                reveal_strlit("m");
                reveal_strlit("\x1b[0m");
            }
            let mut styled_text = String::from_str("\x1b[");
            styled_text.append(code);
            styled_text.append("m");
            styled_text.append(text);
            styled_text.append("\x1b[0m");
            assert(styled_text@ =~= painted(self.styled(), code@, text@));
            styled_text
        } else {
            String::from_str(text)
        }
    }

    /// `text` in bold.
    pub fn bold(self, text: &str) -> (styled_text: String)
        ensures
            styled_text@ == painted(self.styled(), seq!['1'], text@),
    {
        proof {
            reveal_strlit("1");
        }
        self.wrap("1", text)
    }

    /// `text` dimmed.
    pub fn dim(self, text: &str) -> (styled_text: String)
        ensures
            styled_text@ == painted(self.styled(), seq!['2'], text@),
    {
        proof {
            reveal_strlit("2");
        }
        self.wrap("2", text)
    }

    /// `text` in red.
    pub fn red(self, text: &str) -> (styled_text: String)
        ensures
            styled_text@ == painted(self.styled(), seq!['3', '1'], text@),
    {
        proof {
            reveal_strlit("31");
        }
        self.wrap("31", text)
    }

    /// `text` in green.
    pub fn green(self, text: &str) -> (styled_text: String)
        ensures
            styled_text@ == painted(self.styled(), seq!['3', '2'], text@),
    {
        proof {
            reveal_strlit("32");
        }
        self.wrap("32", text)
    }

    /// `text` in yellow.
    pub fn yellow(self, text: &str) -> (styled_text: String)
        ensures
            styled_text@ == painted(self.styled(), seq!['3', '3'], text@),
    {
        proof {
            reveal_strlit("33");
        }
        self.wrap("33", text)
    }

    /// `text` in cyan.
    pub fn cyan(self, text: &str) -> (styled_text: String)
        ensures
            styled_text@ == painted(self.styled(), seq!['3', '6'], text@),
    {
        proof {
            reveal_strlit("36");
        }
        self.wrap("36", text)
    }
}

} // verus!
