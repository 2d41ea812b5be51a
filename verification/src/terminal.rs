//! ANSI styling of terminal output.
use vstd::prelude::*;
use crate::text::{owned, push_text, text_eq};

verus! {

/// Whether output is coloured.
#[derive(Debug, Clone, Copy, PartialEq, Eq, Structural)]
pub struct TerminalStyle {
    pub enabled: bool,
}

/// `text` wrapped in the escape sequence for `code` when colours are on.
pub open spec fn painted(enabled: bool, code: Seq<char>, text: Seq<char>) -> Seq<char> {
    if enabled {
        "\x1b["@ + code + "m"@ + text + "\x1b[0m"@
    } else {
        text
    }
}

/// The variable is set to exactly `v`.
pub open spec fn set_to(var: Option<String>, v: Seq<char>) -> bool {
    var matches Some(s) && s@ == v
}

impl TerminalStyle {
    /// Colours are on when `CLICOLOR_FORCE` is set to anything but `0`, or
    /// when `NO_COLOR` is unset, `CLICOLOR` is not `0`, `TERM` is not
    /// `dumb` and standard output is a terminal.
    pub fn from_environment(
        no_color: bool,
        clicolor_force: Option<String>,
        clicolor: Option<String>,
        term: Option<String>,
        stdout_is_terminal: bool,
    ) -> (r: Self)
        ensures
            r.enabled == ((clicolor_force is Some && !set_to(clicolor_force, "0"@)) || (!no_color && !set_to(
                clicolor,
                "0"@,
            ) && !set_to(term, "dumb"@) && stdout_is_terminal)),
    {
        let force_color = match &clicolor_force {
            Some(v) => !text_eq(v.as_str(), "0"),
            None => false,
        };
        let color_disabled = match &clicolor {
            Some(v) => text_eq(v.as_str(), "0"),
            None => false,
        };
        let dumb_terminal = match &term {
            Some(v) => text_eq(v.as_str(), "dumb"),
            None => false,
        };
        TerminalStyle { enabled: force_color || (!no_color && !color_disabled && !dumb_terminal && stdout_is_terminal) }
    }

    pub fn paint(self, code: &str, text: &str) -> (r: String)
        ensures
            r@ == painted(self.enabled, code@, text@),
    {
        if self.enabled {
            let mut s = owned("\x1b[");
            push_text(&mut s, code);
            push_text(&mut s, "m");
            push_text(&mut s, text);
            push_text(&mut s, "\x1b[0m");
            s
        } else {
            owned(text)
        }
    }

    pub fn bold(self, text: &str) -> (r: String)
        ensures
            r@ == painted(self.enabled, "1"@, text@),
    {
        self.paint("1", text)
    }

    pub fn cyan(self, text: &str) -> (r: String)
        ensures
            r@ == painted(self.enabled, "36;1"@, text@),
    {
        self.paint("36;1", text)
    }

    pub fn dim(self, text: &str) -> (r: String)
        ensures
            r@ == painted(self.enabled, "2"@, text@),
    {
        self.paint("2", text)
    }

    pub fn green(self, text: &str) -> (r: String)
        ensures
            r@ == painted(self.enabled, "32;1"@, text@),
    {
        self.paint("32;1", text)
    }

    pub fn magenta(self, text: &str) -> (r: String)
        ensures
            r@ == painted(self.enabled, "35;1"@, text@),
    {
        self.paint("35;1", text)
    }

    pub fn red(self, text: &str) -> (r: String)
        ensures
            r@ == painted(self.enabled, "31;1"@, text@),
    {
        self.paint("31;1", text)
    }

    pub fn yellow(self, text: &str) -> (r: String)
        ensures
            r@ == painted(self.enabled, "33;1"@, text@),
    {
        self.paint("33;1", text)
    }
}

} // verus!
