//! Log levels and the lines that the program prints for them.

use vstd::prelude::*;
use crate::text::owned;

verus! {

/// Log levels for printing messages.
pub enum LogLevel {
    Success,
    Error,
    Warning,
    Info,
    /// What a dry run would do.
    Dry,
    /// A cheerful summary.
    Fruitful,
}

/// Red.
pub open spec fn red() -> Seq<char> {
    "\x1b[31m"@
}

/// Green.
pub open spec fn green() -> Seq<char> {
    "\x1b[32m"@
}

/// Yellow.
pub open spec fn yellow() -> Seq<char> {
    "\x1b[33m"@
}

/// Back to the terminal's default style.
pub open spec fn reset() -> Seq<char> {
    "\x1b[0m"@
}

/// Bold.
pub open spec fn bold() -> Seq<char> {
    "\x1b[1m"@
}

/// The red color code.
pub fn red_code() -> (r: String)
    ensures
        r@ == red(),
{
    owned("\x1b[31m")
}

/// The green color code.
pub fn green_code() -> (r: String)
    ensures
        r@ == green(),
{
    owned("\x1b[32m")
}

/// The reset code.
pub fn reset_code() -> (r: String)
    ensures
        r@ == reset(),
{
    owned("\x1b[0m")
}

/// The bold code.
pub fn bold_code() -> (r: String)
    ensures
        r@ == bold(),
{
    owned("\x1b[1m")
}

impl LogLevel {
    /// The tag that opens a line of this level.
    pub open spec fn spec_tag(self) -> Seq<char> {
        match self {
            LogLevel::Success => green() + "[SUCCESS]"@ + reset() + " "@,
            LogLevel::Error => red() + "[ERROR]"@ + reset() + " "@,
            LogLevel::Warning => yellow() + "[WARN]"@ + reset() + " "@,
            LogLevel::Info => bold() + "[INFO]"@ + reset() + " "@,
            LogLevel::Dry => yellow() + "[DRY-RUN]"@ + reset() + " "@,
            LogLevel::Fruitful => "\u{1F34E} "@,
        }
    }

    /// Whether lines of this level go to standard error.
    pub open spec fn spec_to_stderr(self) -> bool {
        self is Error || self is Warning
    }

    /// Whether lines of this level go to standard error (errors and warnings do).
    pub fn to_stderr(&self) -> (r: bool)
        ensures
            r == self.spec_to_stderr(),
    {
        match self {
            LogLevel::Error | LogLevel::Warning => true,
            _ => false,
        }
    }
}

/// The line printed for a message of a level: the level's tag, then the message.
pub fn log_line(level: &LogLevel, message: &str) -> (r: String)
    ensures
        r@ == level.spec_tag() + message@,
{
    let mut line = match level {
        LogLevel::Success => {
            let mut t = owned("\x1b[32m");
            t.append("[SUCCESS]");
            t.append("\x1b[0m");
            t.append(" ");
            t
        },
        LogLevel::Error => {
            let mut t = owned("\x1b[31m");
            t.append("[ERROR]");
            t.append("\x1b[0m");
            t.append(" ");
            t
        },
        LogLevel::Warning => {
            let mut t = owned("\x1b[33m");
            t.append("[WARN]");
            t.append("\x1b[0m");
            t.append(" ");
            t
        },
        LogLevel::Info => {
            let mut t = owned("\x1b[1m");
            t.append("[INFO]");
            t.append("\x1b[0m");
            t.append(" ");
            t
        },
        LogLevel::Dry => {
            let mut t = owned("\x1b[33m");
            t.append("[DRY-RUN]");
            t.append("\x1b[0m");
            t.append(" ");
            t
        },
        LogLevel::Fruitful => owned("\u{1F34E} "),
    };
    line.append(message);
    line
}

} // verus!
