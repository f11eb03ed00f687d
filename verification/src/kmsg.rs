//! Lines for the kernel's log.
use crate::text;
use vstd::prelude::*;

verus! {

/// How important an event is.
#[derive(Debug, Clone, Copy, PartialEq, Eq, Structural)]
pub enum LogLevel {
    Error,
    Warn,
    Info,
    Debug,
    Trace,
}

/// The kernel's number for a level. Less important events are left out.
pub open spec fn priority_of(level: LogLevel) -> Option<u8> {
    match level {
        LogLevel::Error => Some(3),
        LogLevel::Warn => Some(4),
        LogLevel::Info => Some(6),
        _ => None,
    }
}

/// The kernel's number for a level.
pub fn priority(level: LogLevel) -> (r: Option<u8>)
    ensures
        r == priority_of(level),
{
    match level {
        LogLevel::Error => Some(3),
        LogLevel::Warn => Some(4),
        LogLevel::Info => Some(6),
        _ => None,
    }
}

/// A line for the kernel's log, as it is put together.
#[derive(Debug)]
pub struct KmsgLine {
    pub text: String,
    /// Whether the message is in it.
    pub wrote_message: bool,
}

impl KmsgLine {
    /// The beginning of a line.
    pub fn new(priority: u8, target: &str) -> (r: Self)
        ensures
            r.text@ == "<"@ + text::decimal(priority as nat) + ">aabox-aapd["@ + target@ + "]: "@,
            !r.wrote_message,
    {
        let mut line: String = "<".to_string();
        line.append(text::to_decimal(priority as u64).as_str());
        line.append(">aabox-aapd[");
        line.append(target);
        line.append("]: ");
        KmsgLine { text: line, wrote_message: false }
    }

    /// Adds the message.
    pub fn message(&mut self, message: &str)
        ensures
            final(self).text@ == old(self).text@ + message@,
            final(self).wrote_message,
    {
        self.text.append(message);
        self.wrote_message = true;
    }

    /// Adds a field, behind a space if the message is in the line.
    pub fn field(&mut self, name: &str, value: &str)
        ensures
            final(self).text@ == old(self).text@ + (if old(self).wrote_message {
                " "@
            } else {
                ""@
            }) + name@ + "="@ + value@,
            final(self).wrote_message == old(self).wrote_message,
    {
        let gap: &str = if self.wrote_message {
            " "
        } else {
            ""
        };
        self.text.append(gap);
        self.text.append(name);
        self.text.append("=");
        self.text.append(value);
    }

    /// The whole line.
    pub fn finish(self) -> (r: String)
        ensures
            r@ == self.text@ + "\n"@,
    {
        let mut line: String = self.text;
        line.append("\n");
        line
    }
}

/// The more important an event is, the smaller is its number: errors are 3, warnings 4
/// and news 6, as the kernel counts; nothing else is logged.
pub proof fn lemma_priorities(level: LogLevel)
    ensures
        priority_of(level) == Some(3u8) <==> level is Error,
        priority_of(level) == Some(4u8) <==> level is Warn,
        priority_of(level) == Some(6u8) <==> level is Info,
        priority_of(level) is None <==> level is Debug || level is Trace,
{
}

} // verus!
