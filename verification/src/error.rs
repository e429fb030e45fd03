//! What a tool call can be refused for, and what the caller is told.

use crate::text;
use vstd::prelude::*;

verus! {

/// The tools that work on one kind of session only.
#[derive(Clone, Copy, Debug, PartialEq, Eq, Structural)]
pub enum Tool {
    ReadScreen,
    Screenshot,
    Scrollback,
    Resize,
    ReadOutput,
    CloseStdin,
    WaitForText,
    WaitForChange,
    WaitForStable,
    WaitForOutput,
}

/// How a program is attached, and what it has negotiated on its input.
#[derive(Clone, Copy, Debug, PartialEq, Eq, Structural)]
pub enum SessionKind {
    /// Under a pseudo terminal, with the current kitty keyboard flags and the
    /// current state of bracketed paste.
    Pty { kitty_flags: u8, paste: bool },
    /// With plain pipes.
    Piped,
}

/// Why a tool call is refused.
#[derive(Debug, PartialEq, Eq)]
pub enum ToolError {
    UnknownKey(String),
    UnknownSignal(String),
    UnknownMouseAction(String),
    /// What the regular expression compiler says of a pattern.
    BadRegex(String),
    /// A session of that name exists already.
    NameTaken(String),
    /// No session of that name exists.
    NoSession(String),
    /// The session's process is gone.
    NoProcess(String),
    PidOutOfRange(u32),
    /// The tool does not work on sessions of this kind.
    WrongKind(Tool),
    /// The named caller does not work on piped sessions.
    NeedsPty(String),
}

/// Whether a tool works on sessions under a pseudo terminal (or else on piped
/// ones).
pub open spec fn wants_pty(tool: Tool) -> bool {
    match tool {
        Tool::ReadOutput | Tool::CloseStdin | Tool::WaitForOutput => false,
        _ => true,
    }
}

/// What the caller is told of a session of the wrong kind.
pub open spec fn wrong_kind_text(tool: Tool) -> Seq<char> {
    match tool {
        Tool::ReadScreen => "session is piped, use read_output instead"@,
        Tool::Screenshot => "screenshots need a pty session"@,
        Tool::Scrollback => "scrollback needs a pty session"@,
        Tool::Resize => "cannot resize a piped session"@,
        Tool::ReadOutput => "session is pty, use read_screen instead"@,
        Tool::CloseStdin => "not a piped session"@,
        Tool::WaitForText => "wait_for_text needs a pty session"@,
        Tool::WaitForChange => "wait_for_change needs a pty session"@,
        Tool::WaitForStable => "wait_for_stable needs a pty session"@,
        Tool::WaitForOutput => "wait_for_output needs a piped session"@,
    }
}

/// What the caller is told of a refused call.
pub open spec fn error_text(e: ToolError) -> Seq<char> {
    match e {
        ToolError::UnknownKey(s) => "unknown key '"@ + s@ + "'"@,
        ToolError::UnknownSignal(s) => "unknown signal '"@ + s@ + "'"@,
        ToolError::UnknownMouseAction(s) => "unknown mouse action '"@ + s@ + "'"@,
        ToolError::BadRegex(s) => "bad regex: "@ + s@,
        ToolError::NameTaken(s) => "a session named '"@ + s@ + "' already exists"@,
        ToolError::NoSession(s) => "no session named '"@ + s@ + "'"@,
        ToolError::NoProcess(s) => "session '"@ + s@ + "' has no live process"@,
        ToolError::PidOutOfRange(pid) => "pid "@ + text::dec(pid as nat) + " out of range"@,
        ToolError::WrongKind(tool) => wrong_kind_text(tool),
        ToolError::NeedsPty(who) => who@ + " needs a pty session"@,
    }
}

/// Whether a refusal is about the arguments of the call (or else about the state
/// of the server).
pub open spec fn is_argument_error(e: ToolError) -> bool {
    e is UnknownKey || e is UnknownSignal || e is UnknownMouseAction || e is BadRegex
}

fn wrong_kind_message(tool: Tool) -> (r: &'static str)
    ensures
        r@ == wrong_kind_text(tool),
{
    match tool {
        Tool::ReadScreen => "session is piped, use read_output instead",
        Tool::Screenshot => "screenshots need a pty session",
        Tool::Scrollback => "scrollback needs a pty session",
        Tool::Resize => "cannot resize a piped session",
        Tool::ReadOutput => "session is pty, use read_screen instead",
        Tool::CloseStdin => "not a piped session",
        Tool::WaitForText => "wait_for_text needs a pty session",
        Tool::WaitForChange => "wait_for_change needs a pty session",
        Tool::WaitForStable => "wait_for_stable needs a pty session",
        Tool::WaitForOutput => "wait_for_output needs a piped session",
    }
}

impl ToolError {
    /// What the caller is told.
    pub fn message(&self) -> (r: String)
        ensures
            r@ == error_text(*self),
    {
        match self {
            ToolError::UnknownKey(s) => text::framed("unknown key '", s.as_str(), "'"),
            ToolError::UnknownSignal(s) => text::framed("unknown signal '", s.as_str(), "'"),
            ToolError::UnknownMouseAction(s) => text::framed("unknown mouse action '", s.as_str(), "'"),
            ToolError::BadRegex(s) => {
                let mut out = String::new();
                out.append("bad regex: ");
                out.append(s.as_str());
                assert(out@ =~= "bad regex: "@ + s@);
                out
            },
            ToolError::NameTaken(s) => text::framed(
                "a session named '",
                s.as_str(),
                "' already exists",
            ),
            ToolError::NoSession(s) => text::framed("no session named '", s.as_str(), "'"),
            ToolError::NoProcess(s) => text::framed("session '", s.as_str(), "' has no live process"),
            ToolError::PidOutOfRange(pid) => {
                let mut number = String::new();
                text::push_dec(&mut number, *pid as u64);
                assert(number@ =~= text::dec(*pid as nat));
                text::framed("pid ", number.as_str(), " out of range")
            },
            ToolError::WrongKind(tool) => wrong_kind_message(*tool).to_string(),
            ToolError::NeedsPty(who) => {
                let mut out = who.clone();
                out.append(" needs a pty session");
                out
            },
        }
    }

    /// Whether the arguments of the call are at fault.
    pub fn is_invalid_params(&self) -> (r: bool)
        ensures
            r == is_argument_error(*self),
    {
        match self {
            ToolError::UnknownKey(_)
            | ToolError::UnknownSignal(_)
            | ToolError::UnknownMouseAction(_)
            | ToolError::BadRegex(_) => true,
            _ => false,
        }
    }
}

/// Refuses a tool on a session of the wrong kind.
pub fn require_kind(tool: Tool, kind: SessionKind) -> (r: Result<(), ToolError>)
    ensures
        r == (if wants_pty(tool) == (kind is Pty) {
            Ok(())
        } else {
            Err(ToolError::WrongKind(tool))
        }),
{
    let pty = match kind {
        SessionKind::Pty { kitty_flags: _, paste: _ } => true,
        SessionKind::Piped => false,
    };
    let wants = match tool {
        Tool::ReadOutput | Tool::CloseStdin | Tool::WaitForOutput => false,
        _ => true,
    };
    if pty == wants {
        Ok(())
    } else {
        Err(ToolError::WrongKind(tool))
    }
}

// ---- Laws -------------------------------------------------------------------

/// Three tools work on piped sessions, reading their output, closing their input and waiting
/// for output, and all others on those under a pseudo terminal.
pub proof fn three_tools_want_pipes(tool: Tool)
    ensures
        !wants_pty(tool) <==> tool == Tool::ReadOutput || tool == Tool::CloseStdin || tool
            == Tool::WaitForOutput,
{
}

/// What a caller is told of a session of the wrong kind: which kind the tool needs, or what
/// to use in its place.
pub proof fn wrong_kinds_are_told(tool: Tool)
    ensures
        tool == Tool::ReadScreen ==> wrong_kind_text(tool)
            == "session is piped, use read_output instead"@,
        tool == Tool::Screenshot ==> wrong_kind_text(tool) == "screenshots need a pty session"@,
        tool == Tool::Scrollback ==> wrong_kind_text(tool) == "scrollback needs a pty session"@,
        tool == Tool::Resize ==> wrong_kind_text(tool) == "cannot resize a piped session"@,
        tool == Tool::ReadOutput ==> wrong_kind_text(tool)
            == "session is pty, use read_screen instead"@,
        tool == Tool::CloseStdin ==> wrong_kind_text(tool) == "not a piped session"@,
        tool == Tool::WaitForText ==> wrong_kind_text(tool) == "wait_for_text needs a pty session"@,
        tool == Tool::WaitForChange ==> wrong_kind_text(tool)
            == "wait_for_change needs a pty session"@,
        tool == Tool::WaitForStable ==> wrong_kind_text(tool)
            == "wait_for_stable needs a pty session"@,
        tool == Tool::WaitForOutput ==> wrong_kind_text(tool)
            == "wait_for_output needs a piped session"@,
{
}

/// What a caller is told of a refused call names what was refused, between quotes where the
/// caller gave it.
pub proof fn refusals_name_their_cause(e: ToolError)
    ensures
        e matches ToolError::UnknownKey(s) ==> error_text(e) == "unknown key '"@ + s@ + seq!['\''],
        e matches ToolError::UnknownSignal(s) ==> error_text(e) == "unknown signal '"@ + s@ + seq![
            '\'',
        ],
        e matches ToolError::UnknownMouseAction(s) ==> error_text(e) == "unknown mouse action '"@
            + s@ + seq!['\''],
        e matches ToolError::BadRegex(s) ==> error_text(e) == "bad regex: "@ + s@,
        e matches ToolError::NameTaken(s) ==> error_text(e) == "a session named '"@ + s@
            + "' already exists"@,
        e matches ToolError::NoSession(s) ==> error_text(e) == "no session named '"@ + s@ + seq![
            '\'',
        ],
        e matches ToolError::NoProcess(s) ==> error_text(e) == "session '"@ + s@
            + "' has no live process"@,
        e matches ToolError::PidOutOfRange(pid) ==> error_text(e) == "pid "@ + text::dec(pid as nat)
            + " out of range"@,
        e matches ToolError::WrongKind(tool) ==> error_text(e) == wrong_kind_text(tool),
        e matches ToolError::NeedsPty(who) ==> error_text(e) == who@ + " needs a pty session"@,
{
    reveal_strlit("'");
    assert("'"@ =~= seq!['\'']);
}

/// The arguments are at fault where a name or a pattern is not understood, and nowhere else.
pub proof fn arguments_at_fault(e: ToolError)
    ensures
        match e {
            ToolError::UnknownKey(_) => is_argument_error(e),
            ToolError::UnknownSignal(_) => is_argument_error(e),
            ToolError::UnknownMouseAction(_) => is_argument_error(e),
            ToolError::BadRegex(_) => is_argument_error(e),
            ToolError::NameTaken(_) => !is_argument_error(e),
            ToolError::NoSession(_) => !is_argument_error(e),
            ToolError::NoProcess(_) => !is_argument_error(e),
            ToolError::PidOutOfRange(_) => !is_argument_error(e),
            ToolError::WrongKind(_) => !is_argument_error(e),
            ToolError::NeedsPty(_) => !is_argument_error(e),
        },
{
}

} // verus!
