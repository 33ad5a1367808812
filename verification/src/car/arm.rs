//! The remote release of the start.

use vstd::prelude::*;
use vstd::string::*;

use crate::car::cli::port_after;
use crate::text::{has_flag, is_given, limited_after, value_of, value_or};

verus! {

/// What is sent to the car.
#[derive(Clone, Copy, Debug, PartialEq, Eq, Structural)]
pub enum Command {
    Arm,
    Disarm,
}

impl Command {
    /// The word that is sent.
    pub open spec fn word(self) -> Seq<char> {
        match self {
            Command::Arm => "arm"@,
            Command::Disarm => "disarm"@,
        }
    }

    /// The word that is sent.
    pub fn as_str(self) -> (out: &'static str)
        ensures
            out@ == self.word(),
    {
        match self {
            Command::Arm => "arm",
            Command::Disarm => "disarm",
        }
    }
}

/// What the command line asks for.
#[derive(Debug)]
pub struct ArmArgs {
    pub command: Command,
    pub host: String,
    pub port: u16,
    pub token: String,
}

/// The command that is asked for: one of the two, not both.
pub open spec fn asked_command(args: Seq<String>) -> Option<Command> {
    let arm = is_given(args, "--arm"@);
    let disarm = is_given(args, "--disarm"@);
    if arm && !disarm {
        Some(Command::Arm)
    } else if disarm && !arm {
        Some(Command::Disarm)
    } else {
        None
    }
}

impl ArmArgs {
    /// Reads the command line; nothing unless it asks for exactly one command.
    pub fn parse(args: &Vec<String>) -> (out: Option<Self>)
        ensures
            out is Some == asked_command(args@) is Some,
            out matches Some(a) ==> {
                &&& asked_command(args@) == Some(a.command)
                &&& a.host@ == match value_of(args@, "--host"@) {
                    Some(t) => t,
                    None => "127.0.0.1"@,
                }
                &&& a.port == match port_after(args@, "--port"@) {
                    Some(p) => p,
                    None => 4578,
                }
                &&& a.token@ == match value_of(args@, "--token"@) {
                    Some(t) => t,
                    None => "nfe"@,
                }
            },
    {
        let arm = has_flag(args, "--arm");
        let disarm = has_flag(args, "--disarm");
        let command = if arm && !disarm {
            Command::Arm
        } else if disarm && !arm {
            Command::Disarm
        } else {
            return None;
        };
        let port: u16 = match limited_after(args, "--port", u16::MAX as u64) {
            Some(v) => v as u16,
            None => 4578,
        };
        Some(
            ArmArgs {
                command,
                host: value_or(args, "--host", "127.0.0.1"),
                port,
                token: value_or(args, "--token", "nfe"),
            },
        )
    }

    /// The message that is sent.
    pub fn payload(&self) -> (out: String)
        ensures
            out@ == "NFE_ARM "@ + self.token@ + " "@ + self.command.word() + "\n"@,
    {
        let mut text = "NFE_ARM ".to_owned();
        text.append(self.token.as_str());
        text.append(" ");
        text.append(self.command.as_str());
        text.append("\n");
        text
    }
}

/// A car is armed only where arming is asked for and disarming is not, and the other
/// way round; what asks for both, or for neither, asks for nothing.
pub proof fn law_only_one_thing_is_asked(args: Seq<String>, i: int, j: int)
    requires
        0 <= i < args.len(),
        0 <= j < args.len(),
    ensures
        asked_command(args) == Some(Command::Arm) ==> args[i]@ != "--disarm"@,
        asked_command(args) == Some(Command::Disarm) ==> args[i]@ != "--arm"@,
        args[i]@ == "--arm"@ && args[j]@ == "--disarm"@ ==> asked_command(args) is None,
        args[i]@ == "--arm"@ ==> asked_command(args) != Some(Command::Disarm),
        args[i]@ == "--disarm"@ ==> asked_command(args) != Some(Command::Arm),
        (args[i]@ == "--arm"@ || args[i]@ == "--disarm"@) && asked_command(args) is None
            ==> exists|k: int|
            0 <= k < args.len() && (#[trigger] args[k])@ == if args[i]@ == "--arm"@ {
                "--disarm"@
            } else {
                "--arm"@
            },
        (forall|k: int|
            0 <= k < args.len() ==> (#[trigger] args[k])@ != "--arm"@ && args[k]@ != "--disarm"@)
            ==> asked_command(args) is None,
{
    reveal_strlit("--arm");
    reveal_strlit("--disarm");
    assert("--arm"@.len() != "--disarm"@.len());
}

} // verus!
