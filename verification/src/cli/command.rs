//! The subcommands of the tool.
use vstd::prelude::*;
use crate::VERSION;
use crate::text::same_text;

verus! {

/// What the tool is asked to do.
#[derive(Debug, PartialEq, Eq)]
pub enum Subcommand {
    /// Scaffold a new robot crate.
    Scaffold,
    /// Emit the license policy.
    Deny,
    /// Emit a core-pinning profile.
    Profile,
    /// Replay a recording.
    Replay,
    /// Dispatch console.
    Console,
    /// Check the environment.
    Doctor,
    /// Live simulator.
    Sim,
    /// Show the usage.
    Help,
    /// Something else.
    Unknown(String),
}

/// What a [`Subcommand`] says.
pub ghost enum SubcommandView {
    Scaffold,
    Deny,
    Profile,
    Replay,
    Console,
    Doctor,
    Sim,
    Help,
    Unknown(Seq<char>),
}

impl View for Subcommand {
    type V = SubcommandView;

    open spec fn view(&self) -> SubcommandView {
        match *self {
            Subcommand::Scaffold => SubcommandView::Scaffold,
            Subcommand::Deny => SubcommandView::Deny,
            Subcommand::Profile => SubcommandView::Profile,
            Subcommand::Replay => SubcommandView::Replay,
            Subcommand::Console => SubcommandView::Console,
            Subcommand::Doctor => SubcommandView::Doctor,
            Subcommand::Sim => SubcommandView::Sim,
            Subcommand::Help => SubcommandView::Help,
            Subcommand::Unknown(s) => SubcommandView::Unknown(s@),
        }
    }
}

/// The subcommand that a name stands for. Without one the usage is shown.
pub open spec fn subcommand_named(name: Option<Seq<char>>) -> SubcommandView {
    match name {
        None => SubcommandView::Help,
        Some(s) => if s == "scaffold"@ {
            SubcommandView::Scaffold
        } else if s == "deny"@ {
            SubcommandView::Deny
        } else if s == "profile"@ {
            SubcommandView::Profile
        } else if s == "replay"@ {
            SubcommandView::Replay
        } else if s == "console"@ {
            SubcommandView::Console
        } else if s == "doctor"@ {
            SubcommandView::Doctor
        } else if s == "sim"@ {
            SubcommandView::Sim
        } else if s == "help"@ || s == "-h"@ || s == "--help"@ {
            SubcommandView::Help
        } else {
            SubcommandView::Unknown(s)
        },
    }
}

/// Dispatches to a subcommand by the first argument.
pub fn subcommand(args: &[String]) -> (r: Subcommand)
    ensures
        r@ == subcommand_named(
            if args@.len() == 0 {
                None
            } else {
                Some(args@[0]@)
            },
        ),
{
    if args.len() == 0 {
        return Subcommand::Help;
    }
    let s: &str = args[0].as_str();
    if same_text(s, "scaffold") {
        Subcommand::Scaffold
    } else if same_text(s, "deny") {
        Subcommand::Deny
    } else if same_text(s, "profile") {
        Subcommand::Profile
    } else if same_text(s, "replay") {
        Subcommand::Replay
    } else if same_text(s, "console") {
        Subcommand::Console
    } else if same_text(s, "doctor") {
        Subcommand::Doctor
    } else if same_text(s, "sim") {
        Subcommand::Sim
    } else if same_text(s, "help") || same_text(s, "-h") || same_text(s, "--help") {
        Subcommand::Help
    } else {
        Subcommand::Unknown(s.to_owned())
    }
}

/// What the usage says behind the version.
pub const USAGE: &'static str = " — tpt-teleop developer tooling\n\
\n\
USAGE:\n\
    tpt-t-cli scaffold <NAME> [--path <DIR>]   Scaffold a new robot crate\n\
    tpt-t-cli deny     [--out <FILE>]          Emit cargo-deny MIT-chain config\n\
    tpt-t-cli profile  [--cores <N>] [--out <FILE>]  Emit a CPU core-pinning profile\n\
    tpt-t-cli replay   <FILE> [--speed <N>] [--kind <K>] [--limit <N>]  Replay an FDR file\n\
    tpt-t-cli console  [--host <ADDR:PORT>] [--attestation <FILE>]  MCP fleet-dispatch console\n\
    tpt-t-cli doctor                              Check toolchain/environment\n\
    tpt-t-cli sim      [--ticks <N>] [--rate <HZ>] [--throttle <F>] [--roll <R>]  Live simulator\n\
    tpt-t-cli help                              Show this message\n";

/// How to use the tool.
pub fn usage() -> (r: String)
    ensures
        r@ == "tpt-t-cli v"@ + VERSION@ + USAGE@,
{
    let mut s: String = "tpt-t-cli v".to_owned();
    s.append(VERSION);
    s.append(USAGE);
    s
}

/// Every command is called by its own name; `help`, `-h` and `--help`, and no name
/// at all, ask for help, and any other name is unknown.
pub proof fn law_commands_by_name(s: Seq<char>)
    ensures
        subcommand_named(Some(s)) is Scaffold <==> s == "scaffold"@,
        subcommand_named(Some(s)) is Deny <==> s == "deny"@,
        subcommand_named(Some(s)) is Profile <==> s == "profile"@,
        subcommand_named(Some(s)) is Replay <==> s == "replay"@,
        subcommand_named(Some(s)) is Console <==> s == "console"@,
        subcommand_named(Some(s)) is Doctor <==> s == "doctor"@,
        subcommand_named(Some(s)) is Sim <==> s == "sim"@,
        subcommand_named(Some(s)) is Help <==> s == "help"@ || s == "-h"@ || s == "--help"@,
        subcommand_named(Some(s)) matches SubcommandView::Unknown(t) ==> t == s,
        subcommand_named(None) is Help,
{
    reveal_strlit("scaffold");
    reveal_strlit("deny");
    reveal_strlit("profile");
    reveal_strlit("replay");
    reveal_strlit("console");
    reveal_strlit("doctor");
    reveal_strlit("sim");
    reveal_strlit("help");
    reveal_strlit("-h");
    reveal_strlit("--help");
    assert("scaffold"@[1] == 'c' && "sim"@[1] == 'i' && "deny"@[1] == 'e' && "doctor"@[1] == 'o');
    assert("scaffold"@[0] == 's' && "sim"@[0] == 's' && "deny"@[0] == 'd' && "doctor"@[0] == 'd');
    assert("profile"@[0] == 'p' && "replay"@[0] == 'r' && "console"@[0] == 'c');
    assert("help"@[0] == 'h' && "-h"@[0] == '-' && "--help"@[0] == '-');
}

} // verus!
