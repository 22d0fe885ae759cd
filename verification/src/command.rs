//! Player-control commands: what the management surface asks the host
//! to run.  Building a command is pure; running it is process work
//! that lives outside the library.

use vstd::prelude::*;
use vstd::string::StringExecFns;
use crate::platform::now_millis;
use crate::strutil::{u128_to_dec_string, is_decimal_string};

verus! {

/// A process invocation to hand to the host.
#[derive(Debug)]
pub struct Command {
    /// Correlates the command with its result.
    pub id: String,
    pub command: String,
    pub args: Vec<String>,
}

/// The mathematical shape of a command.
pub struct CommandView {
    pub id: Seq<char>,
    pub command: Seq<char>,
    pub args: Seq<Seq<char>>,
}

impl View for Command {
    type V = CommandView;

    open spec fn view(&self) -> CommandView {
        CommandView {
            id: self.id@,
            command: self.command@,
            args: self.args@.map_values(|s: String| s@),
        }
    }
}

impl Command {
    /// A command with a fresh id drawn from the clock: a nonempty
    /// decimal string.
    pub fn new(command: String, args: Vec<String>) -> (r: Command)
        ensures
            r@.command == command@,
            r@.args == args@.map_values(|s: String| s@),
            is_decimal_string(r@.id),
    {
        let t = now_millis();
        Command { id: u128_to_dec_string(t), command, args }
    }

    /// The command that kills the player process by name.
    pub fn kill_command(process_name: &str) -> (r: Command)
        ensures
            r@.command == "pkill"@,
            r@.args == seq!["-f"@, process_name@],
            is_decimal_string(r@.id),
    {
        let mut args: Vec<String> = Vec::new();
        args.push(String::from_str("-f"));
        args.push(String::from_str(process_name));
        let r = Command::new(String::from_str("pkill"), args);
        proof {
            assert(r@.args =~= seq!["-f"@, process_name@]);
        }
        r
    }

    /// The command that starts the player process by name.
    pub fn open_command(process_name: &str) -> (r: Command)
        ensures
            r@.command == process_name@,
            r@.args == Seq::<Seq<char>>::empty(),
            is_decimal_string(r@.id),
    {
        let args: Vec<String> = Vec::new();
        let r = Command::new(String::from_str(process_name), args);
        proof {
            assert(r@.args =~= Seq::<Seq<char>>::empty());
        }
        r
    }
}

/// The result the host reports for one command.
#[derive(Debug)]
pub struct CommandResult {
    pub id: String,
    pub status: String,
}

impl CommandResult {
    pub fn new(id: String, status: String) -> (r: CommandResult)
        ensures
            r.id@ == id@,
            r.status@ == status@,
    {
        CommandResult { id, status }
    }
}

/// The command that kills the player.
pub fn kill_player() -> (r: Command)
    ensures
        r@.command == "pkill"@,
        r@.args == seq!["-f"@, "player"@],
{
    Command::kill_command("player")
}

/// The command that starts the player.
pub fn open_player() -> (r: Command)
    ensures
        r@.command == "player"@,
        r@.args == Seq::<Seq<char>>::empty(),
{
    Command::open_command("player")
}

} // verus!
