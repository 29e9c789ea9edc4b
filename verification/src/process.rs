//! Commands as values: a program, its arguments, and whether its standard
//! output should be reported. Spawning the process is the embedding program's
//! job; the engine only queues these values in order.

use vstd::prelude::*;

verus! {

/// A shell command to run in the destination directory after the files are
/// written: a program name, its arguments in order, and whether to forward
/// its standard output to the environment.
pub struct Process {
    /// The program to spawn.
    pub cmd: String,
    /// The arguments, in the order given.
    pub args: Vec<String>,
    /// Whether the command's standard output is reported through the
    /// environment once it finishes.
    pub output: bool,
}

impl Process {
    /// Appends one argument.
    pub fn arg(self, arg: String) -> (p: Process)
        ensures
            p.cmd == self.cmd,
            p.args@ == self.args@.push(arg),
            p.output == self.output,
    {
        let mut args = self.args;
        args.push(arg);
        Process { cmd: self.cmd, args, output: self.output }
    }

    /// Sets whether the command's standard output is reported.
    pub fn output(self, output: bool) -> (p: Process)
        ensures
            p.cmd == self.cmd,
            p.args@ == self.args@,
            p.output == output,
    {
        Process { cmd: self.cmd, args: self.args, output }
    }
}

/// Starts a command for the program `cmd`, with no arguments and its output
/// unreported.
pub fn process(cmd: String) -> (p: Process)
    ensures
        p.cmd == cmd,
        p.args@ == Seq::<String>::empty(),
        p.output == false,
{
    Process { cmd, args: Vec::new(), output: false }
}

/// The ordered queue of commands a run produced; they are executed strictly
/// in this order, each one only after all of its predecessors succeeded.
pub struct CommandList {
    /// The commands, in registration order.
    pub commands: Vec<Process>,
}

impl CommandList {
    /// Wraps an ordered list of commands.
    pub fn new(commands: Vec<Process>) -> (list: CommandList)
        ensures
            list.commands@ == commands@,
    {
        CommandList { commands }
    }

    /// How many commands the queue holds.
    pub fn len(&self) -> (n: usize)
        ensures
            n == self.commands@.len(),
    {
        self.commands.len()
    }

    /// The command at position `i`, in registration order.
    pub fn get(&self, i: usize) -> (command: &Process)
        requires
            i < self.commands@.len(),
        ensures
            *command == self.commands@[i as int],
    {
        &self.commands[i]
    }
}

} // verus!
