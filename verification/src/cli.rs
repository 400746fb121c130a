//! The decisions of the command line: which command was given, and
//! whether its output argument can be used.

use vstd::prelude::*;

verus! {

/// The command-line arguments.
#[derive(Debug)]
pub struct Args {
    pub arg_filename: String,
    pub flag_create_dir: bool,
    pub flag_no_confirm: bool,
    pub flag_output: Option<String>,
    pub cmd_d: bool,
    pub cmd_decrypt: bool,
    pub cmd_extract: bool,
    pub cmd_l: bool,
    pub cmd_list: bool,
    pub cmd_x: bool,
}

/// What the command line asks for.
#[derive(Clone, Copy, Debug, PartialEq, Eq, Structural)]
pub enum Command {
    /// Print the names of the files in the archive.
    List,
    /// Write the files of the archive to a directory.
    Extract,
    /// Write the plain form of an encrypted archive.
    Decrypt,
}

/// The command that the arguments name, by its long or its short form.
/// Where several are named, listing comes before extracting and
/// extracting before decrypting.
pub open spec fn command_named(args: &Args) -> Option<Command> {
    if args.cmd_list || args.cmd_l {
        Some(Command::List)
    } else if args.cmd_extract || args.cmd_x {
        Some(Command::Extract)
    } else if args.cmd_decrypt || args.cmd_d {
        Some(Command::Decrypt)
    } else {
        None
    }
}

/// Check if the command is extract.
pub fn is_extract_command(args: &Args) -> (r: bool)
    ensures
        r == (args.cmd_extract || args.cmd_x),
{
    args.cmd_extract || args.cmd_x
}

/// Tells which command the arguments name.
pub fn command_of(args: &Args) -> (r: Option<Command>)
    ensures
        r == command_named(args),
        r == Some(Command::Extract) ==> args.cmd_extract || args.cmd_x,
{
    if args.cmd_list || args.cmd_l {
        Some(Command::List)
    } else if is_extract_command(args) {
        Some(Command::Extract)
    } else if args.cmd_decrypt || args.cmd_d {
        Some(Command::Decrypt)
    } else {
        None
    }
}

/// Validate the output argument: where one is given, it has to name a
/// directory. `is_dir` tells whether it does.
pub fn valid_output(output: &Option<String>, is_dir: bool) -> (r: bool)
    ensures
        r == (output is None || is_dir),
{
    match output {
        Some(_) => is_dir,
        None => true,
    }
}

} // verus!
