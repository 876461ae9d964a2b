//! What the command line asks for.

use crate::text::{same_text, string_texts};
use vstd::prelude::*;

verus! {

/// One of the two things a run can be for.
pub enum Command {
    /// Take one identifier out of the stored table.
    Delete { prog: String },
    /// Offer the candidates and count the choice; the arguments go on to the
    /// picker as they are.
    Run { picker_args: Vec<String> },
}

/// Whether the arguments, the program's name first, ask for a deletion: the
/// word `delete` and an identifier behind it.
pub open spec fn asks_for_delete(args: Seq<Seq<char>>) -> bool {
    args.len() > 2 && args[1] == "delete"@
}

/// The arguments behind the program's name.
pub open spec fn forwarded(args: Seq<Seq<char>>) -> Seq<Seq<char>> {
    if args.len() >= 1 {
        args.skip(1)
    } else {
        args
    }
}

/// Reads the arguments, the program's name first.
pub fn parse_command(args: &Vec<String>) -> (command: Command)
    ensures
        match command {
            Command::Delete { prog } => asks_for_delete(string_texts(args@)) && prog@
                == args@[2]@,
            Command::Run { picker_args } => !asks_for_delete(string_texts(args@)) && string_texts(
                picker_args@,
            ) == forwarded(string_texts(args@)),
        },
{
    if args.len() > 2 && same_text(args[1].as_str(), "delete") {
        Command::Delete { prog: args[2].clone() }
    } else {
        let mut picker_args: Vec<String> = Vec::new();
        let mut i: usize = 1;
        while i < args.len()
            invariant
                1 <= i,
                args@.len() >= 1 ==> i <= args@.len(),
                picker_args@.len() == if args@.len() >= 1 {
                    i - 1
                } else {
                    0
                },
                forall|k: int|
                    0 <= k < picker_args@.len() ==> (#[trigger] picker_args@[k])@ == args@[k + 1]@,
            decreases args@.len() - i,
        {
            picker_args.push(args[i].clone());
            i = i + 1;
        }
        assert(string_texts(picker_args@) =~= forwarded(string_texts(args@)));
        Command::Run { picker_args }
    }
}

} // verus!
