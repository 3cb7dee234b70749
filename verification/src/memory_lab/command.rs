//! The lab's command line: `dayNN` for one day, `all`, anything else for help.
use vstd::prelude::*;

use crate::text::{chars_of, parse_u64_chars, parse_u64_spec};

verus! {

#[derive(Debug, Clone, Copy, PartialEq, Eq, Structural)]
pub enum Command {
    RunDay(u8),
    RunAll,
    Help,
}

/// `u8::from_str`: an optional `+` and decimal digits whose value fits a `u8`.
pub open spec fn parse_u8_spec(s: Seq<char>) -> Option<u8> {
    match parse_u64_spec(s) {
        Some(v) => if v <= u8::MAX {
            Some(v as u8)
        } else {
            None
        },
        None => None,
    }
}

/// The command the arguments (program name first) ask for: `all` runs every
/// day, `day` followed by a number from 1 to 30 runs that day, and anything
/// else, or no argument, asks for help.
pub open spec fn command_spec(args: Seq<Seq<char>>) -> Command {
    if args.len() < 2 {
        Command::Help
    } else {
        let arg = args[1];
        if arg == seq!['a', 'l', 'l'] {
            Command::RunAll
        } else if arg.len() >= 3 && arg.take(3) == seq!['d', 'a', 'y'] {
            match parse_u8_spec(arg.skip(3)) {
                Some(day) => if 1 <= day <= 30 {
                    Command::RunDay(day)
                } else {
                    Command::Help
                },
                None => Command::Help,
            }
        } else {
            Command::Help
        }
    }
}

/// Parses the command line, the program name first.
pub fn parse_command(args: &[&str]) -> (r: Command)
    ensures
        r == command_spec(args@.map_values(|a: &str| a@)),
{
    let ghost views = args@.map_values(|a: &str| a@);
    if args.len() < 2 {
        return Command::Help;
    }
    let arg = chars_of(args[1]);
    assert(arg@ == views[1]);
    if arg.len() == 3 && arg[0] == 'a' && arg[1] == 'l' && arg[2] == 'l' {
        assert(arg@ =~= seq!['a', 'l', 'l']);
        return Command::RunAll;
    }
    assert(arg@ != seq!['a', 'l', 'l']) by {
        if arg@.len() == 3 {
            if arg@ == seq!['a', 'l', 'l'] {
                assert(arg@[0] == 'a' && arg@[1] == 'l' && arg@[2] == 'l');
            }
        }
    }
    if !(arg.len() >= 3 && arg[0] == 'd' && arg[1] == 'a' && arg[2] == 'y') {
        proof {
            if arg@.len() >= 3 && arg@.take(3) == seq!['d', 'a', 'y'] {
                assert(arg@.take(3)[0] == 'd' && arg@.take(3)[1] == 'a' && arg@.take(3)[2] == 'y');
            }
        }
        return Command::Help;
    }
    assert(arg@.take(3) =~= seq!['d', 'a', 'y']);
    assert(arg@.subrange(3, arg@.len() as int) =~= arg@.skip(3));
    match parse_u64_chars(&arg, 3, arg.len()) {
        Some(v) => {
            if v <= 255 && 1 <= v && v <= 30 {
                Command::RunDay(v as u8)
            } else {
                Command::Help
            }
        },
        None => Command::Help,
    }
}

} // verus!
