//! Command-line configuration: which action to run, on which file, with
//! which secret. Only the parsing logic lives here; reading the real
//! arguments and acting on them belongs to the caller.

use vstd::prelude::*;

verus! {

/// What the user asked for: recovering a secret or hiding one.
#[derive(Debug, Clone, Copy, PartialEq, Eq, Structural)]
pub enum ActionType {
    Read,
    Write,
}

/// A parsed command line: the action, the image file to work on, and, when
/// writing, the secret to hide.
#[derive(Debug, Clone)]
pub struct Config {
    pub action: ActionType,
    pub file_path: String,
    pub secret: Option<String>,
}

impl Config {
    /// Parses `args` as laid out on the command line: the flag `-r` or `-w`
    /// at position 1, the file path at position 2, and, for `-w`, the secret
    /// at position 3.
    pub fn build(args: &Vec<String>) -> (r: Result<Config, &'static str>)
        requires
            args@.len() >= 2,
        ensures
            args@[1]@ != "-r"@ && args@[1]@ != "-w"@ ==> (r matches Err(e) && e@
                == "No read/write (-r/-w) flag on position '1'."@),
            args@[1]@ == "-r"@ && args@.len() < 3 ==> (r matches Err(e) && e@
                == "Not enough arguments"@),
            args@[1]@ == "-w"@ && args@.len() < 4 ==> (r matches Err(e) && e@
                == "Not enough arguments"@),
            args@[1]@ == "-r"@ && args@.len() >= 3 ==> (r matches Ok(c) && c.action is Read
                && c.file_path@ == args@[2]@ && c.secret is None),
            args@[1]@ == "-w"@ && args@.len() >= 4 ==> (r matches Ok(c) && c.action is Write
                && c.file_path@ == args@[2]@ && (c.secret matches Some(s) && s@ == args@[3]@)),
    {
        proof {
            // the two flags are distinct strings: they differ in their second character
            reveal_strlit("-r");
            reveal_strlit("-w");
            assert("-r"@[1] == 'r' && "-w"@[1] == 'w' && "-r"@ != "-w"@);
        }
        let read_flag: String = String::from_str("-r");
        let write_flag: String = String::from_str("-w");
        let is_read: bool = args[1] == read_flag;
        let is_write: bool = args[1] == write_flag;
        if !is_read && !is_write {
            return Err("No read/write (-r/-w) flag on position '1'.");
        }
        if (is_read && args.len() < 3) || (is_write && args.len() < 4) {
            return Err("Not enough arguments");
        }
        let file_path: String = args[2].clone();
        if is_write {
            let secret: String = args[3].clone();
            Ok(Config { action: ActionType::Write, file_path, secret: Some(secret) })
        } else {
            Ok(Config { action: ActionType::Read, file_path, secret: None })
        }
    }
}

} // verus!
