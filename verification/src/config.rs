//! Invocation parameters, taken as they come from the command line: the
//! caller owns parsing and error reporting.

use vstd::prelude::*;

verus! {

/// The two positional parameters of an invocation.
pub struct Config {
    pub query: String,
    pub filename: String,
}

impl Config {
    /// Read the two parameters out of an argument list, program name first.
    /// Fails exactly when fewer than three entries are present.
    pub fn new(args: &[String]) -> (r: Result<Config, &'static str>)
        ensures
            args@.len() < 3 ==> (r matches Err(m) && m@ == "not enough arguments"@),
            args@.len() >= 3 ==> (r matches Ok(c) && c.query@ == args@[1]@ && c.filename@
                == args@[2]@),
    {
        if args.len() < 3 {
            return Err("not enough arguments");
        }
        let query: String = args[1].clone();
        let filename: String = args[2].clone();
        Ok(Config { query, filename })
    }
}

} // verus!
