use vstd::prelude::*;

verus! {

/// The message carried by the error of [`Config::new`].
pub const INSUFFICIENT_ARGUMENTS: &'static str = "insufficient arguments";

/// The parameters of one run: what to look for, and in which file.
pub struct Config {
    pub query: String,
    pub filename: String,
}

impl Config {
    /// Builds a configuration from command-line tokens. Token 0 is the
    /// program's name and is ignored; token 1 is the query and token 2 the
    /// path of the file. Fewer than three tokens is an error.
    pub fn new(args: &[String]) -> (r: Result<Config, &'static str>)
        ensures
            args@.len() < 3 <==> r is Err,
            r matches Err(e) ==> e@ == INSUFFICIENT_ARGUMENTS@,
            r matches Ok(c) ==> c.query@ == args@[1]@ && c.filename@ == args@[2]@,
    {
        if args.len() < 3 {
            return Err(INSUFFICIENT_ARGUMENTS);
        }
        let query = args[1].clone();
        let filename = args[2].clone();
        Ok(Config { query, filename })
    }
}

} // verus!
