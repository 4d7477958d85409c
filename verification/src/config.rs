//! The run configuration: the query, the path of the file to scan, and the
//! comparison mode. The caller reads its process environment and hands the
//! positional arguments and the case-insensitivity flag in as plain values.

use vstd::prelude::*;

verus! {

/// What one invocation works on: a query, a file path, and whether the
/// comparison ignores case.
pub struct EnvConfig {
    pub query: String,
    pub file_path: String,
    pub ignore_case: bool,
}

impl EnvConfig {
    /// Builds the configuration from the positional arguments, which begin
    /// with the program name, and from the case-insensitivity flag. Fewer
    /// than two positional arguments after the program name are refused.
    pub fn build(args: &[String], ignore_case: bool) -> (r: Result<EnvConfig, &'static str>)
        ensures
            args@.len() >= 3 ==> (r matches Ok(c) && c.query@ == args@[1]@ && c.file_path@
                == args@[2]@ && c.ignore_case == ignore_case),
            args@.len() < 3 ==> (r matches Err(m) && m@ == "not enough arguments"@),
    {
        if args.len() < 3 {
            return Err("not enough arguments");
        }
        let query: String = args[1].clone();
        let file_path: String = args[2].clone();
        Ok(EnvConfig { query, file_path, ignore_case })
    }
}

} // verus!
