//! Where the source is read from and where the assembly goes.
use vstd::prelude::*;
use vstd::string::*;

verus! {

/// The two paths of one run.
#[derive(Debug)]
pub struct Config {
    /// path of the source file
    pub entry: String,
    /// path of the assembly file
    pub dist: String,
}

/// The source path where the command line names none.
pub open spec fn default_entry() -> Seq<char> {
    "tmp.c"@
}

/// The output path where the command line names none.
pub open spec fn default_dist() -> Seq<char> {
    "tmp.s"@
}

impl Config {
    /// Reads the paths from the command line `args`, whose first word is
    /// the program's own name: the second word is the source path, the
    /// third the output path, and each has a default where it is missing.
    pub fn new(args: Vec<String>) -> (r: Config)
        ensures
            r.entry@ == if args@.len() > 1 {
                args@[1]@
            } else {
                default_entry()
            },
            r.dist@ == if args@.len() > 2 {
                args@[2]@
            } else {
                default_dist()
            },
    {
        let entry = if args.len() > 1 {
            args[1].clone()
        } else {
            String::from_str("tmp.c")
        };
        let dist = if args.len() > 2 {
            args[2].clone()
        } else {
            String::from_str("tmp.s")
        };
        Config { entry, dist }
    }
}

} // verus!
