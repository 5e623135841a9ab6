//! What the compiler is asked to do.

use vstd::prelude::*;

verus! {

/// The settings of a run of the compiler.
pub struct Config {
    /// The source file to compile, without its directory and extension.
    pub filename: Option<String>,
    /// The directory that holds the sources.
    pub src_dir: String,
}

/// The file that the arguments name: the last of them, the program's own name apart.
pub open spec fn named_file(args: Seq<String>) -> Option<Seq<char>> {
    if args.len() >= 2 {
        Some(args.last()@)
    } else {
        None
    }
}

impl Config {
    /// No file, and sources in the directory `samples`.
    pub fn default() -> (config: Config)
        ensures
            config.filename is None,
            config.src_dir@ == "samples"@,
    {
        Config { filename: None, src_dir: String::from_str("samples") }
    }

    /// The settings that the arguments of the program ask for. The first
    /// argument is the program's own name; each further argument names the
    /// file to compile, and the last one counts.
    pub fn from_args(args: &Vec<String>) -> (config: Config)
        ensures
            config.src_dir@ == "samples"@,
            match config.filename {
                Some(name) => named_file(args@) == Some(name@),
                None => named_file(args@) is None,
            },
    {
        let mut config = Config::default();
        let mut index: usize = 1;
        while index < args.len()
            invariant
                1 <= index,
                config.src_dir@ == "samples"@,
                index == 1 ==> config.filename is None,
                index > 1 ==> index <= args.len() && config.filename is Some && config.filename->0@
                    == args@[index - 1]@,
            decreases args.len() - index,
        {
            config.filename = Some(args[index].clone());
            index += 1;
        }
        config
    }
}

} // verus!
