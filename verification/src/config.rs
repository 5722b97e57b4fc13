//! What a run is asked to do, read from its arguments.

use vstd::prelude::*;
use vstd::string::StringExecFns;

verus! {

/// The direction of a run.
#[derive(Debug, Clone, Copy, PartialEq, Eq, Structural)]
pub enum Mode {
    Compress,
    Decompress,
}

/// The program's name, the direction, and the two file names.
#[derive(Debug)]
pub struct Config {
    pub rootdir: String,
    pub mode: Mode,
    pub inpfname: String,
    pub outfname: String,
}

/// The direction that an argument names, if it names one.
pub open spec fn mode_of(arg: Seq<char>) -> Option<Mode> {
    if arg == "compress"@ {
        Some(Mode::Compress)
    } else if arg == "decompress"@ {
        Some(Mode::Decompress)
    } else {
        None
    }
}

impl Config {
    /// Reads the arguments: the program's name, the direction, the input
    /// file, and optionally the output file, which is `out.txt` otherwise.
    pub fn new(args: Vec<String>) -> (result: Result<Config, &'static str>)
        ensures
            match result {
                Ok(config) => {
                    &&& args.len() >= 3
                    &&& mode_of(args[1]@) == Some(config.mode)
                    &&& config.rootdir@ == args[0]@
                    &&& config.inpfname@ == args[2]@
                    &&& config.outfname@ == if args.len() > 3 {
                        args[3]@
                    } else {
                        "out.txt"@
                    }
                },
                Err(message) => if args.len() < 3 {
                    message@ == "you must specify the mode and the input file."@
                } else {
                    mode_of(args[1]@) is None && message@
                        == "the first argument allows only two options: \"compress\" or \"decompress\"."@
                },
            },
    {
        if args.len() < 3 {
            return Err("you must specify the mode and the input file.");
        }
        let rootdir = args[0].clone();
        let mode;
        if args[1] == String::from_str("compress") {
            mode = Mode::Compress;
        } else if args[1] == String::from_str("decompress") {
            mode = Mode::Decompress;
        } else {
            return Err(
                "the first argument allows only two options: \"compress\" or \"decompress\".",
            );
        }
        let inpfname = args[2].clone();
        let outfname;
        if args.len() > 3 {
            outfname = args[3].clone();
        } else {
            outfname = String::from_str("out.txt");
        }
        Ok(Config { rootdir, mode, inpfname, outfname })
    }
}

} // verus!
