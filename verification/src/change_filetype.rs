//! The decisions of a small tool that renames the files of a folder from one
//! extension to another: what its arguments ask for, and what a file's new
//! name is. Reading the folder and renaming files is left to the caller.
use vstd::prelude::*;
use vstd::string::StringExecFns;

verus! {

/// What the tool was asked to do: the folder to look in, the extension to
/// rename from and the one to rename to, each with its leading dot.
pub struct CFTConfig {
    pub path: String,
    pub from: String,
    pub to: String,
}

/// What the tool does with its arguments.
pub enum RunPlan {
    /// Show how to call the tool.
    Help,
    /// No argument was given.
    MissingArguments,
    /// The arguments do not make a configuration; the message says why.
    Invalid(String),
    /// Rename the files as the configuration says.
    Run(CFTConfig),
}

impl CFTConfig {
    /// The configuration of the three arguments folder, old extension and new
    /// extension, or a message if there are not exactly three.
    pub fn build(args: Vec<String>) -> (r: Result<CFTConfig, String>)
        ensures
            args.len() != 3 ==> (r matches Err(e) && e@ == "3 Arguments required."@),
            args.len() == 3 ==> (r matches Ok(c) && c.path@ == args[0]@ && c.from@ == args[1]@
                && c.to@ == args[2]@),
    {
        let mut args = args;
        if args.len() != 3 {
            return Err(String::from_str("3 Arguments required."));
        }
        let path = args.remove(0);
        let from = args.remove(0);
        let to = args.remove(0);
        Ok(CFTConfig { path, from, to })
    }

    /// The new name of a file with name `file_stem` and extension `extension`
    /// (without its dot), if the extension is the one to rename from.
    pub fn new_file_name(&self, file_stem: &str, extension: &str) -> (r: Option<String>)
        ensures
            r is Some <==> seq!['.'] + extension@ == self.from@,
            r matches Some(name) ==> name@ == file_stem@ + self.to@,
    {
        let mut dotted = String::from_str(".");
        proof {
            reveal_strlit(".");
        }
        dotted.append(extension);
        assert(dotted@ =~= seq!['.'] + extension@);
        if !(dotted == self.from) {
            return None;
        }
        let mut name = String::from_str(file_stem);
        name.append(self.to.as_str());
        Some(name)
    }
}

/// What the tool does with the arguments it was started with (the program's
/// own name left out): a first argument `help` asks for help, no argument at
/// all is an error, and otherwise the arguments must make a configuration.
pub fn plan_run(args: Vec<String>) -> (r: RunPlan)
    ensures
        args.len() == 0 ==> r is MissingArguments,
        args.len() > 0 && args[0]@ == "help"@ ==> r is Help,
        args.len() > 0 && args[0]@ != "help"@ && args.len() != 3 ==> (r matches RunPlan::Invalid(e)
            && e@ == "3 Arguments required."@),
        args.len() == 3 && args[0]@ != "help"@ ==> (r matches RunPlan::Run(c) && c.path@ == args[0]@
            && c.from@ == args[1]@ && c.to@ == args[2]@),
{
    if args.len() == 0 {
        return RunPlan::MissingArguments;
    }
    let help = String::from_str("help");
    if args[0] == help {
        return RunPlan::Help;
    }
    match CFTConfig::build(args) {
        Ok(conf) => RunPlan::Run(conf),
        Err(e) => RunPlan::Invalid(e),
    }
}

} // verus!
