use vstd::prelude::*;

use crate::text::{str_eq, string_views};

verus! {

/// What the command line asks for: an optional configuration file and the
/// template files to lint.
#[derive(Debug, PartialEq, Eq)]
pub struct Args {
    pub config_path: Option<String>,
    pub paths: Vec<String>,
}

/// A command line that cannot be used.
#[derive(Debug, PartialEq, Eq)]
pub enum CliError {
    MissingConfigPath,
    MissingInputFiles,
    UnknownFlag(String),
}

/// The mathematical value of [`CliError`].
pub enum CliErrorModel {
    MissingConfigPath,
    MissingInputFiles,
    UnknownFlag(Seq<char>),
}

/// The mathematical value of [`Args`]: the configuration path and the paths.
pub type ArgsModel = (Option<Seq<char>>, Seq<Seq<char>>);

/// The value of an optional string.
pub open spec fn opt_view(o: Option<String>) -> Option<Seq<char>> {
    match o {
        Some(s) => Some(s@),
        None => None,
    }
}

impl Args {
    /// The mathematical value of these arguments.
    pub open spec fn model(&self) -> ArgsModel {
        (opt_view(self.config_path), string_views(self.paths@))
    }
}

impl CliError {
    /// The mathematical value of this error.
    pub open spec fn model(&self) -> CliErrorModel {
        match self {
            CliError::MissingConfigPath => CliErrorModel::MissingConfigPath,
            CliError::MissingInputFiles => CliErrorModel::MissingInputFiles,
            CliError::UnknownFlag(flag) => CliErrorModel::UnknownFlag(flag@),
        }
    }

    /// The message that describes the error.
    pub fn message(&self) -> (text: String)
        ensures
            text@ == match self.model() {
                CliErrorModel::MissingConfigPath => "-c requires a config path"@,
                CliErrorModel::MissingInputFiles => "missing input file"@,
                CliErrorModel::UnknownFlag(flag) => "unknown flag: "@ + flag,
            },
    {
        match self {
            CliError::MissingConfigPath => String::from_str("-c requires a config path"),
            CliError::MissingInputFiles => String::from_str("missing input file"),
            CliError::UnknownFlag(flag) => {
                let mut text = String::from_str("unknown flag: ");
                text.append(flag.as_str());
                text
            },
        }
    }
}

/// The argument is a flag: it starts with `-`.
pub open spec fn is_flag(arg: Seq<char>) -> bool {
    arg.len() > 0 && arg[0] == '-'
}

/// Reads `args` from index `i` on, given the configuration path and the paths
/// read so far: `-c` takes the next argument as configuration path (a later
/// `-c` wins), another flag is an error, anything else is a path. The first
/// error stops the reading; without any path the command line is refused.
pub open spec fn read_args(
    args: Seq<Seq<char>>,
    i: int,
    config: Option<Seq<char>>,
    paths: Seq<Seq<char>>,
) -> Result<ArgsModel, CliErrorModel>
    decreases args.len() - i,
{
    if i < 0 || i >= args.len() {
        if paths.len() == 0 {
            Err(CliErrorModel::MissingInputFiles)
        } else {
            Ok((config, paths))
        }
    } else if args[i] == "-c"@ {
        if i + 1 >= args.len() {
            Err(CliErrorModel::MissingConfigPath)
        } else {
            read_args(args, i + 2, Some(args[i + 1]), paths)
        }
    } else if is_flag(args[i]) {
        Err(CliErrorModel::UnknownFlag(args[i]))
    } else {
        read_args(args, i + 1, config, paths.push(args[i]))
    }
}

/// What a command line with arguments `args` asks for.
pub open spec fn parse_args(args: Seq<Seq<char>>) -> Result<ArgsModel, CliErrorModel> {
    read_args(args, 0, None, seq![])
}

proof fn lemma_plain_arguments_from(args: Seq<Seq<char>>, i: int, paths: Seq<Seq<char>>)
    requires
        0 <= i <= args.len(),
        forall|k: int| 0 <= k < args.len() ==> !is_flag(#[trigger] args[k]),
    ensures
        read_args(args, i, None, paths) == if paths.len() + (args.len() - i) == 0 {
            Err::<ArgsModel, CliErrorModel>(CliErrorModel::MissingInputFiles)
        } else {
            Ok::<ArgsModel, CliErrorModel>((None, paths + args.skip(i)))
        },
    decreases args.len() - i,
{
    if i < args.len() {
        assert(args[i] != "-c"@) by {
            if args[i] == "-c"@ {
                reveal_strlit("-c");
                assert(is_flag(args[i]));
            }
        }
        lemma_plain_arguments_from(args, i + 1, paths.push(args[i]));
        assert(paths.push(args[i]) + args.skip(i + 1) =~= paths + args.skip(i));
    } else {
        assert(paths + args.skip(i) =~= paths);
    }
}

/// Arguments without flags are all files to lint, in order, with no
/// configuration file; no argument at all is refused.
pub proof fn lemma_plain_arguments_are_paths(args: Seq<Seq<char>>)
    requires
        forall|k: int| 0 <= k < args.len() ==> !is_flag(#[trigger] args[k]),
    ensures
        parse_args(args) == if args.len() == 0 {
            Err::<ArgsModel, CliErrorModel>(CliErrorModel::MissingInputFiles)
        } else {
            Ok::<ArgsModel, CliErrorModel>((None, args))
        },
{
    lemma_plain_arguments_from(args, 0, seq![]);
    assert(Seq::<Seq<char>>::empty() + args.skip(0) =~= args);
}

fn starts_with_dash(arg: &str) -> (res: bool)
    ensures
        res == is_flag(arg@),
{
    arg.unicode_len() > 0 && arg.get_char(0) == '-'
}

impl Args {
    /// Reads the command line arguments (without the program name).
    pub fn parse(raw_args: Vec<String>) -> (res: Result<Self, CliError>)
        ensures
            match res {
                Ok(args) => parse_args(string_views(raw_args@)) == Ok::<ArgsModel, CliErrorModel>(
                    args.model(),
                ),
                Err(error) => parse_args(string_views(raw_args@)) == Err::<ArgsModel, CliErrorModel>(
                    error.model(),
                ),
            },
    {
        let ghost all = string_views(raw_args@);
        let mut config_path: Option<String> = None;
        let mut paths: Vec<String> = Vec::new();
        let mut i: usize = 0;
        assert(string_views(paths@) =~= Seq::<Seq<char>>::empty());
        while i < raw_args.len()
            invariant
                all == string_views(raw_args@),
                i <= raw_args@.len(),
                parse_args(all) == read_args(
                    all,
                    i as int,
                    opt_view(config_path),
                    string_views(paths@),
                ),
            decreases raw_args.len() - i,
        {
            let arg = &raw_args[i];
            assert(all[i as int] == arg@);
            if str_eq(arg.as_str(), "-c") {
                if i + 1 >= raw_args.len() {
                    return Err(CliError::MissingConfigPath);
                }
                assert(all[i + 1] == raw_args@[i + 1]@);
                config_path = Some(raw_args[i + 1].clone());
                i = i + 2;
            } else if starts_with_dash(arg.as_str()) {
                return Err(CliError::UnknownFlag(arg.clone()));
            } else {
                let ghost before = string_views(paths@);
                paths.push(arg.clone());
                assert(string_views(paths@) =~= before.push(arg@));
                i = i + 1;
            }
        }
        if paths.len() == 0 {
            Err(CliError::MissingInputFiles)
        } else {
            Ok(Args { config_path, paths })
        }
    }
}

/// The usage line for the program named `program`.
pub fn usage(program: &str) -> (text: String)
    ensures
        text@ == "usage: "@ + program@ + " [-c config.toml] <file.tpl> [file.tpl ...]"@,
{
    let mut text = String::from_str("usage: ");
    text.append(program);
    text.append(" [-c config.toml] <file.tpl> [file.tpl ...]");
    text
}

} // verus!
