//! The configuration of a run, resolved from the arguments of the program.
use vstd::prelude::*;
use vstd::string::StringExecFns;
use crate::encoding::{lemma_encode_len, lemma_first_byte};
use crate::scan::same_text;

verus! {

/// What a search needs to know: the text to look for, the file to look in,
/// and whether case counts.
#[derive(Debug)]
pub struct Config {
    pub query: String,
    pub file_path: String,
    pub ignore_case: bool,
}

/// A configuration as plain values.
pub ghost struct ConfigView {
    pub query: Seq<char>,
    pub file_path: Seq<char>,
    pub ignore_case: bool,
}

impl View for Config {
    type V = ConfigView;

    open spec fn view(&self) -> ConfigView {
        ConfigView { query: self.query@, file_path: self.file_path@, ignore_case: self.ignore_case }
    }
}

/// An option is a dash followed by at least one more character.
pub open spec fn option_token(arg: Seq<char>) -> bool {
    arg.len() > 1 && arg[0] == '-'
}

/// The arguments after the first, which names the program.
pub open spec fn given(args: Seq<Seq<char>>) -> Seq<Seq<char>> {
    if args.len() == 0 {
        args
    } else {
        args.skip(1)
    }
}

/// The positional tokens: the given arguments that are no options, in order.
pub open spec fn positionals(args: Seq<Seq<char>>) -> Seq<Seq<char>> {
    given(args).filter(|arg: Seq<char>| !option_token(arg))
}

/// The item of `tokens` at `index`, or the empty text where there is none.
pub open spec fn nth_or_empty(tokens: Seq<Seq<char>>, index: int) -> Seq<char> {
    if 0 <= index < tokens.len() {
        tokens[index]
    } else {
        Seq::empty()
    }
}

/// Whether one of `targets` stands among the given arguments.
pub open spec fn names_any(args: Seq<Seq<char>>, targets: Seq<Seq<char>>) -> bool {
    exists|i: int, j: int|
        0 <= i < given(args).len() && 0 <= j < targets.len() && given(args)[i] == targets[j]
}

/// Whether the value of the environment's switch asks to ignore case: it is
/// set, and to something other than `0`.
pub open spec fn env_enables(value: Option<Seq<char>>) -> bool {
    match value {
        Some(text) => text != "0"@,
        None => false,
    }
}

/// The two names of the option that asks to ignore case.
pub open spec fn ignore_case_names() -> Seq<Seq<char>> {
    seq!["-i"@, "--ignore-case"@]
}

/// The configuration that `args` and the environment's switch resolve to,
/// or `None` where they resolve to none: with fewer than two positional
/// tokens, or with an empty one among the first two.
pub open spec fn resolved(args: Seq<Seq<char>>, env: Option<Seq<char>>) -> Option<ConfigView> {
    let found = positionals(args);
    if found.len() >= 2 && found[0].len() > 0 && found[1].len() > 0 {
        Some(
            ConfigView {
                query: found[0],
                file_path: found[1],
                ignore_case: env_enables(env) || names_any(args, ignore_case_names()),
            },
        )
    } else {
        None
    }
}

impl Config {
    /// A configuration that was resolved holds a query and a file path with
    /// text in them.
    pub open spec fn well_formed(&self) -> bool {
        self.query@.len() > 0 && self.file_path@.len() > 0
    }

    /// Whether `arg` is an option: a dash and at least one more character.
    pub fn is_option(arg: &str) -> (option: bool)
        ensures
            option == option_token(arg@),
    {
        let bytes = arg.as_bytes();
        proof {
            lemma_encode_len(arg@);
            if arg@.len() > 0 {
                lemma_first_byte(arg@);
                lemma_encode_len(arg@.drop_first());
            }
        }
        bytes.len() > 1 && bytes[0] == 0x2d
    }

    /// Whether the environment's switch asks to ignore case, from the value
    /// it was found with: `None` where it is not set.
    pub fn check_env(value: Option<&str>) -> (enabled: bool)
        ensures
            enabled == env_enables(value.deep_view()),
    {
        match value {
            Some(text) => !same_text(text, "0"),
            None => false,
        }
    }

    /// Whether one of `targets` stands among the arguments after the first.
    pub fn check_options(args: &[String], targets: &[String]) -> (named: bool)
        ensures
            named == names_any(args.deep_view(), targets.deep_view()),
    {
        let ghost rest = given(args.deep_view());
        let mut j: usize = 0;
        while j < targets.len()
            invariant
                0 <= j <= targets.len(),
                rest == given(args.deep_view()),
                forall|i: int, k: int|
                    0 <= i < rest.len() && 0 <= k < j ==> rest[i] != targets.deep_view()[k],
            decreases targets.len() - j,
        {
            let mut i: usize = 1;
            while i < args.len()
                invariant
                    1 <= i,
                    j < targets.len(),
                    rest == given(args.deep_view()),
                    forall|n: int|
                        0 <= n < i - 1 && n < rest.len() ==> rest[n] != targets.deep_view()[j as int],
                decreases args.len() - i,
            {
                if args[i] == targets[j] {
                    proof {
                        assert(rest[i - 1] == args.deep_view()[i as int]);
                        assert(rest[i - 1] == targets.deep_view()[j as int]);
                    }
                    return true;
                }
                proof {
                    assert(rest[i - 1] == args.deep_view()[i as int]);
                }
                i += 1;
            }
            j += 1;
        }
        false
    }

    /// The first two positional tokens of `args`, as query and file path;
    /// the empty text stands for one that is not there.
    pub fn get_query_and_file_path(args: &[String]) -> (pair: (String, String))
        ensures
            pair.0@ == nth_or_empty(positionals(args.deep_view()), 0),
            pair.1@ == nth_or_empty(positionals(args.deep_view()), 1),
    {
        let ghost rest = given(args.deep_view());
        let ghost keep = |arg: Seq<char>| !option_token(arg);
        let mut query = String::new();
        let mut file_path = String::new();
        let mut seen: usize = 0;
        let mut i: usize = 1;
        proof {
            reveal(Seq::filter);
            assert(rest.take(0).filter(keep) =~= Seq::empty());
        }
        while i < args.len() && seen < 2
            invariant
                rest == given(args.deep_view()),
                keep == (|arg: Seq<char>| !option_token(arg)),
                1 <= i,
                i - 1 <= rest.len(),
                seen <= 2,
                seen == rest.take(i - 1).filter(keep).len(),
                query@ == nth_or_empty(rest.take(i - 1).filter(keep), 0),
                file_path@ == nth_or_empty(rest.take(i - 1).filter(keep), 1),
            decreases args.len() - i,
        {
            proof {
                let before = rest.take(i - 1);
                assert(rest.take(i as int) =~= before.push(rest[i - 1]));
                before.lemma_filter_push(rest[i - 1], keep);
                assert(rest[i - 1] == args.deep_view()[i as int]);
            }
            if !Self::is_option(args[i].as_str()) {
                if seen == 0 {
                    query = args[i].clone();
                } else {
                    file_path = args[i].clone();
                }
                seen += 1;
            }
            i += 1;
        }
        proof {
            let before = rest.take(i - 1);
            let after = rest.skip(i - 1);
            assert(rest =~= before + after);
            Seq::filter_distributes_over_add(before, after, keep);
            if seen < 2 {
                assert(after =~= Seq::empty());
                assert(after.filter(keep) =~= Seq::empty()) by {
                    reveal(Seq::filter);
                }
            }
        }
        (query, file_path)
    }

    /// Resolves the arguments of the program, the first of which names it,
    /// and the value that the environment's switch was found with (`None`
    /// where it is not set) to a configuration. The first positional token
    /// is the query, the second the file path, and further ones are passed
    /// over. Case is ignored where the switch asks for it or an argument
    /// after the first is `-i` or `--ignore-case`. With fewer than two
    /// positional tokens there are not enough arguments; an empty argument
    /// is a positional token, and one that would become the query or the
    /// file path is refused in the same way.
    pub fn from(args: &[String], ignore_case_env: Option<&str>) -> (outcome: Result<
        Config,
        &'static str,
    >)
        ensures
            match outcome {
                Ok(config) => resolved(args.deep_view(), ignore_case_env.deep_view()) == Some(
                    config@,
                ) && config.well_formed(),
                Err(reason) => resolved(args.deep_view(), ignore_case_env.deep_view()) is None
                    && reason@ == "not enough arguments"@,
            },
    {
        let (query, file_path) = Self::get_query_and_file_path(args);
        if query.as_str().is_empty() || file_path.as_str().is_empty() {
            return Err("not enough arguments");
        }
        let targets = [String::from_str("-i"), String::from_str("--ignore-case")];
        proof {
            assert(targets.deep_view() =~= ignore_case_names());
        }
        let ignore_case = Self::check_env(ignore_case_env) || Self::check_options(
            args,
            targets.as_slice(),
        );
        Ok(Config { query, file_path, ignore_case })
    }
}

} // verus!
