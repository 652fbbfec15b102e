//! Extractor configuration: one matcher per channel, and where to record
//! the readings.

use crate::matcher::{regex_compiles, InvalidPattern, Matcher};
use std::path::PathBuf;
use vstd::prelude::*;

verus! {

// A path is carried through as it was given; nothing here looks into it.
#[verifier::external_type_specification]
#[verifier::external_body]
pub struct ExPathBuf(PathBuf);

/// The pattern of the single channel of the default configuration: a number
/// between two `$`. The delimiters keep a number that arrives in two pieces
/// from being read as two numbers.
pub const DEFAULT_PATTERN: &'static str = r"\$([+|-]?\d*\.?\d*)\$";

/// Extractor configuration. Channel `i` is read by `matchers[i]`, so the
/// number of matchers is the number of channels.
///
/// Each pattern is expected to hold exactly one capture group, around the
/// text of a number. This is not checked. With a pattern that has no
/// capture group, or whose group can stay out of a match, such a match
/// yields no reading; of several groups, the first is read.
pub struct Config {
    /// Matcher for each channel, ordered by index.
    pub matchers: Vec<Matcher>,
    /// Path of the file to record readings in, if any.
    pub csv: Option<PathBuf>,
}

/// Why a configuration could not be built.
#[derive(Clone, Copy, Debug, PartialEq, Eq, Structural)]
pub enum ConfigError {
    /// The pattern at this index did not compile.
    InvalidPattern(usize),
}

/// The patterns of a list of matchers, in order.
pub open spec fn patterns_of(matchers: Seq<Matcher>) -> Seq<Seq<char>> {
    matchers.map_values(|m: Matcher| m@)
}

/// The views of a list of strings, in order.
pub open spec fn texts_of(strings: Seq<String>) -> Seq<Seq<char>> {
    strings.map_values(|s: String| s@)
}

/// The patterns a configuration is asked for: those given, or the default
/// one when none are.
pub open spec fn requested(patterns: Option<Vec<String>>) -> Seq<Seq<char>> {
    match patterns {
        Some(list) => texts_of(list@),
        None => seq![DEFAULT_PATTERN@],
    }
}

/// `at` is the first attempt that failed.
pub open spec fn first_failure(attempts: Seq<Result<Matcher, InvalidPattern>>, at: int) -> bool {
    &&& 0 <= at < attempts.len()
    &&& attempts[at] is Err
    &&& forall|i: int| 0 <= i < at ==> (#[trigger] attempts[i]) is Ok
}

/// Every attempt succeeded, and `matchers` are what they gave, in order.
pub open spec fn all_compiled(
    attempts: Seq<Result<Matcher, InvalidPattern>>,
    matchers: Seq<Matcher>,
) -> bool {
    &&& matchers.len() == attempts.len()
    &&& forall|i: int|
        0 <= i < attempts.len() ==> (#[trigger] attempts[i]) == Ok::<Matcher, InvalidPattern>(
            matchers[i],
        )
}

/// What was asked for once each pattern has been handed to the compiler:
/// an attempt succeeded where its pattern compiles, and then it is the
/// matcher of that pattern.
pub open spec fn attempted(
    attempts: Seq<Result<Matcher, InvalidPattern>>,
    patterns: Seq<Seq<char>>,
) -> bool {
    &&& attempts.len() == patterns.len()
    &&& forall|i: int|
        0 <= i < attempts.len() ==> {
            &&& (#[trigger] attempts[i]) is Ok <==> regex_compiles(patterns[i])
            &&& attempts[i] matches Ok(m) ==> m@ == patterns[i]
        }
}

/// Every pattern compiles.
pub open spec fn all_compile(patterns: Seq<Seq<char>>) -> bool {
    forall|i: int| 0 <= i < patterns.len() ==> regex_compiles(#[trigger] patterns[i])
}

/// `at` is the first pattern that does not compile.
pub open spec fn first_invalid(patterns: Seq<Seq<char>>, at: int) -> bool {
    &&& 0 <= at < patterns.len()
    &&& !regex_compiles(patterns[at])
    &&& forall|i: int| 0 <= i < at ==> regex_compiles(#[trigger] patterns[i])
}

impl Config {
    /// The pattern of each channel.
    pub open spec fn patterns(&self) -> Seq<Seq<char>> {
        patterns_of(self.matchers@)
    }

    /// The number of channels.
    pub fn channels(&self) -> (n: usize)
        ensures
            n == self.patterns().len(),
    {
        self.matchers.len()
    }

    /// Makes a configuration of one compilation attempt per channel. It
    /// takes all of them to have succeeded: there is no configuration with
    /// only some of the channels. Otherwise the first attempt that failed
    /// is reported.
    pub fn assemble(attempts: Vec<Result<Matcher, InvalidPattern>>, csv: Option<PathBuf>) -> (r:
        Result<Config, ConfigError>)
        ensures
            match r {
                Ok(config) => all_compiled(attempts@, config.matchers@) && config.csv == csv,
                Err(ConfigError::InvalidPattern(at)) => first_failure(attempts@, at as int),
            },
    {
        let mut matchers: Vec<Matcher> = Vec::new();
        let mut failed: Option<usize> = None;
        let mut at: usize = 0;
        let total: usize = attempts.len();
        for attempt in it: attempts
            invariant
                at == it.index(),
                total == attempts@.len(),
                it.seq() == attempts@,
                match failed {
                    None => all_compiled(attempts@.take(at as int), matchers@),
                    Some(first) => first < at && first_failure(attempts@, first as int),
                },
        {
            assert(at < total);
            assert(attempt == attempts@[at as int]);
            let ghost before = matchers@;
            match attempt {
                Ok(matcher) => {
                    if failed.is_none() {
                        matchers.push(matcher);
                        proof {
                            assert forall|i: int| 0 <= i < at + 1 implies (#[trigger] attempts@.take(
                                at + 1,
                            )[i]) == Ok::<Matcher, InvalidPattern>(matchers@[i]) by {
                                if i < at {
                                    assert(attempts@.take(at as int)[i] == Ok::<
                                        Matcher,
                                        InvalidPattern,
                                    >(before[i]));
                                }
                            }
                        }
                    }
                },
                Err(_) => {
                    if failed.is_none() {
                        failed = Some(at);
                        proof {
                            assert forall|i: int| 0 <= i < at implies (#[trigger] attempts@[i])
                                is Ok by {
                                assert(attempts@.take(at as int)[i] is Ok);
                            }
                        }
                    }
                },
            }
            at = at + 1;
        }
        match failed {
            None => {
                proof {
                    assert(attempts@.take(at as int) =~= attempts@);
                }
                Ok(Config { matchers, csv })
            },
            Some(first) => Err(ConfigError::InvalidPattern(first)),
        }
    }

    /// Hands every pattern to the compiler, in order.
    fn attempt(patterns: &Option<Vec<String>>) -> (attempts: Vec<Result<Matcher, InvalidPattern>>)
        ensures
            attempted(attempts@, requested(*patterns)),
    {
        let mut attempts: Vec<Result<Matcher, InvalidPattern>> = Vec::new();
        match patterns {
            None => {
                attempts.push(Matcher::new(DEFAULT_PATTERN));
            },
            Some(list) => {
                let mut at: usize = 0;
                while at < list.len()
                    invariant
                        at <= list.len(),
                        requested(*patterns) == texts_of(list@),
                        attempted(attempts@, texts_of(list@.take(at as int))),
                    decreases list.len() - at,
                {
                    let ghost before = attempts@;
                    attempts.push(Matcher::new(list[at].as_str()));
                    proof {
                        let wanted = texts_of(list@.take(at + 1));
                        assert forall|i: int| 0 <= i < attempts@.len() implies {
                            &&& (#[trigger] attempts@[i]) is Ok <==> regex_compiles(wanted[i])
                            &&& attempts@[i] matches Ok(m) ==> m@ == wanted[i]
                        } by {
                            if i < at {
                                assert(attempts@[i] == before[i]);
                                assert(texts_of(list@.take(at as int))[i] == wanted[i]);
                            }
                        }
                    }
                    at = at + 1;
                }
                proof {
                    assert(list@.take(at as int) =~= list@);
                }
            },
        }
        attempts
    }

    /// Compiles one matcher per pattern, in order. Without patterns the
    /// configuration has the single channel of [`DEFAULT_PATTERN`]. It
    /// takes every pattern to compile; otherwise the first pattern that
    /// does not is reported, and there is no configuration.
    pub fn build(patterns: Option<Vec<String>>, csv: Option<PathBuf>) -> (r: Result<
        Config,
        ConfigError,
    >)
        ensures
            r is Ok <==> all_compile(requested(patterns)),
            match r {
                Ok(config) => config.patterns() == requested(patterns) && config.csv == csv,
                Err(ConfigError::InvalidPattern(at)) => first_invalid(
                    requested(patterns),
                    at as int,
                ),
            },
    {
        let attempts = Config::attempt(&patterns);
        let ghost tried = attempts@;
        let r = Config::assemble(attempts, csv);
        proof {
            match &r {
                Ok(config) => {
                    assert forall|i: int| 0 <= i < tried.len() implies config.patterns()[i]
                        == requested(patterns)[i] && regex_compiles(
                        #[trigger] requested(patterns)[i],
                    ) by {
                        assert(tried[i] == Ok::<Matcher, InvalidPattern>(config.matchers@[i]));
                    }
                    assert(config.patterns() =~= requested(patterns));
                },
                Err(ConfigError::InvalidPattern(at)) => {
                    assert(tried[*at as int] is Err);
                    assert forall|i: int| 0 <= i < *at implies regex_compiles(
                        #[trigger] requested(patterns)[i],
                    ) by {
                        assert(tried[i] is Ok);
                    }
                },
            }
        }
        r
    }
}

} // verus!
