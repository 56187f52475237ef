//! The older settings surface: the signature is called a prefix, there is
//! no suffix mode, and nothing validates the prefix's characters.  Kept
//! alongside the current resolution in `args`.

use vstd::prelude::*;
use crate::args::{bool_setting, picked_signature, picked_variance, ConfigValues, RawArgs};

verus! {

/// The resolved settings of one run, in the older shape.
pub struct Args {
    prefix: String,
    max_variance: i64,
    parallel: bool,
    progress: bool,
    color: bool,
    /// Search even when the current digest already carries the prefix.
    pub force: bool,
    /// Print the hash without rewriting anything.
    pub dry_run: bool,
    /// Output verbosity.
    pub verbosity: usize,
}

/// What the older settings stand for.
pub struct ArgsView {
    pub prefix: Seq<char>,
    pub max_variance: int,
    pub parallel: bool,
    pub progress: bool,
    pub color: bool,
    pub force: bool,
    pub dry_run: bool,
    pub verbosity: int,
}

impl View for Args {
    type V = ArgsView;

    closed spec fn view(&self) -> ArgsView {
        ArgsView {
            prefix: self.prefix@,
            max_variance: self.max_variance as int,
            parallel: self.parallel,
            progress: self.progress,
            color: self.color,
            force: self.force,
            dry_run: self.dry_run,
            verbosity: self.verbosity as int,
        }
    }
}

impl Args {
    /// Apply the precedence rules, without validating the prefix.  A
    /// prefix must be present somewhere and a configured variance must
    /// parse; the caller checks both before calling.
    pub fn resolve(cli: &RawArgs, cfg: &ConfigValues) -> (r: Args)
        requires
            picked_signature(*cli, *cfg) is Some,
            picked_variance(*cli, *cfg) is Some,
        ensures
            r@ == (ArgsView {
                prefix: picked_signature(*cli, *cfg)->0,
                max_variance: picked_variance(*cli, *cfg)->0,
                parallel: bool_setting(cli.parallel, cfg.parallel),
                progress: bool_setting(cli.progress, cfg.progress),
                color: bool_setting(cli.color, cfg.color),
                force: cli.force,
                dry_run: cli.dry_run,
                verbosity: cli.verbosity as int,
            }),
    {
        let prefix: String = match &cli.signature {
            Some(s) => s.clone(),
            None => match &cfg.default_signature {
                Some(s) => s.clone(),
                None => {
                    proof {
                        assert(false);
                    }
                    String::new()
                },
            },
        };
        let max_variance: i64 = match cli.max_variance {
            Some(v) => v,
            None => match &cfg.max_variance {
                Some(s) => match crate::args::parse_i64(s.as_str()) {
                    Some(v) => v,
                    None => {
                        proof {
                            assert(false);
                        }
                        3600
                    },
                },
                None => 3600,
            },
        };
        let parallel = cli.parallel || match &cfg.parallel {
            Some(s) => crate::args::config_is_true(s),
            None => false,
        };
        let progress = cli.progress || match &cfg.progress {
            Some(s) => crate::args::config_is_true(s),
            None => false,
        };
        let color = cli.color || match &cfg.color {
            Some(s) => crate::args::config_is_true(s),
            None => false,
        };
        Args {
            prefix,
            max_variance,
            parallel,
            progress,
            color,
            force: cli.force,
            dry_run: cli.dry_run,
            verbosity: cli.verbosity,
        }
    }

    /// The prefix to search for.
    pub fn prefix(&self) -> (r: String)
        ensures
            r@ == self@.prefix,
    {
        self.prefix.clone()
    }

    /// The maximum timestamp adjustment, in seconds.
    pub fn max_variance(&self) -> (r: i64)
        ensures
            r == self@.max_variance,
    {
        self.max_variance
    }

    /// Whether to search across the thread pool.
    pub fn parallel(&self) -> (r: bool)
        ensures
            r == self@.parallel,
    {
        self.parallel
    }

    /// Whether to report progress while searching.
    pub fn progress(&self) -> (r: bool)
        ensures
            r == self@.progress,
    {
        self.progress
    }

    /// Whether to color terminal output.
    pub fn color(&self) -> (r: bool)
        ensures
            r == self@.color,
    {
        self.color
    }
}

} // verus!
