//! Resolution of the search's settings from command-line values and the
//! host tool's configuration store.
//!
//! The caller gathers the raw command-line values and the relevant
//! configuration entries; `Args::resolve` applies the precedence rules,
//! validates the signature, and parses the configured variance.

use vstd::prelude::*;
use crate::error::GashError;
use crate::hash::is_hex_char;

verus! {

/// `c` is an ASCII decimal digit.
pub open spec fn is_digit_char(c: char) -> bool {
    48 <= c as int <= 57
}

/// Every character of `s` is a decimal digit.
pub open spec fn all_digit_chars(s: Seq<char>) -> bool {
    forall|i: int| 0 <= i < s.len() ==> is_digit_char(#[trigger] s[i])
}

/// The numeric value of a run of decimal digit characters.
pub open spec fn chars_value(s: Seq<char>) -> nat
    decreases s.len(),
{
    if s.len() == 0 {
        0
    } else {
        chars_value(s.drop_last()) * 10 + (s.last() as int - 48) as nat
    }
}

/// The shape a signed decimal integer string must have: an optional sign,
/// then at least one digit and nothing else.
pub open spec fn int_str_shape(s: Seq<char>) -> bool {
    if s.len() == 0 {
        false
    } else if s[0] == '+' || s[0] == '-' {
        s.len() > 1 && all_digit_chars(s.skip(1))
    } else {
        all_digit_chars(s)
    }
}

/// The magnitude a well-shaped integer string names.
pub open spec fn int_str_magnitude(s: Seq<char>) -> nat
    recommends
        int_str_shape(s),
{
    if s.len() > 0 && (s[0] == '+' || s[0] == '-') {
        chars_value(s.skip(1))
    } else {
        chars_value(s)
    }
}

/// The signed value a decimal integer string names, if it is well shaped
/// and fits a 64-bit signed integer.
pub open spec fn parse_i64_spec(s: Seq<char>) -> Option<int> {
    if int_str_shape(s) {
        let v: int = if s[0] == '-' {
            -(int_str_magnitude(s) as int)
        } else {
            int_str_magnitude(s) as int
        };
        if i64::MIN <= v <= i64::MAX {
            Some(v)
        } else {
            None
        }
    } else {
        None
    }
}

/// A digit prefix never names more than the whole run.
proof fn lemma_chars_value_prefix_le(s: Seq<char>, i: int)
    requires
        all_digit_chars(s),
        0 <= i <= s.len(),
    ensures
        chars_value(s.take(i)) <= chars_value(s),
    decreases s.len() - i,
{
    if i < s.len() {
        lemma_chars_value_prefix_le(s, i + 1);
        assert(s.take(i + 1).drop_last() =~= s.take(i));
        assert(s.take(i + 1).last() == s[i]);
        assert(chars_value(s.take(i + 1)) == chars_value(s.take(i)) * 10 + (s[i] as int
            - 48) as nat);
        assert(chars_value(s.take(i)) * 10 >= chars_value(s.take(i)));
    } else {
        assert(s.take(i) =~= s);
    }
}

/// Read a signed decimal integer, exactly as the standard parser does:
/// an optional sign, then digits, rejected on any other character or when
/// the value leaves the 64-bit signed range.
pub fn parse_i64(s: &str) -> (r: Option<i64>)
    ensures
        r is Some <==> parse_i64_spec(s@) is Some,
        r is Some ==> r->0 as int == parse_i64_spec(s@)->0,
{
    let n = s.unicode_len();
    if n == 0 {
        return None;
    }
    let c0 = s.get_char(0);
    let neg = c0 == '-';
    let start: usize = if c0 == '-' || c0 == '+' {
        1
    } else {
        0
    };
    if start >= n {
        return None;
    }
    let ghost digits: Seq<char> = if start == 1 {
        s@.skip(1)
    } else {
        s@
    };
    let mut acc: u64 = 0;
    let mut i: usize = start;
    while i < n
        invariant
            start <= i <= n == s@.len(),
            0 <= start <= 1,
            start == 1 ==> (s@[0] == '-' || s@[0] == '+'),
            start == 0 ==> !(s@[0] == '-' || s@[0] == '+'),
            n > start,
            neg == (s@[0] == '-'),
            digits == (if start == 1 {
                s@.skip(1)
            } else {
                s@
            }),
            forall|k: int| start <= k < i ==> is_digit_char(#[trigger] s@[k]),
            acc as nat == chars_value(digits.take(i - start)),
            acc < 10_000_000_000_000_000_000,
        decreases n - i,
    {
        let c = s.get_char(i);
        let u = c as u32;
        proof {
            assert(u as int == c as int);
        }
        if !(48 <= u && u <= 57) {
            proof {
                assert(!is_digit_char(s@[i as int]));
                if int_str_shape(s@) {
                    if start == 1 {
                        assert(is_digit_char(s@.skip(1)[i - 1]));
                    } else {
                        assert(is_digit_char(s@[i as int]));
                    }
                    assert(false);
                }
            }
            return None;
        }
        if acc >= 1_000_000_000_000_000_000 {
            proof {
                if parse_i64_spec(s@) is Some {
                    assert(int_str_shape(s@));
                    assert(all_digit_chars(digits));
                    let cur = digits.take(i - start);
                    let next = digits.take(i + 1 - start);
                    assert(next.drop_last() =~= cur);
                    assert(next.last() == s@[i as int]);
                    assert(chars_value(next) == acc * 10 + (s@[i as int] as int - 48) as nat);
                    assert(chars_value(next) >= 10_000_000_000_000_000_000);
                    lemma_chars_value_prefix_le(digits, i + 1 - start);
                    assert(int_str_magnitude(s@) == chars_value(digits));
                    assert(int_str_magnitude(s@) >= 10_000_000_000_000_000_000);
                    assert(false);
                }
            }
            return None;
        }
        proof {
            let cur = digits.take(i - start);
            let next = digits.take(i + 1 - start);
            assert(next.drop_last() =~= cur);
            assert(next.last() == s@[i as int]);
        }
        acc = acc * 10 + (u - 48) as u64;
        i = i + 1;
    }
    proof {
        assert(digits.take(n - start) =~= digits);
        assert(all_digit_chars(digits));
        assert(int_str_shape(s@));
        assert(int_str_magnitude(s@) == acc as nat);
    }
    if neg {
        if acc > 9_223_372_036_854_775_808 {
            return None;
        }
        if acc == 9_223_372_036_854_775_808 {
            return Some(i64::MIN);
        }
        Some(-(acc as i64))
    } else {
        if acc > 9_223_372_036_854_775_807 {
            return None;
        }
        Some(acc as i64)
    }
}

/// Two strings hold the same characters.
fn str_eq(a: &str, b: &str) -> (r: bool)
    ensures
        r == (a@ == b@),
{
    let na = a.unicode_len();
    let nb = b.unicode_len();
    if na != nb {
        return false;
    }
    let mut i: usize = 0;
    while i < na
        invariant
            0 <= i <= na == a@.len(),
            na == nb == b@.len(),
            forall|k: int| 0 <= k < i ==> a@[k] == b@[k],
        decreases na - i,
    {
        if a.get_char(i) != b.get_char(i) {
            return false;
        }
        i = i + 1;
    }
    proof {
        assert(a@ =~= b@);
    }
    true
}

/// The configuration entry holds the word "true".
pub(crate) fn config_is_true(s: &String) -> (r: bool)
    ensures
        r == (s@ == "true"@),
{
    str_eq(s.as_str(), "true")
}

/// The raw command-line values, as parsed by the embedding.
pub struct RawArgs {
    /// The requested signature, if one was given on the command line.
    pub signature: Option<String>,
    /// The requested maximum variance, if one was given on the command line.
    pub max_variance: Option<i64>,
    /// Whether parallel search was requested on the command line.
    pub parallel: bool,
    /// Whether progress output was requested on the command line.
    pub progress: bool,
    /// Whether colored output was requested on the command line.
    pub color: bool,
    /// Whether the signature is to be matched as a suffix.
    pub stealth: bool,
    /// Search even when the current digest already carries the signature.
    pub force: bool,
    /// Print the hash without rewriting anything.
    pub dry_run: bool,
    /// Output verbosity.
    pub verbosity: usize,
}

/// The relevant entries of the host tool's configuration store.
pub struct ConfigValues {
    /// The configured default signature.
    pub default_signature: Option<String>,
    /// The configured maximum variance, as its raw text.
    pub max_variance: Option<String>,
    /// The configured parallel flag, as its raw text.
    pub parallel: Option<String>,
    /// The configured progress flag, as its raw text.
    pub progress: Option<String>,
    /// The configured color flag, as its raw text.
    pub color: Option<String>,
    /// The configured stealth flag, as its raw text.
    pub stealth: Option<String>,
}

/// The signature that applies: the command line wins over the configured
/// default.
pub open spec fn picked_signature(cli: RawArgs, cfg: ConfigValues) -> Option<Seq<char>> {
    if cli.signature is Some {
        Some(cli.signature->0@)
    } else if cfg.default_signature is Some {
        Some(cfg.default_signature->0@)
    } else {
        None
    }
}

/// A boolean setting holds when its flag was given or its configuration
/// entry is the word "true".
pub open spec fn bool_setting(flag: bool, cfg: Option<String>) -> bool {
    flag || (cfg is Some && cfg->0@ == "true"@)
}

/// Every character of `s` is a hex character.
pub open spec fn all_hex(s: Seq<char>) -> bool {
    forall|i: int| 0 <= i < s.len() ==> is_hex_char(#[trigger] s[i])
}

/// The variance that applies: the command line wins; otherwise the
/// configuration entry is parsed; otherwise one hour.
pub open spec fn picked_variance(cli: RawArgs, cfg: ConfigValues) -> Option<int> {
    if cli.max_variance is Some {
        Some(cli.max_variance->0 as int)
    } else if cfg.max_variance is Some {
        parse_i64_spec(cfg.max_variance->0@)
    } else {
        Some(3600)
    }
}

/// The resolved settings of one run.
pub struct Args {
    signature: String,
    max_variance: i64,
    parallel: bool,
    progress: bool,
    color: bool,
    stealth: bool,
    /// Search even when the current digest already carries the signature.
    pub force: bool,
    /// Print the hash without rewriting anything.
    pub dry_run: bool,
    /// Output verbosity.
    pub verbosity: usize,
}

/// What resolved settings stand for.
pub struct ArgsView {
    pub signature: Seq<char>,
    pub max_variance: int,
    pub parallel: bool,
    pub progress: bool,
    pub color: bool,
    pub stealth: bool,
    pub force: bool,
    pub dry_run: bool,
    pub verbosity: int,
}

impl View for Args {
    type V = ArgsView;

    closed spec fn view(&self) -> ArgsView {
        ArgsView {
            signature: self.signature@,
            max_variance: self.max_variance as int,
            parallel: self.parallel,
            progress: self.progress,
            color: self.color,
            stealth: self.stealth,
            force: self.force,
            dry_run: self.dry_run,
            verbosity: self.verbosity as int,
        }
    }
}

impl Args {
    /// Apply the precedence and validation rules to the raw values.
    ///
    /// The signature must be present somewhere, at most forty characters,
    /// and (unless it is the special word "hook") all hex; a configured
    /// variance must parse as a signed integer.
    pub fn resolve(cli: &RawArgs, cfg: &ConfigValues) -> (r: Result<Args, GashError>)
        ensures
            picked_signature(*cli, *cfg) is None ==> r == Err::<Args, GashError>(
                GashError::NoSignature,
            ),
            picked_signature(*cli, *cfg) matches Some(sig) && sig.len() > 40 ==> r == Err::<
                Args,
                GashError,
            >(GashError::SignatureTooLong),
            picked_signature(*cli, *cfg) matches Some(sig) && sig.len() <= 40 && sig != "hook"@
                && !all_hex(sig) ==> r == Err::<Args, GashError>(GashError::SignatureNotHex),
            picked_signature(*cli, *cfg) matches Some(sig) && sig.len() <= 40 && (sig == "hook"@
                || all_hex(sig)) && picked_variance(*cli, *cfg) is None ==> r == Err::<
                Args,
                GashError,
            >(GashError::BadMaxVariance),
            r is Ok <==> (picked_signature(*cli, *cfg) matches Some(sig) && sig.len() <= 40 && (sig
                == "hook"@ || all_hex(sig)) && picked_variance(*cli, *cfg) is Some),
            r matches Ok(a) ==> a@ == (ArgsView {
                signature: picked_signature(*cli, *cfg)->0,
                max_variance: picked_variance(*cli, *cfg)->0,
                parallel: bool_setting(cli.parallel, cfg.parallel),
                progress: bool_setting(cli.progress, cfg.progress),
                color: bool_setting(cli.color, cfg.color),
                stealth: bool_setting(cli.stealth, cfg.stealth),
                force: cli.force,
                dry_run: cli.dry_run,
                verbosity: cli.verbosity as int,
            }),
    {
        let signature: String = match &cli.signature {
            Some(s) => s.clone(),
            None => match &cfg.default_signature {
                Some(s) => s.clone(),
                None => {
                    return Err(GashError::NoSignature);
                },
            },
        };
        assert(picked_signature(*cli, *cfg) == Some(signature@));
        if signature.as_str().unicode_len() > 40 {
            return Err(GashError::SignatureTooLong);
        }
        if !str_eq(signature.as_str(), "hook") {
            let n = signature.as_str().unicode_len();
            let mut i: usize = 0;
            while i < n
                invariant
                    0 <= i <= n == signature@.len(),
                    picked_signature(*cli, *cfg) == Some(signature@),
                    signature@.len() <= 40,
                    signature@ != "hook"@,
                    forall|k: int| 0 <= k < i ==> is_hex_char(#[trigger] signature@[k]),
                decreases n - i,
            {
                let c = signature.as_str().get_char(i);
                let u = c as u32;
                proof {
                    assert(u as int == c as int);
                }
                if !((48 <= u && u <= 57) || (97 <= u && u <= 102)) {
                    proof {
                        assert(!is_hex_char(signature@[i as int]));
                    }
                    return Err(GashError::SignatureNotHex);
                }
                i = i + 1;
            }
            proof {
                assert(all_hex(signature@));
            }
        }
        let max_variance: i64 = match cli.max_variance {
            Some(v) => v,
            None => match &cfg.max_variance {
                Some(s) => match parse_i64(s.as_str()) {
                    Some(v) => v,
                    None => {
                        return Err(GashError::BadMaxVariance);
                    },
                },
                None => 3600,
            },
        };
        let parallel = cli.parallel || match &cfg.parallel {
            Some(s) => str_eq(s.as_str(), "true"),
            None => false,
        };
        let progress = cli.progress || match &cfg.progress {
            Some(s) => str_eq(s.as_str(), "true"),
            None => false,
        };
        let color = cli.color || match &cfg.color {
            Some(s) => str_eq(s.as_str(), "true"),
            None => false,
        };
        let stealth = cli.stealth || match &cfg.stealth {
            Some(s) => str_eq(s.as_str(), "true"),
            None => false,
        };
        Ok(
            Args {
                signature,
                max_variance,
                parallel,
                progress,
                color,
                stealth,
                force: cli.force,
                dry_run: cli.dry_run,
                verbosity: cli.verbosity,
            },
        )
    }

    /// The signature to search for.
    pub fn signature(&self) -> (r: String)
        ensures
            r@ == self@.signature,
    {
        self.signature.clone()
    }

    /// The maximum timestamp adjustment, in seconds.
    pub fn max_variance(&self) -> (r: i64)
        ensures
            r == self@.max_variance,
    {
        self.max_variance
    }

    /// Whether to search across the thread pool.
    pub fn parallel(&self) -> (r: bool)
        ensures
            r == self@.parallel,
    {
        self.parallel
    }

    /// Whether to report progress while searching.
    pub fn progress(&self) -> (r: bool)
        ensures
            r == self@.progress,
    {
        self.progress
    }

    /// Whether to color terminal output.
    pub fn color(&self) -> (r: bool)
        ensures
            r == self@.color,
    {
        self.color
    }

    /// Whether the signature is matched as a suffix.
    pub fn stealth(&self) -> (r: bool)
        ensures
            r == self@.stealth,
    {
        self.stealth
    }

    /// The output verbosity.
    pub fn verbosity(&self) -> (r: usize)
        ensures
            r == self@.verbosity,
    {
        self.verbosity
    }
}

} // verus!
