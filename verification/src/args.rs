//! Command-line argument parsing.
//!
//! The accepted form is `[-n LEN] FILE`.  `-n` takes the next argument
//! as a decimal byte budget; without it the budget is unbounded.  Every
//! other argument names the file, the last one given winning.  A missing
//! or unparseable budget, or a missing file path, is an error.

use vstd::prelude::*;
use vstd::string::StrSliceExecFns;
use vstd::string::StringExecFns;

verus! {

/// Whether `c` is a decimal digit.
pub open spec fn is_dec_digit(c: char) -> bool {
    48 <= c as u32 && c as u32 <= 57
}

/// The value of the decimal digit `c`.
pub open spec fn digit_val(c: char) -> nat {
    (c as u32 - 48) as nat
}

/// The value of `s` read as decimal digits, most significant first.
pub open spec fn dec_val(s: Seq<char>) -> nat
    decreases s.len(),
{
    if s.len() == 0 {
        0
    } else {
        dec_val(s.drop_last()) * 10 + digit_val(s.last())
    }
}

/// The digits of a budget argument: everything after one optional
/// leading plus sign.
pub open spec fn digit_seq(s: Seq<char>) -> Seq<char> {
    if s.len() > 0 && s[0] == '+' {
        s.skip(1)
    } else {
        s
    }
}

/// Whether `s` parses as a byte budget: at least one digit after the
/// optional sign, nothing but digits, and a value that fits in `usize`.
pub open spec fn is_valid_len_str(s: Seq<char>) -> bool {
    &&& digit_seq(s).len() > 0
    &&& (forall|t: int| 0 <= t < digit_seq(s).len() ==> is_dec_digit(#[trigger] digit_seq(s)[t]))
    &&& dec_val(digit_seq(s)) <= usize::MAX as nat
}

/// Reading one more digit multiplies the value so far by ten.
proof fn lemma_dec_val_step(s: Seq<char>, j: int)
    requires
        0 <= j < s.len(),
    ensures
        dec_val(s.take(j + 1)) == dec_val(s.take(j)) * 10 + digit_val(s[j]),
{
    assert(s.take(j + 1).drop_last() =~= s.take(j));
    assert(s.take(j + 1).last() == s[j]);
}

/// The value of a digit string is no less than the value of any prefix.
proof fn lemma_dec_val_prefix(s: Seq<char>, k: int)
    requires
        0 <= k <= s.len(),
    ensures
        dec_val(s) >= dec_val(s.take(k)),
    decreases s.len() - k,
{
    if k == s.len() {
        assert(s.take(k) =~= s);
    } else {
        lemma_dec_val_step(s, k);
        lemma_dec_val_prefix(s, k + 1);
    }
}

/// Parses a byte budget: an optional leading plus sign, then decimal
/// digits.  Returns the value when, and only when, `s` is such a string
/// and the value fits in `usize`.
pub fn parse_usize(s: &str) -> (r: Option<usize>)
    ensures
        match r {
            Some(v) => is_valid_len_str(s@) && v as nat == dec_val(digit_seq(s@)),
            None => !is_valid_len_str(s@),
        },
{
    let n: usize = s.unicode_len();
    let start: usize = if n > 0 && s.get_char(0) == '+' {
        1
    } else {
        0
    };
    let ghost d = digit_seq(s@);
    proof {
        assert(d =~= s@.skip(start as int));
    }
    if start >= n {
        assert(d.len() == 0);
        return None;
    }
    let mut val: usize = 0;
    let mut j: usize = start;
    while j < n
        invariant
            n == s@.len(),
            start <= j <= n,
            start < n,
            d == digit_seq(s@),
            d =~= s@.skip(start as int),
            forall|t: int| 0 <= t < j - start ==> is_dec_digit(#[trigger] d[t]),
            val as nat == dec_val(d.take(j - start)),
        decreases n - j,
    {
        let c: char = s.get_char(j);
        let u: u32 = c as u32;
        proof {
            assert(d[j - start] == s@[j as int]);
        }
        if u < 48 || u > 57 {
            assert(!is_dec_digit(d[j - start]));
            return None;
        }
        let dv: usize = (u - 48) as usize;
        proof {
            lemma_dec_val_step(d, j - start);
        }
        let cap: usize = (usize::MAX - dv) / 10;
        if val > cap {
            proof {
                assert(10 * cap + (usize::MAX - dv) % 10 == usize::MAX - dv);
                assert(val * 10 >= (cap + 1) * 10) by (nonlinear_arith)
                    requires
                        val >= cap + 1,
                ;
                assert(val * 10 + dv > usize::MAX);
                assert(dec_val(d.take(j - start + 1)) > usize::MAX as nat);
                lemma_dec_val_prefix(d, j - start + 1);
            }
            return None;
        }
        proof {
            assert(10 * cap + (usize::MAX - dv) % 10 == usize::MAX - dv);
            assert(val * 10 <= cap * 10) by (nonlinear_arith)
                requires
                    val <= cap,
            ;
            assert(val * 10 + dv <= usize::MAX);
        }
        val = val * 10 + dv;
        j = j + 1;
    }
    proof {
        assert(d.take(j - start) =~= d);
    }
    Some(val)
}

/// Why a command line was rejected.
#[derive(Clone, Copy, Debug, PartialEq, Eq, Structural)]
pub enum CliError {
    /// `-n` stood last, with no value after it.
    MissingLenValue,
    /// The value after `-n` is not a byte count.
    InvalidLenValue,
    /// No file path was given.
    MissingFilePath,
}

/// A parsed command line: the byte budget, if one was given, and the
/// file to dump.
#[derive(Debug)]
pub struct CliConfig {
    pub budget: Option<usize>,
    pub file_path: String,
}

/// The view of an optional file argument.
pub open spec fn opt_view(o: Option<String>) -> Option<Seq<char>> {
    match o {
        Some(s) => Some(s@),
        None => None,
    }
}

/// What parsing the arguments from position `i` onward yields, given the
/// budget and file seen so far.  Position 0 holds the program name and is
/// never read.
pub open spec fn spec_parse_args(
    args: Seq<Seq<char>>,
    i: int,
    budget: Option<usize>,
    file: Option<Seq<char>>,
) -> Result<(Option<usize>, Seq<char>), CliError>
    decreases args.len() - i + 2,
{
    if i >= args.len() {
        match file {
            Some(f) => Ok((budget, f)),
            None => Err(CliError::MissingFilePath),
        }
    } else if args[i] == "-n"@ {
        if i + 1 < args.len() {
            if is_valid_len_str(args[i + 1]) {
                spec_parse_args(args, i + 2, Some(dec_val(digit_seq(args[i + 1])) as usize), file)
            } else {
                Err(CliError::InvalidLenValue)
            }
        } else {
            Err(CliError::MissingLenValue)
        }
    } else {
        spec_parse_args(args, i + 1, budget, Some(args[i]))
    }
}

/// Parses the command line `args` (program name first) into a budget and
/// a file path, or the error that rejects it.
pub fn parse_args(args: &Vec<String>) -> (r: Result<CliConfig, CliError>)
    ensures
        match r {
            Ok(c) => spec_parse_args(args.deep_view(), 1, None, None) == Ok::<
                (Option<usize>, Seq<char>),
                CliError,
            >((c.budget, c.file_path@)),
            Err(e) => spec_parse_args(args.deep_view(), 1, None, None) == Err::<
                (Option<usize>, Seq<char>),
                CliError,
            >(e),
        },
{
    let ghost av = args.deep_view();
    let flag: String = String::from_str("-n");
    let mut budget: Option<usize> = None;
    let mut file: Option<String> = None;
    let mut i: usize = 1;
    while i < args.len()
        invariant
            av == args.deep_view(),
            1 <= i,
            flag@ == "-n"@,
            spec_parse_args(av, 1, None, None) == spec_parse_args(
                av,
                i as int,
                budget,
                opt_view(file),
            ),
        decreases args.len() - i,
    {
        proof {
            assert(av[i as int] == args@[i as int]@);
        }
        let a: &String = &args[i];
        if <String as PartialEq>::eq(a, &flag) {
            if i < args.len() - 1 {
                proof {
                    assert(av[i as int + 1] == args@[i as int + 1]@);
                }
                match parse_usize(args[i + 1].as_str()) {
                    Some(v) => {
                        budget = Some(v);
                        i = i + 2;
                    },
                    None => {
                        return Err(CliError::InvalidLenValue);
                    },
                }
            } else {
                return Err(CliError::MissingLenValue);
            }
        } else {
            file = Some(a.clone());
            i = i + 1;
        }
    }
    match file {
        Some(f) => Ok(CliConfig { budget, file_path: f }),
        None => Err(CliError::MissingFilePath),
    }
}

} // verus!
