//! The regular-expression benchmarks: each compiles one pattern and counts its matches in
//! two fixed texts, a number of times over.

use vstd::prelude::*;
use regex_automata::meta::{BuildError, Regex};

verus! {

#[verifier::external_type_specification]
#[verifier::external_body]
pub struct ExRegex(Regex);

#[verifier::external_type_specification]
#[verifier::external_body]
pub struct ExBuildError(BuildError);

/// Whether `regex_automata` accepts `pattern` as a regular expression.
pub uninterp spec fn regex_valid(pattern: Seq<char>) -> bool;

/// The successive non-overlapping matches of `pattern` in `text` that `regex_automata`
/// reports, as (start, end) byte offsets.
pub uninterp spec fn regex_matches(pattern: Seq<char>, text: Seq<char>) -> Seq<(usize, usize)>;

/// Calls `regex_automata::meta::Regex::new`. Trusted: it succeeds exactly on the patterns
/// the crate accepts (named `regex_valid`); the compiled expression itself is opaque here,
/// and what a `BuildError` holds is left unsaid.
#[verifier::external_body]
fn regex_new(pattern: &str) -> (res: Result<Regex, BuildError>)
    ensures
        res is Ok <==> regex_valid(pattern@),
{
    Regex::new(pattern)
}

/// A regular expression together with the pattern it was compiled from.
pub struct Pattern {
    source: String,
    re: Regex,
}

/// Calls `Regex::find_iter` on the expression of `p` and `text`, handing out each match as
/// its (start, end) offsets. Trusted: since a `Pattern` is only made by `Pattern::new` from
/// its source, the result is the crate's list of matches of that source in `text` (named
/// `regex_matches`).
#[verifier::external_body]
fn find_spans(p: &Pattern, text: &str) -> (spans: Vec<(usize, usize)>)
    ensures
        spans@ == regex_matches(p.source@, text@),
{
    p.re.find_iter(text).map(|m| (m.start(), m.end())).collect()
}

/// Why a regular-expression benchmark fails.
#[derive(Debug, Clone, Copy, PartialEq, Eq, Structural)]
pub enum RegexError {
    /// The pattern is not a valid regular expression.
    Build,
    /// The number of matches does not fit in a `usize`.
    Overflow,
}

impl Pattern {
    /// The pattern this expression was compiled from.
    pub closed spec fn source(&self) -> Seq<char> {
        self.source@
    }

    /// Compiles `pattern`.
    pub fn new(pattern: &str) -> (res: Result<Pattern, RegexError>)
        ensures
            res is Ok <==> regex_valid(pattern@),
            res matches Ok(p) ==> p.source() == pattern@,
            res matches Err(e) ==> e == RegexError::Build,
    {
        match regex_new(pattern) {
            Ok(re) => Ok(Pattern { source: pattern.to_owned(), re }),
            Err(_) => Err(RegexError::Build),
        }
    }

    /// The number of matches of this expression in `text`.
    pub fn count_matches(&self, text: &str) -> (n: usize)
        ensures
            n == regex_matches(self.source(), text@).len(),
    {
        find_spans(self, text).len()
    }
}

/// `res` is the outcome of compiling `pattern` and counting its matches in `TEST_TEXT` and
/// `LONG_TEXT`, `reps` times: the total, or the error when the pattern is invalid or the
/// total does not fit in a `usize`.
pub open spec fn extraction_outcome(pattern: Seq<char>, reps: usize, res: Result<usize, RegexError>) -> bool {
    let total = reps * (regex_matches(pattern, TEST_TEXT@).len() + regex_matches(
        pattern,
        LONG_TEXT@,
    ).len());
    if !regex_valid(pattern) {
        res == Err::<usize, RegexError>(RegexError::Build)
    } else if total <= usize::MAX {
        res == Ok::<usize, RegexError>(total as usize)
    } else {
        res == Err::<usize, RegexError>(RegexError::Overflow)
    }
}

/// Compiles `pattern`, then scans `TEST_TEXT` and `LONG_TEXT` for its matches `reps` times
/// over, counting every match found in every round.
pub fn extraction_benchmark(pattern: &str, reps: usize) -> (res: Result<usize, RegexError>)
    ensures
        extraction_outcome(pattern@, reps, res),
{
    let re = match Pattern::new(pattern) {
        Ok(re) => re,
        Err(e) => {
            return Err(e);
        },
    };
    let ghost per_round = regex_matches(pattern@, TEST_TEXT@).len() + regex_matches(
        pattern@,
        LONG_TEXT@,
    ).len();
    let mut count: usize = 0;
    let mut i: usize = 0;
    while i < reps
        invariant
            i <= reps,
            regex_valid(pattern@),
            re.source() == pattern@,
            per_round == regex_matches(pattern@, TEST_TEXT@).len() + regex_matches(
                pattern@,
                LONG_TEXT@,
            ).len(),
            count == i * per_round,
        decreases reps - i,
    {
        let in_test = re.count_matches(TEST_TEXT);
        let in_long = re.count_matches(LONG_TEXT);
        proof {
            assert((i + 1) * per_round == i * per_round + per_round) by (nonlinear_arith);
            assert((i + 1) * per_round <= reps * per_round) by (nonlinear_arith)
                requires
                    i < reps,
                    per_round >= 0,
            ;
        }
        let step = match count.checked_add(in_test) {
            Some(c) => c.checked_add(in_long),
            None => None,
        };
        match step {
            Some(c) => {
                count = c;
            },
            None => {
                assert(reps * per_round > usize::MAX);
                return Err(RegexError::Overflow);
            },
        }
        i += 1;
    }
    Ok(count)
}

/// A text with e-mail addresses, phone numbers, dates, URLs, IP addresses, numbers and words.
pub const TEST_TEXT: &'static str = "Email addresses: alice@example.com, bob123@test.org, charlie_xyz@company.co.uk
Phone numbers: 555-1234, (123) 456-7890, 800.555.1212
Dates: 2024-01-15, 12/25/2023, 2023.11.17
URLs: https://www.rust-lang.org, http://github.com/rust-lang
IP addresses: 192.168.1.1, 10.0.0.255, 172.16.254.1
Numbers: 42, 3.14159, -273.15, 1,234,567
Words: The quick brown fox jumps over the lazy dog
";

/// A longer text of filler words with a few addresses, numbers and dates among them.
pub const LONG_TEXT: &'static str = "Lorem ipsum dolor sit amet, consectetur adipiscing elit. Integer 123 nec odio.
Praesent libero. Sed cursus ante dapibus diam@email.com. Sed nisi. Nulla quis
sem at nibh elementum imperdiet 456.789. Duis sagittis ipsum. Praesent mauris.
Fusce nec tellus sed augue semper porta. Mauris massa. Vestibulum lacinia arcu
eget nulla. Class aptent taciti sociosqu ad litora torquent per conubia nostra,
per inceptos himenaeos 2024-03-15. Curabitur sodales ligula in libero.
test@domain.org and another.email@example.com with 192.168.0.1 addresses.
Phone: 555-0123 or (800) 123-4567. Visit https://example.com for more info.
";

/// E-mail addresses.
pub const EMAIL_PATTERN: &'static str = "[a-zA-Z0-9._%+-]+@[a-zA-Z0-9.-]+\\.[a-zA-Z]{2,}";

/// Phone numbers, with or without an area code in parentheses.
pub const PHONE_PATTERN: &'static str = "[0-9]{3}[-.]?[0-9]{3}[-.]?[0-9]{4}|\\([0-9]{3}\\)[[:space:]]*[0-9]{3}[-.]?[0-9]{4}";

/// Dates, year first or year last.
pub const DATE_PATTERN: &'static str = "[0-9]{4}[-./][0-9]{2}[-./][0-9]{2}|[0-9]{2}[-./][0-9]{2}[-./][0-9]{4}";

/// Dotted IPv4 addresses.
pub const IP_PATTERN: &'static str = "[0-9]{1,3}\\.[0-9]{1,3}\\.[0-9]{1,3}\\.[0-9]{1,3}";

/// HTTP and HTTPS URLs.
pub const URL_PATTERN: &'static str = "https?://[a-zA-Z0-9./\\-]+";

/// Words of at least four letters.
pub const WORD_PATTERN: &'static str = "[A-Za-z]{4,}";

/// Integers and decimal numbers, possibly negative.
pub const NUMBER_PATTERN: &'static str = "-?[0-9]+\\.?[0-9]*";

/// How many times most benchmarks scan the two texts.
pub const REPS: usize = 100;

/// How many times the word benchmark scans the two texts.
pub const WORD_REPS: usize = 50;

/// Counts e-mail addresses in the two texts, `REPS` times.
pub fn benchmark_email_extraction() -> (res: Result<usize, RegexError>)
    ensures
        extraction_outcome(EMAIL_PATTERN@, REPS, res),
{
    extraction_benchmark(EMAIL_PATTERN, REPS)
}

/// Counts phone numbers in the two texts, `REPS` times.
pub fn benchmark_phone_extraction() -> (res: Result<usize, RegexError>)
    ensures
        extraction_outcome(PHONE_PATTERN@, REPS, res),
{
    extraction_benchmark(PHONE_PATTERN, REPS)
}

/// Counts dates in the two texts, `REPS` times.
pub fn benchmark_date_extraction() -> (res: Result<usize, RegexError>)
    ensures
        extraction_outcome(DATE_PATTERN@, REPS, res),
{
    extraction_benchmark(DATE_PATTERN, REPS)
}

/// Counts IP addresses in the two texts, `REPS` times.
pub fn benchmark_ip_extraction() -> (res: Result<usize, RegexError>)
    ensures
        extraction_outcome(IP_PATTERN@, REPS, res),
{
    extraction_benchmark(IP_PATTERN, REPS)
}

/// Counts URLs in the two texts, `REPS` times.
pub fn benchmark_url_extraction() -> (res: Result<usize, RegexError>)
    ensures
        extraction_outcome(URL_PATTERN@, REPS, res),
{
    extraction_benchmark(URL_PATTERN, REPS)
}

/// Counts words of four letters or more in the two texts, `WORD_REPS` times.
pub fn benchmark_word_boundaries() -> (res: Result<usize, RegexError>)
    ensures
        extraction_outcome(WORD_PATTERN@, WORD_REPS, res),
{
    extraction_benchmark(WORD_PATTERN, WORD_REPS)
}

/// Counts numbers in the two texts, `REPS` times.
pub fn benchmark_number_extraction() -> (res: Result<usize, RegexError>)
    ensures
        extraction_outcome(NUMBER_PATTERN@, REPS, res),
{
    extraction_benchmark(NUMBER_PATTERN, REPS)
}

} // verus!
