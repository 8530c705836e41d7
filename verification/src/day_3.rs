//! A corrupted memory dump: the `mul(a,b)` instructions found in it by a
//! regular expression are carried out and their products added up, with or
//! without regard to the `do()` and `don't()` switches between them.

use regex::Regex;
use vstd::prelude::*;
use crate::text::{i64_of, parse_i64};

verus! {

/// The pattern of a multiplication: `mul(`, digits, a comma, digits, `)`.
pub const MUL_PATTERN: &'static str = r"mul\((?<first>\d+),(?<second>\d+)\)";

/// The pattern of a multiplication or of one of the two switches.
pub const MUL_DO_PATTERN: &'static str =
    r"do\(\)|don\'t\(\)|mul\((?<first>\d+),(?<second>\d+)\)";

/// Why a scan gives no sum.
#[derive(Clone, Copy, Debug, PartialEq, Eq)]
pub enum ScanError {
    /// The pattern is no regular expression.
    BadPattern,
    /// A match lacks a group that is needed, or a group is no number.
    BadNumber,
    /// A product or the sum of the products does not fit.
    TooLarge,
}

/// One match of a pattern: what the whole match and then each group of the
/// pattern matched, `None` for a group that took no part.
pub type Groups = Seq<Option<Seq<char>>>;

/// What the regular expression `pattern` finds in `text`: the matches from
/// left to right, none overlapping another, or `None` where `pattern` is no
/// regular expression.
pub uninterp spec fn regex_captures(pattern: Seq<char>, text: Seq<char>) -> Option<Seq<Groups>>;

/// Compiles `pattern` with `regex::Regex::new` and collects what
/// `Regex::captures_iter` yields for `text`: for each match, the text of
/// the whole match and of each group, as `Captures::iter` hands them out.
/// The contract only gives that result its name.
#[verifier::external_body]
fn find_captures(pattern: &str, text: &str) -> (found: Option<Vec<Vec<Option<Vec<char>>>>>)
    ensures
        found.deep_view() == regex_captures(pattern@, text@),
{
    let regex = Regex::new(pattern).ok()?;
    Some(
        regex.captures_iter(text).map(
            |caps| caps.iter().map(|group| group.map(|m| m.as_str().chars().collect())).collect(),
        ).collect(),
    )
}

/// The product that a match of a multiplication writes: groups 1 and 2 read
/// as signed decimal numbers and multiplied.
pub open spec fn product_of(groups: Groups) -> Result<i64, ScanError> {
    if groups.len() < 3 || groups[1] is None || groups[2] is None {
        Err(ScanError::BadNumber)
    } else {
        match (i64_of(groups[1]->0), i64_of(groups[2]->0)) {
            (Some(first), Some(second)) => if i64::MIN <= first * second <= i64::MAX {
                Ok((first * second) as i64)
            } else {
                Err(ScanError::TooLarge)
            },
            _ => Err(ScanError::BadNumber),
        }
    }
}

/// `sum` and `term` added, where that fits.
pub open spec fn plus(sum: i64, term: i64) -> Result<i64, ScanError> {
    if i64::MIN <= sum + term <= i64::MAX {
        Ok((sum + term) as i64)
    } else {
        Err(ScanError::TooLarge)
    }
}

/// The sum of the products of the first `n` matches, or the first fault met
/// on the way.
pub open spec fn products_sum(matches: Seq<Groups>, n: int) -> Result<i64, ScanError>
    decreases n,
{
    if n <= 0 {
        Ok(0)
    } else {
        match products_sum(matches, n - 1) {
            Err(fault) => Err(fault),
            Ok(sum) => match product_of(matches[n - 1]) {
                Err(fault) => Err(fault),
                Ok(product) => plus(sum, product),
            },
        }
    }
}

/// The text of the switch that turns multiplications on.
pub open spec fn switch_on() -> Seq<char> {
    seq!['d', 'o', '(', ')']
}

/// The text of the switch that turns multiplications off.
pub open spec fn switch_off() -> Seq<char> {
    seq!['d', 'o', 'n', '\'', 't', '(', ')']
}

/// Where a scan with switches stands: whether multiplications are off, and
/// the sum so far.
pub struct Scan {
    pub ignore: bool,
    pub sum: i64,
}

/// The scan after the first `n` matches, or the first fault met on the way:
/// a switch turns the multiplications after it on or off, and the product
/// of a multiplication is added while they are on.
pub open spec fn scan_after(matches: Seq<Groups>, n: int) -> Result<Scan, ScanError>
    decreases n,
{
    if n <= 0 {
        Ok(Scan { ignore: false, sum: 0 })
    } else {
        match scan_after(matches, n - 1) {
            Err(fault) => Err(fault),
            Ok(scan) => {
                let groups = matches[n - 1];
                if groups.len() == 0 || groups[0] is None {
                    Err(ScanError::BadNumber)
                } else if groups[0] == Some(switch_on()) {
                    Ok(Scan { ignore: false, sum: scan.sum })
                } else if groups[0] == Some(switch_off()) {
                    Ok(Scan { ignore: true, sum: scan.sum })
                } else if scan.ignore {
                    Ok(scan)
                } else {
                    match product_of(groups) {
                        Err(fault) => Err(fault),
                        Ok(product) => match plus(scan.sum, product) {
                            Err(fault) => Err(fault),
                            Ok(sum) => Ok(Scan { ignore: false, sum }),
                        },
                    }
                }
            },
        }
    }
}

/// The sum that a scan with switches ends with.
pub open spec fn enabled_sum(matches: Seq<Groups>) -> Result<i64, ScanError> {
    match scan_after(matches, matches.len() as int) {
        Err(fault) => Err(fault),
        Ok(scan) => Ok(scan.sum),
    }
}

/// The product that one match of a multiplication writes.
pub fn multiply(groups: &Vec<Option<Vec<char>>>) -> (product: Result<i64, ScanError>)
    ensures
        product == product_of(groups.deep_view()),
{
    if groups.len() < 3 {
        return Err(ScanError::BadNumber);
    }
    assert(groups.deep_view()[1] == groups@[1].deep_view());
    assert(groups.deep_view()[2] == groups@[2].deep_view());
    let (first, second) = match (&groups[1], &groups[2]) {
        (Some(first), Some(second)) => {
            assert(first.deep_view() =~= first@);
            assert(second.deep_view() =~= second@);
            match (parse_i64(first), parse_i64(second)) {
                (Some(first), Some(second)) => (first, second),
                _ => {
                    return Err(ScanError::BadNumber);
                },
            }
        },
        _ => {
            return Err(ScanError::BadNumber);
        },
    };
    match first.checked_mul(second) {
        Some(product) => Ok(product),
        None => Err(ScanError::TooLarge),
    }
}

/// Adds up the products of all the matches.
pub fn add_up_products(matches: &Vec<Vec<Option<Vec<char>>>>) -> (sum: Result<i64, ScanError>)
    ensures
        sum == products_sum(matches.deep_view(), matches@.len() as int),
{
    let mut sum: i64 = 0;
    let mut k: usize = 0;
    while k < matches.len()
        invariant
            k <= matches.len(),
            products_sum(matches.deep_view(), k as int) == Ok::<i64, ScanError>(sum),
        decreases matches.len() - k,
    {
        assert(matches.deep_view()[k as int] == matches@[k as int].deep_view());
        let product = match multiply(&matches[k]) {
            Ok(product) => product,
            Err(fault) => {
                proof {
                    lemma_fault_stays(matches.deep_view(), k + 1, matches@.len() as int);
                }
                return Err(fault);
            },
        };
        match sum.checked_add(product) {
            Some(more) => {
                sum = more;
            },
            None => {
                proof {
                    lemma_fault_stays(matches.deep_view(), k + 1, matches@.len() as int);
                }
                return Err(ScanError::TooLarge);
            },
        }
        k += 1;
    }
    Ok(sum)
}

/// A fault met among the first matches is the result for all.
pub proof fn lemma_fault_stays(matches: Seq<Groups>, m: int, n: int)
    requires
        m <= n,
        products_sum(matches, m) is Err,
    ensures
        products_sum(matches, n) == products_sum(matches, m),
    decreases n - m,
{
    if m < n {
        lemma_fault_stays(matches, m, n - 1);
    }
}

/// A fault met in a scan with switches is the result of the whole scan.
pub proof fn lemma_scan_fault_stays(matches: Seq<Groups>, m: int, n: int)
    requires
        m <= n,
        scan_after(matches, m) is Err,
    ensures
        scan_after(matches, n) == scan_after(matches, m),
    decreases n - m,
{
    if m < n {
        lemma_scan_fault_stays(matches, m, n - 1);
    }
}

/// Whether `word` is the text `do()`.
fn is_switch_on(word: &Vec<char>) -> (on: bool)
    ensures
        on == (word@ == switch_on()),
{
    let on = word.len() == 4 && word[0] == 'd' && word[1] == 'o' && word[2] == '(' && word[3]
        == ')';
    proof {
        if on {
            assert(word@ =~= switch_on());
        }
    }
    on
}

/// Whether `word` is the text `don't()`.
fn is_switch_off(word: &Vec<char>) -> (off: bool)
    ensures
        off == (word@ == switch_off()),
{
    let off = word.len() == 7 && word[0] == 'd' && word[1] == 'o' && word[2] == 'n' && word[3]
        == '\'' && word[4] == 't' && word[5] == '(' && word[6] == ')';
    proof {
        if off {
            assert(word@ =~= switch_off());
        }
    }
    off
}

/// Adds up the products of the matches that no `don't()` before them has
/// turned off, or that a `do()` has turned on again.
pub fn add_up_enabled_products(matches: &Vec<Vec<Option<Vec<char>>>>) -> (sum: Result<
    i64,
    ScanError,
>)
    ensures
        sum == enabled_sum(matches.deep_view()),
{
    let mut ignore = false;
    let mut sum: i64 = 0;
    let mut k: usize = 0;
    while k < matches.len()
        invariant
            k <= matches.len(),
            scan_after(matches.deep_view(), k as int) == Ok::<Scan, ScanError>(
                Scan { ignore, sum },
            ),
        decreases matches.len() - k,
    {
        let groups = &matches[k];
        assert(matches.deep_view()[k as int] == groups.deep_view());
        if groups.len() == 0 {
            proof {
                lemma_scan_fault_stays(matches.deep_view(), k + 1, matches@.len() as int);
            }
            return Err(ScanError::BadNumber);
        }
        assert(groups.deep_view()[0] == groups@[0].deep_view());
        match &groups[0] {
            None => {
                proof {
                    lemma_scan_fault_stays(matches.deep_view(), k + 1, matches@.len() as int);
                }
                return Err(ScanError::BadNumber);
            },
            Some(whole) => {
                assert(whole.deep_view() =~= whole@);
                if is_switch_on(whole) {
                    ignore = false;
                } else if is_switch_off(whole) {
                    ignore = true;
                } else if !ignore {
                    let added = match multiply(groups) {
                        Ok(product) => sum.checked_add(product),
                        Err(fault) => {
                            proof {
                                lemma_scan_fault_stays(
                                    matches.deep_view(),
                                    k + 1,
                                    matches@.len() as int,
                                );
                            }
                            return Err(fault);
                        },
                    };
                    match added {
                        Some(more) => {
                            sum = more;
                        },
                        None => {
                            proof {
                                lemma_scan_fault_stays(
                                    matches.deep_view(),
                                    k + 1,
                                    matches@.len() as int,
                                );
                            }
                            return Err(ScanError::TooLarge);
                        },
                    }
                }
            },
        }
        k += 1;
    }
    Ok(sum)
}

/// The sum of the products of all the multiplications that the pattern
/// `MUL_PATTERN` finds in the text.
pub fn calculate_corrupted_mul_instructions(input: &str) -> (sum: Result<i64, ScanError>)
    ensures
        sum == match regex_captures(MUL_PATTERN@, input@) {
            Some(matches) => products_sum(matches, matches.len() as int),
            None => Err(ScanError::BadPattern),
        },
{
    match find_captures(MUL_PATTERN, input) {
        Some(matches) => add_up_products(&matches),
        None => Err(ScanError::BadPattern),
    }
}

/// The sum of the products of the multiplications that the pattern
/// `MUL_DO_PATTERN` finds in the text and that are turned on where they stand.
pub fn calculate_corrupted_mul_do_instructions(input: &str) -> (sum: Result<i64, ScanError>)
    ensures
        sum == match regex_captures(MUL_DO_PATTERN@, input@) {
            Some(matches) => enabled_sum(matches),
            None => Err(ScanError::BadPattern),
        },
{
    match find_captures(MUL_DO_PATTERN, input) {
        Some(matches) => add_up_enabled_products(&matches),
        None => Err(ScanError::BadPattern),
    }
}

} // verus!
