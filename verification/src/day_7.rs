//! Calibration equations: a test value and a row of numbers; the equation
//! holds when operators can be put between the numbers, applied from left
//! to right, so that the result is the test value.

use vstd::prelude::*;
use crate::text::{
    all_of, chars_of, cut_at, lemma_all_of_length, lemma_one_fails_all, lemma_pieces_exist,
    lines_of, parse_each_u64, parse_u64, pieces_of, rows_of, split_at_each, split_lines,
    split_once, u64_of, InputError,
};

verus! {

/// An operator that may stand between two numbers.
#[derive(Clone, Copy, Debug, PartialEq, Eq)]
pub enum Operator {
    Add,
    Mul,
    Concat,
}

/// The sum of two numbers, where it fits.
pub open spec fn sum_of(a: u64, b: u64) -> Option<u64> {
    if a + b <= u64::MAX {
        Some((a + b) as u64)
    } else {
        None
    }
}

/// The product of two numbers, where it fits.
pub open spec fn product_of(a: u64, b: u64) -> Option<u64> {
    if a * b <= u64::MAX {
        Some((a * b) as u64)
    } else {
        None
    }
}

/// The least power of ten that is greater than `b`, for `b` from ten on;
/// ten for smaller `b`.
pub open spec fn shift_for(b: nat) -> nat
    decreases b,
{
    if b < 10 {
        10
    } else {
        10 * shift_for(b / 10)
    }
}

/// The number written by the digits of `a` followed by those of `b`, where
/// `b` is not zero and the power of ten that makes room for `b`, and the
/// result, fit.
pub open spec fn joined(a: u64, b: u64) -> Option<u64> {
    if b == 0 || shift_for(b as nat) > u64::MAX || a * shift_for(b as nat) + b > u64::MAX {
        None
    } else {
        Some((a * shift_for(b as nat) + b) as u64)
    }
}

/// What an operator makes of two numbers.
pub open spec fn outcome(operator: Operator, a: u64, b: u64) -> Option<u64> {
    match operator {
        Operator::Add => sum_of(a, b),
        Operator::Mul => product_of(a, b),
        Operator::Concat => joined(a, b),
    }
}

/// The operator `operators[i]` makes `value` of `results[j]` and `next`.
pub open spec fn makes(
    operators: Seq<Operator>,
    results: Seq<u64>,
    next: u64,
    i: int,
    j: int,
    value: u64,
) -> bool {
    &&& 0 <= i < operators.len()
    &&& 0 <= j < results.len()
    &&& outcome(operators[i], results[j], next) == Some(value)
}

/// Some operator makes `value` of some number in `before` and `next`.
pub open spec fn follows(operators: Seq<Operator>, before: Set<u64>, next: u64, value: u64) -> bool {
    exists|r: u64, i: int|
        before.contains(r) && 0 <= i < operators.len() && #[trigger] outcome(
            operators[i],
            r,
            next,
        ) == Some(value)
}

/// The results that the first `k + 1` numbers can be brought to, when no
/// result along the way, the first number left aside, may pass `limit`.
pub open spec fn reach(numbers: Seq<u64>, operators: Seq<Operator>, limit: u64, k: int) -> Set<
    u64,
>
    decreases k,
{
    if k <= 0 {
        set![numbers[0]]
    } else {
        let before = reach(numbers, operators, limit, k - 1);
        Set::new(|value: u64| value <= limit && follows(operators, before, numbers[k], value))
    }
}

/// The equation holds for some choice of operators.
pub open spec fn solvable(result: u64, numbers: Seq<u64>, operators: Seq<Operator>) -> bool {
    numbers.len() > 0 && reach(numbers, operators, result, numbers.len() - 1).contains(result)
}

/// The sum of two numbers, or `None` where it does not fit.
pub fn add(a: u64, b: u64) -> (sum: Option<u64>)
    ensures
        sum == sum_of(a, b),
{
    a.checked_add(b)
}

/// The product of two numbers, or `None` where it does not fit.
pub fn mul(a: u64, b: u64) -> (product: Option<u64>)
    ensures
        product == product_of(a, b),
{
    a.checked_mul(b)
}

/// The number written by the digits of `a` followed by those of `b`, or
/// `None` where `b` is zero or something does not fit.
pub fn concat(a: u64, b: u64) -> (both: Option<u64>)
    ensures
        both == joined(a, b),
{
    if b == 0 {
        return None;
    }
    let mut scale: u64 = 1;
    let mut rest: u64 = b;
    assert(1 * shift_for(b as nat) == shift_for(b as nat));
    while rest >= 10
        invariant
            shift_for(b as nat) == scale * shift_for(rest as nat),
            scale >= 1,
        decreases rest,
    {
        assert(shift_for(rest as nat) == 10 * shift_for((rest / 10) as nat));
        assert(scale * (10 * shift_for((rest / 10) as nat)) == (scale * 10) * shift_for(
            (rest / 10) as nat,
        )) by (nonlinear_arith);
        match scale.checked_mul(10) {
            Some(more) => {
                scale = more;
            },
            None => {
                proof {
                    lemma_shift_at_least_ten((rest / 10) as nat);
                    assert((scale * 10) * shift_for((rest / 10) as nat) >= scale * 10)
                        by (nonlinear_arith)
                        requires
                            shift_for((rest / 10) as nat) >= 10,
                            scale >= 1,
                    ;
                }
                return None;
            },
        }
        rest = rest / 10;
    }
    assert(shift_for(b as nat) == scale * 10);
    let shift = match scale.checked_mul(10) {
        Some(shift) => shift,
        None => {
            return None;
        },
    };
    match a.checked_mul(shift) {
        Some(moved) => moved.checked_add(b),
        None => None,
    }
}

/// Every shift is at least ten.
pub proof fn lemma_shift_at_least_ten(b: nat)
    ensures
        shift_for(b) >= 10,
    decreases b,
{
    if b >= 10 {
        lemma_shift_at_least_ten(b / 10);
    }
}

impl Operator {
    /// What the operator makes of two numbers, or `None` where it makes nothing.
    pub fn apply(&self, a: u64, b: u64) -> (value: Option<u64>)
        ensures
            value == outcome(*self, a, b),
    {
        match self {
            Operator::Add => self::add(a, b),
            Operator::Mul => self::mul(a, b),
            Operator::Concat => concat(a, b),
        }
    }
}

/// A calibration equation.
#[derive(Debug)]
pub struct Equation {
    pub result: u64,
    pub numbers: Vec<u64>,
}

/// What parts the test value of an equation from its numbers.
pub open spec fn parting() -> Seq<char> {
    seq![':', ' ']
}

/// The equation that a line writes: the test value, a colon and a space,
/// and the numbers with one space between each two.
pub open spec fn equation_of(line: Seq<char>) -> Option<(u64, Seq<u64>)> {
    match cut_at(line, parting()) {
        None => None,
        Some(sides) => match (
            u64_of(sides.0),
            all_of(pieces_of(sides.1, ' '), |word: Seq<char>| u64_of(word)),
        ) {
            (Some(result), Some(numbers)) => Some((result, numbers)),
            _ => None,
        },
    }
}

/// The equations that the lines write, where every line writes one.
pub open spec fn equations_of(lines: Seq<Seq<char>>) -> Option<Seq<(u64, Seq<u64>)>> {
    all_of(lines, |line: Seq<char>| equation_of(line))
}

/// The sum of the test values of those among the first `n` equations that hold.
pub open spec fn calibration(
    equations: Seq<(u64, Seq<u64>)>,
    operators: Seq<Operator>,
    n: int,
) -> nat
    decreases n,
{
    if n <= 0 {
        0
    } else {
        calibration(equations, operators, n - 1) + if solvable(
            equations[n - 1].0,
            equations[n - 1].1,
            operators,
        ) {
            equations[n - 1].0 as nat
        } else {
            0nat
        }
    }
}

/// A sum over more equations is no smaller.
pub proof fn lemma_calibration_grows(
    equations: Seq<(u64, Seq<u64>)>,
    operators: Seq<Operator>,
    m: int,
    n: int,
)
    requires
        m <= n,
    ensures
        calibration(equations, operators, m) <= calibration(equations, operators, n),
    decreases n - m,
{
    if m < n {
        lemma_calibration_grows(equations, operators, m, n - 1);
    }
}

/// What the calibration of a text comes to: `Malformed` where a line writes
/// no equation, `TooLarge` where the sum does not fit.
pub open spec fn calibration_of(text: Seq<char>, operators: Seq<Operator>) -> Result<
    u64,
    InputError,
> {
    match equations_of(lines_of(text)) {
        None => Err(InputError::Malformed),
        Some(equations) => {
            let sum = calibration(equations, operators, equations.len() as int);
            if sum > u64::MAX {
                Err(InputError::TooLarge)
            } else {
                Ok(sum as u64)
            }
        },
    }
}

impl Equation {
    pub fn new(result: u64, numbers: Vec<u64>) -> (equation: Self)
        ensures
            equation.result == result,
            equation.numbers == numbers,
    {
        Self { result, numbers }
    }

    /// The equation that the line `s` writes.
    pub fn from_line(s: &Vec<char>) -> (equation: Option<Self>)
        ensures
            match equation {
                Some(read) => equation_of(s@) == Some((read.result, read.numbers@)),
                None => equation_of(s@) is None,
            },
            equation matches Some(read) ==> read.numbers@.len() > 0,
    {
        let colon = vec![':', ' '];
        assert(colon@ =~= parting());
        let (left, right) = match split_once(s, &colon) {
            Some(sides) => sides,
            None => {
                return None;
            },
        };
        let result = match parse_u64(&left) {
            Some(result) => result,
            None => {
                return None;
            },
        };
        let pieces = split_at_each(&right, ' ');
        proof {
            lemma_pieces_exist(right@, ' ', 0, Seq::empty());
        }
        match parse_each_u64(&pieces) {
            Some(numbers) => {
                proof {
                    lemma_all_of_length(pieces_of(right@, ' '), |word: Seq<char>| u64_of(word));
                }
                Some(Self::new(result, numbers))
            },
            None => None,
        }
    }

    /// Whether the `functions`, put between the numbers and applied from
    /// left to right, can make the test value, when no result along the way
    /// may pass it.
    pub fn is_solvable(&self, functions: Vec<Operator>) -> (holds: bool)
        requires
            self.numbers@.len() > 0,
        ensures
            holds == solvable(self.result, self.numbers@, functions@),
    {
        let ghost numbers = self.numbers@;
        let ghost operators = functions@;
        let mut results: Vec<u64> = vec![self.numbers[0]];
        let mut k: usize = 1;
        assert(results@.to_set() =~= reach(numbers, operators, self.result, 0));
        while k < self.numbers.len()
            invariant
                1 <= k <= self.numbers.len(),
                numbers == self.numbers@,
                operators == functions@,
                results@.to_set() == reach(numbers, operators, self.result, k - 1),
            decreases self.numbers.len() - k,
        {
            let n = self.numbers[k];
            let ghost before = results@;
            let mut next: Vec<u64> = Vec::new();
            let mut i: usize = 0;
            while i < functions.len()
                invariant
                    i <= functions.len(),
                    operators == functions@,
                    before == results@,
                    forall|value: u64| #[trigger]
                        next@.contains(value) <==> value <= self.result && exists|a: int, b: int|
                            a < i && makes(operators, before, n, a, b, value),
                decreases functions.len() - i,
            {
                let mut j: usize = 0;
                while j < results.len()
                    invariant
                        i < functions.len(),
                        j <= results.len(),
                        operators == functions@,
                        before == results@,
                        forall|value: u64| #[trigger]
                            next@.contains(value) <==> value <= self.result && exists|
                                a: int,
                                b: int,
                            |
                                (a < i || (a == i && b < j)) && makes(
                                    operators,
                                    before,
                                    n,
                                    a,
                                    b,
                                    value,
                                ),
                    decreases results.len() - j,
                {
                    let ghost old_next = next@;
                    let made = functions[i].apply(results[j], n);
                    match made {
                        Some(value) => {
                            if value <= self.result {
                                next.push(value);
                                assert(next@.contains(value)) by {
                                    assert(next@[old_next.len() as int] == value);
                                }
                            }
                        },
                        None => {},
                    }
                    assert forall|value: u64| #[trigger]
                        next@.contains(value) <==> value <= self.result && exists|
                            a: int,
                            b: int,
                        |
                            (a < i || (a == i && b < j + 1)) && makes(
                                operators,
                                before,
                                n,
                                a,
                                b,
                                value,
                            ) by {
                        if next@.contains(value) {
                            let t = choose|t: int| 0 <= t < next@.len() && next@[t] == value;
                            if t < old_next.len() {
                                assert(old_next[t] == value);
                                assert(old_next.contains(value));
                                let (a, b) = choose|a: int, b: int|
                                    (a < i || (a == i && b < j)) && makes(
                                        operators,
                                        before,
                                        n,
                                        a,
                                        b,
                                        value,
                                    );
                                assert((a < i || (a == i && b < j + 1)) && makes(
                                    operators,
                                    before,
                                    n,
                                    a,
                                    b,
                                    value,
                                ));
                            } else {
                                assert(makes(operators, before, n, i as int, j as int, value));
                            }
                        }
                        if value <= self.result && exists|a: int, b: int|
                            (a < i || (a == i && b < j + 1)) && makes(
                                operators,
                                before,
                                n,
                                a,
                                b,
                                value,
                            ) {
                            let (a, b) = choose|a: int, b: int|
                                (a < i || (a == i && b < j + 1)) && makes(
                                    operators,
                                    before,
                                    n,
                                    a,
                                    b,
                                    value,
                                );
                            if a == i && b == j {
                                assert(made == Some(value));
                            } else {
                                assert((a < i || (a == i && b < j)) && makes(
                                    operators,
                                    before,
                                    n,
                                    a,
                                    b,
                                    value,
                                ));
                                assert(old_next.contains(value));
                                let t = choose|t: int|
                                    0 <= t < old_next.len() && old_next[t] == value;
                                assert(next@[t] == value);
                            }
                        }
                    }
                    j += 1;
                }
                assert forall|value: u64| #[trigger]
                    next@.contains(value) <==> value <= self.result && exists|a: int, b: int|
                        a < i + 1 && makes(operators, before, n, a, b, value) by {
                    if next@.contains(value) {
                        let (a, b) = choose|a: int, b: int|
                            (a < i || (a == i && b < j)) && makes(
                                operators,
                                before,
                                n,
                                a,
                                b,
                                value,
                            );
                        assert(a < i + 1 && makes(operators, before, n, a, b, value));
                    }
                    if value <= self.result && exists|a: int, b: int|
                        a < i + 1 && makes(operators, before, n, a, b, value) {
                        let (a, b) = choose|a: int, b: int|
                            a < i + 1 && makes(operators, before, n, a, b, value);
                        assert((a < i || (a == i && b < j)) && makes(
                            operators,
                            before,
                            n,
                            a,
                            b,
                            value,
                        ));
                    }
                }
                i += 1;
            }
            proof {
                let earlier = reach(numbers, operators, self.result, k - 1);
                let wanted = reach(numbers, operators, self.result, k as int);
                assert forall|value: u64| next@.to_set().contains(value) implies wanted.contains(
                    value,
                ) by {
                    assert(next@.contains(value));
                    let (a, b) = choose|a: int, b: int|
                        a < i && makes(operators, before, n, a, b, value);
                    assert(before.to_set().contains(before[b]));
                    assert(outcome(operators[a], before[b], n) == Some(value));
                    assert(follows(operators, earlier, n, value));
                }
                assert forall|value: u64| wanted.contains(value) implies next@.to_set().contains(
                    value,
                ) by {
                    let (r, a) = choose|r: u64, a: int|
                        earlier.contains(r) && 0 <= a < operators.len() && #[trigger] outcome(
                            operators[a],
                            r,
                            n,
                        ) == Some(value);
                    assert(before.contains(r));
                    let b = choose|b: int| 0 <= b < before.len() && before[b] == r;
                    assert(makes(operators, before, n, a, b, value));
                    assert(next@.contains(value));
                }
                assert(next@.to_set() =~= wanted);
            }
            results = next;
            k += 1;
        }
        let mut t: usize = 0;
        while t < results.len()
            invariant
                t <= results.len(),
                numbers == self.numbers@,
                numbers.len() > 0,
                operators == functions@,
                results@.to_set() == reach(numbers, operators, self.result, numbers.len() - 1),
                forall|u: int| 0 <= u < t ==> results@[u] != self.result,
            decreases results.len() - t,
        {
            if results[t] == self.result {
                assert(results@.to_set().contains(self.result));
                return true;
            }
            t += 1;
        }
        assert(!results@.contains(self.result));
        false
    }
}

/// Reads the equations of the text and adds up the test values of those
/// that hold with the given operators.
fn total_calibration(input: &str, functions: Vec<Operator>) -> (sum: Result<u64, InputError>)
    ensures
        sum == calibration_of(input@, functions@),
{
    let chars = chars_of(input);
    let lines = split_lines(&chars);
    let ghost read = |line: Seq<char>| equation_of(line);
    let ghost mut equations: Seq<(u64, Seq<u64>)> = Seq::empty();
    let mut total: u64 = 0;
    let mut overflow = false;
    let mut k: usize = 0;
    assert(rows_of(lines).take(0) =~= Seq::<Seq<char>>::empty());
    while k < lines.len()
        invariant
            k <= lines.len(),
            rows_of(lines) == lines_of(input@),
            read == (|line: Seq<char>| equation_of(line)),
            all_of(rows_of(lines).take(k as int), read) == Some(equations),
            equations.len() == k,
            !overflow ==> total == calibration(equations, functions@, k as int),
            overflow ==> calibration(equations, functions@, k as int) > u64::MAX,
        decreases lines.len() - k,
    {
        let ghost longer = rows_of(lines).take(k + 1);
        assert(longer.drop_last() =~= rows_of(lines).take(k as int));
        assert(longer.last() == lines@[k as int]@);
        let equation = match Equation::from_line(&lines[k]) {
            Some(equation) => equation,
            None => {
                proof {
                    lemma_one_fails_all(rows_of(lines), read, k as int);
                }
                return Err(InputError::Malformed);
            },
        };
        let ghost more = equations.push((equation.result, equation.numbers@));
        proof {
            lemma_same_calibration(equations, more, functions@, k as int);
        }
        let holds = equation.is_solvable(functions.clone());
        if holds && !overflow {
            match total.checked_add(equation.result) {
                Some(sum) => {
                    total = sum;
                },
                None => {
                    overflow = true;
                },
            }
        }
        proof {
            equations = more;
        }
        k += 1;
    }
    assert(rows_of(lines).take(k as int) =~= rows_of(lines));
    if overflow {
        Err(InputError::TooLarge)
    } else {
        Ok(total)
    }
}

/// A sum over the first equations does not change when one is added at the end.
pub proof fn lemma_same_calibration(
    equations: Seq<(u64, Seq<u64>)>,
    more: Seq<(u64, Seq<u64>)>,
    operators: Seq<Operator>,
    n: int,
)
    requires
        n <= equations.len() <= more.len(),
        forall|k: int| 0 <= k < equations.len() ==> equations[k] == more[k],
    ensures
        calibration(equations, operators, n) == calibration(more, operators, n),
    decreases n,
{
    if n > 0 {
        lemma_same_calibration(equations, more, operators, n - 1);
    }
}

/// The sum of the test values of the equations of the text that hold with
/// addition and multiplication.
pub fn find_valid_equations_without_concatenation(input: &str) -> (sum: Result<u64, InputError>)
    ensures
        sum == calibration_of(input@, seq![Operator::Add, Operator::Mul]),
{
    let functions = vec![Operator::Add, Operator::Mul];
    assert(functions@ =~= seq![Operator::Add, Operator::Mul]);
    total_calibration(input, functions)
}

/// The sum of the test values of the equations of the text that hold with
/// addition, multiplication and concatenation.
pub fn find_valid_equations_with_concatenation(input: &str) -> (sum: Result<u64, InputError>)
    ensures
        sum == calibration_of(input@, seq![Operator::Add, Operator::Mul, Operator::Concat]),
{
    let functions = vec![Operator::Add, Operator::Mul, Operator::Concat];
    assert(functions@ =~= seq![Operator::Add, Operator::Mul, Operator::Concat]);
    total_calibration(input, functions)
}

} // verus!
