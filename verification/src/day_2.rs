//! Reports of levels: a report is safe when its levels only rise or only
//! fall, by one to three from each level to the next.

use vstd::prelude::*;
use crate::text::{
    all_of, chars_of, i64s_of, lemma_one_fails_all, lines_of, parse_i64s, rows_of, split_lines,
    InputError,
};

verus! {

/// Each level is one to three above the one before.
pub open spec fn rises(level: Seq<i64>) -> bool {
    forall|k: int| 0 <= k < level.len() - 1 ==> 1 <= #[trigger] level[k + 1] - level[k] <= 3
}

/// Each level is one to three below the one before.
pub open spec fn falls(level: Seq<i64>) -> bool {
    forall|k: int| 0 <= k < level.len() - 1 ==> -3 <= #[trigger] level[k + 1] - level[k] <= -1
}

/// The report is safe as it stands.
pub open spec fn safe(level: Seq<i64>) -> bool {
    rises(level) || falls(level)
}

/// The report is safe once the level at `k` is taken out.
pub open spec fn safe_without(level: Seq<i64>, k: int) -> bool {
    0 <= k < level.len() && safe(level.remove(k))
}

/// The report is safe once some one level is taken out.
pub open spec fn safe_without_one(level: Seq<i64>) -> bool {
    exists|k: int| safe_without(level, k)
}

/// The report counts as safe: as it stands, or, with the dampener, once
/// some one level is taken out.
pub open spec fn passes(level: Seq<i64>, with_dampaner: bool) -> bool {
    safe(level) || (with_dampaner && safe_without_one(level))
}

/// How many of the first `n` reports count as safe.
pub open spec fn safe_reports(levels: Seq<Seq<i64>>, with_dampaner: bool, n: int) -> nat
    decreases n,
{
    if n <= 0 {
        0
    } else {
        safe_reports(levels, with_dampaner, n - 1) + if passes(levels[n - 1], with_dampaner) {
            1nat
        } else {
            0nat
        }
    }
}

/// The reports that the lines write, one for each line, where every word of
/// every line is a signed decimal number.
pub open spec fn reports_of(lines: Seq<Seq<char>>) -> Option<Seq<Seq<i64>>> {
    all_of(lines, |line: Seq<char>| i64s_of(line))
}

/// What `get_safe_reports` and its dampened twin owe for a text: the count
/// of the reports that pass, or `Malformed` where a word is no number.
pub open spec fn safe_count_of(text: Seq<char>, with_dampaner: bool) -> Result<u64, InputError> {
    match reports_of(lines_of(text)) {
        Some(levels) => Ok(safe_reports(levels, with_dampaner, levels.len() as int) as u64),
        None => Err(InputError::Malformed),
    }
}

/// No more reports pass than there are.
pub proof fn lemma_safe_reports_bounded(levels: Seq<Seq<i64>>, with_dampaner: bool, n: int)
    requires
        0 <= n,
    ensures
        safe_reports(levels, with_dampaner, n) <= n,
    decreases n,
{
    if n > 0 {
        lemma_safe_reports_bounded(levels, with_dampaner, n - 1);
    }
}

/// The reports of the engineers.
pub struct Levels {
    pub levels: Vec<Vec<i64>>,
}

impl Levels {
    /// The reports as sequences of levels.
    pub open spec fn reports(&self) -> Seq<Seq<i64>> {
        rows_of(self.levels)
    }

    /// No reports.
    pub fn new() -> (levels: Self)
        ensures
            levels.levels@.len() == 0,
    {
        Levels { levels: Vec::new() }
    }

    /// The given reports.
    pub fn from_vec(v: Vec<Vec<i64>>) -> (levels: Self)
        ensures
            levels.levels == v,
    {
        Levels { levels: v }
    }

    /// The reports that `s` writes: one for each line, the levels separated
    /// by white space.
    pub fn from_text(s: &str) -> (levels: Option<Self>)
        ensures
            match levels {
                Some(read) => reports_of(lines_of(s@)) == Some(read.reports()),
                None => reports_of(lines_of(s@)) is None,
            },
    {
        let chars = chars_of(s);
        let lines = split_lines(&chars);
        let ghost read = |line: Seq<char>| i64s_of(line);
        let mut levels: Vec<Vec<i64>> = Vec::new();
        let mut k: usize = 0;
        assert(rows_of(lines).take(0) =~= Seq::<Seq<char>>::empty());
        assert(rows_of(levels) =~= Seq::<Seq<i64>>::empty());
        while k < lines.len()
            invariant
                k <= lines.len(),
                rows_of(lines) == lines_of(s@),
                read == (|line: Seq<char>| i64s_of(line)),
                all_of(rows_of(lines).take(k as int), read) == Some(rows_of(levels)),
            decreases lines.len() - k,
        {
            let ghost longer = rows_of(lines).take(k + 1);
            let ghost before = rows_of(levels);
            assert(longer.drop_last() =~= rows_of(lines).take(k as int));
            assert(longer.last() == lines@[k as int]@);
            match parse_i64s(&lines[k]) {
                Some(level) => {
                    let ghost added = level@;
                    levels.push(level);
                    assert(rows_of(levels) =~= before.push(added));
                },
                None => {
                    proof {
                        lemma_one_fails_all(rows_of(lines), read, k as int);
                    }
                    return None;
                },
            }
            k += 1;
        }
        assert(rows_of(lines).take(k as int) =~= rows_of(lines));
        Some(Levels { levels })
    }

    /// How many reports count as safe: as they stand, or, with the
    /// dampener, once some one level is taken out.
    pub fn find_safe_reports(&self, with_dampaner: bool) -> (count: u64)
        ensures
            count == safe_reports(self.reports(), with_dampaner, self.reports().len() as int),
    {
        let ghost reports = self.reports();
        let mut count: u64 = 0;
        let mut k: usize = 0;
        while k < self.levels.len()
            invariant
                k <= self.levels.len(),
                reports == self.reports(),
                count == safe_reports(reports, with_dampaner, k as int),
                count <= k,
            decreases self.levels.len() - k,
        {
            let level = &self.levels[k];
            assert(level@ == reports[k as int]);
            let mut passed = Self::is_safe(level);
            if !passed && with_dampaner {
                let mut i: usize = 0;
                while i < level.len() && !passed
                    invariant
                        i <= level.len(),
                        passed ==> safe_without_one(level@),
                        !passed ==> forall|t: int| 0 <= t < i ==> !safe_without(level@, t),
                    decreases level.len() - i,
                {
                    let mut new_level = level.clone();
                    new_level.remove(i);
                    assert(new_level@ == level@.remove(i as int));
                    if Self::is_safe(&new_level) {
                        assert(safe_without(level@, i as int));
                        passed = true;
                    }
                    i += 1;
                }
            }
            if passed {
                count = count + 1;
            }
            k += 1;
        }
        count
    }

    /// Whether the levels only rise or only fall, by one to three each time.
    pub fn is_safe(level: &Vec<i64>) -> (is_safe: bool)
        ensures
            is_safe == safe(level@),
    {
        if level.len() == 0 {
            return true;
        }
        let mut rising = true;
        let mut falling = true;
        let mut k: usize = 1;
        while k < level.len()
            invariant
                1 <= k <= level.len(),
                rising == rises(level@.take(k as int)),
                falling == falls(level@.take(k as int)),
            decreases level.len() - k,
        {
            let difference = level[k] as i128 - level[k - 1] as i128;
            let ghost shorter = level@.take(k as int);
            let ghost longer = level@.take(k + 1);
            assert(forall|t: int| 0 <= t < k ==> shorter[t] == longer[t]);
            assert(longer[k - 1 + 1] - longer[k - 1] == difference);
            if !(1 <= difference && difference <= 3) {
                rising = false;
            }
            if !(-3 <= difference && difference <= -1) {
                falling = false;
            }
            assert(rises(longer) == (rises(shorter) && 1 <= difference <= 3)) by {
                if rises(shorter) && 1 <= difference <= 3 {
                    assert forall|t: int| 0 <= t < longer.len() - 1 implies 1 <= #[trigger] longer[t
                        + 1] - longer[t] <= 3 by {
                        if t < k - 1 {
                            assert(1 <= shorter[t + 1] - shorter[t] <= 3);
                        }
                    }
                }
                if rises(longer) {
                    assert forall|t: int| 0 <= t < shorter.len() - 1 implies 1
                        <= #[trigger] shorter[t + 1] - shorter[t] <= 3 by {
                        assert(1 <= longer[t + 1] - longer[t] <= 3);
                    }
                }
            }
            assert(falls(longer) == (falls(shorter) && -3 <= difference <= -1)) by {
                if falls(shorter) && -3 <= difference <= -1 {
                    assert forall|t: int| 0 <= t < longer.len() - 1 implies -3
                        <= #[trigger] longer[t + 1] - longer[t] <= -1 by {
                        if t < k - 1 {
                            assert(-3 <= shorter[t + 1] - shorter[t] <= -1);
                        }
                    }
                }
                if falls(longer) {
                    assert forall|t: int| 0 <= t < shorter.len() - 1 implies -3
                        <= #[trigger] shorter[t + 1] - shorter[t] <= -1 by {
                        assert(-3 <= longer[t + 1] - longer[t] <= -1);
                    }
                }
            }
            k += 1;
        }
        assert(level@.take(k as int) =~= level@);
        rising || falling
    }
}

/// How many reports of the text are safe as they stand.
pub fn get_safe_reports(input: &str) -> (count: Result<u64, InputError>)
    ensures
        count == safe_count_of(input@, false),
{
    match Levels::from_text(input) {
        Some(levels) => {
            proof {
                lemma_safe_reports_bounded(
                    levels.reports(),
                    false,
                    levels.reports().len() as int,
                );
            }
            Ok(levels.find_safe_reports(false))
        },
        None => Err(InputError::Malformed),
    }
}

/// How many reports of the text are safe as they stand or once some one
/// level is taken out.
pub fn get_safe_reports_with_dampaner(input: &str) -> (count: Result<u64, InputError>)
    ensures
        count == safe_count_of(input@, true),
{
    match Levels::from_text(input) {
        Some(levels) => {
            proof {
                lemma_safe_reports_bounded(levels.reports(), true, levels.reports().len() as int);
            }
            Ok(levels.find_safe_reports(true))
        },
        None => Err(InputError::Malformed),
    }
}

} // verus!
