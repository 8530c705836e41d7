//! A safety manual: rules that say which page must be printed before which,
//! and updates, each a row of pages. The middle pages of the updates that
//! keep the rules are added up, or those of the others once put right.

use std::collections::HashMap;
use std::collections::HashSet;
use vstd::prelude::*;
use crate::text::{
    all_of, chars_of, cut_at, lemma_all_of_length, lemma_one_fails_all, lemma_pieces_exist,
    lines_of, parse_each_u64, parse_u64, pieces_of, rows_of, split_at_each, split_lines,
    split_once, u64_of, InputError,
};

verus! {

/// What parts the rules of a manual from its updates: an empty line.
pub open spec fn parting() -> Seq<char> {
    seq!['\n', '\n']
}

/// What parts the two pages of a rule.
pub open spec fn bar() -> Seq<char> {
    seq!['|']
}

/// The rule that a line writes: the page before the bar must be printed
/// before the page after it.
pub open spec fn rule_of(line: Seq<char>) -> Option<(u64, u64)> {
    match cut_at(line, bar()) {
        None => None,
        Some(sides) => match (u64_of(sides.0), u64_of(sides.1)) {
            (Some(first), Some(then)) => Some((first, then)),
            _ => None,
        },
    }
}

/// The pages that a line writes, with commas between them.
pub open spec fn update_of(line: Seq<char>) -> Option<Seq<u64>> {
    all_of(pieces_of(line, ','), |word: Seq<char>| u64_of(word))
}

/// What a manual says: its rules, each a pair of a page and a page to be
/// printed after it, and its updates.
pub struct Manual {
    pub rules: Set<(u64, u64)>,
    pub updates: Seq<Seq<u64>>,
}

/// The manual that a text writes: rules, one on each line, then an empty
/// line, then updates, one on each line.
pub open spec fn manual_of(text: Seq<char>) -> Option<Manual> {
    match cut_at(text, parting()) {
        None => None,
        Some(halves) => match (
            all_of(lines_of(halves.0), |line: Seq<char>| rule_of(line)),
            all_of(lines_of(halves.1), |line: Seq<char>| update_of(line)),
        ) {
            (Some(rules), Some(updates)) => Some(Manual { rules: rules.to_set(), updates }),
            _ => None,
        },
    }
}

/// The rules ask that `first` be printed before `then`.
pub open spec fn before(rules: Set<(u64, u64)>, first: u64, then: u64) -> bool {
    rules.contains((first, then))
}

/// The update keeps the rules: no page stands behind a page that it must
/// be printed before.
pub open spec fn in_order(rules: Set<(u64, u64)>, update: Seq<u64>) -> bool {
    forall|i: int, j: int|
        0 <= i < j < update.len() ==> !before(rules, #[trigger] update[j], #[trigger] update[i])
}

/// The page in the middle of an update.
pub open spec fn middle(update: Seq<u64>) -> u64 {
    update[update.len() as int / 2]
}

/// The sum of the middle pages of those among the first `n` updates that
/// keep the rules.
pub open spec fn ordered_sum(rules: Set<(u64, u64)>, updates: Seq<Seq<u64>>, n: int) -> nat
    decreases n,
{
    if n <= 0 {
        0
    } else {
        ordered_sum(rules, updates, n - 1) + if in_order(rules, updates[n - 1]) {
            middle(updates[n - 1]) as nat
        } else {
            0nat
        }
    }
}

/// A sum over more updates is no smaller.
pub proof fn lemma_ordered_sum_grows(
    rules: Set<(u64, u64)>,
    updates: Seq<Seq<u64>>,
    m: int,
    n: int,
)
    requires
        m <= n,
    ensures
        ordered_sum(rules, updates, m) <= ordered_sum(rules, updates, n),
    decreases n - m,
{
    if m < n {
        lemma_ordered_sum_grows(rules, updates, m, n - 1);
    }
}

/// The page at index `j` stands behind a page that it must be printed before.
pub open spec fn misplaced(rules: Set<(u64, u64)>, update: Seq<u64>, j: int) -> bool {
    exists|i: int| 0 <= i < j && before(rules, update[j], #[trigger] update[i])
}

/// The index of the first misplaced page from index `j` on, or `-1` where
/// there is none.
pub open spec fn first_misplaced(rules: Set<(u64, u64)>, update: Seq<u64>, j: int) -> int
    decreases update.len() - j,
{
    if j < 0 || j >= update.len() {
        -1
    } else if misplaced(rules, update, j) {
        j
    } else {
        first_misplaced(rules, update, j + 1)
    }
}

/// The page at index `t` is in the way of the page at index `j`: it stands
/// before it, must be printed after it, and does not stand once more
/// between the two.
pub open spec fn in_the_way(rules: Set<(u64, u64)>, update: Seq<u64>, j: int, t: int) -> bool {
    &&& 0 <= t < j
    &&& before(rules, update[j], update[t])
    &&& forall|u: int| t < u < j ==> #[trigger] update[u] != update[t]
}

/// The index of the first page from index `t` on that is in the way of the
/// page at index `j`, or `-1` where there is none.
pub open spec fn first_in_the_way(rules: Set<(u64, u64)>, update: Seq<u64>, j: int, t: int) -> int
    decreases j - t,
{
    if t < 0 || t >= j {
        -1
    } else if in_the_way(rules, update, j, t) {
        t
    } else {
        first_in_the_way(rules, update, j, t + 1)
    }
}

/// The update after one mending: its first misplaced page has changed
/// places with the first page that is in its way. An update that keeps the
/// rules stays as it is.
pub open spec fn mended(rules: Set<(u64, u64)>, update: Seq<u64>) -> Seq<u64> {
    let j = first_misplaced(rules, update, 0);
    if j < 0 {
        update
    } else {
        let t = first_in_the_way(rules, update, j, 0);
        update.update(j, update[t]).update(t, update[j])
    }
}

/// The update after `n` mendings.
pub open spec fn mended_times(rules: Set<(u64, u64)>, update: Seq<u64>, n: nat) -> Seq<u64>
    decreases n,
{
    if n == 0 {
        update
    } else {
        mended(rules, mended_times(rules, update, (n - 1) as nat))
    }
}

/// After `n` mendings the update keeps the rules.
pub open spec fn right_after(rules: Set<(u64, u64)>, update: Seq<u64>, n: nat) -> bool {
    in_order(rules, mended_times(rules, update, n))
}

/// Mending the update again and again comes to an end.
pub open spec fn mends(rules: Set<(u64, u64)>, update: Seq<u64>) -> bool {
    exists|n: nat| right_after(rules, update, n)
}

/// The update as mending leaves it, where mending comes to an end.
pub open spec fn put_right(rules: Set<(u64, u64)>, update: Seq<u64>) -> Seq<u64> {
    mended_times(rules, update, choose|n: nat| right_after(rules, update, n))
}

/// The sum of the middle pages, once put right, of those among the first
/// `n` updates that do not keep the rules.
pub open spec fn mended_sum(rules: Set<(u64, u64)>, updates: Seq<Seq<u64>>, n: int) -> nat
    decreases n,
{
    if n <= 0 {
        0
    } else {
        mended_sum(rules, updates, n - 1) + if in_order(rules, updates[n - 1]) {
            0nat
        } else {
            middle(put_right(rules, updates[n - 1])) as nat
        }
    }
}

/// A sum over more updates is no smaller.
pub proof fn lemma_mended_sum_grows(
    rules: Set<(u64, u64)>,
    updates: Seq<Seq<u64>>,
    m: int,
    n: int,
)
    requires
        m <= n,
    ensures
        mended_sum(rules, updates, m) <= mended_sum(rules, updates, n),
    decreases n - m,
{
    if m < n {
        lemma_mended_sum_grows(rules, updates, m, n - 1);
    }
}

/// Where no page before index `j` is misplaced, the search for the first
/// misplaced page may start at `j`.
pub proof fn lemma_first_misplaced_from(rules: Set<(u64, u64)>, update: Seq<u64>, j: int)
    requires
        0 <= j,
        forall|b: int| 0 <= b < j ==> !misplaced(rules, update, b),
    ensures
        first_misplaced(rules, update, 0) == first_misplaced(rules, update, j),
    decreases j,
{
    if j > 0 {
        lemma_first_misplaced_from(rules, update, j - 1);
        if j - 1 < update.len() {
            assert(!misplaced(rules, update, j - 1));
        }
    }
}

/// Where no page before index `t` is in the way, the search for the first
/// page in the way may start at `t`.
pub proof fn lemma_first_in_the_way_from(
    rules: Set<(u64, u64)>,
    update: Seq<u64>,
    j: int,
    t: int,
)
    requires
        0 <= t,
        forall|u: int| 0 <= u < t ==> !in_the_way(rules, update, j, u),
    ensures
        first_in_the_way(rules, update, j, 0) == first_in_the_way(rules, update, j, t),
    decreases t,
{
    if t > 0 {
        lemma_first_in_the_way_from(rules, update, j, t - 1);
        if t - 1 < j {
            assert(!in_the_way(rules, update, j, t - 1));
        }
    }
}

/// An update keeps the rules exactly when none of its pages is misplaced.
pub proof fn lemma_in_order_is_no_misplaced(rules: Set<(u64, u64)>, update: Seq<u64>)
    ensures
        in_order(rules, update) <==> first_misplaced(rules, update, 0) == -1,
{
    if in_order(rules, update) {
        lemma_none_misplaced(rules, update, 0);
    }
    if first_misplaced(rules, update, 0) == -1 {
        lemma_found_none(rules, update, 0);
        assert forall|i: int, j: int| 0 <= i < j < update.len() implies !before(
            rules,
            #[trigger] update[j],
            #[trigger] update[i],
        ) by {
            assert(!misplaced(rules, update, j));
        }
    }
}

/// In an update that keeps the rules the search finds no misplaced page.
pub proof fn lemma_none_misplaced(rules: Set<(u64, u64)>, update: Seq<u64>, j: int)
    requires
        in_order(rules, update),
        0 <= j,
    ensures
        first_misplaced(rules, update, j) == -1,
    decreases update.len() - j,
{
    if j < update.len() {
        lemma_none_misplaced(rules, update, j + 1);
    }
}

/// Where the search from `j` on finds nothing, no page from `j` on is
/// misplaced; what it finds is never negative but for `-1`.
pub proof fn lemma_found_none(rules: Set<(u64, u64)>, update: Seq<u64>, j: int)
    requires
        0 <= j,
        first_misplaced(rules, update, j) == -1,
    ensures
        forall|b: int| j <= b < update.len() ==> !misplaced(rules, update, b),
    decreases update.len() - j,
{
    if j < update.len() {
        lemma_found_none(rules, update, j + 1);
    }
}

/// An update that keeps the rules stays as it is however often it is mended.
pub proof fn lemma_right_stays(rules: Set<(u64, u64)>, update: Seq<u64>, m: nat, n: nat)
    requires
        m <= n,
        right_after(rules, update, m),
    ensures
        mended_times(rules, update, n) == mended_times(rules, update, m),
    decreases n,
{
    if m < n {
        lemma_right_stays(rules, update, m, (n - 1) as nat);
        lemma_in_order_is_no_misplaced(rules, mended_times(rules, update, m));
    }
}

/// What the search for a misplaced page finds is a misplaced page.
pub proof fn lemma_first_misplaced_found(rules: Set<(u64, u64)>, update: Seq<u64>, j: int)
    requires
        0 <= j,
    ensures
        first_misplaced(rules, update, j) == -1 || (j <= first_misplaced(rules, update, j)
            < update.len() && misplaced(rules, update, first_misplaced(rules, update, j))),
    decreases update.len() - j,
{
    if j < update.len() {
        lemma_first_misplaced_found(rules, update, j + 1);
    }
}

/// A misplaced page has a page in its way, and the search finds one.
pub proof fn lemma_first_in_the_way_found(rules: Set<(u64, u64)>, update: Seq<u64>, j: int)
    requires
        0 <= j < update.len(),
        misplaced(rules, update, j),
    ensures
        0 <= first_in_the_way(rules, update, j, 0) < j,
{
    let i = choose|i: int| 0 <= i < j && before(rules, update[j], #[trigger] update[i]);
    let last = lemma_last_before(update, j, i);
    lemma_search_finds(rules, update, j, 0, last);
}

/// The last index before `j` at which the page of index `i` stands.
pub proof fn lemma_last_before(update: Seq<u64>, j: int, i: int) -> (last: int)
    requires
        0 <= i < j <= update.len(),
    ensures
        i <= last < j,
        update[last] == update[i],
        forall|u: int| last < u < j ==> #[trigger] update[u] != update[i],
    decreases j - i,
{
    if exists|u: int| i < u < j && update[u] == update[i] {
        let u = choose|u: int| i < u < j && update[u] == update[i];
        lemma_last_before(update, j, u)
    } else {
        i
    }
}

/// Where a page from `t` on is in the way, the search from `t` on finds one.
pub proof fn lemma_search_finds(
    rules: Set<(u64, u64)>,
    update: Seq<u64>,
    j: int,
    t: int,
    at: int,
)
    requires
        0 <= t <= at,
        in_the_way(rules, update, j, at),
    ensures
        t <= first_in_the_way(rules, update, j, t) < j,
    decreases j - t,
{
    if !in_the_way(rules, update, j, t) {
        lemma_search_finds(rules, update, j, t + 1, at);
    }
}

/// Mending keeps the length of an update.
pub proof fn lemma_mended_length(rules: Set<(u64, u64)>, update: Seq<u64>, n: nat)
    ensures
        mended_times(rules, update, n).len() == update.len(),
    decreases n,
{
    if n > 0 {
        lemma_mended_length(rules, update, (n - 1) as nat);
        let earlier = mended_times(rules, update, (n - 1) as nat);
        lemma_first_misplaced_found(rules, earlier, 0);
        if first_misplaced(rules, earlier, 0) >= 0 {
            lemma_first_in_the_way_found(rules, earlier, first_misplaced(rules, earlier, 0));
        }
    }
}

/// Mending `a + b` times is mending `a` times and then `b` times more.
pub proof fn lemma_mended_split(rules: Set<(u64, u64)>, update: Seq<u64>, a: nat, b: nat)
    ensures
        mended_times(rules, update, a + b) == mended_times(
            rules,
            mended_times(rules, update, a),
            b,
        ),
    decreases b,
{
    if b > 0 {
        lemma_mended_split(rules, update, a, (b - 1) as nat);
        assert((a + b - 1) as nat == a + (b - 1) as nat);
    }
}

/// Once mending has come back to an arrangement, every later arrangement
/// is one of those before the return.
pub proof fn lemma_mending_folds_back(
    rules: Set<(u64, u64)>,
    update: Seq<u64>,
    i: nat,
    j: nat,
    n: nat,
)
    requires
        i < j,
        mended_times(rules, update, i) == mended_times(rules, update, j),
    ensures
        exists|m: nat|
            m < j && mended_times(rules, update, n) == #[trigger] mended_times(rules, update, m),
    decreases n,
{
    if n < j {
        assert(mended_times(rules, update, n) == mended_times(rules, update, n));
    } else {
        let rest = (n - j) as nat;
        lemma_mended_split(rules, update, j, rest);
        lemma_mended_split(rules, update, i, rest);
        lemma_mending_folds_back(rules, update, i, j, i + rest);
    }
}

/// Mending that comes back to an arrangement before the update keeps the
/// rules never comes to an end.
pub proof fn lemma_circle_never_mends(rules: Set<(u64, u64)>, update: Seq<u64>, i: nat, j: nat)
    requires
        i < j,
        mended_times(rules, update, i) == mended_times(rules, update, j),
        forall|m: nat| m < j ==> !right_after(rules, update, m),
    ensures
        !mends(rules, update),
{
    assert forall|n: nat| !right_after(rules, update, n) by {
        lemma_mending_folds_back(rules, update, i, j, n);
        let m = choose|m: nat|
            m < j && mended_times(rules, update, n) == #[trigger] mended_times(rules, update, m);
        assert(!right_after(rules, update, m));
    }
}

/// The rows of `n` pages, each taken from `pages`.
pub open spec fn arrangements(pages: Set<u64>, n: nat) -> Set<Seq<u64>> {
    Set::new(
        |row: Seq<u64>| row.len() == n && forall|k: int| 0 <= k < n ==> pages.contains(#[trigger] row[k]),
    )
}

/// The rows of `n + 1` pages of which the first `n` are taken from `pages`
/// and the last from `last`.
pub open spec fn extended(pages: Set<u64>, last: Set<u64>, n: nat) -> Set<Seq<u64>> {
    Set::new(
        |row: Seq<u64>|
            row.len() == n + 1 && arrangements(pages, n).contains(row.drop_last()) && last.contains(
                row.last(),
            ),
    )
}

/// Finitely many pages make finitely many rows of one more page.
pub proof fn lemma_extended_finite(pages: Set<u64>, last: Set<u64>, n: nat)
    requires
        arrangements(pages, n).finite(),
        last.finite(),
    ensures
        extended(pages, last, n).finite(),
    decreases last.len(),
{
    if last.len() == 0 {
        assert(last =~= Set::empty());
        assert(extended(pages, last, n) =~= Set::empty());
    } else {
        let page = last.choose();
        let rest = last.remove(page);
        lemma_extended_finite(pages, rest, n);
        let ending = |row: Seq<u64>| row.push(page);
        arrangements(pages, n).lemma_map_finite(ending);
        let with_page = arrangements(pages, n).map(ending);
        assert forall|row: Seq<u64>| extended(pages, last, n).contains(row) implies extended(
            pages,
            rest,
            n,
        ).union(with_page).contains(row) by {
            if row.last() == page {
                assert(ending(row.drop_last()) =~= row);
                assert(with_page.contains(row));
            } else {
                assert(rest.contains(row.last()));
            }
        }
        vstd::set_lib::lemma_len_subset(
            extended(pages, last, n),
            extended(pages, rest, n).union(with_page),
        );
    }
}

/// Finitely many pages make finitely many rows of a given length.
pub proof fn lemma_arrangements_finite(pages: Set<u64>, n: nat)
    requires
        pages.finite(),
    ensures
        arrangements(pages, n).finite(),
    decreases n,
{
    if n == 0 {
        assert forall|row: Seq<u64>| arrangements(pages, 0).contains(row) implies set![
            Seq::<u64>::empty(),
        ].contains(row) by {
            assert(row =~= Seq::<u64>::empty());
        }
        vstd::set_lib::lemma_len_subset(arrangements(pages, 0), set![Seq::<u64>::empty()]);
    } else {
        let shorter = (n - 1) as nat;
        lemma_arrangements_finite(pages, shorter);
        lemma_extended_finite(pages, pages, shorter);
        assert forall|row: Seq<u64>| arrangements(pages, n).contains(row) implies extended(
            pages,
            pages,
            shorter,
        ).contains(row) by {
            assert forall|k: int| 0 <= k < shorter implies pages.contains(
                #[trigger] row.drop_last()[k],
            ) by {
                assert(row.drop_last()[k] == row[k]);
            }
            assert(pages.contains(row[n - 1]));
        }
        vstd::set_lib::lemma_len_subset(arrangements(pages, n), extended(pages, pages, shorter));
    }
}

/// Mending arranges the pages of the update anew, and no others.
pub proof fn lemma_mended_arranges(rules: Set<(u64, u64)>, update: Seq<u64>, n: nat)
    ensures
        arrangements(update.to_set(), update.len()).contains(mended_times(rules, update, n)),
    decreases n,
{
    let pages = update.to_set();
    if n == 0 {
        assert forall|k: int| 0 <= k < update.len() implies pages.contains(
            #[trigger] update[k],
        ) by {}
    } else {
        lemma_mended_arranges(rules, update, (n - 1) as nat);
        let earlier = mended_times(rules, update, (n - 1) as nat);
        lemma_first_misplaced_found(rules, earlier, 0);
        let j = first_misplaced(rules, earlier, 0);
        if j >= 0 {
            lemma_first_in_the_way_found(rules, earlier, j);
            let t = first_in_the_way(rules, earlier, j, 0);
            let later = mended(rules, earlier);
            assert forall|k: int| 0 <= k < later.len() implies pages.contains(
                #[trigger] later[k],
            ) by {
                assert(pages.contains(earlier[k]));
                assert(pages.contains(earlier[j]));
                assert(pages.contains(earlier[t]));
            }
        }
    }
}

/// The map holds `then` among the pages to be printed after `first`.
pub open spec fn held(ordering: Map<u64, HashSet<u64>>, first: u64, then: u64) -> bool {
    ordering.contains_key(first) && ordering[first]@.contains(then)
}

/// The rules of a manual, kept for each page as the set of the pages that
/// must be printed after it, and its updates.
pub struct SafetyManual {
    pub page_ordering: HashMap<u64, HashSet<u64>>,
    pub updates: Vec<Vec<u64>>,
}

impl SafetyManual {
    /// The updates as rows of pages.
    pub open spec fn rows(&self) -> Seq<Seq<u64>> {
        rows_of(self.updates)
    }

    /// The rules that the manual keeps.
    pub open spec fn rules(&self) -> Set<(u64, u64)> {
        Set::new(|rule: (u64, u64)| held(self.page_ordering@, rule.0, rule.1))
    }

    /// No update is empty.
    pub open spec fn wf(&self) -> bool {
        forall|k: int| 0 <= k < self.rows().len() ==> (#[trigger] self.rows()[k]).len() > 0
    }

    pub fn new(page_ordering: HashMap<u64, HashSet<u64>>, updates: Vec<Vec<u64>>) -> (manual: Self)
        ensures
            manual.page_ordering == page_ordering,
            manual.updates == updates,
    {
        Self { page_ordering, updates }
    }

    /// Reads the rule that `line` writes.
    pub fn read_rule(line: &Vec<char>) -> (rule: Option<(u64, u64)>)
        ensures
            rule == rule_of(line@),
    {
        let stroke = vec!['|'];
        assert(stroke@ =~= bar());
        match split_once(line, &stroke) {
            Some((first, then)) => match (parse_u64(&first), parse_u64(&then)) {
                (Some(first), Some(then)) => Some((first, then)),
                _ => None,
            },
            None => None,
        }
    }

    /// Reads the update that `line` writes.
    pub fn read_update(line: &Vec<char>) -> (update: Option<Vec<u64>>)
        ensures
            match update {
                Some(pages) => update_of(line@) == Some(pages@) && pages@.len() > 0,
                None => update_of(line@) is None,
            },
    {
        let pieces = split_at_each(line, ',');
        proof {
            lemma_pieces_exist(line@, ',', 0, Seq::empty());
            lemma_all_of_length(pieces_of(line@, ','), |word: Seq<char>| u64_of(word));
        }
        parse_each_u64(&pieces)
    }

    /// The manual that `s` writes, or `None` where `s` writes none.
    pub fn from_text(s: &str) -> (manual: Option<Self>)
        ensures
            match manual {
                Some(read) => manual_of(s@) matches Some(written) && read.rules()
                    == written.rules && read.rows() == written.updates && read.wf(),
                None => manual_of(s@) is None,
            },
    {
        broadcast use vstd::std_specs::hash::group_hash_axioms;

        let chars = chars_of(s);
        let gap = vec!['\n', '\n'];
        assert(gap@ =~= parting());
        let (ordering_rules, updates_text) = match split_once(&chars, &gap) {
            Some(halves) => halves,
            None => {
                return None;
            },
        };
        let rule_lines = split_lines(&ordering_rules);
        let ghost read_rule = |line: Seq<char>| rule_of(line);
        let ghost mut rules: Seq<(u64, u64)> = Seq::empty();
        let mut page_ordering: HashMap<u64, HashSet<u64>> = HashMap::new();
        let mut k: usize = 0;
        assert(rows_of(rule_lines).take(0) =~= Seq::<Seq<char>>::empty());
        while k < rule_lines.len()
            invariant
                k <= rule_lines.len(),
                read_rule == (|line: Seq<char>| rule_of(line)),
                cut_at(s@, parting()) == Some((ordering_rules@, updates_text@)),
                rows_of(rule_lines) == lines_of(ordering_rules@),
                all_of(rows_of(rule_lines).take(k as int), read_rule) == Some(rules),
                forall|first: u64, then: u64| #[trigger]
                    held(page_ordering@, first, then) <==> rules.contains((first, then)),
            decreases rule_lines.len() - k,
        {
            let ghost longer = rows_of(rule_lines).take(k + 1);
            assert(longer.drop_last() =~= rows_of(rule_lines).take(k as int));
            assert(longer.last() == rule_lines@[k as int]@);
            let (page, rule) = match Self::read_rule(&rule_lines[k]) {
                Some(rule) => rule,
                None => {
                    proof {
                        lemma_one_fails_all(rows_of(rule_lines), read_rule, k as int);
                    }
                    return None;
                },
            };
            let ghost old_ordering = page_ordering@;
            let ghost old_rules = rules;
            page_ordering.entry(page).or_insert(HashSet::new()).insert(rule);
            proof {
                rules = rules.push((page, rule));
                assert(rules[old_rules.len() as int] == (page, rule));
                assert forall|first: u64, then: u64| #[trigger]
                    held(page_ordering@, first, then) <==> rules.contains((first, then)) by {
                    assert(held(old_ordering, first, then) <==> old_rules.contains(
                        (first, then),
                    ));
                    if old_rules.contains((first, then)) {
                        let t = choose|t: int|
                            0 <= t < old_rules.len() && old_rules[t] == (first, then);
                        assert(rules[t] == (first, then));
                    }
                    if rules.contains((first, then)) && (first, then) != (page, rule) {
                        let t = choose|t: int| 0 <= t < rules.len() && rules[t] == (first, then);
                        assert(old_rules[t] == (first, then));
                    }
                }
            }
            k += 1;
        }
        assert(rows_of(rule_lines).take(k as int) =~= rows_of(rule_lines));
        let update_lines = split_lines(&updates_text);
        let ghost read_update = |line: Seq<char>| update_of(line);
        let mut updates: Vec<Vec<u64>> = Vec::new();
        let mut k: usize = 0;
        assert(rows_of(update_lines).take(0) =~= Seq::<Seq<char>>::empty());
        assert(rows_of(updates) =~= Seq::<Seq<u64>>::empty());
        while k < update_lines.len()
            invariant
                k <= update_lines.len(),
                read_update == (|line: Seq<char>| update_of(line)),
                cut_at(s@, parting()) == Some((ordering_rules@, updates_text@)),
                rows_of(update_lines) == lines_of(updates_text@),
                all_of(rows_of(update_lines).take(k as int), read_update) == Some(
                    rows_of(updates),
                ),
                forall|t: int|
                    0 <= t < rows_of(updates).len() ==> (#[trigger] rows_of(updates)[t]).len() > 0,
            decreases update_lines.len() - k,
        {
            let ghost longer = rows_of(update_lines).take(k + 1);
            let ghost before_rows = rows_of(updates);
            assert(longer.drop_last() =~= rows_of(update_lines).take(k as int));
            assert(longer.last() == update_lines@[k as int]@);
            match Self::read_update(&update_lines[k]) {
                Some(update) => {
                    let ghost added = update@;
                    updates.push(update);
                    assert(rows_of(updates) =~= before_rows.push(added));
                },
                None => {
                    proof {
                        lemma_one_fails_all(rows_of(update_lines), read_update, k as int);
                    }
                    return None;
                },
            }
            k += 1;
        }
        assert(rows_of(update_lines).take(k as int) =~= rows_of(update_lines));
        let manual = SafetyManual::new(page_ordering, updates);
        assert(manual.rules() =~= rules.to_set());
        Some(manual)
    }

    /// Whether a page among `seen` must be printed after `page`.
    fn breaks_order(&self, page: u64, seen: &HashSet<u64>) -> (broken: bool)
        ensures
            broken == exists|then: u64| held(self.page_ordering@, page, then) && seen@.contains(then),
    {
        broadcast use vstd::std_specs::hash::group_hash_axioms;

        match self.page_ordering.get(&page) {
            Some(rules) => {
                let mut broken = false;
                let ghost mut found: u64 = 0;
                for then in it: rules.iter()
                    invariant
                        self.page_ordering@.contains_key(page),
                        rules@ == self.page_ordering@[page]@,
                        broken ==> rules@.contains(found) && seen@.contains(found),
                        !broken ==> forall|t: int|
                            0 <= t < it.index() ==> !seen@.contains(*(#[trigger] it.seq()[t])),
                {
                    if seen.contains(then) {
                        broken = true;
                        proof {
                            found = *then;
                        }
                    }
                }
                proof {
                    if broken {
                        assert(held(self.page_ordering@, page, found) && seen@.contains(found));
                    } else {
                        assert forall|then: u64|
                            held(self.page_ordering@, page, then) implies !seen@.contains(
                            then,
                        ) by {
                            assert(rules@.contains(then));
                        }
                    }
                }
                broken
            },
            None => false,
        }
    }

    /// Whether the update keeps the rules.
    pub fn is_in_order(&self, update: &Vec<u64>) -> (kept: bool)
        ensures
            kept == in_order(self.rules(), update@),
    {
        let ghost rules = self.rules();
        broadcast use vstd::std_specs::hash::group_hash_axioms;

        let mut seen: HashSet<u64> = HashSet::new();
        let mut j: usize = 0;
        while j < update.len()
            invariant
                j <= update.len(),
                rules == self.rules(),
                forall|page: u64| seen@.contains(page) <==> exists|i: int|
                    0 <= i < j && update@[i] == page,
                forall|a: int, b: int|
                    0 <= a < b < j ==> !before(rules, #[trigger] update@[b], #[trigger] update@[a]),
            decreases update.len() - j,
        {
            let page = update[j];
            if self.breaks_order(page, &seen) {
                proof {
                    let then = choose|then: u64|
                        held(self.page_ordering@, page, then) && seen@.contains(then);
                    let i = choose|i: int| 0 <= i < j && update@[i] == then;
                    assert(before(rules, update@[j as int], update@[i]));
                }
                return false;
            }
            proof {
                assert forall|a: int| 0 <= a < j implies !before(
                    rules,
                    update@[j as int],
                    #[trigger] update@[a],
                ) by {
                    if before(rules, update@[j as int], update@[a]) {
                        assert(held(self.page_ordering@, page, update@[a]));
                        assert(seen@.contains(update@[a]));
                    }
                }
            }
            seen.insert(page);
            j += 1;
        }
        true
    }

    /// The sum of the middle pages of the updates that keep the rules, or
    /// `None` where the sum does not fit.
    pub fn calculate_valid_update_sums(&self) -> (sum: Option<u64>)
        requires
            self.wf(),
        ensures
            match sum {
                Some(total) => total == ordered_sum(
                    self.rules(),
                    self.rows(),
                    self.rows().len() as int,
                ),
                None => ordered_sum(self.rules(), self.rows(), self.rows().len() as int)
                    > u64::MAX,
            },
    {
        let mut total: u64 = 0;
        let mut k: usize = 0;
        while k < self.updates.len()
            invariant
                k <= self.updates.len(),
                self.wf(),
                total == ordered_sum(self.rules(), self.rows(), k as int),
            decreases self.updates.len() - k,
        {
            let update = &self.updates[k];
            assert(update@ == self.rows()[k as int]);
            if self.is_in_order(update) {
                match total.checked_add(update[update.len() / 2]) {
                    Some(more) => {
                        total = more;
                    },
                    None => {
                        proof {
                            lemma_ordered_sum_grows(
                                self.rules(),
                                self.rows(),
                                k + 1,
                                self.rows().len() as int,
                            );
                        }
                        return None;
                    },
                }
            }
            k += 1;
        }
        Some(total)
    }

    /// The index, as kept in `seen`, of the first page among `seen` that
    /// must be printed after `page`.
    fn first_invalid(&self, page: u64, seen: &HashMap<u64, usize>) -> (first: Option<usize>)
        ensures
            first is None <==> forall|then: u64|
                held(self.page_ordering@, page, then) ==> !seen@.contains_key(then),
            first matches Some(least) ==> {
                &&& exists|then: u64|
                    held(self.page_ordering@, page, then) && seen@.contains_key(then)
                        && seen@[then] == least
                &&& forall|then: u64|
                    held(self.page_ordering@, page, then) && seen@.contains_key(then) ==> least
                        <= seen@[then]
            },
    {
        broadcast use vstd::std_specs::hash::group_hash_axioms;

        match self.page_ordering.get(&page) {
            Some(rules) => {
                let mut first: Option<usize> = None;
                let ghost mut found: u64 = 0;
                for then in it: rules.iter()
                    invariant
                        self.page_ordering@.contains_key(page),
                        rules@ == self.page_ordering@[page]@,
                        first is None ==> forall|t: int|
                            0 <= t < it.index() ==> !seen@.contains_key(
                                *(#[trigger] it.seq()[t]),
                            ),
                        first matches Some(least) ==> {
                            &&& rules@.contains(found)
                            &&& seen@.contains_key(found)
                            &&& seen@[found] == least
                            &&& forall|t: int|
                                0 <= t < it.index() && seen@.contains_key(
                                    *(#[trigger] it.seq()[t]),
                                ) ==> least <= seen@[*it.seq()[t]]
                        },
                {
                    match seen.get(then) {
                        Some(index) => {
                            let better = match first {
                                Some(least) => *index < least,
                                None => true,
                            };
                            if better {
                                first = Some(*index);
                                proof {
                                    found = *then;
                                }
                            }
                        },
                        None => {},
                    }
                }
                proof {
                    assert forall|then: u64|
                        held(self.page_ordering@, page, then) && seen@.contains_key(
                            then,
                        ) implies (first matches Some(least) && least <= seen@[then]) by {
                        assert(rules@.contains(then));
                    }
                    if first is Some {
                        assert(held(self.page_ordering@, page, found));
                    }
                }
                first
            },
            None => None,
        }
    }

    /// Mends the update once: its first misplaced page changes places with
    /// the first page in its way. Says whether there was anything to mend.
    pub fn mend_once(&self, update: &mut Vec<u64>) -> (changed: bool)
        ensures
            final(update)@ == mended(self.rules(), old(update)@),
            changed == !in_order(self.rules(), old(update)@),
    {
        broadcast use vstd::std_specs::hash::group_hash_axioms;

        let ghost rules = self.rules();
        let ghost start = update@;
        let mut seen: HashMap<u64, usize> = HashMap::new();
        let mut j: usize = 0;
        while j < update.len()
            invariant
                j <= update.len(),
                update@ == start,
                start == old(update)@,
                rules == self.rules(),
                forall|page: u64| #[trigger]
                    seen@.contains_key(page) <==> exists|i: int| 0 <= i < j && start[i] == page,
                forall|page: u64| #[trigger]
                    seen@.contains_key(page) ==> 0 <= seen@[page] < j && start[seen@[page] as int]
                        == page && forall|u: int|
                        seen@[page] < u < j ==> #[trigger] start[u] != page,
                forall|b: int| 0 <= b < j ==> !misplaced(rules, start, b),
            decreases update.len() - j,
        {
            let page = update[j];
            match self.first_invalid(page, &seen) {
                Some(first) => {
                    proof {
                        let then = choose|then: u64|
                            held(self.page_ordering@, page, then) && seen@.contains_key(then)
                                && seen@[then] == first;
                        assert(in_the_way(rules, start, j as int, first as int));
                        assert(misplaced(rules, start, j as int));
                        assert forall|u: int| 0 <= u < first implies !in_the_way(
                            rules,
                            start,
                            j as int,
                            u,
                        ) by {
                            if in_the_way(rules, start, j as int, u) {
                                let other = start[u];
                                assert(held(self.page_ordering@, page, other));
                                assert(seen@.contains_key(other));
                                assert(seen@[other] == u) by {
                                    let kept = seen@[other] as int;
                                    if kept < u {
                                        assert(start[u] != other);
                                    }
                                    if kept > u {
                                        assert(start[kept] != start[u]);
                                    }
                                }
                            }
                        }
                        lemma_first_misplaced_from(rules, start, j as int);
                        lemma_first_in_the_way_from(rules, start, j as int, first as int);
                        lemma_in_order_is_no_misplaced(rules, start);
                    }
                    let moved = update[j];
                    let other = update[first];
                    update.set(j, other);
                    update.set(first, moved);
                    assert(update@ =~= mended(rules, start));
                    return true;
                },
                None => {
                    proof {
                        assert(!misplaced(rules, start, j as int)) by {
                            if misplaced(rules, start, j as int) {
                                let i = choose|i: int|
                                    0 <= i < j && before(rules, start[j as int], #[trigger] start[i]);
                                assert(held(self.page_ordering@, page, start[i]));
                                assert(seen@.contains_key(start[i]));
                            }
                        }
                    }
                    seen.insert(page, j);
                },
            }
            j += 1;
        }
        proof {
            lemma_first_misplaced_from(rules, start, j as int);
            lemma_in_order_is_no_misplaced(rules, start);
        }
        false
    }

    /// Whether the two rows hold the same pages in the same order.
    fn same_pages(first: &Vec<u64>, second: &Vec<u64>) -> (same: bool)
        ensures
            same == (first@ == second@),
    {
        if first.len() != second.len() {
            return false;
        }
        let mut k: usize = 0;
        while k < first.len()
            invariant
                k <= first.len(),
                first.len() == second.len(),
                forall|t: int| 0 <= t < k ==> first@[t] == second@[t],
            decreases first.len() - k,
        {
            if first[k] != second[k] {
                return false;
            }
            k += 1;
        }
        assert(first@ =~= second@);
        true
    }

    /// Mends the update until it keeps the rules. `None` where mending
    /// comes back to an arrangement it has left, and so to no end.
    pub fn mend(&self, update: &Vec<u64>) -> (fixed: Option<Vec<u64>>)
        ensures
            match fixed {
                Some(pages) => mends(self.rules(), update@) && pages@ == put_right(
                    self.rules(),
                    update@,
                ),
                None => !mends(self.rules(), update@),
            },
    {
        let ghost rules = self.rules();
        let ghost written = update@;
        let ghost all = arrangements(written.to_set(), written.len());
        let mut curr_update = update.clone();
        let mut seen: Vec<Vec<u64>> = Vec::new();
        let ghost mut met: Set<Seq<u64>> = Set::empty();
        proof {
            vstd::seq_lib::seq_to_set_is_finite(written);
            lemma_arrangements_finite(written.to_set(), written.len());
        }
        loop
            invariant_except_break
                curr_update@ == mended_times(rules, written, seen@.len()),
            invariant
                rules == self.rules(),
                written == update@,
                all == arrangements(written.to_set(), written.len()),
                all.finite(),
                forall|k: int|
                    0 <= k < seen@.len() ==> (#[trigger] seen@[k])@ == mended_times(
                        rules,
                        written,
                        k as nat,
                    ) && !right_after(rules, written, k as nat),
                met.finite(),
                met.len() == seen@.len(),
                met.subset_of(all),
                forall|row: Seq<u64>|
                    met.contains(row) <==> exists|k: int|
                        0 <= k < seen@.len() && (#[trigger] seen@[k])@ == row,
            ensures
                right_after(rules, written, seen@.len()),
                curr_update@ == mended_times(rules, written, seen@.len()),
            decreases all.len() - seen@.len(),
        {
            let before = curr_update.clone();
            let changed = self.mend_once(&mut curr_update);
            if !changed {
                proof {
                    lemma_in_order_is_no_misplaced(rules, before@);
                }
                break ;
            }
            let mut k: usize = 0;
            while k < seen.len()
                invariant
                    k <= seen.len(),
                    rules == self.rules(),
                    written == update@,
                    before@ == mended_times(rules, written, seen@.len()),
                    forall|t: int|
                        0 <= t < seen@.len() ==> (#[trigger] seen@[t])@ == mended_times(
                            rules,
                            written,
                            t as nat,
                        ) && !right_after(rules, written, t as nat),
                    forall|t: int| 0 <= t < k ==> (#[trigger] seen@[t])@ != before@,
                decreases seen.len() - k,
            {
                if Self::same_pages(&seen[k], &before) {
                    proof {
                        assert forall|m: nat| m < seen@.len() implies !right_after(
                            rules,
                            written,
                            m,
                        ) by {
                            assert(seen@[m as int]@ == mended_times(rules, written, m));
                        }
                        lemma_circle_never_mends(rules, written, k as nat, seen@.len() as nat);
                    }
                    return None;
                }
                k += 1;
            }
            proof {
                lemma_mended_arranges(rules, written, seen@.len() as nat);
                vstd::set_lib::lemma_len_subset(met.insert(before@), all);
                met = met.insert(before@);
            }
            let ghost old_seen = seen@;
            seen.push(before);
            proof {
                assert forall|row: Seq<u64>|
                    met.contains(row) <==> exists|k: int|
                        0 <= k < seen@.len() && (#[trigger] seen@[k])@ == row by {
                    if met.contains(row) {
                        if row == before@ {
                            assert(seen@[old_seen.len() as int]@ == row);
                        } else {
                            let t = choose|t: int|
                                0 <= t < old_seen.len() && (#[trigger] old_seen[t])@ == row;
                            assert(seen@[t]@ == row);
                        }
                    }
                    if exists|k: int| 0 <= k < seen@.len() && (#[trigger] seen@[k])@ == row {
                        let t = choose|t: int|
                            0 <= t < seen@.len() && (#[trigger] seen@[t])@ == row;
                        if t < old_seen.len() {
                            assert(old_seen[t]@ == row);
                        }
                    }
                }
            }
        }
        proof {
            let enough = choose|n: nat| right_after(rules, written, n);
            let rounds = seen@.len() as nat;
            if rounds <= enough {
                lemma_right_stays(rules, written, rounds, enough);
            } else {
                lemma_right_stays(rules, written, enough, rounds);
            }
        }
        Some(curr_update)
    }

    /// The sum of the middle pages, once put right, of the updates that do
    /// not keep the rules; `Malformed` where the mending of an update comes
    /// to no end, `TooLarge` where the sum does not fit.
    pub fn calculate_incorrectly_update_sums(&self) -> (sum: Result<u64, InputError>)
        requires
            self.wf(),
        ensures
            sum == mended_result(self.rules(), self.rows()),
    {
        let ghost rules = self.rules();
        let mut total: u64 = 0;
        let mut overflow = false;
        let mut k: usize = 0;
        while k < self.updates.len()
            invariant
                k <= self.updates.len(),
                self.wf(),
                rules == self.rules(),
                forall|t: int| 0 <= t < k ==> mends(rules, #[trigger] self.rows()[t]),
                !overflow ==> total == mended_sum(rules, self.rows(), k as int),
                overflow ==> mended_sum(rules, self.rows(), k as int) > u64::MAX,
            decreases self.updates.len() - k,
        {
            let update = &self.updates[k];
            assert(update@ == self.rows()[k as int]);
            if !self.is_in_order(update) {
                let fixed = match self.mend(update) {
                    Some(fixed) => fixed,
                    None => {
                        return Err(InputError::Malformed);
                    },
                };
                proof {
                    let enough = choose|n: nat| right_after(rules, update@, n);
                    lemma_mended_length(rules, update@, enough);
                }
                if !overflow {
                    match total.checked_add(fixed[fixed.len() / 2]) {
                        Some(more) => {
                            total = more;
                        },
                        None => {
                            overflow = true;
                        },
                    }
                }
            } else {
                proof {
                    assert(right_after(rules, update@, 0));
                }
            }
            k += 1;
        }
        if overflow {
            Err(InputError::TooLarge)
        } else {
            Ok(total)
        }
    }
}

/// What the sum of the middle pages of the updates put right comes to:
/// `Malformed` where the mending of an update comes to no end, `TooLarge`
/// where the sum does not fit.
pub open spec fn mended_result(rules: Set<(u64, u64)>, updates: Seq<Seq<u64>>) -> Result<
    u64,
    InputError,
> {
    if !(forall|k: int| 0 <= k < updates.len() ==> mends(rules, #[trigger] updates[k])) {
        Err(InputError::Malformed)
    } else {
        answer_of(mended_sum(rules, updates, updates.len() as int))
    }
}

/// A sum as an answer: `TooLarge` where it does not fit.
pub open spec fn answer_of(sum: nat) -> Result<u64, InputError> {
    if sum > u64::MAX {
        Err(InputError::TooLarge)
    } else {
        Ok(sum as u64)
    }
}

/// What `calculate_correctly_ordered_updates` owes for a text: the sum of
/// the middle pages of the updates that keep the rules, or `Malformed`
/// where the text writes no manual.
pub open spec fn ordered_answer(text: Seq<char>) -> Result<u64, InputError> {
    match manual_of(text) {
        None => Err(InputError::Malformed),
        Some(manual) => answer_of(
            ordered_sum(manual.rules, manual.updates, manual.updates.len() as int),
        ),
    }
}

/// What `calculate_incorrectly_ordered_updates` owes for a text: the sum
/// of the middle pages, once put right, of the updates that do not keep
/// the rules; `Malformed` where the text writes no manual or the mending
/// of an update comes to no end.
pub open spec fn mended_answer(text: Seq<char>) -> Result<u64, InputError> {
    match manual_of(text) {
        None => Err(InputError::Malformed),
        Some(manual) => mended_result(manual.rules, manual.updates),
    }
}

/// The sum of the middle pages of the updates of the text that keep its rules.
pub fn calculate_correctly_ordered_updates(input: &str) -> (sum: Result<u64, InputError>)
    ensures
        sum == ordered_answer(input@),
{
    let manual = match SafetyManual::from_text(input) {
        Some(manual) => manual,
        None => {
            return Err(InputError::Malformed);
        },
    };
    match manual.calculate_valid_update_sums() {
        Some(sum) => Ok(sum),
        None => Err(InputError::TooLarge),
    }
}

/// The sum of the middle pages, once put right, of the updates of the text
/// that do not keep its rules.
pub fn calculate_incorrectly_ordered_updates(input: &str) -> (sum: Result<u64, InputError>)
    ensures
        sum == mended_answer(input@),
{
    let manual = match SafetyManual::from_text(input) {
        Some(manual) => manual,
        None => {
            return Err(InputError::Malformed);
        },
    };
    manual.calculate_incorrectly_update_sums()
}

} // verus!
