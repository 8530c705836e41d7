//! Reading puzzle text: characters, lines, and decimal numbers.

use vstd::prelude::*;

verus! {

/// Why a puzzle text has no answer.
#[derive(Clone, Copy, Debug, PartialEq, Eq)]
pub enum InputError {
    /// The text is not written as the puzzle asks.
    Malformed,
    /// A number of the text, or the answer, is too large for the integers
    /// that the answer is counted in.
    TooLarge,
}

/// The rows that a vector of vectors holds.
pub open spec fn rows_of<T>(lines: Vec<Vec<T>>) -> Seq<Seq<T>> {
    Seq::new(lines@.len(), |r: int| lines@[r]@)
}

/// A line without the carriage return that ends it, if one does.
pub open spec fn without_return(line: Seq<char>) -> Seq<char> {
    if line.len() > 0 && line.last() == '\r' {
        line.drop_last()
    } else {
        line
    }
}

/// The lines of `text` from the character at `at` on, when the characters
/// in `line` have already been read on the current line.
///
/// A line ends at a line feed; a carriage return just before the line feed
/// belongs to the line ending too. What follows the last line feed is a line
/// of its own unless it is empty.
pub open spec fn lines_from(text: Seq<char>, at: int, line: Seq<char>) -> Seq<Seq<char>>
    decreases text.len() - at,
{
    if at < 0 || at >= text.len() {
        if line.len() == 0 {
            Seq::empty()
        } else {
            seq![line]
        }
    } else if text[at] == '\n' {
        seq![without_return(line)] + lines_from(text, at + 1, Seq::empty())
    } else {
        lines_from(text, at + 1, line.push(text[at]))
    }
}

/// The lines of `text`.
pub open spec fn lines_of(text: Seq<char>) -> Seq<Seq<char>> {
    lines_from(text, 0, Seq::empty())
}

/// The characters of `text`, in order.
pub fn chars_of(text: &str) -> (chars: Vec<char>)
    ensures
        chars@ == text@,
{
    let mut chars: Vec<char> = Vec::new();
    for c in it: text.chars()
        invariant
            it.seq() == text@,
            chars@ == text@.take(it.index() as int),
    {
        chars.push(c);
    }
    chars
}

/// Splits `text` into its lines.
pub fn split_lines(text: &Vec<char>) -> (lines: Vec<Vec<char>>)
    ensures
        rows_of(lines) == lines_of(text@),
{
    let mut lines: Vec<Vec<char>> = Vec::new();
    let mut line: Vec<char> = Vec::new();
    let mut at: usize = 0;
    assert(rows_of(lines) + lines_from(text@, 0, line@) =~= lines_of(text@));
    while at < text.len()
        invariant
            at <= text.len(),
            rows_of(lines) + lines_from(text@, at as int, line@) == lines_of(text@),
        decreases text.len() - at,
    {
        let c = text[at];
        let ghost done = rows_of(lines);
        if c == '\n' {
            if line.len() > 0 && line[line.len() - 1] == '\r' {
                line.pop();
            }
            let ghost ended = line@;
            lines.push(line);
            line = Vec::new();
            assert(rows_of(lines) =~= done.push(ended));
            assert(done.push(ended) + lines_from(text@, at + 1, Seq::empty()) =~= done + (
            seq![ended] + lines_from(text@, at + 1, Seq::empty())));
        } else {
            line.push(c);
        }
        at += 1;
    }
    if line.len() > 0 {
        let ghost done = rows_of(lines);
        let ghost ended = line@;
        lines.push(line);
        assert(rows_of(lines) =~= done.push(ended));
        assert(done.push(ended) =~= done + seq![ended]);
    } else {
        assert(rows_of(lines) + Seq::<Seq<char>>::empty() =~= rows_of(lines));
    }
    lines
}

/// Whether `c` is white space: a character with the Unicode property
/// `White_Space`.
pub open spec fn is_space(c: char) -> bool {
    let code = c as u32;
    ||| 0x09 <= code <= 0x0d
    ||| code == 0x20
    ||| code == 0x85
    ||| code == 0xa0
    ||| code == 0x1680
    ||| 0x2000 <= code <= 0x200a
    ||| code == 0x2028
    ||| code == 0x2029
    ||| code == 0x202f
    ||| code == 0x205f
    ||| code == 0x3000
}

/// Whether `c` is white space.
pub fn is_whitespace(c: char) -> (space: bool)
    ensures
        space == is_space(c),
{
    let code = c as u32;
    (0x09 <= code && code <= 0x0d) || code == 0x20 || code == 0x85 || code == 0xa0 || code
        == 0x1680 || (0x2000 <= code && code <= 0x200a) || code == 0x2028 || code == 0x2029
        || code == 0x202f || code == 0x205f || code == 0x3000
}

/// The words of `line` from the character at `at` on, when the characters
/// in `word` have already been read of the current word. Words are what
/// stands between white space; none is empty.
pub open spec fn words_from(line: Seq<char>, at: int, word: Seq<char>) -> Seq<Seq<char>>
    decreases line.len() - at,
{
    if at < 0 || at >= line.len() {
        if word.len() == 0 {
            Seq::empty()
        } else {
            seq![word]
        }
    } else if is_space(line[at]) {
        if word.len() == 0 {
            words_from(line, at + 1, Seq::empty())
        } else {
            seq![word] + words_from(line, at + 1, Seq::empty())
        }
    } else {
        words_from(line, at + 1, word.push(line[at]))
    }
}

/// The words of `line`.
pub open spec fn words_of(line: Seq<char>) -> Seq<Seq<char>> {
    words_from(line, 0, Seq::empty())
}

/// Splits `line` into its words.
pub fn split_words(line: &Vec<char>) -> (words: Vec<Vec<char>>)
    ensures
        rows_of(words) == words_of(line@),
{
    let mut words: Vec<Vec<char>> = Vec::new();
    let mut word: Vec<char> = Vec::new();
    let mut at: usize = 0;
    assert(rows_of(words) + words_from(line@, 0, word@) =~= words_of(line@));
    while at < line.len()
        invariant
            at <= line.len(),
            rows_of(words) + words_from(line@, at as int, word@) == words_of(line@),
        decreases line.len() - at,
    {
        let c = line[at];
        let ghost done = rows_of(words);
        if is_whitespace(c) {
            if word.len() > 0 {
                let ghost ended = word@;
                words.push(word);
                word = Vec::new();
                assert(rows_of(words) =~= done.push(ended));
                assert(done.push(ended) + words_from(line@, at + 1, Seq::empty()) =~= done + (
                seq![ended] + words_from(line@, at + 1, Seq::empty())));
            } else {
                assert(word@ =~= Seq::<char>::empty());
            }
        } else {
            word.push(c);
        }
        at += 1;
    }
    if word.len() > 0 {
        let ghost done = rows_of(words);
        let ghost ended = word@;
        words.push(word);
        assert(rows_of(words) =~= done.push(ended));
        assert(done.push(ended) =~= done + seq![ended]);
    } else {
        assert(rows_of(words) + Seq::<Seq<char>>::empty() =~= rows_of(words));
    }
    words
}

/// Whether `c` is one of the ten decimal digits.
pub open spec fn is_digit(c: char) -> bool {
    '0' <= c <= '9'
}

/// The value of a decimal digit.
pub open spec fn digit_value(c: char) -> nat {
    (c as u32 - '0' as u32) as nat
}

/// Every character of `digits` is a decimal digit.
pub open spec fn all_digits(digits: Seq<char>) -> bool {
    forall|k: int| 0 <= k < digits.len() ==> is_digit(#[trigger] digits[k])
}

/// The number that decimal digits write.
pub open spec fn decimal(digits: Seq<char>) -> nat
    decreases digits.len(),
{
    if digits.len() == 0 {
        0
    } else {
        decimal(digits.drop_last()) * 10 + digit_value(digits.last())
    }
}

/// The number that `digits` writes, where they are digits and at least one.
pub open spec fn number_of(digits: Seq<char>) -> Option<nat> {
    if digits.len() > 0 && all_digits(digits) {
        Some(decimal(digits))
    } else {
        None
    }
}

/// The value of `word` read as an unsigned decimal number: digits, after an
/// optional `+`, that write a number within range.
pub open spec fn u64_of(word: Seq<char>) -> Option<u64> {
    let digits = if word.len() > 0 && word[0] == '+' {
        word.drop_first()
    } else {
        word
    };
    match number_of(digits) {
        Some(value) => if value <= u64::MAX {
            Some(value as u64)
        } else {
            None
        },
        None => None,
    }
}

/// The value of `word` read as a signed decimal number: digits, after an
/// optional `+` or `-`, that write a number within range.
pub open spec fn i64_of(word: Seq<char>) -> Option<i64> {
    if word.len() > 0 && word[0] == '-' {
        match number_of(word.drop_first()) {
            Some(value) => if value <= -(i64::MIN as int) {
                Some((-(value as int)) as i64)
            } else {
                None
            },
            None => None,
        }
    } else {
        match u64_of(word) {
            Some(value) => if value <= i64::MAX {
                Some(value as i64)
            } else {
                None
            },
            None => None,
        }
    }
}

/// More digits write no smaller a number.
pub proof fn lemma_decimal_grows(digits: Seq<char>, k: int)
    requires
        0 <= k <= digits.len(),
    ensures
        decimal(digits.take(k)) <= decimal(digits),
    decreases digits.len() - k,
{
    if k < digits.len() {
        lemma_decimal_grows(digits.drop_last(), k);
        assert(digits.drop_last().take(k) =~= digits.take(k));
    } else {
        assert(digits.take(k) =~= digits);
    }
}

/// Reads the characters of `word` from `from` on as decimal digits.
pub fn read_digits(word: &Vec<char>, from: usize) -> (value: Option<u64>)
    requires
        from <= word.len(),
    ensures
        value == match number_of(word@.skip(from as int)) {
            Some(number) => if number <= u64::MAX {
                Some(number as u64)
            } else {
                None
            },
            None => None,
        },
{
    let ghost digits = word@.skip(from as int);
    if from == word.len() {
        return None;
    }
    let mut total: u64 = 0;
    let mut at: usize = from;
    assert(digits.take(0) =~= Seq::<char>::empty());
    while at < word.len()
        invariant
            from <= at <= word.len(),
            digits == word@.skip(from as int),
            all_digits(digits.take(at - from)),
            total == decimal(digits.take(at - from)),
        decreases word.len() - at,
    {
        let c = word[at];
        assert(digits[at - from] == c);
        if c < '0' || c > '9' {
            return None;
        }
        let digit = (c as u32 - '0' as u32) as u64;
        let ghost longer = digits.take(at - from + 1);
        assert(longer.drop_last() =~= digits.take(at - from));
        assert(longer.last() == c);
        let next = match total.checked_mul(10) {
            Some(tens) => tens.checked_add(digit),
            None => None,
        };
        match next {
            Some(more) => {
                total = more;
            },
            None => {
                proof {
                    lemma_decimal_grows(digits, at - from + 1);
                }
                return None;
            },
        }
        at += 1;
    }
    assert(digits.take(at - from) =~= digits);
    Some(total)
}

/// Reads `word` as an unsigned decimal number.
pub fn parse_u64(word: &Vec<char>) -> (value: Option<u64>)
    ensures
        value == u64_of(word@),
{
    if word.len() > 0 && word[0] == '+' {
        assert(word@.skip(1) =~= word@.drop_first());
        read_digits(word, 1)
    } else {
        assert(word@.skip(0) =~= word@);
        read_digits(word, 0)
    }
}

/// Reads `word` as a signed decimal number.
pub fn parse_i64(word: &Vec<char>) -> (value: Option<i64>)
    ensures
        value == i64_of(word@),
{
    if word.len() > 0 && word[0] == '-' {
        assert(word@.skip(1) =~= word@.drop_first());
        match read_digits(word, 1) {
            Some(size) => {
                if size <= 0x7fff_ffff_ffff_ffff {
                    Some(-(size as i64))
                } else if size == 0x8000_0000_0000_0000 {
                    Some(i64::MIN)
                } else {
                    None
                }
            },
            None => None,
        }
    } else {
        match parse_u64(word) {
            Some(size) => {
                if size <= 0x7fff_ffff_ffff_ffff {
                    Some(size as i64)
                } else {
                    None
                }
            },
            None => None,
        }
    }
}

/// What `read` makes of each of the `items`, where it can read them all.
pub open spec fn all_of<A, B>(items: Seq<A>, read: spec_fn(A) -> Option<B>) -> Option<Seq<B>>
    decreases items.len(),
{
    if items.len() == 0 {
        Some(Seq::empty())
    } else {
        match (all_of(items.drop_last(), read), read(items.last())) {
            (Some(before), Some(last)) => Some(before.push(last)),
            _ => None,
        }
    }
}

/// One item that cannot be read spoils the whole reading.
pub proof fn lemma_one_fails_all<A, B>(items: Seq<A>, read: spec_fn(A) -> Option<B>, k: int)
    requires
        0 <= k < items.len(),
        read(items[k]) is None,
    ensures
        all_of(items, read) is None,
    decreases items.len(),
{
    if k < items.len() - 1 {
        lemma_one_fails_all(items.drop_last(), read, k);
    }
}

/// The signed numbers that the words of `line` write, where all of them do.
pub open spec fn i64s_of(line: Seq<char>) -> Option<Seq<i64>> {
    all_of(words_of(line), |word: Seq<char>| i64_of(word))
}

/// The unsigned numbers that the words of `line` write, where all of them do.
pub open spec fn u64s_of(line: Seq<char>) -> Option<Seq<u64>> {
    all_of(words_of(line), |word: Seq<char>| u64_of(word))
}

/// Reads each of the `words` as a signed decimal number.
pub fn parse_each_i64(words: &Vec<Vec<char>>) -> (numbers: Option<Vec<i64>>)
    ensures
        match numbers {
            Some(read) => all_of(rows_of(*words), |word: Seq<char>| i64_of(word)) == Some(read@),
            None => all_of(rows_of(*words), |word: Seq<char>| i64_of(word)) is None,
        },
{
    let ghost read = |word: Seq<char>| i64_of(word);
    let mut numbers: Vec<i64> = Vec::new();
    let mut k: usize = 0;
    assert(rows_of(*words).take(0) =~= Seq::<Seq<char>>::empty());
    while k < words.len()
        invariant
            k <= words.len(),
            read == (|word: Seq<char>| i64_of(word)),
            all_of(rows_of(*words).take(k as int), read) == Some(numbers@),
        decreases words.len() - k,
    {
        let ghost longer = rows_of(*words).take(k + 1);
        assert(longer.drop_last() =~= rows_of(*words).take(k as int));
        assert(longer.last() == words@[k as int]@);
        match parse_i64(&words[k]) {
            Some(number) => {
                numbers.push(number);
            },
            None => {
                proof {
                    lemma_one_fails_all(rows_of(*words), read, k as int);
                }
                return None;
            },
        }
        k += 1;
    }
    assert(rows_of(*words).take(k as int) =~= rows_of(*words));
    Some(numbers)
}

/// Reads each of the `words` as an unsigned decimal number.
pub fn parse_each_u64(words: &Vec<Vec<char>>) -> (numbers: Option<Vec<u64>>)
    ensures
        match numbers {
            Some(read) => all_of(rows_of(*words), |word: Seq<char>| u64_of(word)) == Some(read@),
            None => all_of(rows_of(*words), |word: Seq<char>| u64_of(word)) is None,
        },
{
    let ghost read = |word: Seq<char>| u64_of(word);
    let mut numbers: Vec<u64> = Vec::new();
    let mut k: usize = 0;
    assert(rows_of(*words).take(0) =~= Seq::<Seq<char>>::empty());
    while k < words.len()
        invariant
            k <= words.len(),
            read == (|word: Seq<char>| u64_of(word)),
            all_of(rows_of(*words).take(k as int), read) == Some(numbers@),
        decreases words.len() - k,
    {
        let ghost longer = rows_of(*words).take(k + 1);
        assert(longer.drop_last() =~= rows_of(*words).take(k as int));
        assert(longer.last() == words@[k as int]@);
        match parse_u64(&words[k]) {
            Some(number) => {
                numbers.push(number);
            },
            None => {
                proof {
                    lemma_one_fails_all(rows_of(*words), read, k as int);
                }
                return None;
            },
        }
        k += 1;
    }
    assert(rows_of(*words).take(k as int) =~= rows_of(*words));
    Some(numbers)
}

/// Reads the words of `line` as signed decimal numbers.
pub fn parse_i64s(line: &Vec<char>) -> (numbers: Option<Vec<i64>>)
    ensures
        match numbers {
            Some(read) => i64s_of(line@) == Some(read@),
            None => i64s_of(line@) is None,
        },
{
    let words = split_words(line);
    parse_each_i64(&words)
}

/// Reads the words of `line` as unsigned decimal numbers.
pub fn parse_u64s(line: &Vec<char>) -> (numbers: Option<Vec<u64>>)
    ensures
        match numbers {
            Some(read) => u64s_of(line@) == Some(read@),
            None => u64s_of(line@) is None,
        },
{
    let words = split_words(line);
    parse_each_u64(&words)
}

/// The characters of `pattern` stand in `line` from index `k` on.
pub open spec fn matches_at(line: Seq<char>, pattern: Seq<char>, k: int) -> bool {
    &&& 0 <= k
    &&& k + pattern.len() <= line.len()
    &&& line.subrange(k, k + pattern.len()) == pattern
}

/// The first index from `from` on at which `pattern` stands in `line`, or
/// `-1` where it stands nowhere.
pub open spec fn first_match(line: Seq<char>, pattern: Seq<char>, from: int) -> int
    decreases line.len() - from + 1,
{
    if from < 0 || from + pattern.len() > line.len() {
        -1
    } else if matches_at(line, pattern, from) {
        from
    } else {
        first_match(line, pattern, from + 1)
    }
}

/// What stands before and after the first `pattern` in `line`, where the
/// pattern stands in the line.
pub open spec fn cut_at(line: Seq<char>, pattern: Seq<char>) -> Option<(Seq<char>, Seq<char>)> {
    let at = first_match(line, pattern, 0);
    if at < 0 {
        None
    } else {
        Some((line.take(at), line.skip(at + pattern.len())))
    }
}

/// A copy of the characters of `line` from `from` up to `to`.
pub fn copy_range(line: &Vec<char>, from: usize, to: usize) -> (part: Vec<char>)
    requires
        from <= to <= line.len(),
    ensures
        part@ == line@.subrange(from as int, to as int),
{
    let mut part: Vec<char> = Vec::new();
    let mut k: usize = from;
    assert(part@ =~= line@.subrange(from as int, k as int));
    while k < to
        invariant
            from <= k <= to <= line.len(),
            part@ == line@.subrange(from as int, k as int),
        decreases to - k,
    {
        part.push(line[k]);
        assert(part@ =~= line@.subrange(from as int, k + 1));
        k += 1;
    }
    part
}

/// Whether `pattern` stands in `line` from index `at` on.
pub fn stands_at(line: &Vec<char>, pattern: &Vec<char>, at: usize) -> (found: bool)
    ensures
        found == matches_at(line@, pattern@, at as int),
{
    if pattern.len() > line.len() || at > line.len() - pattern.len() {
        return false;
    }
    let mut k: usize = 0;
    while k < pattern.len()
        invariant
            k <= pattern.len(),
            at + pattern.len() <= line.len(),
            forall|t: int| 0 <= t < k ==> line@[at + t] == pattern@[t],
        decreases pattern.len() - k,
    {
        if line[at + k] != pattern[k] {
            assert(line@.subrange(at as int, at + pattern.len())[k as int] != pattern@[k as int]);
            return false;
        }
        k += 1;
    }
    assert(line@.subrange(at as int, at + pattern.len()) =~= pattern@);
    true
}

/// Cuts `line` at the first `pattern` in it.
pub fn split_once(line: &Vec<char>, pattern: &Vec<char>) -> (parts: Option<(Vec<char>, Vec<char>)>)
    ensures
        match parts {
            Some(cut) => cut_at(line@, pattern@) == Some((cut.0@, cut.1@)),
            None => cut_at(line@, pattern@) is None,
        },
{
    if pattern.len() > line.len() {
        return None;
    }
    let last = line.len() - pattern.len();
    let mut at: usize = 0;
    loop
        invariant
            at <= last,
            last == line.len() - pattern.len(),
            first_match(line@, pattern@, 0) == first_match(line@, pattern@, at as int),
        decreases last - at,
    {
        if stands_at(line, pattern, at) {
            let before = copy_range(line, 0, at);
            let after = copy_range(line, at + pattern.len(), line.len());
            assert(before@ =~= line@.take(at as int));
            assert(after@ =~= line@.skip(at + pattern.len()));
            return Some((before, after));
        }
        if at == last {
            assert(first_match(line@, pattern@, at + 1) == -1);
            return None;
        }
        at += 1;
    }
}

/// The pieces of `line` between the separators `by`, from the character at
/// `at` on, when the characters in `piece` have already been read of the
/// current piece. A line without separators is one piece, and pieces may be
/// empty.
pub open spec fn pieces_from(line: Seq<char>, by: char, at: int, piece: Seq<char>) -> Seq<
    Seq<char>,
>
    decreases line.len() - at,
{
    if at < 0 || at >= line.len() {
        seq![piece]
    } else if line[at] == by {
        seq![piece] + pieces_from(line, by, at + 1, Seq::empty())
    } else {
        pieces_from(line, by, at + 1, piece.push(line[at]))
    }
}

/// The pieces of `line` between the separators `by`.
pub open spec fn pieces_of(line: Seq<char>, by: char) -> Seq<Seq<char>> {
    pieces_from(line, by, 0, Seq::empty())
}

/// Splits `line` at every separator `by`.
pub fn split_at_each(line: &Vec<char>, by: char) -> (pieces: Vec<Vec<char>>)
    ensures
        rows_of(pieces) == pieces_of(line@, by),
{
    let mut pieces: Vec<Vec<char>> = Vec::new();
    let mut piece: Vec<char> = Vec::new();
    let mut at: usize = 0;
    assert(rows_of(pieces) + pieces_from(line@, by, 0, piece@) =~= pieces_of(line@, by));
    while at < line.len()
        invariant
            at <= line.len(),
            rows_of(pieces) + pieces_from(line@, by, at as int, piece@) == pieces_of(line@, by),
        decreases line.len() - at,
    {
        let c = line[at];
        let ghost done = rows_of(pieces);
        if c == by {
            let ghost ended = piece@;
            pieces.push(piece);
            piece = Vec::new();
            assert(rows_of(pieces) =~= done.push(ended));
            assert(done.push(ended) + pieces_from(line@, by, at + 1, Seq::empty()) =~= done + (
            seq![ended] + pieces_from(line@, by, at + 1, Seq::empty())));
        } else {
            piece.push(c);
        }
        at += 1;
    }
    let ghost done = rows_of(pieces);
    let ghost ended = piece@;
    pieces.push(piece);
    assert(rows_of(pieces) =~= done.push(ended));
    assert(done.push(ended) =~= done + seq![ended]);
    pieces
}

/// A line cut at separators has at least one piece.
pub proof fn lemma_pieces_exist(line: Seq<char>, by: char, at: int, piece: Seq<char>)
    requires
        0 <= at,
    ensures
        pieces_from(line, by, at, piece).len() > 0,
    decreases line.len() - at,
{
    if at < line.len() && line[at] != by {
        lemma_pieces_exist(line, by, at + 1, piece.push(line[at]));
    }
}

/// Reading all items gives as many values as there are items.
pub proof fn lemma_all_of_length<A, B>(items: Seq<A>, read: spec_fn(A) -> Option<B>)
    ensures
        all_of(items, read) matches Some(values) ==> values.len() == items.len(),
    decreases items.len(),
{
    if items.len() > 0 {
        lemma_all_of_length(items.drop_last(), read);
    }
}

/// The index of the first character from `from` on that is no white
/// space, or the length of the text where there is none.
pub open spec fn first_mark(text: Seq<char>, from: int) -> int
    decreases text.len() - from,
{
    if from < 0 || from >= text.len() {
        text.len() as int
    } else if !is_space(text[from]) {
        from
    } else {
        first_mark(text, from + 1)
    }
}

/// The index behind the last character among the first `n` that is no
/// white space, or `0` where there is none.
pub open spec fn last_mark(text: Seq<char>, n: int) -> int
    decreases n,
{
    if n <= 0 || n > text.len() {
        0
    } else if !is_space(text[n - 1]) {
        n
    } else {
        last_mark(text, n - 1)
    }
}

/// The text without the white space before its first and behind its last
/// character that is none.
pub open spec fn trimmed(text: Seq<char>) -> Seq<char> {
    let from = first_mark(text, 0);
    let to = last_mark(text, text.len() as int);
    if from >= to {
        Seq::empty()
    } else {
        text.subrange(from, to)
    }
}

/// A copy of `text` without the white space at its two ends.
pub fn trim(text: &Vec<char>) -> (kept: Vec<char>)
    ensures
        kept@ == trimmed(text@),
{
    let mut from: usize = 0;
    while from < text.len() && is_whitespace(text[from])
        invariant
            from <= text.len(),
            first_mark(text@, 0) == first_mark(text@, from as int),
        decreases text.len() - from,
    {
        from += 1;
    }
    let mut to: usize = text.len();
    while to > 0 && is_whitespace(text[to - 1])
        invariant
            to <= text.len(),
            last_mark(text@, text@.len() as int) == last_mark(text@, to as int),
        decreases to,
    {
        to -= 1;
    }
    if from >= to {
        let kept: Vec<char> = Vec::new();
        assert(kept@ =~= trimmed(text@));
        kept
    } else {
        copy_range(text, from, to)
    }
}

/// The decimal digit for a value below ten.
pub open spec fn digit_for(value: nat) -> char {
    (value + '0' as u32) as char
}

/// The decimal digits that write `number`, without leading zeros.
pub open spec fn digits_of(number: nat) -> Seq<char>
    decreases number,
{
    if number < 10 {
        seq![digit_for(number)]
    } else {
        digits_of(number / 10).push(digit_for(number % 10))
    }
}

/// The digits that write a number are digits, and they write that number.
pub proof fn lemma_digits_write(number: nat)
    ensures
        all_digits(digits_of(number)),
        digits_of(number).len() > 0,
        decimal(digits_of(number)) == number,
    decreases number,
{
    if number < 10 {
        let only = digits_of(number);
        assert(only.drop_last() =~= Seq::<char>::empty());
        assert(decimal(only.drop_last()) == 0);
        assert(digit_value(digit_for(number)) == number);
    } else {
        lemma_digits_write(number / 10);
        let all = digits_of(number);
        assert(all.drop_last() =~= digits_of(number / 10));
        assert(digit_value(digit_for(number % 10)) == number % 10);
        assert forall|k: int| 0 <= k < all.len() implies is_digit(#[trigger] all[k]) by {
            if k < all.len() - 1 {
                assert(all[k] == digits_of(number / 10)[k]);
            }
        }
    }
}

/// Writes `number` in decimal digits.
pub fn write_digits(number: u64) -> (digits: Vec<char>)
    ensures
        digits@ == digits_of(number as nat),
    decreases number,
{
    if number < 10 {
        let digits = vec![((number as u32) + ('0' as u32)) as u8 as char];
        assert(digits@ =~= digits_of(number as nat));
        digits
    } else {
        let mut digits = write_digits(number / 10);
        digits.push(((number % 10) as u32 + ('0' as u32)) as u8 as char);
        digits
    }
}

/// Makes a string of the characters with the standard library's
/// `String::from_iter`: the string holds the same characters in the same
/// order.
#[verifier::external_body]
pub(crate) fn string_of(chars: &Vec<char>) -> (text: String)
    ensures
        text@ == chars@,
{
    String::from_iter(chars.iter())
}

} // verus!
