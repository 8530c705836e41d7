//! A disk of blocks, written as a row of digits: by turns the length of a
//! file and the length of the free space after it. The disk is compacted,
//! block by block or file by file, and its checksum taken.

use vstd::prelude::*;
use crate::text::{
    chars_of, digit_value, digits_of, is_digit, string_of, write_digits, InputError,
};

verus! {

/// `count` blocks that all hold `block`.
pub open spec fn repeated(block: Option<u64>, count: nat) -> Seq<Option<u64>> {
    Seq::new(count, |k: int| block)
}

/// What the digit at index `k` of a disk map writes: for even `k` the
/// blocks of the file numbered `k / 2`, for odd `k` free blocks.
pub open spec fn span_of(digits: Seq<char>, k: int) -> Seq<Option<u64>> {
    repeated(
        if k % 2 == 0 {
            Some((k / 2) as u64)
        } else {
            None
        },
        digit_value(digits[k]),
    )
}

/// The blocks that the first `n` digits of a disk map write.
pub open spec fn blocks_of(digits: Seq<char>, n: int) -> Seq<Option<u64>>
    decreases n,
{
    if n <= 0 {
        Seq::empty()
    } else {
        blocks_of(digits, n - 1) + span_of(digits, n - 1)
    }
}

/// Every character of the disk map is a digit.
pub open spec fn all_digits(digits: Seq<char>) -> bool {
    forall|k: int| 0 <= k < digits.len() ==> is_digit(#[trigger] digits[k])
}

/// How many of the first `n` blocks are free.
pub open spec fn gaps(data: Seq<Option<u64>>, n: int) -> int
    decreases n,
{
    if n <= 0 {
        0
    } else {
        gaps(data, n - 1) + if data[n - 1] is None {
            1int
        } else {
            0int
        }
    }
}

/// How many of the blocks from index `from` on hold a file.
pub open spec fn files_from(data: Seq<Option<u64>>, from: int) -> int
    decreases data.len() - from,
{
    if from >= data.len() {
        0
    } else {
        files_from(data, from + 1) + if from >= 0 && data[from] is Some {
            1int
        } else {
            0int
        }
    }
}

/// The block of a file that has `k` blocks of files after it on the disk:
/// the last such block for `k == 0`, the one before it for `k == 1`, and so on.
pub open spec fn file_from_end(data: Seq<Option<u64>>, k: int) -> Option<u64>
    decreases data.len(),
{
    if data.len() == 0 {
        None
    } else if data.last() is Some {
        if k <= 0 {
            data.last()
        } else {
            file_from_end(data.drop_last(), k - 1)
        }
    } else {
        file_from_end(data.drop_last(), k)
    }
}

/// The disk with its file blocks moved, one at a time and the last one
/// first, into the free blocks from the left: a block among the first, as
/// many as there are file blocks, keeps what it holds or, where it was
/// free, takes the file block that has as many file blocks after it as the
/// free block has free blocks before it; all blocks behind are free.
pub open spec fn compacted(data: Seq<Option<u64>>) -> Seq<Option<u64>> {
    Seq::new(
        data.len(),
        |i: int|
            if i < files_from(data, 0) {
                if data[i] is Some {
                    data[i]
                } else {
                    file_from_end(data, gaps(data, i))
                }
            } else {
                None
            },
    )
}

/// The sum, over the first `n` blocks, of the index of a block times the
/// number of the file in it.
pub open spec fn checksum(data: Seq<Option<u64>>, n: int) -> nat
    decreases n,
{
    if n <= 0 {
        0
    } else {
        checksum(data, n - 1) + match data[n - 1] {
            Some(fid) => ((n - 1) * fid) as nat,
            None => 0,
        }
    }
}

/// A checksum over more blocks is no smaller.
pub proof fn lemma_checksum_grows(data: Seq<Option<u64>>, m: int, n: int)
    requires
        0 <= m <= n,
    ensures
        checksum(data, m) <= checksum(data, n),
    decreases n - m,
{
    if m < n {
        lemma_checksum_grows(data, m, n - 1);
    }
}

/// The blocks before the first free one all hold files.
pub proof fn lemma_no_gaps_before(data: Seq<Option<u64>>, n: int)
    requires
        0 <= n <= data.len(),
        forall|t: int| 0 <= t < n ==> data[t] is Some,
    ensures
        gaps(data, n) == 0,
    decreases n,
{
    if n > 0 {
        lemma_no_gaps_before(data, n - 1);
    }
}

/// Behind the last block of a file there are no file blocks.
pub proof fn lemma_no_files_behind(data: Seq<Option<u64>>, from: int)
    requires
        0 <= from,
        forall|t: int| from <= t < data.len() ==> data[t] is None,
    ensures
        files_from(data, from) == 0,
    decreases data.len() - from,
{
    if from < data.len() {
        lemma_no_files_behind(data, from + 1);
    }
}

/// The file blocks from `from` on are those from `to` on and those between.
pub proof fn lemma_files_split(data: Seq<Option<u64>>, from: int, to: int)
    requires
        0 <= from <= to <= data.len(),
    ensures
        files_from(data, from) == files_from(data, to) + (to - from) - (gaps(data, to) - gaps(
            data,
            from,
        )),
    decreases to - from,
{
    if from < to {
        lemma_files_split(data, from, to - 1);
        lemma_files_step(data, to - 1);
    }
}

/// Of the blocks from `from` up to `to`, some are free: no fewer than none,
/// no more than all.
pub proof fn lemma_gaps_bounded(data: Seq<Option<u64>>, from: int, to: int)
    requires
        from <= to,
    ensures
        0 <= gaps(data, to) - gaps(data, from) <= to - from || to <= 0,
        gaps(data, from) <= gaps(data, to),
    decreases to - from,
{
    if from < to {
        lemma_gaps_bounded(data, from, to - 1);
    }
}

/// From further back on there are no more file blocks.
pub proof fn lemma_files_monotone(data: Seq<Option<u64>>, from: int, to: int)
    requires
        from <= to,
    ensures
        files_from(data, from) >= files_from(data, to),
    decreases to - from,
{
    lemma_files_nonnegative(data, to);
    if from < to {
        lemma_files_monotone(data, from + 1, to);
    }
}

/// One block more from the front: a file block counts.
pub proof fn lemma_files_step(data: Seq<Option<u64>>, at: int)
    requires
        0 <= at < data.len(),
    ensures
        files_from(data, at) == files_from(data, at + 1) + if data[at] is Some {
            1int
        } else {
            0int
        },
{
}

/// The file block at `j` is the one that has as many file blocks after it
/// as there are from `j + 1` on.
pub proof fn lemma_file_from_end(data: Seq<Option<u64>>, j: int)
    requires
        0 <= j < data.len(),
        data[j] is Some,
    ensures
        file_from_end(data, files_from(data, j + 1)) == data[j],
    decreases data.len(),
{
    let shorter = data.drop_last();
    if j == data.len() - 1 {
        assert(files_from(data, j + 1) == 0);
    } else {
        lemma_file_from_end(shorter, j);
        lemma_files_drop_last(data, j + 1);
        lemma_files_nonnegative(shorter, j + 1);
    }
}

/// Counts of file blocks are not negative.
pub proof fn lemma_files_nonnegative(data: Seq<Option<u64>>, from: int)
    ensures
        files_from(data, from) >= 0,
    decreases data.len() - from,
{
    if from < data.len() {
        lemma_files_nonnegative(data, from + 1);
    }
}

/// Without its last block the disk has one file block less from `from` on
/// where the last block holds a file, and as many where it is free.
pub proof fn lemma_files_drop_last(data: Seq<Option<u64>>, from: int)
    requires
        0 <= from < data.len(),
    ensures
        files_from(data, from) == files_from(data.drop_last(), from) + if data.last() is Some {
            1int
        } else {
            0int
        },
    decreases data.len() - from,
{
    if from < data.len() - 1 {
        lemma_files_drop_last(data, from + 1);
        assert(data.drop_last()[from] == data[from]);
    } else {
        assert(files_from(data, from + 1) == 0);
        assert(files_from(data.drop_last(), from) == 0);
    }
}

/// The picture of one block: the number of its file, or a dot where it is free.
pub open spec fn drawn_block(block: Option<u64>) -> Seq<char> {
    match block {
        Some(fid) => digits_of(fid as nat),
        None => seq!['.'],
    }
}

/// The picture of the first `n` blocks of a disk, block after block.
pub open spec fn drawn(data: Seq<Option<u64>>, n: int) -> Seq<char>
    decreases n,
{
    if n <= 0 {
        Seq::empty()
    } else {
        drawn(data, n - 1) + drawn_block(data[n - 1])
    }
}

/// `piece` written `count` times over.
pub open spec fn repeated_text(piece: Seq<char>, count: nat) -> Seq<char>
    decreases count,
{
    if count == 0 {
        Seq::empty()
    } else {
        repeated_text(piece, (count - 1) as nat) + piece
    }
}

/// Adds the characters of `piece` to `text`.
fn append_text(text: &mut Vec<char>, piece: &Vec<char>)
    ensures
        final(text)@ == old(text)@ + piece@,
{
    let mut k: usize = 0;
    assert(text@ =~= old(text)@ + piece@.take(0));
    while k < piece.len()
        invariant
            k <= piece.len(),
            text@ == old(text)@ + piece@.take(k as int),
        decreases piece.len() - k,
    {
        text.push(piece[k]);
        assert(text@ =~= old(text)@ + piece@.take(k + 1));
        k += 1;
    }
    assert(piece@.take(k as int) =~= piece@);
}

/// What a disk holds: for each block the number of the file in it, or
/// `None` for a free block.
pub struct FileSystem {
    pub data: Vec<Option<u64>>,
}

impl FileSystem {
    pub fn new(data: Vec<Option<u64>>) -> (disk: Self)
        ensures
            disk.data == data,
    {
        Self { data }
    }

    /// The disk that the digits of `s` write, or `None` where a character
    /// of `s` is no digit.
    pub fn from_text(s: &str) -> (disk: Option<Self>)
        ensures
            match disk {
                Some(read) => all_digits(s@) && read.data@ == blocks_of(s@, s@.len() as int),
                None => !all_digits(s@),
            },
    {
        let chars = chars_of(s);
        let mut data: Vec<Option<u64>> = Vec::new();
        let mut i: usize = 0;
        while i < chars.len()
            invariant
                i <= chars.len(),
                chars@ == s@,
                forall|k: int| 0 <= k < i ==> is_digit(#[trigger] chars@[k]),
                data@ == blocks_of(chars@, i as int),
            decreases chars.len() - i,
        {
            let c = chars[i];
            if c < '0' || c > '9' {
                return None;
            }
            let size = (c as u32 - '0' as u32) as usize;
            let block = if i % 2 == 0 {
                Some((i / 2) as u64)
            } else {
                None
            };
            let ghost before = data@;
            let mut k: usize = 0;
            while k < size
                invariant
                    k <= size,
                    data@ == before + repeated(block, k as nat),
                decreases size - k,
            {
                data.push(block);
                assert(data@ =~= before + repeated(block, (k + 1) as nat));
                k += 1;
            }
            i += 1;
        }
        Some(Self { data })
    }

    /// Moves the file blocks, the last one first, into the free blocks from
    /// the left, until no free block is left between file blocks.
    pub fn compress_data(&mut self)
        requires
            exists|t: int| 0 <= t < old(self).data@.len() && old(self).data@[t] is None,
            exists|t: int| 0 <= t < old(self).data@.len() && old(self).data@[t] is Some,
        ensures
            final(self).data@ == compacted(old(self).data@),
    {
        let ghost start = self.data@;
        let mut i: usize = 0;
        while i < self.data.len() && self.data[i].is_some()
            invariant
                i <= self.data.len(),
                self.data@ == start,
                forall|t: int| 0 <= t < i ==> start[t] is Some,
            decreases self.data.len() - i,
        {
            i += 1;
        }
        let mut j: usize = self.data.len() - 1;
        while j > 0 && self.data[j].is_none()
            invariant
                j < self.data.len(),
                self.data@ == start,
                forall|t: int| j < t < start.len() ==> start[t] is None,
            decreases j,
        {
            j -= 1;
        }
        proof {
            lemma_no_gaps_before(start, i as int);
            lemma_no_files_behind(start, j + 1);
            lemma_files_split(start, 0, i as int);
            lemma_files_nonnegative(start, i as int);
        }
        while i < j
            invariant
                i <= j + 1,
                j < self.data.len(),
                self.data@.len() == start.len(),
                forall|t: int| 0 <= t < i ==> self.data@[t] == compacted(start)[t],
                forall|t: int| j < t < start.len() ==> (#[trigger] self.data@[t]) is None,
                forall|t: int| i <= t <= j ==> self.data@[t] == #[trigger] start[t],
                gaps(start, i as int) == files_from(start, j + 1),
                i <= files_from(start, 0),
            decreases j + 1 - i,
        {
            proof {
                lemma_files_step(start, j as int);
                lemma_files_step(start, i as int);
                lemma_files_split(start, 0, i as int);
                lemma_files_monotone(start, i + 1, j + 1);
                lemma_files_monotone(start, i as int, j as int);
                lemma_files_nonnegative(start, j + 1);
                assert(start[i as int] == self.data@[i as int]);
                assert(start[j as int] == self.data@[j as int]);
            }
            if self.data[j].is_none() {
                j -= 1;
            } else if self.data[i].is_some() {
                i += 1;
            } else {
                proof {
                    lemma_file_from_end(start, j as int);
                }
                let moved = self.data[j];
                self.data.set(i, moved);
                self.data.set(j, None);
                i += 1;
                j -= 1;
            }
        }
        proof {
            lemma_files_split(start, 0, i as int);
            lemma_files_nonnegative(start, j + 1);
            if i == j {
                lemma_files_step(start, j as int);
                assert(start[i as int] == self.data@[i as int]);
            }
            assert(self.data@ =~= compacted(start));
        }
    }

    /// The picture of the disk: for each block the number of its file, or a
    /// dot where it is free.
    pub fn render(&self) -> (text: String)
        ensures
            text@ == drawn(self.data@, self.data@.len() as int),
    {
        let mut picture: Vec<char> = Vec::new();
        let dot = vec!['.'];
        assert(dot@ =~= seq!['.']);
        let mut k: usize = 0;
        while k < self.data.len()
            invariant
                k <= self.data.len(),
                dot@ == seq!['.'],
                picture@ == drawn(self.data@, k as int),
            decreases self.data.len() - k,
        {
            match self.data[k] {
                Some(fid) => {
                    let digits = write_digits(fid);
                    append_text(&mut picture, &digits);
                },
                None => {
                    append_text(&mut picture, &dot);
                },
            }
            k += 1;
        }
        string_of(&picture)
    }

    /// The sum, over all blocks, of the index of a block times the number of
    /// the file in it, or `None` where that sum does not fit.
    pub fn calculate_checksum(&self) -> (sum: Option<u64>)
        ensures
            match sum {
                Some(total) => total == checksum(self.data@, self.data@.len() as int),
                None => checksum(self.data@, self.data@.len() as int) > u64::MAX,
            },
    {
        let mut total: u64 = 0;
        let mut i: usize = 0;
        while i < self.data.len()
            invariant
                i <= self.data.len(),
                total == checksum(self.data@, i as int),
            decreases self.data.len() - i,
        {
            let next = match self.data[i] {
                Some(fid) => match (i as u64).checked_mul(fid) {
                    Some(product) => total.checked_add(product),
                    None => None,
                },
                None => Some(total),
            };
            match next {
                Some(more) => {
                    total = more;
                },
                None => {
                    proof {
                        lemma_checksum_grows(self.data@, i + 1, self.data@.len() as int);
                    }
                    return None;
                },
            }
            i += 1;
        }
        Some(total)
    }
}

/// A span of the disk: the blocks of one file, with the number of the file
/// and the count of the blocks, or a count of free blocks.
#[derive(Clone, Copy, Debug, PartialEq, Eq)]
pub enum Data {
    File(u64, u64),
    Empty(u64),
}

impl Data {
    /// The count of blocks of the span.
    pub open spec fn size(self) -> u64 {
        match self {
            Data::File(_, size) => size,
            Data::Empty(size) => size,
        }
    }

    pub fn get_size(&self) -> (size: u64)
        ensures
            size == self.size(),
    {
        match self {
            Data::File(_, size) => *size,
            Data::Empty(size) => *size,
        }
    }

    pub fn is_empty(&self) -> (free: bool)
        ensures
            free == (*self is Empty),
    {
        match self {
            Data::Empty(_) => true,
            Data::File(_, _) => false,
        }
    }

    pub fn is_file(&self) -> (file: bool)
        ensures
            file == (*self is File),
    {
        match self {
            Data::File(_, _) => true,
            Data::Empty(_) => false,
        }
    }

    /// The number of the file of the span.
    pub fn fid(&self) -> (fid: u64)
        requires
            *self is File,
        ensures
            fid == self->File_0,
    {
        match self {
            Data::File(i, _) => *i,
            Data::Empty(_) => 0,
        }
    }

    /// The number of the file of the span, or `default` for a free span.
    pub fn fid_or(&self, default: u64) -> (fid: u64)
        ensures
            fid == match *self {
                Data::File(i, _) => i,
                Data::Empty(_) => default,
            },
    {
        match self {
            Data::File(i, _) => *i,
            Data::Empty(_) => default,
        }
    }
}

/// The span at index `k` is free and has room for `size` blocks.
pub open spec fn fits(data: Seq<Data>, k: int, size: u64) -> bool {
    data[k] is Empty && data[k].size() >= size
}

/// The first index from `from` up to `to` of a free span with room for
/// `size` blocks, or `-1` where there is none.
pub open spec fn first_fit(data: Seq<Data>, from: int, to: int, size: u64) -> int
    decreases to - from,
{
    if from >= to {
        -1
    } else if fits(data, from, size) {
        from
    } else {
        first_fit(data, from + 1, to, size)
    }
}

/// The index of the last file among the first `n` spans, or `-1`.
pub open spec fn last_file(data: Seq<Data>, n: int) -> int
    decreases n,
{
    if n <= 0 {
        -1
    } else if data[n - 1] is File {
        n - 1
    } else {
        last_file(data, n - 1)
    }
}

/// The spans after the file at `j` has been put into the larger free span
/// at `r`: the file stands at `r`, what is left of the free span follows
/// it, and where the file stood its blocks are free.
pub open spec fn placed(data: Seq<Data>, r: int, j: int) -> Seq<Data> {
    data.update(j, Data::Empty(data[j].size())).update(r, data[j]).insert(
        r + 1,
        Data::Empty((data[r].size() - data[j].size()) as u64),
    )
}

/// The spans after the spans at `r` and `j` have changed places.
pub open spec fn swapped(data: Seq<Data>, r: int, j: int) -> Seq<Data> {
    data.update(r, data[j]).update(j, data[r])
}

/// Where a sweep over the disk stands: the spans, the index `i` from which
/// free spans are looked for, and the index `j` of the span to move next.
pub struct Sweep {
    pub data: Seq<Data>,
    pub i: int,
    pub j: int,
}

impl Sweep {
    /// The sweep is over: the two indexes have met.
    pub open spec fn settled(self) -> bool {
        self.i >= self.j
    }

    /// One move of the sweep. A free span at `j` is passed over, and so is
    /// a file at `i`. Else the file at `j` goes into the first free span
    /// from `i` on and before `j` that has room for it: into its front
    /// where the span is larger, in its place where it is as large; a file
    /// for which there is no room stays and is passed over.
    pub open spec fn step(self) -> Sweep {
        if self.settled() {
            self
        } else if self.data[self.j] is Empty {
            Sweep { data: self.data, i: self.i, j: self.j - 1 }
        } else if self.data[self.i] is File {
            Sweep { data: self.data, i: self.i + 1, j: self.j }
        } else {
            let size = self.data[self.j].size();
            let r = first_fit(self.data, self.i, self.j, size);
            if r < 0 {
                Sweep { data: self.data, i: self.i, j: self.j - 1 }
            } else if size < self.data[r].size() {
                Sweep { data: placed(self.data, r, self.j), i: self.i, j: self.j }
            } else {
                Sweep { data: swapped(self.data, r, self.j), i: self.i, j: self.j - 1 }
            }
        }
    }

    /// The sweep after `n` moves.
    pub open spec fn after(self, n: nat) -> Sweep
        decreases n,
    {
        if n == 0 {
            self
        } else {
            self.after((n - 1) as nat).step()
        }
    }
}

/// The sweep over the spans as it starts: free spans are looked for from
/// the first free span on, and the last file is the first to move.
pub open spec fn sweep_of(data: Seq<Data>) -> Sweep {
    Sweep {
        data,
        i: first_fit(data, 0, data.len() as int, 0),
        j: last_file(data, data.len() as int),
    }
}

/// `spans` is what the sweep over `data` ends with.
pub open spec fn swept(data: Seq<Data>, spans: Seq<Data>) -> bool {
    exists|n: nat| #[trigger] sweep_of(data).after(n).settled() && sweep_of(data).after(n).data == spans
}

/// A sweep that is over stays as it is.
pub proof fn lemma_settled_stays(sweep: Sweep, m: nat, n: nat)
    requires
        m <= n,
        sweep.after(m).settled(),
    ensures
        sweep.after(n) == sweep.after(m),
    decreases n,
{
    if m < n {
        lemma_settled_stays(sweep, m, (n - 1) as nat);
    }
}

/// A sweep ends with one row of spans only.
pub proof fn lemma_swept_is_unique(data: Seq<Data>, first: Seq<Data>, second: Seq<Data>)
    requires
        swept(data, first),
        swept(data, second),
    ensures
        first == second,
{
    let m = choose|m: nat| #[trigger]
        sweep_of(data).after(m).settled() && sweep_of(data).after(m).data == first;
    let n = choose|n: nat| #[trigger]
        sweep_of(data).after(n).settled() && sweep_of(data).after(n).data == second;
    if m <= n {
        lemma_settled_stays(sweep_of(data), m, n);
    } else {
        lemma_settled_stays(sweep_of(data), n, m);
    }
}

/// The sum, over the files among the spans from `lo` up to `hi`, of how far
/// each stands behind `base`.
pub open spec fn weight(data: Seq<Data>, base: int, lo: int, hi: int) -> int
    decreases hi - lo,
{
    if lo >= hi {
        0
    } else {
        weight(data, base, lo, hi - 1) + if data[hi - 1] is File {
            hi - 1 - base
        } else {
            0
        }
    }
}

/// What is left to do of a sweep: it grows smaller with every move.
pub open spec fn toil(data: Seq<Data>, i: int, j: int) -> int {
    weight(data, i, i, j + 1) + (j - i)
}

/// A stretch of one span weighs what its file stands behind the base.
pub proof fn lemma_weight_one(data: Seq<Data>, base: int, at: int)
    ensures
        weight(data, base, at, at + 1) == if data[at] is File {
            at - base
        } else {
            0
        },
{
    assert(weight(data, base, at, at) == 0);
}

/// The weight of a stretch is the weight of its two parts.
pub proof fn lemma_weight_split(data: Seq<Data>, base: int, lo: int, mid: int, hi: int)
    requires
        lo <= mid <= hi,
    ensures
        weight(data, base, lo, hi) == weight(data, base, lo, mid) + weight(data, base, mid, hi),
    decreases hi - mid,
{
    if mid < hi {
        lemma_weight_split(data, base, lo, mid, hi - 1);
    }
}

/// Two rows that agree on a stretch weigh the same there.
pub proof fn lemma_weight_same(data: Seq<Data>, other: Seq<Data>, base: int, lo: int, hi: int)
    requires
        forall|t: int| lo <= t < hi ==> data[t] == other[t],
    ensures
        weight(data, base, lo, hi) == weight(other, base, lo, hi),
    decreases hi - lo,
{
    if lo < hi {
        lemma_weight_same(data, other, base, lo, hi - 1);
    }
}

/// A stretch moved one span back weighs more by no more than its length.
pub proof fn lemma_weight_shift(data: Seq<Data>, other: Seq<Data>, base: int, lo: int, hi: int)
    requires
        lo <= hi,
        forall|t: int| lo <= t < hi ==> other[t + 1] == data[t],
    ensures
        weight(other, base, lo + 1, hi + 1) <= weight(data, base, lo, hi) + (hi - lo),
    decreases hi - lo,
{
    if lo < hi {
        lemma_weight_shift(data, other, base, lo, hi - 1);
    }
}

/// Seen from one span further on, a stretch weighs no more.
pub proof fn lemma_weight_rebase(data: Seq<Data>, base: int, lo: int, hi: int)
    requires
        base < lo,
    ensures
        0 <= weight(data, base + 1, lo, hi) <= weight(data, base, lo, hi),
    decreases hi - lo,
{
    if lo < hi {
        lemma_weight_rebase(data, base, lo, hi - 1);
    }
}

/// A stretch behind the base has no negative weight.
pub proof fn lemma_weight_nonnegative(data: Seq<Data>, base: int, lo: int, hi: int)
    requires
        base <= lo,
    ensures
        0 <= weight(data, base, lo, hi),
    decreases hi - lo,
{
    if lo < hi {
        lemma_weight_nonnegative(data, base, lo, hi - 1);
    }
}

/// The span that the digit at index `k` of a disk map writes: for even `k`
/// the file numbered `k / 2`, for odd `k` free blocks.
pub open spec fn span_at(digits: Seq<char>, k: int) -> Data {
    if k % 2 == 0 {
        Data::File((k / 2) as u64, digit_value(digits[k]) as u64)
    } else {
        Data::Empty(digit_value(digits[k]) as u64)
    }
}

/// The spans that the digits of a disk map write.
pub open spec fn spans_of(digits: Seq<char>) -> Seq<Data> {
    Seq::new(digits.len(), |k: int| span_at(digits, k))
}

/// The sum of the indexes of `size` blocks of which the first has the index
/// `ind`.
pub open spec fn range_sum(ind: nat, size: nat) -> nat {
    (size * ind + (size * (size - 1)) / 2) as nat
}

/// Where the taking of a checksum stands: the sum so far and the index of
/// the next block.
pub struct Tally {
    pub total: nat,
    pub ind: nat,
}

/// The tally after the first `n` spans: each file adds the sum of the
/// indexes of its blocks, times its number. `None` where an index, such a
/// sum, such a product or the total does not fit.
pub open spec fn tally(data: Seq<Data>, n: int) -> Option<Tally>
    decreases n,
{
    if n <= 0 {
        Some(Tally { total: 0, ind: 0 })
    } else {
        match tally(data, n - 1) {
            None => None,
            Some(before) => {
                let size = data[n - 1].size() as nat;
                let fid = match data[n - 1] {
                    Data::File(fid, _) => fid as nat,
                    Data::Empty(_) => 0nat,
                };
                let span = range_sum(before.ind, size);
                if before.ind + size > u64::MAX || span > u64::MAX || span * fid > u64::MAX
                    || before.total + span * fid > u64::MAX {
                    None
                } else {
                    Some(Tally { total: before.total + span * fid, ind: before.ind + size })
                }
            },
        }
    }
}

/// A tally that is lost stays lost.
pub proof fn lemma_tally_lost(data: Seq<Data>, m: int, n: int)
    requires
        m <= n,
        tally(data, m) is None,
    ensures
        tally(data, n) is None,
    decreases n - m,
{
    if m < n {
        lemma_tally_lost(data, m, n - 1);
    }
}

/// The picture of one span: the number of its file, or a dot for a free
/// span, once for each of its blocks.
pub open spec fn drawn_span(span: Data) -> Seq<char> {
    match span {
        Data::File(fid, size) => repeated_text(digits_of(fid as nat), size as nat),
        Data::Empty(size) => repeated_text(seq!['.'], size as nat),
    }
}

/// The picture of the first `n` spans of a disk, span after span.
pub open spec fn drawn_spans(data: Seq<Data>, n: int) -> Seq<char>
    decreases n,
{
    if n <= 0 {
        Seq::empty()
    } else {
        drawn_spans(data, n - 1) + drawn_span(data[n - 1])
    }
}

/// What a disk holds, span by span.
pub struct FileSystemImproved {
    pub data: Vec<Data>,
}

impl FileSystemImproved {
    pub fn new(data: Vec<Data>) -> (disk: Self)
        ensures
            disk.data == data,
    {
        Self { data }
    }

    /// The disk that the digits of `s` write, or `None` where a character
    /// of `s` is no digit.
    pub fn from_text(s: &str) -> (disk: Option<Self>)
        ensures
            match disk {
                Some(read) => all_digits(s@) && read.data@ == spans_of(s@),
                None => !all_digits(s@),
            },
    {
        let chars = chars_of(s);
        let mut data: Vec<Data> = Vec::new();
        let mut i: usize = 0;
        while i < chars.len()
            invariant
                i <= chars.len(),
                chars@ == s@,
                forall|k: int| 0 <= k < i ==> is_digit(#[trigger] chars@[k]),
                data@ == spans_of(chars@).take(i as int),
            decreases chars.len() - i,
        {
            let c = chars[i];
            if c < '0' || c > '9' {
                return None;
            }
            let size = (c as u32 - '0' as u32) as u64;
            if i % 2 == 0 {
                data.push(Data::File((i / 2) as u64, size));
            } else {
                data.push(Data::Empty(size));
            }
            assert(data@ =~= spans_of(chars@).take(i + 1));
            i += 1;
        }
        assert(data@ =~= spans_of(chars@));
        Some(Self { data })
    }

    /// Moves the files, the last one first, each into the first free span
    /// to its left that has room for it.
    pub fn compress_data(&mut self)
        requires
            exists|t: int| 0 <= t < old(self).data@.len() && old(self).data@[t] is Empty,
            exists|t: int| 0 <= t < old(self).data@.len() && old(self).data@[t] is File,
        ensures
            swept(old(self).data@, final(self).data@),
    {
        let ghost start = self.data@;
        let mut i: usize = 0;
        while i < self.data.len() && !self.data[i].is_empty()
            invariant
                i <= self.data.len(),
                self.data@ == start,
                forall|t: int| 0 <= t < i ==> start[t] is File,
                first_fit(start, 0, start.len() as int, 0) == first_fit(
                    start,
                    i as int,
                    start.len() as int,
                    0,
                ),
            decreases self.data.len() - i,
        {
            i += 1;
        }
        let mut j: usize = self.data.len() - 1;
        while j > 0 && !self.data[j].is_file()
            invariant
                j < self.data.len(),
                self.data@ == start,
                forall|t: int| j < t < start.len() ==> start[t] is Empty,
                last_file(start, start.len() as int) == last_file(start, j + 1),
            decreases j,
        {
            j -= 1;
        }
        let ghost mut moves: nat = 0;
        while i < j
            invariant
                j < self.data.len(),
                sweep_of(start).after(moves) == (Sweep {
                    data: self.data@,
                    i: i as int,
                    j: j as int,
                }),
            decreases toil(self.data@, i as int, j as int),
        {
            let ghost before = self.data@;
            proof {
                lemma_weight_split(before, i as int, i as int, j as int, j + 1);
                lemma_weight_split(before, i as int, i as int, i + 1, j + 1);
                lemma_weight_nonnegative(before, i as int, i as int, j as int);
                lemma_weight_rebase(before, i as int, i + 1, j + 1);
                lemma_weight_one(before, i as int, i as int);
                lemma_weight_one(before, i as int, j as int);
            }
            if self.data[j].is_empty() {
                j -= 1;
            } else if self.data[i].is_file() {
                i += 1;
            } else {
                let file_size = self.data[j].get_size();
                let mut k: usize = i;
                let mut found: Option<usize> = None;
                while k < j && found.is_none()
                    invariant
                        i <= k <= j,
                        j < self.data.len(),
                        self.data@ == before,
                        found is None ==> first_fit(before, i as int, j as int, file_size)
                            == first_fit(before, k as int, j as int, file_size),
                        found matches Some(r) ==> i <= r < j && first_fit(
                            before,
                            i as int,
                            j as int,
                            file_size,
                        ) == r && fits(before, r as int, file_size),
                    decreases j - k + if found is None { 1int } else { 0int },
                {
                    if self.data[k].is_empty() && self.data[k].get_size() >= file_size {
                        found = Some(k);
                    } else {
                        k += 1;
                    }
                }
                match found {
                    Some(replace_ind) => {
                        let empty_size = self.data[replace_ind].get_size();
                        if file_size < empty_size {
                            let temp = self.data[j];
                            self.data.set(j, Data::Empty(file_size));
                            self.data.set(replace_ind, Data::File(temp.fid(), file_size));
                            self.data.insert(
                                replace_ind + 1,
                                Data::Empty(empty_size - file_size),
                            );
                            proof {
                                let r = replace_ind as int;
                                let after = self.data@;
                                assert(after =~= placed(before, r, j as int));
                                lemma_weight_split(before, i as int, i as int, r, j as int);
                                lemma_weight_split(before, i as int, r, r + 1, j as int);
                                lemma_weight_split(after, i as int, i as int, r, j + 1);
                                lemma_weight_split(after, i as int, r, r + 2, j + 1);
                                lemma_weight_split(after, i as int, r, r + 1, r + 2);
                                lemma_weight_same(before, after, i as int, i as int, r);
                                lemma_weight_shift(before, after, i as int, r + 1, j as int);
                                lemma_weight_one(before, i as int, r);
                                lemma_weight_one(after, i as int, r);
                                lemma_weight_one(after, i as int, r + 1);
                            }
                        } else {
                            let moved = self.data[j];
                            let free = self.data[replace_ind];
                            self.data.set(replace_ind, moved);
                            self.data.set(j, free);
                            proof {
                                let r = replace_ind as int;
                                let after = self.data@;
                                assert(after =~= swapped(before, r, j as int));
                                lemma_weight_split(before, i as int, i as int, r, j as int);
                                lemma_weight_split(before, i as int, r, r + 1, j as int);
                                lemma_weight_split(after, i as int, i as int, r, j as int);
                                lemma_weight_split(after, i as int, r, r + 1, j as int);
                                lemma_weight_same(before, after, i as int, i as int, r);
                                lemma_weight_same(before, after, i as int, r + 1, j as int);
                                lemma_weight_one(before, i as int, r);
                                lemma_weight_one(after, i as int, r);
                            }
                            j -= 1;
                        }
                    },
                    None => {
                        j -= 1;
                    },
                }
            }
            proof {
                moves = moves + 1;
                lemma_weight_nonnegative(self.data@, i as int, i as int, j + 1);
            }
        }
        assert(sweep_of(start).after(moves).settled());
    }

    /// The picture of the disk: for each span the number of its file, or a
    /// dot for a free span, once for each of its blocks.
    pub fn render(&self) -> (text: String)
        ensures
            text@ == drawn_spans(self.data@, self.data@.len() as int),
    {
        let mut picture: Vec<char> = Vec::new();
        let dot = vec!['.'];
        assert(dot@ =~= seq!['.']);
        let mut k: usize = 0;
        while k < self.data.len()
            invariant
                k <= self.data.len(),
                dot@ == seq!['.'],
                picture@ == drawn_spans(self.data@, k as int),
            decreases self.data.len() - k,
        {
            let span = self.data[k];
            let piece = match span {
                Data::File(fid, _) => write_digits(fid),
                Data::Empty(_) => dot.clone(),
            };
            let size = span.get_size();
            let ghost before = picture@;
            let mut t: u64 = 0;
            assert(picture@ =~= before + repeated_text(piece@, 0));
            while t < size
                invariant
                    t <= size,
                    picture@ == before + repeated_text(piece@, t as nat),
                decreases size - t,
            {
                append_text(&mut picture, &piece);
                assert(picture@ =~= before + repeated_text(piece@, (t + 1) as nat));
                t += 1;
            }
            k += 1;
        }
        string_of(&picture)
    }

    /// The checksum of the disk: for each file the sum of the indexes of
    /// its blocks, times the number of the file, all added up; `None` where
    /// something on the way does not fit.
    pub fn calculate_checksum(&self) -> (sum: Option<u64>)
        ensures
            match sum {
                Some(total) => tally(self.data@, self.data@.len() as int) matches Some(end)
                    && end.total == total,
                None => tally(self.data@, self.data@.len() as int) is None,
            },
    {
        let mut total: u64 = 0;
        let mut ind: u64 = 0;
        let mut k: usize = 0;
        while k < self.data.len()
            invariant
                k <= self.data.len(),
                tally(self.data@, k as int) == Some(Tally { total: total as nat, ind: ind as nat }),
            decreases self.data.len() - k,
        {
            let size = self.data[k].get_size();
            let fid = self.data[k].fid_or(0);
            let next = match (Self::sum_of_range(ind, size), ind.checked_add(size)) {
                (Some(span), Some(end)) => match span.checked_mul(fid) {
                    Some(product) => match total.checked_add(product) {
                        Some(more) => Some((more, end)),
                        None => None,
                    },
                    None => None,
                },
                _ => None,
            };
            match next {
                Some((more, end)) => {
                    total = more;
                    ind = end;
                },
                None => {
                    proof {
                        lemma_tally_lost(self.data@, k + 1, self.data@.len() as int);
                    }
                    return None;
                },
            }
            k += 1;
        }
        Some(total)
    }

    /// The sum of the indexes of `size` blocks from the index `ind` on, or
    /// `None` where it does not fit.
    fn sum_of_range(ind: u64, size: u64) -> (sum: Option<u64>)
        ensures
            match sum {
                Some(total) => total == range_sum(ind as nat, size as nat),
                None => range_sum(ind as nat, size as nat) > u64::MAX,
            },
    {
        if size == 0 {
            return Some(0);
        }
        assert((size as u128) * (ind as u128) <= 0xffff_ffff_ffff_ffff * 0xffff_ffff_ffff_ffff
            && (size as u128) * ((size - 1) as u128) <= 0xffff_ffff_ffff_ffff
            * 0xffff_ffff_ffff_ffff) by (nonlinear_arith)
            requires
                0 < size <= 0xffff_ffff_ffff_ffff,
                0 <= ind <= 0xffff_ffff_ffff_ffff,
        ;
        let first = (size as u128) * (ind as u128);
        let pairs = ((size as u128) * ((size - 1) as u128)) / 2;
        if first > u64::MAX as u128 || pairs > u64::MAX as u128 {
            return None;
        }
        let sum = first + pairs;
        if sum > u64::MAX as u128 {
            None
        } else {
            Some(sum as u64)
        }
    }
}

/// The disk has a free block and a block of a file.
pub open spec fn mixed(data: Seq<Option<u64>>) -> bool {
    &&& exists|t: int| 0 <= t < data.len() && data[t] is None
    &&& exists|t: int| 0 <= t < data.len() && data[t] is Some
}

/// The disk has a free span and a file.
pub open spec fn mixed_spans(data: Seq<Data>) -> bool {
    &&& exists|t: int| 0 <= t < data.len() && data[t] is Empty
    &&& exists|t: int| 0 <= t < data.len() && data[t] is File
}

/// What `compress_filesystem` owes for a text: the checksum of the disk
/// compacted block by block; `Malformed` where the text is not all digits or
/// the disk lacks a free block or a file, `TooLarge` where the checksum
/// does not fit.
pub open spec fn checksum_of(text: Seq<char>) -> Result<u64, InputError> {
    let data = blocks_of(text, text.len() as int);
    if !all_digits(text) || !mixed(data) {
        Err(InputError::Malformed)
    } else if checksum(compacted(data), data.len() as int) > u64::MAX {
        Err(InputError::TooLarge)
    } else {
        Ok(checksum(compacted(data), data.len() as int) as u64)
    }
}

/// Whether `answer` is what `compress_filesystem_improved` owes for a text:
/// the checksum of the disk after the sweep that moves whole files;
/// `Malformed` where the text is not all digits or the disk lacks a free
/// span or a file, `TooLarge` where the checksum does not fit.
pub open spec fn is_swept_checksum(text: Seq<char>, answer: Result<u64, InputError>) -> bool {
    if !all_digits(text) || !mixed_spans(spans_of(text)) {
        answer == Err::<u64, InputError>(InputError::Malformed)
    } else {
        exists|spans: Seq<Data>| #[trigger]
            swept(spans_of(text), spans) && match tally(spans, spans.len() as int) {
                Some(end) => answer == Ok::<u64, InputError>(end.total as u64),
                None => answer == Err::<u64, InputError>(InputError::TooLarge),
            }
    }
}

/// Whether the disk has a free block and a block of a file.
fn is_mixed(data: &Vec<Option<u64>>) -> (both: bool)
    ensures
        both == mixed(data@),
{
    let mut free = false;
    let mut file = false;
    let mut k: usize = 0;
    while k < data.len()
        invariant
            k <= data.len(),
            free == exists|t: int| 0 <= t < k && data@[t] is None,
            file == exists|t: int| 0 <= t < k && data@[t] is Some,
        decreases data.len() - k,
    {
        if data[k].is_none() {
            free = true;
        } else {
            file = true;
        }
        k += 1;
    }
    free && file
}

/// Whether the disk has a free span and a file.
fn is_mixed_spans(data: &Vec<Data>) -> (both: bool)
    ensures
        both == mixed_spans(data@),
{
    let mut free = false;
    let mut file = false;
    let mut k: usize = 0;
    while k < data.len()
        invariant
            k <= data.len(),
            free == exists|t: int| 0 <= t < k && data@[t] is Empty,
            file == exists|t: int| 0 <= t < k && data@[t] is File,
        decreases data.len() - k,
    {
        if data[k].is_empty() {
            free = true;
        } else {
            file = true;
        }
        k += 1;
    }
    free && file
}

/// The checksum of the disk that `input` writes, after its file blocks
/// have been moved one by one into the free blocks from the left.
pub fn compress_filesystem(input: &str) -> (sum: Result<u64, InputError>)
    ensures
        sum == checksum_of(input@),
{
    let mut filesystem = match FileSystem::from_text(input) {
        Some(filesystem) => filesystem,
        None => {
            return Err(InputError::Malformed);
        },
    };
    if !is_mixed(&filesystem.data) {
        return Err(InputError::Malformed);
    }
    filesystem.compress_data();
    match filesystem.calculate_checksum() {
        Some(sum) => Ok(sum),
        None => Err(InputError::TooLarge),
    }
}

/// The checksum of the disk that `input` writes, after its files have been
/// moved whole, the last one first, each into the first free span to its
/// left that has room for it.
pub fn compress_filesystem_improved(input: &str) -> (sum: Result<u64, InputError>)
    ensures
        is_swept_checksum(input@, sum),
{
    let mut filesystem = match FileSystemImproved::from_text(input) {
        Some(filesystem) => filesystem,
        None => {
            return Err(InputError::Malformed);
        },
    };
    if !is_mixed_spans(&filesystem.data) {
        return Err(InputError::Malformed);
    }
    filesystem.compress_data();
    assert(swept(spans_of(input@), filesystem.data@));
    match filesystem.calculate_checksum() {
        Some(sum) => Ok(sum),
        None => Err(InputError::TooLarge),
    }
}

} // verus!
