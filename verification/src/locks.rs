//! Locks and keys drawn as blocks of `'#'`: the heights of their pins, and
//! which key fits which lock.

use vstd::prelude::*;
use crate::text::{blocks_of, chars_of, lines_of, split_blocks, split_lines, views};

verus! {

/// The row holds nothing but `'#'`.
pub open spec fn all_hashes(row: Seq<char>) -> bool {
    forall|i: int| 0 <= i < row.len() ==> #[trigger] row[i] == '#'
}

/// How many of the rows from `from` up to `to` hold `'#'` in the column
/// `col`.
pub open spec fn column_height(block: Seq<Seq<char>>, col: int, from: int, to: int) -> nat
    decreases to - from,
{
    if to <= from {
        0
    } else {
        column_height(block, col, from, to - 1) + if col < block[to - 1].len() && block[to - 1][col]
            == '#' {
            1nat
        } else {
            0nat
        }
    }
}

/// No row is longer than the first.
pub open spec fn within_first(block: Seq<Seq<char>>) -> bool {
    forall|y: int| 0 <= y < block.len() ==> (#[trigger] block[y]).len() <= block[0].len()
}

/// The block is a lock: its first row is all `'#'`.
pub open spec fn is_lock(block: Seq<Seq<char>>) -> bool {
    block.len() > 0 && within_first(block) && all_hashes(block[0])
}

/// The block is a key: its last row is all `'#'`.
pub open spec fn is_key(block: Seq<Seq<char>>) -> bool {
    block.len() > 0 && within_first(block) && all_hashes(block.last())
}

/// Whether a row holds nothing but `'#'`.
pub fn is_full_row(row: &Vec<char>) -> (b: bool)
    ensures
        b == all_hashes(row@),
{
    let mut i: usize = 0;
    while i < row.len()
        invariant
            i <= row.len(),
            forall|k: int| 0 <= k < i ==> #[trigger] row@[k] == '#',
        decreases row.len() - i,
    {
        if row[i] != '#' {
            return false;
        }
        i += 1;
    }
    true
}

/// Counts, column by column, the `'#'` in the rows from `from` up to `to`.
fn heights_between(block: &Vec<Vec<char>>, from: usize, to: usize) -> (r: Option<Vec<usize>>)
    requires
        from <= to <= block.len(),
        block.len() > 0,
    ensures
        match r {
            Some(h) => within_first(views(block@)) && h.len() == block[0].len() && forall|c: int|
                0 <= c < h.len() ==> #[trigger] h@[c] == column_height(
                    views(block@),
                    c,
                    from as int,
                    to as int,
                ),
            None => !within_first(views(block@)),
        },
{
    let ghost m = views(block@);
    let width = block[0].len();
    assert(m[0] == block@[0]@);
    let mut y: usize = 0;
    while y < block.len()
        invariant
            y <= block.len(),
            m == views(block@),
            width == m[0].len(),
            forall|k: int| 0 <= k < y ==> (#[trigger] m[k]).len() <= width,
        decreases block.len() - y,
    {
        assert(m[y as int] == block@[y as int]@);
        if block[y].len() > width {
            return None;
        }
        y += 1;
    }
    let mut heights: Vec<usize> = Vec::new();
    let mut c: usize = 0;
    while c < width
        invariant
            c <= width,
            heights.len() == c,
            forall|k: int| 0 <= k < c ==> #[trigger] heights@[k] == 0,
        decreases width - c,
    {
        heights.push(0);
        c += 1;
    }
    let mut row: usize = from;
    while row < to
        invariant
            from <= row <= to <= block.len(),
            m == views(block@),
            width == m[0].len(),
            within_first(m),
            heights.len() == width,
            forall|k: int|
                0 <= k < width ==> #[trigger] heights@[k] == column_height(
                    m,
                    k,
                    from as int,
                    row as int,
                ) && heights@[k] <= row - from,
        decreases to - row,
    {
        let line = &block[row];
        assert(m[row as int] == line@);
        let mut col: usize = 0;
        while col < line.len()
            invariant
                col <= line.len() <= width,
                from <= row < to,
                to <= block.len(),
                m == views(block@),
                m[row as int] == line@,
                heights.len() == width,
                forall|k: int|
                    0 <= k < col ==> #[trigger] heights@[k] == column_height(
                        m,
                        k,
                        from as int,
                        row + 1,
                    ) && heights@[k] <= row + 1 - from,
                forall|k: int|
                    col <= k < width ==> #[trigger] heights@[k] == column_height(
                        m,
                        k,
                        from as int,
                        row as int,
                    ) && heights@[k] <= row - from,
            decreases line.len() - col,
        {
            if line[col] == '#' {
                let h = heights[col];
                heights.set(col, h + 1);
            }
            col += 1;
        }
        row += 1;
    }
    Some(heights)
}

/// The heights of the pins of a lock: for every column, the number of
/// `'#'` below the first row. There are none for a block that is no lock.
pub fn lock_heights(block: &Vec<Vec<char>>) -> (r: Option<Vec<usize>>)
    ensures
        match r {
            Some(h) => is_lock(views(block@)) && h.len() == block[0].len() && forall|c: int|
                0 <= c < h.len() ==> #[trigger] h@[c] == column_height(
                    views(block@),
                    c,
                    1,
                    block.len() as int,
                ),
            None => !is_lock(views(block@)),
        },
{
    if block.len() == 0 {
        return None;
    }
    assert(views(block@)[0] == block@[0]@);
    if !is_full_row(&block[0]) {
        return None;
    }
    heights_between(block, 1, block.len())
}

/// The heights of a key: for every column, the number of `'#'` above the
/// last row. There are none for a block that is no key.
pub fn key_heights(block: &Vec<Vec<char>>) -> (r: Option<Vec<usize>>)
    ensures
        match r {
            Some(h) => is_key(views(block@)) && h.len() == block[0].len() && forall|c: int|
                0 <= c < h.len() ==> #[trigger] h@[c] == column_height(
                    views(block@),
                    c,
                    0,
                    block.len() - 1,
                ),
            None => !is_key(views(block@)),
        },
{
    if block.len() == 0 {
        return None;
    }
    let last = block.len() - 1;
    assert(views(block@).last() == block@[last as int]@);
    if !is_full_row(&block[last]) {
        return None;
    }
    heights_between(block, 0, last)
}

/// In every column that both have, lock and key together are lower than 6.
pub open spec fn fits(lock: Seq<usize>, key: Seq<usize>) -> bool {
    forall|i: int| 0 <= i < lock.len() && i < key.len() ==> #[trigger] lock[i] + key[i] < 6
}

/// Whether a key fits a lock.
pub fn lock_fits_key(lock: &Vec<usize>, key: &Vec<usize>) -> (b: bool)
    ensures
        b == fits(lock@, key@),
{
    let mut i: usize = 0;
    while i < lock.len() && i < key.len()
        invariant
            i <= lock.len(),
            i <= key.len(),
            forall|k: int| 0 <= k < i ==> #[trigger] lock@[k] + key@[k] < 6,
        decreases lock.len() - i,
    {
        if lock[i] >= 6 || key[i] >= 6 || lock[i] + key[i] >= 6 {
            assert(!(lock@[i as int] + key@[i as int] < 6));
            return false;
        }
        i += 1;
    }
    true
}

/// How many keys fit the lock.
pub open spec fn fitting_keys(lock: Seq<usize>, keys: Seq<Seq<usize>>) -> nat
    decreases keys.len(),
{
    if keys.len() == 0 {
        0
    } else {
        fitting_keys(lock, keys.drop_last()) + if fits(lock, keys.last()) {
            1nat
        } else {
            0nat
        }
    }
}

/// How many pairs of a lock and a key fit.
pub open spec fn fitting_pairs(locks: Seq<Seq<usize>>, keys: Seq<Seq<usize>>) -> nat
    decreases locks.len(),
{
    if locks.len() == 0 {
        0
    } else {
        fitting_pairs(locks.drop_last(), keys) + fitting_keys(locks.last(), keys)
    }
}

pub proof fn lemma_fitting_keys_bound(lock: Seq<usize>, keys: Seq<Seq<usize>>)
    ensures
        fitting_keys(lock, keys) <= keys.len(),
    decreases keys.len(),
{
    if keys.len() > 0 {
        lemma_fitting_keys_bound(lock, keys.drop_last());
    }
}

pub proof fn lemma_fitting_pairs_bound(locks: Seq<Seq<usize>>, keys: Seq<Seq<usize>>)
    ensures
        fitting_pairs(locks, keys) <= locks.len() * keys.len(),
    decreases locks.len(),
{
    if locks.len() > 0 {
        lemma_fitting_pairs_bound(locks.drop_last(), keys);
        lemma_fitting_keys_bound(locks.last(), keys);
        assert(locks.len() * keys.len() == (locks.len() - 1) * keys.len() + keys.len())
            by (nonlinear_arith);
    }
}

/// The locks and the keys of an input.
pub struct LocksAndKeys {
    pub locks: Vec<Vec<usize>>,
    pub keys: Vec<Vec<usize>>,
}

/// Counts the pairs of a lock and a key that fit.
pub fn count_fitting_pairs(all: &LocksAndKeys) -> (n: u128)
    ensures
        n == fitting_pairs(views(all.locks@), views(all.keys@)),
{
    let ghost locks = views(all.locks@);
    let ghost keys = views(all.keys@);
    let mut n: u128 = 0;
    let mut i: usize = 0;
    while i < all.locks.len()
        invariant
            i <= all.locks.len(),
            locks == views(all.locks@),
            keys == views(all.keys@),
            n == fitting_pairs(locks.take(i as int), keys),
        decreases all.locks.len() - i,
    {
        let lock = &all.locks[i];
        let mut row: u128 = 0;
        let mut j: usize = 0;
        while j < all.keys.len()
            invariant
                j <= all.keys.len(),
                keys == views(all.keys@),
                row == fitting_keys(lock@, keys.take(j as int)),
                row <= j,
            decreases all.keys.len() - j,
        {
            proof {
                assert(keys.take(j + 1).drop_last() =~= keys.take(j as int));
                assert(keys.take(j + 1).last() == all.keys@[j as int]@);
            }
            if lock_fits_key(lock, &all.keys[j]) {
                row += 1;
            }
            j += 1;
        }
        proof {
            assert(keys.take(all.keys.len() as int) =~= keys);
            assert(locks.take(i + 1).drop_last() =~= locks.take(i as int));
            assert(locks.take(i + 1).last() == lock@);
            lemma_fitting_pairs_bound(locks.take(i as int), keys);
            assert(i * keys.len() <= 0xffff_ffff_ffff_ffff * 0xffff_ffff_ffff_ffff) by (nonlinear_arith)
                requires
                    i <= 0xffff_ffff_ffff_ffff,
                    keys.len() <= 0xffff_ffff_ffff_ffff,
            ;
        }
        n += row;
        i += 1;
    }
    assert(locks.take(all.locks.len() as int) =~= locks);
    n
}


/// The first row of a block that holds nothing but `'#'`, among its first
/// `n` rows counted from `from`.
pub open spec fn first_full(block: Seq<Seq<char>>, from: int) -> Option<int>
    decreases block.len() - from,
{
    if from < 0 || from >= block.len() {
        None
    } else if all_hashes(block[from]) {
        Some(from)
    } else {
        first_full(block, from + 1)
    }
}

/// The heights of the columns of a block between two rows.
pub open spec fn heights_of(block: Seq<Seq<char>>, from: int, to: int) -> Seq<usize> {
    Seq::new(block[0].len(), |c: int| column_height(block, c, from, to) as usize)
}

/// What a block is: a lock if its first row is all `'#'`, else a key, which
/// must have its only row of all `'#'` at the end. With the heights of its
/// columns; nothing if the block is neither.
pub open spec fn block_kind(block: Seq<Seq<char>>) -> Option<(bool, Seq<usize>)> {
    match first_full(block, 0) {
        None => None,
        Some(row) => if row == 0 {
            if is_lock(block) {
                Some((true, heights_of(block, 1, block.len() as int)))
            } else {
                None
            }
        } else if is_key(block) {
            Some((false, heights_of(block, 0, block.len() - 1)))
        } else {
            None
        },
    }
}

/// The locks and keys of the first `n` blocks, each list in the order of
/// the blocks; nothing if a block is neither lock nor key.
pub open spec fn sorted_blocks(blocks: Seq<Seq<char>>, n: int) -> Option<(Seq<Seq<usize>>, Seq<Seq<usize>>)>
    decreases n,
{
    if n <= 0 {
        Some((Seq::empty(), Seq::empty()))
    } else {
        match (sorted_blocks(blocks, n - 1), block_kind(lines_of(blocks[n - 1]))) {
            (Some(front), Some(kind)) => if kind.0 {
                Some((front.0.push(kind.1), front.1))
            } else {
                Some((front.0, front.1.push(kind.1)))
            },
            _ => None,
        }
    }
}

pub proof fn lemma_sorted_stuck(blocks: Seq<Seq<char>>, a: int, b: int)
    requires
        a <= b,
        sorted_blocks(blocks, a) is None,
    ensures
        sorted_blocks(blocks, b) is None,
    decreases b - a,
{
    if a < b {
        lemma_sorted_stuck(blocks, a, b - 1);
    }
}

/// Where the first row of all `'#'` stands.
fn find_full_row(block: &Vec<Vec<char>>) -> (r: Option<usize>)
    ensures
        match r {
            Some(i) => first_full(views(block@), 0) == Some(i as int) && i < block.len(),
            None => first_full(views(block@), 0) is None,
        },
{
    let mut i: usize = 0;
    while i < block.len()
        invariant
            i <= block.len(),
            first_full(views(block@), 0) == first_full(views(block@), i as int),
        decreases block.len() - i,
    {
        assert(views(block@)[i as int] == block@[i as int]@);
        if is_full_row(&block[i]) {
            return Some(i);
        }
        i += 1;
    }
    None
}

/// Reads locks and keys from text, one block for each, the blocks parted
/// by empty lines.
pub fn read_input(input: &str) -> (r: Option<LocksAndKeys>)
    ensures
        match r {
            Some(all) => sorted_blocks(blocks_of(input@), blocks_of(input@).len() as int) == Some(
                (views(all.locks@), views(all.keys@)),
            ),
            None => sorted_blocks(blocks_of(input@), blocks_of(input@).len() as int) is None,
        },
{
    let text = chars_of(input);
    let blocks = split_blocks(&text);
    let ghost all = views(blocks@);
    let mut locks: Vec<Vec<usize>> = Vec::new();
    let mut keys: Vec<Vec<usize>> = Vec::new();
    let mut i: usize = 0;
    proof {
        assert(views(locks@) =~= Seq::<Seq<usize>>::empty());
        assert(views(keys@) =~= Seq::<Seq<usize>>::empty());
    }
    while i < blocks.len()
        invariant
            i <= blocks.len(),
            all == views(blocks@),
            all == blocks_of(input@),
            sorted_blocks(all, i as int) == Some((views(locks@), views(keys@))),
        decreases blocks.len() - i,
    {
        let block = split_lines(&blocks[i]);
        assert(all[i as int] == blocks@[i as int]@);
        let ghost rows = views(block@);
        let row = match find_full_row(&block) {
            Some(r) => r,
            None => {
                proof {
                    assert(sorted_blocks(all, i + 1) is None);
                    lemma_sorted_stuck(all, i + 1, blocks.len() as int);
                }
                return None;
            },
        };
        let heights = if row == 0 {
            lock_heights(&block)
        } else {
            key_heights(&block)
        };
        match heights {
            None => {
                proof {
                    assert(sorted_blocks(all, i + 1) is None);
                    lemma_sorted_stuck(all, i + 1, blocks.len() as int);
                }
                return None;
            },
            Some(h) => {
                proof {
                    let from: int = if row == 0 {
                        1
                    } else {
                        0
                    };
                    let to: int = if row == 0 {
                        block.len() as int
                    } else {
                        block.len() - 1
                    };
                    assert(rows[0] == block@[0]@);
                    assert(h@ =~= heights_of(rows, from, to));
                    if row == 0 {
                        crate::text::lemma_views_push(locks@, h);
                    } else {
                        crate::text::lemma_views_push(keys@, h);
                    }
                }
                if row == 0 {
                    locks.push(h);
                } else {
                    keys.push(h);
                }
            },
        }
        i += 1;
    }
    Some(LocksAndKeys { locks, keys })
}

} // verus!
