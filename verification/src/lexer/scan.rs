//! Taking the longest piece of a text that has one of several shapes.

use super::shape::Shape;
use crate::text;
use vstd::prelude::*;

verus! {

/// The row with the longest piece that starts at `i`, and the end of that piece. Nothing where
/// no shape fits a character there.
pub open spec fn longest<K>(rows: Seq<(Shape, K)>, text: Seq<char>, i: int) -> Option<
    ((Shape, K), int),
>
    decreases rows.len(),
{
    if rows.len() == 0 {
        None
    } else {
        let higher = longest(rows.drop_last(), text, i);
        match rows.last().0.end(text, i) {
            Some(end) => if end > least_end(higher, i) {
                Some((rows.last(), end))
            } else {
                higher
            },
            None => higher,
        }
    }
}

/// The end that a piece has to go beyond.
pub open spec fn least_end<K>(found: Option<((Shape, K), int)>, i: int) -> int {
    match found {
        Some((_, end)) => end,
        None => i,
    }
}

/// No shape fits a longer piece than the one that is taken, and none that is higher up fits
/// one of the same length.
pub proof fn lemma_longest<K>(rows: Seq<(Shape, K)>, text: Seq<char>, i: int)
    ensures
        forall|k: int|
            0 <= k < rows.len() ==> ((#[trigger] rows[k]).0.end(text, i) matches Some(end) ==> end
                <= least_end(longest(rows, text, i), i)),
        longest(rows, text, i) matches Some((row, end)) ==> end > i && exists|k: int|
            #![trigger rows[k]]
            0 <= k < rows.len() && rows[k] == row && row.0.end(text, i) == Some(end) && forall|
                j: int,
            |
                0 <= j < k ==> (#[trigger] rows[j]).0.end(text, i) != Some(end),
    decreases rows.len(),
{
    if rows.len() > 0 {
        let front = rows.drop_last();
        lemma_longest(front, text, i);
        assert(forall|k: int| 0 <= k < front.len() ==> #[trigger] rows[k] == front[k]);
        if let Some((row, end)) = longest(rows, text, i) {
            if longest(front, text, i) == Some((row, end)) {
                let k = choose|k: int|
                    #![trigger front[k]]
                    0 <= k < front.len() && front[k] == row && row.0.end(text, i) == Some(end)
                        && forall|j: int|
                        0 <= j < k ==> (#[trigger] front[j]).0.end(text, i) != Some(end);
                assert(rows[k] == row);
                assert(forall|j: int|
                    0 <= j < k ==> (#[trigger] rows[j]).0.end(text, i) != Some(end)) by {
                    assert(forall|j: int| 0 <= j < k ==> #[trigger] rows[j] == front[j]);
                }
            } else {
                assert(rows[rows.len() - 1] == row);
            }
        }
    }
}

/// The end of a block whose brackets take `len` characters: the end of the text where it is
/// not closed.
pub open spec fn past_block(text: Seq<char>, start: int, len: int, has_lines: bool) -> int {
    match super::block_end(text, start, len, has_lines) {
        Some(end) => end,
        None => text.len() as int,
    }
}

/// The level of a block whose brackets take `len` characters.
pub open spec fn level_of(text: Seq<char>, start: int, len: int, has_lines: bool) -> Result<usize, usize> {
    if super::block_end(text, start, len, has_lines) is Some {
        Ok((len - 2) as usize)
    } else {
        Err((len - 2) as usize)
    }
}

/// The byte at which a character starts.
pub open spec fn byte_of(text: Seq<char>, i: int) -> usize {
    text::utf8_len(text.take(i)) as usize
}

pub fn find_longest<K: Copy>(table: &Vec<(Shape, K)>, text: &Vec<char>, i: usize) -> (r: Option<
    ((Shape, K), usize),
>)
    requires
        i <= text@.len(),
    ensures
        match r {
            Some((row, end)) => longest(table@, text@, i as int) == Some((row, end as int)) && end
                <= text@.len(),
            None => longest(table@, text@, i as int) is None,
        },
{
    let mut found: Option<((Shape, K), usize)> = None;
    let mut least: usize = i;
    let mut k: usize = 0;
    while k < table.len()
        invariant
            k <= table@.len(),
            i <= text@.len(),
            match found {
                Some((row, end)) => longest(table@.take(k as int), text@, i as int) == Some(
                    (row, end as int),
                ) && end <= text@.len(),
                None => longest(table@.take(k as int), text@, i as int) is None,
            },
            least == least_end(longest(table@.take(k as int), text@, i as int), i as int),
        decreases table@.len() - k,
    {
        assert(table@.take(k + 1).drop_last() =~= table@.take(k as int));
        let row = table[k];
        if let Some(end) = row.0.find_end(text, i) {
            if end > least {
                found = Some((row, end));
                least = end;
            }
        }
        k += 1;
    }
    assert(table@.take(k as int) =~= table@);
    found
}

} // verus!
