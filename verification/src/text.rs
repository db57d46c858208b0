//! Assembly of a character grid into text: rows from top to bottom, each from
//! left to right, with a line break between consecutive rows and none after
//! the last.

use vstd::prelude::*;

verus! {

/// The rows joined by line breaks.
pub open spec fn joined(rows: Seq<Seq<char>>) -> Seq<char>
    decreases rows.len(),
{
    if rows.len() == 0 {
        Seq::empty()
    } else if rows.len() == 1 {
        rows[0]
    } else {
        joined(rows.drop_last()) + seq!['\n'] + rows.last()
    }
}

/// What each row of a character grid holds.
pub open spec fn row_views(rows: Seq<Vec<char>>) -> Seq<Seq<char>> {
    Seq::new(rows.len(), |i: int| rows[i]@)
}

/// Whether every row is `width` characters long.
pub open spec fn rectangular(rows: Seq<Seq<char>>, width: nat) -> bool {
    forall|r: int| 0 <= r < rows.len() ==> (#[trigger] rows[r]).len() == width
}

/// `String::push` appends one character to the end of the string.
pub assume_specification[ String::push ](text: &mut String, ch: char)
    ensures
        final(text)@ == old(text)@.push(ch),
;

/// The text of a character grid: its rows from top to bottom, joined by
/// line breaks.
pub fn assemble(rows: &Vec<Vec<char>>) -> (text: String)
    ensures
        text@ == joined(row_views(rows@)),
{
    let mut text = String::new();
    let ghost grid = row_views(rows@);
    let mut r: usize = 0;
    while r < rows.len()
        invariant
            r <= rows@.len(),
            grid == row_views(rows@),
            text@ == joined(grid.take(r as int)),
        decreases rows@.len() - r,
    {
        if r > 0 {
            text.push('\n');
        }
        let ghost head = text@;
        let row = &rows[r];
        let mut c: usize = 0;
        while c < row.len()
            invariant
                c <= row@.len(),
                text@ == head + row@.take(c as int),
            decreases row@.len() - c,
        {
            text.push(row[c]);
            proof {
                assert(row@.take(c + 1) == row@.take(c as int).push(row@[c as int]));
            }
            c = c + 1;
        }
        proof {
            assert(row@.take(c as int) == row@);
            let next = grid.take(r + 1);
            assert(next.drop_last() == grid.take(r as int));
            assert(next.last() == row@);
            if r == 0 {
                assert(head == Seq::<char>::empty());
                assert(head + row@ == row@);
            } else {
                assert(head == joined(grid.take(r as int)) + seq!['\n']);
            }
        }
        r = r + 1;
    }
    proof {
        assert(grid.take(r as int) == grid);
    }
    text
}

/// A grid of `rows.len()` rows of `width` characters takes one line per row:
/// its text is `width + 1` characters for each row but the last, and `width`
/// for the last.
pub proof fn lemma_joined_len(rows: Seq<Seq<char>>, width: nat)
    requires
        rectangular(rows, width),
    ensures
        rows.len() == 0 ==> joined(rows).len() == 0,
        rows.len() > 0 ==> joined(rows).len() == rows.len() * (width + 1) - 1,
    decreases rows.len(),
{
    if rows.len() == 1 {
        assert(1 * (width + 1) == width + 1) by (nonlinear_arith);
    } else if rows.len() > 1 {
        lemma_joined_len(rows.drop_last(), width);
        let n = rows.len() as int;
        assert(n * (width + 1) == (n - 1) * (width + 1) + (width + 1)) by (nonlinear_arith);
    }
}

/// In the text of a rectangular grid, the character of row `r` and column
/// `c` stands at `r * (width + 1) + c`: rows keep their order from top to
/// bottom, and columns theirs from left to right.
pub proof fn lemma_joined_char(rows: Seq<Seq<char>>, width: nat, r: int, c: int)
    requires
        rectangular(rows, width),
        0 <= r < rows.len(),
        0 <= c < width,
    ensures
        0 <= r * (width + 1) + c < joined(rows).len(),
        joined(rows)[r * (width + 1) + c] == rows[r][c],
    decreases rows.len(),
{
    lemma_joined_len(rows, width);
    let n = rows.len() as int;
    assert(0 <= r * (width + 1) && r * (width + 1) + (width + 1) <= n * (width + 1))
        by (nonlinear_arith)
        requires
            0 <= r < n,
            0 <= width,
    ;
    if rows.len() > 1 {
        let front = rows.drop_last();
        lemma_joined_len(front, width);
        assert((n - 1) * (width + 1) + (width + 1) == n * (width + 1)) by (nonlinear_arith);
        if r < n - 1 {
            lemma_joined_char(front, width, r, c);
        } else {
            assert(joined(rows)[r * (width + 1) + c] == rows.last()[c]);
        }
    }
}

/// In the text of a rectangular grid, a line break follows every row but
/// the last.
pub proof fn lemma_joined_break(rows: Seq<Seq<char>>, width: nat, r: int)
    requires
        rectangular(rows, width),
        0 <= r < rows.len() - 1,
    ensures
        0 <= r * (width + 1) + width < joined(rows).len(),
        joined(rows)[r * (width + 1) + width] == '\n',
    decreases rows.len(),
{
    lemma_joined_len(rows, width);
    let n = rows.len() as int;
    assert(0 <= r * (width + 1) && r * (width + 1) + (width + 1) <= (n - 1) * (width + 1))
        by (nonlinear_arith)
        requires
            0 <= r < n - 1,
            0 <= width,
    ;
    assert((n - 1) * (width + 1) + (width + 1) == n * (width + 1)) by (nonlinear_arith);
    let front = rows.drop_last();
    lemma_joined_len(front, width);
    if r < n - 2 {
        lemma_joined_break(front, width, r);
    } else {
        assert((r + 1) * (width + 1) == r * (width + 1) + (width + 1)) by (nonlinear_arith);
        assert(joined(front).len() == r * (width + 1) + width);
    }
}

} // verus!
