//! Plain-text tables.
//!
//! [`lay_out`] lays rows of cells out in columns: every cell is padded
//! with spaces to the width of its column, cells are fenced by `|`, and a
//! rule of dashes separates the first row from the rest. [`format_table`]
//! strips the cells of surrounding whitespace first.

use vstd::prelude::*;
use vstd::utf8::encode_utf8;

verus! {

/// What `str::trim` returns for a string: the string without the
/// whitespace at its start and at its end.
pub uninterp spec fn trimmed(s: Seq<char>) -> Seq<char>;

/// `str::trim`: the result is the string without leading and trailing
/// whitespace, as Unicode lists whitespace. It is named [`trimmed`] and
/// not spelled out here.
#[verifier::external_body]
fn trim(s: &str) -> (r: &str)
    ensures
        r@ == trimmed(s@),
{
    s.trim()
}

/// The texts of the cells of a table.
pub open spec fn texts(rows: Seq<Vec<String>>) -> Seq<Seq<Seq<char>>> {
    Seq::new(rows.len(), |i: int| Seq::new(rows[i]@.len(), |j: int| rows[i]@[j]@))
}

/// The number of bytes that a text takes.
pub open spec fn byte_len(s: Seq<char>) -> nat {
    encode_utf8(s).len()
}

/// The texts of the cells, each stripped of surrounding whitespace.
pub open spec fn stripped(t: Seq<Seq<Seq<char>>>) -> Seq<Seq<Seq<char>>> {
    Seq::new(t.len(), |i: int| Seq::new(t[i].len(), |j: int| trimmed(t[i][j])))
}

/// The width of column `j`, going by the first `upto` rows: the most
/// bytes that a cell of the column takes.
pub open spec fn column_width(t: Seq<Seq<Seq<char>>>, j: int, upto: int) -> nat
    decreases upto,
{
    if upto <= 0 {
        0
    } else if byte_len(t[upto - 1][j]) > column_width(t, j, upto - 1) {
        byte_len(t[upto - 1][j])
    } else {
        column_width(t, j, upto - 1)
    }
}

/// `n` times the character `c`.
pub open spec fn repeated(c: char, n: nat) -> Seq<char> {
    Seq::new(n, |i: int| c)
}

/// `s` with spaces behind it to make up `w` characters, if it has fewer.
pub open spec fn padded(s: Seq<char>, w: nat) -> Seq<char> {
    if s.len() < w {
        s + repeated(' ', (w - s.len()) as nat)
    } else {
        s
    }
}

/// The first `upto` cells of row `i`, laid out.
pub open spec fn cells_text(t: Seq<Seq<Seq<char>>>, i: int, upto: int) -> Seq<char>
    decreases upto,
{
    if upto <= 0 {
        Seq::empty()
    } else {
        cells_text(t, i, upto - 1) + seq!['|', ' '] + padded(
            t[i][upto - 1],
            column_width(t, upto - 1, t.len() as int),
        ) + seq![' ']
    }
}

/// The rule under the first `upto` columns.
pub open spec fn rule_text(t: Seq<Seq<Seq<char>>>, upto: int) -> Seq<char>
    decreases upto,
{
    if upto <= 0 {
        Seq::empty()
    } else {
        rule_text(t, upto - 1) + seq!['|', '-', '-'] + repeated(
            '-',
            column_width(t, upto - 1, t.len() as int),
        )
    }
}

/// Row `i`, laid out.
pub open spec fn line_text(t: Seq<Seq<Seq<char>>>, i: int) -> Seq<char> {
    cells_text(t, i, t[0].len() as int) + seq!['|']
}

/// The first `upto` rows of the table, laid out, with the rule under the
/// first row and line breaks between the lines.
pub open spec fn table_text(t: Seq<Seq<Seq<char>>>, upto: int) -> Seq<char>
    decreases upto,
{
    if upto <= 1 {
        line_text(t, 0) + seq!['\n'] + rule_text(t, t[0].len() as int) + seq!['|']
    } else {
        table_text(t, upto - 1) + seq!['\n'] + line_text(t, upto - 1)
    }
}

/// Appends `n` times the one-character string `unit`.
fn append_repeated(out: &mut String, unit: &str, n: usize)
    requires
        unit@.len() == 1,
    ensures
        final(out)@ == old(out)@ + repeated(unit@[0], n as nat),
{
    let ghost start = out@;
    let mut k: usize = 0;
    while k < n
        invariant
            k <= n,
            unit@.len() == 1,
            out@ == start + repeated(unit@[0], k as nat),
        decreases n - k,
    {
        out.append(unit);
        k += 1;
    }
}

/// The widths of the columns.
fn column_widths(rows: &Vec<Vec<String>>) -> (widths: Vec<usize>)
    requires
        rows@.len() > 0,
        forall|i: int| 0 <= i < rows@.len() ==> (#[trigger] rows@[i])@.len() == rows@[0]@.len(),
    ensures
        widths@.len() == rows@[0]@.len(),
        forall|j: int|
            0 <= j < widths@.len() ==> #[trigger] widths@[j] == column_width(
                texts(rows@),
                j,
                rows@.len() as int,
            ),
{
    let n = rows.len();
    let m = rows[0].len();
    let ghost t = texts(rows@);
    let mut widths: Vec<usize> = Vec::new();
    let mut j: usize = 0;
    while j < m
        invariant
            j <= m,
            n == rows@.len(),
            n > 0,
            m == rows@[0]@.len(),
            t == texts(rows@),
            forall|i: int| 0 <= i < rows@.len() ==> (#[trigger] rows@[i])@.len() == rows@[0]@.len(),
            widths@.len() == j,
            forall|c: int| 0 <= c < j ==> #[trigger] widths@[c] == column_width(t, c, n as int),
        decreases m - j,
    {
        let mut width: usize = 0;
        let mut i: usize = 0;
        while i < n
            invariant
                i <= n,
                j < m,
                n == rows@.len(),
                m == rows@[0]@.len(),
                t == texts(rows@),
                forall|i: int|
                    0 <= i < rows@.len() ==> (#[trigger] rows@[i])@.len() == rows@[0]@.len(),
                width == column_width(t, j as int, i as int),
            decreases n - i,
        {
            let row = &rows[i];
            let len = row[j].as_str().as_bytes().len();
            if len > width {
                width = len;
            }
            i += 1;
        }
        widths.push(width);
        j += 1;
    }
    widths
}

/// Lays the rows out as a table, the cells as they are. There must be at
/// least one row, with at least one cell, and all rows must have as many
/// cells as the first.
pub fn lay_out(rows: &Vec<Vec<String>>) -> (r: String)
    requires
        rows@.len() > 0,
        rows@[0]@.len() > 0,
        forall|i: int| 0 <= i < rows@.len() ==> (#[trigger] rows@[i])@.len() == rows@[0]@.len(),
    ensures
        r@ == table_text(texts(rows@), rows@.len() as int),
{
    let n = rows.len();
    let m = rows[0].len();
    let ghost t = texts(rows@);
    let widths = column_widths(rows);
    let mut out = String::new();
    proof {
        reveal_strlit("| ");
        reveal_strlit(" ");
        reveal_strlit("|");
        reveal_strlit("|--");
        reveal_strlit("-");
        reveal_strlit("\n");
    }
    let mut i: usize = 0;
    while i < n
        invariant
            i <= n,
            n == rows@.len(),
            n > 0,
            m == rows@[0]@.len(),
            m > 0,
            t == texts(rows@),
            forall|i: int| 0 <= i < rows@.len() ==> (#[trigger] rows@[i])@.len() == rows@[0]@.len(),
            widths@.len() == m,
            forall|j: int| 0 <= j < m ==> #[trigger] widths@[j] == column_width(t, j, n as int),
            "| "@ == seq!['|', ' '],
            " "@ == seq![' '],
            "|"@ == seq!['|'],
            "|--"@ == seq!['|', '-', '-'],
            "-"@ == seq!['-'],
            "\n"@ == seq!['\n'],
            i == 0 ==> out@ == Seq::<char>::empty(),
            i > 0 ==> out@ == table_text(t, i as int),
        decreases n - i,
    {
        if i > 0 {
            out.append("\n");
        }
        let ghost start = out@;
        let row = &rows[i];
        let mut j: usize = 0;
        while j < m
            invariant
                j <= m,
                i < n,
                n == rows@.len(),
                m == rows@[0]@.len(),
                m == row@.len(),
                *row == rows@[i as int],
                t == texts(rows@),
                widths@.len() == m,
                forall|j: int| 0 <= j < m ==> #[trigger] widths@[j] == column_width(t, j, n as int),
                "| "@ == seq!['|', ' '],
                " "@ == seq![' '],
                out@ == start + cells_text(t, i as int, j as int),
            decreases m - j,
        {
            let cell = row[j].as_str();
            let chars = cell.unicode_len();
            out.append("| ");
            out.append(cell);
            if chars < widths[j] {
                append_repeated(&mut out, " ", widths[j] - chars);
            }
            out.append(" ");
            j += 1;
        }
        out.append("|");
        if i == 0 {
            out.append("\n");
            let ghost above = out@;
            let mut j: usize = 0;
            while j < m
                invariant
                    j <= m,
                    n == rows@.len(),
                    m == rows@[0]@.len(),
                    t == texts(rows@),
                    widths@.len() == m,
                    forall|j: int|
                        0 <= j < m ==> #[trigger] widths@[j] == column_width(t, j, n as int),
                    "|--"@ == seq!['|', '-', '-'],
                    "-"@ == seq!['-'],
                    out@ == above + rule_text(t, j as int),
                decreases m - j,
            {
                    out.append("|--");
                append_repeated(&mut out, "-", widths[j]);
                j += 1;
            }
            out.append("|");
        }
        i += 1;
    }
    out
}

/// Lays the rows out as a table, every cell stripped of the whitespace
/// around it. There must be at least one row, with at least one cell, and
/// all rows must have as many cells as the first.
pub fn format_table(rows: Vec<Vec<String>>) -> (r: String)
    requires
        rows@.len() > 0,
        rows@[0]@.len() > 0,
        forall|i: int| 0 <= i < rows@.len() ==> (#[trigger] rows@[i])@.len() == rows@[0]@.len(),
    ensures
        r@ == table_text(stripped(texts(rows@)), rows@.len() as int),
{
    let n = rows.len();
    let m = rows[0].len();
    let mut cells: Vec<Vec<String>> = Vec::new();
    let mut i: usize = 0;
    while i < n
        invariant
            i <= n,
            n == rows@.len(),
            m == rows@[0]@.len(),
            forall|i: int| 0 <= i < rows@.len() ==> (#[trigger] rows@[i])@.len() == rows@[0]@.len(),
            cells@.len() == i,
            forall|a: int| 0 <= a < i ==> (#[trigger] cells@[a])@.len() == m,
            forall|a: int, b: int|
                0 <= a < i && 0 <= b < m ==> #[trigger] cells@[a]@[b]@ == trimmed(rows@[a]@[b]@),
        decreases n - i,
    {
        let row = &rows[i];
        let mut line: Vec<String> = Vec::new();
        let mut j: usize = 0;
        while j < m
            invariant
                j <= m,
                m == row@.len(),
                line@.len() == j,
                forall|b: int| 0 <= b < j ==> #[trigger] line@[b]@ == trimmed(row@[b]@),
            decreases m - j,
        {
            line.push(String::from_str(trim(row[j].as_str())));
            j += 1;
        }
        cells.push(line);
        i += 1;
    }
    proof {
        assert(texts(cells@) =~~= stripped(texts(rows@)));
    }
    lay_out(&cells)
}

} // verus!
