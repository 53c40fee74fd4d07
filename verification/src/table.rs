//! A table with named columns, and the enumeration of bit patterns.

use vstd::prelude::*;
use vstd::string::*;
use vstd::arithmetic::power2::{lemma2_to64, lemma_pow2_pos, lemma_pow2_strictly_increases, lemma_pow2_unfold, pow2};
use vstd::arithmetic::div_mod::lemma_div_denominator;
use crate::text::{repeat, repeat_spec};
use crate::utils::texts;
use vstd::utf8::encode_utf8;

verus! {

/// `String::push` appends the character to the end of the string; it is
/// how a cell of a table of characters is written out.
pub assume_specification[ String::push ](s: &mut String, c: char)
    ensures
        final(s)@ == old(s)@.push(c),
;

/// Rows of cells under named columns. A cell is found by the number of its
/// row and the name of its column.
pub struct Table<T> {
    pub cols: Vec<String>,
    pub rows: Vec<Vec<T>>,
}

/// The place of the column named `name`: the last one of that name.
pub open spec fn column_of(cols: Seq<Seq<char>>, name: Seq<char>) -> Option<int> {
    cols.index_of_last(name)
}

/// The cells of a list of rows.
pub open spec fn cells<T>(rows: Seq<Vec<T>>) -> Seq<Seq<T>> {
    rows.map_values(|r: Vec<T>| r@)
}

impl<T> Table<T> {
    /// The names of the columns.
    pub open spec fn col_names(&self) -> Seq<Seq<char>> {
        texts(self.cols@)
    }

    /// The cells, row by row.
    pub open spec fn cell_rows(&self) -> Seq<Seq<T>> {
        cells(self.rows@)
    }

    /// Row `i` has a cell in the column named `j`.
    pub open spec fn has_cell(&self, i: int, j: Seq<char>) -> bool {
        &&& 0 <= i < self.rows@.len()
        &&& column_of(self.col_names(), j) is Some
        &&& column_of(self.col_names(), j)->Some_0 < self.rows@[i]@.len()
    }
}

impl<T: Default + Clone> Table<T> {
    /// A table without columns and rows.
    pub fn new() -> (t: Table<T>)
        ensures
            t.col_names() == Seq::<Seq<char>>::empty(),
            t.cell_rows() == Seq::<Seq<T>>::empty(),
    {
        let t = Table { cols: Vec::new(), rows: Vec::new() };
        assert(t.col_names() =~= Seq::<Seq<char>>::empty());
        assert(t.cell_rows() =~= Seq::<Seq<T>>::empty());
        return t;
    }

    /// Names the columns anew; the rows stay as they are.
    pub fn set_columns(&mut self, cols: Vec<String>) -> (r: Result<(), String>)
        ensures
            r is Ok,
            final(self).col_names() == texts(cols@),
            final(self).rows == old(self).rows,
    {
        self.cols = cols;
        Ok(())
    }

    /// Replaces the rows; the columns stay as they are.
    pub fn set_rows(&mut self, rows: Vec<Vec<T>>) -> (r: Result<(), String>)
        ensures
            r is Ok,
            final(self).rows == rows,
            final(self).cols == old(self).cols,
    {
        self.rows = rows;
        Ok(())
    }

    /// Appends a row with one default cell for each column, and gives its
    /// number.
    pub fn add_row(&mut self) -> (idx: usize)
        ensures
            idx == old(self).rows@.len(),
            final(self).cols == old(self).cols,
            final(self).rows@.len() == old(self).rows@.len() + 1,
            final(self).rows@.take(idx as int) == old(self).rows@,
            final(self).rows@[idx as int]@.len() == old(self).cols@.len(),
            forall|j: int|
                0 <= j < old(self).cols@.len() ==> call_ensures(
                    T::default,
                    (),
                    #[trigger] final(self).rows@[idx as int]@[j],
                ),
    {
        let mut row: Vec<T> = Vec::new();
        let mut j: usize = 0;
        while j < self.cols.len()
            invariant
                j <= self.cols.len(),
                row@.len() == j,
                forall|k: int| 0 <= k < j ==> call_ensures(T::default, (), #[trigger] row@[k]),
            decreases self.cols.len() - j,
        {
            row.push(T::default());
            j = j + 1;
        }
        self.rows.push(row);
        assert(self.rows@.take(self.rows@.len() - 1) =~= old(self).rows@);
        self.rows.len() - 1
    }

    /// The number of the column named `j`, if there is one: the last one
    /// of that name.
    pub fn column_index(&self, j: &str) -> (r: Option<usize>)
        ensures
            match r {
                Some(c) => column_of(self.col_names(), j@) == Some(c as int) && c < self.cols@.len(),
                None => column_of(self.col_names(), j@) is None,
            },
    {
        let name = String::from_str(j);
        let ghost names = self.col_names();
        let mut c: usize = self.cols.len();
        while c > 0
            invariant
                c <= self.cols.len(),
                names == self.col_names(),
                names.len() == self.cols@.len(),
                name@ == j@,
                forall|k: int| c <= k < names.len() ==> names[k] != j@,
            decreases c,
        {
            c = c - 1;
            if self.cols[c] == name {
                proof {
                    assert(names[c as int] == j@);
                    names.index_of_last_ensures(j@);
                }
                return Some(c);
            }
        }
        proof {
            names.index_of_last_ensures(j@);
        }
        None
    }

    /// Writes `val` to the cell of row `i` in the column named `j`.
    pub fn set_val_at(&mut self, i: usize, j: &str, val: T)
        requires
            old(self).has_cell(i as int, j@),
        ensures
            final(self).cols == old(self).cols,
            final(self).cell_rows() == old(self).cell_rows().update(
                i as int,
                old(self).cell_rows()[i as int].update(
                    column_of(old(self).col_names(), j@)->Some_0,
                    val,
                ),
            ),
    {
        let c = self.column_index(j).unwrap();
        self.rows[i][c] = val;
        assert(self.cell_rows() =~= old(self).cell_rows().update(
            i as int,
            old(self).cell_rows()[i as int].update(c as int, val),
        ));
    }

    /// The cell of row `i` in the column named `j`.
    pub fn get_val_at(&self, i: usize, j: &str) -> (r: &T)
        requires
            self.has_cell(i as int, j@),
        ensures
            *r == self.cell_rows()[i as int][column_of(self.col_names(), j@)->Some_0],
    {
        let c = self.column_index(j).unwrap();
        &self.rows[i][c]
    }
}

/// Bit `k` of `n`, where bit 0 is the least significant.
pub open spec fn bit_of(n: nat, k: nat) -> bool {
    (n / pow2(k)) % 2 == 1
}

/// The lowest `bits` bits of `n`, the most significant first.
pub open spec fn bits_msb(n: nat, bits: nat) -> Seq<bool> {
    Seq::new(bits, |i: int| bit_of(n, (bits - 1 - i) as nat))
}

/// Two to the power `bits` fits a machine word where `bits` is below the
/// width of the word.
pub proof fn lemma_pow2_fits(bits: nat)
    requires
        bits < usize::BITS,
    ensures
        0 < pow2(bits) <= usize::MAX,
{
    lemma_pow2_pos(bits);
    lemma2_to64();
    if bits + 1 < usize::BITS {
        lemma_pow2_strictly_increases(bits + 1, usize::BITS as nat);
    }
    lemma_pow2_unfold(bits + 1);
}

/// Unpacks the lowest `bits` bits of `n`, the most significant first.
pub fn unpack_bits(n: usize, bits: usize) -> (r: Vec<bool>)
    ensures
        r@ == bits_msb(n as nat, bits as nat),
{
    let mut rev: Vec<bool> = Vec::new();
    let mut m: usize = n;
    let mut k: usize = 0;
    proof {
        lemma2_to64();
    }
    while k < bits
        invariant
            k <= bits,
            rev@.len() == k,
            m == (n as nat) / pow2(k as nat),
            forall|j: int| 0 <= j < k ==> rev@[j] == bit_of(n as nat, j as nat),
        decreases bits - k,
    {
        proof {
            lemma_pow2_pos(k as nat);
            lemma_pow2_unfold((k + 1) as nat);
            lemma_div_denominator(n as int, pow2(k as nat) as int, 2);
        }
        rev.push(m % 2 == 1);
        m = m / 2;
        k = k + 1;
    }
    let mut r: Vec<bool> = Vec::new();
    let mut i: usize = 0;
    while i < bits
        invariant
            i <= bits,
            rev@.len() == bits,
            r@.len() == i,
            forall|j: int| 0 <= j < bits ==> rev@[j] == bit_of(n as nat, j as nat),
            forall|j: int| 0 <= j < i ==> r@[j] == bit_of(n as nat, (bits - 1 - j) as nat),
        decreases bits - i,
    {
        r.push(rev[bits - 1 - i]);
        i = i + 1;
    }
    assert(r@ =~= bits_msb(n as nat, bits as nat));
    r
}

/// Two to the power `bits`.
pub fn pow2_usize(bits: usize) -> (r: usize)
    requires
        bits < usize::BITS,
    ensures
        r == pow2(bits as nat),
{
    let mut r: usize = 1;
    let mut k: usize = 0;
    proof {
        lemma2_to64();
    }
    while k < bits
        invariant
            k <= bits,
            bits < usize::BITS,
            r == pow2(k as nat),
        decreases bits - k,
    {
        proof {
            lemma_pow2_unfold((k + 1) as nat);
            lemma_pow2_fits((k + 1) as nat);
        }
        r = r * 2;
        k = k + 1;
    }
    r
}

/// Every pattern of `bits` bits, counting up from zero; each pattern has
/// its most significant bit first.
pub fn bitwise_counter(bits: usize) -> (r: Vec<Vec<bool>>)
    requires
        bits < usize::BITS,
    ensures
        r@.len() == pow2(bits as nat),
        forall|n: int| 0 <= n < r@.len() ==> (#[trigger] r@[n])@ == bits_msb(n as nat, bits as nat),
{
    let total_combs = pow2_usize(bits);
    let mut r: Vec<Vec<bool>> = Vec::new();
    let mut n: usize = 0;
    while n < total_combs
        invariant
            n <= total_combs,
            r@.len() == n,
            forall|m: int| 0 <= m < n ==> (#[trigger] r@[m])@ == bits_msb(m as nat, bits as nat),
        decreases total_combs - n,
    {
        r.push(unpack_bits(n, bits));
        n = n + 1;
    }
    r
}

/// The width of the cells of a column: the bytes of its name and three
/// more, or the largest number where that is too large.
pub open spec fn pad_width(name: Seq<char>) -> nat {
    let w = (encode_utf8(name).len() as usize) + 3;
    if w > usize::MAX {
        usize::MAX as nat
    } else {
        w as nat
    }
}

/// The width of a table with the columns `names`, the left border not
/// counted; it stops at the largest number.
pub open spec fn total_width(names: Seq<Seq<char>>) -> nat
    decreases names.len(),
{
    if names.len() == 0 {
        0
    } else {
        let w = total_width(names.drop_last()) + pad_width(names.last()) + 2;
        if w > usize::MAX {
            usize::MAX as nat
        } else {
            w
        }
    }
}

/// A rule of the table, drawn with `unit`.
pub open spec fn rule_text(unit: Seq<char>, names: Seq<Seq<char>>) -> Seq<char> {
    let inner = if total_width(names) == 0 {
        0nat
    } else {
        (total_width(names) - 1) as nat
    };
    "|"@ + repeat_spec(unit, inner) + "|\n"@
}

/// The names of the columns in yellow, each between two blanks on either
/// side and before a bar.
pub open spec fn head_cells(names: Seq<Seq<char>>) -> Seq<char>
    decreases names.len(),
{
    if names.len() == 0 {
        Seq::empty()
    } else {
        head_cells(names.drop_last()) + "  \x1b[33m"@ + names.last() + "\x1b[0m  |"@
    }
}

/// The first `k` cells of a row, each in the middle of the width of its
/// column and before a bar. A cell that the row lacks is left out.
pub open spec fn row_cells_text(row: Seq<char>, names: Seq<Seq<char>>, k: nat) -> Seq<char>
    decreases k,
{
    if k == 0 || k > names.len() {
        Seq::empty()
    } else {
        let w = pad_width(names[k - 1]);
        let cell = if k <= row.len() {
            seq![row[k - 1]]
        } else {
            Seq::empty()
        };
        row_cells_text(row, names, (k - 1) as nat) + repeat_spec(" "@, w / 2) + cell + repeat_spec(
            " "@,
            (w - w / 2) as nat,
        ) + "|"@
    }
}

/// The first `k` rows of a table, one to a line.
pub open spec fn rows_text(rows: Seq<Seq<char>>, names: Seq<Seq<char>>, k: nat) -> Seq<char>
    decreases k,
{
    if k == 0 || k > rows.len() {
        Seq::empty()
    } else {
        rows_text(rows, names, (k - 1) as nat) + "|"@ + row_cells_text(
            rows[k - 1],
            names,
            names.len(),
        ) + "\n"@
    }
}

/// A table drawn for a terminal: a rule, the names of the columns, a rule,
/// the rows, and a rule.
pub open spec fn table_text(names: Seq<Seq<char>>, rows: Seq<Seq<char>>) -> Seq<char> {
    rule_text("\u{af}"@, names) + "|"@ + head_cells(names) + "\n"@ + rule_text("-"@, names)
        + rows_text(rows, names, rows.len()) + rule_text("_"@, names)
}

fn width_of(name: &str) -> (w: usize)
    ensures
        w == pad_width(name@),
{
    name.len().saturating_add(3)
}

impl Table<char> {
    fn rule(&self, unit: &str, total: usize) -> (r: String)
        requires
            total == total_width(self.col_names()),
        ensures
            r@ == rule_text(unit@, self.col_names()),
    {
        let inner = if total == 0 {
            0
        } else {
            total - 1
        };
        let mut r = String::from_str("|");
        r.append(repeat(unit, inner).as_str());
        r.append("|\n");
        r
    }

    /// The table drawn for a terminal.
    pub fn render(&self) -> (r: String)
        ensures
            r@ == table_text(self.col_names(), self.cell_rows()),
    {
        let ghost names = self.col_names();
        let ghost rows = self.cell_rows();
        let mut total: usize = 0;
        let mut head = String::new();
        let mut i: usize = 0;
        assert(names.take(0) =~= Seq::<Seq<char>>::empty());
        while i < self.cols.len()
            invariant
                i <= self.cols@.len(),
                names == self.col_names(),
                total == total_width(names.take(i as int)),
                head@ == head_cells(names.take(i as int)),
            decreases self.cols@.len() - i,
        {
            proof {
                assert(names.take(i + 1).drop_last() =~= names.take(i as int));
                assert(names.take(i + 1).last() == self.cols@[i as int]@);
            }
            total = total.saturating_add(width_of(self.cols[i].as_str())).saturating_add(2);
            head.append("  \x1b[33m");
            head.append(self.cols[i].as_str());
            head.append("\x1b[0m  |");
            i = i + 1;
        }
        proof {
            assert(names.take(self.cols@.len() as int) =~= names);
        }
        let mut r = self.rule("\u{af}", total);
        r.append("|");
        r.append(head.as_str());
        r.append("\n");
        r.append(self.rule("-", total).as_str());
        let mut body = String::new();
        let mut k: usize = 0;
        while k < self.rows.len()
            invariant
                k <= self.rows@.len(),
                names == self.col_names(),
                rows == self.cell_rows(),
                body@ == rows_text(rows, names, k as nat),
            decreases self.rows@.len() - k,
        {
            let mut line = String::new();
            let mut j: usize = 0;
            while j < self.cols.len()
                invariant
                    j <= self.cols@.len(),
                    k < self.rows@.len(),
                    names == self.col_names(),
                    rows == self.cell_rows(),
                    line@ == row_cells_text(rows[k as int], names, j as nat),
                decreases self.cols@.len() - j,
            {
                let w = width_of(self.cols[j].as_str());
                line.append(repeat(" ", w / 2).as_str());
                if j < self.rows[k].len() {
                    line.push(self.rows[k][j]);
                }
                line.append(repeat(" ", w - w / 2).as_str());
                line.append("|");
                assert(line@ =~= row_cells_text(rows[k as int], names, (j + 1) as nat));
                j = j + 1;
            }
            body.append("|");
            body.append(line.as_str());
            body.append("\n");
            k = k + 1;
        }
        r.append(body.as_str());
        r.append(self.rule("_", total).as_str());
        assert(r@ =~= table_text(names, rows));
        r
    }
}

} // verus!
