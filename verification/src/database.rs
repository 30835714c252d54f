//! The tabular store: column descriptors, the incremental table builder, the
//! immutable rectangular table, and the database that owns the arenas.
//!
//! A raw grid is a sequence of rows of text fields; rows may differ in length
//! ("ragged"). Building a table normalizes the grid to a rectangle whose
//! column count is the longest row's length, padding short rows with the
//! interned empty string, and interns every cell text and every column
//! descriptor so that equal content shares one key.

use vstd::prelude::*;
use vstd::string::StringSliceAdditionalSpecFns;
use vstd::utf8::encode_utf8;

use crate::appstate::Pos;
use crate::sutoa::{dupfree, has_val, intern_fold, intern_step, store_key, InternKey, Sutoa,
    lemma_store_key_unique};

verus! {

/// The larger of two sizes.
pub open spec fn nat_max(a: nat, b: nat) -> nat {
    if a >= b {
        a
    } else {
        b
    }
}

/// The length of the longest row of a grid; zero for an empty grid.
pub open spec fn max_row_len(rows: Seq<Seq<Seq<char>>>) -> nat
    decreases rows.len(),
{
    if rows.len() == 0 {
        0
    } else {
        nat_max(max_row_len(rows.drop_last()), rows.last().len())
    }
}

/// The length in bytes of one cell text, as the machine measures it.
pub open spec fn text_width(s: Seq<char>) -> nat {
    (encode_utf8(s).len() as usize) as nat
}

/// What one row contributes to a column's width: the byte length of its field
/// at that column, or zero where the row is too short.
pub open spec fn field_width(row: Seq<Seq<char>>, c: int) -> nat {
    if 0 <= c < row.len() {
        text_width(row[c])
    } else {
        0
    }
}

/// A column's width: the maximum byte length of any cell text placed at that
/// column index, over all rows of the grid.
pub open spec fn col_width(rows: Seq<Seq<Seq<char>>>, c: int) -> nat
    decreases rows.len(),
{
    if rows.len() == 0 {
        0
    } else {
        nat_max(col_width(rows.drop_last(), c), field_width(rows.last(), c))
    }
}

/// The text placed at a grid position: the row's field where the row reaches
/// that column, the empty text where it does not.
pub open spec fn grid_cell(rows: Seq<Seq<Seq<char>>>, r: int, c: int) -> Seq<char> {
    if 0 <= r < rows.len() && 0 <= c < rows[r].len() {
        rows[r][c]
    } else {
        Seq::<char>::empty()
    }
}

/// Columns past the longest row have width zero.
proof fn lemma_col_width_beyond(rows: Seq<Seq<Seq<char>>>, c: int)
    requires
        c >= max_row_len(rows),
    ensures
        col_width(rows, c) == 0,
    decreases rows.len(),
{
    if rows.len() != 0 {
        lemma_col_width_beyond(rows.drop_last(), c);
    }
}

/// A column descriptor: a header text and the width of the widest cell seen
/// at the column's position.
#[derive(Debug, Eq, Hash)]
pub struct Column {
    pub header: String,
    pub width: usize,
}

/// The abstract content of a column descriptor.
#[verifier::ext_equal]
pub struct ColumnView {
    pub header: Seq<char>,
    pub width: nat,
}

impl View for Column {
    type V = ColumnView;

    open spec fn view(&self) -> ColumnView {
        ColumnView { header: self.header@, width: self.width as nat }
    }
}

impl PartialEq for Column {
    fn eq(&self, other: &Column) -> (r: bool) {
        self.header.eq(&other.header) && self.width == other.width
    }
}

impl vstd::std_specs::cmp::PartialEqSpecImpl for Column {
    open spec fn obeys_eq_spec() -> bool {
        true
    }

    open spec fn eq_spec(&self, other: &Column) -> bool {
        self@ == other@
    }
}

impl InternKey for Column {
    fn key_eq(&self, other: &Self) -> (r: bool) {
        let r = self.header.eq(&other.header) && self.width == other.width;
        proof {
            if self.header@ == other.header@ && self.width == other.width {
                assert(self@ =~= other@);
            }
        }
        r
    }
}

impl Clone for Column {
    /// A clone has the same header text and the same width.
    fn clone(&self) -> (r: Self)
        ensures
            r@ == self@,
    {
        Column { header: self.header.clone(), width: self.width }
    }
}

impl Column {
    /// A fresh descriptor: empty header, width zero.
    pub fn new() -> (c: Self)
        ensures
            c.header@ == Seq::<char>::empty(),
            c.width == 0,
    {
        Column { header: String::new(), width: 0 }
    }

    /// Replaces the header text, keeping the width.
    pub fn header(&mut self, new_header: String)
        ensures
            final(self).header@ == new_header@,
            final(self).width == old(self).width,
    {
        self.header = new_header;
    }

    /// One fresh descriptor per given width, each with an empty header.
    pub fn from_widths(widths: Vec<usize>) -> (cols: Vec<Column>)
        ensures
            cols@.len() == widths@.len(),
            forall|i: int|
                0 <= i < cols@.len() ==> (#[trigger] cols@[i]).width == widths@[i] && cols@[
                    i
                ].header@.len() == 0,
    {
        let mut cols: Vec<Column> = Vec::new();
        let mut i: usize = 0;
        while i < widths.len()
            invariant
                i <= widths@.len(),
                cols@.len() == i,
                forall|j: int|
                    0 <= j < i ==> (#[trigger] cols@[j]).width == widths@[j] && cols@[
                        j
                    ].header@.len() == 0,
            decreases widths@.len() - i,
        {
            cols.push(Column { header: String::new(), width: widths[i] });
            i = i + 1;
        }
        cols
    }
}

/// The staging structure: raw rows as added so far, together with the running
/// column descriptors, the row count, and the longest row length seen.
#[derive(Clone, Debug)]
pub struct TableBuilder {
    pub rows: Vec<Vec<String>>,
    pub cols: Vec<Column>,
    pub row_cnt: usize,
    pub col_cnt: usize,
}

impl TableBuilder {
    /// The raw grid accumulated so far, as abstract text.
    pub open spec fn grid(&self) -> Seq<Seq<Seq<char>>> {
        self.rows.deep_view()
    }

    /// The builder's invariant: the counts match the rows, and every column
    /// descriptor records exactly the width of the widest cell seen at its
    /// position, under an empty header.
    pub open spec fn wf(&self) -> bool {
        &&& self.row_cnt == self.grid().len()
        &&& self.col_cnt == self.cols@.len()
        &&& self.col_cnt as nat == max_row_len(self.grid())
        &&& forall|c: int|
            0 <= c < self.cols@.len() ==> (#[trigger] self.cols@[c]).width as nat == col_width(
                self.grid(),
                c,
            ) && self.cols@[c].header@.len() == 0
    }

    /// An empty builder.
    pub fn new() -> (tb: Self)
        ensures
            tb.wf(),
            tb.grid() == Seq::<Seq<Seq<char>>>::empty(),
            tb.rows@.len() == 0,
            tb.cols@.len() == 0,
            tb.row_cnt == 0,
            tb.col_cnt == 0,
    {
        let tb = TableBuilder { rows: Vec::new(), cols: Vec::new(), row_cnt: 0, col_cnt: 0 };
        proof {
            assert(tb.grid() =~= Seq::<Seq<Seq<char>>>::empty());
        }
        tb
    }

    /// Appends one raw row: grows the column list to the row's length if the
    /// row is the longest yet, raises each touched column's width to the
    /// row's field length where that is larger, and counts the row.
    pub fn add_row(&mut self, row: Vec<String>)
        requires
            old(self).wf(),
        ensures
            final(self).wf(),
            final(self).grid() == old(self).grid().push(row.deep_view()),
            final(self).row_cnt == old(self).row_cnt + 1,
            final(self).col_cnt as nat == nat_max(old(self).col_cnt as nat, row@.len() as nat),
    {
        let ghost g0 = old(self).grid();
        let ghost rv = row.deep_view();
        let n = row.len();
        let mut i: usize = 0;
        while i < n
            invariant
                old(self).wf(),
                n == row@.len(),
                rv == row.deep_view(),
                rv.len() == n,
                i <= n,
                self.rows == old(self).rows,
                self.row_cnt == old(self).row_cnt,
                self.grid() == g0,
                g0 == old(self).grid(),
                self.cols@.len() == self.col_cnt,
                self.col_cnt as nat == nat_max(old(self).col_cnt as nat, i as nat),
                forall|c: int|
                    0 <= c < self.cols@.len() ==> (#[trigger] self.cols@[c]).header@.len() == 0,
                forall|c: int|
                    0 <= c < self.cols@.len() ==> (#[trigger] self.cols@[c]).width as nat == (
                    if c < i {
                        nat_max(col_width(g0, c), field_width(rv, c))
                    } else {
                        col_width(g0, c)
                    }),
            decreases n - i,
        {
            if self.col_cnt <= i {
                self.col_cnt = i + 1;
                self.cols.push(Column::new());
                proof {
                    lemma_col_width_beyond(g0, i as int);
                }
            }
            let s = row[i].as_str();
            let w = s.len();
            proof {
                assert(rv[i as int] == row@[i as int]@);
                assert(s@ == row@[i as int]@);
                assert(s.spec_bytes() == encode_utf8(s@));
                assert(w as nat == field_width(rv, i as int));
            }
            if w > self.cols[i].width {
                self.cols.set(i, Column { header: String::new(), width: w });
            }
            i = i + 1;
        }
        self.rows.push(row);
        self.row_cnt = self.rows.len();
        proof {
            assert(self.grid() =~= g0.push(rv));
            assert((g0.push(rv)).drop_last() =~= g0);
            assert((g0.push(rv)).last() == rv);
            assert(max_row_len(self.grid()) == nat_max(max_row_len(g0), rv.len()));
            assert forall|c: int| 0 <= c < self.cols@.len() implies (#[trigger] self.cols@[
                c
            ]).width as nat == col_width(self.grid(), c) by {
                assert(col_width(self.grid(), c) == nat_max(col_width(g0, c), field_width(rv, c)));
                if c >= n {
                    assert(field_width(rv, c) == 0);
                }
            }
        }
    }
}

/// The cell texts a grid interns while building, in row-major order: each
/// row's own fields in turn (padding is not re-interned; the pad text is the
/// empty string interned once, before any of these).
pub open spec fn table_texts(g: Seq<Seq<Seq<char>>>) -> Seq<Seq<char>>
    decreases g.len(),
{
    if g.len() == 0 {
        Seq::<Seq<char>>::empty()
    } else {
        table_texts(g.drop_last()) + g.last()
    }
}

/// The abstract contents of a list of column descriptors, in order.
pub open spec fn col_views(cols: Seq<Column>) -> Seq<ColumnView> {
    Seq::new(cols.len(), |i: int| cols[i]@)
}

/// The column descriptors a grid gives rise to: one per column of the
/// normalized rectangle, each with an empty header and the column's width.
pub open spec fn grid_col_views(g: Seq<Seq<Seq<char>>>) -> Seq<ColumnView> {
    Seq::new(max_row_len(g), |c: int| ColumnView { header: Seq::<char>::empty(), width: col_width(g, c) })
}

/// The key stored at row-major position (`r`, `c`) of a cell-key rectangle
/// with `cc` columns.
pub open spec fn cell_key_at(cells: Seq<usize>, cc: int, r: int, c: int) -> int {
    cells[r * cc + c] as int
}

/// A row-major position lies inside the rectangle.
proof fn lemma_rc_index(r: int, c: int, rows: int, cc: int)
    requires
        0 <= r < rows,
        0 <= c < cc,
    ensures
        0 <= r * cc + c < rows * cc,
{
    assert(0 <= r * cc + c < rows * cc) by (nonlinear_arith)
        requires
            0 <= r < rows,
            0 <= c < cc,
    ;
}

/// No row of a grid is longer than the longest row.
proof fn lemma_row_len_bounded(g: Seq<Seq<Seq<char>>>, r: int)
    requires
        0 <= r < g.len(),
    ensures
        g[r].len() <= max_row_len(g),
    decreases g.len(),
{
    if r == g.len() - 1 {
        assert(g.last() == g[r]);
    } else {
        lemma_row_len_bounded(g.drop_last(), r);
        assert(g.drop_last()[r] == g[r]);
    }
}

/// Every index into the rectangle decomposes into a row and a column.
proof fn lemma_pos_decompose(p: int, rows: int, cc: int)
    requires
        0 <= rows,
        0 <= p < rows * cc,
    ensures
        cc > 0,
        0 <= p / cc < rows,
        0 <= p % cc < cc,
        p == (p / cc) * cc + (p % cc),
{
    assert(cc > 0) by (nonlinear_arith)
        requires
            0 <= rows,
            0 <= p < rows * cc,
    ;
    vstd::arithmetic::div_mod::lemma_fundamental_div_mod(p, cc);
    vstd::arithmetic::div_mod::lemma_mod_bound(p, cc);
    vstd::arithmetic::mul::lemma_mul_is_commutative(cc, p / cc);
    assert(p / cc >= 0) by {
        if p / cc < 0 {
            vstd::arithmetic::mul::lemma_mul_inequality(p / cc, -1, cc);
        }
    }
    assert(p / cc < rows) by {
        if p / cc >= rows {
            vstd::arithmetic::mul::lemma_mul_inequality(rows, p / cc, cc);
        }
    }
}

/// Distinct positions of the rectangle have distinct row-major indices.
proof fn lemma_rc_distinct(r1: int, c1: int, r2: int, c2: int, cc: int)
    requires
        0 <= c1 < cc,
        0 <= c2 < cc,
        0 <= r1,
        0 <= r2,
        r1 != r2 || c1 != c2,
    ensures
        r1 * cc + c1 != r2 * cc + c2,
{
    assert(r1 * cc + c1 != r2 * cc + c2) by (nonlinear_arith)
        requires
            0 <= c1 < cc,
            0 <= c2 < cc,
            0 <= r1,
            0 <= r2,
            r1 != r2 || c1 != c2,
    ;
}

/// The built artifact: a row-major rectangle of cell keys, one column key per
/// column, and the (row count, column count) extent.
#[derive(Clone, Debug)]
pub struct Table {
    pub cells: Vec<usize>,
    pub columns: Vec<usize>,
    pub row_cnt: usize,
    pub col_cnt: usize,
}

/// A table is well formed against arenas of `n_cells` cell entries and
/// `n_cols` column entries: exactly `row_cnt * col_cnt` cell keys, exactly
/// `col_cnt` column keys, every key in range.
pub open spec fn table_wf(t: Table, n_cells: nat, n_cols: nat) -> bool {
    &&& t.cells@.len() == t.row_cnt * t.col_cnt
    &&& t.columns@.len() == t.col_cnt
    &&& forall|p: int| 0 <= p < t.cells@.len() ==> (#[trigger] t.cells@[p]) < n_cells
    &&& forall|c: int| 0 <= c < t.columns@.len() ==> (#[trigger] t.columns@[c]) < n_cols
}

/// The store that owns everything: the cell-text arena, the column arena, the
/// registry of built tables, and the handle of the currently active table
/// (absent until the first build).
#[derive(Clone, Debug)]
pub struct Database {
    pub cells: Sutoa<String>,
    pub tables: Vec<Table>,
    pub columns: Sutoa<Column>,
    pub head: Option<usize>,
}

impl Database {
    /// The database's invariant: both arenas are duplicate-free, the head (if
    /// set) points at a registered table, and every registered table's keys
    /// stay inside the arenas.
    pub open spec fn wf(&self) -> bool {
        &&& self.cells.wf()
        &&& self.columns.wf()
        &&& (self.head matches Some(k) ==> k < self.tables@.len())
        &&& forall|t: int|
            0 <= t < self.tables@.len() ==> table_wf(
                #[trigger] self.tables@[t],
                self.cells@.len(),
                self.columns@.len(),
            )
    }

    /// An empty database: no cells, no columns, no tables, no current table.
    pub fn new() -> (db: Database)
        ensures
            db.wf(),
            db.cells@ == Seq::<Seq<char>>::empty(),
            db.columns@ == Seq::<ColumnView>::empty(),
            db.tables@.len() == 0,
            db.head is None,
    {
        Database {
            cells: Sutoa::new(),
            tables: Vec::new(),
            columns: Sutoa::new(),
            head: None,
        }
    }

    /// Interns one cell text: equal text always comes back under the key it
    /// was first filed under, and new text gets the next fresh key.
    pub fn insert_cell(&mut self, contents: &str) -> (key: usize)
        requires
            old(self).wf(),
        ensures
            final(self).wf(),
            final(self).cells@ == intern_step(old(self).cells@, contents@),
            key < final(self).cells@.len(),
            final(self).cells@[key as int] == contents@,
            key as int == store_key(final(self).cells@, contents@),
            has_val(old(self).cells@, contents@) ==> *final(self) == *old(self),
            final(self).tables == old(self).tables,
            final(self).columns == old(self).columns,
            final(self).head == old(self).head,
    {
        let key = self.cells.intern(contents.to_owned());
        proof {
            lemma_database_wf_after_growth(*old(self), *self);
        }
        key
    }

    /// Interns one column descriptor, deduplicated by its (header, width)
    /// content exactly as cell texts are deduplicated by their text.
    pub fn insert_col(&mut self, col: Column) -> (key: usize)
        requires
            old(self).wf(),
        ensures
            final(self).wf(),
            final(self).columns@ == intern_step(old(self).columns@, col@),
            key < final(self).columns@.len(),
            final(self).columns@[key as int] == col@,
            key as int == store_key(final(self).columns@, col@),
            has_val(old(self).columns@, col@) ==> *final(self) == *old(self),
            final(self).tables == old(self).tables,
            final(self).cells == old(self).cells,
            final(self).head == old(self).head,
    {
        let key = self.columns.intern(col);
        proof {
            lemma_database_wf_after_growth(*old(self), *self);
        }
        key
    }

    /// The currently active table, or nothing while no table has ever been
    /// built (or the head does not point at a registered table).
    pub fn current_table(&self) -> (r: Option<&Table>)
        ensures
            match self.head {
                Some(k) => {
                    if k < self.tables@.len() {
                        r matches Some(t) && *t == self.tables@[k as int]
                    } else {
                        r is None
                    }
                },
                None => r is None,
            },
    {
        match self.head {
            Some(key) => {
                if key < self.tables.len() {
                    Some(&self.tables[key])
                } else {
                    None
                }
            },
            None => None,
        }
    }

    /// Builds a table from the builder's raw grid, registers it, and makes it
    /// the current table.
    ///
    /// The result is rectangular: exactly `row_cnt * col_cnt` cell keys,
    /// where `col_cnt` is the longest row's length and every position beyond
    /// a short row's own length holds the key of the interned empty string.
    /// The cell arena grows by interning the empty string and then every
    /// field in row-major order; the column arena grows by interning every
    /// column descriptor in order. Earlier tables keep their handles; only
    /// the head moves.
    #[verifier::loop_isolation(false)]
    #[verifier::rlimit(100)]
    pub fn load_table(&mut self, tb: &TableBuilder) -> (key: usize)
        requires
            old(self).wf(),
            tb.wf(),
            tb.row_cnt * tb.col_cnt <= usize::MAX,
        ensures
            final(self).wf(),
            key == old(self).tables@.len(),
            final(self).tables@.len() == old(self).tables@.len() + 1,
            forall|i: int|
                0 <= i < old(self).tables@.len() ==> final(self).tables@[i] == old(self).tables@[i],
            final(self).head == Some(key),
            final(self).cells@ == intern_fold(
                old(self).cells@,
                seq![Seq::<char>::empty()] + table_texts(tb.grid()),
            ),
            final(self).columns@ == intern_fold(old(self).columns@, col_views(tb.cols@)),
            ({
                let t = final(self).tables@[key as int];
                &&& t.row_cnt == tb.row_cnt
                &&& t.col_cnt == tb.col_cnt
                &&& t.cells@.len() == tb.row_cnt * tb.col_cnt
                &&& t.columns@.len() == tb.col_cnt
                &&& forall|r: int, c: int|
                    0 <= r < tb.row_cnt && 0 <= c < tb.col_cnt ==> {
                        let k = #[trigger] cell_key_at(t.cells@, tb.col_cnt as int, r, c);
                        &&& 0 <= k < final(self).cells@.len()
                        &&& final(self).cells@[k] == grid_cell(tb.grid(), r, c)
                        &&& (tb.grid()[r].len() <= c ==> k == store_key(
                            final(self).cells@,
                            Seq::<char>::empty(),
                        ))
                    }
                &&& forall|c: int|
                    0 <= c < tb.col_cnt ==> {
                        let k = #[trigger] t.columns@[c];
                        &&& k < final(self).columns@.len()
                        &&& final(self).columns@[k as int] == tb.cols@[c]@
                        &&& k as int == store_key(final(self).columns@, tb.cols@[c]@)
                    }
            }),
    {
        let ghost s0 = old(self).cells@;
        let ghost c0 = old(self).columns@;
        let ghost g = tb.grid();
        let ghost e = Seq::<char>::empty();

        proof {
            reveal_strlit("");
        }
        let empty_key = self.insert_cell("");
        proof {
            assert(""@ =~= e);
            assert(seq![e].drop_last() =~= Seq::<Seq<char>>::empty());
            assert(seq![e].last() == e);
            assert(intern_fold(s0, seq![e].drop_last()) == s0);
            assert(self.cells@ == intern_fold(s0, seq![e]));
        }

        let cc = tb.col_cnt;
        let total = tb.row_cnt * cc;
        let mut cells: Vec<usize> = Vec::new();
        while cells.len() < total
            invariant
                cells@.len() <= total,
                forall|p: int| 0 <= p < cells@.len() ==> cells@[p] == empty_key,
            decreases total - cells@.len(),
        {
            cells.push(empty_key);
        }

        proof {
            assert(g.take(0) =~= Seq::<Seq<Seq<char>>>::empty());
            assert(seq![e] + table_texts(g.take(0)) =~= seq![e]);
            assert forall|ri: int, ci: int| 0 <= ri < g.len() && 0 <= ci < cc implies #[trigger]
            cell_key_at(cells@, cc as int, ri, ci) == empty_key by {
                lemma_rc_index(ri, ci, g.len() as int, cc as int);
            }
        }

        let mut r: usize = 0;
        while r < tb.rows.len()
            invariant
                r <= g.len(),
                self.wf(),
                self.tables == old(self).tables,
                self.head == old(self).head,
                self.columns == old(self).columns,
                self.cells@ == intern_fold(s0, seq![e] + table_texts(g.take(r as int))),
                empty_key < self.cells@.len(),
                self.cells@[empty_key as int] == e,
                cells@.len() == total,
                forall|ri: int, ci: int|
                    0 <= ri < g.len() && 0 <= ci < cc ==> {
                        let k = #[trigger] cell_key_at(cells@, cc as int, ri, ci);
                        if ri < r {
                            &&& 0 <= k < self.cells@.len()
                            &&& self.cells@[k] == grid_cell(g, ri, ci)
                            &&& (g[ri].len() <= ci ==> k == empty_key)
                        } else {
                            k == empty_key
                        }
                    },
            decreases g.len() - r,
        {
            let row = &tb.rows[r];
            let rl = row.len();
            proof {
                lemma_row_len_bounded(g, r as int);
                assert(g[r as int] == row.deep_view());
                assert(g[r as int].len() == row@.len());
            }
            let mut c: usize = 0;
            while c < rl
                invariant
                    r < g.len(),
                    c <= rl,
                    rl == g[r as int].len(),
                    rl <= cc,
                    row == tb.rows@[r as int],
                    self.wf(),
                    self.tables == old(self).tables,
                    self.head == old(self).head,
                    self.columns == old(self).columns,
                    self.cells@ == intern_fold(
                        s0,
                        seq![e] + table_texts(g.take(r as int)) + g[r as int].take(c as int),
                    ),
                    empty_key < self.cells@.len(),
                    self.cells@[empty_key as int] == e,
                    cells@.len() == total,
                    forall|ri: int, ci: int|
                        0 <= ri < g.len() && 0 <= ci < cc ==> {
                            let k = #[trigger] cell_key_at(cells@, cc as int, ri, ci);
                            if ri < r || (ri == r && ci < c) {
                                &&& 0 <= k < self.cells@.len()
                                &&& self.cells@[k] == grid_cell(g, ri, ci)
                                &&& (g[ri].len() <= ci ==> k == empty_key)
                            } else {
                                k == empty_key
                            }
                        },
                decreases rl - c,
            {
                let ghost cells_pre = self.cells@;
                let ghost keys_pre = cells@;
                let k = self.insert_cell(row[c].as_str());
                proof {
                    lemma_rc_index(r as int, c as int, g.len() as int, cc as int);
                    assert(row@[c as int]@ == g[r as int][c as int]);
                }
                cells.set(r * cc + c, k);
                c = c + 1;
                proof {
                    let prev = seq![e] + table_texts(g.take(r as int)) + g[r as int].take(
                        c as int - 1,
                    );
                    let cur = seq![e] + table_texts(g.take(r as int)) + g[r as int].take(c as int);
                    assert(cur =~= prev.push(g[r as int][c as int - 1]));
                    assert(cur.drop_last() =~= prev);
                    assert(self.cells@ == intern_fold(s0, cur));
                    assert forall|ri: int, ci: int| 0 <= ri < g.len() && 0 <= ci < cc implies {
                        let kk = #[trigger] cell_key_at(cells@, cc as int, ri, ci);
                        if ri < r || (ri == r && ci < c) {
                            &&& 0 <= kk < self.cells@.len()
                            &&& self.cells@[kk] == grid_cell(g, ri, ci)
                            &&& (g[ri].len() <= ci ==> kk == empty_key)
                        } else {
                            kk == empty_key
                        }
                    } by {
                        lemma_rc_index(ri, ci, g.len() as int, cc as int);
                        if ri == r && ci == c - 1 {
                            assert(cell_key_at(cells@, cc as int, ri, ci) == k);
                            assert(self.cells@[k as int] == g[r as int][c as int - 1]);
                        } else {
                            lemma_rc_distinct(ri, ci, r as int, c as int - 1, cc as int);
                            assert(cell_key_at(cells@, cc as int, ri, ci) == cell_key_at(
                                keys_pre,
                                cc as int,
                                ri,
                                ci,
                            ));
                        }
                    }
                }
            }
            r = r + 1;
            proof {
                assert(g.take(r as int).drop_last() =~= g.take(r as int - 1));
                assert(g.take(r as int).last() == g[r as int - 1]);
                assert(table_texts(g.take(r as int)) =~= table_texts(g.take(r as int - 1)) + g[
                    r as int - 1
                ]);
                assert(g[r as int - 1].take(rl as int) =~= g[r as int - 1]);
                assert(seq![e] + table_texts(g.take(r as int)) =~= seq![e] + table_texts(
                    g.take(r as int - 1),
                ) + g[r as int - 1].take(rl as int));
                assert forall|ri: int, ci: int| 0 <= ri < g.len() && 0 <= ci < cc implies {
                    let k = #[trigger] cell_key_at(cells@, cc as int, ri, ci);
                    if ri < r {
                        &&& 0 <= k < self.cells@.len()
                        &&& self.cells@[k] == grid_cell(g, ri, ci)
                        &&& (g[ri].len() <= ci ==> k == empty_key)
                    } else {
                        k == empty_key
                    }
                } by {
                    if ri == r - 1 && ci >= g[ri].len() {
                        assert(cell_key_at(cells@, cc as int, ri, ci) == empty_key);
                        assert(grid_cell(g, ri, ci) == e);
                    }
                }
            }
        }
        proof {
            assert(g.take(g.len() as int) =~= g);
        }

        let ghost s_done = self.cells@;
        let mut tcols: Vec<usize> = Vec::new();
        let ghost cviews = col_views(tb.cols@);
        proof {
            assert(cviews.take(0) =~= Seq::<ColumnView>::empty());
        }
        let mut ci: usize = 0;
        while ci < tb.cols.len()
            invariant
                ci <= tb.cols@.len(),
                tcols@.len() == ci,
                self.wf(),
                self.tables == old(self).tables,
                self.head == old(self).head,
                self.cells@ == s_done,
                self.columns@ == intern_fold(c0, cviews.take(ci as int)),
                forall|j: int|
                    0 <= j < ci ==> {
                        let k = #[trigger] tcols@[j];
                        &&& k < self.columns@.len()
                        &&& self.columns@[k as int] == tb.cols@[j]@
                    },
            decreases tb.cols@.len() - ci,
        {
            let ghost cols_pre = self.columns@;
            let col = Column { header: tb.cols[ci].header.clone(), width: tb.cols[ci].width };
            proof {
                assert(col@ =~= tb.cols@[ci as int]@);
            }
            let k = self.insert_col(col);
            tcols.push(k);
            ci = ci + 1;
            proof {
                assert(cviews.take(ci as int).drop_last() =~= cviews.take(ci as int - 1));
                assert(cviews.take(ci as int).last() == tb.cols@[ci as int - 1]@);
                assert(self.columns@ == intern_fold(c0, cviews.take(ci as int)));
            }
        }
        proof {
            assert(cviews.take(tb.cols@.len() as int) =~= cviews);
        }

        let key = self.tables.len();
        let table = Table { cells, columns: tcols, row_cnt: tb.row_cnt, col_cnt: cc };
        self.tables.push(table);
        self.head = Some(key);
        proof {
            assert(g.len() == tb.row_cnt);
            assert forall|p: int| 0 <= p < table.cells@.len() implies (#[trigger] table.cells@[p])
                < self.cells@.len() by {
                lemma_pos_decompose(p, g.len() as int, cc as int);
                let ri = p / (cc as int);
                let pci = p % (cc as int);
                assert(cell_key_at(table.cells@, cc as int, ri, pci) == table.cells@[p] as int);
            }
            assert(table_wf(table, self.cells@.len(), self.columns@.len()));
            assert forall|t: int| 0 <= t < self.tables@.len() implies table_wf(
                #[trigger] self.tables@[t],
                self.cells@.len(),
                self.columns@.len(),
            ) by {
                if t < key {
                    assert(table_wf(
                        old(self).tables@[t],
                        old(self).cells@.len(),
                        old(self).columns@.len(),
                    ));
                    crate::sutoa::lemma_intern_fold_prefix(
                        s0,
                        seq![e] + table_texts(g),
                    );
                    crate::sutoa::lemma_intern_fold_prefix(c0, cviews);
                }
            }
            assert forall|rr: int, c: int| 0 <= rr < tb.row_cnt && 0 <= c < tb.col_cnt implies {
                let k = #[trigger] cell_key_at(table.cells@, tb.col_cnt as int, rr, c);
                &&& 0 <= k < self.cells@.len()
                &&& self.cells@[k] == grid_cell(tb.grid(), rr, c)
                &&& (tb.grid()[rr].len() <= c ==> k == store_key(
                    self.cells@,
                    Seq::<char>::empty(),
                ))
            } by {
                lemma_rc_index(rr, c, tb.row_cnt as int, cc as int);
                if tb.grid()[rr].len() <= c {
                    lemma_store_key_unique(self.cells@, e, empty_key as int);
                }
            }
            assert forall|c: int| 0 <= c < tb.col_cnt implies {
                let k = #[trigger] table.columns@[c];
                &&& k < self.columns@.len()
                &&& self.columns@[k as int] == tb.cols@[c]@
                &&& k as int == store_key(self.columns@, tb.cols@[c]@)
            } by {
                lemma_store_key_unique(self.columns@, tb.cols@[c]@, table.columns@[c] as int);
            }
        }
        key
    }

    /// Builds a table directly from a raw grid: stages every row in a fresh
    /// builder in order, then builds, registers and makes it current exactly
    /// as [`Database::load_table`] does.
    pub fn load_grid(&mut self, grid: Vec<Vec<String>>) -> (key: usize)
        requires
            old(self).wf(),
            grid.deep_view().len() * max_row_len(grid.deep_view()) <= usize::MAX,
        ensures
            final(self).wf(),
            key == old(self).tables@.len(),
            final(self).tables@.len() == old(self).tables@.len() + 1,
            forall|i: int|
                0 <= i < old(self).tables@.len() ==> final(self).tables@[i] == old(self).tables@[i],
            final(self).head == Some(key),
            final(self).cells@ == intern_fold(
                old(self).cells@,
                seq![Seq::<char>::empty()] + table_texts(grid.deep_view()),
            ),
            final(self).columns@ == intern_fold(
                old(self).columns@,
                grid_col_views(grid.deep_view()),
            ),
            ({
                let gv = grid.deep_view();
                let t = final(self).tables@[key as int];
                &&& t.row_cnt == gv.len()
                &&& t.col_cnt as nat == max_row_len(gv)
                &&& t.cells@.len() == gv.len() * max_row_len(gv)
                &&& t.columns@.len() as nat == max_row_len(gv)
                &&& forall|r: int, c: int|
                    0 <= r < t.row_cnt && 0 <= c < t.col_cnt ==> {
                        let k = #[trigger] cell_key_at(t.cells@, t.col_cnt as int, r, c);
                        &&& 0 <= k < final(self).cells@.len()
                        &&& final(self).cells@[k] == grid_cell(gv, r, c)
                        &&& (gv[r].len() <= c ==> k == store_key(
                            final(self).cells@,
                            Seq::<char>::empty(),
                        ))
                    }
                &&& forall|c: int|
                    0 <= c < t.col_cnt ==> {
                        let k = #[trigger] t.columns@[c];
                        &&& k < final(self).columns@.len()
                        &&& final(self).columns@[k as int] == grid_col_views(gv)[c]
                    }
            }),
    {
        let ghost gv = grid.deep_view();
        let mut tb = TableBuilder::new();
        let mut g = grid;
        proof {
            assert(tb.grid() + g.deep_view() =~= gv);
        }
        while g.len() > 0
            invariant
                tb.wf(),
                tb.grid() + g.deep_view() == gv,
            decreases g@.len(),
        {
            let ghost g_pre = g.deep_view();
            let row = g.remove(0);
            tb.add_row(row);
            proof {
                assert(g_pre[0] == row.deep_view());
                assert(g.deep_view() =~= g_pre.skip(1));
                assert(tb.grid() + g.deep_view() =~= gv);
            }
        }
        proof {
            assert(g.deep_view() =~= Seq::<Seq<Seq<char>>>::empty());
            assert(tb.grid() =~= gv);
            assert(tb.grid() == gv);
            assert forall|cx: int| 0 <= cx < tb.cols@.len() implies col_views(tb.cols@)[cx]
                =~~= grid_col_views(gv)[cx] by {
                assert(tb.cols@[cx].header@ =~= Seq::<char>::empty());
            }
            assert(col_views(tb.cols@) =~~= grid_col_views(gv));
        }
        self.load_table(&tb)
    }

    /// The extent of a raw grid: its row count and its longest row's length.
    pub fn dbl_vec_area(dblvec: &[Vec<String>]) -> (r: Pos)
        ensures
            r.row == dblvec@.len(),
            r.col as nat == max_row_len(dblvec.deep_view()),
    {
        let ghost dv = dblvec.deep_view();
        let mut rows: usize = 0;
        let mut cols: usize = 0;
        proof {
            assert(dv.take(0) =~= Seq::<Seq<Seq<char>>>::empty());
        }
        while rows < dblvec.len()
            invariant
                dv == dblvec.deep_view(),
                dv.len() == dblvec@.len(),
                rows <= dblvec@.len(),
                cols as nat == max_row_len(dv.take(rows as int)),
            decreases dblvec@.len() - rows,
        {
            let l = dblvec[rows].len();
            proof {
                assert(dv.take(rows as int + 1).drop_last() =~= dv.take(rows as int));
                assert(dv.take(rows as int + 1).last() == dv[rows as int]);
                assert(dv[rows as int].len() == dblvec@[rows as int]@.len());
            }
            if l > cols {
                cols = l;
            }
            rows = rows + 1;
        }
        proof {
            assert(dv.take(dblvec@.len() as int) =~= dv);
        }
        Pos { row: rows, col: cols }
    }
}

/// A column's recorded width is the maximum text length among the cells
/// placed at that column index: no cell there is wider, and unless the width
/// is zero some cell reaches it.
pub proof fn lemma_col_width_is_max(rows: Seq<Seq<Seq<char>>>, c: int)
    ensures
        forall|r: int|
            0 <= r < rows.len() ==> field_width(#[trigger] rows[r], c) <= col_width(rows, c),
        col_width(rows, c) == 0 || exists|r: int|
            0 <= r < rows.len() && field_width(#[trigger] rows[r], c) == col_width(rows, c),
    decreases rows.len(),
{
    if rows.len() > 0 {
        let front = rows.drop_last();
        lemma_col_width_is_max(front, c);
        assert forall|r: int| 0 <= r < rows.len() implies field_width(#[trigger] rows[r], c)
            <= col_width(rows, c) by {
            if r < rows.len() - 1 {
                assert(front[r] == rows[r]);
            } else {
                assert(rows[r] == rows.last());
            }
        }
        if col_width(rows, c) != 0 {
            if field_width(rows.last(), c) == col_width(rows, c) {
                assert(rows[rows.len() - 1] == rows.last());
            } else {
                assert(col_width(rows, c) == col_width(front, c));
                let r = choose|r: int|
                    0 <= r < front.len() && field_width(#[trigger] front[r], c) == col_width(
                        front,
                        c,
                    );
                assert(front[r] == rows[r]);
                assert(field_width(rows[r], c) == col_width(rows, c));
            }
        }
    }
}

/// The recorded widths do not depend on the order rows were added in: two
/// grids holding the same rows (however arranged) give every column index the
/// same width.
pub proof fn lemma_col_width_order_independent(
    rows1: Seq<Seq<Seq<char>>>,
    rows2: Seq<Seq<Seq<char>>>,
    c: int,
)
    requires
        rows1.to_multiset() == rows2.to_multiset(),
    ensures
        col_width(rows1, c) == col_width(rows2, c),
{
    rows1.to_multiset_ensures();
    rows2.to_multiset_ensures();
    lemma_col_width_is_max(rows1, c);
    lemma_col_width_is_max(rows2, c);
    if col_width(rows1, c) != 0 {
        let r = choose|r: int|
            0 <= r < rows1.len() && field_width(#[trigger] rows1[r], c) == col_width(rows1, c);
        assert(rows1.contains(rows1[r]));
        assert(rows1.to_multiset().count(rows1[r]) > 0);
        assert(rows2.to_multiset().count(rows1[r]) > 0);
        assert(rows2.contains(rows1[r]));
        let r2 = choose|i: int| 0 <= i < rows2.len() && rows2[i] == rows1[r];
        assert(field_width(rows2[r2], c) <= col_width(rows2, c));
        assert(col_width(rows1, c) <= col_width(rows2, c));
    }
    if col_width(rows2, c) != 0 {
        let r = choose|r: int|
            0 <= r < rows2.len() && field_width(#[trigger] rows2[r], c) == col_width(rows2, c);
        assert(rows2.contains(rows2[r]));
        assert(rows2.to_multiset().count(rows2[r]) > 0);
        assert(rows1.to_multiset().count(rows2[r]) > 0);
        assert(rows1.contains(rows2[r]));
        let r1 = choose|i: int| 0 <= i < rows1.len() && rows1[i] == rows2[r];
        assert(field_width(rows1[r1], c) <= col_width(rows1, c));
        assert(col_width(rows2, c) <= col_width(rows1, c));
    }
}

/// Column deduplication: two interned descriptors share their key exactly
/// when both their header and their width agree; differing in either field
/// yields distinct keys.
pub proof fn lemma_column_dedup(store: Seq<ColumnView>, c1: ColumnView, c2: ColumnView)
    requires
        dupfree(store),
        has_val(store, c1),
        has_val(store, c2),
    ensures
        store_key(store, c1) == store_key(store, c2) <==> (c1.header == c2.header && c1.width
            == c2.width),
{
    let k1 = store_key(store, c1);
    let k2 = store_key(store, c2);
    assert(0 <= k1 < store.len() && store[k1] == c1);
    assert(0 <= k2 < store.len() && store[k2] == c2);
    if c1.header == c2.header && c1.width == c2.width {
        assert(c1 =~= c2);
        lemma_store_key_unique(store, c2, k1);
    }
}

/// A database whose arenas have only grown, with tables, head and the arenas'
/// well-formedness kept, is still well formed.
proof fn lemma_database_wf_after_growth(pre: Database, post: Database)
    requires
        pre.wf(),
        post.cells.wf(),
        post.columns.wf(),
        post.tables == pre.tables,
        post.head == pre.head,
        pre.cells@.len() <= post.cells@.len(),
        pre.columns@.len() <= post.columns@.len(),
    ensures
        post.wf(),
{
    assert forall|t: int| 0 <= t < post.tables@.len() implies table_wf(
        #[trigger] post.tables@[t],
        post.cells@.len(),
        post.columns@.len(),
    ) by {
        assert(table_wf(pre.tables@[t], pre.cells@.len(), pre.columns@.len()));
    }
}

} // verus!
