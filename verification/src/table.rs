//! Cells and rows of the dense metrics table: the cell type with its
//! builders, the score column added to the headers, the merge of the
//! backend's rows with the user's own rows, and the text filter of the
//! weight inputs.
use vstd::prelude::*;
use crate::text::{string_of, chars_of};
use crate::number::is_digit;

verus! {

/// How the text of a cell is aligned.
#[derive(Clone, Copy, Debug, PartialEq, Eq, Structural)]
pub enum CellAlign {
    Left,
    Center,
    Right,
}

impl Default for CellAlign {
    fn default() -> (a: CellAlign)
        ensures
            a == CellAlign::Left,
    {
        CellAlign::Left
    }
}

/// One cell of the table: its text, whether it is bold, and its alignment.
#[derive(Clone, Debug, PartialEq)]
pub struct CellData {
    pub value: String,
    pub bold: bool,
    pub align: CellAlign,
}

/// The texts of a row of cells.
pub open spec fn values_of(cells: Seq<CellData>) -> Seq<Seq<char>> {
    cells.map_values(|c: CellData| c.value@)
}

/// Every cell of the row has the given weight and alignment.
pub open spec fn styled(cells: Seq<CellData>, bold: bool, align: CellAlign) -> bool {
    forall|i: int| 0 <= i < cells.len() ==> (#[trigger] cells[i]).bold == bold && cells[i].align
        == align
}

impl CellData {
    /// A plain, left-aligned cell holding `value`.
    pub fn new(value: &str) -> (c: CellData)
        ensures
            c.value@ == value@,
            !c.bold,
            c.align == CellAlign::Left,
    {
        CellData { value: String::from_str(value), bold: false, align: CellAlign::Left }
    }

    /// The same cell, bold.
    pub fn bold(self) -> (c: CellData)
        ensures
            c.value == self.value,
            c.bold,
            c.align == self.align,
    {
        let mut c = self;
        c.bold = true;
        c
    }

    /// The same cell, centred.
    pub fn center(self) -> (c: CellData)
        ensures
            c.value == self.value,
            c.bold == self.bold,
            c.align == CellAlign::Center,
    {
        let mut c = self;
        c.align = CellAlign::Center;
        c
    }

    /// The same cell, right-aligned.
    pub fn right(self) -> (c: CellData)
        ensures
            c.value == self.value,
            c.bold == self.bold,
            c.align == CellAlign::Right,
    {
        let mut c = self;
        c.align = CellAlign::Right;
        c
    }

    /// The same cell, left-aligned.
    pub fn left(self) -> (c: CellData)
        ensures
            c.value == self.value,
            c.bold == self.bold,
            c.align == CellAlign::Left,
    {
        let mut c = self;
        c.align = CellAlign::Left;
        c
    }
}

/// A cell holding the given characters, with the given style.
pub fn cell_of(cs: &[char], bold: bool, align: CellAlign) -> (c: CellData)
    ensures
        c.value@ == cs@,
        c.bold == bold,
        c.align == align,
{
    CellData { value: string_of(cs), bold, align }
}

/// The headers with the score column added at the end (bold `Оценка`).
pub fn with_score_column(headers: Vec<CellData>) -> (r: Vec<CellData>)
    ensures
        r@.len() == headers@.len() + 1,
        r@.take(headers@.len() as int) == headers@,
        r@.last().value@ == "Оценка"@,
        r@.last().bold,
        r@.last().align == CellAlign::Left,
{
    let mut r = headers;
    r.push(CellData::new("Оценка").bold());
    assert(r@.take(headers@.len() as int) =~= headers@);
    r
}

/// A row of the table with where it comes from: the backend, or the user's
/// own rows (with its index among them).
#[derive(Clone, Debug, PartialEq)]
pub struct RowEntry {
    pub cells: Vec<CellData>,
    pub is_user: bool,
    pub user_idx: usize,
}

/// The backend's rows followed by the user's own rows, each marked with
/// where it comes from.
pub fn combine_entries(rows: Vec<Vec<CellData>>, user_rows: Vec<Vec<CellData>>) -> (r: Vec<RowEntry>)
    ensures
        r@.len() == rows@.len() + user_rows@.len(),
        forall|i: int|
            0 <= i < rows@.len() ==> #[trigger] r@[i] == (RowEntry {
                cells: rows@[i],
                is_user: false,
                user_idx: 0,
            }),
        forall|j: int|
            0 <= j < user_rows@.len() ==> #[trigger] r@[rows@.len() + j] == (RowEntry {
                cells: user_rows@[j],
                is_user: true,
                user_idx: j as usize,
            }),
{
    let ghost rows0 = rows@;
    let ghost users0 = user_rows@;
    let mut rows = rows;
    let mut user_rows = user_rows;
    let mut r: Vec<RowEntry> = Vec::new();
    let n = rows.len();
    for i in 0..n
        invariant
            n == rows0.len(),
            rows@.len() == n,
            forall|k: int| i <= k < n ==> rows@[k] == rows0[k],
            r@.len() == i,
            forall|k: int|
                0 <= k < i ==> #[trigger] r@[k] == (RowEntry {
                    cells: rows0[k],
                    is_user: false,
                    user_idx: 0,
                }),
    {
        let mut cells: Vec<CellData> = Vec::new();
        std::mem::swap(&mut cells, &mut rows[i]);
        r.push(RowEntry { cells, is_user: false, user_idx: 0 });
    }
    let m = user_rows.len();
    for j in 0..m
        invariant
            n == rows0.len(),
            m == users0.len(),
            user_rows@.len() == m,
            forall|k: int| j <= k < m ==> user_rows@[k] == users0[k],
            r@.len() == n + j,
            forall|k: int|
                0 <= k < n ==> #[trigger] r@[k] == (RowEntry {
                    cells: rows0[k],
                    is_user: false,
                    user_idx: 0,
                }),
            forall|k: int|
                0 <= k < j ==> #[trigger] r@[n + k] == (RowEntry {
                    cells: users0[k],
                    is_user: true,
                    user_idx: k as usize,
                }),
    {
        let mut cells: Vec<CellData> = Vec::new();
        std::mem::swap(&mut cells, &mut user_rows[j]);
        r.push(RowEntry { cells, is_user: true, user_idx: j });
        assert(r@[n + j as int] == (RowEntry { cells: users0[j as int], is_user: true, user_idx: j }));
    }
    r
}

/// What a number input keeps of typed text: the ASCII digits and the first
/// dot, in order.
pub open spec fn decimal_filter(s: Seq<char>) -> Seq<char>
    decreases s.len(),
{
    if s.len() == 0 {
        Seq::empty()
    } else {
        let p = decimal_filter(s.drop_last());
        let c = s.last();
        if is_digit(c) || (c == '.' && !p.contains('.')) {
            p.push(c)
        } else {
            p
        }
    }
}

/// Keeps the ASCII digits and the first dot of typed text.
pub fn filter_decimal_input(raw: &str) -> (r: String)
    ensures
        r@ == decimal_filter(raw@),
{
    let s = chars_of(raw);
    let mut r: Vec<char> = Vec::new();
    let mut has_dot = false;
    for i in 0..s.len()
        invariant
            r@ == decimal_filter(s@.take(i as int)),
            has_dot == r@.contains('.'),
    {
        assert(s@.take(i + 1).drop_last() =~= s@.take(i as int));
        let c = s[i];
        let u = c as u32;
        let ghost before = r@;
        if 48 <= u && u <= 57 {
            r.push(c);
            assert(r@.contains('.') == before.contains('.')) by {
                if r@.contains('.') {
                    let k = choose|k: int| 0 <= k < r@.len() && r@[k] == '.';
                    if k == before.len() {
                        assert(is_digit(r@[k]));
                    } else {
                        assert(before[k] == '.');
                    }
                }
                if before.contains('.') {
                    let k = choose|k: int| 0 <= k < before.len() && before[k] == '.';
                    assert(r@[k] == '.');
                }
            }
        } else if c == '.' && !has_dot {
            r.push(c);
            has_dot = true;
            assert(r@[before.len() as int] == '.');
        }
    }
    assert(s@.take(s.len() as int) =~= s@);
    string_of(&r)
}

/// `s` with every trailing `c` removed (`str::trim_end_matches`).
pub open spec fn strip_trailing(s: Seq<char>, c: char) -> Seq<char>
    decreases s.len(),
{
    if s.len() > 0 && s.last() == c {
        strip_trailing(s.drop_last(), c)
    } else {
        s
    }
}

/// A formatted decimal without its trailing zeros, and without its dot
/// when no fraction digit is left.
pub open spec fn without_fraction_zeros(s: Seq<char>) -> Seq<char> {
    strip_trailing(strip_trailing(s, '0'), '.')
}

/// Removes every trailing `c`.
fn strip_trailing_chars(s: &[char], c: char) -> (r: Vec<char>)
    ensures
        r@ == strip_trailing(s@, c),
{
    let mut j: usize = s.len();
    assert(s@.take(j as int) =~= s@);
    while j > 0 && s[j - 1] == c
        invariant
            j <= s@.len(),
            strip_trailing(s@, c) == strip_trailing(s@.take(j as int), c),
        decreases j,
    {
        assert(s@.take(j as int).drop_last() =~= s@.take(j - 1));
        j -= 1;
    }
    assert(s@.take(j as int) =~= s@.subrange(0, j as int));
    crate::text::copy_range(s, 0, j)
}

/// A formatted weight shown without trailing zeros
/// (`trim_end_matches('0').trim_end_matches('.')`).
pub fn trim_fraction_zeros(s: &str) -> (r: String)
    ensures
        r@ == without_fraction_zeros(s@),
{
    let a = strip_trailing_chars(&chars_of(s), '0');
    let b = strip_trailing_chars(&a, '.');
    string_of(&b)
}

/// A text of digits with at most one dot.
pub open spec fn is_decimal_text(t: Seq<char>) -> bool {
    &&& forall|i: int| 0 <= i < t.len() ==> is_digit(#[trigger] t[i]) || t[i] == '.'
    &&& forall|i: int, j: int| 0 <= i < j < t.len() ==> !(#[trigger] t[i] == '.' && #[trigger] t[j] == '.')
}

proof fn lemma_filter_gives_decimal(s: Seq<char>)
    ensures
        is_decimal_text(decimal_filter(s)),
    decreases s.len(),
{
    if s.len() > 0 {
        lemma_filter_gives_decimal(s.drop_last());
        let p = decimal_filter(s.drop_last());
        let c = s.last();
        if is_digit(c) || (c == '.' && !p.contains('.')) {
            let q = p.push(c);
            assert forall|i: int, j: int| 0 <= i < j < q.len() implies !(#[trigger] q[i] == '.' && #[trigger] q[j] == '.') by {
                if j == p.len() && q[j] == '.' {
                    assert(!is_digit(c));
                    assert(q[i] == p[i]);
                    if q[i] == '.' {
                        assert(p.contains('.'));
                    }
                } else if j < p.len() {
                    assert(q[i] == p[i] && q[j] == p[j]);
                }
            }
            assert forall|i: int| 0 <= i < q.len() implies is_digit(#[trigger] q[i]) || q[i] == '.' by {
                if i < p.len() {
                    assert(q[i] == p[i]);
                }
            }
        }
    }
}

proof fn lemma_filter_keeps_decimal(t: Seq<char>)
    requires
        is_decimal_text(t),
    ensures
        decimal_filter(t) == t,
    decreases t.len(),
{
    if t.len() > 0 {
        let d = t.drop_last();
        assert(is_decimal_text(d)) by {
            assert forall|i: int, j: int| 0 <= i < j < d.len() implies !(#[trigger] d[i] == '.' && #[trigger] d[j] == '.') by {
                assert(d[i] == t[i] && d[j] == t[j]);
            }
            assert forall|i: int| 0 <= i < d.len() implies is_digit(#[trigger] d[i]) || d[i] == '.' by {
                assert(d[i] == t[i]);
            }
        }
        lemma_filter_keeps_decimal(d);
        let c = t.last();
        assert(is_digit(c) || c == '.') by {
            assert(is_digit(t[t.len() - 1]) || t[t.len() - 1] == '.');
        }
        if !is_digit(c) {
            assert(!d.contains('.')) by {
                if d.contains('.') {
                    let k = choose|k: int| 0 <= k < d.len() && d[k] == '.';
                    assert(t[k] == '.' && t[t.len() - 1] == '.');
                }
            }
        }
        assert(d.push(c) =~= t);
    }
}

/// Filtering typed text gives digits with at most one dot, and filtering
/// again changes nothing.
pub proof fn lemma_decimal_filter_idempotent(s: Seq<char>)
    ensures
        is_decimal_text(decimal_filter(s)),
        decimal_filter(decimal_filter(s)) == decimal_filter(s),
{
    lemma_filter_gives_decimal(s);
    lemma_filter_keeps_decimal(decimal_filter(s));
}

} // verus!
