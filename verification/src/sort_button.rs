//! The sort state of the dense table: which column it is sorted by and in
//! which direction, as the sort buttons cycle it.
use vstd::prelude::*;

verus! {

/// A sort direction.
#[derive(Debug, Clone, Copy, PartialEq, Eq, Structural)]
pub enum Sort {
    /// From highest to lowest.
    DESC,
    /// From lowest to highest.
    ASC,
}

impl Sort {
    /// The next direction, and whether the cycle ends (sorting is turned
    /// off) instead: descending goes to ascending, ascending ends.
    pub fn cycle(self) -> (r: (Sort, bool))
        ensures
            r == match self {
                Sort::DESC => (Sort::ASC, false),
                Sort::ASC => (Sort::DESC, true),
            },
    {
        match self {
            Sort::DESC => (Sort::ASC, false),
            Sort::ASC => (Sort::DESC, true),
        }
    }
}

impl Default for Sort {
    /// Sorting starts descending.
    fn default() -> (s: Sort)
        ensures
            s == Sort::DESC,
    {
        Sort::DESC
    }
}

/// The sort state after the button of column `col` is clicked: an unsorted
/// table becomes sorted by `col`, descending; the sorted column goes from
/// descending to ascending and then back to unsorted; the button of another
/// column changes nothing while a column is sorted.
pub open spec fn next_sort(current: Option<(usize, Sort)>, col: usize) -> Option<(usize, Sort)> {
    match current {
        Some((idx, s)) => if idx != col {
            current
        } else {
            match s {
                Sort::DESC => Some((idx, Sort::ASC)),
                Sort::ASC => None,
            }
        },
        None => Some((col, Sort::DESC)),
    }
}

/// The sort state after the button of column `col` is clicked.
pub fn next_sort_state(current: Option<(usize, Sort)>, col: usize) -> (r: Option<(usize, Sort)>)
    ensures
        r == next_sort(current, col),
{
    match current {
        Some((idx, sort)) => {
            if idx != col {
                return current;
            }
            let (new_sort, should_end) = sort.cycle();
            if should_end {
                None
            } else {
                Some((idx, new_sort))
            }
        },
        None => Some((col, Sort::default())),
    }
}

/// The arrow a column's sort button shows.
pub open spec fn indicator_of(sort_col: Option<(usize, Sort)>, col: usize) -> Seq<char> {
    match sort_col {
        Some((idx, Sort::ASC)) => if idx == col {
            "▲"@
        } else {
            "↕"@
        },
        Some((idx, Sort::DESC)) => if idx == col {
            "▼"@
        } else {
            "↕"@
        },
        None => "↕"@,
    }
}

/// The arrow a column's sort button shows: up when the table is sorted
/// ascending by it, down when descending, both ways otherwise.
pub fn sort_indicator(sort_col: Option<(usize, Sort)>, col: usize) -> (r: &'static str)
    ensures
        r@ == indicator_of(sort_col, col),
{
    match sort_col {
        Some((idx, Sort::ASC)) => if idx == col {
            "▲"
        } else {
            "↕"
        },
        Some((idx, Sort::DESC)) => if idx == col {
            "▼"
        } else {
            "↕"
        },
        None => "↕",
    }
}

/// Three clicks on the same column's button give back the state before
/// them, when the table was unsorted or sorted by that column.
pub proof fn lemma_three_clicks(current: Option<(usize, Sort)>, col: usize)
    requires
        current matches Some((idx, _)) ==> idx == col,
    ensures
        next_sort(next_sort(next_sort(current, col), col), col) == current,
{
}

/// While the table is sorted by a column, the buttons of the other columns
/// leave the state as it is.
pub proof fn lemma_other_column_inert(idx: usize, s: Sort, col: usize)
    requires
        idx != col,
    ensures
        next_sort(Some((idx, s)), col) == Some((idx, s)),
{
}

/// For every column the button cycles the same way: the first click sorts
/// descending (down arrow), the second ascending (up arrow), the third turns
/// sorting off (both-ways arrow).
pub proof fn lemma_sort_cycle_order(col: usize)
    ensures
        next_sort(None, col) == Some((col, Sort::DESC)),
        next_sort(Some((col, Sort::DESC)), col) == Some((col, Sort::ASC)),
        next_sort(Some((col, Sort::ASC)), col) == None::<(usize, Sort)>,
        indicator_of(next_sort(None, col), col) == "▼"@,
        indicator_of(next_sort(next_sort(None, col), col), col) == "▲"@,
        indicator_of(None, col) == "↕"@,
{
}

} // verus!
