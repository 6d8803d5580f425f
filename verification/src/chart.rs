//! The parts of a chart that are not geometry: point shapes and the
//! selection of a point by clicking it.
use vstd::prelude::*;

verus! {

/// The shape drawn for the points of a series.
#[derive(Clone, Copy, Debug, PartialEq, Eq, Structural)]
pub enum PointShape {
    Circle,
    Square,
    Diamond,
}

/// A point of a chart: the index of its series and its index there.
#[derive(Clone, Copy, Debug, PartialEq, Eq, Structural)]
pub struct NodeId {
    pub series: usize,
    pub point: usize,
}

/// The selection after a point is clicked: the clicked point, unless it
/// was the selected one, which clears the selection.
pub open spec fn toggled(cur: Option<NodeId>, clicked: NodeId) -> Option<NodeId> {
    if cur == Some(clicked) {
        None
    } else {
        Some(clicked)
    }
}

/// The selection after a point is clicked.
pub fn toggle_selection(cur: Option<NodeId>, clicked: NodeId) -> (r: Option<NodeId>)
    ensures
        r == toggled(cur, clicked),
{
    match cur {
        Some(n) => if n == clicked {
            None
        } else {
            Some(clicked)
        },
        None => Some(clicked),
    }
}

/// Two clicks on a point give back the selection before them, when nothing
/// or that point was selected.
pub proof fn lemma_click_twice(cur: Option<NodeId>, n: NodeId)
    requires
        cur is None || cur == Some(n),
    ensures
        toggled(toggled(cur, n), n) == cur,
{
}

/// After a click, the clicked point is selected exactly when it was not
/// selected before.
pub proof fn lemma_click_selects(cur: Option<NodeId>, n: NodeId)
    ensures
        (toggled(cur, n) == Some(n)) == (cur != Some(n)),
        toggled(cur, n) is None == (cur == Some(n)),
{
}

} // verus!
