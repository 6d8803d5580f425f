//! The values of the "add a model" form: one text per metric label of the
//! chosen metric type.
use vstd::prelude::*;
use crate::backend::{MetricType, labels_of};

verus! {

/// One empty value per metric label of the type (the form's start).
pub fn empty_metric_values(t: MetricType) -> (v: Vec<String>)
    ensures
        v@.len() == labels_of(t).len(),
        forall|i: int| 0 <= i < v@.len() ==> (#[trigger] v@[i])@ == Seq::<char>::empty(),
{
    let n = t.metric_labels().len();
    let mut v: Vec<String> = Vec::new();
    for i in 0..n
        invariant
            v@.len() == i,
            forall|k: int| 0 <= k < v@.len() ==> (#[trigger] v@[k])@ == Seq::<char>::empty(),
    {
        v.push(String::new());
    }
    v
}

/// The value of the metric at `idx` becomes `value`; an index past the end
/// changes nothing.
pub fn set_metric_value(vals: &mut Vec<String>, idx: usize, value: String)
    ensures
        idx < old(vals)@.len() ==> final(vals)@ == old(vals)@.update(idx as int, value),
        idx >= old(vals)@.len() ==> final(vals)@ == old(vals)@,
{
    if idx < vals.len() {
        vals.set(idx, value);
    }
}

} // verus!
