//! Reading the precision/recall table of the charts page. The backend sends
//! either a flat table (a `model` column and one line per model and
//! threshold) or a wide one (a threshold column and `<model>_<metric>`
//! columns). Numbers stay text; only which rows are kept depends on whether
//! the threshold text is a number.
use vstd::prelude::*;
use crate::text::{
    first_line, count_char, count_chars, first_line_chars, last_index_of, eq_ci, views, opt_int,
    last_index_chars, copy_range, eq_ci_chars, chars_of, string_of, position, trim, field_text,
    strip_leading, nonblank, lines, trim_all, split_on, opt_view, field_chars, trim_chars,
    strip_leading_chars, nonblank_lines, trim_each, split_chars, find_name,
};
use crate::number::{is_float_text, is_nan_text, is_float_chars, is_nan_chars};
use crate::order::{sorted, locate, lemma_insert_sorted, lemma_sorted_unique};

verus! {

/// The separator of a table text: `;` unless its first line holds more
/// commas than semicolons.
pub open spec fn separator_of(text: Seq<char>) -> char {
    let f = first_line(text);
    if count_char(f, ';') >= count_char(f, ',') {
        ';'
    } else {
        ','
    }
}

/// The separator of a table text, on characters.
pub fn separator_of_chars(text: &[char]) -> (c: char)
    ensures
        c == separator_of(text@),
{
    let first = first_line_chars(text);
    let semis = count_chars(&first, ';');
    let commas = count_chars(&first, ',');
    if semis >= commas {
        ';'
    } else {
        ','
    }
}

/// The separator of a table text: `;` unless its first line holds more
/// commas than semicolons.
pub fn detect_separator(text: &str) -> (c: char)
    ensures
        c == separator_of(text@),
{
    separator_of_chars(&crate::text::chars_of(text))
}

/// The model a wide header names: what precedes its last `_`.
pub open spec fn header_model(h: Seq<char>) -> Option<Seq<char>> {
    match last_index_of(h, '_') {
        Some(p) => Some(h.take(p)),
        None => None,
    }
}

/// The metric a wide header names: what follows its last `_`.
pub open spec fn header_metric(h: Seq<char>) -> Seq<char> {
    match last_index_of(h, '_') {
        Some(p) => h.skip(p + 1),
        None => h,
    }
}

/// The metric is the precision (kind 0), the recall (kind 1) or the F1
/// score (kind 2, `f1` or `f1_score`), ignoring ASCII case.
pub open spec fn metric_matches(metric: Seq<char>, kind: int) -> bool {
    if kind == 0 {
        eq_ci(metric, "precision"@)
    } else if kind == 1 {
        eq_ci(metric, "recall"@)
    } else {
        eq_ci(metric, "f1"@) || eq_ci(metric, "f1_score"@)
    }
}

/// Column `j` is not the threshold column and belongs to the model `key`.
pub open spec fn model_column(hs: Seq<Seq<char>>, thr: int, j: int, key: Seq<char>) -> bool {
    j != thr && header_model(hs[j]) == Some(key)
}

/// The last column before `upto` that gives the metric of the given kind
/// for the model `key` (later columns override earlier ones).
pub open spec fn last_column(hs: Seq<Seq<char>>, thr: int, key: Seq<char>, kind: int, upto: int) -> Option<int>
    decreases upto,
{
    if upto <= 0 {
        None
    } else {
        let j = upto - 1;
        if model_column(hs, thr, j, key) && metric_matches(header_metric(hs[j]), kind) {
            Some(j)
        } else {
            last_column(hs, thr, key, kind, j)
        }
    }
}

/// Some column before `upto` belongs to the model `key`.
pub open spec fn names_model(hs: Seq<Seq<char>>, thr: int, key: Seq<char>, upto: int) -> bool {
    exists|j: int| 0 <= j < upto && #[trigger] model_column(hs, thr, j, key)
}

/// A model of a wide table with the columns of its precision, recall and
/// F1 score.
pub type WideView = (Seq<char>, Option<int>, Option<int>, Option<int>);

/// The models of the columns.
pub open spec fn keys_of(cs: Seq<WideView>) -> Seq<Seq<char>> {
    cs.map_values(|c: WideView| c.0)
}

/// `cs` lists, in increasing order and once each, every model that the
/// headers before `upto` name, each with the last column of each metric.
pub open spec fn wide_columns_ok(hs: Seq<Seq<char>>, thr: int, cs: Seq<WideView>, upto: int) -> bool {
    &&& sorted(keys_of(cs))
    &&& forall|key: Seq<char>| keys_of(cs).contains(key) <==> names_model(hs, thr, key, upto)
    &&& forall|i: int|
        0 <= i < cs.len() ==> (#[trigger] cs[i]).1 == last_column(hs, thr, cs[i].0, 0, upto)
            && cs[i].2 == last_column(hs, thr, cs[i].0, 1, upto) && cs[i].3 == last_column(
            hs,
            thr,
            cs[i].0,
            2,
            upto,
        )
}

/// The models of a wide table, in increasing order, with their columns
/// (what `BTreeMap` iteration gives in the table reader).
pub open spec fn wide_columns(hs: Seq<Seq<char>>, thr: int) -> Seq<WideView> {
    choose|cs: Seq<WideView>| wide_columns_ok(hs, thr, cs, hs.len() as int)
}

/// Two column lists that meet the description are the same list.
pub proof fn lemma_wide_columns_unique(hs: Seq<Seq<char>>, thr: int, a: Seq<WideView>, b: Seq<WideView>, upto: int)
    requires
        wide_columns_ok(hs, thr, a, upto),
        wide_columns_ok(hs, thr, b, upto),
    ensures
        a == b,
{
    lemma_sorted_unique(keys_of(a), keys_of(b));
    assert(a.len() == b.len()) by {
        assert(keys_of(a).len() == keys_of(b).len());
    }
    assert forall|i: int| 0 <= i < a.len() implies a[i] == b[i] by {
        assert(keys_of(a)[i] == keys_of(b)[i]);
    }
    assert(a =~= b);
}

/// A model of a wide table with the columns of its metrics.
#[derive(Clone, Debug, PartialEq)]
pub struct WideColumn {
    pub model: String,
    pub precision: Option<usize>,
    pub recall: Option<usize>,
    pub f1: Option<usize>,
}

/// The view of a wide column.
pub open spec fn wide_view(c: WideColumn) -> WideView {
    (c.model@, opt_int(c.precision), opt_int(c.recall), opt_int(c.f1))
}

/// The model of the parallel key and column vectors.
pub open spec fn wide_model(keys: Seq<Vec<char>>, cols: Seq<(Option<usize>, Option<usize>, Option<usize>)>) -> Seq<WideView> {
    Seq::new(
        keys.len(),
        |i: int| (keys[i]@, opt_int(cols[i].0), opt_int(cols[i].1), opt_int(cols[i].2)),
    )
}

/// One more header: the models other than the header's own keep their
/// columns.
proof fn lemma_step_other(hs: Seq<Seq<char>>, thr: int, i: int, key: Seq<char>)
    requires
        0 <= i < hs.len(),
        !model_column(hs, thr, i, key),
    ensures
        names_model(hs, thr, key, i + 1) == names_model(hs, thr, key, i),
        last_column(hs, thr, key, 0, i + 1) == last_column(hs, thr, key, 0, i),
        last_column(hs, thr, key, 1, i + 1) == last_column(hs, thr, key, 1, i),
        last_column(hs, thr, key, 2, i + 1) == last_column(hs, thr, key, 2, i),
{
    if names_model(hs, thr, key, i + 1) {
        let j = choose|j: int| 0 <= j < i + 1 && #[trigger] model_column(hs, thr, j, key);
        assert(j != i);
    }
}

/// The metric kind of a header's metric, 3 when it is none of the three.
fn metric_kind(metric: &[char]) -> (k: usize)
    ensures
        k <= 3,
        k == 0 <==> metric_matches(metric@, 0),
        k == 1 <==> metric_matches(metric@, 1),
        k == 2 <==> metric_matches(metric@, 2),
{
    proof {
        reveal_strlit("precision");
        reveal_strlit("recall");
        reveal_strlit("f1");
        reveal_strlit("f1_score");
    }
    if eq_ci_chars(metric, &chars_of("precision")) {
        0
    } else if eq_ci_chars(metric, &chars_of("recall")) {
        1
    } else if eq_ci_chars(metric, &chars_of("f1")) || eq_ci_chars(metric, &chars_of("f1_score")) {
        2
    } else {
        3
    }
}

/// The models named by the headers of a wide table (every header but the
/// threshold column that holds a `_`), in increasing order, each with the
/// last column of its precision, recall and F1 score.
pub fn wide_columns_of(hs: &Vec<Vec<char>>, thr: usize) -> (r: Vec<WideColumn>)
    ensures
        r@.map_values(|c: WideColumn| wide_view(c)) == wide_columns(views(hs@), thr as int),
        wide_columns_ok(views(hs@), thr as int, wide_columns(views(hs@), thr as int), hs@.len() as int),
{
    let ghost hv = views(hs@);
    let mut keys: Vec<Vec<char>> = Vec::new();
    let mut cols: Vec<(Option<usize>, Option<usize>, Option<usize>)> = Vec::new();
    proof {
        assert(keys_of(wide_model(keys@, cols@)) =~= Seq::<Seq<char>>::empty());
    }
    for i in 0..hs.len()
        invariant
            hv == views(hs@),
            keys@.len() == cols@.len(),
            views(keys@) == keys_of(wide_model(keys@, cols@)),
            wide_columns_ok(hv, thr as int, wide_model(keys@, cols@), i as int),
            forall|k: int| 0 <= k < cols@.len() ==> {
                &&& (#[trigger] cols@[k]).0 matches Some(c) ==> c < i
                &&& cols@[k].1 matches Some(c) ==> c < i
                &&& cols@[k].2 matches Some(c) ==> c < i
            },
    {
        let ghost old_cs = wide_model(keys@, cols@);
        let pos: Option<usize> = if i == thr {
            None
        } else {
            last_index_chars(&hs[i], '_')
        };
        assert(i != thr ==> opt_int(pos) == last_index_of(hv[i as int], '_'));
        match pos {
            None => {
                assert(wide_columns_ok(hv, thr as int, old_cs, i + 1)) by {
                    assert forall|key: Seq<char>| !model_column(hv, thr as int, i as int, key) by {}
                    assert forall|key: Seq<char>| keys_of(old_cs).contains(key) <==> names_model(hv, thr as int, key, i + 1) by {
                        lemma_step_other(hv, thr as int, i as int, key);
                    }
                    assert forall|k: int| 0 <= k < old_cs.len() implies (#[trigger] old_cs[k]).1 == last_column(hv, thr as int, old_cs[k].0, 0, i + 1)
                        && old_cs[k].2 == last_column(hv, thr as int, old_cs[k].0, 1, i + 1)
                        && old_cs[k].3 == last_column(hv, thr as int, old_cs[k].0, 2, i + 1) by {
                        lemma_step_other(hv, thr as int, i as int, old_cs[k].0);
                    }
                }
            },
            Some(p) => {
                proof {
                    crate::text::lemma_last_index(hv[i as int], '_');
                }
                let h = &hs[i];
                assert(hv[i as int] == h@);
                assert(last_index_of(h@, '_') == Some(p as int));
                let hl = h.len();
                assert(p < hl);
                let model = copy_range(h, 0, p);
                let metric = copy_range(h, p + 1, hl);
                assert(model@ =~= hv[i as int].take(p as int));
                assert(metric@ =~= hv[i as int].skip(p + 1));
                assert(header_model(hv[i as int]) == Some(model@));
                assert(header_metric(hv[i as int]) == metric@);
                let kind = metric_kind(&metric);
                let ghost key = model@;
                assert(model_column(hv, thr as int, i as int, key));
                let (k, found) = locate(&keys, &model);
                if found {
                    let old = cols[k];
                    let updated = if kind == 0 {
                        (Some(i), old.1, old.2)
                    } else if kind == 1 {
                        (old.0, Some(i), old.2)
                    } else if kind == 2 {
                        (old.0, old.1, Some(i))
                    } else {
                        old
                    };
                    cols.set(k, updated);
                    proof {
                        let cs = wide_model(keys@, cols@);
                        assert(keys_of(cs) =~= keys_of(old_cs));
                        assert(views(keys@) =~= keys_of(cs));
                        assert forall|key2: Seq<char>| keys_of(cs).contains(key2) <==> names_model(hv, thr as int, key2, i + 1) by {
                            if key2 != key {
                                lemma_step_other(hv, thr as int, i as int, key2);
                            } else {
                                assert(keys_of(cs)[k as int] == key);
                            }
                        }
                        assert forall|m: int| 0 <= m < cs.len() implies (#[trigger] cs[m]).1 == last_column(hv, thr as int, cs[m].0, 0, i + 1)
                            && cs[m].2 == last_column(hv, thr as int, cs[m].0, 1, i + 1)
                            && cs[m].3 == last_column(hv, thr as int, cs[m].0, 2, i + 1) by {
                            if m != k {
                                assert(cs[m] == old_cs[m]);
                                assert(keys_of(old_cs)[m] != key) by {
                                    crate::order::lemma_lex_irreflexive(key);
                                    if m < k {
                                        assert(crate::text::lex_lt(keys_of(old_cs)[m], keys_of(old_cs)[k as int]));
                                    } else {
                                        assert(crate::text::lex_lt(keys_of(old_cs)[k as int], keys_of(old_cs)[m]));
                                    }
                                }
                                lemma_step_other(hv, thr as int, i as int, cs[m].0);
                            }
                        }
                        assert(wide_columns_ok(hv, thr as int, cs, i + 1));
                    }
                } else {
                    let entry = (
                        if kind == 0 { Some(i) } else { None },
                        if kind == 1 { Some(i) } else { None },
                        if kind == 2 { Some(i) } else { None },
                    );
                    proof {
                        lemma_insert_sorted(views(keys@), k as int, key);
                        assert(!names_model(hv, thr as int, key, i as int)) by {
                            if names_model(hv, thr as int, key, i as int) {
                                assert(keys_of(old_cs).contains(key));
                                let m = choose|m: int| 0 <= m < keys_of(old_cs).len() && keys_of(old_cs)[m] == key;
                                assert(keys@[m]@ == key);
                            }
                        }
                        assert forall|kind2: int| 0 <= kind2 <= 2 implies last_column(hv, thr as int, key, kind2, i as int) is None by {
                            lemma_no_column(hv, thr as int, key, kind2, i as int);
                        }
                    }
                    keys.insert(k, model);
                    cols.insert(k, entry);
                    proof {
                        let cs = wide_model(keys@, cols@);
                        assert(keys_of(cs) =~= keys_of(old_cs).insert(k as int, key));
                        assert(views(keys@) =~= keys_of(cs));
                        assert forall|key2: Seq<char>| keys_of(cs).contains(key2) <==> names_model(hv, thr as int, key2, i + 1) by {
                            if key2 != key {
                                lemma_step_other(hv, thr as int, i as int, key2);
                                if keys_of(cs).contains(key2) {
                                    let m = choose|m: int| 0 <= m < keys_of(cs).len() && keys_of(cs)[m] == key2;
                                    if m < k {
                                        assert(keys_of(old_cs)[m] == key2);
                                    } else {
                                        assert(m > k);
                                        assert(keys_of(old_cs)[m - 1] == key2);
                                    }
                                }
                                if keys_of(old_cs).contains(key2) {
                                    let m = choose|m: int| 0 <= m < keys_of(old_cs).len() && keys_of(old_cs)[m] == key2;
                                    if m < k {
                                        assert(keys_of(cs)[m] == key2);
                                    } else {
                                        assert(keys_of(cs)[m + 1] == key2);
                                    }
                                }
                            } else {
                                assert(keys_of(cs)[k as int] == key);
                            }
                        }
                        assert forall|m: int| 0 <= m < cs.len() implies (#[trigger] cs[m]).1 == last_column(hv, thr as int, cs[m].0, 0, i + 1)
                            && cs[m].2 == last_column(hv, thr as int, cs[m].0, 1, i + 1)
                            && cs[m].3 == last_column(hv, thr as int, cs[m].0, 2, i + 1) by {
                            if m < k {
                                assert(cs[m] == old_cs[m]);
                                assert(keys_of(old_cs)[m] != key) by {
                                    crate::order::lemma_lex_irreflexive(key);
                                }
                                lemma_step_other(hv, thr as int, i as int, cs[m].0);
                            } else if m > k {
                                assert(cs[m] == old_cs[m - 1]);
                                assert(keys_of(old_cs)[m - 1] != key) by {
                                    crate::order::lemma_lex_irreflexive(key);
                                    if m - 1 > k {
                                        assert(crate::text::lex_lt(keys_of(old_cs)[k as int], keys_of(old_cs)[m - 1]));
                                        crate::order::lemma_lex_transitive(key, keys_of(old_cs)[k as int], keys_of(old_cs)[m - 1]);
                                    }
                                }
                                lemma_step_other(hv, thr as int, i as int, cs[m].0);
                            } else {
                                assert(cs[m].0 == key);
                                assert(header_metric(hv[i as int]) == metric@);
                                lemma_no_column(hv, thr as int, key, 0, i as int);
                                lemma_no_column(hv, thr as int, key, 1, i as int);
                                lemma_no_column(hv, thr as int, key, 2, i as int);
                                assert(cols@[k as int] == entry);
                            }
                        }
                        assert(wide_columns_ok(hv, thr as int, cs, i + 1));
                    }
                }
            },
        }
    }
    let mut r: Vec<WideColumn> = Vec::new();
    let ghost cs = wide_model(keys@, cols@);
    for m in 0..keys.len()
        invariant
            keys@.len() == cols@.len(),
            cs == wide_model(keys@, cols@),
            r@.map_values(|c: WideColumn| wide_view(c)) == cs.take(m as int),
    {
        let ghost before = r@.map_values(|c: WideColumn| wide_view(c));
        let c = WideColumn {
            model: string_of(&keys[m]),
            precision: cols[m].0,
            recall: cols[m].1,
            f1: cols[m].2,
        };
        r.push(c);
        assert(r@.map_values(|c: WideColumn| wide_view(c)) =~= cs.take(m + 1)) by {
            assert(r@.map_values(|c: WideColumn| wide_view(c)) =~= before.push(wide_view(c)));
        }
    }
    assert(cs.take(keys.len() as int) =~= cs);
    proof {
        lemma_wide_columns_unique(hv, thr as int, cs, wide_columns(hv, thr as int), hv.len() as int);
    }
    r
}

/// A model no header before `upto` names has no column.
proof fn lemma_no_column(hs: Seq<Seq<char>>, thr: int, key: Seq<char>, kind: int, upto: int)
    requires
        !names_model(hs, thr, key, upto),
    ensures
        last_column(hs, thr, key, kind, upto) is None,
    decreases upto,
{
    if upto > 0 {
        assert(!model_column(hs, thr, upto - 1, key));
        assert(!names_model(hs, thr, key, upto - 1)) by {
            if names_model(hs, thr, key, upto - 1) {
                let j = choose|j: int| 0 <= j < upto - 1 && #[trigger] model_column(hs, thr, j, key);
                assert(model_column(hs, thr, j, key));
            }
        }
        lemma_no_column(hs, thr, key, kind, upto - 1);
    }
}

/// One row of the precision/recall table: the model, the threshold (a
/// number other than NaN) and the texts of its precision, recall and F1
/// score where the line has them.
#[derive(Clone, Debug, PartialEq)]
pub struct PrRow {
    pub model: String,
    pub threshold: String,
    pub precision: Option<String>,
    pub recall: Option<String>,
    pub f1: Option<String>,
}

/// The texts of a row.
pub type PrView = (Seq<char>, Seq<char>, Option<Seq<char>>, Option<Seq<char>>, Option<Seq<char>>);

/// The view of a row.
pub open spec fn pr_view(r: PrRow) -> PrView {
    (r.model@, r.threshold@, opt_view(r.precision), opt_view(r.recall), opt_view(r.f1))
}

/// The views of rows.
pub open spec fn pr_views(rs: Seq<PrRow>) -> Seq<PrView> {
    rs.map_values(|r: PrRow| pr_view(r))
}

/// A threshold text that reads as a number other than NaN.
pub open spec fn threshold_ok(t: Seq<char>) -> bool {
    is_float_text(t) && !is_nan_text(t)
}

/// The index found, or the default.
pub open spec fn or_default(o: Option<int>, d: int) -> int {
    match o {
        Some(i) => i,
        None => d,
    }
}

/// The columns of a flat table: threshold, precision, recall and F1 score,
/// found by name or else at positions 1 to 4 (`f1_score` is preferred to
/// `f1`).
pub open spec fn flat_columns(hs: Seq<Seq<char>>) -> (int, int, int, int) {
    (
        or_default(position(hs, "threshold"@), 1),
        or_default(position(hs, "precision"@), 2),
        or_default(position(hs, "recall"@), 3),
        match position(hs, "f1_score"@) {
            Some(i) => i,
            None => or_default(position(hs, "f1"@), 4),
        },
    )
}

/// A line of `n` fields passes the length check (more fields than the F1
/// column) but lacks the model, threshold, precision or recall column; the
/// reader indexes past its end there.
pub open spec fn flat_line_panics(n: int, m: int, c: (int, int, int, int)) -> bool {
    n > c.3 && (n <= m || n <= c.0 || n <= c.1 || n <= c.2)
}

/// The rows of the body lines of a flat table: a line with no more fields
/// than the F1 column, without a model name, or whose threshold is not a
/// number (or is NaN) gives none.
pub open spec fn flat_rows(ls: Seq<Seq<char>>, sep: char, m: int, c: (int, int, int, int)) -> Seq<PrView>
    decreases ls.len(),
{
    if ls.len() == 0 {
        Seq::empty()
    } else {
        let prev = flat_rows(ls.drop_last(), sep, m, c);
        let f = split_on(ls.last(), sep);
        if f.len() <= c.3 || flat_line_panics(f.len() as int, m, c) {
            prev
        } else {
            let model = trim(f[m]);
            let t = trim(f[c.0]);
            if model.len() == 0 || !threshold_ok(t) {
                prev
            } else {
                prev.push((model, t, Some(trim(f[c.1])), Some(trim(f[c.2])), Some(trim(f[c.3]))))
            }
        }
    }
}

/// Some body line makes the flat reader index past its end.
pub open spec fn flat_panics(ls: Seq<Seq<char>>, sep: char, m: int, c: (int, int, int, int)) -> bool {
    exists|k: int| 0 <= k < ls.len() && flat_line_panics(split_on(#[trigger] ls[k], sep).len() as int, m, c)
}

/// The threshold column of a wide table: found by name, else the first.
pub open spec fn wide_threshold(hs: Seq<Seq<char>>) -> int {
    or_default(position(hs, "threshold"@), 0)
}

/// The rows one line of a wide table gives: one per model, in model order.
pub open spec fn wide_line(f: Seq<Seq<char>>, t: Seq<char>, cs: Seq<WideView>) -> Seq<PrView> {
    cs.map_values(|c: WideView| (c.0, t, field_text(f, c.1), field_text(f, c.2), field_text(f, c.3)))
}

/// The rows of the body lines of a wide table: lines whose threshold is a
/// number other than NaN give one row per model.
pub open spec fn wide_rows(ls: Seq<Seq<char>>, sep: char, thr: int, cs: Seq<WideView>) -> Seq<PrView>
    decreases ls.len(),
{
    if ls.len() == 0 {
        Seq::empty()
    } else {
        let prev = wide_rows(ls.drop_last(), sep, thr, cs);
        let f = split_on(ls.last(), sep);
        match field_text(f, Some(thr)) {
            Some(t) => if threshold_ok(t) {
                prev + wide_line(f, t, cs)
            } else {
                prev
            },
            None => prev,
        }
    }
}

/// The nonblank lines of the table text, after any leading byte order
/// marks.
pub open spec fn pr_lines(raw: Seq<char>) -> Seq<Seq<char>> {
    nonblank(lines(strip_leading(raw, '\u{feff}')))
}

/// The separator of the table text.
pub open spec fn pr_separator(raw: Seq<char>) -> char {
    separator_of(strip_leading(raw, '\u{feff}'))
}

/// The headers of the table text.
pub open spec fn pr_headers(raw: Seq<char>) -> Seq<Seq<char>> {
    trim_all(split_on(pr_lines(raw)[0], pr_separator(raw)))
}

/// The rows of the precision/recall table text: flat when a header is
/// `model`, wide otherwise.
pub open spec fn pr_table(raw: Seq<char>) -> Seq<PrView> {
    let ls = pr_lines(raw);
    let sep = pr_separator(raw);
    if ls.len() == 0 {
        Seq::empty()
    } else {
        let hs = pr_headers(raw);
        match position(hs, "model"@) {
            Some(m) => flat_rows(ls.skip(1), sep, m, flat_columns(hs)),
            None => {
                let thr = wide_threshold(hs);
                wide_rows(ls.skip(1), sep, thr, wide_columns(hs, thr))
            },
        }
    }
}

/// The reader would index past the end of a line of this table text.
pub open spec fn pr_table_panics(raw: Seq<char>) -> bool {
    let ls = pr_lines(raw);
    &&& ls.len() > 0
    &&& position(pr_headers(raw), "model"@) matches Some(m)
    &&& flat_panics(ls.skip(1), pr_separator(raw), m, flat_columns(pr_headers(raw)))
}

/// The index found, or the default.
fn or_default_of(o: Option<usize>, d: usize) -> (r: usize)
    ensures
        r == or_default(opt_int(o), d as int),
{
    match o {
        Some(i) => i,
        None => d,
    }
}

/// The columns of a flat table.
fn flat_columns_of(hs: &Vec<Vec<char>>) -> (c: (usize, usize, usize, usize))
    ensures
        (c.0 as int, c.1 as int, c.2 as int, c.3 as int) == flat_columns(views(hs@)),
{
    proof {
        reveal_strlit("threshold");
        reveal_strlit("precision");
        reveal_strlit("recall");
        reveal_strlit("f1_score");
        reveal_strlit("f1");
    }
    let t = or_default_of(find_name(hs, &chars_of("threshold")), 1);
    let p = or_default_of(find_name(hs, &chars_of("precision")), 2);
    let r = or_default_of(find_name(hs, &chars_of("recall")), 3);
    let f = match find_name(hs, &chars_of("f1_score")) {
        Some(i) => i,
        None => or_default_of(find_name(hs, &chars_of("f1")), 4),
    };
    (t, p, r, f)
}

/// Whether a threshold text is a number other than NaN.
fn threshold_ok_chars(t: &[char]) -> (b: bool)
    ensures
        b == threshold_ok(t@),
{
    is_float_chars(t) && !is_nan_chars(t)
}

/// A string holding the trimmed characters.
fn trimmed_string(s: &[char]) -> (r: String)
    ensures
        r@ == trim(s@),
{
    string_of(&trim_chars(s))
}

/// The rows of the body lines (`ls[1..]`) of a flat table.
fn parse_flat(ls: &Vec<Vec<char>>, m: usize, c: (usize, usize, usize, usize), sep: char) -> (rows: Vec<PrRow>)
    requires
        ls@.len() >= 1,
        !flat_panics(views(ls@).skip(1), sep, m as int, (c.0 as int, c.1 as int, c.2 as int, c.3 as int)),
    ensures
        pr_views(rows@) == flat_rows(views(ls@).skip(1), sep, m as int, (c.0 as int, c.1 as int, c.2 as int, c.3 as int)),
{
    let ghost body = views(ls@).skip(1);
    let ghost ci = (c.0 as int, c.1 as int, c.2 as int, c.3 as int);
    let mut rows: Vec<PrRow> = Vec::new();
    let n = ls.len() - 1;
    for j in 0..n
        invariant
            n == ls@.len() - 1,
            body == views(ls@).skip(1),
            ci == (c.0 as int, c.1 as int, c.2 as int, c.3 as int),
            !flat_panics(body, sep, m as int, ci),
            pr_views(rows@) == flat_rows(body.take(j as int), sep, m as int, ci),
    {
        assert(body.take(j + 1).drop_last() =~= body.take(j as int));
        assert(body.take(j + 1).last() == ls@[j + 1]@);
        assert(body[j as int] == ls@[j + 1]@);
        let f = split_chars(&ls[j + 1], sep);
        let ghost fv = views(f@);
        assert(!flat_line_panics(fv.len() as int, m as int, ci));
        let fl = f.len();
        if fl > c.3 && !(fl <= m || fl <= c.0 || fl <= c.1 || fl <= c.2) {
            let model = trim_chars(&f[m]);
            let t = trim_chars(&f[c.0]);
            if model.len() > 0 && threshold_ok_chars(&t) {
                let ghost before = pr_views(rows@);
                let row = PrRow {
                    model: string_of(&model),
                    threshold: string_of(&t),
                    precision: Some(trimmed_string(&f[c.1])),
                    recall: Some(trimmed_string(&f[c.2])),
                    f1: Some(trimmed_string(&f[c.3])),
                };
                rows.push(row);
                assert(pr_views(rows@) =~= before.push(pr_view(row)));
            }
        }
    }
    assert(body.take(n as int) =~= body);
    rows
}

/// The rows of the body lines (`ls[1..]`) of a wide table.
fn parse_wide(ls: &Vec<Vec<char>>, hs: &Vec<Vec<char>>, sep: char) -> (rows: Vec<PrRow>)
    requires
        ls@.len() >= 1,
    ensures
        pr_views(rows@) == wide_rows(
            views(ls@).skip(1),
            sep,
            wide_threshold(views(hs@)),
            wide_columns(views(hs@), wide_threshold(views(hs@))),
        ),
{
    proof {
        reveal_strlit("threshold");
    }
    let thr = or_default_of(find_name(hs, &chars_of("threshold")), 0);
    let cols = wide_columns_of(hs, thr);
    let ghost cs = cols@.map_values(|c: WideColumn| wide_view(c));
    let ghost body = views(ls@).skip(1);
    let mut rows: Vec<PrRow> = Vec::new();
    let n = ls.len() - 1;
    for j in 0..n
        invariant
            n == ls@.len() - 1,
            body == views(ls@).skip(1),
            cs == cols@.map_values(|c: WideColumn| wide_view(c)),
            pr_views(rows@) == wide_rows(body.take(j as int), sep, thr as int, cs),
    {
        assert(body.take(j + 1).drop_last() =~= body.take(j as int));
        assert(body.take(j + 1).last() == ls@[j + 1]@);
        let f = split_chars(&ls[j + 1], sep);
        let ghost fv = views(f@);
        match field_chars(&f, Some(thr)) {
            Some(t) => {
                if threshold_ok_chars(&t) {
                    let ghost start = pr_views(rows@);
                    for k in 0..cols.len()
                        invariant
                            cs == cols@.map_values(|c: WideColumn| wide_view(c)),
                            fv == views(f@),
                            pr_views(rows@) == start + wide_line(fv, t@, cs.take(k as int)),
                    {
                        let ghost before = pr_views(rows@);
                        let col = &cols[k];
                        let row = PrRow {
                            model: string_of(&chars_of(col.model.as_str())),
                            threshold: string_of(&t),
                            precision: match field_chars(&f, col.precision) {
                                Some(x) => Some(string_of(&x)),
                                None => None,
                            },
                            recall: match field_chars(&f, col.recall) {
                                Some(x) => Some(string_of(&x)),
                                None => None,
                            },
                            f1: match field_chars(&f, col.f1) {
                                Some(x) => Some(string_of(&x)),
                                None => None,
                            },
                        };
                        rows.push(row);
                        assert(pr_views(rows@) =~= start + wide_line(fv, t@, cs.take(k + 1))) by {
                            assert(pr_views(rows@) =~= before.push(pr_view(row)));
                            assert(wide_line(fv, t@, cs.take(k + 1)) =~= wide_line(fv, t@, cs.take(k as int)).push(pr_view(row)));
                        }
                    }
                    assert(cs.take(cols.len() as int) =~= cs);
                }
            },
            None => {},
        }
    }
    assert(body.take(n as int) =~= body);
    rows
}

/// The headers, lines and separator of a table text.
fn pr_parts(raw: &str) -> (r: (Vec<Vec<char>>, char))
    ensures
        views(r.0@) == pr_lines(raw@),
        r.1 == pr_separator(raw@),
{
    let text = strip_leading_chars(&chars_of(raw), '\u{feff}');
    let sep = separator_of_chars(&text);
    (nonblank_lines(&text), sep)
}

/// Whether the reader can read the table text without indexing past the
/// end of a line.
pub fn pr_csv_readable(raw: &str) -> (b: bool)
    ensures
        b == !pr_table_panics(raw@),
{
    proof {
        reveal_strlit("model");
    }
    let (ls, sep) = pr_parts(raw);
    if ls.len() == 0 {
        return true;
    }
    assert(views(ls@)[0] == ls@[0]@);
    let hs = trim_each(&split_chars(&ls[0], sep));
    assert(views(hs@) == pr_headers(raw@));
    match find_name(&hs, &chars_of("model")) {
        Some(m) => {
            let c = flat_columns_of(&hs);
            let ghost body = views(ls@).skip(1);
            let ghost ci = (c.0 as int, c.1 as int, c.2 as int, c.3 as int);
            let n = ls.len() - 1;
            for j in 0..n
                invariant
                    n == ls@.len() - 1,
                    body == views(ls@).skip(1),
                    ci == (c.0 as int, c.1 as int, c.2 as int, c.3 as int),
                    forall|k: int| 0 <= k < j ==> !flat_line_panics(split_on(#[trigger] body[k], sep).len() as int, m as int, ci),
                    position(pr_headers(raw@), "model"@) == Some(m as int),
                    flat_columns(pr_headers(raw@)) == ci,
                    pr_lines(raw@).skip(1) == body,
                    pr_separator(raw@) == sep,
                    pr_lines(raw@).len() > 0,
            {
                let fl = split_chars(&ls[j + 1], sep).len();
                assert(body[j as int] == ls@[j + 1]@);
                if fl > c.3 && (fl <= m || fl <= c.0 || fl <= c.1 || fl <= c.2) {
                    assert(flat_line_panics(split_on(body[j as int], sep).len() as int, m as int, ci));
                    assert(flat_panics(body, sep, m as int, ci));
                    return false;
                }
            }
            true
        },
        None => true,
    }
}

/// Reads the precision/recall table text sent by the backend.
pub fn parse_csv(raw: &str) -> (rows: Vec<PrRow>)
    requires
        !pr_table_panics(raw@),
    ensures
        pr_views(rows@) == pr_table(raw@),
{
    proof {
        reveal_strlit("model");
    }
    let (ls, sep) = pr_parts(raw);
    if ls.len() == 0 {
        let rows: Vec<PrRow> = Vec::new();
        assert(pr_views(rows@) =~= pr_table(raw@));
        return rows;
    }
    let hs = trim_each(&split_chars(&ls[0], sep));
    match find_name(&hs, &chars_of("model")) {
        Some(m) => {
            let c = flat_columns_of(&hs);
            parse_flat(&ls, m, c, sep)
        },
        None => parse_wide(&ls, &hs, sep),
    }
}

/// The rows of one model, in their order.
pub open spec fn model_rows(rs: Seq<PrView>, key: Seq<char>) -> Seq<PrView>
    decreases rs.len(),
{
    if rs.len() == 0 {
        Seq::empty()
    } else {
        let prev = model_rows(rs.drop_last(), key);
        if rs.last().0 == key {
            prev.push(rs.last())
        } else {
            prev
        }
    }
}

/// Some row belongs to the model `key`.
pub open spec fn has_rows(rs: Seq<PrView>, key: Seq<char>) -> bool {
    exists|i: int| 0 <= i < rs.len() && (#[trigger] rs[i]).0 == key
}

/// A model with its rows.
pub type GroupView = (Seq<char>, Seq<PrView>);

/// The models of the groups.
pub open spec fn group_keys(gs: Seq<GroupView>) -> Seq<Seq<char>> {
    gs.map_values(|g: GroupView| g.0)
}

/// `gs` lists, in increasing order and once each, every model of the rows,
/// each with its rows in their order.
pub open spec fn groups_ok(rs: Seq<PrView>, gs: Seq<GroupView>) -> bool {
    &&& sorted(group_keys(gs))
    &&& forall|key: Seq<char>| group_keys(gs).contains(key) <==> has_rows(rs, key)
    &&& forall|i: int| 0 <= i < gs.len() ==> (#[trigger] gs[i]).1 == model_rows(rs, gs[i].0)
}

/// The rows grouped by model, models in increasing order (what collecting
/// into a `BTreeMap<String, Vec<_>>` and walking it gives).
pub open spec fn groups_of(rs: Seq<PrView>) -> Seq<GroupView> {
    choose|gs: Seq<GroupView>| groups_ok(rs, gs)
}

/// Two groupings that meet the description are the same.
pub proof fn lemma_groups_unique(rs: Seq<PrView>, a: Seq<GroupView>, b: Seq<GroupView>)
    requires
        groups_ok(rs, a),
        groups_ok(rs, b),
    ensures
        a == b,
{
    assert forall|x: Seq<char>| group_keys(a).contains(x) <==> group_keys(b).contains(x) by {
        assert(group_keys(a).contains(x) <==> has_rows(rs, x));
        assert(group_keys(b).contains(x) <==> has_rows(rs, x));
    }
    lemma_sorted_unique(group_keys(a), group_keys(b));
    assert(a.len() == b.len()) by {
        assert(group_keys(a).len() == group_keys(b).len());
    }
    assert forall|i: int| 0 <= i < a.len() implies a[i] == b[i] by {
        assert(group_keys(a)[i] == group_keys(b)[i]);
    }
    assert(a =~= b);
}

/// A copy of a row.
fn copy_row(r: &PrRow) -> (c: PrRow)
    ensures
        pr_view(c) == pr_view(*r),
{
    let copy_opt = |o: &Option<String>| -> (x: Option<String>)
        ensures
            opt_view(x) == opt_view(*o),
        {
            match o {
                Some(s) => Some(s.clone()),
                None => None,
            }
        };
    PrRow {
        model: r.model.clone(),
        threshold: r.threshold.clone(),
        precision: copy_opt(&r.precision),
        recall: copy_opt(&r.recall),
        f1: copy_opt(&r.f1),
    }
}

/// The view of the parallel key and group vectors.
pub open spec fn group_model(keys: Seq<Vec<char>>, groups: Seq<Vec<PrRow>>) -> Seq<GroupView> {
    Seq::new(keys.len(), |i: int| (keys[i]@, pr_views(groups[i]@)))
}

/// The view of a model with its rows.
pub open spec fn group_view(g: (String, Vec<PrRow>)) -> GroupView {
    (g.0@, pr_views(g.1@))
}

/// Groups the rows by model, models in increasing order, each model's rows
/// in their order.
pub fn group_by_model(rows: &Vec<PrRow>) -> (r: Vec<(String, Vec<PrRow>)>)
    ensures
        r@.map_values(|g: (String, Vec<PrRow>)| group_view(g)) == groups_of(pr_views(rows@)),
        groups_ok(pr_views(rows@), groups_of(pr_views(rows@))),
{
    let ghost rv = pr_views(rows@);
    let mut keys: Vec<Vec<char>> = Vec::new();
    let mut groups: Vec<Vec<PrRow>> = Vec::new();
    proof {
        assert(group_keys(group_model(keys@, groups@)) =~= Seq::<Seq<char>>::empty());
    }
    for i in 0..rows.len()
        invariant
            rv == pr_views(rows@),
            keys@.len() == groups@.len(),
            views(keys@) == group_keys(group_model(keys@, groups@)),
            groups_ok(rv.take(i as int), group_model(keys@, groups@)),
    {
        let ghost old_gs = group_model(keys@, groups@);
        let ghost pre = rv.take(i as int);
        let ghost post = rv.take(i + 1);
        assert(post.drop_last() =~= pre);
        assert(post.last() == pr_view(rows@[i as int]));
        let key = chars_of(rows[i].model.as_str());
        let ghost kv = key@;
        let (k, found) = locate(&keys, &key);
        let row = copy_row(&rows[i]);
        assert(has_rows(post, kv)) by {
            assert(post[i as int].0 == kv);
        }
        assert forall|key2: Seq<char>| key2 != kv implies has_rows(post, key2) == has_rows(pre, key2)
            && model_rows(post, key2) == model_rows(pre, key2) by {
            if has_rows(post, key2) {
                let j = choose|j: int| 0 <= j < post.len() && (#[trigger] post[j]).0 == key2;
                assert(j != i);
                assert(pre[j] == post[j]);
            }
            if has_rows(pre, key2) {
                let j = choose|j: int| 0 <= j < pre.len() && (#[trigger] pre[j]).0 == key2;
                assert(post[j] == pre[j]);
            }
        }
        assert(model_rows(post, kv) == model_rows(pre, kv).push(pr_view(row)));
        if found {
            let mut g = Vec::new();
            std::mem::swap(&mut g, &mut groups[k]);
            let ghost gv = pr_views(g@);
            g.push(row);
            assert(pr_views(g@) =~= gv.push(pr_view(row)));
            groups.set(k, g);
            proof {
                let gs = group_model(keys@, groups@);
                assert(group_keys(gs) =~= group_keys(old_gs));
                assert(views(keys@) =~= group_keys(gs));
                assert forall|key2: Seq<char>| group_keys(gs).contains(key2) <==> has_rows(post, key2) by {
                    if key2 == kv {
                        assert(group_keys(gs)[k as int] == kv);
                    }
                }
                assert forall|m: int| 0 <= m < gs.len() implies (#[trigger] gs[m]).1 == model_rows(post, gs[m].0) by {
                    if m != k {
                        assert(gs[m] == old_gs[m]);
                        assert(group_keys(old_gs)[m] != kv) by {
                            crate::order::lemma_lex_irreflexive(kv);
                            if m < k {
                                assert(crate::text::lex_lt(group_keys(old_gs)[m], group_keys(old_gs)[k as int]));
                            } else {
                                assert(crate::text::lex_lt(group_keys(old_gs)[k as int], group_keys(old_gs)[m]));
                            }
                        }
                    } else {
                        assert(old_gs[m].0 == kv);
                    }
                }
                assert(groups_ok(post, gs));
            }
        } else {
            let mut g = Vec::new();
            g.push(row);
            proof {
                lemma_insert_sorted(views(keys@), k as int, kv);
                assert(!has_rows(pre, kv)) by {
                    if has_rows(pre, kv) {
                        assert(group_keys(old_gs).contains(kv));
                        let m = choose|m: int| 0 <= m < group_keys(old_gs).len() && group_keys(old_gs)[m] == kv;
                        assert(keys@[m]@ == kv);
                    }
                }
                lemma_no_rows(pre, kv);
                assert(pr_views(g@) =~= model_rows(post, kv));
            }
            keys.insert(k, key);
            groups.insert(k, g);
            proof {
                let gs = group_model(keys@, groups@);
                assert(group_keys(gs) =~= group_keys(old_gs).insert(k as int, kv));
                assert(views(keys@) =~= group_keys(gs));
                assert forall|key2: Seq<char>| group_keys(gs).contains(key2) <==> has_rows(post, key2) by {
                    if key2 != kv {
                        if group_keys(gs).contains(key2) {
                            let m = choose|m: int| 0 <= m < group_keys(gs).len() && group_keys(gs)[m] == key2;
                            if m < k {
                                assert(group_keys(old_gs)[m] == key2);
                            } else {
                                assert(m > k);
                                assert(group_keys(old_gs)[m - 1] == key2);
                            }
                        }
                        if group_keys(old_gs).contains(key2) {
                            let m = choose|m: int| 0 <= m < group_keys(old_gs).len() && group_keys(old_gs)[m] == key2;
                            if m < k {
                                assert(group_keys(gs)[m] == key2);
                            } else {
                                assert(group_keys(gs)[m + 1] == key2);
                            }
                        }
                    } else {
                        assert(group_keys(gs)[k as int] == kv);
                    }
                }
                assert forall|m: int| 0 <= m < gs.len() implies (#[trigger] gs[m]).1 == model_rows(post, gs[m].0) by {
                    if m < k {
                        assert(gs[m] == old_gs[m]);
                        assert(group_keys(old_gs)[m] != kv) by {
                            crate::order::lemma_lex_irreflexive(kv);
                        }
                    } else if m > k {
                        assert(gs[m] == old_gs[m - 1]);
                        assert(group_keys(old_gs)[m - 1] != kv) by {
                            crate::order::lemma_lex_irreflexive(kv);
                            if m - 1 > k {
                                assert(crate::text::lex_lt(group_keys(old_gs)[k as int], group_keys(old_gs)[m - 1]));
                                crate::order::lemma_lex_transitive(kv, group_keys(old_gs)[k as int], group_keys(old_gs)[m - 1]);
                            }
                        }
                    } else {
                        assert(groups@[m] == g);
                    }
                }
                assert(groups_ok(post, gs));
            }
        }
    }
    assert(rv.take(rows.len() as int) =~= rv);
    let ghost gs = group_model(keys@, groups@);
    let mut r: Vec<(String, Vec<PrRow>)> = Vec::new();
    let mut rest_keys = keys;
    let mut rest_groups = groups;
    // drain from the back, then restore the order
    let mut rev: Vec<(String, Vec<PrRow>)> = Vec::new();
    while rest_keys.len() > 0
        invariant
            rest_keys@.len() == rest_groups@.len(),
            gs == group_model(rest_keys@, rest_groups@) + rev@.map_values(|g: (String, Vec<PrRow>)| group_view(g)).reverse(),
        decreases rest_keys.len(),
    {
        let ghost before = rev@.map_values(|g: (String, Vec<PrRow>)| group_view(g));
        let ghost old_model = group_model(rest_keys@, rest_groups@);
        let k = rest_keys.pop().unwrap();
        let g = rest_groups.pop().unwrap();
        let entry = (string_of(&k), g);
        rev.push(entry);
        assert(rev@.map_values(|g: (String, Vec<PrRow>)| group_view(g)) =~= before.push(group_view(entry)));
        assert(old_model =~= group_model(rest_keys@, rest_groups@).push(group_view(entry)));
        assert(gs =~= group_model(rest_keys@, rest_groups@) + rev@.map_values(|g: (String, Vec<PrRow>)| group_view(g)).reverse());
    }
    assert(gs =~= rev@.map_values(|g: (String, Vec<PrRow>)| group_view(g)).reverse());
    while rev.len() > 0
        invariant
            gs == r@.map_values(|g: (String, Vec<PrRow>)| group_view(g)) + rev@.map_values(|g: (String, Vec<PrRow>)| group_view(g)).reverse(),
        decreases rev.len(),
    {
        let ghost before = r@.map_values(|g: (String, Vec<PrRow>)| group_view(g));
        let ghost old_rev = rev@.map_values(|g: (String, Vec<PrRow>)| group_view(g));
        let e = rev.pop().unwrap();
        r.push(e);
        assert(r@.map_values(|g: (String, Vec<PrRow>)| group_view(g)) =~= before.push(group_view(e)));
        assert(old_rev =~= rev@.map_values(|g: (String, Vec<PrRow>)| group_view(g)).push(group_view(e)));
        assert(gs =~= r@.map_values(|g: (String, Vec<PrRow>)| group_view(g)) + rev@.map_values(|g: (String, Vec<PrRow>)| group_view(g)).reverse());
    }
    assert(gs =~= r@.map_values(|g: (String, Vec<PrRow>)| group_view(g)));
    proof {
        lemma_groups_unique(rv, gs, groups_of(rv));
    }
    r
}

/// A model without rows has none listed.
proof fn lemma_no_rows(rs: Seq<PrView>, key: Seq<char>)
    requires
        !has_rows(rs, key),
    ensures
        model_rows(rs, key) == Seq::<PrView>::empty(),
    decreases rs.len(),
{
    if rs.len() > 0 {
        assert(rs[rs.len() - 1].0 != key);
        assert(!has_rows(rs.drop_last(), key)) by {
            if has_rows(rs.drop_last(), key) {
                let j = choose|j: int| 0 <= j < rs.drop_last().len() && (#[trigger] rs.drop_last()[j]).0 == key;
                assert(rs[j].0 == key);
            }
        }
        lemma_no_rows(rs.drop_last(), key);
    }
}

proof fn lemma_flat_thresholds(ls: Seq<Seq<char>>, sep: char, m: int, c: (int, int, int, int))
    ensures
        forall|i: int| 0 <= i < flat_rows(ls, sep, m, c).len() ==> threshold_ok(#[trigger] flat_rows(ls, sep, m, c)[i].1),
    decreases ls.len(),
{
    if ls.len() > 0 {
        lemma_flat_thresholds(ls.drop_last(), sep, m, c);
        let prev = flat_rows(ls.drop_last(), sep, m, c);
        assert forall|i: int| 0 <= i < flat_rows(ls, sep, m, c).len() implies threshold_ok(#[trigger] flat_rows(ls, sep, m, c)[i].1) by {
            if i < prev.len() {
                assert(flat_rows(ls, sep, m, c)[i] == prev[i]);
            }
        }
    }
}

proof fn lemma_wide_thresholds(ls: Seq<Seq<char>>, sep: char, thr: int, cs: Seq<WideView>)
    ensures
        forall|i: int| 0 <= i < wide_rows(ls, sep, thr, cs).len() ==> threshold_ok(#[trigger] wide_rows(ls, sep, thr, cs)[i].1),
    decreases ls.len(),
{
    if ls.len() > 0 {
        lemma_wide_thresholds(ls.drop_last(), sep, thr, cs);
        let prev = wide_rows(ls.drop_last(), sep, thr, cs);
        let f = split_on(ls.last(), sep);
        assert forall|i: int| 0 <= i < wide_rows(ls, sep, thr, cs).len() implies threshold_ok(#[trigger] wide_rows(ls, sep, thr, cs)[i].1) by {
            if i >= prev.len() {
                let t = field_text(f, Some(thr)).unwrap();
                assert(wide_rows(ls, sep, thr, cs)[i] == wide_line(f, t, cs)[i - prev.len()]);
            } else {
                assert(wide_rows(ls, sep, thr, cs)[i] == prev[i]);
            }
        }
    }
}

/// Every row of the precision/recall table has a threshold that reads as a
/// number other than NaN, so thresholds can always be compared.
pub proof fn lemma_thresholds_are_numbers(raw: Seq<char>)
    ensures
        forall|i: int| 0 <= i < pr_table(raw).len() ==> threshold_ok(#[trigger] pr_table(raw)[i].1),
{
    let ls = pr_lines(raw);
    if ls.len() > 0 {
        let hs = pr_headers(raw);
        match position(hs, "model"@) {
            Some(m) => lemma_flat_thresholds(ls.skip(1), pr_separator(raw), m, flat_columns(hs)),
            None => lemma_wide_thresholds(ls.skip(1), pr_separator(raw), wide_threshold(hs), wide_columns(hs, wide_threshold(hs))),
        }
    }
}

proof fn lemma_model_rows(rs: Seq<PrView>, key: Seq<char>)
    ensures
        forall|j: int| 0 <= j < model_rows(rs, key).len() ==> (#[trigger] model_rows(rs, key)[j]).0 == key,
        has_rows(rs, key) ==> model_rows(rs, key).len() > 0,
        forall|i: int| 0 <= i < rs.len() && (#[trigger] rs[i]).0 == key ==> model_rows(rs, key).contains(rs[i]),
    decreases rs.len(),
{
    if rs.len() > 0 {
        let p = rs.drop_last();
        lemma_model_rows(p, key);
        let prev = model_rows(p, key);
        if rs.last().0 == key {
            assert forall|j: int| 0 <= j < model_rows(rs, key).len() implies (#[trigger] model_rows(rs, key)[j]).0 == key by {
                if j < prev.len() {
                    assert(model_rows(rs, key)[j] == prev[j]);
                }
            }
            assert(model_rows(rs, key)[prev.len() as int] == rs.last());
        }
        if has_rows(rs, key) && rs.last().0 != key {
            let i = choose|i: int| 0 <= i < rs.len() && (#[trigger] rs[i]).0 == key;
            assert(p[i] == rs[i]);
        }
        assert forall|i: int| 0 <= i < rs.len() && (#[trigger] rs[i]).0 == key implies model_rows(rs, key).contains(rs[i]) by {
            if i < rs.len() - 1 {
                assert(p[i] == rs[i]);
                let j = choose|j: int| 0 <= j < prev.len() && prev[j] == p[i];
                if rs.last().0 == key {
                    assert(model_rows(rs, key)[j] == prev[j]);
                } else {
                    assert(model_rows(rs, key)[j] == prev[j]);
                }
            } else {
                assert(model_rows(rs, key)[prev.len() as int] == rs[i]);
            }
        }
    }
}

/// The row is in the group of its model.
pub open spec fn in_its_group(gs: Seq<GroupView>, r: PrView) -> bool {
    exists|g: int| 0 <= g < gs.len() && gs[g].0 == r.0 && (#[trigger] gs[g]).1.contains(r)
}

/// Grouping by model loses no row and mixes no models: every group is
/// nonempty and holds only rows of its model, and every row is in the group
/// of its model.
pub proof fn lemma_groups_cover(rs: Seq<PrView>, gs: Seq<GroupView>)
    requires
        groups_ok(rs, gs),
    ensures
        forall|g: int| 0 <= g < gs.len() ==> (#[trigger] gs[g]).1.len() > 0,
        forall|g: int, j: int| 0 <= g < gs.len() && 0 <= j < gs[g].1.len() ==> (#[trigger] gs[g].1[j]).0 == gs[g].0,
        forall|i: int| 0 <= i < rs.len() ==> in_its_group(gs, #[trigger] rs[i]),
{
    assert forall|g: int| 0 <= g < gs.len() implies (#[trigger] gs[g]).1.len() > 0 by {
        lemma_model_rows(rs, gs[g].0);
        assert(group_keys(gs)[g] == gs[g].0);
        assert(group_keys(gs).contains(gs[g].0));
    }
    assert forall|g: int, j: int| 0 <= g < gs.len() && 0 <= j < gs[g].1.len() implies (#[trigger] gs[g].1[j]).0 == gs[g].0 by {
        lemma_model_rows(rs, gs[g].0);
    }
    assert forall|i: int| 0 <= i < rs.len() implies in_its_group(gs, #[trigger] rs[i]) by {
        let key = rs[i].0;
        assert(has_rows(rs, key));
        assert(group_keys(gs).contains(key));
        let g = choose|g: int| 0 <= g < group_keys(gs).len() && group_keys(gs)[g] == key;
        lemma_model_rows(rs, key);
        assert(gs[g].0 == key);
    }
}

/// The metric of a wide header is recognised ignoring ASCII case: the
/// precision under `precision`, the recall under `recall`, the F1 score
/// under `f1` or `f1_score`, in any mix of upper and lower case.
pub proof fn lemma_metric_names(m: Seq<char>)
    ensures
        metric_matches(m, 0) <==> eq_ci(m, "precision"@),
        metric_matches(m, 1) <==> eq_ci(m, "recall"@),
        metric_matches(m, 2) <==> eq_ci(m, "f1"@) || eq_ci(m, "f1_score"@),
{
}

/// A wide header `<model>_<metric>` names the model before its last `_` and
/// the metric after it, whatever underscores the model name holds; a header
/// without `_` names no model.
pub proof fn lemma_header_parts(m: Seq<char>, t: Seq<char>)
    ensures
        !t.contains('_') ==> header_model(m + seq!['_'] + t) == Some(m),
        !t.contains('_') ==> header_metric(m + seq!['_'] + t) == t,
        !t.contains('_') ==> header_model(t) is None,
{
    let h = m + seq!['_'] + t;
    crate::text::lemma_last_index(h, '_');
    crate::text::lemma_last_index(t, '_');
    if !t.contains('_') {
        let p = m.len() as int;
        assert(h[p] == '_');
        match last_index_of(h, '_') {
            Some(q) => {
                if q > p {
                    assert(t[q - p - 1] == h[q]);
                }
                if q < p {
                    assert(h[p] != '_');
                }
            },
            None => {},
        }
        assert(h.take(p) =~= m);
        assert(h.skip(p + 1) =~= t);
        match last_index_of(t, '_') {
            Some(q) => {
                assert(t.contains(t[q]));
            },
            None => {},
        }
    }
}

/// A row of a wide table read from the fields of one body line: the model
/// is one the headers name, the threshold is the line's threshold field (a
/// number other than NaN), and the precision, recall and F1 score are the
/// fields of the model's last column of each metric.
pub open spec fn wide_row_from_line(r: PrView, f: Seq<Seq<char>>, hs: Seq<Seq<char>>, thr: int) -> bool {
    &&& names_model(hs, thr, r.0, hs.len() as int)
    &&& field_text(f, Some(thr)) == Some(r.1)
    &&& threshold_ok(r.1)
    &&& r.2 == field_text(f, last_column(hs, thr, r.0, 0, hs.len() as int))
    &&& r.3 == field_text(f, last_column(hs, thr, r.0, 1, hs.len() as int))
    &&& r.4 == field_text(f, last_column(hs, thr, r.0, 2, hs.len() as int))
}

/// With the models of a wide table and their columns, every row comes from
/// one body line, its metrics taken from the columns named
/// `<model>_precision`, `<model>_recall` and `<model>_f1` (or `_f1_score`);
/// and every line whose threshold is a number other than NaN gives a row
/// for each model the headers name.
pub proof fn lemma_wide_rows_from_lines(ls: Seq<Seq<char>>, sep: char, hs: Seq<Seq<char>>, thr: int, cs: Seq<WideView>)
    requires
        wide_columns_ok(hs, thr, cs, hs.len() as int),
    ensures
        forall|i: int| 0 <= i < wide_rows(ls, sep, thr, cs).len() ==> exists|j: int|
            0 <= j < ls.len() && wide_row_from_line(
                #[trigger] wide_rows(ls, sep, thr, cs)[i],
                split_on(ls[j], sep),
                hs,
                thr,
            ),
        forall|j: int, key: Seq<char>|
            0 <= j < ls.len() && #[trigger] names_model(hs, thr, key, hs.len() as int) && (
            field_text(split_on(#[trigger] ls[j], sep), Some(thr)) matches Some(t) && threshold_ok(t))
                ==> exists|i: int| 0 <= i < wide_rows(ls, sep, thr, cs).len() && wide_rows(ls, sep, thr, cs)[i].0 == key
                && wide_row_from_line(wide_rows(ls, sep, thr, cs)[i], split_on(ls[j], sep), hs, thr),
    decreases ls.len(),
{
    if ls.len() > 0 {
        let d = ls.drop_last();
        lemma_wide_rows_from_lines(d, sep, hs, thr, cs);
        let prev = wide_rows(d, sep, thr, cs);
        let rows = wide_rows(ls, sep, thr, cs);
        let f = split_on(ls.last(), sep);
        let n = hs.len() as int;
        let good = field_text(f, Some(thr)) matches Some(t) && threshold_ok(t);
        if good {
            let t = field_text(f, Some(thr)).unwrap();
            assert(rows == prev + wide_line(f, t, cs));
            assert forall|k: int| 0 <= k < cs.len() implies wide_row_from_line(
                #[trigger] wide_line(f, t, cs)[k], f, hs, thr) by {
                assert(keys_of(cs)[k] == cs[k].0);
                assert(keys_of(cs).contains(cs[k].0));
            }
        } else {
            assert(rows == prev);
        }
        assert forall|i: int| 0 <= i < rows.len() implies exists|j: int|
            0 <= j < ls.len() && wide_row_from_line(#[trigger] rows[i], split_on(ls[j], sep), hs, thr) by {
            if i < prev.len() {
                assert(rows[i] == prev[i]);
                let j = choose|j: int| 0 <= j < d.len() && wide_row_from_line(prev[i], split_on(d[j], sep), hs, thr);
                assert(ls[j] == d[j]);
            } else {
                let t = field_text(f, Some(thr)).unwrap();
                assert(rows[i] == wide_line(f, t, cs)[i - prev.len()]);
                assert(ls[ls.len() - 1] == ls.last());
            }
        }
        assert forall|j: int, key: Seq<char>|
            0 <= j < ls.len() && #[trigger] names_model(hs, thr, key, n) && (
            field_text(split_on(#[trigger] ls[j], sep), Some(thr)) matches Some(t) && threshold_ok(t))
            implies exists|i: int| 0 <= i < rows.len() && rows[i].0 == key
                && wide_row_from_line(rows[i], split_on(ls[j], sep), hs, thr) by {
            if j < d.len() {
                assert(ls[j] == d[j]);
                assert(names_model(hs, thr, key, n));
                let i = choose|i: int| 0 <= i < prev.len() && prev[i].0 == key
                    && wide_row_from_line(prev[i], split_on(d[j], sep), hs, thr);
                if good {
                    assert(rows[i] == prev[i]);
                } else {
                    assert(rows[i] == prev[i]);
                }
            } else {
                assert(ls[j] == ls.last());
                assert(keys_of(cs).contains(key));
                let k = choose|k: int| 0 <= k < keys_of(cs).len() && keys_of(cs)[k] == key;
                let t = field_text(f, Some(thr)).unwrap();
                assert(rows[prev.len() + k] == wide_line(f, t, cs)[k]);
                assert(wide_row_from_line(wide_line(f, t, cs)[k], f, hs, thr));
            }
        }
    }
}

/// A table without a `model` header is read as a wide one: each of its rows
/// comes from one body line, its metrics from the model's
/// `<model>_<metric>` columns, and each line whose threshold is a number
/// other than NaN gives a row for every model the headers name.
pub proof fn lemma_wide_table_rows(raw: Seq<char>, cs: Seq<WideView>)
    requires
        pr_lines(raw).len() > 0,
        position(pr_headers(raw), "model"@) is None,
        wide_columns_ok(pr_headers(raw), wide_threshold(pr_headers(raw)), cs, pr_headers(raw).len() as int),
    ensures
        ({
            let hs = pr_headers(raw);
            let thr = wide_threshold(hs);
            let body = pr_lines(raw).skip(1);
            let sep = pr_separator(raw);
            &&& forall|i: int| 0 <= i < pr_table(raw).len() ==> exists|j: int|
                0 <= j < body.len() && wide_row_from_line(#[trigger] pr_table(raw)[i], split_on(body[j], sep), hs, thr)
            &&& forall|j: int, key: Seq<char>|
                0 <= j < body.len() && #[trigger] names_model(hs, thr, key, hs.len() as int) && (
                field_text(split_on(#[trigger] body[j], sep), Some(thr)) matches Some(t) && threshold_ok(t))
                    ==> exists|i: int| 0 <= i < pr_table(raw).len() && pr_table(raw)[i].0 == key
                    && wide_row_from_line(pr_table(raw)[i], split_on(body[j], sep), hs, thr)
        }),
{
    let hs = pr_headers(raw);
    let thr = wide_threshold(hs);
    let n = hs.len() as int;
    assert(exists|c: Seq<WideView>| wide_columns_ok(hs, thr, c, n));
    assert(wide_columns_ok(hs, thr, wide_columns(hs, thr), n));
    lemma_wide_columns_unique(hs, thr, wide_columns(hs, thr), cs, n);
    assert(pr_table(raw) == wide_rows(pr_lines(raw).skip(1), pr_separator(raw), thr, cs));
    lemma_wide_rows_from_lines(pr_lines(raw).skip(1), pr_separator(raw), hs, thr, cs);
}

/// A row of a flat table read from the fields of one body line: the model
/// from the `model` column, the threshold (a number other than NaN) from the
/// `threshold` column (else the second), and the precision, recall and F1
/// score from the `precision`, `recall` and `f1_score` (else `f1`) columns
/// (else the third, fourth and fifth).
pub open spec fn flat_row_from_line(r: PrView, f: Seq<Seq<char>>, hs: Seq<Seq<char>>) -> bool {
    let m = position(hs, "model"@)->0;
    let t = or_default(position(hs, "threshold"@), 1);
    let p = or_default(position(hs, "precision"@), 2);
    let rc = or_default(position(hs, "recall"@), 3);
    let f1 = or_default(position(hs, "f1_score"@), or_default(position(hs, "f1"@), 4));
    &&& 0 <= m < f.len() && 0 <= t < f.len() && 0 <= p < f.len() && 0 <= rc < f.len() && 0 <= f1 < f.len()
    &&& r.0 == trim(f[m]) && r.0.len() > 0
    &&& r.1 == trim(f[t]) && threshold_ok(r.1)
    &&& r.2 == Some(trim(f[p]))
    &&& r.3 == Some(trim(f[rc]))
    &&& r.4 == Some(trim(f[f1]))
}

proof fn lemma_flat_rows_source(ls: Seq<Seq<char>>, sep: char, hs: Seq<Seq<char>>)
    requires
        position(hs, "model"@) is Some,
        position(hs, "model"@)->0 >= 0,
    ensures
        forall|i: int| 0 <= i < flat_rows(ls, sep, position(hs, "model"@)->0, flat_columns(hs)).len() ==> exists|j: int|
            0 <= j < ls.len() && flat_row_from_line(
                #[trigger] flat_rows(ls, sep, position(hs, "model"@)->0, flat_columns(hs))[i],
                split_on(ls[j], sep),
                hs,
            ),
    decreases ls.len(),
{
    let m = position(hs, "model"@)->0;
    let c = flat_columns(hs);
    lemma_column_names(hs);
    crate::text::lemma_position2_first(hs, "threshold"@, "threshold"@);
    crate::text::lemma_position2_first(hs, "precision"@, "precision"@);
    crate::text::lemma_position2_first(hs, "recall"@, "recall"@);
    crate::text::lemma_position2_first(hs, "f1_score"@, "f1_score"@);
    crate::text::lemma_position2_first(hs, "f1"@, "f1"@);
    if ls.len() > 0 {
        let d = ls.drop_last();
        lemma_flat_rows_source(d, sep, hs);
        let prev = flat_rows(d, sep, m, c);
        let rows = flat_rows(ls, sep, m, c);
        assert forall|i: int| 0 <= i < rows.len() implies exists|j: int|
            0 <= j < ls.len() && flat_row_from_line(#[trigger] rows[i], split_on(ls[j], sep), hs) by {
            if i < prev.len() {
                assert(rows[i] == prev[i]);
                let j = choose|j: int| 0 <= j < d.len() && flat_row_from_line(prev[i], split_on(d[j], sep), hs);
                assert(ls[j] == d[j]);
            } else {
                assert(ls[ls.len() - 1] == ls.last());
            }
        }
    }
}

/// A table with a `model` header is read as a flat one: each of its rows
/// comes from one body line, its fields taken from the columns found by
/// name.
pub proof fn lemma_flat_table_rows(raw: Seq<char>)
    requires
        pr_lines(raw).len() > 0,
        position(pr_headers(raw), "model"@) is Some,
    ensures
        forall|i: int| 0 <= i < pr_table(raw).len() ==> exists|j: int|
            0 <= j < pr_lines(raw).skip(1).len() && flat_row_from_line(
                #[trigger] pr_table(raw)[i],
                split_on(pr_lines(raw).skip(1)[j], pr_separator(raw)),
                pr_headers(raw),
            ),
{
    let hs = pr_headers(raw);
    crate::text::lemma_position2_first(hs, "model"@, "model"@);
    lemma_flat_rows_source(pr_lines(raw).skip(1), pr_separator(raw), hs);
}

/// The columns of a flat table are found by name, ignoring ASCII case:
/// `threshold`, `precision`, `recall` and `f1_score` (else `f1`), falling
/// back to positions 1 to 4; a wide table's thresholds are under
/// `threshold`, else in the first column.
pub proof fn lemma_column_names(hs: Seq<Seq<char>>)
    ensures
        flat_columns(hs).0 == or_default(position(hs, "threshold"@), 1),
        flat_columns(hs).1 == or_default(position(hs, "precision"@), 2),
        flat_columns(hs).2 == or_default(position(hs, "recall"@), 3),
        flat_columns(hs).3 == or_default(
            position(hs, "f1_score"@),
            or_default(position(hs, "f1"@), 4),
        ),
        wide_threshold(hs) == or_default(position(hs, "threshold"@), 0),
{
}

} // verus!
