//! Reading the benchmark table of the LLM charts page: one line per model,
//! with the scores of five benchmarks found by their column names.
use vstd::prelude::*;
use crate::charts_route::{separator_of, separator_of_chars};
use crate::number::{is_float_text, is_float_chars, lemma_float_not_na};
use crate::text::{
    strip_leading, nonblank, lines, trim_all, split_on, position2, eq_ci, opt_int, views,
    opt_view, chars_of, strip_leading_chars, nonblank_lines, trim_each, split_chars, find_either,
    eq_ci_chars, string_of, field_text, field_chars, trim,
};

verus! {

/// One model of the benchmark table: its name and, for each of the five
/// benchmarks, the score text when the line gives a number.
#[derive(Clone, Debug, PartialEq)]
pub struct BenchmarkRow {
    pub model: String,
    pub scores: Vec<Option<String>>,
}

/// The accepted column names of each benchmark, in display order
/// (MMLU-Pro, GPQA Diamond, SWE-bench Verified, LiveCodeBench, AIME 2025).
pub open spec fn benchmark_names(k: int) -> (Seq<char>, Seq<char>) {
    if k == 0 {
        ("MMLU_Pro"@, "MMLU-Pro"@)
    } else if k == 1 {
        ("GPQA_Diamond"@, "GPQA Diamond"@)
    } else if k == 2 {
        ("SWE_bench_Verified"@, "SWE-bench Verified"@)
    } else if k == 3 {
        ("LiveCodeBench"@, "LiveCodeBench"@)
    } else {
        ("AIME_2025"@, "AIME 2025"@)
    }
}

/// The column of each benchmark among the headers.
pub open spec fn benchmark_columns(headers: Seq<Seq<char>>) -> Seq<Option<int>> {
    Seq::new(5, |k: int| position2(headers, benchmark_names(k).0, benchmark_names(k).1))
}

/// A score: the field's trimmed text when it is a number (`N/A` and empty
/// fields are no score).
pub open spec fn score_text(fields: Seq<Seq<char>>, col: Option<int>) -> Option<Seq<char>> {
    match field_text(fields, col) {
        Some(t) => if eq_ci(t, "N/A"@) || t.len() == 0 || !is_float_text(t) {
            None
        } else {
            Some(t)
        },
        None => None,
    }
}

/// The model name of a line: the trimmed model field, empty when absent.
pub open spec fn model_text(fields: Seq<Seq<char>>, col: Option<int>) -> Seq<char> {
    match field_text(fields, col) {
        Some(t) => t,
        None => Seq::empty(),
    }
}

/// The rows of the given body lines: lines without a model name are
/// skipped.
pub open spec fn bench_rows(ls: Seq<Seq<char>>, sep: char, cols: Seq<Option<int>>, mcol: Option<int>) -> Seq<(Seq<char>, Seq<Option<Seq<char>>>)>
    decreases ls.len(),
{
    if ls.len() == 0 {
        Seq::empty()
    } else {
        let prev = bench_rows(ls.drop_last(), sep, cols, mcol);
        let fields = split_on(ls.last(), sep);
        let m = model_text(fields, mcol);
        if m.len() == 0 {
            prev
        } else {
            prev.push((m, cols.map_values(|c: Option<int>| score_text(fields, c))))
        }
    }
}

/// The rows of the benchmark table text: a leading byte order mark is
/// dropped, the separator detected, the first nonblank line read as the
/// headers, and the model found under `model` or `model_id`.
pub open spec fn benchmark_table(raw: Seq<char>) -> Seq<(Seq<char>, Seq<Option<Seq<char>>>)> {
    let text = strip_leading(raw, '\u{feff}');
    let sep = separator_of(text);
    let ls = nonblank(lines(text));
    if ls.len() == 0 {
        Seq::empty()
    } else {
        let headers = trim_all(split_on(ls[0], sep));
        bench_rows(
            ls.skip(1),
            sep,
            benchmark_columns(headers),
            position2(headers, "model"@, "model_id"@),
        )
    }
}

/// The model name and score texts of a row.
pub open spec fn row_view(r: BenchmarkRow) -> (Seq<char>, Seq<Option<Seq<char>>>) {
    (r.model@, r.scores@.map_values(|o: Option<String>| opt_view(o)))
}

/// The score text of a field.
fn score_of(fields: &Vec<Vec<char>>, col: Option<usize>) -> (r: Option<String>)
    ensures
        opt_view(r) == score_text(views(fields@), opt_int(col)),
{
    proof {
        reveal_strlit("N/A");
    }
    match field_chars(fields, col) {
        Some(t) => {
            if eq_ci_chars(&t, &chars_of("N/A")) || t.len() == 0 || !is_float_chars(&t) {
                None
            } else {
                Some(string_of(&t))
            }
        },
        None => None,
    }
}

/// Reads the benchmark table text sent by the backend.
pub fn parse_benchmark_csv(raw: &str) -> (rows: Vec<BenchmarkRow>)
    ensures
        rows@.map_values(|r: BenchmarkRow| row_view(r)) == benchmark_table(raw@),
{
    let text = strip_leading_chars(&chars_of(raw), '\u{feff}');
    let sep = separator_of_chars(&text);
    let ls = nonblank_lines(&text);
    let mut rows: Vec<BenchmarkRow> = Vec::new();
    if ls.len() == 0 {
        assert(rows@.map_values(|r: BenchmarkRow| row_view(r)) =~= benchmark_table(raw@));
        return rows;
    }
    let headers = trim_each(&split_chars(&ls[0], sep));
    let ghost hv = views(headers@);
    proof {
        reveal_strlit("MMLU_Pro");
        reveal_strlit("MMLU-Pro");
        reveal_strlit("GPQA_Diamond");
        reveal_strlit("GPQA Diamond");
        reveal_strlit("SWE_bench_Verified");
        reveal_strlit("SWE-bench Verified");
        reveal_strlit("LiveCodeBench");
        reveal_strlit("AIME_2025");
        reveal_strlit("AIME 2025");
        reveal_strlit("model");
        reveal_strlit("model_id");
    }
    let mut cols: Vec<Option<usize>> = Vec::new();
    cols.push(find_either(&headers, &chars_of("MMLU_Pro"), &chars_of("MMLU-Pro")));
    cols.push(find_either(&headers, &chars_of("GPQA_Diamond"), &chars_of("GPQA Diamond")));
    cols.push(
        find_either(&headers, &chars_of("SWE_bench_Verified"), &chars_of("SWE-bench Verified")),
    );
    cols.push(find_either(&headers, &chars_of("LiveCodeBench"), &chars_of("LiveCodeBench")));
    cols.push(find_either(&headers, &chars_of("AIME_2025"), &chars_of("AIME 2025")));
    let ghost cv = cols@.map_values(|c: Option<usize>| opt_int(c));
    assert(cv =~= benchmark_columns(hv));
    let mcol = find_either(&headers, &chars_of("model"), &chars_of("model_id"));
    let ghost body = views(ls@).skip(1);
    let n = ls.len() - 1;
    for j in 0..n
        invariant
            n == ls@.len() - 1,
            body == views(ls@).skip(1),
            cols@.len() == 5,
            cv == cols@.map_values(|c: Option<usize>| opt_int(c)),
            rows@.map_values(|r: BenchmarkRow| row_view(r)) == bench_rows(
                body.take(j as int),
                sep,
                cv,
                opt_int(mcol),
            ),
    {
        assert(body.take(j + 1).drop_last() =~= body.take(j as int));
        assert(body.take(j + 1).last() == ls@[j + 1]@);
        let fields = split_chars(&ls[j + 1], sep);
        let ghost fv = views(fields@);
        match field_chars(&fields, mcol) {
            Some(m) => {
                if m.len() > 0 {
                    let mut scores: Vec<Option<String>> = Vec::new();
                    for k in 0..5
                        invariant
                            cols@.len() == 5,
                            fv == views(fields@),
                            cv == cols@.map_values(|c: Option<usize>| opt_int(c)),
                            scores@.map_values(|o: Option<String>| opt_view(o)) == cv.take(
                                k as int,
                            ).map_values(|c: Option<int>| score_text(fv, c)),
                    {
                        let ghost before = scores@.map_values(|o: Option<String>| opt_view(o));
                        let sc = score_of(&fields, cols[k]);
                        scores.push(sc);
                        assert(scores@.map_values(|o: Option<String>| opt_view(o)) =~= cv.take(
                            k + 1,
                        ).map_values(|c: Option<int>| score_text(fv, c))) by {
                            assert(scores@.map_values(|o: Option<String>| opt_view(o))
                                =~= before.push(score_text(fv, cv[k as int])));
                        }
                    }
                    assert(cv.take(5) =~= cv);
                    let ghost before = rows@.map_values(|r: BenchmarkRow| row_view(r));
                    let row = BenchmarkRow { model: string_of(&m), scores };
                    rows.push(row);
                    assert(rows@.map_values(|r: BenchmarkRow| row_view(r)) =~= before.push(
                        row_view(row),
                    ));
                }
            },
            None => {},
        }
    }
    assert(body.take(n as int) =~= body);
    rows
}

/// A benchmark row names a model and holds five scores, each a number.
pub open spec fn bench_row_valid(r: (Seq<char>, Seq<Option<Seq<char>>>)) -> bool {
    &&& r.0.len() > 0
    &&& r.1.len() == 5
    &&& forall|k: int| 0 <= k < 5 ==> (#[trigger] r.1[k] matches Some(t) ==> is_float_text(t))
}

proof fn lemma_bench_rows_valid(ls: Seq<Seq<char>>, sep: char, cols: Seq<Option<int>>, mcol: Option<int>)
    requires
        cols.len() == 5,
    ensures
        forall|i: int| 0 <= i < bench_rows(ls, sep, cols, mcol).len() ==> bench_row_valid(
            #[trigger] bench_rows(ls, sep, cols, mcol)[i],
        ),
    decreases ls.len(),
{
    if ls.len() > 0 {
        lemma_bench_rows_valid(ls.drop_last(), sep, cols, mcol);
        let prev = bench_rows(ls.drop_last(), sep, cols, mcol);
        let fields = split_on(ls.last(), sep);
        let m = model_text(fields, mcol);
        if m.len() > 0 {
            let row = (m, cols.map_values(|c: Option<int>| score_text(fields, c)));
            assert(bench_row_valid(row)) by {
                assert forall|k: int| 0 <= k < 5 implies (#[trigger] row.1[k] matches Some(t) ==> is_float_text(t)) by {
                    assert(row.1[k] == score_text(fields, cols[k]));
                }
            }
            assert forall|i: int| 0 <= i < prev.push(row).len() implies bench_row_valid(#[trigger] prev.push(row)[i]) by {
                if i < prev.len() {
                    assert(prev.push(row)[i] == prev[i]);
                }
            }
        }
    }
}

/// Every row of the benchmark table names a model and holds five scores,
/// each a text that `f64::from_str` accepts.
pub proof fn lemma_benchmark_rows_valid(raw: Seq<char>)
    ensures
        forall|i: int| 0 <= i < benchmark_table(raw).len() ==> bench_row_valid(#[trigger] benchmark_table(raw)[i]),
{
    let text = strip_leading(raw, '\u{feff}');
    let ls = nonblank(lines(text));
    if ls.len() > 0 {
        let headers = trim_all(split_on(ls[0], separator_of(text)));
        lemma_bench_rows_valid(ls.skip(1), separator_of(text), benchmark_columns(headers), position2(headers, "model"@, "model_id"@));
    }
}

/// The column of each benchmark is the first header equal, ignoring ASCII
/// case, to one of its two names: `MMLU_Pro` or `MMLU-Pro`, `GPQA_Diamond`
/// or `GPQA Diamond`, `SWE_bench_Verified` or `SWE-bench Verified`,
/// `LiveCodeBench`, `AIME_2025` or `AIME 2025`.
pub proof fn lemma_benchmark_column_names(hs: Seq<Seq<char>>)
    ensures
        benchmark_columns(hs).len() == 5,
        benchmark_columns(hs)[0] == position2(hs, "MMLU_Pro"@, "MMLU-Pro"@),
        benchmark_columns(hs)[1] == position2(hs, "GPQA_Diamond"@, "GPQA Diamond"@),
        benchmark_columns(hs)[2] == position2(hs, "SWE_bench_Verified"@, "SWE-bench Verified"@),
        benchmark_columns(hs)[3] == position2(hs, "LiveCodeBench"@, "LiveCodeBench"@),
        benchmark_columns(hs)[4] == position2(hs, "AIME_2025"@, "AIME 2025"@),
{
}

/// A benchmark's score on a line is the trimmed field of its column exactly
/// when that text is a number `f64::from_str` accepts; a missing column, a
/// line without that field, or any other text (`N/A`, empty) gives no score.
pub proof fn lemma_score_of_field(f: Seq<Seq<char>>, col: Option<int>)
    ensures
        col is None ==> score_text(f, col) is None,
        col is Some && !(0 <= col->0 < f.len()) ==> score_text(f, col) is None,
        col is Some && 0 <= col->0 < f.len() ==> score_text(f, col) == (if is_float_text(
            trim(f[col->0]),
        ) {
            Some(trim(f[col->0]))
        } else {
            None::<Seq<char>>
        }),
{
    if let Some(c) = col {
        if 0 <= c < f.len() {
            lemma_float_not_na(trim(f[c]));
        }
    }
}

/// A row read from the fields of one body line.
pub open spec fn row_from_fields(r: (Seq<char>, Seq<Option<Seq<char>>>), f: Seq<Seq<char>>, hs: Seq<Seq<char>>) -> bool {
    &&& r.0 == model_text(f, position2(hs, "model"@, "model_id"@))
    &&& r.0.len() > 0
    &&& r.1.len() == 5
    &&& r.1[0] == score_text(f, position2(hs, "MMLU_Pro"@, "MMLU-Pro"@))
    &&& r.1[1] == score_text(f, position2(hs, "GPQA_Diamond"@, "GPQA Diamond"@))
    &&& r.1[2] == score_text(f, position2(hs, "SWE_bench_Verified"@, "SWE-bench Verified"@))
    &&& r.1[3] == score_text(f, position2(hs, "LiveCodeBench"@, "LiveCodeBench"@))
    &&& r.1[4] == score_text(f, position2(hs, "AIME_2025"@, "AIME 2025"@))
}

proof fn lemma_bench_rows_source(ls: Seq<Seq<char>>, sep: char, hs: Seq<Seq<char>>)
    ensures
        forall|i: int| 0 <= i < bench_rows(ls, sep, benchmark_columns(hs), position2(hs, "model"@, "model_id"@)).len()
            ==> exists|j: int| 0 <= j < ls.len() && row_from_fields(
                #[trigger] bench_rows(ls, sep, benchmark_columns(hs), position2(hs, "model"@, "model_id"@))[i],
                split_on(ls[j], sep),
                hs,
            ),
        forall|j: int| 0 <= j < ls.len() && model_text(split_on(#[trigger] ls[j], sep), position2(hs, "model"@, "model_id"@)).len() > 0
            ==> exists|i: int| 0 <= i < bench_rows(ls, sep, benchmark_columns(hs), position2(hs, "model"@, "model_id"@)).len()
                && row_from_fields(bench_rows(ls, sep, benchmark_columns(hs), position2(hs, "model"@, "model_id"@))[i], split_on(ls[j], sep), hs),
    decreases ls.len(),
{
    let cols = benchmark_columns(hs);
    let mcol = position2(hs, "model"@, "model_id"@);
    if ls.len() > 0 {
        let d = ls.drop_last();
        lemma_bench_rows_source(d, sep, hs);
        let prev = bench_rows(d, sep, cols, mcol);
        let rows = bench_rows(ls, sep, cols, mcol);
        let f = split_on(ls.last(), sep);
        let m = model_text(f, mcol);
        if m.len() > 0 {
            let r = (m, cols.map_values(|c: Option<int>| score_text(f, c)));
            assert(row_from_fields(r, f, hs));
            assert(rows == prev.push(r));
        } else {
            assert(rows == prev);
        }
        assert forall|i: int| 0 <= i < rows.len() implies exists|j: int| 0 <= j < ls.len() && row_from_fields(
            #[trigger] rows[i], split_on(ls[j], sep), hs) by {
            if i < prev.len() {
                assert(rows[i] == prev[i]);
                let j = choose|j: int| 0 <= j < d.len() && row_from_fields(prev[i], split_on(d[j], sep), hs);
                assert(ls[j] == d[j]);
            } else {
                assert(ls[ls.len() - 1] == ls.last());
            }
        }
        assert forall|j: int| 0 <= j < ls.len() && model_text(split_on(#[trigger] ls[j], sep), mcol).len() > 0
            implies exists|i: int| 0 <= i < rows.len() && row_from_fields(rows[i], split_on(ls[j], sep), hs) by {
            if j < d.len() {
                assert(ls[j] == d[j]);
                assert(model_text(split_on(d[j], sep), mcol).len() > 0);
                let i = choose|i: int| 0 <= i < prev.len() && row_from_fields(prev[i], split_on(d[j], sep), hs);
                assert(rows[i] == prev[i]);
            } else {
                assert(ls[j] == ls.last());
                assert(rows[prev.len() as int] == (m, cols.map_values(|c: Option<int>| score_text(f, c))));
            }
        }
    }
}

/// Every row of the benchmark table is read from one body line: its model
/// from the `model` (or `model_id`) column and its five scores from the
/// benchmark columns found by name; and every body line with a model name
/// gives a row.
pub proof fn lemma_benchmark_rows_from_lines(raw: Seq<char>)
    ensures
        ({
            let text = strip_leading(raw, '\u{feff}');
            let sep = separator_of(text);
            let ls = nonblank(lines(text));
            ls.len() > 0 ==> {
                let hs = trim_all(split_on(ls[0], sep));
                let body = ls.skip(1);
                &&& forall|i: int| 0 <= i < benchmark_table(raw).len() ==> exists|j: int|
                    0 <= j < body.len() && row_from_fields(#[trigger] benchmark_table(raw)[i], split_on(body[j], sep), hs)
                &&& forall|j: int| 0 <= j < body.len() && model_text(split_on(#[trigger] body[j], sep), position2(hs, "model"@, "model_id"@)).len() > 0
                    ==> exists|i: int| 0 <= i < benchmark_table(raw).len() && row_from_fields(benchmark_table(raw)[i], split_on(body[j], sep), hs)
            }
        }),
        ({
            let ls = nonblank(lines(strip_leading(raw, '\u{feff}')));
            ls.len() == 0 ==> benchmark_table(raw).len() == 0
        }),
{
    let text = strip_leading(raw, '\u{feff}');
    let sep = separator_of(text);
    let ls = nonblank(lines(text));
    if ls.len() > 0 {
        let hs = trim_all(split_on(ls[0], sep));
        let body = ls.skip(1);
        lemma_bench_rows_source(body, sep, hs);
        let rows = bench_rows(body, sep, benchmark_columns(hs), position2(hs, "model"@, "model_id"@));
        assert(benchmark_table(raw) == rows);
        assert forall|i: int| 0 <= i < rows.len() implies exists|j: int|
            0 <= j < body.len() && row_from_fields(#[trigger] rows[i], split_on(body[j], sep), hs) by {}
        assert forall|j: int| 0 <= j < body.len() && model_text(split_on(#[trigger] body[j], sep), position2(hs, "model"@, "model_id"@)).len() > 0
            implies exists|i: int| 0 <= i < rows.len() && row_from_fields(rows[i], split_on(body[j], sep), hs) by {}
    }
}

} // verus!
