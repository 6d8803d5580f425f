//! The metrics table as the backend sends it (comma-separated, a header line
//! then one line per model), and the user's own rows kept in a cookie as
//! lines joined with `|`.
use vstd::prelude::*;
use crate::table::{CellAlign, CellData, cell_of, values_of, styled};
use crate::text::{
    nonblank, lines, trim_all, split_on, views, chars_of, nonblank_lines, copy_range, trim_each,
    split_chars, is_blank, first_line, trim, replace_char, join, is_blank_chars, first_line_chars,
    trim_chars, string_of, join_chars, lemma_split_on_len, lemma_join_split, lemma_split_concat,
    lemma_split_without_sep, lemma_join_without, opt_view, is_ws, trim_start, trim_end,
    lemma_split_join, lemma_trim_start_concat, lemma_trim_start_blank, lemma_trim_end_concat,
    lemma_trim_all_trim_end, lemma_lines_append, lemma_nonblank_len, lemma_lines_without_newline,
    lemma_trim_end_prefix, lemma_trim_edges, lemma_join_prefix, lemma_replace_absent, strip_cr,
    lemma_lines_join, lemma_replace_join, lemma_nonblank_all, lemma_split_pieces,
    lemma_join_update_first, lemma_join_update_last, lemma_trim_start_nonblank,
    lemma_trim_end_nonblank, lemma_strip_cr_nonblank, lemma_trim_all_strip_cr,
    lemma_trim_all_trim_start, lemma_trim_start_first, lemma_split_count, lemma_trim_all_trimmed,
    count_char,
};

verus! {

/// The nonblank lines of a table text.
pub open spec fn table_lines(csv: Seq<char>) -> Seq<Seq<char>> {
    nonblank(lines(csv))
}

/// The header texts: the first nonblank line split at commas and trimmed
/// (one empty header when there is no line).
pub open spec fn header_texts(csv: Seq<char>) -> Seq<Seq<char>> {
    let ls = table_lines(csv);
    trim_all(split_on(if ls.len() > 0 { ls[0] } else { Seq::empty() }, ','))
}

/// The texts of one body line: split at commas and trimmed.
pub open spec fn row_texts(line: Seq<char>) -> Seq<Seq<char>> {
    trim_all(split_on(line, ','))
}

/// The body rows: every nonblank line after the header, split and trimmed.
pub open spec fn body_texts(csv: Seq<char>) -> Seq<Seq<Seq<char>>> {
    let ls = table_lines(csv);
    if ls.len() > 0 {
        ls.skip(1).map_values(|l: Seq<char>| row_texts(l))
    } else {
        Seq::empty()
    }
}

/// The cells of a row hold the given texts, with the given style.
pub open spec fn row_holds(cells: Seq<CellData>, texts: Seq<Seq<char>>, bold: bool, align: CellAlign) -> bool {
    &&& values_of(cells) == texts
    &&& styled(cells, bold, align)
}

/// The rows of cells hold the given texts, centred and not bold.
pub open spec fn body_holds(rows: Seq<Vec<CellData>>, texts: Seq<Seq<Seq<char>>>) -> bool {
    &&& rows.len() == texts.len()
    &&& forall|i: int| 0 <= i < rows.len() ==> row_holds(#[trigger] rows[i]@, texts[i], false, CellAlign::Center)
}

/// Cells holding the given texts, with the given style.
fn cells_of(pieces: &Vec<Vec<char>>, bold: bool, align: CellAlign) -> (r: Vec<CellData>)
    ensures
        row_holds(r@, views(pieces@), bold, align),
{
    let mut r: Vec<CellData> = Vec::new();
    for k in 0..pieces.len()
        invariant
            values_of(r@) == views(pieces@).take(k as int),
            styled(r@, bold, align),
    {
        let ghost before = values_of(r@);
        let c = cell_of(&pieces[k], bold, align);
        r.push(c);
        assert(values_of(r@) =~= before.push(pieces@[k as int]@));
        assert(values_of(r@) =~= views(pieces@).take(k + 1));
    }
    assert(views(pieces@).take(pieces.len() as int) =~= views(pieces@));
    r
}

/// Reads the table text: the header cells (bold) and the body rows
/// (centred), every text trimmed.
pub fn parse_csv(csv: &str) -> (r: (Vec<CellData>, Vec<Vec<CellData>>))
    ensures
        row_holds(r.0@, header_texts(csv@), true, CellAlign::Left),
        body_holds(r.1@, body_texts(csv@)),
{
    let text = chars_of(csv);
    let ls = nonblank_lines(&text);
    let ghost lv = views(ls@);
    let header_line: Vec<char> = if ls.len() > 0 {
        copy_range(&ls[0], 0, ls[0].len())
    } else {
        Vec::new()
    };
    proof {
        if ls.len() > 0 {
            assert(ls@[0]@.subrange(0, ls@[0]@.len() as int) =~= ls@[0]@);
        }
        assert(header_line@ == (if lv.len() > 0 { lv[0] } else { Seq::<char>::empty() }));
    }
    let header_pieces = trim_each(&split_chars(&header_line, ','));
    let headers = cells_of(&header_pieces, true, CellAlign::Left);
    let mut rows: Vec<Vec<CellData>> = Vec::new();
    let mut k: usize = 1;
    while k < ls.len()
        invariant
            lv == views(ls@),
            lv == table_lines(csv@),
            1 <= k,
            rows@.len() == if k <= lv.len() { k - 1 } else { 0 },
            k <= lv.len() || lv.len() == 0,
            forall|i: int| 0 <= i < rows@.len() ==> row_holds(#[trigger] rows@[i]@, row_texts(lv[i + 1]), false, CellAlign::Center),
        decreases ls.len() - k,
    {
        let pieces = trim_each(&split_chars(&ls[k], ','));
        let row = cells_of(&pieces, false, CellAlign::Center);
        rows.push(row);
        k += 1;
    }
    assert(body_holds(rows@, body_texts(csv@))) by {
        assert(rows@.len() == body_texts(csv@).len());
        assert forall|i: int| 0 <= i < rows@.len() implies row_holds(#[trigger] rows@[i]@, body_texts(csv@)[i], false, CellAlign::Center) by {
            assert(body_texts(csv@)[i] == row_texts(lv[i + 1]));
        }
    }
    (headers, rows)
}

/// The user's rows kept in a cookie: each `|`-separated part is a line of
/// the table under the backend's header line; a blank cookie holds none.
pub open spec fn user_texts(backend: Seq<char>, cookie: Seq<char>) -> Seq<Seq<Seq<char>>> {
    if is_blank(cookie) {
        Seq::empty()
    } else {
        body_texts(first_line(backend).push('\n') + trim(replace_char(cookie, '|', '\n')))
    }
}

/// Every `from` replaced by `to`.
fn replace_chars(s: &[char], from: char, to: char) -> (r: Vec<char>)
    ensures
        r@ == replace_char(s@, from, to),
{
    let mut r: Vec<char> = Vec::new();
    for i in 0..s.len()
        invariant
            r@ == replace_char(s@.take(i as int), from, to),
    {
        if s[i] == from {
            r.push(to);
        } else {
            r.push(s[i]);
        }
        assert(r@ =~= replace_char(s@.take(i + 1), from, to));
    }
    assert(s@.take(s.len() as int) =~= s@);
    r
}

/// The user's own rows, read from the cookie under the header line of the
/// backend's table.
pub fn parse_user_rows(backend: &str, cookie: &str) -> (r: Vec<Vec<CellData>>)
    ensures
        body_holds(r@, user_texts(backend@, cookie@)),
{
    let c = chars_of(cookie);
    if is_blank_chars(&c) {
        return Vec::new();
    }
    let b = chars_of(backend);
    let mut mini = first_line_chars(&b);
    mini.push('\n');
    let replaced = replace_chars(&c, '|', '\n');
    let mut body = trim_chars(&replaced);
    mini.append(&mut body);
    let mini_text = string_of(&mini);
    let (_, rows) = parse_csv(mini_text.as_str());
    rows
}

/// The cookie after deleting the user's row at `idx`: the `|`-separated
/// parts without that one, joined again; nothing when no part is left.
pub open spec fn remove_row_of(current: Seq<char>, idx: int) -> Option<Seq<char>> {
    let parts = split_on(current, '|');
    let rest = if 0 <= idx < parts.len() {
        parts.remove(idx)
    } else {
        parts
    };
    if rest.len() == 0 {
        None
    } else {
        Some(join(rest, '|'))
    }
}

/// Deletes the user's row at `idx` from the cookie text.
pub fn remove_user_row(current: &str, idx: usize) -> (r: Option<String>)
    ensures
        match r {
            Some(s) => remove_row_of(current@, idx as int) == Some(s@),
            None => remove_row_of(current@, idx as int) is None,
        },
{
    let c = chars_of(current);
    let mut parts = split_chars(&c, '|');
    let ghost ps = views(parts@);
    if idx < parts.len() {
        parts.remove(idx);
        assert(views(parts@) =~= ps.remove(idx as int));
    }
    if parts.len() == 0 {
        None
    } else {
        let joined = join_chars(&parts, '|');
        Some(string_of(&joined))
    }
}

/// An empty metric value is stored as `0.0`.
pub open spec fn zero_if_empty(v: Seq<char>) -> Seq<char> {
    if v.len() == 0 {
        "0.0"@
    } else {
        v
    }
}

/// The cookie line of a new model: its name and metric values joined with
/// commas, empty values written as `0.0`.
pub open spec fn model_line_of(name: Seq<char>, vals: Seq<Seq<char>>) -> Seq<char> {
    join(seq![name].add(vals).map_values(|v: Seq<char>| zero_if_empty(v)), ',')
}

/// The cookie after adding a line: appended after a `|`, or alone when
/// there was no cookie.
pub open spec fn add_line_of(existing: Option<Seq<char>>, line: Seq<char>) -> Seq<char> {
    match existing {
        Some(e) => e.push('|') + line,
        None => line,
    }
}

/// The cookie after the user saves a model: nothing when the trimmed name is
/// empty (the form refuses it), else the existing cookie with the model's
/// line added.
pub open spec fn submit_of(name: Seq<char>, vals: Seq<Seq<char>>, existing: Option<Seq<char>>) -> Option<Seq<char>> {
    let n = trim(name);
    if n.len() == 0 {
        None
    } else {
        Some(add_line_of(existing, model_line_of(n, vals)))
    }
}

/// The views of a list of strings.
pub open spec fn string_views(v: Seq<String>) -> Seq<Seq<char>> {
    v.map_values(|s: String| s@)
}

/// The new cookie text when the user saves a model with the given name and
/// metric values; `None` when the name is blank.
pub fn submit_model(name: &str, vals: &Vec<String>, existing: &Option<String>) -> (r: Option<String>)
    ensures
        opt_view(r) == submit_of(name@, string_views(vals@), opt_view(*existing)),
{
    let n = trim_chars(&chars_of(name));
    if n.len() == 0 {
        return None;
    }
    let ghost all = seq![n@].add(string_views(vals@));
    let mut pieces: Vec<Vec<char>> = Vec::new();
    pieces.push(n);
    for k in 0..vals.len()
        invariant
            all == seq![trim(name@)].add(string_views(vals@)),
            views(pieces@) == all.take(k + 1).map_values(|v: Seq<char>| zero_if_empty(v)),
    {
        let ghost before = views(pieces@);
        let v = chars_of(vals[k].as_str());
        let piece = if v.len() == 0 {
            proof {
                reveal_strlit("0.0");
            }
            chars_of("0.0")
        } else {
            v
        };
        pieces.push(piece);
        assert(views(pieces@) =~= all.take(k + 2).map_values(|v: Seq<char>| zero_if_empty(v))) by {
            assert(views(pieces@) =~= before.push(zero_if_empty(all[k + 1])));
        }
    }
    assert(all.take(vals.len() + 1) =~= all);
    let line = join_chars(&pieces, ',');
    let mut out: Vec<char> = Vec::new();
    match existing {
        Some(e) => {
            out = chars_of(e.as_str());
            out.push('|');
        },
        None => {},
    }
    let mut tail = line;
    out.append(&mut tail);
    Some(string_of(&out))
}

/// How many rows a cookie holds: its `|`-separated parts, none without a
/// cookie.
pub open spec fn row_count_of(existing: Option<Seq<char>>) -> int {
    match existing {
        Some(e) => split_on(e, '|').len() as int,
        None => 0,
    }
}

/// Deleting the row that was just saved gives back the cookie as it was
/// before the save, when neither the model's name nor its values hold a `|`.
pub proof fn lemma_delete_after_submit(name: Seq<char>, vals: Seq<Seq<char>>, existing: Option<Seq<char>>)
    requires
        submit_of(name, vals, existing) is Some,
        !trim(name).contains('|'),
        forall|i: int| 0 <= i < vals.len() ==> !(#[trigger] vals[i]).contains('|'),
    ensures
        remove_row_of(submit_of(name, vals, existing).unwrap(), row_count_of(existing)) == existing,
{
    let n = trim(name);
    let ps = seq![n].add(vals).map_values(|v: Seq<char>| zero_if_empty(v));
    let line = model_line_of(n, vals);
    assert forall|i: int| 0 <= i < ps.len() implies !(#[trigger] ps[i]).contains('|') by {
        reveal_strlit("0.0");
        if i == 0 {
            assert(ps[0] == zero_if_empty(n));
        } else {
            assert(ps[i] == zero_if_empty(vals[i - 1]));
            if vals[i - 1].len() == 0 {
                assert(ps[i] == "0.0"@);
                if ps[i].contains('|') {
                    let k = choose|k: int| 0 <= k < ps[i].len() && ps[i][k] == '|';
                }
            }
        }
    }
    lemma_join_without(ps, ',', '|');
    lemma_split_without_sep(line, '|');
    match existing {
        Some(e) => {
            lemma_split_concat(e, line, '|');
            lemma_join_split(e, '|');
            lemma_split_on_len(e, '|');
            let parts = split_on(e, '|') + seq![line];
            assert(parts.remove(split_on(e, '|').len() as int) =~= split_on(e, '|'));
        },
        None => {
            assert(seq![line].remove(0) =~= Seq::<Seq<char>>::empty());
        },
    }
}

/// The pieces of a saved model's line: its name and its values, empty
/// values as `0.0`.
pub open spec fn model_pieces(n: Seq<char>, vals: Seq<Seq<char>>) -> Seq<Seq<char>> {
    seq![n].add(vals).map_values(|v: Seq<char>| zero_if_empty(v))
}

/// A text without the characters that separate rows and cells.
pub open spec fn plain_text(t: Seq<char>) -> bool {
    !t.contains('|') && !t.contains('\n') && !t.contains(',')
}

/// A model the user saves shows up as the last of the user's rows, with its
/// name and values (empty values as `0.0`), when the backend's table has a
/// header line and neither the name nor the values hold a `|`, a line feed
/// or a comma.
pub proof fn lemma_saved_row_shown(backend: Seq<char>, name: Seq<char>, vals: Seq<Seq<char>>, existing: Option<Seq<char>>)
    requires
        !is_blank(first_line(backend)),
        trim(name).len() > 0,
        plain_text(trim(name)),
        forall|i: int| 0 <= i < vals.len() ==> plain_text(#[trigger] vals[i]),
    ensures
        user_texts(backend, submit_of(name, vals, existing).unwrap()).len() > 0,
        user_texts(backend, submit_of(name, vals, existing).unwrap()).last() == trim_all(
            model_pieces(trim(name), vals),
        ),
{
    reveal_strlit("0.0");
    let n = trim(name);
    let ps = model_pieces(n, vals);
    let l = join(ps, ',');
    assert(model_line_of(n, vals) == l);
    let c = submit_of(name, vals, existing).unwrap();
    assert(c == add_line_of(existing, l));
    // the pieces are plain
    assert forall|i: int| 0 <= i < ps.len() implies plain_text(#[trigger] ps[i]) by {
        if i == 0 {
            assert(ps[0] == zero_if_empty(n));
        } else {
            assert(ps[i] == zero_if_empty(vals[i - 1]));
            if vals[i - 1].len() == 0 {
                assert(ps[i] == "0.0"@);
                if ps[i].contains('|') || ps[i].contains('\n') || ps[i].contains(',') {
                    let k = choose|k: int| 0 <= k < ps[i].len() && (ps[i][k] == '|' || ps[i][k] == '\n' || ps[i][k] == ',');
                }
            }
        }
    }
    lemma_join_without(ps, ',', '|');
    lemma_join_without(ps, ',', '\n');
    // the line begins with the name, whose first character is not whitespace
    lemma_trim_edges(name);
    lemma_join_prefix(ps, ',');
    assert(ps[0] == n);
    assert(l[0] == n[0]);
    assert(!is_ws(l[0]));
    assert(!is_blank(l));
    lemma_trim_end_prefix(l);
    let l2 = trim_end(l);
    assert(l2[0] == l[0]) by {
        assert(l.take(l2.len() as int)[0] == l[0]);
    }
    assert(!is_ws(l2[0]));
    assert(!l2.contains('\n')) by {
        if l2.contains('\n') {
            let k = choose|k: int| 0 <= k < l2.len() && l2[k] == '\n';
            assert(l.take(l2.len() as int)[k] == l[k]);
        }
    }
    assert(!is_blank(l2));
    // the trimmed cookie text is `s + l2`, where `s` is empty or ends with a line feed
    let r = replace_char(c, '|', '\n');
    lemma_replace_absent(l, '|', '\n');
    assert(trim_start(l) == l);
    let s: Seq<char> = match existing {
        Some(e) => {
            let p = replace_char(e, '|', '\n').push('\n');
            assert(r =~= p + replace_char(l, '|', '\n'));
            if is_blank(p) {
                lemma_trim_start_blank(p, l);
                Seq::<char>::empty()
            } else {
                lemma_trim_start_concat(p, l);
                let re = replace_char(e, '|', '\n');
                assert(!is_blank(re)) by {
                    let k = choose|k: int| 0 <= k < p.len() && !is_ws(#[trigger] p[k]);
                    assert(k < re.len());
                    assert(re[k] == p[k]);
                }
                lemma_trim_start_concat(re, seq!['\n']);
                assert(re + seq!['\n'] =~= p);
                trim_start(re) + seq!['\n']
            }
        },
        None => {
            assert(r == l);
            Seq::<char>::empty()
        },
    };
    assert(trim_start(r) == s + l);
    lemma_trim_end_concat(s, l);
    assert(trim(r) == s + l2);
    // the cookie is not blank
    assert(!is_blank(c)) by {
        let x = match existing {
            Some(e) => e.push('|'),
            None => Seq::<char>::empty(),
        };
        assert(c =~= x + l);
        assert(c[x.len() as int] == l[0]);
    }
    // the lines of the table text the user rows are read from
    let f = first_line(backend);
    lemma_lines_without_newline(backend);
    assert(!f.contains('\n'));
    let m = f.push('\n') + s;
    let mini = f.push('\n') + trim(r);
    assert(mini =~= m + l2);
    assert(m.last() == '\n') by {
        if s.len() > 0 {
            assert(m.last() == s.last());
        }
    }
    lemma_lines_append(m, l2);
    // the first line of `m` is the backend's header line
    lemma_split_concat(f, s, '\n');
    lemma_split_without_sep(f, '\n');
    lemma_split_on_len(s, '\n');
    assert(split_on(m, '\n')[0] == f);
    assert(lines(m)[0] == strip_cr(f));
    assert(!is_blank(strip_cr(f))) by {
        let k = choose|k: int| 0 <= k < f.len() && !is_ws(#[trigger] f[k]);
        if f.len() > 0 && f.last() == '\r' {
            assert(k < f.len() - 1);
            assert(strip_cr(f)[k] == f[k]);
        }
    }
    lemma_nonblank_len(lines(m), 0);
    let tl = nonblank(lines(m).push(l2));
    assert(lines(m).push(l2).drop_last() =~= lines(m));
    assert(tl == nonblank(lines(m)).push(l2));
    assert(table_lines(mini) == tl);
    // the last user row is the saved line, split and trimmed
    lemma_trim_all_trim_end(l, ',');
    lemma_split_join(ps, ',');
    assert(body_texts(mini).last() == row_texts(l2));
}

/// A user row the cookie can hold and show: not blank, without a line feed
/// or a `|`.
pub open spec fn storable_row(p: Seq<char>) -> bool {
    &&& !is_blank(p)
    &&& !p.contains('\n')
    &&& !p.contains('|')
}

/// A cookie whose rows are storable shows exactly those rows, split and
/// trimmed, under a backend table with a header line.
pub proof fn lemma_user_rows_of_parts(backend: Seq<char>, parts: Seq<Seq<char>>)
    requires
        !is_blank(first_line(backend)),
        parts.len() >= 1,
        forall|i: int| 0 <= i < parts.len() ==> storable_row(#[trigger] parts[i]),
    ensures
        user_texts(backend, join(parts, '|')) == parts.map_values(|p: Seq<char>| row_texts(p)),
{
    let n = parts.len();
    let c = join(parts, '|');
    let q = join(parts, '\n');
    lemma_replace_join(parts, '|', '\n');
    assert(replace_char(c, '|', '\n') == q);
    assert(storable_row(parts[0]));
    assert(storable_row(parts[n - 1]));
    // the cookie is not blank: it begins with its first row
    assert(!is_blank(c)) by {
        lemma_join_prefix(parts, '|');
        let k = choose|k: int| 0 <= k < parts[0].len() && !is_ws(#[trigger] parts[0][k]);
        assert(c[k] == parts[0][k]);
    }
    // trimming the joined rows trims the start of the first and the end of the last
    let z0 = trim_start(parts[0]);
    let p1 = parts.update(0, z0);
    lemma_join_update_first(parts, z0, '\n');
    lemma_trim_start_concat(parts[0], q.skip(parts[0].len() as int));
    assert(trim_start(q) == join(p1, '\n'));
    lemma_trim_start_nonblank(parts[0]);
    assert(!is_blank(p1[n - 1]));
    let z1 = trim_end(p1[n - 1]);
    let p2 = p1.update(n - 1, z1);
    lemma_join_update_last(p1, z1, '\n');
    if n == 1 {
        assert(trim_end(join(p1, '\n')) == join(p2, '\n'));
    } else {
        assert(p1.drop_last() == p1.drop_last());
        lemma_trim_end_concat(join(p1.drop_last(), '\n').push('\n'), p1.last());
        assert(trim_end(join(p1, '\n')) == join(p2, '\n'));
    }
    assert(trim(q) == join(p2, '\n'));
    lemma_trim_end_nonblank(p1[n - 1]);
    // the trimmed rows are subsequences of the rows
    lemma_trim_start_first(parts[0]);
    lemma_trim_end_prefix(p1[n - 1]);
    assert forall|i: int| 0 <= i < n implies (#[trigger] p2[i]).len() > 0 && !p2[i].contains('\n')
        && !is_blank(p2[i]) by {
        assert(storable_row(parts[i]));
        if i == n - 1 {
            assert(p2[i] == z1);
            assert(!is_blank(z1));
            if z1.contains('\n') {
                let k = choose|k: int| 0 <= k < z1.len() && z1[k] == '\n';
                assert(p1[n - 1].take(z1.len() as int)[k] == p1[n - 1][k]);
                if n == 1 {
                    assert(z0[k] == parts[0][parts[0].len() - z0.len() + k]);
                } else {
                    assert(p1[n - 1] == parts[n - 1]);
                }
            }
        } else if i == 0 {
            assert(p2[0] == z0);
            if z0.contains('\n') {
                let k = choose|k: int| 0 <= k < z0.len() && z0[k] == '\n';
                assert(z0[k] == parts[0][parts[0].len() - z0.len() + k]);
            }
        } else {
            assert(p2[i] == parts[i]);
        }
        if p2[i].len() == 0 {
            assert(is_blank(p2[i]));
        }
    }
    // the lines the user rows are read from
    let f = first_line(backend);
    lemma_lines_without_newline(backend);
    assert(!f.contains('\n'));
    let m = f.push('\n');
    lemma_lines_join(m, p2);
    let p3 = p2.drop_last().map_values(|p: Seq<char>| strip_cr(p)).push(p2.last());
    assert(f.push('\n') + trim(q) == m + join(p2, '\n'));
    lemma_split_without_sep(f, '\n');
    lemma_split_concat(f, Seq::<char>::empty(), '\n');
    assert(f.push('\n') + Seq::<char>::empty() =~= m);
    assert(split_on(Seq::<char>::empty(), '\n') =~= seq![Seq::<char>::empty()]);
    assert(split_on(m, '\n') =~= seq![f, Seq::<char>::empty()]);
    assert(lines(m) =~= seq![strip_cr(f)]);
    lemma_strip_cr_nonblank(f);
    let all = lines(m) + p3;
    assert forall|i: int| 0 <= i < all.len() implies !is_blank(#[trigger] all[i]) by {
        if i > 0 {
            assert(all[i] == p3[i - 1]);
            assert(!is_blank(p2[i - 1]));
            if i - 1 < n - 1 {
                lemma_strip_cr_nonblank(p2[i - 1]);
            }
        }
    }
    lemma_nonblank_all(all);
    assert(all.skip(1) =~= p3);
    // each shown row has the texts of its cookie row
    assert forall|i: int| 0 <= i < n implies #[trigger] row_texts(p3[i]) == row_texts(parts[i]) by {
        if i < n - 1 {
            assert(p3[i] == strip_cr(p2[i]));
            lemma_trim_all_strip_cr(p2[i], ',');
            if i == 0 {
                lemma_trim_all_trim_start(parts[0], ',');
            } else {
                assert(p2[i] == parts[i]);
            }
        } else {
            assert(p3[i] == z1);
            lemma_trim_all_trim_end(p1[n - 1], ',');
            if n == 1 {
                lemma_trim_all_trim_start(parts[0], ',');
            } else {
                assert(p1[n - 1] == parts[n - 1]);
            }
        }
    }
    assert(p3.map_values(|p: Seq<char>| row_texts(p)) =~= parts.map_values(|p: Seq<char>| row_texts(p)));
}

/// Deleting the user's row at `i` removes exactly the `i`-th row shown,
/// when every `|`-separated row of the cookie is not blank and holds no line
/// feed and the backend table has a header line (with no row left, the
/// cookie goes and no user row is shown).
pub proof fn lemma_delete_removes_row(backend: Seq<char>, cookie: Seq<char>, i: int)
    requires
        !is_blank(first_line(backend)),
        forall|k: int| 0 <= k < split_on(cookie, '|').len() ==> !is_blank(#[trigger] split_on(cookie, '|')[k])
            && !split_on(cookie, '|')[k].contains('\n'),
        0 <= i < split_on(cookie, '|').len(),
    ensures
        user_texts(backend, cookie) == split_on(cookie, '|').map_values(|p: Seq<char>| row_texts(p)),
        match remove_row_of(cookie, i) {
            Some(c) => user_texts(backend, c) == user_texts(backend, cookie).remove(i),
            None => user_texts(backend, cookie).remove(i).len() == 0,
        },
{
    let parts = split_on(cookie, '|');
    lemma_split_pieces(cookie, '|');
    lemma_join_split(cookie, '|');
    assert forall|k: int| 0 <= k < parts.len() implies storable_row(#[trigger] parts[k]) by {}
    lemma_user_rows_of_parts(backend, parts);
    let rest = parts.remove(i);
    if rest.len() > 0 {
        assert forall|k: int| 0 <= k < rest.len() implies storable_row(#[trigger] rest[k]) by {
            if k < i {
                assert(rest[k] == parts[k]);
            } else {
                assert(rest[k] == parts[k + 1]);
            }
        }
        lemma_user_rows_of_parts(backend, rest);
        assert(rest.map_values(|p: Seq<char>| row_texts(p)) =~= parts.map_values(|p: Seq<char>| row_texts(p)).remove(i));
    }
}

/// There is one header more than the first nonblank line has commas.
pub proof fn lemma_header_count(csv: Seq<char>)
    requires
        table_lines(csv).len() > 0,
    ensures
        header_texts(csv).len() == count_char(table_lines(csv)[0], ',') + 1,
{
    lemma_split_count(table_lines(csv)[0], ',');
}

/// The header texts joined with commas give back the header line, when its
/// fields have no surrounding whitespace: a header is its field, whole.
pub proof fn lemma_header_round_trip(csv: Seq<char>)
    requires
        table_lines(csv).len() > 0,
        forall|i: int|
            0 <= i < split_on(table_lines(csv)[0], ',').len() ==> trim(
                #[trigger] split_on(table_lines(csv)[0], ',')[i],
            ) == split_on(table_lines(csv)[0], ',')[i],
    ensures
        join(header_texts(csv), ',') == table_lines(csv)[0],
{
    let l = table_lines(csv)[0];
    lemma_trim_all_trimmed(split_on(l, ','));
    lemma_join_split(l, ',');
}

/// The cell texts of a line joined with commas give back the line, when its
/// fields have no surrounding whitespace; there is one cell more than the
/// line has commas.
pub proof fn lemma_row_round_trip(line: Seq<char>)
    ensures
        row_texts(line).len() == count_char(line, ',') + 1,
        (forall|i: int|
            0 <= i < split_on(line, ',').len() ==> trim(#[trigger] split_on(line, ',')[i])
                == split_on(line, ',')[i]) ==> join(row_texts(line), ',') == line,
{
    lemma_split_count(line, ',');
    if forall|i: int|
        0 <= i < split_on(line, ',').len() ==> trim(#[trigger] split_on(line, ',')[i])
            == split_on(line, ',')[i] {
        lemma_trim_all_trimmed(split_on(line, ','));
        lemma_join_split(line, ',');
    }
}

} // verus!
