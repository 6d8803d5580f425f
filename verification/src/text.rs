//! Character-level text handling shared by the CSV readers: whitespace
//! trimming, splitting on a separator, line breaking, case-insensitive
//! comparison and joining. Every operation is specified over `Seq<char>`,
//! the view of `str` and `String`, and follows the behaviour that std
//! documents for the `str` method of the same purpose.
use vstd::prelude::*;

verus! {

// ---------------------------------------------------------------------------
// Specifications
// ---------------------------------------------------------------------------

/// Unicode `White_Space`, the set that `char::is_whitespace` (and so
/// `str::trim`) uses.
pub open spec fn is_ws(c: char) -> bool {
    let u = c as u32;
    ||| 9 <= u <= 13
    ||| u == 32
    ||| u == 0x85
    ||| u == 0xA0
    ||| u == 0x1680
    ||| 0x2000 <= u <= 0x200A
    ||| u == 0x2028
    ||| u == 0x2029
    ||| u == 0x202F
    ||| u == 0x205F
    ||| u == 0x3000
}

/// `s` with its leading whitespace removed.
pub open spec fn trim_start(s: Seq<char>) -> Seq<char>
    decreases s.len(),
{
    if s.len() > 0 && is_ws(s[0]) {
        trim_start(s.drop_first())
    } else {
        s
    }
}

/// `s` with its trailing whitespace removed.
pub open spec fn trim_end(s: Seq<char>) -> Seq<char>
    decreases s.len(),
{
    if s.len() > 0 && is_ws(s.last()) {
        trim_end(s.drop_last())
    } else {
        s
    }
}

/// `str::trim`: leading and trailing whitespace removed.
pub open spec fn trim(s: Seq<char>) -> Seq<char> {
    trim_end(trim_start(s))
}

/// A text made of whitespace only (its trimmed form is empty).
pub open spec fn is_blank(s: Seq<char>) -> bool {
    forall|i: int| 0 <= i < s.len() ==> is_ws(#[trigger] s[i])
}

/// `str::split` on one separator character: the pieces between the
/// separators, always at least one (the empty text gives one empty piece).
pub open spec fn split_on(s: Seq<char>, sep: char) -> Seq<Seq<char>>
    decreases s.len(),
{
    if s.len() == 0 {
        seq![Seq::<char>::empty()]
    } else {
        let prev = split_on(s.drop_last(), sep);
        if s.last() == sep {
            prev.push(Seq::<char>::empty())
        } else {
            prev.update(prev.len() - 1, prev.last().push(s.last()))
        }
    }
}

/// A line that ended with a line feed loses a carriage return before it.
pub open spec fn strip_cr(p: Seq<char>) -> Seq<char> {
    if p.len() > 0 && p.last() == '\r' {
        p.drop_last()
    } else {
        p
    }
}

/// `str::lines`: the text split at `\n` (or `\r\n`); a final line ending
/// gives no empty last line, and a `\r` that ends an unterminated last line
/// stays.
pub open spec fn lines(s: Seq<char>) -> Seq<Seq<char>> {
    let parts = split_on(s, '\n');
    if s.len() == 0 {
        Seq::empty()
    } else {
        let ended = parts.drop_last().map_values(|p: Seq<char>| strip_cr(p));
        if s.last() == '\n' {
            ended
        } else {
            ended.push(parts.last())
        }
    }
}

/// The elements of `ls` that are not blank, in order.
pub open spec fn nonblank(ls: Seq<Seq<char>>) -> Seq<Seq<char>>
    decreases ls.len(),
{
    if ls.len() == 0 {
        Seq::empty()
    } else {
        let prev = nonblank(ls.drop_last());
        if is_blank(ls.last()) {
            prev
        } else {
            prev.push(ls.last())
        }
    }
}

/// The first line of a text, or the empty text when it has none
/// (`text.lines().next().unwrap_or("")`).
pub open spec fn first_line(s: Seq<char>) -> Seq<char> {
    if lines(s).len() > 0 {
        lines(s)[0]
    } else {
        Seq::empty()
    }
}

/// Every piece trimmed.
pub open spec fn trim_all(ps: Seq<Seq<char>>) -> Seq<Seq<char>> {
    ps.map_values(|p: Seq<char>| trim(p))
}

/// The code of a character after ASCII lowercasing (`u8::to_ascii_lowercase`
/// on ASCII letters, other characters unchanged).
pub open spec fn lower_code(c: char) -> u32 {
    let u = c as u32;
    if 65 <= u <= 90 {
        (u + 32) as u32
    } else {
        u
    }
}

/// `str::eq_ignore_ascii_case`.
pub open spec fn eq_ci(a: Seq<char>, b: Seq<char>) -> bool {
    &&& a.len() == b.len()
    &&& forall|i: int| 0 <= i < a.len() ==> lower_code(#[trigger] a[i]) == lower_code(b[i])
}

/// The first index at or after `i` whose element equals `a` or `b`,
/// ignoring ASCII case (`iter().position(..)` with two accepted names).
pub open spec fn pos_from(hs: Seq<Seq<char>>, a: Seq<char>, b: Seq<char>, i: int) -> Option<int>
    decreases hs.len() - i,
{
    if !(0 <= i < hs.len()) {
        None
    } else if eq_ci(hs[i], a) || eq_ci(hs[i], b) {
        Some(i)
    } else {
        pos_from(hs, a, b, i + 1)
    }
}

/// The first index whose element equals `a` or `b`, ignoring ASCII case.
pub open spec fn position2(hs: Seq<Seq<char>>, a: Seq<char>, b: Seq<char>) -> Option<int> {
    pos_from(hs, a, b, 0)
}

/// The first index whose element equals `a`, ignoring ASCII case.
pub open spec fn position(hs: Seq<Seq<char>>, a: Seq<char>) -> Option<int> {
    pos_from(hs, a, a, 0)
}

/// An optional index as an optional integer.
pub open spec fn opt_int(o: Option<usize>) -> Option<int> {
    match o {
        Some(i) => Some(i as int),
        None => None,
    }
}

/// How many times `c` occurs in `s`.
pub open spec fn count_char(s: Seq<char>, c: char) -> nat
    decreases s.len(),
{
    if s.len() == 0 {
        0
    } else {
        count_char(s.drop_last(), c) + if s.last() == c {
            1nat
        } else {
            0nat
        }
    }
}

/// The pieces joined with `sep` between neighbours (`join` on a slice of
/// strings).
pub open spec fn join(ps: Seq<Seq<char>>, sep: char) -> Seq<char>
    decreases ps.len(),
{
    if ps.len() == 0 {
        Seq::empty()
    } else if ps.len() == 1 {
        ps[0]
    } else {
        join(ps.drop_last(), sep).push(sep) + ps.last()
    }
}

/// `str::trim_start_matches(c)`: every leading `c` removed.
pub open spec fn strip_leading(s: Seq<char>, c: char) -> Seq<char>
    decreases s.len(),
{
    if s.len() > 0 && s[0] == c {
        strip_leading(s.drop_first(), c)
    } else {
        s
    }
}

/// `str::replace` of one character by another.
pub open spec fn replace_char(s: Seq<char>, from: char, to: char) -> Seq<char> {
    s.map_values(|c: char| if c == from { to } else { c })
}

/// The index of the last occurrence of `c` in `s` (`str::rfind`).
pub open spec fn last_index_of(s: Seq<char>, c: char) -> Option<int>
    decreases s.len(),
{
    if s.len() == 0 {
        None
    } else if s.last() == c {
        Some(s.len() - 1)
    } else {
        last_index_of(s.drop_last(), c)
    }
}

/// Strict lexicographic order by code point, which is the order of `String`
/// (byte order of UTF-8 agrees with code point order).
pub open spec fn lex_lt(a: Seq<char>, b: Seq<char>) -> bool
    decreases a.len(),
{
    if a.len() == 0 {
        b.len() > 0
    } else if b.len() == 0 {
        false
    } else if a[0] != b[0] {
        (a[0] as u32) < (b[0] as u32)
    } else {
        lex_lt(a.drop_first(), b.drop_first())
    }
}

/// The trimmed text of a field, when the line has that column.
pub open spec fn field_text(fields: Seq<Seq<char>>, col: Option<int>) -> Option<Seq<char>> {
    match col {
        Some(i) => if 0 <= i < fields.len() {
            Some(trim(fields[i]))
        } else {
            None
        },
        None => None,
    }
}

/// The view of an optional string.
pub open spec fn opt_view(o: Option<String>) -> Option<Seq<char>> {
    match o {
        Some(s) => Some(s@),
        None => None,
    }
}

/// The character sequences held by a vector of character vectors.
pub open spec fn views(r: Seq<Vec<char>>) -> Seq<Seq<char>> {
    r.map_values(|v: Vec<char>| v@)
}

// ---------------------------------------------------------------------------
// Lemmas
// ---------------------------------------------------------------------------

pub proof fn lemma_split_on_len(s: Seq<char>, sep: char)
    ensures
        split_on(s, sep).len() >= 1,
    decreases s.len(),
{
    if s.len() > 0 {
        lemma_split_on_len(s.drop_last(), sep);
    }
}

proof fn lemma_join_push_last(ps: Seq<Seq<char>>, sep: char, x: char)
    requires
        ps.len() >= 1,
    ensures
        join(ps.update(ps.len() - 1, ps.last().push(x)), sep) == join(ps, sep).push(x),
{
    let q = ps.update(ps.len() - 1, ps.last().push(x));
    if ps.len() == 1 {
        assert(join(q, sep) == q[0]);
    } else {
        assert(q.drop_last() =~= ps.drop_last());
        assert(join(q, sep) =~= join(ps, sep).push(x));
    }
}

/// The last occurrence of `c` lies in `s`, holds `c`, and none follows it.
pub proof fn lemma_last_index(s: Seq<char>, c: char)
    ensures
        last_index_of(s, c) matches Some(p) ==> 0 <= p < s.len() && s[p] == c && forall|j: int|
            p < j < s.len() ==> #[trigger] s[j] != c,
        last_index_of(s, c) is None ==> forall|j: int| 0 <= j < s.len() ==> #[trigger] s[j] != c,
    decreases s.len(),
{
    if s.len() > 0 {
        lemma_last_index(s.drop_last(), c);
        if s.last() != c {
            assert forall|j: int| 0 <= j < s.len() - 1 implies s[j] == s.drop_last()[j] by {}
        }
    }
}

/// Joining the pieces of a split with the same separator gives back the
/// text.
pub proof fn lemma_join_split(s: Seq<char>, sep: char)
    ensures
        join(split_on(s, sep), sep) == s,
    decreases s.len(),
{
    if s.len() == 0 {
        assert(join(split_on(s, sep), sep) =~= s);
    } else {
        let prev = split_on(s.drop_last(), sep);
        lemma_join_split(s.drop_last(), sep);
        lemma_split_on_len(s.drop_last(), sep);
        if s.last() == sep {
            let q = prev.push(Seq::<char>::empty());
            assert(q.drop_last() =~= prev);
            assert(join(q, sep) =~= s);
        } else {
            lemma_join_push_last(prev, sep, s.last());
            assert(s.drop_last().push(s.last()) =~= s);
        }
    }
}

/// Splitting a text made of `a`, a separator and `b` gives the pieces of `a`
/// followed by the pieces of `b`.
pub proof fn lemma_split_concat(a: Seq<char>, b: Seq<char>, sep: char)
    ensures
        split_on(a.push(sep) + b, sep) == split_on(a, sep) + split_on(b, sep),
    decreases b.len(),
{
    let ab = a.push(sep) + b;
    if b.len() == 0 {
        assert(ab =~= a.push(sep));
        assert(a.push(sep).drop_last() =~= a);
        assert(split_on(ab, sep) =~= split_on(a, sep) + split_on(b, sep));
    } else {
        lemma_split_concat(a, b.drop_last(), sep);
        lemma_split_on_len(b.drop_last(), sep);
        assert(ab.drop_last() =~= a.push(sep) + b.drop_last());
        let pa = split_on(a, sep);
        let pb = split_on(b.drop_last(), sep);
        if b.last() == sep {
            assert(split_on(ab, sep) =~= pa + split_on(b, sep));
        } else {
            assert(split_on(ab, sep) =~= pa + split_on(b, sep));
        }
    }
}

/// A text without the separator is one piece.
pub proof fn lemma_split_without_sep(s: Seq<char>, sep: char)
    requires
        !s.contains(sep),
    ensures
        split_on(s, sep) == seq![s],
    decreases s.len(),
{
    if s.len() == 0 {
        assert(s =~= Seq::<char>::empty());
        assert(split_on(s, sep) =~= seq![s]);
    } else {
        assert(!s.drop_last().contains(sep)) by {
            if s.drop_last().contains(sep) {
                let k = choose|k: int| 0 <= k < s.drop_last().len() && s.drop_last()[k] == sep;
                assert(s[k] == sep);
            }
        }
        lemma_split_without_sep(s.drop_last(), sep);
        assert(s[s.len() - 1] != sep);
        assert(s.drop_last().push(s.last()) =~= s);
        assert(split_on(s, sep) =~= seq![s]);
    }
}

/// Joining pieces that do not hold `c` with a separator other than `c`
/// gives a text without `c`.
pub proof fn lemma_join_without(ps: Seq<Seq<char>>, sep: char, c: char)
    requires
        sep != c,
        forall|i: int| 0 <= i < ps.len() ==> !(#[trigger] ps[i]).contains(c),
    ensures
        !join(ps, sep).contains(c),
    decreases ps.len(),
{
    if ps.len() > 1 {
        lemma_join_without(ps.drop_last(), sep, c);
        let j = join(ps.drop_last(), sep).push(sep);
        assert(!ps.last().contains(c));
        if (j + ps.last()).contains(c) {
            let k = choose|k: int| 0 <= k < (j + ps.last()).len() && (j + ps.last())[k] == c;
            if k < j.len() {
                if k < j.len() - 1 {
                    assert(join(ps.drop_last(), sep)[k] == c);
                }
            } else {
                assert(ps.last()[k - j.len()] == c);
            }
        }
    } else if ps.len() == 1 {
        assert(!ps[0].contains(c));
    }
}

/// No piece of a split holds the separator.
pub proof fn lemma_split_pieces(s: Seq<char>, sep: char)
    ensures
        forall|i: int| 0 <= i < split_on(s, sep).len() ==> !(#[trigger] split_on(s, sep)[i]).contains(sep),
    decreases s.len(),
{
    if s.len() > 0 {
        lemma_split_pieces(s.drop_last(), sep);
        lemma_split_on_len(s.drop_last(), sep);
        let prev = split_on(s.drop_last(), sep);
        if s.last() != sep {
            let lp = prev.last().push(s.last());
            assert(!lp.contains(sep)) by {
                if lp.contains(sep) {
                    let k = choose|k: int| 0 <= k < lp.len() && lp[k] == sep;
                    if k < prev.last().len() {
                        assert(prev[prev.len() - 1][k] == sep);
                        assert(prev[prev.len() - 1].contains(sep));
                    }
                }
            }
            assert forall|i: int| 0 <= i < split_on(s, sep).len() implies !(#[trigger] split_on(s, sep)[i]).contains(sep) by {
                if i < prev.len() - 1 {
                    assert(split_on(s, sep)[i] == prev[i]);
                }
            }
        } else {
            assert forall|i: int| 0 <= i < split_on(s, sep).len() implies !(#[trigger] split_on(s, sep)[i]).contains(sep) by {
                if i < prev.len() {
                    assert(split_on(s, sep)[i] == prev[i]);
                } else {
                    assert(split_on(s, sep)[i] =~= Seq::<char>::empty());
                }
            }
        }
    }
}

/// No line holds a line feed.
pub proof fn lemma_lines_without_newline(s: Seq<char>)
    ensures
        forall|i: int| 0 <= i < lines(s).len() ==> !(#[trigger] lines(s)[i]).contains('\n'),
{
    lemma_split_pieces(s, '\n');
    lemma_split_on_len(s, '\n');
    let parts = split_on(s, '\n');
    if s.len() > 0 {
        assert forall|i: int| 0 <= i < lines(s).len() implies !(#[trigger] lines(s)[i]).contains('\n') by {
            if i < parts.len() - 1 {
                let p = parts[i];
                assert(lines(s)[i] == strip_cr(p));
                assert(!p.contains('\n'));
                if strip_cr(p).contains('\n') {
                    let k = choose|k: int| 0 <= k < strip_cr(p).len() && strip_cr(p)[k] == '\n';
                    assert(p[k] == '\n');
                }
            } else {
                assert(lines(s)[i] == parts.last());
                assert(!parts[parts.len() - 1].contains('\n'));
            }
        }
    }
}

/// The pieces joined with a separator none of them holds split back into
/// the pieces.
pub proof fn lemma_split_join(ps: Seq<Seq<char>>, sep: char)
    requires
        ps.len() >= 1,
        forall|i: int| 0 <= i < ps.len() ==> !(#[trigger] ps[i]).contains(sep),
    ensures
        split_on(join(ps, sep), sep) == ps,
    decreases ps.len(),
{
    if ps.len() == 1 {
        lemma_split_without_sep(ps[0], sep);
        assert(seq![ps[0]] =~= ps);
    } else {
        let d = ps.drop_last();
        lemma_split_join(d, sep);
        lemma_split_concat(join(d, sep), ps.last(), sep);
        assert(!ps[ps.len() - 1].contains(sep));
        lemma_split_without_sep(ps.last(), sep);
        assert(d + seq![ps.last()] =~= ps);
    }
}

/// Leading whitespace of a text that is not blank stops inside it.
pub proof fn lemma_trim_start_concat(p: Seq<char>, q: Seq<char>)
    requires
        !is_blank(p),
    ensures
        trim_start(p + q) == trim_start(p) + q,
    decreases p.len(),
{
    if is_ws(p[0]) {
        assert(!is_blank(p.drop_first())) by {
            let k = choose|k: int| 0 <= k < p.len() && !is_ws(#[trigger] p[k]);
            assert(k > 0);
            assert(p.drop_first()[k - 1] == p[k]);
        }
        lemma_trim_start_concat(p.drop_first(), q);
        assert((p + q).drop_first() =~= p.drop_first() + q);
    }
}

/// A blank text before `q` is trimmed away with the leading whitespace of
/// `q`.
pub proof fn lemma_trim_start_blank(p: Seq<char>, q: Seq<char>)
    requires
        is_blank(p),
    ensures
        trim_start(p + q) == trim_start(q),
    decreases p.len(),
{
    if p.len() == 0 {
        assert(p + q =~= q);
    } else {
        assert(is_ws(p[0]));
        assert(is_blank(p.drop_first())) by {
            assert forall|i: int| 0 <= i < p.drop_first().len() implies is_ws(#[trigger] p.drop_first()[i]) by {
                assert(p.drop_first()[i] == p[i + 1]);
            }
        }
        lemma_trim_start_blank(p.drop_first(), q);
        assert((p + q).drop_first() =~= p.drop_first() + q);
    }
}

/// Trailing whitespace of a text that is not blank stops inside it.
pub proof fn lemma_trim_end_concat(q: Seq<char>, l: Seq<char>)
    requires
        !is_blank(l),
    ensures
        trim_end(q + l) == q + trim_end(l),
    decreases l.len(),
{
    if is_ws(l.last()) {
        assert(!is_blank(l.drop_last())) by {
            let k = choose|k: int| 0 <= k < l.len() && !is_ws(#[trigger] l[k]);
            assert(k < l.len() - 1);
            assert(l.drop_last()[k] == l[k]);
        }
        lemma_trim_end_concat(q, l.drop_last());
        assert((q + l).drop_last() =~= q + l.drop_last());
    } else {
        assert((q + l).last() == l.last());
    }
}

/// A blank text trims to nothing from the start.
pub proof fn lemma_trim_start_of_blank(p: Seq<char>)
    requires
        is_blank(p),
    ensures
        trim_start(p) == Seq::<char>::empty(),
{
    lemma_trim_start_blank(p, Seq::<char>::empty());
    assert(p + Seq::<char>::empty() =~= p);
}

/// Trailing whitespace does not change a trimmed text.
pub proof fn lemma_trim_push_ws(p: Seq<char>, w: char)
    requires
        is_ws(w),
    ensures
        trim(p.push(w)) == trim(p),
{
    if is_blank(p) {
        assert(is_blank(p.push(w))) by {
            assert forall|i: int| 0 <= i < p.push(w).len() implies is_ws(#[trigger] p.push(w)[i]) by {
                if i < p.len() {
                    assert(p.push(w)[i] == p[i]);
                }
            }
        }
        lemma_trim_start_of_blank(p);
        lemma_trim_start_of_blank(p.push(w));
    } else {
        lemma_trim_start_concat(p, seq![w]);
        assert(p + seq![w] =~= p.push(w));
        assert(trim_start(p) + seq![w] =~= trim_start(p).push(w));
        assert(trim_start(p).push(w).drop_last() =~= trim_start(p));
    }
}

/// Trailing whitespace does not change the trimmed pieces of a split on a
/// separator that is not whitespace.
pub proof fn lemma_trim_all_trim_end(x: Seq<char>, sep: char)
    requires
        !is_ws(sep),
    ensures
        trim_all(split_on(trim_end(x), sep)) == trim_all(split_on(x, sep)),
    decreases x.len(),
{
    if x.len() > 0 && is_ws(x.last()) {
        let d = x.drop_last();
        lemma_trim_all_trim_end(d, sep);
        lemma_split_on_len(d, sep);
        let prev = split_on(d, sep);
        lemma_trim_push_ws(prev.last(), x.last());
        assert(trim_all(split_on(x, sep)) =~= trim_all(prev));
    }
}

/// A text that ends with a line feed, followed by a line without one: the
/// lines of the first and then that line.
pub proof fn lemma_lines_append(m: Seq<char>, l: Seq<char>)
    requires
        m.len() == 0 || m.last() == '\n',
        l.len() > 0,
        !l.contains('\n'),
    ensures
        lines(m + l) == lines(m).push(l),
{
    lemma_split_without_sep(l, '\n');
    assert((m + l).last() == l.last());
    assert(l.last() != '\n') by {
        assert(l[l.len() - 1] == l.last());
    }
    if m.len() == 0 {
        assert(m + l =~= l);
        assert(lines(m) =~= Seq::<Seq<char>>::empty());
        assert(lines(l) =~= seq![l]);
    } else {
        let m1 = m.drop_last();
        assert(m =~= m1.push('\n'));
        lemma_split_concat(m1, l, '\n');
        assert(m1.push('\n') + l =~= m + l);
        lemma_split_concat(m1, Seq::<char>::empty(), '\n');
        assert(m1.push('\n') + Seq::<char>::empty() =~= m);
        assert(split_on(Seq::<char>::empty(), '\n') =~= seq![Seq::<char>::empty()]);
        let sm = split_on(m1, '\n');
        assert((sm + seq![l]).drop_last() =~= sm);
        assert((sm + seq![Seq::<char>::empty()]).drop_last() =~= sm);
        assert(lines(m + l) =~= lines(m).push(l));
    }
}

/// Some element is not blank, so the nonblank ones are not none.
pub proof fn lemma_nonblank_len(xs: Seq<Seq<char>>, i: int)
    requires
        0 <= i < xs.len(),
        !is_blank(xs[i]),
    ensures
        nonblank(xs).len() >= 1,
    decreases xs.len(),
{
    if i < xs.len() - 1 {
        assert(xs.drop_last()[i] == xs[i]);
        lemma_nonblank_len(xs.drop_last(), i);
    }
}

/// What remains after trimming the start begins with a character that is
/// not whitespace, and what was trimmed is whitespace.
pub proof fn lemma_trim_start_first(s: Seq<char>)
    ensures
        trim_start(s).len() > 0 ==> !is_ws(trim_start(s)[0]),
        trim_start(s).len() <= s.len(),
        trim_start(s) == s.skip(s.len() - trim_start(s).len()),
        forall|i: int| 0 <= i < s.len() - trim_start(s).len() ==> is_ws(#[trigger] s[i]),
    decreases s.len(),
{
    if s.len() > 0 && is_ws(s[0]) {
        lemma_trim_start_first(s.drop_first());
        assert(s.drop_first().skip(s.drop_first().len() - trim_start(s.drop_first()).len()) =~= s.skip(s.len() - trim_start(s).len()));
        assert forall|i: int| 0 <= i < s.len() - trim_start(s).len() implies is_ws(#[trigger] s[i]) by {
            if i > 0 {
                assert(s[i] == s.drop_first()[i - 1]);
            }
        }
    } else {
        assert(s.skip(0) =~= s);
    }
}

/// Trimming the end keeps a prefix; when the text starts with a character
/// that is not whitespace, that character stays.
pub proof fn lemma_trim_end_prefix(t: Seq<char>)
    ensures
        trim_end(t).len() <= t.len(),
        trim_end(t) == t.take(trim_end(t).len() as int),
        trim_end(t).len() > 0 ==> !is_ws(trim_end(t).last()),
        t.len() > 0 && !is_ws(t[0]) ==> trim_end(t).len() >= 1,
    decreases t.len(),
{
    if t.len() > 0 && is_ws(t.last()) {
        lemma_trim_end_prefix(t.drop_last());
        assert(t.drop_last().take(trim_end(t).len() as int) =~= t.take(trim_end(t).len() as int));
        if t.len() > 1 && !is_ws(t[0]) {
            assert(t.drop_last()[0] == t[0]);
        }
    } else {
        assert(t.take(t.len() as int) =~= t);
    }
}

/// A trimmed text that is not empty begins and ends with characters that
/// are not whitespace.
pub proof fn lemma_trim_edges(s: Seq<char>)
    ensures
        trim(s).len() > 0 ==> !is_ws(trim(s)[0]) && !is_ws(trim(s).last()),
{
    lemma_trim_start_first(s);
    lemma_trim_end_prefix(trim_start(s));
    if trim(s).len() > 0 {
        assert(trim(s)[0] == trim_start(s)[0]);
    }
}

/// A join begins with its first piece.
pub proof fn lemma_join_prefix(ps: Seq<Seq<char>>, sep: char)
    requires
        ps.len() >= 1,
    ensures
        join(ps, sep).len() >= ps[0].len(),
        forall|k: int| 0 <= k < ps[0].len() ==> #[trigger] join(ps, sep)[k] == ps[0][k],
    decreases ps.len(),
{
    if ps.len() > 1 {
        lemma_join_prefix(ps.drop_last(), sep);
        let j = join(ps.drop_last(), sep);
        assert forall|k: int| 0 <= k < ps[0].len() implies #[trigger] join(ps, sep)[k] == ps[0][k] by {
            assert(join(ps, sep)[k] == j[k]);
            assert(ps.drop_last()[0] == ps[0]);
        }
    }
}

/// Replacing a character the text does not hold changes nothing.
pub proof fn lemma_replace_absent(s: Seq<char>, from: char, to: char)
    requires
        !s.contains(from),
    ensures
        replace_char(s, from, to) == s,
{
    assert forall|i: int| 0 <= i < s.len() implies replace_char(s, from, to)[i] == s[i] by {
        if s[i] == from {
            assert(s.contains(from));
        }
    }
    assert(replace_char(s, from, to) =~= s);
}

/// A final line feed after a text that does not end a line adds no line;
/// it only drops a carriage return that ended the last line.
pub proof fn lemma_lines_newline(t: Seq<char>)
    requires
        t.len() > 0,
        t.last() != '\n',
    ensures
        lines(t).len() >= 1,
        lines(t.push('\n')) == lines(t).update(lines(t).len() - 1, strip_cr(lines(t).last())),
{
    lemma_split_on_len(t, '\n');
    let sp = split_on(t, '\n');
    assert(t.push('\n').drop_last() =~= t);
    assert(split_on(t.push('\n'), '\n') == sp.push(Seq::<char>::empty()));
    assert(sp.push(Seq::<char>::empty()).drop_last() =~= sp);
    assert(sp.map_values(|p: Seq<char>| strip_cr(p)) =~= sp.drop_last().map_values(|p: Seq<char>| strip_cr(p)).push(sp.last()).update(sp.len() - 1, strip_cr(sp.last())));
}

/// The last piece of a split is a suffix of the text.
pub proof fn lemma_split_last_suffix(s: Seq<char>, sep: char)
    ensures
        split_on(s, sep).last().len() <= s.len(),
        split_on(s, sep).last() == s.skip(s.len() - split_on(s, sep).last().len()),
    decreases s.len(),
{
    lemma_split_on_len(s, sep);
    if s.len() == 0 {
        assert(s.skip(0) =~= s);
    } else {
        lemma_split_last_suffix(s.drop_last(), sep);
        lemma_split_on_len(s.drop_last(), sep);
        let prev = split_on(s.drop_last(), sep);
        if s.last() == sep {
            assert(s.skip(s.len() as int) =~= Seq::<char>::empty());
        } else {
            let d = s.drop_last();
            assert(prev.last() == d.skip(d.len() - prev.last().len()));
            assert(prev.last().push(s.last()) =~= s.skip(s.len() - (prev.last().len() + 1)));
        }
    }
}

/// The lines of a text that ends a line, followed by lines joined with line
/// feeds: the lines of the text, then those lines, each but the last without
/// a carriage return that ended it.
pub proof fn lemma_lines_join(m: Seq<char>, ls: Seq<Seq<char>>)
    requires
        m.len() == 0 || m.last() == '\n',
        ls.len() >= 1,
        forall|i: int| 0 <= i < ls.len() ==> (#[trigger] ls[i]).len() > 0 && !ls[i].contains('\n'),
    ensures
        lines(m + join(ls, '\n')) == lines(m) + ls.drop_last().map_values(|p: Seq<char>| strip_cr(p)).push(ls.last()),
    decreases ls.len(),
{
    if ls.len() == 1 {
        assert(join(ls, '\n') == ls[0]);
        lemma_lines_append(m, ls[0]);
        assert(lines(m).push(ls[0]) =~= lines(m) + ls.drop_last().map_values(|p: Seq<char>| strip_cr(p)).push(ls.last()));
    } else {
        let d = ls.drop_last();
        let x = ls.last();
        assert forall|i: int| 0 <= i < d.len() implies (#[trigger] d[i]).len() > 0 && !d[i].contains('\n') by {
            assert(d[i] == ls[i]);
        }
        lemma_lines_join(m, d);
        let jd = join(d, '\n');
        assert(jd.len() > 0 && jd.last() == d.last().last()) by {
            assert(d.last() == ls[ls.len() - 2]);
            lemma_join_last(d, '\n');
        }
        assert(d.last().last() != '\n') by {
            assert(d.last() == ls[ls.len() - 2]);
            assert(!d.last().contains('\n'));
            assert(d.last()[d.last().len() - 1] == d.last().last());
        }
        assert((m + jd).last() == jd.last());
        lemma_lines_newline(m + jd);
        assert((m + jd).push('\n') =~= m + jd.push('\n'));
        assert(ls[ls.len() - 1] == x);
        assert(!x.contains('\n'));
        lemma_lines_append(m + jd.push('\n'), x);
        assert(m + jd.push('\n') + x =~= m + join(ls, '\n'));
        let before = lines(m) + d.drop_last().map_values(|p: Seq<char>| strip_cr(p)).push(d.last());
        assert(before.update(before.len() - 1, strip_cr(before.last())) =~= lines(m) + d.map_values(|p: Seq<char>| strip_cr(p)));
        assert(d.map_values(|p: Seq<char>| strip_cr(p)) =~= ls.drop_last().map_values(|p: Seq<char>| strip_cr(p)));
        assert((lines(m) + d.map_values(|p: Seq<char>| strip_cr(p))).push(x) =~= lines(m) + ls.drop_last().map_values(|p: Seq<char>| strip_cr(p)).push(ls.last()));
    }
}

/// A join ends with the end of its last piece.
pub proof fn lemma_join_last(ps: Seq<Seq<char>>, sep: char)
    requires
        ps.len() >= 1,
        ps.last().len() > 0,
    ensures
        join(ps, sep).len() > 0,
        join(ps, sep).last() == ps.last().last(),
{
    if ps.len() > 1 {
        let j = join(ps.drop_last(), sep).push(sep);
        assert((j + ps.last()).last() == ps.last().last());
    }
}

/// Replacing a separator that the pieces do not hold, in their join, gives
/// the join with the new separator.
pub proof fn lemma_replace_join(ps: Seq<Seq<char>>, from: char, to: char)
    requires
        forall|i: int| 0 <= i < ps.len() ==> !(#[trigger] ps[i]).contains(from),
    ensures
        replace_char(join(ps, from), from, to) == join(ps, to),
    decreases ps.len(),
{
    if ps.len() == 1 {
        lemma_replace_absent(ps[0], from, to);
    } else if ps.len() > 1 {
        lemma_replace_join(ps.drop_last(), from, to);
        assert(!ps[ps.len() - 1].contains(from));
        lemma_replace_absent(ps.last(), from, to);
        let a = join(ps.drop_last(), from);
        assert(replace_char(a.push(from) + ps.last(), from, to) =~= replace_char(a, from, to).push(to)
            + replace_char(ps.last(), from, to));
    } else {
        assert(replace_char(join(ps, from), from, to) =~= join(ps, to));
    }
}

/// When no element is blank, all are kept.
pub proof fn lemma_nonblank_all(xs: Seq<Seq<char>>)
    requires
        forall|i: int| 0 <= i < xs.len() ==> !is_blank(#[trigger] xs[i]),
    ensures
        nonblank(xs) == xs,
    decreases xs.len(),
{
    if xs.len() > 0 {
        assert(!is_blank(xs[xs.len() - 1]));
        assert forall|i: int| 0 <= i < xs.drop_last().len() implies !is_blank(#[trigger] xs.drop_last()[i]) by {
            assert(xs.drop_last()[i] == xs[i]);
        }
        lemma_nonblank_all(xs.drop_last());
        assert(xs.drop_last().push(xs.last()) =~= xs);
    }
}

/// Trimming the start of a text that is not blank leaves a text that is not
/// blank.
pub proof fn lemma_trim_start_nonblank(s: Seq<char>)
    requires
        !is_blank(s),
    ensures
        !is_blank(trim_start(s)),
    decreases s.len(),
{
    if is_ws(s[0]) {
        assert(!is_blank(s.drop_first())) by {
            let k = choose|k: int| 0 <= k < s.len() && !is_ws(#[trigger] s[k]);
            assert(k > 0);
            assert(s.drop_first()[k - 1] == s[k]);
        }
        lemma_trim_start_nonblank(s.drop_first());
    }
}

/// Trimming the end of a text that is not blank leaves a text that is not
/// blank.
pub proof fn lemma_trim_end_nonblank(s: Seq<char>)
    requires
        !is_blank(s),
    ensures
        !is_blank(trim_end(s)),
    decreases s.len(),
{
    if is_ws(s.last()) {
        assert(!is_blank(s.drop_last())) by {
            let k = choose|k: int| 0 <= k < s.len() && !is_ws(#[trigger] s[k]);
            assert(k < s.len() - 1);
            assert(s.drop_last()[k] == s[k]);
        }
        lemma_trim_end_nonblank(s.drop_last());
    }
}

/// Dropping a carriage return that ends a text that is not blank leaves a
/// text that is not blank.
pub proof fn lemma_strip_cr_nonblank(s: Seq<char>)
    requires
        !is_blank(s),
    ensures
        !is_blank(strip_cr(s)),
{
    let k = choose|k: int| 0 <= k < s.len() && !is_ws(#[trigger] s[k]);
    if s.len() > 0 && s.last() == '\r' {
        assert(k < s.len() - 1);
        assert(strip_cr(s)[k] == s[k]);
    }
}

/// A text without the separator before `b` joins the first piece of `b`.
pub proof fn lemma_split_prefix(a: Seq<char>, b: Seq<char>, sep: char)
    requires
        !a.contains(sep),
    ensures
        split_on(a + b, sep) == split_on(b, sep).update(0, a + split_on(b, sep)[0]),
    decreases b.len(),
{
    if b.len() == 0 {
        lemma_split_without_sep(a, sep);
        assert(a + b =~= a);
        assert(split_on(b, sep) =~= seq![Seq::<char>::empty()]);
        assert(a + Seq::<char>::empty() =~= a);
        assert(split_on(b, sep).update(0, a + split_on(b, sep)[0]) =~= seq![a]);
    } else {
        let b1 = b.drop_last();
        lemma_split_prefix(a, b1, sep);
        lemma_split_on_len(b1, sep);
        assert((a + b).drop_last() =~= a + b1);
        assert((a + b).last() == b.last());
        let sb = split_on(b1, sep);
        if b.last() == sep {
            assert(split_on(a + b, sep) =~= split_on(b, sep).update(0, a + split_on(b, sep)[0]));
        } else {
            if sb.len() == 1 {
                assert((a + sb[0]).push(b.last()) =~= a + sb[0].push(b.last()));
            }
            assert(split_on(a + b, sep) =~= split_on(b, sep).update(0, a + split_on(b, sep)[0]));
        }
    }
}

/// Leading whitespace does not change the trimmed pieces of a split on a
/// separator that is not whitespace.
pub proof fn lemma_trim_all_trim_start(x: Seq<char>, sep: char)
    requires
        !is_ws(sep),
    ensures
        trim_all(split_on(trim_start(x), sep)) == trim_all(split_on(x, sep)),
{
    lemma_trim_start_first(x);
    let k = x.len() - trim_start(x).len();
    let a = x.take(k);
    let b = trim_start(x);
    assert(x =~= a + b);
    assert(is_blank(a)) by {
        assert forall|i: int| 0 <= i < a.len() implies is_ws(#[trigger] a[i]) by {
            assert(a[i] == x[i]);
        }
    }
    assert(!a.contains(sep)) by {
        if a.contains(sep) {
            let i = choose|i: int| 0 <= i < a.len() && a[i] == sep;
            assert(is_ws(a[i]));
        }
    }
    lemma_split_prefix(a, b, sep);
    lemma_split_on_len(b, sep);
    let sb = split_on(b, sep);
    lemma_trim_start_blank(a, sb[0]);
    assert(trim_all(split_on(x, sep)) =~= trim_all(sb));
}

/// A carriage return that ends the text does not change the trimmed pieces
/// of a split on a separator that is not whitespace.
pub proof fn lemma_trim_all_strip_cr(x: Seq<char>, sep: char)
    requires
        !is_ws(sep),
    ensures
        trim_all(split_on(strip_cr(x), sep)) == trim_all(split_on(x, sep)),
{
    if x.len() > 0 && x.last() == '\r' {
        assert(trim_end(x) == trim_end(x.drop_last()));
        lemma_trim_all_trim_end(x, sep);
        lemma_trim_all_trim_end(x.drop_last(), sep);
    }
}

/// Replacing the first piece of a join.
pub proof fn lemma_join_update_first(ps: Seq<Seq<char>>, z: Seq<char>, sep: char)
    requires
        ps.len() >= 1,
    ensures
        join(ps, sep) == ps[0] + join(ps, sep).skip(ps[0].len() as int),
        join(ps.update(0, z), sep) == z + join(ps, sep).skip(ps[0].len() as int),
    decreases ps.len(),
{
    lemma_join_prefix(ps, sep);
    assert(join(ps, sep) =~= ps[0] + join(ps, sep).skip(ps[0].len() as int));
    if ps.len() == 1 {
        assert(join(ps, sep).skip(ps[0].len() as int) =~= Seq::<char>::empty());
        assert(z + Seq::<char>::empty() =~= z);
    } else {
        let d = ps.drop_last();
        lemma_join_update_first(d, z, sep);
        lemma_join_prefix(d, sep);
        assert(ps.update(0, z).drop_last() =~= d.update(0, z));
        assert(ps.update(0, z).last() == ps.last());
        let k = ps[0].len() as int;
        assert(d[0] == ps[0]);
        assert(join(ps, sep).skip(k) =~= join(d, sep).skip(k).push(sep) + ps.last());
        assert(join(ps.update(0, z), sep) =~= z + join(ps, sep).skip(k));
    }
}

/// Replacing the last piece of a join.
pub proof fn lemma_join_update_last(ps: Seq<Seq<char>>, z: Seq<char>, sep: char)
    requires
        ps.len() >= 1,
    ensures
        ps.len() == 1 ==> join(ps, sep) == ps.last(),
        ps.len() > 1 ==> join(ps, sep) == join(ps.drop_last(), sep).push(sep) + ps.last(),
        ps.len() == 1 ==> join(ps.update(ps.len() - 1, z), sep) == z,
        ps.len() > 1 ==> join(ps.update(ps.len() - 1, z), sep) == join(ps.drop_last(), sep).push(sep) + z,
{
    let q = ps.update(ps.len() - 1, z);
    if ps.len() > 1 {
        assert(q.drop_last() =~= ps.drop_last());
    }
}

proof fn lemma_pos_from_first(hs: Seq<Seq<char>>, a: Seq<char>, b: Seq<char>, i: int)
    requires
        0 <= i,
    ensures
        match pos_from(hs, a, b, i) {
            Some(k) => i <= k < hs.len() && (eq_ci(hs[k], a) || eq_ci(hs[k], b)) && forall|j: int|
                i <= j < k ==> !(eq_ci(#[trigger] hs[j], a) || eq_ci(hs[j], b)),
            None => forall|j: int| i <= j < hs.len() ==> !(eq_ci(#[trigger] hs[j], a) || eq_ci(hs[j], b)),
        },
    decreases hs.len() - i,
{
    if i < hs.len() && !(eq_ci(hs[i], a) || eq_ci(hs[i], b)) {
        lemma_pos_from_first(hs, a, b, i + 1);
    }
}

/// The position of two names is the first element equal to either of them,
/// ignoring ASCII case; there is none when no element is.
pub proof fn lemma_position2_first(hs: Seq<Seq<char>>, a: Seq<char>, b: Seq<char>)
    ensures
        match position2(hs, a, b) {
            Some(k) => 0 <= k < hs.len() && (eq_ci(hs[k], a) || eq_ci(hs[k], b)) && forall|j: int|
                0 <= j < k ==> !(eq_ci(#[trigger] hs[j], a) || eq_ci(hs[j], b)),
            None => forall|j: int| 0 <= j < hs.len() ==> !(eq_ci(#[trigger] hs[j], a) || eq_ci(hs[j], b)),
        },
{
    lemma_pos_from_first(hs, a, b, 0);
}

/// Two texts are equal ignoring ASCII case exactly when they have the same
/// length and at each place the characters have the same code, or one is an
/// uppercase ASCII letter and the other the same letter in lowercase. Texts
/// of different lengths never are.
pub proof fn lemma_eq_ci_case(a: Seq<char>, b: Seq<char>)
    ensures
        (a.len() == b.len() && forall|i: int|
            0 <= i < a.len() ==> ((#[trigger] a[i]) as u32) == (b[i] as u32) || (65 <= (a[i] as u32) <= 90 && (b[i] as u32)
                == (a[i] as u32) + 32) || (65 <= (b[i] as u32) <= 90 && (a[i] as u32) == (b[i] as u32)
                + 32)) <==> eq_ci(a, b),
        a.len() != b.len() ==> !eq_ci(a, b),
        eq_ci(a, a),
{
    if eq_ci(a, b) {
        assert forall|i: int| 0 <= i < a.len() implies ((#[trigger] a[i]) as u32) == (b[i] as u32) || (65 <= (a[i] as u32)
            <= 90 && (b[i] as u32) == (a[i] as u32) + 32) || (65 <= (b[i] as u32) <= 90 && (a[i] as u32)
            == (b[i] as u32) + 32) by {
            assert(lower_code(a[i]) == lower_code(b[i]));
        }
    }
}

/// A text split on a separator has one piece more than it has separators.
pub proof fn lemma_split_count(s: Seq<char>, sep: char)
    ensures
        split_on(s, sep).len() == count_char(s, sep) + 1,
    decreases s.len(),
{
    if s.len() > 0 {
        lemma_split_count(s.drop_last(), sep);
        lemma_split_on_len(s.drop_last(), sep);
    }
}

/// Pieces that have no surrounding whitespace are left as they are by
/// trimming.
pub proof fn lemma_trim_all_trimmed(ps: Seq<Seq<char>>)
    requires
        forall|i: int| 0 <= i < ps.len() ==> trim(#[trigger] ps[i]) == ps[i],
    ensures
        trim_all(ps) == ps,
{
    assert(trim_all(ps) =~= ps);
}

// ---------------------------------------------------------------------------
// Executable operations
// ---------------------------------------------------------------------------

/// The characters of a string slice, in order.
pub fn chars_of(s: &str) -> (v: Vec<char>)
    ensures
        v@ == s@,
{
    let mut v: Vec<char> = Vec::new();
    for c in it: s.chars()
        invariant
            v@ == it.seq().take(it.index() as int),
    {
        v.push(c);
    }
    v
}

/// `String::push`: appends one character.
#[verifier::external_body]
fn push_char(s: &mut String, c: char)
    ensures
        final(s)@ == old(s)@.push(c),
{
    s.push(c);
}

/// A string holding the given characters.
pub fn string_of(cs: &[char]) -> (s: String)
    ensures
        s@ == cs@,
{
    let mut s = String::new();
    for i in 0..cs.len()
        invariant
            s@ == cs@.take(i as int),
    {
        push_char(&mut s, cs[i]);
        assert(cs@.take(i + 1) =~= cs@.take(i as int).push(cs@[i as int]));
    }
    assert(cs@.take(cs.len() as int) =~= cs@);
    s
}

/// `char::is_whitespace`.
pub fn is_whitespace(c: char) -> (b: bool)
    ensures
        b == is_ws(c),
{
    let u = c as u32;
    (9 <= u && u <= 13) || u == 32 || u == 0x85 || u == 0xA0 || u == 0x1680 || (0x2000 <= u
        && u <= 0x200A) || u == 0x2028 || u == 0x2029 || u == 0x202F || u == 0x205F || u
        == 0x3000
}

/// A copy of `s[from..to]`.
pub fn copy_range(s: &[char], from: usize, to: usize) -> (r: Vec<char>)
    requires
        from <= to <= s@.len(),
    ensures
        r@ == s@.subrange(from as int, to as int),
{
    let mut r: Vec<char> = Vec::new();
    let mut i = from;
    while i < to
        invariant
            from <= i <= to <= s@.len(),
            r@ == s@.subrange(from as int, i as int),
        decreases to - i,
    {
        r.push(s[i]);
        i += 1;
        assert(r@ =~= s@.subrange(from as int, i as int));
    }
    r
}

/// `str::trim` on characters.
pub fn trim_chars(s: &[char]) -> (r: Vec<char>)
    ensures
        r@ == trim(s@),
{
    let mut i: usize = 0;
    assert(s@.skip(0) =~= s@);
    while i < s.len() && is_whitespace(s[i])
        invariant
            i <= s@.len(),
            trim_start(s@) == trim_start(s@.skip(i as int)),
        decreases s.len() - i,
    {
        assert(s@.skip(i as int).drop_first() =~= s@.skip(i + 1));
        i += 1;
    }
    assert(trim_start(s@) == s@.skip(i as int));
    let mut j: usize = s.len();
    while j > i && is_whitespace(s[j - 1])
        invariant
            i <= j <= s@.len(),
            trim_start(s@) == s@.skip(i as int),
            trim_end(s@.skip(i as int)) == trim_end(s@.subrange(i as int, j as int)),
        decreases j,
    {
        assert(s@.subrange(i as int, j as int).drop_last() =~= s@.subrange(i as int, j - 1));
        j -= 1;
    }
    assert(s@.skip(i as int) =~= s@.subrange(i as int, s@.len() as int));
    copy_range(s, i, j)
}

/// Whether the characters are all whitespace.
pub fn is_blank_chars(s: &[char]) -> (b: bool)
    ensures
        b == is_blank(s@),
{
    for i in 0..s.len()
        invariant
            forall|k: int| 0 <= k < i ==> is_ws(#[trigger] s@[k]),
    {
        if !is_whitespace(s[i]) {
            return false;
        }
    }
    true
}

/// Drops a carriage return that ends the piece.
fn strip_cr_chars(p: &[char]) -> (r: Vec<char>)
    ensures
        r@ == strip_cr(p@),
{
    if p.len() > 0 && p[p.len() - 1] == '\r' {
        assert(p@.drop_last() =~= p@.subrange(0, p.len() - 1));
        copy_range(p, 0, p.len() - 1)
    } else {
        assert(p@ =~= p@.subrange(0, p@.len() as int));
        copy_range(p, 0, p.len())
    }
}

/// `str::lines` on characters.
pub fn lines_chars(s: &[char]) -> (r: Vec<Vec<char>>)
    ensures
        views(r@) == lines(s@),
{
    let mut r: Vec<Vec<char>> = Vec::new();
    if s.len() == 0 {
        assert(views(r@) =~= lines(s@));
        return r;
    }
    let parts = split_chars(s, '\n');
    proof {
        lemma_split_on_len(s@, '\n');
    }
    let ghost ps = views(parts@);
    let n = parts.len() - 1;
    for k in 0..n
        invariant
            n == parts@.len() - 1,
            ps == views(parts@),
            ps == split_on(s@, '\n'),
            views(r@) == ps.take(k as int).map_values(|p: Seq<char>| strip_cr(p)),
    {
        let ghost before = views(r@);
        let line = strip_cr_chars(&parts[k]);
        r.push(line);
        assert(views(r@) =~= ps.take(k + 1).map_values(|p: Seq<char>| strip_cr(p))) by {
            assert(views(r@) =~= before.push(strip_cr(ps[k as int])));
        }
    }
    assert(ps.take(n as int) =~= ps.drop_last());
    if s[s.len() - 1] != '\n' {
        let ghost before = views(r@);
        let last = copy_range(&parts[n], 0, parts[n].len());
        assert(parts@[n as int]@.subrange(0, parts@[n as int]@.len() as int) =~= parts@[n as int]@);
        r.push(last);
        assert(views(r@) =~= before.push(ps.last()));
    }
    r
}

/// The lines of a text that are not blank, in order
/// (`text.lines().filter(|l| !l.trim().is_empty())`).
pub fn nonblank_lines(s: &[char]) -> (r: Vec<Vec<char>>)
    ensures
        views(r@) == nonblank(lines(s@)),
{
    let all = lines_chars(s);
    let ghost ls = views(all@);
    let mut r: Vec<Vec<char>> = Vec::new();
    for k in 0..all.len()
        invariant
            ls == views(all@),
            views(r@) == nonblank(ls.take(k as int)),
    {
        assert(ls.take(k + 1).drop_last() =~= ls.take(k as int));
        if !is_blank_chars(&all[k]) {
            let ghost before = views(r@);
            let line = copy_range(&all[k], 0, all[k].len());
            assert(all@[k as int]@.subrange(0, all@[k as int]@.len() as int) =~= all@[k as int]@);
            r.push(line);
            assert(views(r@) =~= before.push(ls[k as int]));
        }
    }
    assert(ls.take(all.len() as int) =~= ls);
    r
}

/// The first line of a text, or nothing when it has none.
pub fn first_line_chars(s: &[char]) -> (r: Vec<char>)
    ensures
        r@ == first_line(s@),
{
    let ls = lines_chars(s);
    if ls.len() > 0 {
        copy_range(&ls[0], 0, ls[0].len())
    } else {
        Vec::new()
    }
}

/// Every piece trimmed.
pub fn trim_each(ps: &Vec<Vec<char>>) -> (r: Vec<Vec<char>>)
    ensures
        views(r@) == trim_all(views(ps@)),
{
    let mut r: Vec<Vec<char>> = Vec::new();
    for k in 0..ps.len()
        invariant
            views(r@) == trim_all(views(ps@)).take(k as int),
    {
        let ghost before = views(r@);
        let t = trim_chars(&ps[k]);
        r.push(t);
        assert(views(r@) =~= trim_all(views(ps@)).take(k + 1)) by {
            assert(views(r@) =~= before.push(trim(ps@[k as int]@)));
        }
    }
    assert(trim_all(views(ps@)).take(ps.len() as int) =~= trim_all(views(ps@)));
    r
}

/// ASCII lowercase code of a character.
pub fn lower_code_of(c: char) -> (u: u32)
    ensures
        u == lower_code(c),
{
    let u = c as u32;
    if 65 <= u && u <= 90 {
        u + 32
    } else {
        u
    }
}

/// `str::eq_ignore_ascii_case` on characters.
pub fn eq_ci_chars(a: &[char], b: &[char]) -> (r: bool)
    ensures
        r == eq_ci(a@, b@),
{
    if a.len() != b.len() {
        return false;
    }
    for i in 0..a.len()
        invariant
            a@.len() == b@.len(),
            forall|k: int| 0 <= k < i ==> lower_code(#[trigger] a@[k]) == lower_code(b@[k]),
    {
        if lower_code_of(a[i]) != lower_code_of(b[i]) {
            return false;
        }
    }
    true
}

/// The first index whose element equals `a` or `b`, ignoring ASCII case.
pub fn find_either(hs: &Vec<Vec<char>>, a: &[char], b: &[char]) -> (r: Option<usize>)
    ensures
        opt_int(r) == position2(views(hs@), a@, b@),
{
    let ghost v = views(hs@);
    for i in 0..hs.len()
        invariant
            v == views(hs@),
            position2(v, a@, b@) == pos_from(v, a@, b@, i as int),
    {
        if eq_ci_chars(&hs[i], a) || eq_ci_chars(&hs[i], b) {
            return Some(i);
        }
    }
    None
}

/// The first index whose element equals `a`, ignoring ASCII case.
pub fn find_name(hs: &Vec<Vec<char>>, a: &[char]) -> (r: Option<usize>)
    ensures
        opt_int(r) == position(views(hs@), a@),
{
    find_either(hs, a, a)
}

/// How many times `c` occurs in `s`.
pub fn count_chars(s: &[char], c: char) -> (n: usize)
    ensures
        n == count_char(s@, c),
{
    let mut n: usize = 0;
    for i in 0..s.len()
        invariant
            n == count_char(s@.take(i as int), c),
            n <= i,
    {
        assert(s@.take(i + 1).drop_last() =~= s@.take(i as int));
        if s[i] == c {
            n += 1;
        }
    }
    assert(s@.take(s.len() as int) =~= s@);
    n
}

/// Joins the pieces with `sep` between neighbours.
pub fn join_chars(ps: &Vec<Vec<char>>, sep: char) -> (r: Vec<char>)
    ensures
        r@ == join(views(ps@), sep),
{
    let mut r: Vec<char> = Vec::new();
    let ghost v = views(ps@);
    for k in 0..ps.len()
        invariant
            v == views(ps@),
            r@ == join(v.take(k as int), sep),
    {
        assert(v.take(k + 1).drop_last() =~= v.take(k as int));
        if k > 0 {
            r.push(sep);
        }
        let ghost mid = r@;
        let p = &ps[k];
        for j in 0..p.len()
            invariant
                r@ == mid + p@.take(j as int),
        {
            r.push(p[j]);
            assert(r@ =~= mid + p@.take(j + 1));
        }
        assert(p@.take(p.len() as int) =~= p@);
        assert(r@ =~= join(v.take(k + 1), sep));
    }
    assert(v.take(ps.len() as int) =~= v);
    r
}

/// Removes every leading `c`.
pub fn strip_leading_chars(s: &[char], c: char) -> (r: Vec<char>)
    ensures
        r@ == strip_leading(s@, c),
{
    let mut i: usize = 0;
    assert(s@.skip(0) =~= s@);
    while i < s.len() && s[i] == c
        invariant
            i <= s@.len(),
            strip_leading(s@, c) == strip_leading(s@.skip(i as int), c),
        decreases s.len() - i,
    {
        assert(s@.skip(i as int).drop_first() =~= s@.skip(i + 1));
        i += 1;
    }
    assert(s@.skip(i as int) =~= s@.subrange(i as int, s@.len() as int));
    copy_range(s, i, s.len())
}

/// The trimmed text of a field, when the line has that column.
pub fn field_chars(fields: &Vec<Vec<char>>, col: Option<usize>) -> (r: Option<Vec<char>>)
    ensures
        match r {
            Some(t) => field_text(views(fields@), opt_int(col)) == Some(t@),
            None => field_text(views(fields@), opt_int(col)) is None,
        },
{
    match col {
        Some(i) => if i < fields.len() {
            Some(trim_chars(&fields[i]))
        } else {
            None
        },
        None => None,
    }
}

/// The index of the last occurrence of `c` (`str::rfind`).
pub fn last_index_chars(s: &[char], c: char) -> (r: Option<usize>)
    ensures
        opt_int(r) == last_index_of(s@, c),
{
    let mut j: usize = s.len();
    assert(s@.take(j as int) =~= s@);
    while j > 0
        invariant
            j <= s@.len(),
            last_index_of(s@, c) == last_index_of(s@.take(j as int), c),
        decreases j,
    {
        if s[j - 1] == c {
            return Some(j - 1);
        }
        assert(s@.take(j as int).drop_last() =~= s@.take(j - 1));
        j -= 1;
    }
    None
}

/// `str::split` on one separator character.
pub fn split_chars(s: &[char], sep: char) -> (r: Vec<Vec<char>>)
    ensures
        views(r@) == split_on(s@, sep),
{
    let mut pieces: Vec<Vec<char>> = Vec::new();
    let mut cur: Vec<char> = Vec::new();
    for i in 0..s.len()
        invariant
            views(pieces@).push(cur@) == split_on(s@.take(i as int), sep),
    {
        assert(s@.take(i + 1).drop_last() =~= s@.take(i as int));
        assert(s@.take(i + 1).last() == s@[i as int]);
        if s[i] == sep {
            let ghost before = views(pieces@).push(cur@);
            let done = cur;
            pieces.push(done);
            cur = Vec::new();
            assert(views(pieces@) =~= before);
            assert(views(pieces@).push(cur@) =~= split_on(s@.take(i + 1), sep));
        } else {
            let ghost before = views(pieces@).push(cur@);
            cur.push(s[i]);
            assert(views(pieces@).push(cur@) =~= before.update(
                before.len() - 1,
                before.last().push(s@[i as int]),
            ));
        }
    }
    assert(s@.take(s.len() as int) =~= s@);
    let ghost before = views(pieces@).push(cur@);
    pieces.push(cur);
    assert(views(pieces@) =~= before);
    pieces
}

} // verus!
