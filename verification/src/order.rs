//! The order of `String` keys (lexicographic by code point) and keys kept
//! sorted and unique, the way a `BTreeMap` keyed by `String` walks them.
use vstd::prelude::*;
use crate::text::{lex_lt, views};

verus! {

/// The keys are strictly increasing, so each occurs once.
pub open spec fn sorted(ks: Seq<Seq<char>>) -> bool {
    forall|i: int, j: int| 0 <= i < j < ks.len() ==> lex_lt(#[trigger] ks[i], #[trigger] ks[j])
}

/// No text is before itself.
pub proof fn lemma_lex_irreflexive(a: Seq<char>)
    ensures
        !lex_lt(a, a),
    decreases a.len(),
{
    if a.len() > 0 {
        lemma_lex_irreflexive(a.drop_first());
    }
}

/// Different characters have different codes.
proof fn lemma_code_injective(a: char, b: char)
    requires
        a != b,
    ensures
        (a as u32) != (b as u32),
{
}

/// The order is transitive.
pub proof fn lemma_lex_transitive(a: Seq<char>, b: Seq<char>, c: Seq<char>)
    requires
        lex_lt(a, b),
        lex_lt(b, c),
    ensures
        lex_lt(a, c),
    decreases a.len(),
{
    if a.len() > 0 && b.len() > 0 && c.len() > 0 {
        if a[0] == b[0] && b[0] == c[0] {
            lemma_lex_transitive(a.drop_first(), b.drop_first(), c.drop_first());
        }
    }
}

/// Two different texts are ordered one way or the other.
pub proof fn lemma_lex_total(a: Seq<char>, b: Seq<char>)
    requires
        a != b,
    ensures
        lex_lt(a, b) || lex_lt(b, a),
    decreases a.len(),
{
    if a.len() == 0 {
        if b.len() == 0 {
            assert(a =~= b);
        }
    } else if b.len() > 0 {
        if a[0] == b[0] {
            if a.drop_first() == b.drop_first() {
                assert(a.len() == b.len()) by {
                    assert(a.drop_first().len() == b.drop_first().len());
                }
                assert(a =~= b) by {
                    assert forall|i: int| 0 <= i < a.len() implies a[i] == b[i] by {
                        if i > 0 {
                            assert(a[i] == a.drop_first()[i - 1]);
                            assert(b[i] == b.drop_first()[i - 1]);
                        }
                    }
                }
            }
            lemma_lex_total(a.drop_first(), b.drop_first());
        } else {
            lemma_code_injective(a[0], b[0]);
        }
    }
}

/// The order is asymmetric.
pub proof fn lemma_lex_asymmetric(a: Seq<char>, b: Seq<char>)
    requires
        lex_lt(a, b),
    ensures
        !lex_lt(b, a),
{
    if lex_lt(b, a) {
        lemma_lex_transitive(a, b, a);
        lemma_lex_irreflexive(a);
    }
}

/// Two sorted key sequences with the same keys are the same sequence.
pub proof fn lemma_sorted_unique(a: Seq<Seq<char>>, b: Seq<Seq<char>>)
    requires
        sorted(a),
        sorted(b),
        forall|x: Seq<char>| a.contains(x) <==> b.contains(x),
    ensures
        a == b,
    decreases a.len(),
{
    if a.len() == 0 {
        if b.len() > 0 {
            assert(b.contains(b[0]));
        }
        assert(a =~= b);
    } else if b.len() == 0 {
        assert(a.contains(a[0]));
    } else {
        assert(a.contains(a[0]));
        assert(b.contains(b[0]));
        let i = choose|i: int| 0 <= i < b.len() && b[i] == a[0];
        let j = choose|j: int| 0 <= j < a.len() && a[j] == b[0];
        if a[0] != b[0] {
            assert(i > 0 && j > 0);
            assert(lex_lt(b[0], b[i]));
            assert(lex_lt(a[0], a[j]));
            lemma_lex_asymmetric(a[0], b[0]);
        }
        let a1 = a.drop_first();
        let b1 = b.drop_first();
        assert forall|x: Seq<char>| a1.contains(x) <==> b1.contains(x) by {
            if a1.contains(x) {
                let k = choose|k: int| 0 <= k < a1.len() && a1[k] == x;
                assert(a.contains(x)) by {
                    assert(a[k + 1] == x);
                }
                assert(lex_lt(a[0], a[k + 1]));
                lemma_lex_irreflexive(x);
                let m = choose|m: int| 0 <= m < b.len() && b[m] == x;
                assert(m != 0);
                assert(b1[m - 1] == x);
            }
            if b1.contains(x) {
                let k = choose|k: int| 0 <= k < b1.len() && b1[k] == x;
                assert(b.contains(x)) by {
                    assert(b[k + 1] == x);
                }
                assert(lex_lt(b[0], b[k + 1]));
                lemma_lex_irreflexive(x);
                let m = choose|m: int| 0 <= m < a.len() && a[m] == x;
                assert(m != 0);
                assert(a1[m - 1] == x);
            }
        }
        lemma_sorted_unique(a1, b1);
        assert(a =~= b) by {
            assert forall|k: int| 0 <= k < a.len() implies a[k] == b[k] by {
                if k > 0 {
                    assert(a[k] == a1[k - 1]);
                    assert(b[k] == b1[k - 1]);
                }
            }
        }
    }
}

/// Whether two character sequences are equal.
pub fn chars_eq(a: &[char], b: &[char]) -> (r: bool)
    ensures
        r == (a@ == b@),
{
    if a.len() != b.len() {
        return false;
    }
    for i in 0..a.len()
        invariant
            a@.len() == b@.len(),
            forall|k: int| 0 <= k < i ==> a@[k] == b@[k],
    {
        if a[i] != b[i] {
            return false;
        }
    }
    assert(a@ =~= b@);
    true
}

/// Whether `a` comes before `b`.
pub fn chars_lt(a: &[char], b: &[char]) -> (r: bool)
    ensures
        r == lex_lt(a@, b@),
{
    let mut i: usize = 0;
    assert(a@.skip(0) =~= a@);
    assert(b@.skip(0) =~= b@);
    while i < a.len() && i < b.len() && a[i] == b[i]
        invariant
            i <= a@.len(),
            i <= b@.len(),
            lex_lt(a@, b@) == lex_lt(a@.skip(i as int), b@.skip(i as int)),
        decreases a.len() - i,
    {
        assert(a@.skip(i as int).drop_first() =~= a@.skip(i + 1));
        assert(b@.skip(i as int).drop_first() =~= b@.skip(i + 1));
        i += 1;
    }
    if i == a.len() {
        i < b.len()
    } else if i == b.len() {
        false
    } else {
        (a[i] as u32) < (b[i] as u32)
    }
}

/// Where `key` stands among sorted keys: every key before the index is
/// smaller, and the key at the index (if any) is `key` itself or larger.
pub fn locate(keys: &Vec<Vec<char>>, key: &[char]) -> (r: (usize, bool))
    requires
        sorted(views(keys@)),
    ensures
        r.0 <= keys@.len(),
        forall|i: int| 0 <= i < r.0 ==> lex_lt(#[trigger] keys@[i]@, key@),
        r.1 ==> r.0 < keys@.len() && keys@[r.0 as int]@ == key@,
        !r.1 && r.0 < keys@.len() ==> lex_lt(key@, keys@[r.0 as int]@),
        !r.1 ==> forall|i: int| 0 <= i < keys@.len() ==> (#[trigger] keys@[i])@ != key@,
{
    let ghost kv = views(keys@);
    let mut k: usize = 0;
    while k < keys.len() && chars_lt(&keys[k], key)
        invariant
            kv == views(keys@),
            k <= keys@.len(),
            forall|i: int| 0 <= i < k ==> lex_lt(#[trigger] keys@[i]@, key@),
        decreases keys.len() - k,
    {
        k += 1;
    }
    if k < keys.len() && chars_eq(&keys[k], key) {
        (k, true)
    } else {
        proof {
            if k < keys@.len() {
                lemma_lex_total(key@, keys@[k as int]@);
            }
            assert forall|i: int| 0 <= i < keys@.len() implies (#[trigger] keys@[i])@ != key@ by {
                lemma_lex_irreflexive(key@);
                if i > k {
                    assert(kv[k as int] == keys@[k as int]@);
                    assert(kv[i] == keys@[i]@);
                    assert(lex_lt(kv[k as int], kv[i]));
                    if keys@[i]@ == key@ {
                        lemma_lex_asymmetric(key@, keys@[k as int]@);
                    }
                }
            }
        }
        (k, false)
    }
}

/// Inserting a key where `locate` places it keeps the keys sorted.
pub proof fn lemma_insert_sorted(ks: Seq<Seq<char>>, k: int, key: Seq<char>)
    requires
        sorted(ks),
        0 <= k <= ks.len(),
        forall|i: int| 0 <= i < k ==> lex_lt(#[trigger] ks[i], key),
        k < ks.len() ==> lex_lt(key, ks[k]),
    ensures
        sorted(ks.insert(k, key)),
{
    let n = ks.insert(k, key);
    assert forall|i: int, j: int| 0 <= i < j < n.len() implies lex_lt(#[trigger] n[i], #[trigger] n[j]) by {
        if i < k && j == k {
        } else if i < k && j > k {
            assert(n[j] == ks[j - 1]);
            if j - 1 > i {
                assert(lex_lt(ks[i], ks[j - 1]));
            } else {
                assert(j - 1 == i);
            }
        } else if i == k {
            assert(n[j] == ks[j - 1]);
            if j - 1 > k {
                assert(lex_lt(ks[k], ks[j - 1]));
                lemma_lex_transitive(key, ks[k], ks[j - 1]);
            }
        } else if i > k {
            assert(n[i] == ks[i - 1]);
            assert(n[j] == ks[j - 1]);
        } else {
            assert(n[i] == ks[i]);
            assert(n[j] == ks[j]);
        }
    }
}

} // verus!
