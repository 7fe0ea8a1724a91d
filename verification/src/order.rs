//! Lexicographic ordering of object keys and bucket names.
//!
//! Keys are compared by scalar value, character by character; a proper
//! prefix sorts before every extension of it.  This ordering drives the
//! listing engine's sort order and its marker semantics.

use vstd::prelude::*;

verus! {

/// Strict lexicographic order on character sequences: `a` sorts before `b`.
pub open spec fn lex_lt(a: Seq<char>, b: Seq<char>) -> bool
    decreases a.len(),
{
    if b.len() == 0 {
        false
    } else if a.len() == 0 {
        true
    } else if a[0] < b[0] {
        true
    } else if b[0] < a[0] {
        false
    } else {
        lex_lt(a.drop_first(), b.drop_first())
    }
}

/// Non-strict companion of `lex_lt`.
pub open spec fn lex_le(a: Seq<char>, b: Seq<char>) -> bool {
    lex_lt(a, b) || a == b
}

/// The order is irreflexive.
pub proof fn lemma_lex_lt_irreflexive(a: Seq<char>)
    ensures
        !lex_lt(a, a),
    decreases a.len(),
{
    if a.len() > 0 {
        lemma_lex_lt_irreflexive(a.drop_first());
    }
}

/// Any two sequences are related one way or the other, or are equal.
pub proof fn lemma_lex_lt_connected(a: Seq<char>, b: Seq<char>)
    ensures
        lex_lt(a, b) || lex_lt(b, a) || a == b,
    decreases a.len(),
{
    if b.len() == 0 {
        if a.len() == 0 {
            assert(a =~= b);
        }
    } else if a.len() > 0 {
        if !(a[0] < b[0]) && !(b[0] < a[0]) {
            lemma_lex_lt_connected(a.drop_first(), b.drop_first());
            if !lex_lt(a.drop_first(), b.drop_first()) && !lex_lt(b.drop_first(), a.drop_first()) {
                assert forall|j: int| 0 <= j < a.len() implies a[j] == b[j] by {
                    if j > 0 {
                        assert(a.drop_first()[j - 1] == b.drop_first()[j - 1]);
                    }
                }
                assert(a =~= b);
            }
        }
    }
}

/// The order is transitive.
pub proof fn lemma_lex_lt_transitive(a: Seq<char>, b: Seq<char>, c: Seq<char>)
    requires
        lex_lt(a, b),
        lex_lt(b, c),
    ensures
        lex_lt(a, c),
    decreases a.len(),
{
    assert(b.len() > 0 && c.len() > 0);
    if a.len() > 0 {
        assert(a[0] < b[0] || (a[0] == b[0] && lex_lt(a.drop_first(), b.drop_first())));
        assert(b[0] < c[0] || (b[0] == c[0] && lex_lt(b.drop_first(), c.drop_first())));
        if a[0] == b[0] && b[0] == c[0] {
            lemma_lex_lt_transitive(a.drop_first(), b.drop_first(), c.drop_first());
        } else {
            assert(a[0] < c[0]);
        }
    }
}

/// At most one of `lex_lt(a, b)` and `lex_lt(b, a)` holds.
pub proof fn lemma_lex_lt_asymmetric(a: Seq<char>, b: Seq<char>)
    ensures
        !(lex_lt(a, b) && lex_lt(b, a)),
    decreases a.len(),
{
    if a.len() > 0 && b.len() > 0 {
        if !(a[0] < b[0]) && !(b[0] < a[0]) {
            lemma_lex_lt_asymmetric(a.drop_first(), b.drop_first());
        }
    }
}

/// A prefix sorts no later than what it opens: strictly earlier when proper.
pub proof fn lemma_lex_le_prefix(p: Seq<char>, k: Seq<char>)
    requires
        p.is_prefix_of(k),
    ensures
        lex_le(p, k),
        p.len() < k.len() ==> lex_lt(p, k),
    decreases p.len(),
{
    if p.len() == 0 {
        if k.len() == 0 {
            assert(p =~= k);
        }
    } else {
        assert(p[0] == k[0]);
        assert(p.drop_first().is_prefix_of(k.drop_first())) by {
            assert(p.drop_first() =~= k.drop_first().subrange(0, p.len() - 1));
        }
        lemma_lex_le_prefix(p.drop_first(), k.drop_first());
        if p.len() < k.len() {
            assert(lex_lt(p.drop_first(), k.drop_first()));
        } else if p.drop_first() == k.drop_first() {
            assert(p =~= k);
        }
    }
}

/// A first difference settles the comparison.
pub proof fn lemma_lex_lt_from_diff(a: Seq<char>, b: Seq<char>, q: int)
    requires
        0 <= q < a.len(),
        q < b.len(),
        forall|m: int| 0 <= m < q ==> a[m] == b[m],
        a[q] < b[q],
    ensures
        lex_lt(a, b),
{
    lemma_lex_lt_skip(a, b, q);
    assert(a.skip(q)[0] == a[q]);
    assert(b.skip(q)[0] == b[q]);
}

/// Locates how `a` sorts before `b`: either `a` is a proper prefix of
/// `b` (then the result is -1), or the result is the first position
/// where they differ, and there `a` holds the smaller character.
pub proof fn lemma_lex_lt_first_diff(a: Seq<char>, b: Seq<char>) -> (q: int)
    requires
        lex_lt(a, b),
    ensures
        q == -1 ==> a.len() < b.len() && a == b.take(a.len() as int),
        q >= 0 ==> q < a.len() && q < b.len() && a[q] < b[q] && (forall|m: int|
            0 <= m < q ==> a[m] == b[m]),
        q >= -1,
    decreases a.len(),
{
    assert(b.len() > 0);
    if a.len() == 0 {
        assert(a =~= b.take(0));
        -1
    } else if a[0] < b[0] {
        0
    } else {
        assert(a[0] == b[0]);
        let q2 = lemma_lex_lt_first_diff(a.drop_first(), b.drop_first());
        if q2 == -1 {
            assert(a.drop_first() == b.drop_first().take(a.len() - 1));
            assert forall|m: int| 0 <= m < a.len() implies a[m] == b.take(a.len() as int)[m] by {
                if m > 0 {
                    assert(a.drop_first()[m - 1] == b.drop_first().take(a.len() - 1)[m - 1]);
                }
            }
            assert(a =~= b.take(a.len() as int));
            -1
        } else {
            assert(a.drop_first()[q2] < b.drop_first()[q2]);
            assert(a[q2 + 1] < b[q2 + 1]);
            assert forall|m: int| 0 <= m < q2 + 1 implies a[m] == b[m] by {
                if m > 0 {
                    assert(a.drop_first()[m - 1] == b.drop_first()[m - 1]);
                }
            }
            q2 + 1
        }
    }
}

/// Comparison is decided by the suffixes past any common prefix.
proof fn lemma_lex_lt_skip(a: Seq<char>, b: Seq<char>, i: int)
    requires
        0 <= i <= a.len(),
        i <= b.len(),
        forall|j: int| 0 <= j < i ==> a[j] == b[j],
    ensures
        lex_lt(a, b) == lex_lt(a.skip(i), b.skip(i)),
    decreases i,
{
    if i > 0 {
        assert(a.len() > 0 && b.len() > 0);
        assert(a[0] == b[0]);
        lemma_lex_lt_skip(a.drop_first(), b.drop_first(), i - 1);
        assert(a.drop_first().skip(i - 1) =~= a.skip(i));
        assert(b.drop_first().skip(i - 1) =~= b.skip(i));
    } else {
        assert(a.skip(0) =~= a);
        assert(b.skip(0) =~= b);
    }
}

/// Decides whether `a` sorts strictly before `b`.
pub fn str_lt(a: &str, b: &str) -> (r: bool)
    ensures
        r == lex_lt(a@, b@),
{
    let la: usize = a.unicode_len();
    let lb: usize = b.unicode_len();
    let min: usize = if la < lb { la } else { lb };
    let mut i: usize = 0;
    while i < min
        invariant
            min <= a@.len(),
            min <= b@.len(),
            la == a@.len(),
            lb == b@.len(),
            min == if la < lb { la as int } else { lb as int },
            i <= min,
            forall|j: int| 0 <= j < i ==> a@[j] == b@[j],
        decreases min - i,
    {
        let ca: char = a.get_char(i);
        let cb: char = b.get_char(i);
        if ca < cb {
            proof {
                lemma_lex_lt_skip(a@, b@, i as int);
                assert(a@.skip(i as int)[0] == a@[i as int]);
                assert(b@.skip(i as int)[0] == b@[i as int]);
            }
            return true;
        }
        if cb < ca {
            proof {
                lemma_lex_lt_skip(a@, b@, i as int);
                assert(a@.skip(i as int)[0] == a@[i as int]);
                assert(b@.skip(i as int)[0] == b@[i as int]);
            }
            return false;
        }
        assert(a@[i as int] == b@[i as int]);
        i += 1;
    }
    proof {
        lemma_lex_lt_skip(a@, b@, min as int);
        if la < lb {
            assert(a@.skip(min as int).len() == 0);
            assert(b@.skip(min as int).len() > 0);
        } else {
            assert(b@.skip(min as int).len() == 0);
        }
    }
    la < lb
}

/// Decides whether `a` and `b` hold the same characters.
pub fn str_eq(a: &str, b: &str) -> (r: bool)
    ensures
        r == (a@ == b@),
{
    let la: usize = a.unicode_len();
    let lb: usize = b.unicode_len();
    if la != lb {
        return false;
    }
    let mut i: usize = 0;
    while i < la
        invariant
            la == a@.len(),
            la == b@.len(),
            i <= la,
            forall|j: int| 0 <= j < i ==> a@[j] == b@[j],
        decreases la - i,
    {
        let ca: char = a.get_char(i);
        let cb: char = b.get_char(i);
        if ca != cb {
            return false;
        }
        i += 1;
    }
    proof {
        assert(a@ =~= b@);
    }
    true
}

/// Decides whether `p` is a prefix of `k`.
pub fn str_has_prefix(k: &str, p: &str) -> (r: bool)
    ensures
        r == p@.is_prefix_of(k@),
{
    let lk: usize = k.unicode_len();
    let lp: usize = p.unicode_len();
    if lp > lk {
        return false;
    }
    let mut i: usize = 0;
    while i < lp
        invariant
            lk == k@.len(),
            lp == p@.len(),
            lp <= lk,
            i <= lp,
            forall|j: int| 0 <= j < i ==> k@[j] == p@[j],
        decreases lp - i,
    {
        let ck: char = k.get_char(i);
        let cp: char = p.get_char(i);
        if ck != cp {
            assert(k@[i as int] != p@[i as int]);
            assert(!p@.is_prefix_of(k@)) by {
                if p@.is_prefix_of(k@) {
                    assert(p@ =~= k@.subrange(0, p@.len() as int));
                    assert(p@[i as int] == k@[i as int]);
                }
            }
            return false;
        }
        i += 1;
    }
    proof {
        assert(p@ =~= k@.subrange(0, p@.len() as int));
    }
    true
}

} // verus!
