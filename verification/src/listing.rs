//! The listing engine: a paginated, optionally hierarchical view over one
//! bucket's keys.
//!
//! The keys are served in ascending lexicographic order.  A prefix keeps
//! only keys starting with it; a marker keeps only keys strictly greater,
//! so a page can resume after the last key of the page before; a delimiter
//! collapses every key sharing a prefix up to the next delimiter occurrence
//! into one synthetic common-prefix entry; the page length is capped, and
//! a truncated page carries the key to resume from.

use vstd::prelude::*;

use crate::entities::ObjectRecord;
use crate::order::{lex_lt, str_eq, str_has_prefix, str_lt};
use crate::storage::StorageProvider;

verus! {

/// No page holds more entries than this, whatever the caller asks for.
pub const MAX_KEYS: u64 = 1000;

/// One entry of a listing page: an object's record, or a synthetic
/// common prefix standing for every key that shares it.
#[derive(Debug, Clone)]
pub enum ListEntry {
    Object(ObjectRecord),
    CommonPrefix(String),
}

/// One page of a listing: its entries in ascending order, whether keys
/// were left over, and if so the key a follow-up call resumes after.
#[derive(Debug, Clone)]
pub struct Page {
    pub entries: Vec<ListEntry>,
    pub is_truncated: bool,
    pub next_marker: Option<String>,
}

/// The name under which an entry is ordered: an object's key, or the
/// common prefix itself.
pub open spec fn entry_name(e: ListEntry) -> Seq<char> {
    match e {
        ListEntry::Object(rec) => rec.key@,
        ListEntry::CommonPrefix(s) => s@,
    }
}

/// Whether an entry is a synthetic common prefix.
pub open spec fn is_group_entry(e: ListEntry) -> bool {
    e matches ListEntry::CommonPrefix(_)
}

/// The view of an optional borrowed string.
pub open spec fn opt_view(s: Option<&str>) -> Option<Seq<char>> {
    match s {
        Some(x) => Some(x@),
        None => None,
    }
}

/// Whether a record passes the prefix and marker filters: its key starts
/// with the prefix, and sorts strictly after the marker.
pub open spec fn selected(
    rec: ObjectRecord,
    prefix: Option<Seq<char>>,
    marker: Option<Seq<char>>,
) -> bool {
    &&& (match prefix {
        Some(p) => p.is_prefix_of(rec.key@),
        None => true,
    })
    &&& (match marker {
        Some(mk) => lex_lt(mk, rec.key@),
        None => true,
    })
}

/// The records that pass the filters, in their stored order.
pub open spec fn select_objs(
    objs: Seq<ObjectRecord>,
    prefix: Option<Seq<char>>,
    marker: Option<Seq<char>>,
) -> Seq<ObjectRecord> {
    objs.filter(|o: ObjectRecord| selected(o, prefix, marker))
}

/// The first position at or after `from` where `d` occurs in `k`, or -1.
pub open spec fn first_delim_at(k: Seq<char>, d: char, from: int) -> int
    decreases k.len() - from,
{
    if from < 0 || from >= k.len() {
        -1
    } else if k[from] == d {
        from
    } else {
        first_delim_at(k, d, from + 1)
    }
}

/// The name a key is listed under: the key itself, or, when a delimiter
/// occurs at or after the prefix length, the key up through the first
/// such occurrence.
pub open spec fn listed_name(k: Seq<char>, d: Option<char>, plen: int) -> Seq<char> {
    match d {
        None => k,
        Some(dd) => {
            let pos = first_delim_at(k, dd, plen);
            if pos >= 0 {
                k.take(pos + 1)
            } else {
                k
            }
        },
    }
}

/// Whether a listed name stands for a group of keys: it holds a delimiter
/// occurrence at or after the prefix length.
pub open spec fn name_is_group(n: Seq<char>, d: Option<char>, plen: int) -> bool {
    match d {
        None => false,
        Some(dd) => first_delim_at(n, dd, plen) >= 0,
    }
}

/// The listed names of `keys` in order, each distinct common prefix
/// emitted once: a key whose name repeats the name just emitted adds
/// nothing.
pub open spec fn collapse(keys: Seq<Seq<char>>, d: Option<char>, plen: int) -> Seq<Seq<char>>
    decreases keys.len(),
{
    if keys.len() == 0 {
        Seq::empty()
    } else {
        let rest = collapse(keys.drop_last(), d, plen);
        let name = listed_name(keys.last(), d, plen);
        if rest.len() > 0 && rest.last() == name {
            rest
        } else {
            rest.push(name)
        }
    }
}

/// How many of `keys`, from the front, fit into a page of `cap` entries:
/// the longest prefix of `keys` whose collapsed names number at most `cap`.
pub open spec fn consumed_count(keys: Seq<Seq<char>>, d: Option<char>, plen: int, cap: int) -> int
    decreases keys.len(),
{
    if keys.len() == 0 {
        0
    } else if collapse(keys, d, plen).len() <= cap {
        keys.len() as int
    } else {
        consumed_count(keys.drop_last(), d, plen, cap)
    }
}

/// Each key collapsed keeps the names already emitted and adds at most one.
pub proof fn lemma_collapse_step(keys: Seq<Seq<char>>, d: Option<char>, plen: int)
    requires
        keys.len() > 0,
    ensures
        collapse(keys, d, plen) == collapse(keys.drop_last(), d, plen) || collapse(keys, d, plen)
            == collapse(keys.drop_last(), d, plen).push(listed_name(keys.last(), d, plen)),
        collapse(keys.drop_last(), d, plen).len() <= collapse(keys, d, plen).len()
            <= collapse(keys.drop_last(), d, plen).len() + 1,
        collapse(keys, d, plen).len() > 0,
{
}

/// The collapsed names of a prefix of `keys` stand unchanged at the front
/// of the collapsed names of all of `keys`.
pub proof fn lemma_collapse_prefix(keys: Seq<Seq<char>>, d: Option<char>, plen: int, t: int)
    requires
        0 <= t <= keys.len(),
    ensures
        collapse(keys.take(t), d, plen).is_prefix_of(collapse(keys, d, plen)),
    decreases keys.len() - t,
{
    if t == keys.len() {
        assert(keys.take(t) =~= keys);
    } else {
        lemma_collapse_prefix(keys, d, plen, t + 1);
        assert(keys.take(t + 1).drop_last() =~= keys.take(t));
        lemma_collapse_step(keys.take(t + 1), d, plen);
        let a = collapse(keys.take(t), d, plen);
        let b = collapse(keys.take(t + 1), d, plen);
        let c = collapse(keys, d, plen);
        assert(b.is_prefix_of(c));
        if b == a {
            assert(a.is_prefix_of(c));
        } else {
            assert(b == a.push(listed_name(keys.take(t + 1).last(), d, plen)));
            assert(a.is_prefix_of(b)) by {
                assert(a =~= b.take(a.len() as int));
            }
            assert(a =~= c.take(a.len() as int)) by {
                assert(b =~= c.take(b.len() as int));
            }
        }
    }
}

/// Pins the consumed count: `t` keys fit exactly when their names fill at
/// most the cap and one more key would push past it.
pub proof fn lemma_consumed_count_at(
    keys: Seq<Seq<char>>,
    d: Option<char>,
    plen: int,
    cap: int,
    t: int,
)
    requires
        0 <= t <= keys.len(),
        collapse(keys.take(t), d, plen).len() <= cap,
        t < keys.len() ==> collapse(keys.take(t + 1), d, plen).len() > cap,
    ensures
        consumed_count(keys, d, plen, cap) == t,
    decreases keys.len(),
{
    if keys.len() == 0 {
    } else if collapse(keys, d, plen).len() <= cap {
        if t < keys.len() {
            lemma_collapse_prefix(keys, d, plen, t + 1);
            assert(collapse(keys.take(t + 1), d, plen).len() <= collapse(keys, d, plen).len());
            assert(false);
        }
    } else {
        assert(keys.take(keys.len() as int) =~= keys);
        assert(t < keys.len());
        assert(keys.drop_last().take(t) =~= keys.take(t));
        if t < keys.len() - 1 {
            assert(keys.drop_last().take(t + 1) =~= keys.take(t + 1));
        }
        lemma_consumed_count_at(keys.drop_last(), d, plen, cap, t);
    }
}

/// The number of characters the prefix filter holds, if one is given.
pub open spec fn prefix_len(pv: Option<Seq<char>>) -> int {
    match pv {
        Some(p) => p.len() as int,
        None => 0,
    }
}

/// The page cap: the requested maximum, silently clamped to `MAX_KEYS`.
pub open spec fn cap_of(max_keys: Option<u64>) -> int {
    match max_keys {
        Some(mk) => if mk < MAX_KEYS {
            mk as int
        } else {
            MAX_KEYS as int
        },
        None => MAX_KEYS as int,
    }
}

/// The records a listing of bucket `n` draws from: the bucket's records,
/// or none when no such bucket is registered.
pub open spec fn listed_objs(s: StorageProvider, n: Seq<char>) -> Seq<ObjectRecord> {
    if s.has_bucket(n) {
        s.buckets@[s.bucket_idx(n)].objects@
    } else {
        Seq::<ObjectRecord>::empty()
    }
}

/// A scan from `from` finds a delimiter standing at `pos`, or an earlier one.
proof fn lemma_first_delim_found(k: Seq<char>, d: char, from: int, pos: int)
    requires
        0 <= from <= pos < k.len(),
        k[pos] == d,
    ensures
        0 <= first_delim_at(k, d, from) <= pos,
    decreases pos - from,
{
    if k[from] != d {
        lemma_first_delim_found(k, d, from + 1, pos);
    }
}

/// The position of the first `d` at or after `from` in `key`, if any.
fn find_delim(key: &str, d: char, from: usize) -> (r: Option<usize>)
    requires
        from <= key@.len(),
    ensures
        match r {
            Some(pos) => from <= pos < key@.len() && first_delim_at(key@, d, from as int)
                == pos as int,
            None => first_delim_at(key@, d, from as int) == -1,
        },
{
    let n = key.unicode_len();
    let mut i: usize = from;
    while i < n
        invariant
            from <= i <= n,
            n == key@.len(),
            first_delim_at(key@, d, from as int) == first_delim_at(key@, d, i as int),
        decreases n - i,
    {
        let c = key.get_char(i);
        if c == d {
            return Some(i);
        }
        i += 1;
    }
    None
}

/// Whether a record passes the prefix and marker filters.
fn record_selected(rec: &ObjectRecord, prefix: Option<&str>, marker: Option<&str>) -> (r: bool)
    ensures
        r == selected(*rec, opt_view(prefix), opt_view(marker)),
{
    let prefix_ok = match prefix {
        Some(p) => str_has_prefix(rec.key.as_str(), p),
        None => true,
    };
    if !prefix_ok {
        return false;
    }
    match marker {
        Some(mk) => str_lt(mk, rec.key.as_str()),
        None => true,
    }
}

/// The name under which an entry is ordered.
fn entry_name_str(e: &ListEntry) -> (r: &str)
    ensures
        r@ == entry_name(*e),
{
    match e {
        ListEntry::Object(rec) => rec.key.as_str(),
        ListEntry::CommonPrefix(s) => s.as_str(),
    }
}

/// Filtering one more record keeps it exactly when it passes the filters.
proof fn lemma_select_push(
    objs: Seq<ObjectRecord>,
    t: int,
    pv: Option<Seq<char>>,
    mv: Option<Seq<char>>,
)
    requires
        0 <= t < objs.len(),
    ensures
        select_objs(objs.take(t + 1), pv, mv) == if selected(objs[t], pv, mv) {
            select_objs(objs.take(t), pv, mv).push(objs[t])
        } else {
            select_objs(objs.take(t), pv, mv)
        },
{
    reveal(Seq::filter);
    assert(objs.take(t + 1).drop_last() =~= objs.take(t));
    assert(objs.take(t + 1).last() == objs[t]);
}

/// The filtered records of a prefix of `objs` stand unchanged at the
/// front of the filtered records of all of `objs`.
proof fn lemma_select_prefix(
    objs: Seq<ObjectRecord>,
    t: int,
    pv: Option<Seq<char>>,
    mv: Option<Seq<char>>,
)
    requires
        0 <= t <= objs.len(),
    ensures
        select_objs(objs.take(t), pv, mv).is_prefix_of(select_objs(objs, pv, mv)),
    decreases objs.len() - t,
{
    if t == objs.len() {
        assert(objs.take(t) =~= objs);
    } else {
        lemma_select_prefix(objs, t + 1, pv, mv);
        lemma_select_push(objs, t, pv, mv);
        let a = select_objs(objs.take(t), pv, mv);
        let b = select_objs(objs.take(t + 1), pv, mv);
        let c = select_objs(objs, pv, mv);
        if a != b {
            assert(b == a.push(objs[t]));
            assert(a =~= b.take(a.len() as int));
        }
        assert(a =~= c.take(a.len() as int)) by {
            assert(b =~= c.take(b.len() as int));
        }
    }
}

/// Listing keeps the order of keys: the name an earlier key is listed
/// under sorts no later than the name of a later key.  Two keys sharing
/// a common prefix up to the delimiter collapse to the same name.
pub proof fn lemma_listed_name_monotone(k1: Seq<char>, k2: Seq<char>, d: Option<char>, plen: int)
    requires
        0 <= plen,
        lex_lt(k1, k2),
    ensures
        lex_lt(listed_name(k1, d, plen), listed_name(k2, d, plen)) || listed_name(k1, d, plen)
            == listed_name(k2, d, plen),
{
    match d {
        None => {},
        Some(dd) => {
            let n1 = listed_name(k1, d, plen);
            let n2 = listed_name(k2, d, plen);
            let p1 = first_delim_at(k1, dd, plen);
            let p2 = first_delim_at(k2, dd, plen);
            lemma_first_delim_is_hit(k1, dd, plen);
            lemma_first_delim_is_hit(k2, dd, plen);
            if p1 >= 0 {
                assert(plen <= p1 < k1.len() && k1[p1] == dd);
            }
            if p2 >= 0 {
                assert(plen <= p2 < k2.len() && k2[p2] == dd);
            }
            let q = crate::order::lemma_lex_lt_first_diff(k1, k2);
            if q == -1 {
                assert(k1.len() < k2.len());
                assert forall|m: int| 0 <= m < k1.len() implies k1[m] == k2[m] by {
                    assert(k1[m] == k2.take(k1.len() as int)[m]);
                }
                if p1 >= 0 {
                    assert(k2[p1] == dd);
                    lemma_first_delim_found(k2, dd, plen, p1);
                    assert(0 <= p2 <= p1);
                    if p2 < p1 {
                        assert(k2[p2] == dd);
                        assert(k1[p2] == dd);
                        assert(false);
                    }
                    assert(n1 =~= n2);
                } else {
                    if p2 == -1 {
                        assert(n1 == k1 && n2 == k2);
                    } else {
                        if p2 < k1.len() {
                            assert(k1[p2] == dd);
                            assert(false);
                        }
                        assert(n2 == k2.take(p2 + 1));
                        assert(k1.is_prefix_of(n2)) by {
                            assert(k1 =~= n2.subrange(0, k1.len() as int));
                        }
                        crate::order::lemma_lex_le_prefix(k1, n2);
                        assert(k1.len() < n2.len());
                    }
                }
            } else {
                assert(k1[q] < k2[q]);
                assert(forall|m: int| 0 <= m < q ==> k1[m] == k2[m]);
                if p2 >= 0 && p2 < q {
                    assert(k1[p2] == k2[p2]);
                    assert(k1[p2] == dd);
                    lemma_first_delim_found(k1, dd, plen, p2);
                    assert(0 <= p1 <= p2);
                    if p1 < p2 {
                        assert(k1[p1] == dd);
                        assert(k2[p1] == dd);
                        assert(false);
                    }
                    assert(n1 =~= n2);
                } else {
                    if 0 <= p1 && p1 < q {
                        assert(k1[p1] == dd);
                        assert(k2[p1] == dd);
                        if p2 == -1 {
                            assert(false);
                        } else {
                            assert(p2 >= q);
                            assert(false);
                        }
                    }
                    assert(p1 == -1 || p1 >= q);
                    assert(n1.len() > q);
                    assert(n2.len() > q);
                    assert forall|m: int| 0 <= m <= q implies n1[m] == k1[m] && n2[m] == k2[m]
                        by {}
                    crate::order::lemma_lex_lt_from_diff(n1, n2, q);
                }
            }
        },
    }
}

/// Over strictly ascending keys the collapsed names are themselves
/// strictly ascending: each distinct common prefix is emitted exactly
/// once, and group and object entries stand merged in one ascending
/// order.  Every name is the listed name of one of the keys.
pub proof fn lemma_collapse_ascending(keys: Seq<Seq<char>>, d: Option<char>, plen: int)
    requires
        0 <= plen,
        forall|i: int, j: int|
            0 <= i < j < keys.len() ==> lex_lt(#[trigger] keys[i], #[trigger] keys[j]),
    ensures
        forall|i: int, j: int|
            0 <= i < j < collapse(keys, d, plen).len() ==> lex_lt(
                #[trigger] collapse(keys, d, plen)[i],
                #[trigger] collapse(keys, d, plen)[j],
            ),
        forall|i: int|
            0 <= i < collapse(keys, d, plen).len() ==> exists|w: int|
                0 <= w < keys.len() && #[trigger] collapse(keys, d, plen)[i] == listed_name(
                    keys[w],
                    d,
                    plen,
                ),
    decreases keys.len(),
{
    if keys.len() > 0 {
        let rest_keys = keys.drop_last();
        assert forall|i: int, j: int| 0 <= i < j < rest_keys.len() implies lex_lt(
            #[trigger] rest_keys[i],
            #[trigger] rest_keys[j],
        ) by {
            assert(rest_keys[i] == keys[i] && rest_keys[j] == keys[j]);
        }
        lemma_collapse_ascending(rest_keys, d, plen);
        let rest = collapse(rest_keys, d, plen);
        let name = listed_name(keys.last(), d, plen);
        let out = collapse(keys, d, plen);
        assert forall|i: int| 0 <= i < rest.len() implies lex_lt(#[trigger] rest[i], name)
            || rest[i] == name by {
            let w = choose|w: int|
                0 <= w < rest_keys.len() && rest[i] == listed_name(rest_keys[w], d, plen);
            assert(rest_keys[w] == keys[w]);
            assert(lex_lt(keys[w], keys.last()));
            lemma_listed_name_monotone(keys[w], keys.last(), d, plen);
        }
        if rest.len() > 0 && rest.last() == name {
            assert(out == rest);
            assert forall|i: int| 0 <= i < out.len() implies exists|w: int|
                0 <= w < keys.len() && #[trigger] out[i] == listed_name(keys[w], d, plen) by {
                let w = choose|w: int|
                    0 <= w < rest_keys.len() && rest[i] == listed_name(rest_keys[w], d, plen);
                assert(keys[w] == rest_keys[w]);
                assert(out[i] == listed_name(keys[w], d, plen));
            }
        } else {
            assert(out == rest.push(name));
            assert forall|i: int| 0 <= i < rest.len() implies lex_lt(#[trigger] rest[i], name) by {
                if rest[i] == name {
                    if i < rest.len() - 1 {
                        assert(lex_lt(rest[i], rest.last()));
                        assert(lex_lt(rest.last(), name) || rest.last() == name);
                        crate::order::lemma_lex_lt_asymmetric(name, rest.last());
                        assert(false);
                    } else {
                        assert(rest.last() == name);
                        assert(false);
                    }
                }
            }
            assert forall|i: int, j: int| 0 <= i < j < out.len() implies lex_lt(
                #[trigger] out[i],
                #[trigger] out[j],
            ) by {
                if j < rest.len() {
                    assert(out[i] == rest[i] && out[j] == rest[j]);
                } else {
                    assert(out[j] == name);
                    assert(out[i] == rest[i]);
                }
            }
            assert forall|i: int| 0 <= i < out.len() implies exists|w: int|
                0 <= w < keys.len() && #[trigger] out[i] == listed_name(keys[w], d, plen) by {
                if i < rest.len() {
                    let w = choose|w: int|
                        0 <= w < rest_keys.len() && rest[i] == listed_name(rest_keys[w], d, plen);
                    assert(keys[w] == rest_keys[w]);
                    assert(out[i] == listed_name(keys[w], d, plen));
                } else {
                    let w = keys.len() - 1;
                    assert(out[i] == listed_name(keys[w], d, plen));
                }
            }
        }
    }
}

/// Filtering keeps the bucket's strict key order, and every surviving
/// record is one of the bucket's own.
proof fn lemma_select_sorted(
    objs: Seq<ObjectRecord>,
    t: int,
    pv: Option<Seq<char>>,
    mv: Option<Seq<char>>,
)
    requires
        0 <= t <= objs.len(),
        forall|i: int, j: int|
            0 <= i < j < objs.len() ==> lex_lt(
                (#[trigger] objs[i]).key@,
                (#[trigger] objs[j]).key@,
            ),
    ensures
        forall|i: int, j: int|
            0 <= i < j < select_objs(objs.take(t), pv, mv).len() ==> lex_lt(
                (#[trigger] select_objs(objs.take(t), pv, mv)[i]).key@,
                (#[trigger] select_objs(objs.take(t), pv, mv)[j]).key@,
            ),
        forall|i: int|
            0 <= i < select_objs(objs.take(t), pv, mv).len() ==> exists|w: int|
                0 <= w < t && #[trigger] select_objs(objs.take(t), pv, mv)[i] == objs[w],
    decreases t,
{
    if t == 0 {
        reveal(Seq::filter);
        assert(objs.take(0) =~= Seq::<ObjectRecord>::empty());
    } else {
        lemma_select_sorted(objs, t - 1, pv, mv);
        lemma_select_push(objs, t - 1, pv, mv);
        let prev = select_objs(objs.take(t - 1), pv, mv);
        let cur = select_objs(objs.take(t), pv, mv);
        if selected(objs[t - 1], pv, mv) {
            assert(cur == prev.push(objs[t - 1]));
            assert forall|i: int, j: int| 0 <= i < j < cur.len() implies lex_lt(
                (#[trigger] cur[i]).key@,
                (#[trigger] cur[j]).key@,
            ) by {
                if j < prev.len() {
                    assert(cur[i] == prev[i] && cur[j] == prev[j]);
                } else {
                    assert(cur[j] == objs[t - 1]);
                    assert(cur[i] == prev[i]);
                    let w = choose|w: int| 0 <= w < t - 1 && prev[i] == objs[w];
                    assert(lex_lt(objs[w].key@, objs[t - 1].key@));
                }
            }
            assert forall|i: int| 0 <= i < cur.len() implies exists|w: int|
                0 <= w < t && #[trigger] cur[i] == objs[w] by {
                if i < prev.len() {
                    let w = choose|w: int| 0 <= w < t - 1 && prev[i] == objs[w];
                    assert(cur[i] == objs[w]);
                } else {
                    assert(cur[i] == objs[t - 1]);
                }
            }
        } else {
            assert(cur == prev);
            assert forall|i: int| 0 <= i < cur.len() implies exists|w: int|
                0 <= w < t && #[trigger] cur[i] == objs[w] by {
                let w = choose|w: int| 0 <= w < t - 1 && prev[i] == objs[w];
                assert(cur[i] == objs[w]);
            }
        }
    }
}

/// A marker filter is the plain filter refined by the marker test.
proof fn lemma_select_marker_decomposes(
    objs: Seq<ObjectRecord>,
    t: int,
    pv: Option<Seq<char>>,
    m: Seq<char>,
)
    requires
        0 <= t <= objs.len(),
    ensures
        select_objs(objs.take(t), pv, Some(m)) == select_objs(objs.take(t), pv, None).filter(
            |o: ObjectRecord| lex_lt(m, o.key@),
        ),
    decreases t,
{
    reveal(Seq::filter);
    if t == 0 {
        assert(objs.take(0) =~= Seq::<ObjectRecord>::empty());
    } else {
        lemma_select_marker_decomposes(objs, t - 1, pv, m);
        lemma_select_push(objs, t - 1, pv, Some(m));
        lemma_select_push(objs, t - 1, pv, None);
        let f_prev = select_objs(objs.take(t - 1), pv, None);
        let f_cur = select_objs(objs.take(t), pv, None);
        let o = objs[t - 1];
        if selected(o, pv, None) {
            assert(f_cur == f_prev.push(o));
            assert(f_cur.drop_last() =~= f_prev);
            assert(f_cur.last() == o);
        } else {
            assert(f_cur == f_prev);
            assert(!selected(o, pv, Some(m)));
        }
    }
}

/// Over strictly ascending records, keeping what sorts after the record
/// at `cc - 1` keeps exactly the records from `cc` on.
proof fn lemma_sorted_filter_gt_is_skip(f: Seq<ObjectRecord>, cc: int, m: Seq<char>)
    requires
        forall|i: int, j: int|
            0 <= i < j < f.len() ==> lex_lt((#[trigger] f[i]).key@, (#[trigger] f[j]).key@),
        1 <= cc <= f.len(),
        m == f[cc - 1].key@,
    ensures
        f.filter(|o: ObjectRecord| lex_lt(m, o.key@)) == f.skip(cc),
    decreases f.len(),
{
    reveal(Seq::filter);
    let pred = |o: ObjectRecord| lex_lt(m, o.key@);
    if f.len() == cc {
        assert forall|i: int| 0 <= i < f.len() implies !pred(#[trigger] f[i]) by {
            if i < cc - 1 {
                assert(lex_lt(f[i].key@, m));
                crate::order::lemma_lex_lt_asymmetric(m, f[i].key@);
            } else {
                assert(f[i].key@ == m);
                crate::order::lemma_lex_lt_irreflexive(m);
            }
        }
        f.lemma_all_neg_filter_empty(pred);
        assert(f.skip(cc) =~= Seq::<ObjectRecord>::empty());
    } else {
        let f0 = f.drop_last();
        assert forall|i: int, j: int| 0 <= i < j < f0.len() implies lex_lt(
            (#[trigger] f0[i]).key@,
            (#[trigger] f0[j]).key@,
        ) by {
            assert(f0[i] == f[i] && f0[j] == f[j]);
        }
        assert(f0[cc - 1] == f[cc - 1]);
        lemma_sorted_filter_gt_is_skip(f0, cc, m);
        assert(pred(f.last())) by {
            assert(lex_lt(f[cc - 1].key@, f.last().key@));
        }
        assert(f.filter(pred) == f0.filter(pred).push(f.last()));
        assert(f0.skip(cc).push(f.last()) =~= f.skip(cc));
    }
}

/// Collapsing distributes over concatenation when the boundary does not
/// merge: the first name of the right part differs from the last name of
/// the left part.
proof fn lemma_collapse_append(u: Seq<Seq<char>>, v: Seq<Seq<char>>, d: Option<char>, plen: int)
    requires
        u.len() == 0 || v.len() == 0 || listed_name(v[0], d, plen) != collapse(u, d, plen).last(),
    ensures
        collapse(u + v, d, plen) == collapse(u, d, plen) + collapse(v, d, plen),
    decreases v.len(),
{
    if v.len() == 0 {
        assert(u + v =~= u);
        assert(collapse(u, d, plen) + collapse(v, d, plen) =~= collapse(u, d, plen));
    } else {
        let v0 = v.drop_last();
        if v0.len() > 0 {
            assert(v0[0] == v[0]);
        }
        lemma_collapse_append(u, v0, d, plen);
        assert((u + v).drop_last() =~= u + v0);
        assert((u + v).last() == v.last());
        let cu = collapse(u, d, plen);
        let c0 = collapse(v0, d, plen);
        let name = listed_name(v.last(), d, plen);
        lemma_collapse_step(v, d, plen);
        if v0.len() > 0 {
            lemma_collapse_step(v0, d, plen);
            assert(c0.len() > 0);
            assert((cu + c0).len() > 0 && (cu + c0).last() == c0.last());
            if c0.last() == name {
                assert(collapse(v, d, plen) == c0);
                assert(collapse(u + v, d, plen) == cu + c0);
            } else {
                assert(collapse(v, d, plen) == c0.push(name));
                assert(collapse(u + v, d, plen) == (cu + c0).push(name));
                assert((cu + c0).push(name) =~= cu + c0.push(name));
            }
        } else {
            assert(v =~= seq![v[0]]);
            assert(c0 =~= Seq::<Seq<char>>::empty());
            assert(collapse(v, d, plen) =~= seq![name]) by {
                assert(v.drop_last() =~= Seq::<Seq<char>>::empty());
            }
            if cu.len() > 0 {
                assert(name != cu.last());
                assert(collapse(u + v, d, plen) == (cu + c0).push(name)) by {
                    assert(cu + c0 =~= cu);
                }
            } else {
                assert(collapse(u + v, d, plen) == (cu + c0).push(name)) by {
                    assert(cu + c0 =~= cu);
                }
            }
            assert((cu + c0).push(name) =~= cu + seq![name]);
        }
    }
}

/// Pagination is complete: when a page over the prefix-filtered keys is
/// truncated at `cap` names, a follow-up listing whose marker is the last
/// consumed key selects exactly the unconsumed keys, and its names are
/// exactly the names beyond the page.  No key is lost or repeated across
/// pages.
pub proof fn lemma_pagination_resumes(
    objs: Seq<ObjectRecord>,
    pv: Option<Seq<char>>,
    d: Option<char>,
    plen: int,
    cap: int,
)
    requires
        0 <= plen,
        1 <= cap,
        forall|i: int, j: int|
            0 <= i < j < objs.len() ==> lex_lt(
                (#[trigger] objs[i]).key@,
                (#[trigger] objs[j]).key@,
            ),
        collapse(
            select_objs(objs, pv, None).map_values(|o: ObjectRecord| o.key@),
            d,
            plen,
        ).len() > cap,
    ensures
        ({
            let filtered = select_objs(objs, pv, None);
            let fkeys = filtered.map_values(|o: ObjectRecord| o.key@);
            let names = collapse(fkeys, d, plen);
            let cc = consumed_count(fkeys, d, plen, cap);
            let marker = fkeys[cc - 1];
            &&& 1 <= cc < fkeys.len()
            &&& select_objs(objs, pv, Some(marker)) == filtered.skip(cc)
            &&& collapse(
                select_objs(objs, pv, Some(marker)).map_values(|o: ObjectRecord| o.key@),
                d,
                plen,
            ) == names.skip(cap)
        }),
{
    let filtered = select_objs(objs, pv, None);
    let fkeys = filtered.map_values(|o: ObjectRecord| o.key@);
    let names = collapse(fkeys, d, plen);
    let cc = consumed_count(fkeys, d, plen, cap);
    lemma_select_sorted(objs, objs.len() as int, pv, None);
    assert(objs.take(objs.len() as int) =~= objs);
    assert forall|i: int, j: int| 0 <= i < j < filtered.len() implies lex_lt(
        (#[trigger] filtered[i]).key@,
        (#[trigger] filtered[j]).key@,
    ) by {}
    lemma_consumed_count_props(fkeys, d, plen, cap);
    assert(1 <= cc < fkeys.len());
    assert(collapse(fkeys.take(cc), d, plen).len() == cap);
    assert(collapse(fkeys.take(cc + 1), d, plen).len() == cap + 1);
    let marker = fkeys[cc - 1];
    assert(marker == filtered[cc - 1].key@);

    lemma_select_marker_decomposes(objs, objs.len() as int, pv, marker);
    lemma_sorted_filter_gt_is_skip(filtered, cc, marker);
    assert(select_objs(objs, pv, Some(marker)) == filtered.skip(cc));

    let rkeys = filtered.skip(cc).map_values(|o: ObjectRecord| o.key@);
    assert(rkeys =~= fkeys.skip(cc)) by {
        assert forall|i: int| 0 <= i < rkeys.len() implies rkeys[i] == fkeys.skip(cc)[i] by {
            assert(rkeys[i] == filtered.skip(cc)[i].key@);
            assert(filtered.skip(cc)[i] == filtered[cc + i]);
        }
    }
    assert(fkeys.take(cc) + fkeys.skip(cc) =~= fkeys);
    assert(fkeys.take(cc + 1).drop_last() =~= fkeys.take(cc));
    lemma_collapse_step(fkeys.take(cc + 1), d, plen);
    let cu = collapse(fkeys.take(cc), d, plen);
    assert(collapse(fkeys.take(cc + 1), d, plen) == cu.push(
        listed_name(fkeys.take(cc + 1).last(), d, plen),
    ));
    assert(fkeys.take(cc + 1).last() == fkeys[cc]);
    assert(cu.len() == 0 || cu.last() != listed_name(fkeys[cc], d, plen)) by {
        if cu.len() > 0 && cu.last() == listed_name(fkeys.take(cc + 1).last(), d, plen) {
            assert(collapse(fkeys.take(cc + 1), d, plen) == cu);
            assert(false);
        }
    }
    assert(fkeys.skip(cc)[0] == fkeys[cc]);
    lemma_collapse_append(fkeys.take(cc), fkeys.skip(cc), d, plen);
    assert(names == cu + collapse(fkeys.skip(cc), d, plen));
    assert(collapse(fkeys.skip(cc), d, plen) =~= names.skip(cap)) by {
        assert(names.len() == cap + collapse(fkeys.skip(cc), d, plen).len());
        assert forall|i: int|
            0 <= i < collapse(fkeys.skip(cc), d, plen).len() implies collapse(
            fkeys.skip(cc),
            d,
            plen,
        )[i] == names.skip(cap)[i] by {
            assert(names[cap + i] == (cu + collapse(fkeys.skip(cc), d, plen))[cap + i]);
        }
    }
}

/// In a truncated listing the consumed count names exactly `cap` names,
/// one more key would name one more, and some key is left over.
proof fn lemma_consumed_count_props(keys: Seq<Seq<char>>, d: Option<char>, plen: int, cap: int)
    requires
        1 <= cap,
        collapse(keys, d, plen).len() > cap,
    ensures
        ({
            let cc = consumed_count(keys, d, plen, cap);
            &&& 1 <= cc < keys.len()
            &&& collapse(keys.take(cc), d, plen).len() == cap
            &&& collapse(keys.take(cc + 1), d, plen).len() == cap + 1
        }),
    decreases keys.len(),
{
    let cc = consumed_count(keys, d, plen, cap);
    assert(keys.len() > 0);
    if collapse(keys.drop_last(), d, plen).len() > cap {
        lemma_consumed_count_props(keys.drop_last(), d, plen, cap);
        let cc0 = consumed_count(keys.drop_last(), d, plen, cap);
        assert(cc == cc0);
        assert(keys.drop_last().take(cc0) =~= keys.take(cc0));
        assert(keys.drop_last().take(cc0 + 1) =~= keys.take(cc0 + 1));
    } else {
        lemma_collapse_step(keys, d, plen);
        assert(collapse(keys.drop_last(), d, plen).len() == cap);
        assert(collapse(keys, d, plen).len() == cap + 1);
        assert(cc == keys.len() - 1) by {
            assert(keys.take(keys.len() - 1) =~= keys.drop_last());
            assert(keys.take(keys.len() as int) =~= keys);
            lemma_consumed_count_at(keys, d, plen, cap, keys.len() - 1);
        }
        assert(keys.take(cc) =~= keys.drop_last());
        assert(keys.take(cc + 1) =~= keys);
        assert(cc >= 1) by {
            if cc == 0 {
                assert(keys.drop_last() =~= keys.take(0));
                assert(keys.take(0) =~= Seq::<Seq<char>>::empty());
                assert(collapse(keys.drop_last(), d, plen).len() == 0);
            }
        }
    }
}

/// The names of a listing drawn from a strictly sorted bucket are
/// strictly ascending and pairwise distinct, whatever the prefix,
/// marker and delimiter: each distinct common prefix appears exactly
/// once, merged with the individual keys in one ascending order.
pub proof fn lemma_listing_names_ascending(
    objs: Seq<ObjectRecord>,
    pv: Option<Seq<char>>,
    mv: Option<Seq<char>>,
    d: Option<char>,
    plen: int,
)
    requires
        0 <= plen,
        forall|i: int, j: int|
            0 <= i < j < objs.len() ==> lex_lt(
                (#[trigger] objs[i]).key@,
                (#[trigger] objs[j]).key@,
            ),
    ensures
        ({
            let names = collapse(
                select_objs(objs, pv, mv).map_values(|o: ObjectRecord| o.key@),
                d,
                plen,
            );
            &&& (forall|i: int, j: int|
                0 <= i < j < names.len() ==> lex_lt(#[trigger] names[i], #[trigger] names[j]))
            &&& (forall|i: int, j: int|
                0 <= i < j < names.len() ==> #[trigger] names[i] != #[trigger] names[j])
        }),
{
    lemma_select_sorted(objs, objs.len() as int, pv, mv);
    assert(objs.take(objs.len() as int) =~= objs);
    let filtered = select_objs(objs, pv, mv);
    let fkeys = filtered.map_values(|o: ObjectRecord| o.key@);
    assert forall|i: int, j: int| 0 <= i < j < fkeys.len() implies lex_lt(
        #[trigger] fkeys[i],
        #[trigger] fkeys[j],
    ) by {
        assert(fkeys[i] == filtered[i].key@ && fkeys[j] == filtered[j].key@);
        assert(lex_lt(filtered[i].key@, filtered[j].key@));
    }
    lemma_collapse_ascending(fkeys, d, plen);
    let names = collapse(fkeys, d, plen);
    assert forall|i: int, j: int| 0 <= i < j < names.len() implies #[trigger] names[i] != (
    #[trigger] names[j]) by {
        assert(lex_lt(names[i], names[j]));
        crate::order::lemma_lex_lt_irreflexive(names[i]);
    }
}

impl StorageProvider {
    /// Computes one page of the bucket's listing.
    ///
    /// The bucket's keys are taken in ascending order; a prefix keeps only
    /// keys starting with it; a marker keeps only keys strictly greater;
    /// a delimiter collapses keys into common-prefix entries, each emitted
    /// once; the page holds at most `min(max_keys, 1000)` entries, and a
    /// truncated page names the last key it consumed as the marker to
    /// resume after.  A listing of an unregistered bucket is empty.
    pub fn list_objects(
        &self,
        bucket_name: &str,
        delimiter: Option<char>,
        marker: Option<&str>,
        max_keys: Option<u64>,
        prefix: Option<&str>,
    ) -> (page: Page)
        requires
            self.wf(),
        ensures
            ({
                let pv = opt_view(prefix);
                let mv = opt_view(marker);
                let plen = prefix_len(pv);
                let cap = cap_of(max_keys);
                let objs = listed_objs(*self, bucket_name@);
                let filtered = select_objs(objs, pv, mv);
                let fkeys = filtered.map_values(|o: ObjectRecord| o.key@);
                let names = collapse(fkeys, delimiter, plen);
                let cc = consumed_count(fkeys, delimiter, plen, cap);
                &&& page.entries@.len() == (if names.len() <= cap {
                    names.len() as int
                } else {
                    cap
                })
                &&& (forall|i: int|
                    0 <= i < page.entries@.len() ==> entry_name(#[trigger] page.entries@[i])
                        == names[i])
                &&& (forall|i: int|
                    0 <= i < page.entries@.len() ==> is_group_entry(#[trigger] page.entries@[i])
                        == name_is_group(names[i], delimiter, plen))
                &&& (forall|i: int|
                    0 <= i < page.entries@.len() ==> ((#[trigger] page.entries@[i]) matches
                        ListEntry::Object(rec) ==> filtered.contains(rec)))
                &&& page.entries@.len() <= MAX_KEYS
                &&& (forall|i: int, j: int|
                    0 <= i < j < page.entries@.len() ==> lex_lt(
                        entry_name(#[trigger] page.entries@[i]),
                        entry_name(#[trigger] page.entries@[j]),
                    ))
                &&& page.is_truncated == (names.len() > cap)
                &&& (if names.len() > cap && cc > 0 {
                    page.next_marker matches Some(nm) && nm@ == fkeys[cc - 1]
                } else {
                    page.next_marker is None
                })
            }),
    {
        let cap: usize = match max_keys {
            Some(mk) => if mk < MAX_KEYS {
                mk as usize
            } else {
                1000
            },
            None => 1000,
        };
        let plen: usize = match prefix {
            Some(p) => p.unicode_len(),
            None => 0,
        };
        let ghost pv = opt_view(prefix);
        let ghost mv = opt_view(marker);
        let ghost pleni = plen as int;
        let ghost capi = cap as int;
        let ghost d = delimiter;
        proof {
            assert(capi == cap_of(max_keys));
            assert(pleni == prefix_len(pv));
        }

        let mut entries: Vec<ListEntry> = Vec::new();
        let mut last_key: Option<String> = None;
        let mut truncated: bool = false;

        let bi = match self.find_bucket(bucket_name) {
            None => {
                proof {
                    reveal(Seq::filter);
                    let objs = listed_objs(*self, bucket_name@);
                    assert(objs =~= Seq::<ObjectRecord>::empty());
                    assert(select_objs(objs, pv, mv) =~= Seq::<ObjectRecord>::empty());
                    assert(select_objs(objs, pv, mv).map_values(|o: ObjectRecord| o.key@)
                        =~= Seq::<Seq<char>>::empty());
                }
                return Page { entries, is_truncated: false, next_marker: None };
            },
            Some(bi) => bi,
        };
        let bucket = &self.buckets[bi];
        let ghost objs = bucket.objects@;
        let n = bucket.objects.len();
        let ghost mut filtered_g: Seq<ObjectRecord> = Seq::empty();
        let ghost mut fkeys_g: Seq<Seq<char>> = Seq::empty();
        let ghost mut names_g: Seq<Seq<char>> = Seq::empty();
        let mut j: usize = 0;
        proof {
            reveal(Seq::filter);
            assert(objs.take(0) =~= Seq::<ObjectRecord>::empty());
            assert(filtered_g == select_objs(objs.take(0), pv, mv));
            assert(fkeys_g =~= filtered_g.map_values(|o: ObjectRecord| o.key@));
        }
        while j < n
            invariant_except_break
                !truncated,
            invariant
                n == objs.len(),
                j <= n,
                objs == bucket.objects@,
                capi == cap as int,
                filtered_g == select_objs(objs.take(j as int), pv, mv),
                fkeys_g == filtered_g.map_values(|o: ObjectRecord| o.key@),
                names_g == collapse(fkeys_g, d, pleni),
                names_g.len() <= capi,
                entries@.len() == names_g.len(),
                forall|i: int|
                    0 <= i < entries@.len() ==> entry_name(#[trigger] entries@[i]) == names_g[i],
                forall|i: int|
                    0 <= i < entries@.len() ==> is_group_entry(#[trigger] entries@[i])
                        == name_is_group(names_g[i], d, pleni),
                forall|i: int|
                    0 <= i < entries@.len() ==> ((#[trigger] entries@[i]) matches
                        ListEntry::Object(rec) ==> filtered_g.contains(rec)),
                fkeys_g.len() > 0 ==> (last_key matches Some(s) && s@ == fkeys_g.last()),
                fkeys_g.len() == 0 ==> last_key is None,
                pv == opt_view(prefix),
                mv == opt_view(marker),
                pleni == prefix_len(pv),
                pleni == plen as int,
                d == delimiter,
            ensures
                j <= n,
                !truncated ==> j == n,
                truncated ==> j < n && names_g.len() == capi && selected(objs[j as int], pv, mv)
                    && collapse(fkeys_g.push(objs[j as int].key@), d, pleni) == names_g.push(
                    listed_name(objs[j as int].key@, d, pleni),
                ),
            decreases n - j,
        {
            let rec = &bucket.objects[j];
            if record_selected(rec, prefix, marker) {
                proof {
                    match pv {
                        Some(p) => {
                            assert(p.is_prefix_of(rec.key@));
                            assert(pleni <= rec.key@.len());
                        },
                        None => {},
                    }
                }
                let klen = rec.key.as_str().unicode_len();
                let (name_string, group): (String, bool) = match delimiter {
                    None => (rec.key.clone(), false),
                    Some(dchar) => match find_delim(rec.key.as_str(), dchar, plen) {
                        Some(pos) => {
                            assert(pos < klen);
                            let s = rec.key.as_str().substring_char(0, pos + 1);
                            (s.to_owned(), true)
                        },
                        None => (rec.key.clone(), false),
                    },
                };
                proof {
                    let k = rec.key@;
                    match d {
                        Some(dchar) => {
                            let fpos = first_delim_at(k, dchar, pleni);
                            if group {
                                assert(fpos >= 0);
                                lemma_first_delim_is_hit(k, dchar, pleni);
                                assert(fpos < k.len() && k[fpos] == dchar);
                                assert(k.subrange(0, fpos + 1) =~= k.take(fpos + 1));
                                assert(name_string@ == listed_name(k, d, pleni));
                                assert(name_string@[fpos] == dchar);
                                lemma_first_delim_found(name_string@, dchar, pleni, fpos);
                                assert(name_is_group(name_string@, d, pleni));
                            } else {
                                assert(fpos == -1);
                                assert(name_string@ == k);
                                assert(!name_is_group(name_string@, d, pleni));
                            }
                        },
                        None => {
                            assert(name_string@ == listed_name(k, d, pleni));
                            assert(!name_is_group(name_string@, d, pleni));
                        },
                    }
                }
                let is_dup = if entries.len() > 0 {
                    let last_idx = entries.len() - 1;
                    str_eq(entry_name_str(&entries[last_idx]), name_string.as_str())
                } else {
                    false
                };
                let ghost k = rec.key@;
                let ghost fk2 = fkeys_g.push(k);
                proof {
                    assert(fk2.drop_last() =~= fkeys_g);
                    assert(fk2.last() == k);
                    lemma_select_push(objs, j as int, pv, mv);
                }
                if is_dup {
                    last_key = Some(rec.key.clone());
                    proof {
                        assert(names_g.len() > 0 && names_g.last() == listed_name(k, d, pleni));
                        assert(collapse(fk2, d, pleni) == names_g);
                        let pre_f = filtered_g;
                        filtered_g = filtered_g.push(objs[j as int]);
                        assert(fk2 =~= filtered_g.map_values(|o: ObjectRecord| o.key@));
                        fkeys_g = fk2;
                        assert forall|i2: int|
                            0 <= i2 < entries@.len() implies ((#[trigger] entries@[i2]) matches
                            ListEntry::Object(rec2) ==> filtered_g.contains(rec2)) by {
                            match entries@[i2] {
                                ListEntry::Object(rec2) => {
                                    if pre_f.contains(rec2) {
                                        let w = choose|w: int|
                                            0 <= w < pre_f.len() && pre_f[w] == rec2;
                                        assert(filtered_g.contains(rec2)) by {
                                            assert(filtered_g[w] == rec2);
                                        }
                                    } else {
                                        assert(filtered_g.contains(rec2)) by {
                                            assert(filtered_g.last() == rec2);
                                            assert(filtered_g[filtered_g.len() - 1] == rec2);
                                        }
                                    }
                                },
                                ListEntry::CommonPrefix(_) => {},
                            }
                        }
                    }
                } else {
                    if entries.len() < cap {
                        let entry = if group {
                            ListEntry::CommonPrefix(name_string)
                        } else {
                            ListEntry::Object(rec.duplicate())
                        };
                        proof {
                            assert(entry_name(entry) == listed_name(k, d, pleni));
                            assert(is_group_entry(entry) == name_is_group(
                                listed_name(k, d, pleni),
                                d,
                                pleni,
                            ));
                        }
                        entries.push(entry);
                        last_key = Some(rec.key.clone());
                        proof {
                            if names_g.len() > 0 {
                                assert(names_g.last() != listed_name(k, d, pleni));
                            }
                            assert(collapse(fk2, d, pleni) == names_g.push(
                                listed_name(k, d, pleni),
                            ));
                            let pre_f = filtered_g;
                            filtered_g = filtered_g.push(objs[j as int]);
                            assert(fk2 =~= filtered_g.map_values(|o: ObjectRecord| o.key@));
                            fkeys_g = fk2;
                            names_g = names_g.push(listed_name(k, d, pleni));
                            assert forall|i2: int|
                                0 <= i2 < entries@.len() implies ((#[trigger] entries@[i2]) matches
                                ListEntry::Object(rec2) ==> filtered_g.contains(rec2)) by {
                                match entries@[i2] {
                                    ListEntry::Object(rec2) => {
                                        if pre_f.contains(rec2) {
                                            let w = choose|w: int|
                                                0 <= w < pre_f.len() && pre_f[w] == rec2;
                                            assert(filtered_g.contains(rec2)) by {
                                                assert(filtered_g[w] == rec2);
                                            }
                                        } else {
                                            assert(filtered_g.contains(rec2)) by {
                                                assert(filtered_g.last() == rec2);
                                                assert(filtered_g[filtered_g.len() - 1] == rec2);
                                            }
                                        }
                                    },
                                    ListEntry::CommonPrefix(_) => {},
                                }
                            }
                        }
                    } else {
                        truncated = true;
                        proof {
                            if names_g.len() > 0 {
                                assert(names_g.last() != listed_name(k, d, pleni));
                            }
                            assert(collapse(fk2, d, pleni) == names_g.push(
                                listed_name(k, d, pleni),
                            ));
                        }
                        break;
                    }
                }
            } else {
                proof {
                    lemma_select_push(objs, j as int, pv, mv);
                }
            }
            j += 1;
        }
        let ghost filtered_full = select_objs(objs, pv, mv);
        let ghost fkeys_full = filtered_full.map_values(|o: ObjectRecord| o.key@);
        let ghost names_full = collapse(fkeys_full, d, pleni);
        let ghost t = fkeys_g.len() as int;
        proof {
            assert(listed_objs(*self, bucket_name@) == objs);
            assert(self.buckets@[bi as int].wf());
            lemma_listing_names_ascending(objs, pv, mv, d, pleni);
            lemma_select_prefix(objs, j as int, pv, mv);
            assert(filtered_g =~= filtered_full.take(t));
            assert(fkeys_g =~= fkeys_full.take(t)) by {
                assert(filtered_g.len() == t);
                assert forall|i: int| 0 <= i < t implies fkeys_full.take(t)[i] == fkeys_g[i] by {
                    assert(filtered_full[i] == filtered_g[i]);
                }
            }
            assert forall|i: int|
                0 <= i < entries@.len() implies ((#[trigger] entries@[i]) matches
                ListEntry::Object(rec) ==> filtered_full.contains(rec)) by {
                match entries@[i] {
                    ListEntry::Object(rec) => {
                        assert(filtered_g.contains(rec));
                        let w = choose|w: int| 0 <= w < filtered_g.len() && filtered_g[w] == rec;
                        assert(filtered_full[w] == rec);
                    },
                    ListEntry::CommonPrefix(_) => {},
                }
            }
        }
        if !truncated {
            proof {
                assert(objs.take(j as int) =~= objs);
                assert(names_full == names_g);
            }
            Page { entries, is_truncated: false, next_marker: None }
        } else {
            proof {
                let brec = objs[j as int];
                lemma_select_push(objs, j as int, pv, mv);
                lemma_select_prefix(objs, j as int + 1, pv, mv);
                assert(select_objs(objs.take(j as int + 1), pv, mv) == filtered_g.push(brec));
                assert(filtered_g.push(brec) =~= filtered_full.take(t + 1));
                assert(fkeys_g.push(brec.key@) =~= fkeys_full.take(t + 1)) by {
                    assert forall|i: int|
                        0 <= i < t + 1 implies fkeys_full.take(t + 1)[i] == fkeys_g.push(
                        brec.key@,
                    )[i] by {
                        assert(filtered_full[i] == filtered_full.take(t + 1)[i]);
                    }
                }
                assert(collapse(fkeys_full.take(t), d, pleni).len() == capi);
                assert(collapse(fkeys_full.take(t + 1), d, pleni).len() == capi + 1);
                lemma_consumed_count_at(fkeys_full, d, pleni, capi, t);
                lemma_collapse_prefix(fkeys_full, d, pleni, t);
                lemma_collapse_prefix(fkeys_full, d, pleni, t + 1);
                assert(names_full.len() > capi);
                assert(names_g =~= names_full.take(capi)) by {
                    assert(names_g.is_prefix_of(names_full));
                }
                assert forall|i: int|
                    0 <= i < entries@.len() implies entry_name(#[trigger] entries@[i])
                    == names_full[i] by {
                    assert(names_g[i] == names_full[i]);
                }
                assert forall|i: int|
                    0 <= i < entries@.len() implies is_group_entry(#[trigger] entries@[i])
                    == name_is_group(names_full[i], d, pleni) by {
                    assert(names_g[i] == names_full[i]);
                }
                if t > 0 {
                    assert(fkeys_full[t - 1] == fkeys_g.last());
                }
            }
            let next_marker = last_key;
            Page { entries, is_truncated: true, next_marker }
        }
    }
}

/// A non-negative scan result stands on the first delimiter at or after
/// `from`; a negative one means the region holds none.
pub proof fn lemma_first_delim_is_hit(k: Seq<char>, d: char, from: int)
    requires
        0 <= from,
    ensures
        first_delim_at(k, d, from) >= 0 ==> {
            let r = first_delim_at(k, d, from);
            &&& from <= r < k.len()
            &&& k[r] == d
            &&& (forall|m: int| from <= m < r ==> k[m] != d)
        },
        first_delim_at(k, d, from) == -1 ==> (forall|m: int| from <= m < k.len() ==> k[m] != d),
        first_delim_at(k, d, from) == -1 || first_delim_at(k, d, from) >= from,
    decreases k.len() - from,
{
    if from < k.len() && k[from] != d {
        lemma_first_delim_is_hit(k, d, from + 1);
    }
}

} // verus!
