use crate::file::FileView;
use crate::order::{
    before, lemma_before_is_strict_order, lemma_tied, measure, tied, FilesSort, SortBy,
};
use vstd::seq_lib::seq_to_set_is_finite;
use vstd::set_lib::lemma_subset_equality;
use vstd::prelude::*;

verus! {

/// A path and the entry found under it.
pub type Entry = (Seq<char>, FileView);

/// The paths of a listing, in its order.
pub open spec fn keys(s: Seq<Entry>) -> Seq<Seq<char>> {
    s.map_values(|e: Entry| e.0)
}

/// Whether the listing holds an entry under `key`.
pub open spec fn has_key(s: Seq<Entry>, key: Seq<char>) -> bool {
    exists|i: int| 0 <= i < s.len() && (#[trigger] s[i]).0 == key
}

/// A position at which the listing holds `key`, if it holds it.
pub open spec fn index_of_key(s: Seq<Entry>, key: Seq<char>) -> int {
    choose|i: int| 0 <= i < s.len() && (#[trigger] s[i]).0 == key
}

/// The entry that the listing holds under `key`, if it holds one.
pub open spec fn value_of(s: Seq<Entry>, key: Seq<char>) -> FileView {
    s[index_of_key(s, key)].1
}

/// Whether no path occurs twice.
pub open spec fn distinct_keys(s: Seq<Entry>) -> bool {
    forall|i: int, j: int| 0 <= i < j < s.len() ==> (#[trigger] s[i]).0 != (#[trigger] s[j]).0
}

/// The listing after `value` was stored under `key`: in the place of the
/// entry that `key` had, or else at the end.
pub open spec fn inserted(s: Seq<Entry>, key: Seq<char>, value: FileView) -> Seq<Entry> {
    if has_key(s, key) {
        s.update(index_of_key(s, key), (key, value))
    } else {
        s.push((key, value))
    }
}

/// The entry `e` as it is taken into `old`: with the session's fields of the
/// entry that `old` holds under the same path, if it holds one.
pub open spec fn carried(old: Seq<Entry>, e: Entry) -> FileView {
    if has_key(old, e.0) {
        e.1.carrying(value_of(old, e.0))
    } else {
        e.1
    }
}

/// The snapshot `incoming` as it replaces `old`: each entry in its place,
/// with the session's fields of the entry that `old` held under its path.
pub open spec fn refreshed(old: Seq<Entry>, incoming: Seq<Entry>) -> Seq<Entry> {
    incoming.map_values(|e: Entry| (e.0, carried(old, e)))
}

/// The listing `old` after the entries of `incoming` were stored in it one by
/// one, each with the session's fields of the entry that `old` held under its
/// path.
pub open spec fn appended(old: Seq<Entry>, incoming: Seq<Entry>) -> Seq<Entry>
    decreases incoming.len(),
{
    if incoming.len() == 0 {
        old
    } else {
        let e = incoming.last();
        inserted(appended(old, incoming.drop_last()), e.0, carried(old, e))
    }
}

/// A path that was looked at, and the entry made of it where its metadata
/// could be read.
pub type Probe = (Seq<char>, Option<FileView>);

/// The listing made of what was probed: each entry that could be made is
/// stored under its path, in the order of probing; a path that could not be
/// read is passed over.
pub open spec fn collected(probed: Seq<Probe>) -> Seq<Entry>
    decreases probed.len(),
{
    if probed.len() == 0 {
        Seq::empty()
    } else {
        let prev = collected(probed.drop_last());
        match probed.last().1 {
            Some(f) => inserted(prev, probed.last().0, f),
            None => prev,
        }
    }
}

/// The entries that are not hidden, in their order.
pub open spec fn visible(s: Seq<Entry>) -> Seq<Entry> {
    s.filter(|e: Entry| !e.1.meta.is_hidden)
}

/// Whether `t` holds the entries of `s`, each once, in some order.
pub open spec fn rearranges(t: Seq<Entry>, s: Seq<Entry>) -> bool {
    &&& t.len() == s.len()
    &&& distinct_keys(t)
    &&& forall|p: int| 0 <= p < t.len() ==> s.contains(#[trigger] t[p])
}

/// Whether no entry comes directly after one that it should precede.
pub open spec fn neighbours_in_order(t: Seq<Entry>, sort: FilesSort) -> bool {
    forall|p: int| 0 <= p < t.len() - 1 ==> !before(t[p + 1].1, (#[trigger] t[p]).1, sort)
}

/// Whether no entry comes anywhere after one that it should precede.
pub open spec fn in_order(t: Seq<Entry>, sort: FilesSort) -> bool {
    forall|p: int, q: int| 0 <= p < q < t.len() ==> !before(#[trigger] t[q].1, #[trigger] t[p].1, sort)
}

/// Whether every two entries that `sort` leaves tied stand in `t` as they
/// stood in `s`.
pub open spec fn keeps_ties(t: Seq<Entry>, s: Seq<Entry>, sort: FilesSort) -> bool {
    forall|i: int, j: int, p: int, q: int|
        0 <= i < j < s.len() && 0 <= p < t.len() && 0 <= q < t.len() && #[trigger] t[p]
            == #[trigger] s[i] && #[trigger] t[q] == #[trigger] s[j] && tied(s[i].1, s[j].1, sort)
            ==> p < q
}

/// Whether `t` is `s` sorted by `sort` with ties left as they were.
pub open spec fn sorts_stably(t: Seq<Entry>, s: Seq<Entry>, sort: FilesSort) -> bool {
    &&& rearranges(t, s)
    &&& in_order(t, sort)
    &&& keeps_ties(t, s, sort)
}

/// Whether being tied is transitive among the entries of `s`, so that `sort`
/// ranks them: every entry falls into one class of mutually tied entries, and
/// the classes are totally ordered.
pub open spec fn ranks(s: Seq<Entry>, sort: FilesSort) -> bool {
    forall|i: int, j: int, k: int|
        0 <= i < s.len() && 0 <= j < s.len() && 0 <= k < s.len() && tied(
            (#[trigger] s[i]).1,
            (#[trigger] s[j]).1,
            sort,
        ) && tied(s[j].1, (#[trigger] s[k]).1, sort) ==> tied(s[i].1, s[k].1, sort)
}

/// By name every listing is ranked; by a timestamp or by size, every listing
/// in which no entry lacks what is measured.
pub proof fn lemma_ranked(s: Seq<Entry>, sort: FilesSort)
    requires
        sort.by != SortBy::Alphabetical ==> forall|i: int|
            0 <= i < s.len() ==> measure((#[trigger] s[i]).1, sort.by) is Some,
    ensures
        ranks(s, sort),
{
    assert forall|i: int, j: int, k: int|
        0 <= i < s.len() && 0 <= j < s.len() && 0 <= k < s.len() && tied(
            (#[trigger] s[i]).1,
            (#[trigger] s[j]).1,
            sort,
        ) && tied(s[j].1, (#[trigger] s[k]).1, sort) implies tied(s[i].1, s[k].1, sort) by {
        lemma_tied(s[i].1, s[j].1, sort);
        lemma_tied(s[j].1, s[k].1, sort);
        lemma_tied(s[i].1, s[k].1, sort);
    }
}

/// A listing has one stable sort at most: two listings that both sort it
/// stably are the same.
pub proof fn lemma_stable_sort_is_unique(t: Seq<Entry>, u: Seq<Entry>, s: Seq<Entry>, sort: FilesSort)
    requires
        distinct_keys(s),
        sorts_stably(t, s, sort),
        sorts_stably(u, s, sort),
    ensures
        t == u,
{
    lemma_same_up_to(t, u, s, sort, s.len() as int);
    assert(t =~= u);
}

proof fn lemma_same_up_to(t: Seq<Entry>, u: Seq<Entry>, s: Seq<Entry>, sort: FilesSort, n: int)
    requires
        distinct_keys(s),
        sorts_stably(t, s, sort),
        sorts_stably(u, s, sort),
        0 <= n <= s.len(),
    ensures
        forall|p: int| 0 <= p < n ==> t[p] == u[p],
    decreases n,
{
    if n > 0 {
        lemma_same_up_to(t, u, s, sort, n - 1);
        let p = n - 1;
        let (a, b) = (t[p], u[p]);
        if a != b {
            lemma_rearranged(t, s);
            lemma_rearranged(u, s);
            lemma_rearranged(s, t);
            lemma_rearranged(s, u);
            // where each of the two stands in the other listing, and in `s`
            let q = choose|q: int| 0 <= q < u.len() && u[q] == a;
            let r = choose|r: int| 0 <= r < t.len() && t[r] == b;
            let i = choose|i: int| 0 <= i < s.len() && s[i] == a;
            let j = choose|j: int| 0 <= j < s.len() && s[j] == b;
            assert(s.contains(t[p]));
            assert(s.contains(u[p]));
            assert(u.contains(s[i]));
            assert(t.contains(s[j]));
            if q < p {
                assert(t[q] == u[q]);
            }
            if r < p {
                assert(u[r] == t[r]);
            }
            assert(p < q && p < r);
            assert(!before(t[r].1, t[p].1, sort));
            assert(!before(u[q].1, u[p].1, sort));
            // so the two are tied, and one listing has them the wrong way round
            assert(tied(s[i].1, s[j].1, sort));
            assert(i != j);
            if i < j {
                assert(u[q] == s[i] && u[p] == s[j]);
            } else {
                assert(t[r] == s[j] && t[p] == s[i]);
            }
        }
    }
}

/// A listing without a repeated path has its tied entries as they stand.
pub proof fn lemma_keeps_own_ties(s: Seq<Entry>, sort: FilesSort)
    requires
        distinct_keys(s),
    ensures
        keeps_ties(s, s, sort),
{
}

/// Moving the entry at `i` down to `j`, past entries that it strictly
/// precedes, leaves every two tied entries as they stood.
pub proof fn lemma_move_keeps_ties(
    cur: Seq<Entry>,
    i: int,
    j: int,
    first: Seq<Entry>,
    sort: FilesSort,
)
    requires
        0 <= j <= i < cur.len(),
        keeps_ties(cur, first, sort),
        forall|k: int| j <= k < i ==> before(cur[i].1, (#[trigger] cur[k]).1, sort),
    ensures
        keeps_ties(cur.remove(i).insert(j, cur[i]), first, sort),
{
    let t = cur.remove(i).insert(j, cur[i]);
    assert forall|x: int, y: int, p: int, q: int|
        0 <= x < y < first.len() && 0 <= p < t.len() && 0 <= q < t.len() && #[trigger] t[p]
            == #[trigger] first[x] && #[trigger] t[q] == #[trigger] first[y] && tied(
            first[x].1,
            first[y].1,
            sort,
        ) implies p < q by {
        let from = |r: int|
            if r < j {
                r
            } else if r == j {
                i
            } else if r <= i {
                r - 1
            } else {
                r
            };
        let (pc, qc) = (from(p), from(q));
        assert(t[p] == cur[pc] && t[q] == cur[qc]);
        assert(cur[pc] == first[x] && cur[qc] == first[y]);
        assert(pc < qc);
        if p >= q {
            assert(qc == i && j <= pc < i);
            assert(before(cur[i].1, cur[pc].1, sort));
        }
    }
}

/// A listing with as many different paths as entries holds no path twice.
pub proof fn lemma_distinct_from_count(s: Seq<Entry>)
    requires
        keys(s).to_set().len() == s.len(),
    ensures
        distinct_keys(s),
{
    keys(s).lemma_no_dup_set_cardinality();
    assert forall|i: int, j: int| 0 <= i < j < s.len() implies (#[trigger] s[i]).0 != (
    #[trigger] s[j]).0 by {
        assert(keys(s)[i] == s[i].0 && keys(s)[j] == s[j].0);
    }
}

/// In a listing without a repeated path, the entry under the path found at
/// `i` is the one at `i`.
pub proof fn lemma_value_at(s: Seq<Entry>, i: int)
    requires
        distinct_keys(s),
        0 <= i < s.len(),
    ensures
        has_key(s, s[i].0),
        index_of_key(s, s[i].0) == i,
        value_of(s, s[i].0) == s[i].1,
{
}

/// What storing a value under a path does to a listing without a repeated
/// path: that path holds the value, and every other path holds what it held.
pub proof fn lemma_inserted(s: Seq<Entry>, key: Seq<char>, value: FileView)
    requires
        distinct_keys(s),
    ensures
        distinct_keys(inserted(s, key, value)),
        has_key(inserted(s, key, value), key),
        value_of(inserted(s, key, value), key) == value,
        forall|k: Seq<char>| k != key ==> has_key(inserted(s, key, value), k) == has_key(s, k),
        forall|k: Seq<char>|
            k != key && has_key(s, k) ==> value_of(inserted(s, key, value), k) == value_of(s, k),
{
    let t = inserted(s, key, value);
    let at = if has_key(s, key) {
        index_of_key(s, key)
    } else {
        s.len() as int
    };
    assert(t[at] == (key, value));
    assert forall|p: int| 0 <= p < t.len() && p != at implies #[trigger] t[p] == s[p] by {}
    assert forall|p: int| 0 <= p < s.len() && p != at implies #[trigger] s[p] == t[p] by {}
    assert(distinct_keys(t)) by {
        assert forall|i: int, j: int| 0 <= i < j < t.len() implies (#[trigger] t[i]).0 != (
        #[trigger] t[j]).0 by {
            if i != at && j != at {
                assert(t[i] == s[i] && t[j] == s[j]);
            } else if i == at {
                assert(t[j] == s[j]);
            } else {
                assert(t[i] == s[i]);
            }
        }
    }
    lemma_value_at(t, at);
    assert forall|k: Seq<char>| k != key implies has_key(t, k) == has_key(s, k) by {
        if has_key(t, k) {
            let p = index_of_key(t, k);
            assert(t[p] == s[p]);
        }
        if has_key(s, k) {
            let p = index_of_key(s, k);
            assert(s[p] == t[p]);
        }
    }
    assert forall|k: Seq<char>| k != key && has_key(s, k) implies value_of(t, k) == value_of(
        s,
        k,
    ) by {
        let p = index_of_key(s, k);
        assert(s[p] == t[p]);
        lemma_value_at(t, p);
    }
}

/// A refreshed snapshot holds the paths of the snapshot, in their places.
pub proof fn lemma_refreshed(old: Seq<Entry>, incoming: Seq<Entry>)
    requires
        distinct_keys(incoming),
    ensures
        distinct_keys(refreshed(old, incoming)),
        forall|k: Seq<char>| has_key(refreshed(old, incoming), k) == has_key(incoming, k),
        forall|k: Seq<char>|
            has_key(incoming, k) ==> value_of(refreshed(old, incoming), k) == carried(
                old,
                (k, value_of(incoming, k)),
            ),
{
    let t = refreshed(old, incoming);
    assert forall|p: int| 0 <= p < t.len() implies (#[trigger] t[p]).0 == incoming[p].0 by {}
    assert forall|k: Seq<char>| has_key(t, k) == has_key(incoming, k) by {
        if has_key(t, k) {
            let p = index_of_key(t, k);
            assert(incoming[p].0 == k);
        }
        if has_key(incoming, k) {
            let p = index_of_key(incoming, k);
            assert(t[p].0 == k);
        }
    }
    assert forall|k: Seq<char>| has_key(incoming, k) implies value_of(t, k) == carried(
        old,
        (k, value_of(incoming, k)),
    ) by {
        let p = index_of_key(incoming, k);
        assert(t[p].0 == k);
        lemma_value_at(t, p);
    }
}

/// What appending does, path by path: a path of `incoming` holds the incoming
/// entry with the session's fields carried over, any other path holds what it
/// held, and no path is lost.
pub proof fn lemma_appended(old: Seq<Entry>, incoming: Seq<Entry>)
    requires
        distinct_keys(old),
        distinct_keys(incoming),
    ensures
        distinct_keys(appended(old, incoming)),
        forall|k: Seq<char>|
            has_key(appended(old, incoming), k) == (has_key(old, k) || has_key(incoming, k)),
        forall|k: Seq<char>|
            has_key(incoming, k) ==> value_of(appended(old, incoming), k) == carried(
                old,
                (k, value_of(incoming, k)),
            ),
        forall|k: Seq<char>|
            has_key(old, k) && !has_key(incoming, k) ==> value_of(appended(old, incoming), k)
                == value_of(old, k),
    decreases incoming.len(),
{
    if incoming.len() > 0 {
        let head = incoming.drop_last();
        let e = incoming.last();
        let prev = appended(old, head);
        let t = appended(old, incoming);
        let n = incoming.len() - 1;
        assert forall|p: int| 0 <= p < head.len() implies #[trigger] head[p] == incoming[p] by {}
        lemma_appended(old, head);
        lemma_inserted(prev, e.0, carried(old, e));
        lemma_value_at(incoming, n);
        assert(!has_key(head, e.0)) by {
            if has_key(head, e.0) {
                let p = index_of_key(head, e.0);
                assert(head[p] == incoming[p]);
            }
        }
        assert forall|k: Seq<char>| has_key(incoming, k) == (has_key(head, k) || k == e.0) by {
            if has_key(incoming, k) {
                let p = index_of_key(incoming, k);
                if p < n {
                    assert(head[p].0 == k);
                }
            }
            if has_key(head, k) {
                let p = index_of_key(head, k);
                assert(incoming[p].0 == k);
            }
        }
        assert forall|k: Seq<char>| has_key(head, k) implies value_of(head, k) == value_of(
            incoming,
            k,
        ) by {
            let p = index_of_key(head, k);
            assert(incoming[p] == head[p]);
            lemma_value_at(incoming, p);
        }
    }
}

/// What was collected holds no path twice, holds exactly the paths that could
/// be read, and holds no more entries than were probed.
pub proof fn lemma_collected(probed: Seq<Probe>)
    ensures
        distinct_keys(collected(probed)),
        collected(probed).len() <= probed.len(),
        forall|k: Seq<char>|
            has_key(collected(probed), k) <==> exists|i: int|
                0 <= i < probed.len() && (#[trigger] probed[i]).0 == k && probed[i].1 is Some,
    decreases probed.len(),
{
    if probed.len() > 0 {
        let head = probed.drop_last();
        let last = probed.last();
        let n = probed.len() - 1;
        lemma_collected(head);
        assert forall|p: int| 0 <= p < head.len() implies #[trigger] head[p] == probed[p] by {}
        if let Some(f) = last.1 {
            lemma_inserted(collected(head), last.0, f);
        }
        assert forall|k: Seq<char>|
            has_key(collected(probed), k) <==> exists|i: int|
                0 <= i < probed.len() && (#[trigger] probed[i]).0 == k && probed[i].1 is Some by {
            if has_key(collected(probed), k) {
                if last.1 is Some && k == last.0 {
                    assert(probed[n].0 == k);
                } else {
                    assert(has_key(collected(head), k));
                    let i = choose|i: int|
                        0 <= i < head.len() && (#[trigger] head[i]).0 == k && head[i].1 is Some;
                    assert(probed[i] == head[i]);
                }
            }
            if exists|i: int|
                0 <= i < probed.len() && (#[trigger] probed[i]).0 == k && probed[i].1 is Some {
                let i = choose|i: int|
                    0 <= i < probed.len() && (#[trigger] probed[i]).0 == k && probed[i].1 is Some;
                if i < n {
                    assert(head[i] == probed[i]);
                    assert(has_key(collected(head), k));
                }
            }
        }
    }
}

/// A rearrangement holds the same paths with the same entries, and the
/// listing it came from rearranges it in turn.
pub proof fn lemma_rearranged(t: Seq<Entry>, s: Seq<Entry>)
    requires
        rearranges(t, s),
        distinct_keys(s),
    ensures
        rearranges(s, t),
        forall|k: Seq<char>| has_key(t, k) == has_key(s, k),
        forall|k: Seq<char>| has_key(s, k) ==> value_of(t, k) == value_of(s, k),
{
    let kt = keys(t);
    let ks = keys(s);
    assert(kt.no_duplicates());
    assert(ks.no_duplicates());
    kt.unique_seq_to_set();
    ks.unique_seq_to_set();
    seq_to_set_is_finite(kt);
    seq_to_set_is_finite(ks);
    assert forall|k: Seq<char>| kt.to_set().contains(k) implies ks.to_set().contains(k) by {
        let p = choose|p: int| 0 <= p < kt.len() && kt[p] == k;
        let r = choose|r: int| 0 <= r < s.len() && s[r] == t[p];
        assert(ks[r] == k);
    }
    lemma_subset_equality(kt.to_set(), ks.to_set());
    assert forall|r: int| 0 <= r < s.len() implies t.contains(#[trigger] s[r]) by {
        assert(ks[r] == s[r].0);
        assert(ks.to_set().contains(s[r].0));
        assert(kt.to_set().contains(s[r].0));
        let p = choose|p: int| 0 <= p < kt.len() && kt[p] == s[r].0;
        let r2 = choose|r2: int| 0 <= r2 < s.len() && s[r2] == t[p];
        assert(s[r2].0 == s[r].0);
        assert(r2 == r);
        assert(t[p] == s[r]);
    }
    assert forall|k: Seq<char>| has_key(t, k) == has_key(s, k) by {
        if has_key(t, k) {
            let p = index_of_key(t, k);
            let r = choose|r: int| 0 <= r < s.len() && s[r] == t[p];
            assert(s[r].0 == k);
        }
        if has_key(s, k) {
            let r = index_of_key(s, k);
            let p = choose|p: int| 0 <= p < t.len() && t[p] == s[r];
            assert(t[p].0 == k);
        }
    }
    assert forall|k: Seq<char>| has_key(s, k) implies value_of(t, k) == value_of(s, k) by {
        let r = index_of_key(s, k);
        let p = choose|p: int| 0 <= p < t.len() && t[p] == s[r];
        lemma_value_at(t, p);
    }
}

/// A listing without a repeated path rearranges itself.
pub proof fn lemma_rearranges_itself(s: Seq<Entry>)
    requires
        distinct_keys(s),
    ensures
        rearranges(s, s),
{
}

/// Rearranging a rearrangement rearranges the first listing.
pub proof fn lemma_rearranges_twice(u: Seq<Entry>, t: Seq<Entry>, s: Seq<Entry>)
    requires
        rearranges(u, t),
        rearranges(t, s),
    ensures
        rearranges(u, s),
{
    assert forall|p: int| 0 <= p < u.len() implies s.contains(#[trigger] u[p]) by {
        let q = choose|q: int| 0 <= q < t.len() && t[q] == u[p];
        assert(s.contains(t[q]));
    }
}

/// Moving the entry at `i` down to `j`, past entries that it precedes and
/// behind one that it does not, keeps the first `i + 1` entries such that no
/// neighbours are out of order.
pub proof fn lemma_moved_down(s: Seq<Entry>, i: int, j: int, sort: FilesSort)
    requires
        0 <= j <= i < s.len(),
        distinct_keys(s),
        neighbours_in_order(s.take(i), sort),
        forall|k: int| j <= k < i ==> before(s[i].1, (#[trigger] s[k]).1, sort),
        j > 0 ==> !before(s[i].1, s[j - 1].1, sort),
    ensures
        ({
            let t = s.remove(i).insert(j, s[i]);
            &&& rearranges(t, s)
            &&& neighbours_in_order(t.take(i + 1), sort)
        }),
{
    let t = s.remove(i).insert(j, s[i]);
    assert forall|p: int| 0 <= p < t.len() implies #[trigger] t[p] == s[if p < j {
        p
    } else if p == j {
        i
    } else if p <= i {
        p - 1
    } else {
        p
    }] by {}
    assert forall|p: int| 0 <= p < t.len() implies s.contains(#[trigger] t[p]) by {
        let r = if p < j {
            p
        } else if p == j {
            i
        } else if p <= i {
            p - 1
        } else {
            p
        };
        assert(t[p] == s[r]);
    }
    let head = t.take(i + 1);
    assert forall|p: int| 0 <= p < head.len() - 1 implies !before(
        head[p + 1].1,
        (#[trigger] head[p]).1,
        sort,
    ) by {
        assert(head[p] == t[p] && head[p + 1] == t[p + 1]);
        if p + 1 < j {
            assert(s.take(i)[p] == s[p] && s.take(i)[p + 1] == s[p + 1]);
        } else if p + 1 == j {
        } else if p == j {
            assert(t[p + 1] == s[j]);
            lemma_before_is_strict_order(s[i].1, s[j].1, s[i].1, sort);
        } else {
            assert(s.take(i)[p - 1] == s[p - 1] && s.take(i)[p] == s[p]);
        }
    }
}

} // verus!
