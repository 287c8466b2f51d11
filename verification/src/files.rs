use crate::file::File;
use crate::index_map::{
    entries, map_get, map_get_index, map_insert, map_into_pairs, map_len, map_move_index, map_new,
    map_retain_visible, map_sort_by, map_value_mut, pairs,
};
use crate::listing::{
    appended, carried, collected, distinct_keys, has_key, index_of_key, lemma_appended,
    lemma_collected, lemma_distinct_from_count, lemma_keeps_own_ties, lemma_move_keeps_ties,
    lemma_moved_down, lemma_ranked, lemma_rearranged,
    lemma_rearranges_itself, lemma_rearranges_twice, lemma_refreshed, lemma_value_at,
    keeps_ties, neighbours_in_order, ranks, rearranges, refreshed, sorts_stably, value_of, visible, Entry,
    Probe,
};
use crate::order::{
    before, lemma_relation_is_total, measure, measure_of, relate, tied, FilesSort, Rel, SortBy,
};
use indexmap::IndexMap;
use vstd::prelude::*;

verus! {

/// The entries of one directory: keyed by path, kept in the order that the
/// sort policy gives, and filtered for hidden entries as they come in.
pub struct Files {
    items: IndexMap<String, File>,
    sort: FilesSort,
    pub show_hidden: bool,
}

impl View for Files {
    type V = Seq<Entry>;

    closed spec fn view(&self) -> Seq<Entry> {
        entries(self.items)
    }
}

/// A change to the listing of one directory, tagged with the directory's path
/// so that the receiver can tell which listing it is for.
pub enum FilesOp {
    /// A full snapshot, to replace the listing.
    Update(String, IndexMap<String, File>),
    /// More entries, to be taken into the listing.
    Append(String, IndexMap<String, File>),
}

impl FilesOp {
    /// The directory that the change is for.
    pub open spec fn tag(&self) -> String {
        match self {
            FilesOp::Update(path, _) => *path,
            FilesOp::Append(path, _) => *path,
        }
    }

    /// The directory that the change is for.
    pub fn path(&self) -> (path: String)
        ensures
            path == self.tag(),
    {
        match self {
            FilesOp::Update(path, _) => path.clone(),
            FilesOp::Append(path, _) => path.clone(),
        }
    }
}

/// The views of what was probed.
pub open spec fn probes(v: Seq<(String, Option<File>)>) -> Seq<Probe> {
    v.map_values(
        |p: (String, Option<File>)|
            (
                p.0@,
                match p.1 {
                    Some(f) => Some(f@),
                    None => None,
                },
            ),
    )
}

impl Files {
    /// The policy by which the entries are ordered.
    pub closed spec fn policy(&self) -> FilesSort {
        self.sort
    }

    /// Whether hidden entries are let in.
    pub closed spec fn shows_hidden(&self) -> bool {
        self.show_hidden
    }

    /// An empty listing with the given policy.
    pub fn new(sort: FilesSort, show_hidden: bool) -> (files: Files)
        ensures
            files@ == Seq::<Entry>::empty(),
            files.policy() == sort,
            files.shows_hidden() == show_hidden,
    {
        Files { items: map_new(), sort, show_hidden }
    }

    /// The policy by which the entries are ordered.
    pub fn sort_spec(&self) -> (sort: FilesSort)
        ensures
            sort == self.policy(),
    {
        self.sort
    }

    /// Sets the policy. The entries stay as they are until the next
    /// [`Files::sort`], [`Files::update`] or [`Files::append`].
    pub fn set_sort(&mut self, sort: FilesSort)
        ensures
            final(self).policy() == sort,
            final(self)@ == old(self)@,
            final(self).shows_hidden() == old(self).shows_hidden(),
    {
        self.sort = sort;
    }

    /// Sets whether hidden entries are let in. The entries stay as they are:
    /// the filter is applied to the next snapshot.
    pub fn set_show_hidden(&mut self, show_hidden: bool)
        ensures
            final(self).shows_hidden() == show_hidden,
            final(self)@ == old(self)@,
            final(self).policy() == old(self).policy(),
    {
        self.show_hidden = show_hidden;
    }

    /// The number of entries.
    pub fn len(&self) -> (n: usize)
        ensures
            n == self@.len(),
            distinct_keys(self@),
    {
        let n = map_len(&self.items);
        proof {
            lemma_distinct_from_count(self@);
        }
        n
    }

    /// The path and the entry at position `i`, `None` past the end.
    pub fn get_index(&self, i: usize) -> (r: Option<(&String, &File)>)
        ensures
            r is Some <==> i < self@.len(),
            r matches Some(kv) ==> (kv.0@, kv.1@) == self@[i as int],
    {
        map_get_index(&self.items, i)
    }

    /// The entry listed under `path`, if there is one.
    pub fn get(&self, path: &String) -> (r: Option<&File>)
        ensures
            r is Some <==> has_key(self@, path@),
            r matches Some(f) ==> f@ == value_of(self@, path@),
    {
        map_get(&self.items, path)
    }

    /// The entries as the map that holds them.
    pub fn items(&self) -> (items: &IndexMap<String, File>)
        ensures
            entries(*items) == self@,
    {
        &self.items
    }

    /// Makes a snapshot of what was probed: the entries that could be made,
    /// under their paths and in the order of probing. A path whose metadata
    /// could not be read leaves no trace.
    pub fn from(probed: Vec<(String, Option<File>)>) -> (items: IndexMap<String, File>)
        ensures
            entries(items) == collected(probes(probed@)),
            distinct_keys(entries(items)),
            entries(items).len() <= probed@.len(),
            forall|k: Seq<char>|
                has_key(entries(items), k) <==> exists|i: int|
                    0 <= i < probed@.len() && (#[trigger] probes(probed@)[i]).0 == k && probes(
                        probed@,
                    )[i].1 is Some,
    {
        let ghost all = probes(probed@);
        let mut items = map_new();
        for probe in it: probed.into_iter()
            invariant
                it.seq() == probed@,
                all == probes(probed@),
                entries(items) == collected(all.take(it.index() as int)),
        {
            let ghost done = it.index() as int;
            proof {
                assert(all.take(done + 1).drop_last() =~= all.take(done));
                assert(all.take(done + 1).last() == all[done]);
            }
            let (path, file) = probe;
            if let Some(file) = file {
                map_insert(&mut items, path, file);
            }
        }
        proof {
            assert(all.take(probed@.len() as int) =~= all);
            lemma_collected(all);
        }
        items
    }

    /// Makes the change that a scan of the directory `path` amounts to.
    ///
    /// `listing` is `None` where the directory could not be opened: then
    /// there is no change at all. Otherwise the change is a full snapshot of
    /// what was probed, as [`Files::from`] makes it, tagged with `path`.
    pub fn read(path: String, listing: Option<Vec<(String, Option<File>)>>) -> (op: Option<
        FilesOp,
    >)
        ensures
            listing is None <==> op is None,
            listing matches Some(probed) ==> op matches Some(FilesOp::Update(tag, items)) && tag
                == path && entries(items) == collected(probes(probed@)),
    {
        match listing {
            None => None,
            Some(probed) => Some(FilesOp::Update(path, Files::from(probed))),
        }
    }

    /// Whether the entry at `i` comes strictly before the one at `j`.
    fn precedes(&self, i: usize, j: usize) -> (r: bool)
        requires
            i < self@.len(),
            j < self@.len(),
        ensures
            r == before(self@[i as int].1, self@[j as int].1, self.policy()),
    {
        proof {
            lemma_relation_is_total(self@[i as int].1, self@[j as int].1, self.policy());
        }
        match (map_get_index(&self.items, i), map_get_index(&self.items, j)) {
            (Some((_, a)), Some((_, b))) => match relate(a, b, self.sort) {
                Rel::Less => true,
                _ => false,
            },
            _ => false,
        }
    }

    /// What the policy measures of the entry at `i`.
    fn measure_at(&self, i: usize) -> (m: Option<i128>)
        requires
            i < self@.len(),
        ensures
            m is Some <==> measure(self@[i as int].1, self.policy().by) is Some,
            m matches Some(v) ==> measure(self@[i as int].1, self.policy().by) == Some(v as int),
    {
        match map_get_index(&self.items, i) {
            Some((_, f)) => measure_of(f, self.sort.by),
            None => None,
        }
    }

    /// Whether the policy ranks the entries: by name it always does; by a
    /// timestamp or by size it does unless one entry lacks what is measured
    /// while two others differ in it.
    fn ranked(&self) -> (r: bool)
        ensures
            r == ranks(self@, self.policy()),
    {
        let ghost s = self@;
        let ghost sort = self.sort;
        match self.sort.by {
            SortBy::Alphabetical => {
                proof {
                    lemma_ranked(s, sort);
                }
                true
            },
            _ => {
                let n = map_len(&self.items);
                let mut missing = false;
                let mut varied = false;
                let mut first: Option<i128> = None;
                let ghost mut missing_at: int = 0;
                let ghost mut first_at: int = 0;
                let ghost mut other_at: int = 0;
                let mut i: usize = 0;
                while i < n
                    invariant
                        i <= n,
                        n == self@.len(),
                        s == self@,
                        sort == self.policy(),
                        sort.by != SortBy::Alphabetical,
                        missing ==> 0 <= missing_at < i && measure(s[missing_at].1, sort.by)
                            is None,
                        !missing ==> forall|p: int|
                            0 <= p < i ==> measure((#[trigger] s[p]).1, sort.by) is Some,
                        first matches Some(v) ==> 0 <= first_at < i && measure(
                            s[first_at].1,
                            sort.by,
                        ) == Some(v as int),
                        first is None ==> forall|p: int|
                            0 <= p < i ==> measure((#[trigger] s[p]).1, sort.by) is None,
                        varied ==> first is Some && 0 <= other_at < i && measure(
                            s[other_at].1,
                            sort.by,
                        ) is Some && measure(s[other_at].1, sort.by) != measure(
                            s[first_at].1,
                            sort.by,
                        ),
                        !varied ==> forall|p: int|
                            0 <= p < i && measure((#[trigger] s[p]).1, sort.by) is Some
                                ==> first is Some && measure(s[p].1, sort.by) == measure(
                                s[first_at].1,
                                sort.by,
                            ),
                    decreases n - i,
                {
                    match self.measure_at(i) {
                        None => {
                            missing = true;
                            proof {
                                missing_at = i as int;
                            }
                        },
                        Some(t) => match first {
                            None => {
                                first = Some(t);
                                proof {
                                    first_at = i as int;
                                }
                            },
                            Some(u) => {
                                if t != u {
                                    varied = true;
                                    proof {
                                        other_at = i as int;
                                    }
                                }
                            },
                        },
                    }
                    i += 1;
                }
                proof {
                    if missing && varied {
                        assert(tied(s[first_at].1, s[missing_at].1, sort));
                        assert(tied(s[missing_at].1, s[other_at].1, sort));
                        assert(!tied(s[first_at].1, s[other_at].1, sort));
                    } else if !missing {
                        lemma_ranked(s, sort);
                    }
                }
                !(missing && varied)
            },
        }
    }

    /// Sorts by inserting each entry behind the last one before it that it
    /// does not precede. This asks nothing of the policy.
    fn sort_by_insertion(&mut self)
        ensures
            final(self).policy() == old(self).policy(),
            final(self).shows_hidden() == old(self).shows_hidden(),
            rearranges(final(self)@, old(self)@),
            neighbours_in_order(final(self)@, final(self).policy()),
            keeps_ties(final(self)@, old(self)@, final(self).policy()),
    {
        let n = map_len(&self.items);
        proof {
            lemma_distinct_from_count(self@);
            lemma_rearranges_itself(self@);
            lemma_keeps_own_ties(self@, self.policy());
        }
        if n < 2 {
            return ;
        }
        let mut i: usize = 1;
        while i < n
            invariant
                1 <= i <= n,
                n == self@.len(),
                self.policy() == old(self).policy(),
                self.shows_hidden() == old(self).shows_hidden(),
                rearranges(self@, old(self)@),
                neighbours_in_order(self@.take(i as int), self.policy()),
                keeps_ties(self@, old(self)@, self.policy()),
            decreases n - i,
        {
            let ghost cur = self@;
            let mut j: usize = i;
            while j > 0 && self.precedes(i, j - 1)
                invariant
                    j <= i < n,
                    n == self@.len(),
                    cur == self@,
                    forall|k: int|
                        j <= k < i ==> before(cur[i as int].1, (#[trigger] cur[k]).1, self.policy()),
                decreases j,
            {
                j -= 1;
            }
            proof {
                lemma_moved_down(cur, i as int, j as int, self.policy());
                lemma_move_keeps_ties(cur, i as int, j as int, old(self)@, self.policy());
            }
            if j < i {
                map_move_index(&mut self.items, i, j);
            } else {
                assert(cur.remove(i as int).insert(i as int, cur[i as int]) =~= cur);
            }
            proof {
                lemma_rearranges_twice(self@, cur, old(self)@);
            }
            i += 1;
        }
        assert(self@.take(n as int) =~= self@);
    }

    /// Puts the entries in the order of the policy.
    ///
    /// Two entries that the policy leaves tied always keep their order. Where
    /// the policy ranks the entries, this is the stable sort: no entry stands
    /// after one that it precedes. Where it does not (one entry lacks the
    /// timestamp or the length that is measured, and two others differ in it),
    /// no order can satisfy every pair: then no entry stands directly after
    /// one that it precedes.
    pub fn sort(&mut self)
        ensures
            final(self).policy() == old(self).policy(),
            final(self).shows_hidden() == old(self).shows_hidden(),
            rearranges(final(self)@, old(self)@),
            neighbours_in_order(final(self)@, final(self).policy()),
            keeps_ties(final(self)@, old(self)@, final(self).policy()),
            ranks(old(self)@, old(self).policy()) ==> sorts_stably(
                final(self)@,
                old(self)@,
                final(self).policy(),
            ),
    {
        if self.ranked() {
            map_sort_by(&mut self.items, self.sort);
        } else {
            self.sort_by_insertion();
        }
    }

    /// Replaces the listing by the snapshot `items`.
    ///
    /// Hidden entries are left out unless the listing shows them. An entry
    /// whose path was listed before keeps the cached length and the selection
    /// that it had; everything else about it comes from the snapshot. Paths
    /// that the snapshot lacks are gone. The result is in the order of the
    /// policy, as [`Files::sort`] gives it, and always counts as a change.
    pub fn update(&mut self, items: IndexMap<String, File>) -> (changed: bool)
        ensures
            changed,
            final(self).policy() == old(self).policy(),
            final(self).shows_hidden() == old(self).shows_hidden(),
            distinct_keys(final(self)@),
            ({
                let incoming = if old(self).shows_hidden() {
                    entries(items)
                } else {
                    visible(entries(items))
                };
                let merged = refreshed(old(self)@, incoming);
                &&& rearranges(final(self)@, merged)
                &&& neighbours_in_order(final(self)@, final(self).policy())
                &&& keeps_ties(final(self)@, merged, final(self).policy())
                &&& ranks(merged, final(self).policy()) ==> sorts_stably(
                    final(self)@,
                    merged,
                    final(self).policy(),
                )
                &&& forall|k: Seq<char>| #[trigger] has_key(final(self)@, k) == has_key(incoming, k)
                &&& forall|k: Seq<char>|
                    has_key(incoming, k) ==> #[trigger] value_of(final(self)@, k) == carried(
                        old(self)@,
                        (k, value_of(incoming, k)),
                    )
            }),
    {
        let mut items = items;
        if !self.show_hidden {
            map_retain_visible(&mut items);
        }
        let ghost incoming = entries(items);
        let ghost merged = refreshed(self@, incoming);
        let n = map_len(&items);
        proof {
            lemma_distinct_from_count(incoming);
        }
        let mut i: usize = 0;
        while i < n
            invariant
                i <= n,
                n == incoming.len(),
                entries(items).len() == n,
                self@ == old(self)@,
                merged == refreshed(self@, incoming),
                distinct_keys(incoming),
                forall|p: int| 0 <= p < i ==> (#[trigger] entries(items)[p]) == merged[p],
                forall|p: int| i <= p < n ==> (#[trigger] entries(items)[p]) == incoming[p],
            decreases n - i,
        {
            let kept = match map_get_index(&items, i) {
                Some((path, _)) => match map_get(&self.items, path) {
                    Some(old) => Some((old.length, old.is_selected)),
                    None => None,
                },
                None => None,
            };
            if let Some((length, is_selected)) = kept {
                let item = map_value_mut(&mut items, i);
                item.length = length;
                item.is_selected = is_selected;
            }
            i += 1;
        }
        proof {
            assert(entries(items) =~= merged);
            lemma_refreshed(self@, incoming);
        }
        self.items = items;
        self.sort();
        proof {
            lemma_rearranged(self@, merged);
        }
        true
    }

    /// Takes the entries of `items` into the listing.
    ///
    /// An entry whose path is listed takes the place of the one listed, and
    /// keeps that one's cached length and selection; an entry with a new path
    /// goes to the end. No path is lost. The result is in the order of the
    /// policy, as [`Files::sort`] gives it, and always counts as a change.
    pub fn append(&mut self, items: IndexMap<String, File>) -> (changed: bool)
        ensures
            changed,
            final(self).policy() == old(self).policy(),
            final(self).shows_hidden() == old(self).shows_hidden(),
            distinct_keys(final(self)@),
            ({
                let incoming = entries(items);
                let merged = appended(old(self)@, incoming);
                &&& rearranges(final(self)@, merged)
                &&& neighbours_in_order(final(self)@, final(self).policy())
                &&& keeps_ties(final(self)@, merged, final(self).policy())
                &&& ranks(merged, final(self).policy()) ==> sorts_stably(
                    final(self)@,
                    merged,
                    final(self).policy(),
                )
                &&& forall|k: Seq<char>| #[trigger]
                    has_key(final(self)@, k) == (has_key(old(self)@, k) || has_key(incoming, k))
                &&& forall|k: Seq<char>|
                    has_key(incoming, k) ==> #[trigger] value_of(final(self)@, k) == carried(
                        old(self)@,
                        (k, value_of(incoming, k)),
                    )
                &&& forall|k: Seq<char>|
                    has_key(old(self)@, k) && !has_key(incoming, k) ==> #[trigger] value_of(
                        final(self)@,
                        k,
                    ) == value_of(old(self)@, k)
            }),
    {
        let ghost incoming = entries(items);
        let ghost before_all = self@;
        let n = map_len(&items);
        let m = map_len(&self.items);
        proof {
            lemma_distinct_from_count(incoming);
            lemma_distinct_from_count(before_all);
        }
        let taken = map_into_pairs(items);
        assert(taken@.len() == n) by {
            assert(pairs(taken@).len() == taken@.len());
        }
        for pair in it: taken.into_iter()
            invariant
                it.seq() == taken@,
                pairs(taken@) == incoming,
                self.policy() == old(self).policy(),
                self.shows_hidden() == old(self).shows_hidden(),
                before_all == old(self)@,
                distinct_keys(before_all),
                distinct_keys(incoming),
                self@ == appended(before_all, incoming.take(it.index() as int)),
        {
            let ghost done = it.index() as int;
            let (path, item) = pair;
            let mut item = item;
            proof {
                assert(pairs(taken@)[done] == (path@, item@));
                assert(incoming.take(done + 1).drop_last() =~= incoming.take(done));
                assert(incoming.take(done + 1).last() == incoming[done]);
                lemma_appended(before_all, incoming.take(done));
                lemma_value_at(incoming, done);
                assert(!has_key(incoming.take(done), path@)) by {
                    if has_key(incoming.take(done), path@) {
                        let p = index_of_key(incoming.take(done), path@);
                        assert(incoming.take(done)[p] == incoming[p]);
                    }
                }
            }
            let kept = match map_get(&self.items, &path) {
                Some(old) => Some((old.length, old.is_selected)),
                None => None,
            };
            if let Some((length, is_selected)) = kept {
                item.length = length;
                item.is_selected = is_selected;
            }
            map_insert(&mut self.items, path, item);
        }
        proof {
            assert(incoming.take(n as int) =~= incoming);
            lemma_appended(before_all, incoming);
        }
        let ghost merged = self@;
        self.sort();
        proof {
            lemma_rearranged(self@, merged);
        }
        true
    }
}

} // verus!
