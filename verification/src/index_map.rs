use crate::file::File;
use crate::listing::{has_key, inserted, keys, ranks, sorts_stably, value_of, visible, Entry};
use crate::order::{relate, relation, FilesSort, Rel};
use indexmap::IndexMap;
use std::cmp::Ordering;
use std::hash::RandomState;
use vstd::prelude::*;

verus! {

/// `indexmap::IndexMap`, a hash map that keeps its pairs in a sequence: a key
/// that is inserted anew goes to the end.
#[verifier::external_type_specification]
#[verifier::external_body]
#[verifier::reject_recursive_types(K)]
#[verifier::reject_recursive_types(V)]
#[verifier::reject_recursive_types(S)]
pub struct ExIndexMap<K, V, S>(IndexMap<K, V, S>);

/// The key-value pairs that a map holds, in the map's order.
pub uninterp spec fn entries(m: IndexMap<String, File, RandomState>) -> Seq<Entry>;

/// The views of owned pairs.
pub open spec fn pairs(v: Seq<(String, File)>) -> Seq<Entry> {
    v.map_values(|p: (String, File)| (p.0@, p.1@))
}

/// `IndexMap::new`: the map it returns holds nothing.
#[verifier::external_body]
pub(crate) fn map_new() -> (m: IndexMap<String, File>)
    ensures
        entries(m) == Seq::<Entry>::empty(),
{
    IndexMap::new()
}

/// `IndexMap::len`: the number of pairs held. A map holds no key twice, so
/// this is also the number of different keys.
#[verifier::external_body]
pub(crate) fn map_len(m: &IndexMap<String, File>) -> (n: usize)
    ensures
        n == entries(*m).len(),
        n == keys(entries(*m)).to_set().len(),
{
    m.len()
}

/// `IndexMap::get_index`: the pair at a position, `None` past the end.
#[verifier::external_body]
pub(crate) fn map_get_index(m: &IndexMap<String, File>, i: usize) -> (r: Option<(&String, &File)>)
    ensures
        r is Some <==> i < entries(*m).len(),
        r matches Some(kv) ==> (kv.0@, kv.1@) == entries(*m)[i as int],
{
    m.get_index(i)
}

/// `IndexMap::get_index_mut`, its value half: the value at a position, to be
/// changed in place. Key and position stay.
#[verifier::external_body]
pub(crate) fn map_value_mut(m: &mut IndexMap<String, File>, i: usize) -> (v: &mut File)
    requires
        i < entries(*old(m)).len(),
    ensures
        (*v)@ == entries(*old(m))[i as int].1,
        entries(*final(m)) == entries(*old(m)).update(
            i as int,
            (entries(*old(m))[i as int].0, (*final(v))@),
        ),
{
    m.get_index_mut(i).unwrap().1
}

/// `IndexMap::get`: the value stored under a key, if there is one.
#[verifier::external_body]
pub(crate) fn map_get<'a>(m: &'a IndexMap<String, File>, key: &String) -> (r: Option<&'a File>)
    ensures
        r is Some <==> has_key(entries(*m), key@),
        r matches Some(f) ==> f@ == value_of(entries(*m), key@),
{
    m.get(key)
}

/// `IndexMap::insert`: a key that the map holds keeps its place and gets the
/// new value, and the value it had is returned; any other key goes to the end
/// with its value.
#[verifier::external_body]
pub(crate) fn map_insert(m: &mut IndexMap<String, File>, key: String, value: File) -> (r: Option<File>)
    ensures
        entries(*final(m)) == inserted(entries(*old(m)), key@, value@),
        r is Some <==> has_key(entries(*old(m)), key@),
        r matches Some(f) ==> f@ == value_of(entries(*old(m)), key@),
{
    m.insert(key, value)
}

/// `IndexMap::retain` with [`File::is_visible`] on the values: the pairs that
/// it keeps stay in their order.
#[verifier::external_body]
pub(crate) fn map_retain_visible(m: &mut IndexMap<String, File>)
    ensures
        entries(*final(m)) == visible(entries(*old(m))),
{
    m.retain(|_, file| file.is_visible())
}

/// The outcome of [`relate`] as std's `Ordering`.
pub fn sort_ordering(a: &File, b: &File, sort: FilesSort) -> (o: Ordering)
    ensures
        o == Ordering::Less <==> relation(a@, b@, sort) == Rel::Less,
        o == Ordering::Greater <==> relation(a@, b@, sort) == Rel::Greater,
{
    match relate(a, b, sort) {
        Rel::Less => Ordering::Less,
        Rel::Equal => Ordering::Equal,
        Rel::Greater => Ordering::Greater,
    }
}

/// `IndexMap::sort_by` with [`sort_ordering`] on the values: a stable sort. The
/// slice sort beneath it may panic when the comparison is no total order, so
/// the entries have to be ranked by `sort`.
#[verifier::external_body]
pub(crate) fn map_sort_by(m: &mut IndexMap<String, File>, sort: FilesSort)
    requires
        ranks(entries(*old(m)), sort),
    ensures
        sorts_stably(entries(*final(m)), entries(*old(m)), sort),
{
    m.sort_by(|_, a, _, b| sort_ordering(a, b, sort))
}

/// `IndexMap::move_index`: the pair at `from` goes to `to`, and the pairs
/// between the two shift by one.
#[verifier::external_body]
pub(crate) fn map_move_index(m: &mut IndexMap<String, File>, from: usize, to: usize)
    requires
        from < entries(*old(m)).len(),
        to < entries(*old(m)).len(),
    ensures
        entries(*final(m)) == entries(*old(m)).remove(from as int).insert(
            to as int,
            entries(*old(m))[from as int],
        ),
{
    m.move_index(from, to)
}

/// `IndexMap::into_iter`, collected: the pairs by value, in the map's order.
#[verifier::external_body]
pub(crate) fn map_into_pairs(m: IndexMap<String, File>) -> (v: Vec<(String, File)>)
    ensures
        pairs(v@) == entries(m),
{
    m.into_iter().collect()
}

} // verus!
