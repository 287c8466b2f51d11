use crate::file::{File, FileView};
use vstd::prelude::*;
use vstd::utf8::encode_utf8;

verus! {

/// Criterion by which a listing is ordered.
#[derive(Clone, Copy, Debug, PartialEq, Eq)]
pub enum SortBy {
    Alphabetical,
    Created,
    Modified,
    Size,
}

/// How a listing is ordered: the criterion, and whether its direction is
/// turned round.
#[derive(Clone, Copy, Debug, PartialEq, Eq)]
pub struct FilesSort {
    pub by: SortBy,
    pub reverse: bool,
}

/// How one entry stands to another under a [`FilesSort`].
#[derive(Clone, Copy, Debug, PartialEq, Eq)]
pub enum Rel {
    Less,
    Equal,
    Greater,
}

/// Strict lexicographic order on byte strings: at the first position where
/// the two differ the smaller byte decides, and a proper prefix comes first.
pub open spec fn lex_lt(a: Seq<u8>, b: Seq<u8>) -> bool
    decreases a.len(),
{
    if b.len() == 0 {
        false
    } else if a.len() == 0 {
        true
    } else if a[0] != b[0] {
        a[0] < b[0]
    } else {
        lex_lt(a.drop_first(), b.drop_first())
    }
}

/// What `by` measures of an entry: its creation time, its modification time
/// or its cached length. `None` where the entry lacks that, and for names,
/// which are not measured but compared.
pub open spec fn measure(f: FileView, by: SortBy) -> Option<int> {
    match by {
        SortBy::Alphabetical => None,
        SortBy::Created => match f.meta.created {
            Some(t) => Some(t as int),
            None => None,
        },
        SortBy::Modified => match f.meta.modified {
            Some(t) => Some(t as int),
            None => None,
        },
        SortBy::Size => match f.length {
            Some(n) => Some(n as int),
            None => None,
        },
    }
}

/// Whether both measures are known and the first is the smaller.
pub open spec fn smaller(a: Option<int>, b: Option<int>) -> bool {
    a is Some && b is Some && a->0 < b->0
}

/// Whether `a` comes strictly before `b` in ascending order by `by`.
///
/// Names compare as their UTF-8 bytes. A timestamp or a cached length that is
/// missing on either side decides nothing.
pub open spec fn before_ascending(a: FileView, b: FileView, by: SortBy) -> bool {
    match by {
        SortBy::Alphabetical => lex_lt(encode_utf8(a.name), encode_utf8(b.name)),
        _ => smaller(measure(a, by), measure(b, by)),
    }
}

/// Whether `a` comes strictly before `b` under `sort`.
pub open spec fn before(a: FileView, b: FileView, sort: FilesSort) -> bool {
    if sort.reverse {
        before_ascending(b, a, sort.by)
    } else {
        before_ascending(a, b, sort.by)
    }
}

/// Whether `sort` leaves the pair undecided, so that sorting keeps the two in
/// the order they had.
pub open spec fn tied(a: FileView, b: FileView, sort: FilesSort) -> bool {
    !before(a, b, sort) && !before(b, a, sort)
}

/// The three-way outcome of comparing `a` with `b` under `sort`.
pub open spec fn relation(a: FileView, b: FileView, sort: FilesSort) -> Rel {
    if before(a, b, sort) {
        Rel::Less
    } else if before(b, a, sort) {
        Rel::Greater
    } else {
        Rel::Equal
    }
}

impl Rel {
    /// The outcome with the two sides exchanged.
    pub open spec fn flipped(self) -> Rel {
        match self {
            Rel::Less => Rel::Greater,
            Rel::Equal => Rel::Equal,
            Rel::Greater => Rel::Less,
        }
    }

    /// The outcome with the two sides exchanged.
    pub fn flip(self) -> (r: Rel)
        ensures
            r == self.flipped(),
    {
        match self {
            Rel::Less => Rel::Greater,
            Rel::Equal => Rel::Equal,
            Rel::Greater => Rel::Less,
        }
    }
}

/// No byte string comes before itself.
pub proof fn lemma_lex_irreflexive(a: Seq<u8>)
    ensures
        !lex_lt(a, a),
    decreases a.len(),
{
    if a.len() > 0 {
        lemma_lex_irreflexive(a.drop_first());
    }
}

/// No two byte strings come before each other.
pub proof fn lemma_lex_asymmetric(a: Seq<u8>, b: Seq<u8>)
    requires
        lex_lt(a, b),
    ensures
        !lex_lt(b, a),
    decreases a.len(),
{
    if a.len() > 0 && b.len() > 0 && a[0] == b[0] {
        lemma_lex_asymmetric(a.drop_first(), b.drop_first());
    }
}

/// What comes before a byte string comes before all that it comes before.
pub proof fn lemma_lex_transitive(a: Seq<u8>, b: Seq<u8>, c: Seq<u8>)
    requires
        lex_lt(a, b),
        lex_lt(b, c),
    ensures
        lex_lt(a, c),
    decreases a.len(),
{
    if a.len() > 0 && b.len() > 0 && c.len() > 0 && a[0] == b[0] && b[0] == c[0] {
        lemma_lex_transitive(a.drop_first(), b.drop_first(), c.drop_first());
    }
}

/// Two byte strings of which neither comes before the other are the same.
pub proof fn lemma_lex_total(a: Seq<u8>, b: Seq<u8>)
    requires
        !lex_lt(a, b),
        !lex_lt(b, a),
    ensures
        a == b,
    decreases a.len(),
{
    if a.len() > 0 && b.len() > 0 {
        lemma_lex_total(a.drop_first(), b.drop_first());
        assert(a =~= seq![a[0]] + a.drop_first());
        assert(b =~= seq![b[0]] + b.drop_first());
    } else {
        assert(a =~= b);
    }
}

proof fn lemma_lex_skip(a: Seq<u8>, b: Seq<u8>, i: int)
    requires
        0 <= i < a.len(),
        i < b.len(),
        a[i] == b[i],
    ensures
        lex_lt(a.skip(i), b.skip(i)) == lex_lt(a.skip(i + 1), b.skip(i + 1)),
{
    assert(a.skip(i).drop_first() =~= a.skip(i + 1));
    assert(b.skip(i).drop_first() =~= b.skip(i + 1));
}

/// Compares two byte strings lexicographically.
pub fn lex_relate(a: &[u8], b: &[u8]) -> (r: Rel)
    ensures
        r == (if lex_lt(a@, b@) {
            Rel::Less
        } else if lex_lt(b@, a@) {
            Rel::Greater
        } else {
            Rel::Equal
        }),
{
    let mut i: usize = 0;
    assert(a@.skip(0) =~= a@ && b@.skip(0) =~= b@);
    while i < a.len() && i < b.len()
        invariant
            i <= a.len(),
            i <= b.len(),
            lex_lt(a@, b@) == lex_lt(a@.skip(i as int), b@.skip(i as int)),
            lex_lt(b@, a@) == lex_lt(b@.skip(i as int), a@.skip(i as int)),
        decreases a.len() - i,
    {
        if a[i] != b[i] {
            proof {
                if a[i as int] < b[i as int] {
                    lemma_lex_asymmetric(a@.skip(i as int), b@.skip(i as int));
                }
            }
            return if a[i] < b[i] {
                Rel::Less
            } else {
                Rel::Greater
            };
        }
        proof {
            lemma_lex_skip(a@, b@, i as int);
            lemma_lex_skip(b@, a@, i as int);
        }
        i += 1;
    }
    if i < b.len() {
        proof {
            lemma_lex_asymmetric(a@.skip(i as int), b@.skip(i as int));
        }
        Rel::Less
    } else if i < a.len() {
        Rel::Greater
    } else {
        Rel::Equal
    }
}

/// The measure that an entry is ordered by, if it has it. Timestamps and
/// lengths both fit the wider of the two integer types.
pub fn measure_of(f: &File, by: SortBy) -> (m: Option<i128>)
    ensures
        m is Some <==> measure(f@, by) is Some,
        m matches Some(v) ==> measure(f@, by) == Some(v as int),
{
    match by {
        SortBy::Alphabetical => None,
        SortBy::Created => f.meta.created,
        SortBy::Modified => f.meta.modified,
        SortBy::Size => match f.length {
            Some(n) => Some(n as i128),
            None => None,
        },
    }
}

fn relate_measures(a: Option<i128>, b: Option<i128>) -> (r: Rel)
    ensures
        r == (if a is Some && b is Some && a->0 < b->0 {
            Rel::Less
        } else if a is Some && b is Some && b->0 < a->0 {
            Rel::Greater
        } else {
            Rel::Equal
        }),
{
    match (a, b) {
        (Some(x), Some(y)) => {
            if x < y {
                Rel::Less
            } else if y < x {
                Rel::Greater
            } else {
                Rel::Equal
            }
        },
        _ => Rel::Equal,
    }
}

/// Compares two entries under `sort`.
pub fn relate(a: &File, b: &File, sort: FilesSort) -> (r: Rel)
    ensures
        r == relation(a@, b@, sort),
{
    let ascending = match sort.by {
        SortBy::Alphabetical => lex_relate(a.name.as_str().as_bytes(), b.name.as_str().as_bytes()),
        _ => relate_measures(measure_of(a, sort.by), measure_of(b, sort.by)),
    };
    proof {
        lemma_before_is_strict_order(a@, b@, a@, sort);
        lemma_before_is_strict_order(b@, a@, b@, sort);
    }
    if sort.reverse {
        ascending.flip()
    } else {
        ascending
    }
}

/// Under any criterion and direction, `before` is a strict order: nothing
/// comes before itself, no two entries come before each other, and it is
/// transitive.
pub proof fn lemma_before_is_strict_order(a: FileView, b: FileView, c: FileView, sort: FilesSort)
    ensures
        !before(a, a, sort),
        before(a, b, sort) ==> !before(b, a, sort),
        before(a, b, sort) && before(b, c, sort) ==> before(a, c, sort),
{
    let (na, nb, nc) = (encode_utf8(a.name), encode_utf8(b.name), encode_utf8(c.name));
    lemma_lex_irreflexive(na);
    if lex_lt(na, nb) {
        lemma_lex_asymmetric(na, nb);
    }
    if lex_lt(nb, na) {
        lemma_lex_asymmetric(nb, na);
    }
    if lex_lt(na, nb) && lex_lt(nb, nc) {
        lemma_lex_transitive(na, nb, nc);
    }
    if lex_lt(nc, nb) && lex_lt(nb, na) {
        lemma_lex_transitive(nc, nb, na);
    }
}

/// Exactly one of three holds of any two entries: the first comes before the
/// second, the second before the first, or the pair is tied.
pub proof fn lemma_relation_is_total(a: FileView, b: FileView, sort: FilesSort)
    ensures
        relation(a, b, sort) == Rel::Less <==> before(a, b, sort),
        relation(a, b, sort) == Rel::Greater <==> before(b, a, sort),
        relation(a, b, sort) == Rel::Equal <==> tied(a, b, sort),
        relation(b, a, sort) == relation(a, b, sort).flipped(),
{
    lemma_before_is_strict_order(a, b, a, sort);
    lemma_before_is_strict_order(b, a, b, sort);
}

/// What it is to be tied: by name, to have the same name; by a timestamp or
/// by size, to have the same measure or to lack it on either side.
pub proof fn lemma_tied(a: FileView, b: FileView, sort: FilesSort)
    ensures
        tied(a, b, sort) <==> match sort.by {
            SortBy::Alphabetical => a.name == b.name,
            _ => measure(a, sort.by) is None || measure(b, sort.by) is None || measure(a, sort.by)
                == measure(b, sort.by),
        },
{
    let (na, nb) = (encode_utf8(a.name), encode_utf8(b.name));
    lemma_lex_irreflexive(na);
    if !lex_lt(na, nb) && !lex_lt(nb, na) {
        lemma_lex_total(na, nb);
        vstd::utf8::encode_utf8_decode_utf8(a.name);
        vstd::utf8::encode_utf8_decode_utf8(b.name);
    }
}

/// Turning the direction round exchanges the two sides of every decided
/// comparison and leaves every tied pair tied.
pub proof fn lemma_reverse_exchanges_sides(a: FileView, b: FileView, by: SortBy)
    ensures
        before(a, b, FilesSort { by, reverse: true }) == before(
            b,
            a,
            FilesSort { by, reverse: false },
        ),
        tied(a, b, FilesSort { by, reverse: true }) == tied(a, b, FilesSort { by, reverse: false }),
        relation(a, b, FilesSort { by, reverse: true }) == relation(
            a,
            b,
            FilesSort { by, reverse: false },
        ).flipped(),
{
    lemma_relation_is_total(a, b, FilesSort { by, reverse: false });
}

} // verus!
