//! The table of distinguished points seen so far.

use vstd::prelude::*;

verus! {

/// A distinguished point's abscissa, as limbs, least significant first.
pub type PointKey = (u64, u64, u64, u64);

/// How a distinguished point was reached: the coefficient of the target and the limbs of the
/// scalar of the generator.
pub type Path = (i8, [u64; 4]);

/// For each distinguished point the paths that reached it, in the order they came in. Held in a
/// `hashbrown::HashMap` with `ahash` hashing.
#[verifier::external_body]
pub struct DpMap {
    inner: hashbrown::HashMap<(u64, u64, u64, u64), Vec<(i8, [u64; 4])>, ahash::RandomState>,
}

/// What a table holds.
pub uninterp spec fn dp_contents(m: DpMap) -> Map<(u64, u64, u64, u64), Seq<(i8, [u64; 4])>>;

impl View for DpMap {
    type V = Map<PointKey, Seq<Path>>;

    open spec fn view(&self) -> Map<PointKey, Seq<Path>> {
        dp_contents(*self)
    }
}

/// An empty table.
pub open spec fn no_paths() -> Map<PointKey, Seq<Path>> {
    Map::empty()
}

/// The paths held for a point: none if the point has no entry.
pub open spec fn paths_at(m: Map<PointKey, Seq<Path>>, key: PointKey) -> Seq<Path> {
    if m.contains_key(key) {
        m[key]
    } else {
        Seq::empty()
    }
}

/// A table with one more path.
pub open spec fn with_path(m: Map<PointKey, Seq<Path>>, key: PointKey, path: Path) -> Map<
    PointKey,
    Seq<Path>,
> {
    m.insert(key, paths_at(m, key).push(path))
}

/// `hashbrown::HashMap::with_capacity_and_hasher` with a fresh `ahash::RandomState`: an empty
/// table. It takes the power of two above eight sevenths of the capacity in buckets of at most 57
/// bytes, and panics if their size in bytes overflows.
#[verifier::external_body]
pub(crate) fn dp_map_with_capacity(capacity: usize) -> (m: DpMap)
    requires
        140 * capacity <= isize::MAX,
    ensures
        dp_contents(m) == no_paths(),
{
    DpMap {
        inner: hashbrown::HashMap::with_capacity_and_hasher(capacity, ahash::RandomState::new()),
    }
}

/// `hashbrown::HashMap::clear`: nothing is left.
#[verifier::external_body]
pub(crate) fn dp_map_clear(m: &mut DpMap)
    ensures
        dp_contents(*final(m)) == no_paths(),
{
    m.inner.clear();
}

/// `hashbrown::HashMap::get`: the entry for the key, if there is one.
#[verifier::external_body]
pub(crate) fn dp_map_get<'a>(m: &'a DpMap, key: &(u64, u64, u64, u64)) -> (r: Option<
    &'a Vec<(i8, [u64; 4])>,
>)
    ensures
        r is Some <==> dp_contents(*m).contains_key(*key),
        r is Some ==> r->0@ == dp_contents(*m)[*key],
{
    m.inner.get(key)
}

/// `hashbrown::HashMap::entry(..).or_default()`: the entry for the key, made empty if there was
/// none, open for changes.
#[verifier::external_body]
pub(crate) fn dp_map_entry<'a>(m: &'a mut DpMap, key: (u64, u64, u64, u64)) -> (r: &'a mut Vec<
    (i8, [u64; 4]),
>)
    ensures
        r@ == paths_at(dp_contents(*old(m)), key),
        dp_contents(*final(m)) == dp_contents(*old(m)).insert(key, final(r)@),
{
    m.inner.entry(key).or_default()
}

impl DpMap {
    /// An empty table with room for `capacity` points.
    pub fn with_capacity(capacity: usize) -> (m: DpMap)
        requires
            140 * capacity <= isize::MAX,
        ensures
            m@ == no_paths(),
    {
        dp_map_with_capacity(capacity)
    }

    /// Forgets everything.
    pub fn clear(&mut self)
        ensures
            final(self)@ == no_paths(),
    {
        dp_map_clear(self);
    }

    /// The paths that reached a point.
    pub fn get(&self, key: &PointKey) -> (r: Option<&Vec<Path>>)
        ensures
            r is Some <==> self@.contains_key(*key),
            r is Some ==> r->0@ == self@[*key],
    {
        dp_map_get(self, key)
    }

    /// Adds a path to a point.
    pub fn push(&mut self, key: PointKey, path: Path)
        ensures
            final(self)@ == with_path(old(self)@, key, path),
    {
        let paths = dp_map_entry(self, key);
        paths.push(path);
    }
}

/// Adding a path puts it behind those that the point has, and leaves the other points alone. An
/// empty table has no point.
pub proof fn law_path_is_added(
    m: Map<PointKey, Seq<Path>>,
    key: PointKey,
    path: Path,
    other: PointKey,
)
    ensures
        with_path(m, key, path).contains_key(key),
        m.contains_key(key) ==> with_path(m, key, path)[key] == m[key].push(path),
        !m.contains_key(key) ==> with_path(m, key, path)[key] == seq![path],
        other != key ==> (with_path(m, key, path).contains_key(other) <==> m.contains_key(other)),
        other != key && m.contains_key(other) ==> with_path(m, key, path)[other] == m[other],
        !no_paths().contains_key(key),
{
    if !m.contains_key(key) {
        assert(with_path(m, key, path)[key] =~= seq![path]);
    }
}

} // verus!
