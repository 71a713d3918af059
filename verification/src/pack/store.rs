use elsa::sync::FrozenMap;
use parking_lot::RwLock;
use vstd::prelude::*;

verus! {

/// The append-only concurrent map of the `elsa` crate. Verus sees nothing
/// inside it; what it holds is named by `buffers_of` and `removed_of`.
#[verifier::external_type_specification]
#[verifier::external_body]
#[verifier::reject_recursive_types(K)]
#[verifier::reject_recursive_types(V)]
pub struct ExFrozenMap<K, V>(elsa::sync::FrozenMap<K, V>);

/// The reader-writer lock of `lock_api`, which `parking_lot` instantiates.
#[verifier::external_type_specification]
#[verifier::external_body]
#[verifier::reject_recursive_types(R)]
#[verifier::reject_recursive_types(T)]
pub struct ExRwLock<R, T: ?Sized>(parking_lot::lock_api::RwLock<R, T>);

/// The raw lock of `parking_lot` behind its `RwLock`.
#[verifier::external_type_specification]
#[verifier::external_body]
pub struct ExRawRwLock(parking_lot::RawRwLock);

/// Identity of a buffer: the virtual offset and the length it was stored under.
pub type SliceKey = (u64, u64);

/// What a buffer map holds, as mathematics.
pub type Buffers = Map<(u64, u64), Seq<u8>>;

/// The buffer map: every buffer sits behind its own lock, at an address that
/// later insertions do not move.
pub type BufferMap = FrozenMap<(u64, u64), Box<RwLock<Vec<u8>>>>;

/// The set of names scheduled for removal.
pub type RemovalMap = FrozenMap<String, Box<()>>;

/// The bytes of every buffer in the map, by key.
pub uninterp spec fn buffers_of(m: BufferMap) -> Buffers;

/// The names in the removal map.
pub uninterp spec fn removed_of(m: RemovalMap) -> Set<Seq<char>>;

/// `FrozenMap::new`: the map starts without entries.
#[verifier::external_body]
pub(crate) fn buffers_new() -> (m: BufferMap)
    ensures
        buffers_of(m) == Buffers::empty(),
{
    FrozenMap::new()
}

/// `FrozenMap::insert`, with the bytes boxed behind a fresh `RwLock`: a key
/// that is absent gets the bytes; of a key that is present the existing
/// buffer stays, as `elsa` never overwrites.
#[verifier::external_body]
pub(crate) fn buffers_insert(m: &mut BufferMap, key: SliceKey, bytes: Vec<u8>)
    ensures
        buffers_of(*final(m)) == if buffers_of(*old(m)).contains_key(key) {
            buffers_of(*old(m))
        } else {
            buffers_of(*old(m)).insert(key, bytes@)
        },
{
    m.insert(key, Box::new(RwLock::new(bytes)));
}

/// `FrozenMap::get`, then a copy of the bytes taken under the read lock
/// (`RwLock::read`): `None` exactly for a key that is absent.
#[verifier::external_body]
pub(crate) fn buffers_fetch(m: &BufferMap, key: SliceKey) -> (r: Option<Vec<u8>>)
    ensures
        r is Some <==> buffers_of(*m).contains_key(key),
        r matches Some(v) ==> v@ == buffers_of(*m)[key],
{
    m.get(&key).map(|l| l.read().clone())
}

/// `FrozenMap::get`, then the bytes replaced under the write lock
/// (`RwLock::write`): the buffer of `key` holds `bytes`, every other buffer
/// is as before.
#[verifier::external_body]
pub(crate) fn buffers_store(m: &mut BufferMap, key: SliceKey, bytes: Vec<u8>)
    requires
        buffers_of(*old(m)).contains_key(key),
    ensures
        buffers_of(*final(m)) == buffers_of(*old(m)).insert(key, bytes@),
{
    *m.get(&key).unwrap().write() = bytes;
}

/// `FrozenMap::new`: the removal map starts without names.
#[verifier::external_body]
pub(crate) fn removals_new() -> (m: RemovalMap)
    ensures
        removed_of(m) == Set::<Seq<char>>::empty(),
{
    FrozenMap::new()
}

/// `FrozenMap::insert` with a unit value: the name is in the map afterwards,
/// and so is every name that was.
#[verifier::external_body]
pub(crate) fn removals_insert(m: &mut RemovalMap, name: String)
    ensures
        removed_of(*final(m)) == removed_of(*old(m)).insert(name@),
{
    m.insert(name, Box::new(()));
}

/// `FrozenMap::get`: tells whether the name is in the map.
#[verifier::external_body]
pub(crate) fn removals_contains(m: &RemovalMap, name: &str) -> (b: bool)
    ensures
        b == removed_of(*m).contains(name@),
{
    m.get(name).is_some()
}

} // verus!
