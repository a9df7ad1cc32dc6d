//! The n-gram map of a shard: a finite-state transducer from an n-gram to
//! the packed address and length of its bucket in the posting file.

use vstd::prelude::*;
use vstd::string::*;
use crate::codec::{elegant_pair_inv, pair_inv};
use crate::hash::{hash64, jump_consistent_hash, jump_hash, key64};
use crate::posting::ID_SIZE;

verus! {

/// `fst::Map`, a map from byte strings to 64-bit values. It is opaque
/// here: what it holds is spoken of through `fst_entries`.
#[verifier::external_type_specification]
#[verifier::external_body]
pub struct ExFstMap(fst::Map);

/// `fst::Error`, carried from the call that gives it to the place where
/// it is told what went wrong.
#[verifier::external_type_specification]
#[verifier::external_body]
pub struct ExFstError(fst::Error);

/// The keys that a transducer map holds, each with its value.
pub uninterp spec fn fst_entries(map: fst::Map) -> Map<Seq<u8>, u64>;

/// The bytes of a map are a transducer as the builder of `fst` writes it.
/// `fst` opens any bytes with a fitting head and foot, and what it does on
/// bytes that are no transducer is not defined: a lookup may panic. So
/// every lookup here asks for a sound map. A map that `SoundMap::build`
/// made is sound; of a map opened from a file, who opens it has to vouch
/// for it.
pub uninterp spec fn fst_sound(map: fst::Map) -> bool;

/// One byte string comes before another in the order of the keys of a
/// map: at the first place where they differ it has the lesser byte, or
/// it ends there and the other goes on.
pub open spec fn bytes_before(a: Seq<u8>, b: Seq<u8>) -> bool
    decreases a.len(),
{
    if b.len() == 0 {
        false
    } else if a.len() == 0 {
        true
    } else if a[0] != b[0] {
        a[0] < b[0]
    } else {
        bytes_before(a.skip(1), b.skip(1))
    }
}

/// The keys of a list of items ascend: each comes before all that follow
/// it.
pub open spec fn keys_ascend(items: Seq<(Vec<u8>, u64)>) -> bool {
    forall|i: int, j: int|
        0 <= i < j < items.len() ==> bytes_before((#[trigger] items[i]).0@, (#[trigger] items[j]).0@)
}

/// The entries of a map are the items of a list: each item is an entry,
/// and each entry is among the items.
pub open spec fn holds_items(entries: Map<Seq<u8>, u64>, items: Seq<(Vec<u8>, u64)>) -> bool {
    &&& forall|i: int|
        0 <= i < items.len() ==> entries.contains_key((#[trigger] items[i]).0@)
            && entries[items[i].0@] == items[i].1
    &&& forall|key: Seq<u8>|
        entries.contains_key(key) ==> exists|i: int|
            0 <= i < items.len() && (#[trigger] items[i]).0@ == key
}

/// No byte string comes before itself.
pub proof fn lemma_bytes_before_irreflexive(a: Seq<u8>)
    ensures
        !bytes_before(a, a),
    decreases a.len(),
{
    if a.len() > 0 {
        lemma_bytes_before_irreflexive(a.skip(1));
    }
}

/// `fst::Map::from_iter`: the map that the builder of `fst` makes of keys
/// with their values. The builder takes the keys where each comes after
/// the one before it, and refuses them otherwise; it writes to memory,
/// where no write fails. The map is sound and holds the items and nothing
/// else.
#[verifier::external_body]
fn fst_from_iter(items: Vec<(Vec<u8>, u64)>) -> (r: Result<fst::Map, fst::Error>)
    ensures
        r is Ok <==> keys_ascend(items@),
        r matches Ok(map) ==> fst_sound(map) && holds_items(fst_entries(map), items@),
{
    fst::Map::from_iter(items)
}

/// `fst::Map::get` on a sound map: the value stored under `key`, or
/// `None` where the map does not hold the key.
#[verifier::external_body]
fn fst_get(map: &fst::Map, key: &[u8]) -> (value: Option<u64>)
    requires
        fst_sound(*map),
    ensures
        value is Some <==> fst_entries(*map).contains_key(key@),
        value matches Some(v) ==> v == fst_entries(*map)[key@],
{
    map.get(key)
}

/// Why a map cannot be built.
#[derive(Clone, Copy, Debug, PartialEq, Eq, Structural)]
pub enum MapError {
    /// A key does not come after the key before it.
    KeyOrder,
}

/// A map of `fst` that is sound. Every lookup of the library takes such a
/// map, so that none is made in bytes that are no transducer.
pub struct SoundMap {
    map: fst::Map,
}

impl SoundMap {
    #[verifier::type_invariant]
    spec fn is_sound(&self) -> bool {
        fst_sound(self.map)
    }

    /// The map of `fst` that this map is.
    pub closed spec fn inner(&self) -> fst::Map {
        self.map
    }

    /// The keys that the map holds, each with its value.
    pub closed spec fn entries(&self) -> Map<Seq<u8>, u64> {
        fst_entries(self.map)
    }

    /// Takes a map that the caller vouches for. A map that was opened
    /// from a file is sound where the file is as the builder of `fst`
    /// wrote it; nothing can test that, so who opens the file answers for
    /// it here.
    pub fn vouched_for(map: fst::Map) -> (r: SoundMap)
        requires
            fst_sound(map),
        ensures
            r.inner() == map,
    {
        SoundMap { map }
    }

    /// Builds the map of keys with their values. The keys have to ascend
    /// in the order of their bytes, none twice.
    pub fn build(items: Vec<(Vec<u8>, u64)>) -> (r: Result<SoundMap, MapError>)
        ensures
            r is Ok <==> keys_ascend(items@),
            r matches Ok(map) ==> holds_items(map.entries(), items@),
            r matches Err(e) ==> e == MapError::KeyOrder,
    {
        match fst_from_iter(items) {
            Ok(map) => Ok(SoundMap::vouched_for(map)),
            Err(_) => Err(MapError::KeyOrder),
        }
    }

    /// The map of `fst`, to write its bytes or to ask what the library
    /// does not.
    pub fn as_map(&self) -> (r: &fst::Map)
        ensures
            *r == self.inner(),
            fst_sound(*r),
    {
        proof {
            use_type_invariant(self);
        }
        &self.map
    }
}

/// The value that a transducer map gives to the bytes of `key`.
pub fn lookup(map: &SoundMap, key: &str) -> (value: Option<u64>)
    ensures
        value is Some <==> map.entries().contains_key(key.spec_bytes()),
        value matches Some(v) ==> v == map.entries()[key.spec_bytes()],
{
    proof {
        use_type_invariant(map);
    }
    fst_get(&map.map, key.as_bytes())
}

/// The bucket of an n-gram in a shard: the index of its first record in the
/// posting file and the number of its records, unpaired from the value that
/// the shard's map holds for the n-gram. `None` where the shard does not
/// know the n-gram.
pub fn get_addr_and_len(ngram: &str, map: &SoundMap) -> (r: Option<(u64, u64)>)
    ensures
        r is Some <==> map.entries().contains_key(ngram.spec_bytes()),
        r matches Some((addr, len)) ==> (addr as nat, len as nat) == pair_inv(
            map.entries()[ngram.spec_bytes()] as nat,
        ) && addr <= u32::MAX && len <= u32::MAX,
{
    match lookup(map, ngram) {
        Some(val) => Some(elegant_pair_inv(val)),
        None => None,
    }
}

/// The byte offset in the posting file of the record with index `addr`.
pub fn bucket_offset(addr: u64) -> (offset: Option<u64>)
    ensures
        offset is Some <==> addr * ID_SIZE <= u64::MAX,
        offset matches Some(o) ==> o == addr * ID_SIZE,
{
    addr.checked_mul(ID_SIZE as u64)
}

/// A bucket has what an index promises of each of its entries: between one
/// and `bucket_size` records, all of them inside a posting file of
/// `file_len` bytes.
pub open spec fn bucket_fits(addr: nat, len: nat, bucket_size: nat, file_len: nat) -> bool {
    1 <= len <= bucket_size && (addr + len) * ID_SIZE <= file_len
}

/// Whether a bucket lies within the bounds that an index promises.
pub fn bucket_in_bounds(addr: u64, len: u64, bucket_size: usize, file_len: u64) -> (ok: bool)
    ensures
        ok == bucket_fits(addr as nat, len as nat, bucket_size as nat, file_len as nat),
{
    if len < 1 || len > bucket_size as u64 {
        return false;
    }
    let records: u64 = file_len / (ID_SIZE as u64);
    assert((addr + len) * ID_SIZE <= file_len <==> addr + len <= records) by (nonlinear_arith)
        requires
            records == file_len / 7,
            ID_SIZE == 7,
    ;
    match addr.checked_add(len) {
        Some(end) => end <= records,
        None => false,
    }
}

/// `fst::Map::stream` on a sound map, gathered by `into_byte_vec`: every
/// key of the map with its value, in the ascending order of the keys.
/// Each entry of the map is among them, and each of them is an entry of
/// the map.
#[verifier::external_body]
fn fst_items(map: &fst::Map) -> (items: Vec<(Vec<u8>, u64)>)
    requires
        fst_sound(*map),
    ensures
        holds_items(fst_entries(*map), items@),
        keys_ascend(items@),
{
    map.stream().into_byte_vec()
}

/// An n-gram of a shard with its bucket.
#[derive(Clone, Debug, PartialEq, Eq)]
pub struct Entry {
    /// The bytes of the n-gram.
    pub ngram: Vec<u8>,
    /// The index of the first record of the bucket in the posting file.
    pub addr: u64,
    /// The number of records of the bucket.
    pub len: u64,
}

/// The n-grams that the map of a shard holds, each once, in the ascending
/// order of their bytes, and with the address and the length of its
/// bucket.
pub fn shard_entries(map: &SoundMap) -> (list: Vec<Entry>)
    ensures
        forall|i: int|
            0 <= i < list@.len() ==> map.entries().contains_key((#[trigger] list@[i]).ngram@)
                && (list@[i].addr as nat, list@[i].len as nat) == pair_inv(
                map.entries()[list@[i].ngram@] as nat,
            ),
        forall|key: Seq<u8>|
            map.entries().contains_key(key) ==> exists|i: int|
                0 <= i < list@.len() && (#[trigger] list@[i]).ngram@ == key,
        forall|i: int, j: int|
            0 <= i < j < list@.len() ==> bytes_before(
                (#[trigger] list@[i]).ngram@,
                (#[trigger] list@[j]).ngram@,
            ),
        forall|i: int, j: int|
            0 <= i < list@.len() && 0 <= j < list@.len() && i != j ==> (#[trigger] list@[i]).ngram@
                != (#[trigger] list@[j]).ngram@,
{
    proof {
        use_type_invariant(map);
    }
    let items: Vec<(Vec<u8>, u64)> = fst_items(&map.map);
    let n: usize = items.len();
    let mut list: Vec<Entry> = Vec::with_capacity(n);
    let mut i: usize = 0;
    while i < n
        invariant
            i <= n,
            n == items@.len(),
            list@.len() == i,
            forall|k: int|
                0 <= k < i ==> (#[trigger] list@[k]).ngram@ == items@[k].0@ && (
                    list@[k].addr as nat,
                    list@[k].len as nat,
                ) == pair_inv(items@[k].1 as nat),
        decreases n - i,
    {
        let ngram: Vec<u8> = vstd::slice::slice_to_vec(items[i].0.as_slice());
        let (addr, len) = elegant_pair_inv(items[i].1);
        list.push(Entry { ngram, addr, len });
        i = i + 1;
    }
    proof {
        assert forall|k: int| 0 <= k < list@.len() implies map.entries().contains_key(
            (#[trigger] list@[k]).ngram@,
        ) && (list@[k].addr as nat, list@[k].len as nat) == pair_inv(
            map.entries()[list@[k].ngram@] as nat,
        ) by {
            assert(map.entries().contains_key(items@[k].0@));
        }
        assert forall|key: Seq<u8>| map.entries().contains_key(key) implies exists|k: int|
            0 <= k < list@.len() && (#[trigger] list@[k]).ngram@ == key by {
            let k = choose|k: int| 0 <= k < items@.len() && (#[trigger] items@[k]).0@ == key;
            assert(list@[k].ngram@ == key);
        }
        assert forall|i: int, j: int| 0 <= i < j < list@.len() implies bytes_before(
            (#[trigger] list@[i]).ngram@,
            (#[trigger] list@[j]).ngram@,
        ) by {
            assert(bytes_before(items@[i].0@, items@[j].0@));
        }
        assert forall|i: int, j: int|
            0 <= i < list@.len() && 0 <= j < list@.len() && i != j implies (
        #[trigger] list@[i]).ngram@ != (#[trigger] list@[j]).ngram@ by {
            lemma_bytes_before_irreflexive(list@[i].ngram@);
            if i < j {
                assert(bytes_before(items@[i].0@, items@[j].0@));
            } else {
                assert(bytes_before(items@[j].0@, items@[i].0@));
            }
        }
    }
    list
}

/// What an index must not hold in the map of a shard.
#[derive(Clone, Copy, Debug, PartialEq, Eq, Structural)]
pub enum IndexFault {
    /// An n-gram whose hash names another shard.
    ForeignNgram,
    /// A bucket that is empty, too long, or not within the posting file.
    BucketBounds,
}

/// The n-gram of the bytes `key` belongs to `shard`: its hash names that
/// shard among the `nr_shards` shards of the index.
pub open spec fn owns(key: Seq<u8>, shard: u32, nr_shards: u32) -> bool {
    jump_hash(hash64(key), nr_shards) == shard
}

/// The bucket that the value `value` of a map stands for keeps the bounds
/// of a posting file of `file_len` bytes.
pub open spec fn value_fits(value: u64, bucket_size: nat, file_len: nat) -> bool {
    bucket_fits(pair_inv(value as nat).0, pair_inv(value as nat).1, bucket_size, file_len)
}

/// Checks what an index promises of the map of a shard: each n-gram in it
/// belongs to the shard, and each bucket has between one and `bucket_size`
/// records, all within the posting file. An n-gram of another shard is
/// told before a bucket out of bounds.
pub fn check_shard(
    map: &SoundMap,
    shard: u32,
    nr_shards: u32,
    bucket_size: usize,
    file_len: u64,
) -> (r: Result<(), IndexFault>)
    ensures
        r is Ok <==> forall|key: Seq<u8>| #[trigger]
            map.entries().contains_key(key) ==> owns(key, shard, nr_shards) && value_fits(
                map.entries()[key],
                bucket_size as nat,
                file_len as nat,
            ),
        r == Err::<(), IndexFault>(IndexFault::ForeignNgram) <==> exists|key: Seq<u8>| #[trigger]
            map.entries().contains_key(key) && !owns(key, shard, nr_shards),
{
    proof {
        use_type_invariant(map);
    }
    let items: Vec<(Vec<u8>, u64)> = fst_items(&map.map);
    let n: usize = items.len();
    let mut foreign: bool = false;
    let mut unbound: bool = false;
    let mut i: usize = 0;
    while i < n
        invariant
            i <= n,
            n == items@.len(),
            foreign <==> exists|k: int|
                0 <= k < i && !owns((#[trigger] items@[k]).0@, shard, nr_shards),
            unbound <==> exists|k: int|
                0 <= k < i && !value_fits(
                    (#[trigger] items@[k]).1,
                    bucket_size as nat,
                    file_len as nat,
                ),
        decreases n - i,
    {
        let key: &Vec<u8> = &items[i].0;
        let value: u64 = items[i].1;
        if jump_consistent_hash(key64(key.as_slice()), nr_shards) != shard {
            foreign = true;
        }
        let (addr, len) = elegant_pair_inv(value);
        if !bucket_in_bounds(addr, len, bucket_size, file_len) {
            unbound = true;
        }
        i = i + 1;
    }
    proof {
        let entries = map.entries();
        if foreign {
            let k = choose|k: int| 0 <= k < n && !owns((#[trigger] items@[k]).0@, shard, nr_shards);
            assert(entries.contains_key(items@[k].0@));
        } else {
            assert forall|key: Seq<u8>| #[trigger] entries.contains_key(key) implies owns(
                key,
                shard,
                nr_shards,
            ) by {
                let k = choose|k: int| 0 <= k < items@.len() && (#[trigger] items@[k]).0@ == key;
                assert(owns(items@[k].0@, shard, nr_shards));
            }
        }
        if unbound {
            let k = choose|k: int|
                0 <= k < n && !value_fits(
                    (#[trigger] items@[k]).1,
                    bucket_size as nat,
                    file_len as nat,
                );
            assert(entries.contains_key(items@[k].0@));
        } else {
            assert forall|key: Seq<u8>| #[trigger] entries.contains_key(key) implies value_fits(
                entries[key],
                bucket_size as nat,
                file_len as nat,
            ) by {
                let k = choose|k: int| 0 <= k < items@.len() && (#[trigger] items@[k]).0@ == key;
                assert(value_fits(items@[k].1, bucket_size as nat, file_len as nat));
            }
        }
    }
    if foreign {
        Err(IndexFault::ForeignNgram)
    } else if unbound {
        Err(IndexFault::BucketBounds)
    } else {
        Ok(())
    }
}

} // verus!
