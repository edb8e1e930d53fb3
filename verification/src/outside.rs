//! The trusted boundary: every call into an outside crate stands here, as a
//! wrapper whose contract Verus believes and the wrapped crate's source
//! backs.
use crate::model::rm_add;
use crate::model::rm_new;
use crate::model::RecordModel;
use crate::record::Record;
use std::hash::Hasher;
use vstd::prelude::*;

verus! {

/// Index of the first occurrence of `needle` in `hay`, if any.
///
/// Relies on `memchr::memchr`: it returns the index of the first byte equal
/// to the needle, or `None` when no byte matches.
#[verifier::external_body]
pub(crate) fn find_first(needle: u8, hay: &[u8]) -> (r: Option<usize>)
    ensures
        match r {
            Some(i) => i < hay@.len() && hay@[i as int] == needle && forall|j: int|
                0 <= j < i ==> hay@[j] != needle,
            None => forall|j: int| 0 <= j < hay@.len() ==> hay@[j] != needle,
        },
{
    memchr::memchr(needle, hay)
}

/// The 64-bit fingerprint of a key's bytes, followed by a fixed
/// domain-separation suffix byte. The hash is left unstated: it is a
/// deterministic function of the bytes alone, and nothing else is relied on.
pub uninterp spec fn fingerprint_of(key: Seq<u8>) -> u64;

/// Relies on `rustc_hash::FxHasher` (via `std::hash::Hasher`): an unseeded
/// polynomial hash whose result depends on the written bytes alone, so equal
/// keys always fingerprint alike within a run.
#[verifier::external_body]
pub(crate) fn fingerprint(key: &[u8]) -> (r: u64)
    ensures
        r == fingerprint_of(key@),
{
    let mut hasher = rustc_hash::FxHasher::default();
    hasher.write(key);
    hasher.write_u8(0xff);
    hasher.finish()
}

/// A per-worker open-addressed table from key fingerprints to running
/// aggregates. The table itself is an outside collection, so it is held
/// opaque and spoken of only through `fp_entries`. The field is private and
/// every value is built by `new_table` and grown by `table_upsert` alone,
/// which look an entry up by its fingerprint before inserting, so the table
/// never holds two entries with one fingerprint.
#[verifier::external_body]
pub struct PartialTable {
    inner: hashbrown::HashTable<(u64, Record)>,
}

/// What a partial table holds: its aggregates, keyed by fingerprint. Every
/// entry is put in and found again by its fingerprint alone, so the contents
/// form a map.
pub uninterp spec fn fp_entries(t: PartialTable) -> Map<u64, RecordModel>;

/// Relies on `hashbrown::HashTable::with_capacity`: a fresh table holds no
/// entries.
#[verifier::external_body]
pub(crate) fn new_table() -> (r: PartialTable)
    ensures
        fp_entries(r) == crate::model::empty_fp_map(),
{
    PartialTable { inner: hashbrown::HashTable::with_capacity(1024) }
}

/// Relies on `hashbrown::HashTable::entry` with an equality predicate and a
/// rehash function that both read the stored fingerprint alone: the lookup
/// finds exactly the entry whose fingerprint equals `fp`, whatever the key
/// text, and growth keeps every entry. `Entry::and_modify` extends a found
/// aggregate through the library's own `Record::add`;
/// `Entry::or_insert_with` inserts a fresh `Record::new` aggregate.
#[verifier::external_body]
pub(crate) fn table_upsert(t: &mut PartialTable, fp: u64, city: Vec<u8>, value: i64)
    requires
        -999 <= value <= 999,
        fp_entries(*old(t)).dom().contains(fp) ==> {
            &&& crate::model::rm_wf(fp_entries(*old(t))[fp])
            &&& fp_entries(*old(t))[fp].count < 0xffff_ffff_ffff_ffff
        },
    ensures
        fp_entries(*final(t)) == if fp_entries(*old(t)).dom().contains(fp) {
            fp_entries(*old(t)).insert(fp, rm_add(fp_entries(*old(t))[fp], value as int))
        } else {
            fp_entries(*old(t)).insert(fp, rm_new(city@, value as int))
        },
{
    t.inner.entry(fp, |e| fp_match(e, fp), |e| e.0).and_modify(|e| e.1.add(value)).or_insert_with(
        || (fp, Record::new(value, city)),
    );
}

/// Relies on `hashbrown::HashTable`'s `IntoIterator`: it yields every entry
/// of the table exactly once, in no stated order. The entries' fingerprints
/// are distinct because `table_upsert` never stores one twice.
#[verifier::external_body]
pub(crate) fn table_entries(t: PartialTable) -> (r: Vec<(u64, Record)>)
    ensures
        forall|i: int|
            0 <= i < r@.len() ==> fp_entries(t).contains_pair(
                (#[trigger] r@[i]).0,
                r@[i].1@,
            ),
        forall|i: int, j: int| 0 <= i < j < r@.len() ==> r@[i].0 != r@[j].0,
        forall|fp: u64|
            fp_entries(t).dom().contains(fp) ==> exists|i: int|
                0 <= i < r@.len() && (#[trigger] r@[i]).0 == fp,
{
    t.inner.into_iter().collect()
}

/// Whether a stored entry carries the queried fingerprint.
pub(crate) fn fp_match(e: &(u64, Record), fp: u64) -> (r: bool)
    ensures
        r <==> e.0 == fp,
{
    e.0 == fp
}

} // verus!
