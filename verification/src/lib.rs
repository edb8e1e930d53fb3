//! Per-key minimum / mean / maximum over a delimited text buffer of
//! `<key>;<fixed-point-decimal>` records, with exact scaled-integer
//! arithmetic and a deterministic, byte-lexicographically ordered summary.
pub mod chunked;
pub mod decode;
pub mod laws;
pub mod merge;
pub mod model;
pub mod outside;
pub mod record;
pub mod rows;
pub mod split;
pub mod table;

use crate::merge::{build_final, entries_facts, render_final};
use crate::model::{
    canon, is_canonical, lemma_canonical_unique, lines_of, output_of, rm_wf, scan_err, scan_of,
    stripped, to_keyed, AggError, NL,
};
use crate::outside::{fp_entries, table_entries};
use crate::record::rec_views;
use crate::table::scan_chunk;
use vstd::prelude::*;
use vstd::slice::{slice_index_get, slice_subrange};

verus! {

/// Aggregate a whole input buffer into its rendered summary: at most one
/// trailing line feed is stripped, every record is scanned into a
/// fingerprint-keyed table, and the table is listed in strict
/// byte-lexicographic key order. The first malformed record aborts the run
/// with its error.
pub fn parse_from_str(input: &[u8]) -> (r: Result<Vec<u8>, AggError>)
    ensures
        match r {
            Ok(out) => scan_of(input@) is Ok && out@ == output_of(input@),
            Err(e) => scan_of(input@) == scan_err(e),
        },
{
    let ilen = input.len();
    let data: &[u8] = if ilen > 0 && *slice_index_get(input, ilen - 1) == NL {
        slice_subrange(input, 0, ilen - 1)
    } else {
        slice_subrange(input, 0, ilen)
    };
    proof {
        assert(data@ =~= stripped(input@));
    }
    let table = match scan_chunk(data) {
        Err(e) => {
            return Err(e);
        },
        Ok(t) => t,
    };
    let ghost m = fp_entries(table);
    proof {
        crate::model::lemma_scan_wf_ok(lines_of(data@), m);
    }
    let entries = table_entries(table);
    proof {
        assert(entries_facts(entries@, m)) by {
            reveal(entries_facts);
            assert(forall|i: int|
                0 <= i < entries@.len() ==> m.contains_pair(
                    (#[trigger] entries@[i]).0,
                    entries@[i].1@,
                ));
            assert(forall|i: int, j: int|
                0 <= i < j < entries@.len() ==> (#[trigger] entries@[i]).0 != (
                #[trigger] entries@[j]).0);
            assert(forall|fp: u64|
                m.dom().contains(fp) ==> exists|i: int|
                    0 <= i < entries@.len() && (#[trigger] entries@[i]).0 == fp);
            assert(forall|fp: u64|
                m.dom().contains(fp) ==> rm_wf(#[trigger] m[fp])
                    && crate::outside::fingerprint_of(m[fp].key) == fp);
        }
    }
    let merged = build_final(entries, Ghost(m));
    proof {
        assert(is_canonical(canon(to_keyed(m)), to_keyed(m))) by {
            assert(is_canonical(rec_views(merged@), to_keyed(m)));
        }
        lemma_canonical_unique(rec_views(merged@), canon(to_keyed(m)), to_keyed(m));
    }
    let out = render_final(&merged);
    Ok(out)
}

} // verus!
