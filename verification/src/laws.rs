//! The library-wide laws, each stated over the model and proved once.
use crate::model::{
    avg_of, canon, is_canonical, keyed_merge, keyed_wf, lemma_canonical_unique, output_of,
    render_fixed, render_stats, rm_merge, rm_new, scan_of, sorted_strict, stripped, RecordModel,
    NL,
};
use vstd::arithmetic::div_mod::lemma_fundamental_div_mod_converse;
use vstd::prelude::*;

verus! {

/// Round-trip formatting: an aggregate holding a single value renders its
/// triple as `v/v/v` — the mean of one value is that value.
pub proof fn lemma_single_value_round_trip(key: Seq<u8>, v: int)
    requires
        -999 <= v <= 999,
    ensures
        avg_of(rm_new(key, v)) == v,
        render_stats(rm_new(key, v)) == render_fixed(v) + seq![47u8] + render_fixed(v)
            + seq![47u8] + render_fixed(v),
{
    if v >= 0 {
        lemma_fundamental_div_mod_converse(2 * v + 1, 2, v, 1);
    } else {
        lemma_fundamental_div_mod_converse(2 * (-v) + 1, 2, -v, 1);
    }
}

/// Merging final tables is commutative: the two orders give the same key
/// set and the same statistics for every key.
pub proof fn lemma_keyed_merge_comm(a: Map<Seq<u8>, RecordModel>, b: Map<Seq<u8>, RecordModel>)
    requires
        keyed_wf(a),
        keyed_wf(b),
    ensures
        keyed_merge(a, b) == keyed_merge(b, a),
{
    let ab = keyed_merge(a, b);
    let ba = keyed_merge(b, a);
    assert forall|k: Seq<u8>| ab.dom().contains(k) implies #[trigger] ab[k] == ba[k] by {
        if a.dom().contains(k) && b.dom().contains(k) {
            assert(a[k].key == k && b[k].key == k);
        }
    }
    assert(ab =~= ba);
}

/// Merging final tables is associative.
pub proof fn lemma_keyed_merge_assoc(
    a: Map<Seq<u8>, RecordModel>,
    b: Map<Seq<u8>, RecordModel>,
    c: Map<Seq<u8>, RecordModel>,
)
    ensures
        keyed_merge(keyed_merge(a, b), c) == keyed_merge(a, keyed_merge(b, c)),
{
    let l = keyed_merge(keyed_merge(a, b), c);
    let r = keyed_merge(a, keyed_merge(b, c));
    assert forall|k: Seq<u8>| l.dom().contains(k) implies #[trigger] l[k] == r[k] by {
    }
    assert(l =~= r);
}

/// A merge of well-formed final tables is well formed again, so merges of
/// any shape stay within the laws above.
pub proof fn lemma_keyed_merge_wf(a: Map<Seq<u8>, RecordModel>, b: Map<Seq<u8>, RecordModel>)
    requires
        keyed_wf(a),
        keyed_wf(b),
    ensures
        keyed_wf(keyed_merge(a, b)),
{
}

/// Output ordering: the listing the library renders for a final table is
/// its one strictly byte-lexicographically sorted listing, whatever order
/// the table was filled in.
pub proof fn lemma_output_ordered(w: Seq<RecordModel>, m: Map<Seq<u8>, RecordModel>)
    requires
        is_canonical(w, m),
    ensures
        canon(m) == w,
        sorted_strict(canon(m)),
{
    assert(is_canonical(canon(m), m));
    lemma_canonical_unique(w, canon(m), m);
}

/// A trailing line feed is immaterial: an input without one aggregates and
/// renders exactly as the same input with one appended.
pub proof fn lemma_trailing_newline(s: Seq<u8>)
    requires
        s.len() == 0 || s.last() != NL,
    ensures
        scan_of(s.push(NL)) == scan_of(s),
        output_of(s.push(NL)) == output_of(s),
{
    assert(stripped(s.push(NL)) =~= s);
    assert(stripped(s) =~= s);
}

} // verus!
