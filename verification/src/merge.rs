//! The final table: a vector of aggregates kept in strict byte-lexicographic
//! key order, and its rendering.
use crate::model::{
    entries_prefix, is_canonical, lemma_lex_irrefl, lemma_lex_trans, lemma_prefix_eq_index,
    lex_lt, lex_lt_at, render_all, rm_merge, rm_wf, sorted_strict, to_keyed, RecordModel,
};
use crate::record::{push_bytes, rec_views, Record};
use vstd::prelude::*;
use vstd::slice::slice_index_get;

verus! {

/// Three-way byte-lexicographic comparison.
pub fn lex_cmp(a: &[u8], b: &[u8]) -> (r: i8)
    ensures
        r == -1i8 ==> lex_lt(a@, b@),
        r == 0i8 ==> a@ == b@,
        r == 1i8 ==> lex_lt(b@, a@),
        r == -1i8 || r == 0i8 || r == 1i8,
{
    let alen = a.len();
    let blen = b.len();
    let mut i: usize = 0;
    loop
        invariant
            alen == a@.len(),
            blen == b@.len(),
            i <= alen,
            i <= blen,
            a@.subrange(0, i as int) == b@.subrange(0, i as int),
        decreases alen - i,
    {
        if i == alen && i == blen {
            proof {
                lemma_prefix_eq_index(a@, b@, i as int);
                assert(a@ =~= b@);
            }
            return 0;
        }
        if i == alen {
            proof {
                assert(lex_lt_at(a@, b@, i as int));
            }
            return -1;
        }
        if i == blen {
            proof {
                assert(lex_lt_at(b@, a@, i as int));
            }
            return 1;
        }
        let x = *slice_index_get(a, i);
        let y = *slice_index_get(b, i);
        if x < y {
            proof {
                assert(lex_lt_at(a@, b@, i as int));
            }
            return -1;
        }
        if y < x {
            proof {
                assert(lex_lt_at(b@, a@, i as int));
            }
            return 1;
        }
        i = i + 1;
        proof {
            lemma_prefix_eq_index(a@, b@, i - 1);
            assert(a@.subrange(0, i as int) =~= b@.subrange(0, i as int));
        }
    }
}

/// Fold one aggregate into the sorted final table: extend the entry whose
/// key equals the incoming one, or insert a fresh entry at its ordered
/// position, keeping the order strict.
pub fn merge_entry(f: &mut Vec<Record>, rec: Record)
    requires
        sorted_strict(rec_views(old(f)@)),
        rm_wf(rec@),
        forall|i: int| 0 <= i < old(f)@.len() ==> rm_wf(#[trigger] rec_views(old(f)@)[i]),
        forall|i: int|
            0 <= i < old(f)@.len() && (#[trigger] rec_views(old(f)@)[i]).key == rec@.key
                ==> rec_views(old(f)@)[i].count + rec@.count <= 0xffff_ffff_ffff_ffff,
    ensures
        sorted_strict(rec_views(final(f)@)),
        forall|i: int| 0 <= i < final(f)@.len() ==> rm_wf(#[trigger] rec_views(final(f)@)[i]),
        (forall|i: int|
            0 <= i < old(f)@.len() ==> (#[trigger] rec_views(old(f)@)[i]).key != rec@.key)
            ==> exists|p: int|
            0 <= p <= old(f)@.len() && rec_views(final(f)@) == rec_views(old(f)@).insert(p, rec@),
        (exists|i: int|
            0 <= i < old(f)@.len() && (#[trigger] rec_views(old(f)@)[i]).key == rec@.key)
            ==> exists|i: int|
            0 <= i < old(f)@.len() && (#[trigger] rec_views(old(f)@)[i]).key == rec@.key
                && rec_views(final(f)@) == rec_views(old(f)@).update(
                i,
                rm_merge(rec_views(old(f)@)[i], rec@),
            ),
{
    let flen = f.len();
    let mut idx: usize = 0;
    let mut hit: i8 = -1;
    loop
        invariant_except_break
            flen == f@.len(),
            *f == *old(f),
            idx <= flen,
            forall|j: int| 0 <= j < idx ==> lex_lt((#[trigger] rec_views(f@)[j]).key, rec@.key),
        ensures
            flen == f@.len(),
            *f == *old(f),
            idx <= flen,
            forall|j: int| 0 <= j < idx ==> lex_lt((#[trigger] rec_views(f@)[j]).key, rec@.key),
            idx == flen || (hit == 0i8 && rec_views(f@)[idx as int].key == rec@.key) || (hit == 1i8
                && lex_lt(rec@.key, rec_views(f@)[idx as int].key)),
        decreases flen - idx,
    {
        if idx == flen {
            break ;
        }
        let c = lex_cmp(f[idx].city.as_slice(), rec.city.as_slice());
        if c == -1 {
            idx = idx + 1;
        } else {
            hit = c;
            break ;
        }
    }
    let ghost f0 = rec_views(f@);
    if idx < flen && hit == 0 {
        proof {
            assert(f0[idx as int].key == rec@.key);
        }
        f[idx].merge(rec);
        proof {
            let f1 = rec_views(f@);
            assert(f1 =~= f0.update(idx as int, rm_merge(f0[idx as int], rec@)));
            assert(forall|i: int| 0 <= i < f1.len() ==> (#[trigger] f1[i]).key == f0[i].key);
            assert forall|i: int, j: int| 0 <= i < j < f1.len() implies lex_lt(
                (#[trigger] f1[i]).key,
                (#[trigger] f1[j]).key,
            ) by {
                assert(lex_lt(f0[i].key, f0[j].key));
            }
        }
    } else {
        proof {
            assert forall|i: int| 0 <= i < f0.len() implies (#[trigger] f0[i]).key != rec@.key by {
                if f0[i].key == rec@.key {
                    if i < idx {
                        assert(lex_lt(f0[i].key, rec@.key));
                        lemma_lex_irrefl(rec@.key);
                    } else {
                        assert(idx < flen);
                        assert(lex_lt(rec@.key, f0[idx as int].key));
                        if i == idx {
                            lemma_lex_irrefl(rec@.key);
                        } else {
                            assert(lex_lt(f0[idx as int].key, f0[i].key));
                            lemma_lex_trans(rec@.key, f0[idx as int].key, f0[i].key);
                            lemma_lex_irrefl(rec@.key);
                        }
                    }
                }
            }
        }
        f.insert(idx, rec);
        proof {
            let f1 = rec_views(f@);
            assert(f1 =~= f0.insert(idx as int, rec@));
            assert(forall|i: int| 0 <= i < idx ==> #[trigger] f1[i] == f0[i]);
            assert(f1[idx as int] == rec@);
            assert(forall|i: int| idx < i < f1.len() ==> #[trigger] f1[i] == f0[i - 1]);
            assert forall|i: int, j: int| 0 <= i < j < f1.len() implies lex_lt(
                (#[trigger] f1[i]).key,
                (#[trigger] f1[j]).key,
            ) by {
                if i < idx && j == idx {
                    assert(lex_lt(f0[i].key, rec@.key));
                } else if i == idx && j > idx {
                    assert(lex_lt(rec@.key, f0[idx as int].key));
                    if j - 1 > idx {
                        assert(lex_lt(f0[idx as int].key, f0[j - 1].key));
                        lemma_lex_trans(rec@.key, f0[idx as int].key, f0[j - 1].key);
                    }
                } else if i < idx && j > idx {
                    assert(lex_lt(f0[i].key, f0[j - 1].key)) by {
                        if i == j - 1 {
                            assert(i < idx && idx < j);
                        }
                    }
                } else if i > idx && j > idx {
                    assert(lex_lt(f0[i - 1].key, f0[j - 1].key));
                } else {
                    assert(i < idx && j < idx);
                    assert(lex_lt(f0[i].key, f0[j].key));
                }
            }
        }
    }
}

/// The aggregates of `merged` are exactly the drained entries from `lo`
/// on, value for value.
#[verifier::opaque]
pub(crate) open spec fn covered(merged: Seq<RecordModel>, es0: Seq<(u64, Record)>, lo: int) -> bool {
    &&& forall|p: int|
        #![trigger merged[p]]
        0 <= p < merged.len() ==> exists|jq: int|
            #![trigger es0[jq]]
            lo <= jq < es0.len() && merged[p] == es0[jq].1@
    &&& forall|jq: int|
        #![trigger es0[jq]]
        lo <= jq < es0.len() ==> exists|p: int|
            #![trigger merged[p]]
            0 <= p < merged.len() && merged[p] == es0[jq].1@
}

/// The facts the drained entries carry about their table.
#[verifier::opaque]
pub(crate) open spec fn entries_facts(es0: Seq<(u64, Record)>, m: Map<u64, RecordModel>) -> bool {
    &&& forall|i: int|
        0 <= i < es0.len() ==> m.contains_pair((#[trigger] es0[i]).0, es0[i].1@)
    &&& forall|i: int, j: int|
        0 <= i < j < es0.len() ==> (#[trigger] es0[i]).0 != (#[trigger] es0[j]).0
    &&& forall|fp: u64|
        m.dom().contains(fp) ==> exists|i: int| 0 <= i < es0.len() && (#[trigger] es0[i]).0 == fp
    &&& forall|fp: u64|
        m.dom().contains(fp) ==> rm_wf(#[trigger] m[fp]) && crate::outside::fingerprint_of(
            m[fp].key,
        ) == fp
}

/// The next drained entry's key is new to the final table: its fingerprint
/// differs from every entry already folded in, and keys determine
/// fingerprints.
proof fn lemma_fresh_key(
    f0: Seq<RecordModel>,
    es0: Seq<(u64, Record)>,
    m: Map<u64, RecordModel>,
    j: int,
)
    requires
        covered(f0, es0, j + 1),
        entries_facts(es0, m),
        0 <= j < es0.len(),
    ensures
        forall|p: int| #![trigger f0[p]] 0 <= p < f0.len() ==> f0[p].key != es0[j].1@.key,
{
    reveal(covered);
    reveal(entries_facts);
    assert forall|p: int| #![trigger f0[p]] 0 <= p < f0.len() implies f0[p].key != es0[j].1@.key by {
        if f0[p].key == es0[j].1@.key {
            let jq = choose|jq: int|
                #![trigger es0[jq]]
                j + 1 <= jq < es0.len() && f0[p] == es0[jq].1@;
            assert(m.contains_pair(es0[jq].0, es0[jq].1@));
            assert(m.contains_pair(es0[j].0, es0[j].1@));
            assert(es0[jq].0 != es0[j].0);
            assert(crate::outside::fingerprint_of(m[es0[jq].0].key) == es0[jq].0);
            assert(crate::outside::fingerprint_of(m[es0[j].0].key) == es0[j].0);
            assert(false);
        }
    }
}

/// Folding the next entry in keeps the tracking exact.
proof fn lemma_step_tracking(
    f0: Seq<RecordModel>,
    f1: Seq<RecordModel>,
    es0: Seq<(u64, Record)>,
    j: int,
    p0: int,
)
    requires
        covered(f0, es0, j + 1),
        0 <= j < es0.len(),
        0 <= p0 <= f0.len(),
        f1 == f0.insert(p0, es0[j].1@),
    ensures
        covered(f1, es0, j),
{
    reveal(covered);
    f0.insert_ensures(p0, es0[j].1@);
    assert forall|p: int| #![trigger f1[p]] 0 <= p < f1.len() implies exists|jq: int|
        #![trigger es0[jq]]
        j <= jq < es0.len() && f1[p] == es0[jq].1@ by {
        if p == p0 {
            assert(j <= j < es0.len() && f1[p0] == es0[j].1@);
        } else if p < p0 {
            let jq = choose|jq: int|
                #![trigger es0[jq]]
                j + 1 <= jq < es0.len() && f0[p] == es0[jq].1@;
            assert(j <= jq < es0.len() && f1[p] == es0[jq].1@);
        } else {
            let jq = choose|jq: int|
                #![trigger es0[jq]]
                j + 1 <= jq < es0.len() && f0[p - 1] == es0[jq].1@;
            assert(j <= jq < es0.len() && f1[p] == es0[jq].1@);
        }
    }
    assert forall|jq: int| #![trigger es0[jq]] j <= jq < es0.len() implies exists|p: int|
        #![trigger f1[p]]
        0 <= p < f1.len() && f1[p] == es0[jq].1@ by {
        if jq == j {
            assert(f1[p0] == es0[j].1@);
        } else {
            let p = choose|p: int| #![trigger f0[p]] 0 <= p < f0.len() && f0[p] == es0[jq].1@;
            if p < p0 {
                assert(f1[p] == es0[jq].1@);
            } else {
                assert(f1[p + 1] == es0[jq].1@);
            }
        }
    }
}

/// Each aggregate of the final table is an entry of the re-keyed table.
proof fn lemma_entry_pair(
    fv: Seq<RecordModel>,
    es0: Seq<(u64, Record)>,
    m: Map<u64, RecordModel>,
    p: int,
)
    requires
        covered(fv, es0, 0),
        entries_facts(es0, m),
        0 <= p < fv.len(),
    ensures
        to_keyed(m).contains_pair(fv[p].key, fv[p]),
{
    reveal(covered);
    reveal(entries_facts);
    let jq = choose|jq: int| #![trigger es0[jq]] 0 <= jq < es0.len() && fv[p] == es0[jq].1@;
    assert(m.contains_pair(es0[jq].0, es0[jq].1@));
    assert(crate::outside::fingerprint_of(m[es0[jq].0].key) == es0[jq].0);
}

/// Each key of the re-keyed table stands in the final table.
proof fn lemma_entry_complete(
    fv: Seq<RecordModel>,
    es0: Seq<(u64, Record)>,
    m: Map<u64, RecordModel>,
    key: Seq<u8>,
)
    requires
        covered(fv, es0, 0),
        entries_facts(es0, m),
        to_keyed(m).dom().contains(key),
    ensures
        exists|p: int| 0 <= p < fv.len() && (#[trigger] fv[p]).key == key,
{
    reveal(covered);
    reveal(entries_facts);
    let fp = crate::outside::fingerprint_of(key);
    assert(m.dom().contains(fp) && m[fp].key == key);
    let jq = choose|jq: int| #![trigger es0[jq]] 0 <= jq < es0.len() && es0[jq].0 == fp;
    assert(m.contains_pair(es0[jq].0, es0[jq].1@));
    assert(es0[jq].1@ == m[fp]);
    let p = choose|p: int| #![trigger fv[p]] 0 <= p < fv.len() && fv[p] == es0[jq].1@;
    assert(fv[p].key == key);
}

/// A sorted table that lists exactly the drained entries is the canonical
/// listing of the table re-keyed by key text.
proof fn lemma_tracking_canonical(
    fv: Seq<RecordModel>,
    es0: Seq<(u64, Record)>,
    m: Map<u64, RecordModel>,
)
    requires
        covered(fv, es0, 0),
        entries_facts(es0, m),
        sorted_strict(fv),
    ensures
        is_canonical(fv, to_keyed(m)),
{
    let km = to_keyed(m);
    assert forall|p: int| 0 <= p < fv.len() implies km.contains_pair(
        (#[trigger] fv[p]).key,
        fv[p],
    ) by {
        lemma_entry_pair(fv, es0, m, p);
    }
    assert forall|key: Seq<u8>| km.dom().contains(key) implies exists|p: int|
        0 <= p < fv.len() && (#[trigger] fv[p]).key == key by {
        lemma_entry_complete(fv, es0, m, key);
    }
}

/// Build the final sorted table from the drained entries of one partial
/// table whose fingerprints are all distinct: the result lists exactly the
/// aggregates of the table, re-keyed by their key texts, in strict
/// byte-lexicographic order.
#[verifier::rlimit(60)]
pub(crate) fn build_final(entries: Vec<(u64, Record)>, Ghost(m): Ghost<Map<u64, RecordModel>>) -> (r:
    Vec<Record>)
    requires
        entries_facts(entries@, m),
    ensures
        is_canonical(rec_views(r@), to_keyed(m)),
        forall|p: int| 0 <= p < r@.len() ==> rm_wf(#[trigger] rec_views(r@)[p]),
{
    let ghost es0 = entries@;
    let mut entries = entries;
    let mut merged: Vec<Record> = Vec::new();
    let mut k = entries.len();
    proof {
        reveal(covered);
        assert(entries@ =~= es0.subrange(0, entries@.len() as int));
        assert(covered(rec_views(merged@), es0, entries@.len() as int));
    }
    while k != 0
        invariant
            k == entries@.len(),
            entries@.len() <= es0.len(),
            entries@ == es0.subrange(0, entries@.len() as int),
            entries_facts(es0, m),
            sorted_strict(rec_views(merged@)),
            forall|p: int| 0 <= p < merged@.len() ==> rm_wf(#[trigger] rec_views(merged@)[p]),
            covered(rec_views(merged@), es0, entries@.len() as int),
        decreases k,
    {
        let ghost pre = entries@;
        let e = match entries.pop() {
            None => { vstd::pervasive::unreached() },
            Some(e) => e,
        };
        k = k - 1;
        let ghost j = entries@.len() as int;
        let ghost f0 = rec_views(merged@);
        proof {
            assert(pre == es0.subrange(0, j + 1));
            assert(e == pre[j]);
            assert(e == es0.subrange(0, j + 1)[j]);
            assert(e == es0[j]);
            assert forall|i: int| 0 <= i < j implies entries@[i] == es0[i] by {
                assert(entries@[i] == pre.subrange(0, j)[i]);
                assert(pre[i] == es0.subrange(0, j + 1)[i]);
            }
            assert(entries@ =~= es0.subrange(0, entries@.len() as int));
            assert(m.contains_pair(es0[j].0, es0[j].1@) && rm_wf(m[es0[j].0])) by {
                reveal(entries_facts);
            }
            assert(rm_wf(e.1@));
            lemma_fresh_key(f0, es0, m, j);
        }
        merge_entry(&mut merged, e.1);
        proof {
            let f1 = rec_views(merged@);
            assert(forall|i: int| 0 <= i < f0.len() ==> (#[trigger] f0[i]).key != es0[j].1@.key);
            let p0 = choose|p0: int| 0 <= p0 <= f0.len() && f1 == f0.insert(p0, e.1@);
            lemma_step_tracking(f0, f1, es0, j, p0);
        }
    }
    proof {
        assert(covered(rec_views(merged@), es0, 0));
        lemma_tracking_canonical(rec_views(merged@), es0, m);
    }
    merged
}

/// Render the final sorted table as `{key=min/avg/max, ...}` with a
/// trailing line feed.
pub fn render_final(f: &Vec<Record>) -> (out: Vec<u8>)
    requires
        forall|i: int| 0 <= i < f@.len() ==> rm_wf(#[trigger] rec_views(f@)[i]),
    ensures
        out@ == render_all(rec_views(f@)),
{
    let mut out: Vec<u8> = Vec::new();
    out.push(123);
    let flen = f.len();
    let mut idx: usize = 0;
    proof {
        assert(out@ =~= seq![123u8] + entries_prefix(rec_views(f@), 0));
    }
    while idx < flen
        invariant
            flen == f@.len(),
            idx <= flen,
            forall|i: int| 0 <= i < f@.len() ==> rm_wf(#[trigger] rec_views(f@)[i]),
            out@ == seq![123u8] + entries_prefix(rec_views(f@), idx as int),
        decreases flen - idx,
    {
        push_bytes(&mut out, f[idx].city.as_slice());
        out.push(61);
        proof {
            assert(rm_wf(rec_views(f@)[idx as int]));
        }
        f[idx].write(&mut out);
        if idx + 1 != flen {
            out.push(44);
            out.push(32);
        }
        idx = idx + 1;
        proof {
            assert(out@ =~= seq![123u8] + entries_prefix(rec_views(f@), idx as int));
        }
    }
    out.push(125);
    out.push(10);
    proof {
        assert(out@ =~= render_all(rec_views(f@)));
    }
    out
}

} // verus!
