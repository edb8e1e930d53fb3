//! Chunked aggregation agrees with whole-buffer aggregation: the lemmas
//! that make the split-scan-merge pipeline deterministic.
use crate::model::{
    agg_err, agg_lines, agg_ok, agg_upsert, find_byte, keyed_merge, keys_injective,
    lemma_find_byte, lemma_find_byte_is_first, lemma_lines_unfold, line_rest, lines_of,
    parse_line, scan_lines, scan_upsert, to_keyed, AggError, RecordModel, NL,
};
use crate::merge::entries_facts;
use crate::model::is_canonical;
use vstd::prelude::*;

verus! {

/// Splitting a buffer right after a line feed splits its record sequence.
pub proof fn lemma_lines_append(x: Seq<u8>, y: Seq<u8>)
    requires
        x.len() == 0 || x.last() == NL,
    ensures
        lines_of(x + y) == lines_of(x) + lines_of(y),
    decreases x.len(),
{
    if x.len() == 0 {
        assert(x + y =~= y);
        assert(lines_of(x) + lines_of(y) =~= lines_of(y));
    } else {
        let w = x + y;
        lemma_find_byte(x, NL);
        if find_byte(x, NL) is None {
            assert(x[x.len() - 1] != NL);
        }
        let i = find_byte(x, NL)->Some_0;
        assert(w[i] == x[i] && x[i] == NL);
        assert forall|j: int| 0 <= j < i implies w[j] != NL by {
            assert(w[j] == x[j]);
        }
        lemma_find_byte_is_first(w, NL, i);
        lemma_lines_unfold(w);
        lemma_lines_unfold(x);
        assert(crate::model::first_line(w) =~= crate::model::first_line(x));
        assert(line_rest(w) =~= line_rest(x) + y);
        if i == x.len() - 1 {
            assert(line_rest(x) =~= Seq::<u8>::empty());
            assert(line_rest(x) + y =~= y);
            assert(lines_of(x) =~= seq![crate::model::first_line(x)]);
            assert(lines_of(w) =~= lines_of(x) + lines_of(y));
        } else {
            assert(line_rest(x).len() > 0 && line_rest(x).last() == x.last());
            lemma_lines_append(line_rest(x), y);
            assert(lines_of(w) =~= lines_of(x) + lines_of(y));
        }
    }
}

/// One unfolding of `agg_lines` at the back.
pub proof fn lemma_agg_push(ps: Seq<Seq<u8>>, l: Seq<u8>)
    ensures
        agg_lines(ps + seq![l]) == match agg_lines(ps) {
            Err(e) => agg_err(e),
            Ok(m) => match parse_line(l) {
                Err(e) => agg_err(e),
                Ok(kv) => Ok(agg_upsert(m, kv.0, kv.1)),
            },
        },
{
    let w = ps + seq![l];
    assert(w.subrange(0, w.len() - 1) =~= ps);
    assert(w.last() == l);
}

/// An error in a prefix settles the whole keyed aggregation.
pub proof fn lemma_agg_prefix_err(ps: Seq<Seq<u8>>, qs: Seq<Seq<u8>>, e: AggError)
    requires
        agg_lines(ps) == agg_err(e),
    ensures
        agg_lines(ps + qs) == agg_err(e),
    decreases qs.len(),
{
    if qs.len() == 0 {
        assert(ps + qs =~= ps);
    } else {
        let qs0 = qs.subrange(0, qs.len() - 1);
        lemma_agg_prefix_err(ps, qs0, e);
        let w = ps + qs;
        assert(w.subrange(0, w.len() - 1) =~= ps + qs0);
    }
}

/// Upserting one record into the right operand of a keyed merge is the same
/// as upserting into the merge itself.
pub proof fn lemma_upsert_merge(
    a: Map<Seq<u8>, RecordModel>,
    b: Map<Seq<u8>, RecordModel>,
    k: Seq<u8>,
    v: int,
)
    ensures
        keyed_merge(a, agg_upsert(b, k, v)) == agg_upsert(keyed_merge(a, b), k, v),
{
    let l = keyed_merge(a, agg_upsert(b, k, v));
    let r = agg_upsert(keyed_merge(a, b), k, v);
    assert forall|q: Seq<u8>| l.dom().contains(q) implies #[trigger] l[q] == r[q] by {
    }
    assert(l =~= r);
}

/// Aggregating concatenated record sequences merges their tables; an error
/// on either side is the whole outcome, the earlier side first.
pub proof fn lemma_agg_append(ls1: Seq<Seq<u8>>, ls2: Seq<Seq<u8>>)
    ensures
        agg_lines(ls1) is Err ==> agg_lines(ls1 + ls2) == agg_lines(ls1),
        agg_lines(ls1) is Ok && agg_lines(ls2) is Err ==> agg_lines(ls1 + ls2) == agg_lines(ls2),
        agg_lines(ls1) is Ok && agg_lines(ls2) is Ok ==> agg_lines(ls1 + ls2) == agg_ok(
            keyed_merge(agg_lines(ls1)->Ok_0, agg_lines(ls2)->Ok_0),
        ),
    decreases ls2.len(),
{
    if agg_lines(ls1) is Err {
        lemma_agg_prefix_err(ls1, ls2, agg_lines(ls1)->Err_0);
    } else if ls2.len() == 0 {
        assert(ls1 + ls2 =~= ls1);
        let a = agg_lines(ls1)->Ok_0;
        assert(keyed_merge(a, agg_lines(ls2)->Ok_0) =~= a);
    } else {
        let ls2p = ls2.subrange(0, ls2.len() - 1);
        let l = ls2.last();
        lemma_agg_append(ls1, ls2p);
        lemma_agg_push(ls1 + ls2p, l);
        assert((ls1 + ls2p) + seq![l] =~= ls1 + ls2);
        let a = agg_lines(ls1)->Ok_0;
        match agg_lines(ls2p) {
            Err(e) => {},
            Ok(bp) => match parse_line(l) {
                Err(e) => {},
                Ok(kv) => {
                    lemma_upsert_merge(a, bp, kv.0, kv.1);
                },
            },
        }
    }
}

/// Every record of the sequence parses.
pub open spec fn all_ok(ls: Seq<Seq<u8>>) -> bool {
    forall|i: int| 0 <= i < ls.len() ==> parse_line(#[trigger] ls[i]) is Ok
}

/// A keyed aggregation that succeeds read every record.
pub proof fn lemma_agg_all_ok(ls: Seq<Seq<u8>>)
    requires
        agg_lines(ls) is Ok,
    ensures
        all_ok(ls),
    decreases ls.len(),
{
    if ls.len() > 0 {
        let lsp = ls.subrange(0, ls.len() - 1);
        lemma_agg_all_ok(lsp);
        assert forall|i: int| 0 <= i < ls.len() implies parse_line(#[trigger] ls[i]) is Ok by {
            if i < ls.len() - 1 {
                assert(parse_line(lsp[i]) is Ok);
            }
        }
    }
}

/// Each valid record takes at least four bytes, plus its line feed, so a
/// buffer holds at least four bytes per record it carries.
pub proof fn lemma_lines_len(s: Seq<u8>)
    requires
        all_ok(lines_of(s)),
    ensures
        4 * lines_of(s).len() <= s.len(),
    decreases s.len(),
{
    if s.len() > 0 {
        lemma_lines_unfold(s);
        lemma_find_byte(s, NL);
        let fl = crate::model::first_line(s);
        let ls = lines_of(s);
        assert(ls[0] == fl);
        assert(parse_line(fl) is Ok);
        crate::model::lemma_parse_line_len(fl);
        match find_byte(s, NL) {
            Some(i) => {
                let r = line_rest(s);
                assert(s.len() == fl.len() + 1 + r.len());
                assert forall|j: int| 0 <= j < lines_of(r).len() implies parse_line(
                    #[trigger] lines_of(r)[j],
                ) is Ok by {
                    assert(lines_of(r)[j] == ls[j + 1]);
                }
                lemma_lines_len(r);
            },
            None => {
                assert(ls =~= seq![s]);
            },
        }
    }
}

/// The fingerprint-keyed scan and the text-keyed aggregation succeed and
/// fail together, with the same error, on every input.
pub proof fn lemma_scan_agg_err(ls: Seq<Seq<u8>>)
    ensures
        scan_lines(ls) is Ok <==> agg_lines(ls) is Ok,
        scan_lines(ls) matches Err(e) ==> agg_lines(ls) == agg_err(e),
    decreases ls.len(),
{
    if ls.len() > 0 {
        lemma_scan_agg_err(ls.subrange(0, ls.len() - 1));
    }
}

/// Re-keying commutes with one upsert, when the incoming key cannot collide
/// with a stored representative.
proof fn lemma_to_keyed_upsert(mp: Map<u64, RecordModel>, k: Seq<u8>, v: int)
    requires
        forall|fp: u64|
            mp.dom().contains(fp) ==> crate::outside::fingerprint_of((#[trigger] mp[fp]).key)
                == fp,
        mp.dom().contains(crate::outside::fingerprint_of(k)) ==> mp[crate::outside::fingerprint_of(
            k,
        )].key == k,
    ensures
        to_keyed(scan_upsert(mp, crate::outside::fingerprint_of(k), k, v)) == agg_upsert(
            to_keyed(mp),
            k,
            v,
        ),
{
    let fpk = crate::outside::fingerprint_of(k);
    let m = scan_upsert(mp, fpk, k, v);
    let tm = to_keyed(m);
    let ta = to_keyed(mp);
    let a = agg_upsert(ta, k, v);
    assert(m[fpk].key == k);
    assert forall|q: Seq<u8>| #![trigger tm.dom().contains(q)] true implies (tm.dom().contains(q)
        <==> a.dom().contains(q)) && (tm.dom().contains(q) ==> tm[q] == a[q]) by {
        let fq = crate::outside::fingerprint_of(q);
        if q == k {
            assert(tm.dom().contains(k) && tm[k] == m[fpk]);
            assert(a.dom().contains(k));
        } else {
            if fq == fpk {
                assert(m[fq].key == k);
                assert(!tm.dom().contains(q));
                if mp.dom().contains(fq) {
                    assert(mp[fq].key == k);
                }
                assert(!ta.dom().contains(q));
                assert(!a.dom().contains(q));
            } else {
                assert(m.dom().contains(fq) <==> mp.dom().contains(fq));
                assert(m.dom().contains(fq) ==> m[fq] == mp[fq]);
            }
        }
    }
    assert(tm =~= a);
}

/// Re-keying the whole-buffer table: with no fingerprint collisions among
/// the records, the fingerprint-keyed scan and the text-keyed aggregation
/// agree line for line, errors included.
pub proof fn lemma_scan_agg(ls: Seq<Seq<u8>>)
    requires
        keys_injective(ls),
    ensures
        agg_lines(ls) == match scan_lines(ls) {
            Ok(m) => agg_ok(to_keyed(m)),
            Err(e) => agg_err(e),
        },
        scan_lines(ls) matches Ok(m) ==> forall|fp: u64|
            m.dom().contains(fp) ==> exists|i: int|
                #![trigger ls[i]]
                0 <= i < ls.len() && parse_line(ls[i]) is Ok && parse_line(ls[i])->Ok_0.0 == (
                #[trigger] m[fp]).key,
    decreases ls.len(),
{
    if ls.len() == 0 {
        assert(to_keyed(crate::model::empty_fp_map()) =~= Map::<Seq<u8>, RecordModel>::empty());
    } else {
        let lsp = ls.subrange(0, ls.len() - 1);
        let l = ls.last();
        assert forall|i: int| 0 <= i < lsp.len() implies #[trigger] lsp[i] == ls[i] by {}
        assert(keys_injective(lsp)) by {
            assert forall|i: int, j: int|
                0 <= i < lsp.len() && 0 <= j < lsp.len() && parse_line(lsp[i]) is Ok && parse_line(
                    lsp[j],
                ) is Ok && crate::outside::fingerprint_of(
                (#[trigger] parse_line(lsp[i]))->Ok_0.0,
            ) == crate::outside::fingerprint_of(
                (#[trigger] parse_line(lsp[j]))->Ok_0.0,
            ) implies parse_line(lsp[i])->Ok_0.0 == parse_line(lsp[j])->Ok_0.0 by {
                assert(parse_line(ls[i]) == parse_line(lsp[i]));
                assert(parse_line(ls[j]) == parse_line(lsp[j]));
            }
        }
        lemma_scan_agg(lsp);
        match scan_lines(lsp) {
            Err(e) => {},
            Ok(mp) => {
                crate::model::lemma_scan_wf_ok(lsp, mp);
                match parse_line(l) {
                    Err(e) => {},
                    Ok(kv) => {
                        let k = kv.0;
                        let fpk = crate::outside::fingerprint_of(k);
                        assert(parse_line(ls[ls.len() - 1]) == parse_line(l));
                        if mp.dom().contains(fpk) {
                            let i = choose|i: int|
                                #![trigger lsp[i]]
                                0 <= i < lsp.len() && parse_line(lsp[i]) is Ok && parse_line(
                                    lsp[i],
                                )->Ok_0.0 == mp[fpk].key;
                            assert(crate::outside::fingerprint_of(mp[fpk].key) == fpk);
                            assert(parse_line(ls[i]) is Ok && parse_line(ls[i])->Ok_0.0
                                == mp[fpk].key);
                            assert(mp[fpk].key == k);
                        }
                        lemma_to_keyed_upsert(mp, k, kv.1);
                        let m = scan_upsert(mp, fpk, k, kv.1);
                        assert forall|fp: u64| m.dom().contains(fp) implies exists|i: int|
                            #![trigger ls[i]]
                            0 <= i < ls.len() && parse_line(ls[i]) is Ok && parse_line(
                                ls[i],
                            )->Ok_0.0 == (#[trigger] m[fp]).key by {
                            if fp == fpk {
                                assert(parse_line(ls[ls.len() - 1]) is Ok && parse_line(
                                    ls[ls.len() - 1],
                                )->Ok_0.0 == m[fp].key);
                            } else {
                                assert(mp.dom().contains(fp) && m[fp] == mp[fp]);
                                let i = choose|i: int|
                                    #![trigger lsp[i]]
                                    0 <= i < lsp.len() && parse_line(lsp[i]) is Ok && parse_line(
                                        lsp[i],
                                    )->Ok_0.0 == mp[fp].key;
                                assert(parse_line(ls[i]) is Ok && parse_line(ls[i])->Ok_0.0
                                    == m[fp].key);
                            }
                        }
                    },
                }
            },
        }
    }
}

/// The first `i` drained entries folded one by one into `km`.
pub open spec fn put_fold(
    km: Map<Seq<u8>, RecordModel>,
    es: Seq<(u64, crate::record::Record)>,
    i: int,
) -> Map<Seq<u8>, RecordModel>
    decreases i,
{
    if i <= 0 {
        km
    } else {
        crate::model::keyed_put(put_fold(km, es, i - 1), es[i - 1].1@)
    }
}

/// The table restricted to the fingerprints of the first `i` entries.
pub open spec fn fp_prefix(
    m: Map<u64, RecordModel>,
    es: Seq<(u64, crate::record::Record)>,
    i: int,
) -> Map<u64, RecordModel> {
    Map::new(
        |fp: u64|
            m.dom().contains(fp) && exists|j: int| #![trigger es[j]] 0 <= j < i && es[j].0 == fp,
        |fp: u64| m[fp],
    )
}

/// Folding a whole aggregate with a fresh key into a merge extends the
/// right operand.
proof fn lemma_put_merge(
    a: Map<Seq<u8>, RecordModel>,
    b: Map<Seq<u8>, RecordModel>,
    r: RecordModel,
)
    requires
        !b.dom().contains(r.key),
    ensures
        crate::model::keyed_put(keyed_merge(a, b), r) == keyed_merge(a, b.insert(r.key, r)),
{
    let l = crate::model::keyed_put(keyed_merge(a, b), r);
    let rr = keyed_merge(a, b.insert(r.key, r));
    assert forall|q: Seq<u8>| l.dom().contains(q) implies #[trigger] l[q] == rr[q] by {}
    assert(l =~= rr);
}

/// Extending the fingerprint prefix by one entry inserts one fresh key into
/// the re-keyed table.
proof fn lemma_fp_prefix_extend(
    m: Map<u64, RecordModel>,
    es: Seq<(u64, crate::record::Record)>,
    i: int,
)
    requires
        entries_facts(es, m),
        0 <= i < es.len(),
    ensures
        !to_keyed(fp_prefix(m, es, i)).dom().contains(es[i].1@.key),
        to_keyed(fp_prefix(m, es, i + 1)) == to_keyed(fp_prefix(m, es, i)).insert(
            es[i].1@.key,
            es[i].1@,
        ),
{
    reveal(entries_facts);
    let fpi = es[i].0;
    assert(m.contains_pair(fpi, es[i].1@));
    assert(crate::outside::fingerprint_of(m[fpi].key) == fpi);
    let ki = es[i].1@.key;
    assert(crate::outside::fingerprint_of(ki) == fpi);
    let ta = to_keyed(fp_prefix(m, es, i));
    let tb = to_keyed(fp_prefix(m, es, i + 1));
    if ta.dom().contains(ki) {
        assert(fp_prefix(m, es, i).dom().contains(fpi));
        let j = choose|j: int| #![trigger es[j]] 0 <= j < i && es[j].0 == fpi;
        assert(es[j].0 != es[i].0);
        assert(false);
    }
    assert forall|q: Seq<u8>| #![trigger tb.dom().contains(q)] true implies (tb.dom().contains(q)
        <==> ta.insert(ki, es[i].1@).dom().contains(q)) && (tb.dom().contains(q) ==> tb[q]
        == ta.insert(ki, es[i].1@)[q]) by {
        let fq = crate::outside::fingerprint_of(q);
        if q == ki {
            assert(fp_prefix(m, es, i + 1).dom().contains(fpi)) by {
                assert(0 <= i < i + 1 && es[i].0 == fpi);
            }
            assert(tb.dom().contains(ki) && tb[ki] == m[fpi]);
        } else {
            assert(fp_prefix(m, es, i + 1).dom().contains(fq) <==> (m.dom().contains(fq)
                && exists|j: int| #![trigger es[j]] 0 <= j < i + 1 && es[j].0 == fq));
            if fp_prefix(m, es, i + 1).dom().contains(fq) && m[fq].key == q {
                let j = choose|j: int| #![trigger es[j]] 0 <= j < i + 1 && es[j].0 == fq;
                assert(j < i) by {
                    if j == i {
                        assert(fq == fpi && m[fq].key == ki);
                    }
                }
                assert(fp_prefix(m, es, i).dom().contains(fq));
            }
            if fp_prefix(m, es, i).dom().contains(fq) {
                assert(fp_prefix(m, es, i + 1).dom().contains(fq));
            }
        }
    }
    assert(tb =~= ta.insert(ki, es[i].1@));
}

/// Folding the drained entries one by one merges the whole re-keyed table.
proof fn lemma_fold_entries(
    km0: Map<Seq<u8>, RecordModel>,
    m: Map<u64, RecordModel>,
    es: Seq<(u64, crate::record::Record)>,
    i: int,
)
    requires
        entries_facts(es, m),
        0 <= i <= es.len(),
    ensures
        put_fold(km0, es, i) == keyed_merge(km0, to_keyed(fp_prefix(m, es, i))),
    decreases i,
{
    if i == 0 {
        assert(to_keyed(fp_prefix(m, es, 0)) =~= Map::<Seq<u8>, RecordModel>::empty());
        assert(keyed_merge(km0, to_keyed(fp_prefix(m, es, 0))) =~= km0);
    } else {
        lemma_fold_entries(km0, m, es, i - 1);
        lemma_fp_prefix_extend(m, es, i - 1);
        lemma_put_merge(km0, to_keyed(fp_prefix(m, es, i - 1)), es[i - 1].1@);
    }
}

/// The restriction to every entry's fingerprint is the whole table.
proof fn lemma_fp_prefix_full(m: Map<u64, RecordModel>, es: Seq<(u64, crate::record::Record)>)
    requires
        entries_facts(es, m),
    ensures
        fp_prefix(m, es, es.len() as int) == m,
{
    reveal(entries_facts);
    assert forall|fp: u64| m.dom().contains(fp) implies fp_prefix(
        m,
        es,
        es.len() as int,
    ).dom().contains(fp) by {
        let j = choose|j: int| 0 <= j < es.len() && (#[trigger] es[j]).0 == fp;
        assert(0 <= j < es.len() && es[j].0 == fp);
    }
    assert(fp_prefix(m, es, es.len() as int) =~= m);
}

/// Folding an aggregate with a fresh key into a canonical listing keeps it
/// canonical for the extended table.
proof fn lemma_put_canonical_insert(
    f0: Seq<RecordModel>,
    f1: Seq<RecordModel>,
    km: Map<Seq<u8>, RecordModel>,
    rec: RecordModel,
    p0: int,
)
    requires
        is_canonical(f0, km),
        forall|i: int| 0 <= i < f0.len() ==> (#[trigger] f0[i]).key != rec.key,
        0 <= p0 <= f0.len(),
        f1 == f0.insert(p0, rec),
        crate::model::sorted_strict(f1),
    ensures
        is_canonical(f1, crate::model::keyed_put(km, rec)),
{
    f0.insert_ensures(p0, rec);
    if km.dom().contains(rec.key) {
        let i = choose|i: int| 0 <= i < f0.len() && (#[trigger] f0[i]).key == rec.key;
        assert(false);
    }
    let km1 = crate::model::keyed_put(km, rec);
    assert(km1 == km.insert(rec.key, rec));
    assert forall|p: int| 0 <= p < f1.len() implies km1.contains_pair(
        (#[trigger] f1[p]).key,
        f1[p],
    ) by {
        if p < p0 {
            assert(f1[p] == f0[p]);
        } else if p == p0 {
            assert(f1[p] == rec);
        } else {
            assert(f1[p] == f0[p - 1]);
        }
    }
    assert forall|k: Seq<u8>| km1.dom().contains(k) implies exists|i: int|
        0 <= i < f1.len() && (#[trigger] f1[i]).key == k by {
        if k == rec.key {
            assert(f1[p0].key == k);
        } else {
            let i = choose|i: int| 0 <= i < f0.len() && (#[trigger] f0[i]).key == k;
            if i < p0 {
                assert(f1[i].key == k);
            } else {
                assert(f1[i + 1].key == k);
            }
        }
    }
}

/// Folding an aggregate into the entry that carries its key keeps the
/// listing canonical for the extended table.
proof fn lemma_put_canonical_update(
    f0: Seq<RecordModel>,
    f1: Seq<RecordModel>,
    km: Map<Seq<u8>, RecordModel>,
    rec: RecordModel,
    i0: int,
)
    requires
        is_canonical(f0, km),
        0 <= i0 < f0.len(),
        f0[i0].key == rec.key,
        f1 == f0.update(i0, crate::model::rm_merge(f0[i0], rec)),
    ensures
        is_canonical(f1, crate::model::keyed_put(km, rec)),
{
    assert(km.contains_pair(f0[i0].key, f0[i0]));
    let km1 = crate::model::keyed_put(km, rec);
    assert(km1 == km.insert(rec.key, crate::model::rm_merge(f0[i0], rec)));
    assert(f1.len() == f0.len());
    assert(forall|p: int| 0 <= p < f1.len() ==> (#[trigger] f1[p]).key == f0[p].key);
    assert(crate::model::sorted_strict(f1)) by {
        assert forall|i: int, j: int| 0 <= i < j < f1.len() implies crate::model::lex_lt(
            (#[trigger] f1[i]).key,
            (#[trigger] f1[j]).key,
        ) by {
            assert(crate::model::lex_lt(f0[i].key, f0[j].key));
        }
    }
    assert forall|p: int| 0 <= p < f1.len() implies km1.contains_pair(
        (#[trigger] f1[p]).key,
        f1[p],
    ) by {
        if p != i0 {
            assert(f1[p] == f0[p]);
            if f0[p].key == rec.key {
                if p < i0 {
                    assert(crate::model::lex_lt(f0[p].key, f0[i0].key));
                } else {
                    assert(crate::model::lex_lt(f0[i0].key, f0[p].key));
                }
                crate::model::lemma_lex_irrefl(rec.key);
            }
        }
    }
    assert forall|k: Seq<u8>| km1.dom().contains(k) implies exists|i: int|
        0 <= i < f1.len() && (#[trigger] f1[i]).key == k by {
        if k == rec.key {
            assert(f1[i0].key == k);
        } else {
            let i = choose|i: int| 0 <= i < f0.len() && (#[trigger] f0[i]).key == k;
            assert(f1[i].key == k);
        }
    }
}

/// Fold all drained entries of one partial table into the running sorted
/// final table, merging statistics where a key is already present.
#[verifier::rlimit(60)]
pub(crate) fn fold_table(
    merged: &mut Vec<crate::record::Record>,
    entries: Vec<(u64, crate::record::Record)>,
    Ghost(m): Ghost<Map<u64, RecordModel>>,
    Ghost(km0): Ghost<Map<Seq<u8>, RecordModel>>,
    Ghost(pb): Ghost<int>,
    Ghost(cl): Ghost<int>,
)
    requires
        entries_facts(entries@, m),
        is_canonical(crate::record::rec_views(old(merged)@), km0),
        forall|k: Seq<u8>|
            km0.dom().contains(k) ==> crate::model::rm_wf(#[trigger] km0[k]) && km0[k].count <= pb,
        forall|fp: u64| m.dom().contains(fp) ==> (#[trigger] m[fp]).count <= cl,
        0 <= pb,
        0 <= cl,
        pb + 2 * cl < 0xffff_ffff_ffff_ffff,
    ensures
        is_canonical(
            crate::record::rec_views(final(merged)@),
            keyed_merge(km0, to_keyed(m)),
        ),
        forall|k: Seq<u8>|
            keyed_merge(km0, to_keyed(m)).dom().contains(k) ==> crate::model::rm_wf(
                #[trigger] keyed_merge(km0, to_keyed(m))[k],
            ) && keyed_merge(km0, to_keyed(m))[k].count <= pb + cl,
{
    let ghost es0 = entries@;
    let mut entries = entries;
    let mut k = entries.len();
    let ghost mut km = km0;
    proof {
        assert(entries@ =~= es0.subrange((es0.len() - k as int) as int, es0.len() as int));
    }
    while k != 0
        invariant
            k == entries@.len(),
            k <= es0.len(),
            entries@ == es0.subrange(es0.len() - k, es0.len() as int),
            entries_facts(es0, m),
            km == put_fold(km0, es0, es0.len() - k),
            is_canonical(crate::record::rec_views(merged@), km),
            forall|q: Seq<u8>|
                km.dom().contains(q) ==> crate::model::rm_wf(#[trigger] km[q]) && km[q].count <= pb
                    + cl,
            forall|kk: Seq<u8>|
                km0.dom().contains(kk) ==> crate::model::rm_wf(#[trigger] km0[kk]) && km0[kk].count
                    <= pb,
            forall|fp: u64| m.dom().contains(fp) ==> (#[trigger] m[fp]).count <= cl,
            0 <= pb,
            0 <= cl,
            pb + 2 * cl < 0xffff_ffff_ffff_ffff,
        decreases k,
    {
        let ghost i = es0.len() - k as int;
        let ghost pre = entries@;
        let e = entries.remove(0);
        k = k - 1;
        let ghost f0 = crate::record::rec_views(merged@);
        proof {
            assert(e == pre[0] && pre[0] == es0.subrange(i, es0.len() as int)[0]);
            assert(e == es0[i]);
            assert(entries@ =~= es0.subrange(i + 1, es0.len() as int));
            assert(m.contains_pair(es0[i].0, es0[i].1@) && crate::model::rm_wf(m[es0[i].0])) by {
                reveal(entries_facts);
            }
            assert(crate::model::rm_wf(e.1@) && e.1@.count <= cl);
            assert forall|p: int| 0 <= p < f0.len() implies crate::model::rm_wf(#[trigger] f0[p])
                && f0[p].count <= pb + cl by {
                assert(km.contains_pair(f0[p].key, f0[p]));
            }
        }
        crate::merge::merge_entry(merged, e.1);
        proof {
            let f1 = crate::record::rec_views(merged@);
            if exists|ii: int| 0 <= ii < f0.len() && (#[trigger] f0[ii]).key == e.1@.key {
                let i0 = choose|i0: int|
                    0 <= i0 < f0.len() && (#[trigger] f0[i0]).key == e.1@.key && f1 == f0.update(
                        i0,
                        crate::model::rm_merge(f0[i0], e.1@),
                    );
                lemma_put_canonical_update(f0, f1, km, e.1@, i0);
            } else {
                let p0 = choose|p0: int| 0 <= p0 <= f0.len() && f1 == f0.insert(p0, e.1@);
                lemma_put_canonical_insert(f0, f1, km, e.1@, p0);
            }
            km = crate::model::keyed_put(km, e.1@);
            assert(km == put_fold(km0, es0, i + 1));
            lemma_fold_entries(km0, m, es0, i + 1);
            lemma_fp_prefix_bounds(m, es0, i + 1, cl);
            lemma_merge_bounds(km0, to_keyed(fp_prefix(m, es0, i + 1)), pb, cl);
        }
    }
    proof {
        assert(es0.len() - k as int == es0.len());
        lemma_fold_entries(km0, m, es0, es0.len() as int);
        lemma_fp_prefix_full(m, es0);
    }
}

/// A sequence whose records all parse aggregates without error, under both
/// keyings.
proof fn lemma_all_ok_runs(ls: Seq<Seq<u8>>)
    requires
        all_ok(ls),
    ensures
        scan_lines(ls) is Ok,
        agg_lines(ls) is Ok,
    decreases ls.len(),
{
    if ls.len() > 0 {
        let lsp = ls.subrange(0, ls.len() - 1);
        assert forall|i: int| 0 <= i < lsp.len() implies parse_line(#[trigger] lsp[i]) is Ok by {
            assert(lsp[i] == ls[i]);
        }
        lemma_all_ok_runs(lsp);
        assert(parse_line(ls.last()) is Ok);
    }
}

/// Collision-freeness restricts to any contiguous part.
proof fn lemma_injective_subrange(ls: Seq<Seq<u8>>, a: int, b: int)
    requires
        keys_injective(ls),
        0 <= a <= b <= ls.len(),
    ensures
        keys_injective(ls.subrange(a, b)),
{
    let sub = ls.subrange(a, b);
    assert forall|i: int, j: int|
        0 <= i < sub.len() && 0 <= j < sub.len() && parse_line(sub[i]) is Ok && parse_line(
            sub[j],
        ) is Ok && crate::outside::fingerprint_of((#[trigger] parse_line(sub[i]))->Ok_0.0)
        == crate::outside::fingerprint_of(
        (#[trigger] parse_line(sub[j]))->Ok_0.0,
    ) implies parse_line(sub[i])->Ok_0.0 == parse_line(sub[j])->Ok_0.0 by {
        assert(sub[i] == ls[a + i] && sub[j] == ls[a + j]);
        assert(parse_line(sub[i]) == parse_line(ls[a + i]));
        assert(parse_line(sub[j]) == parse_line(ls[a + j]));
    }
}

/// Peeling the first chunk off a concatenation.
proof fn lemma_concat_first(cs: Seq<&[u8]>)
    requires
        cs.len() > 0,
    ensures
        crate::split::chunks_concat(cs) == cs[0]@ + crate::split::chunks_concat(
            cs.subrange(1, cs.len() as int),
        ),
{
    let f = |c: &[u8]| c@;
    let mv = cs.map_values(f);
    assert(mv.len() == cs.len());
    assert(mv.first() == cs[0]@);
    assert(mv.drop_first() =~= cs.subrange(1, cs.len() as int).map_values(f));
    assert(mv.flatten() == mv.first() + mv.drop_first().flatten());
}

/// The concatenation of no chunks is empty.
proof fn lemma_concat_empty(cs: Seq<&[u8]>)
    requires
        cs.len() == 0,
    ensures
        crate::split::chunks_concat(cs) == Seq::<u8>::empty(),
{
    let f = |c: &[u8]| c@;
    assert(cs.map_values(f).len() == 0);
    assert(cs.map_values(f).flatten() =~= Seq::<u8>::empty());
}

/// The values of a re-keyed fingerprint prefix are values of the table
/// itself, well formed and bounded.
proof fn lemma_fp_prefix_bounds(
    m: Map<u64, RecordModel>,
    es: Seq<(u64, crate::record::Record)>,
    i: int,
    cl: int,
)
    requires
        entries_facts(es, m),
        forall|fp: u64| m.dom().contains(fp) ==> (#[trigger] m[fp]).count <= cl,
    ensures
        forall|q: Seq<u8>|
            to_keyed(fp_prefix(m, es, i)).dom().contains(q) ==> crate::model::rm_wf(
                #[trigger] to_keyed(fp_prefix(m, es, i))[q],
            ) && to_keyed(fp_prefix(m, es, i))[q].count <= cl,
{
    reveal(entries_facts);
}

/// A merge of two bounded tables is bounded by the sum of the bounds.
proof fn lemma_merge_bounds(
    a: Map<Seq<u8>, RecordModel>,
    b: Map<Seq<u8>, RecordModel>,
    pa: int,
    pbb: int,
)
    requires
        forall|q: Seq<u8>|
            a.dom().contains(q) ==> crate::model::rm_wf(#[trigger] a[q]) && a[q].count <= pa,
        forall|q: Seq<u8>|
            b.dom().contains(q) ==> crate::model::rm_wf(#[trigger] b[q]) && b[q].count <= pbb,
        0 <= pa,
        0 <= pbb,
    ensures
        forall|q: Seq<u8>|
            keyed_merge(a, b).dom().contains(q) ==> crate::model::rm_wf(
                #[trigger] keyed_merge(a, b)[q],
            ) && keyed_merge(a, b)[q].count <= pa + pbb,
{
}

/// Aggregate a whole input buffer chunk by chunk: split it at record
/// boundaries into at most `n` chunks, scan each into its own partial
/// table, and fold the tables into one sorted final table. The outcome
/// succeeds and fails exactly as the single-pass entry point does; with no
/// fingerprint collisions among the keys the rendered summary is the very
/// same bytes, whatever `n` — chunking, and so the worker count, cannot
/// show in the output.
#[verifier::rlimit(100)]
pub fn aggregate_chunks(input: &[u8], n: usize) -> (r: Result<Vec<u8>, AggError>)
    requires
        n >= 1,
    ensures
        match r {
            Ok(out) => crate::model::scan_of(input@) is Ok && (keys_injective(
                lines_of(crate::model::stripped(input@)),
            ) ==> out@ == crate::model::output_of(input@)),
            Err(e) => crate::model::scan_of(input@) == crate::model::scan_err(e),
        },
{
    let ilen = input.len();
    let data: &[u8] = if ilen > 0 && *vstd::slice::slice_index_get(input, ilen - 1) == NL {
        vstd::slice::slice_subrange(input, 0, ilen - 1)
    } else {
        vstd::slice::slice_subrange(input, 0, ilen)
    };
    proof {
        assert(data@ =~= crate::model::stripped(input@));
    }
    let dlen = data.len();
    let chunks = crate::split::into_chunks(data, n);
    let clen = chunks.len();
    let ghost cs = chunks@;
    let mut merged: Vec<crate::record::Record> = Vec::new();
    let ghost mut pref: Seq<u8> = Seq::empty();
    let ghost mut km: Map<Seq<u8>, RecordModel> = Map::empty();
    let mut ci: usize = 0;
    proof {
        assert(cs.subrange(0, clen as int) =~= cs);
        assert(data@ =~= pref + crate::split::chunks_concat(cs.subrange(0, clen as int)));
        assert(lines_of(pref) =~= Seq::<Seq<u8>>::empty());
        assert(crate::record::rec_views(merged@) =~= Seq::<RecordModel>::empty());
        assert(is_canonical(crate::record::rec_views(merged@), km));
    }
    while ci < clen
        invariant
            ci <= clen,
            clen == cs.len(),
            cs == chunks@,
            dlen == data@.len(),
            data@ == crate::model::stripped(input@),
            data@ == pref + crate::split::chunks_concat(cs.subrange(ci as int, clen as int)),
            ci < clen ==> (pref.len() == 0 || pref.last() == NL),
            forall|q: int| 0 <= q < clen - 1 ==> (#[trigger] cs[q])@.last() == NL,
            forall|q: int| 0 <= q < clen ==> (#[trigger] cs[q])@.len() > 0,
            all_ok(lines_of(pref)),
            keys_injective(lines_of(data@)) ==> agg_lines(lines_of(pref)) == agg_ok(km),
            is_canonical(crate::record::rec_views(merged@), km),
            forall|q: Seq<u8>|
                km.dom().contains(q) ==> crate::model::rm_wf(#[trigger] km[q]) && 4 * km[q].count
                    <= pref.len(),
            pref.len() <= dlen,
        decreases clen - ci,
    {
        let c: &[u8] = chunks[ci];
        let clen_b = c.len();
        let ghost rest = cs.subrange(ci as int, clen as int);
        let ghost after = cs.subrange(ci as int + 1, clen as int);
        proof {
            assert(rest[0] == cs[ci as int]);
            lemma_concat_first(rest);
            assert(rest.subrange(1, rest.len() as int) =~= after);
            assert(data@ =~= (pref + c@) + crate::split::chunks_concat(after));
            assert(data@ =~= pref + (c@ + crate::split::chunks_concat(after)));
            if ci + 1 == clen {
                lemma_concat_empty(after);
                assert(c@ + crate::split::chunks_concat(after) =~= c@);
            }
            lemma_lines_append(pref, c@ + crate::split::chunks_concat(after));
            if ci + 1 < clen {
                lemma_lines_append(c@, crate::split::chunks_concat(after));
            }
        }
        let ghost l_pref = lines_of(pref);
        let ghost l_c = lines_of(c@);
        let ghost l_after = lines_of(crate::split::chunks_concat(after));
        proof {
            assert(lines_of(data@) == l_pref + (l_c + l_after));
        }
        match crate::table::scan_chunk(c) {
            Err(e) => {
                proof {
                    lemma_scan_agg_err(l_c);
                    assert(agg_lines(l_c) == agg_err(e));
                    lemma_agg_prefix_err(l_c, l_after, e);
                    lemma_all_ok_runs(l_pref);
                    lemma_agg_append(l_pref, l_c + l_after);
                    assert(agg_lines(lines_of(data@)) == agg_err(e));
                    lemma_scan_agg_err(lines_of(data@));
                    assert(scan_lines(lines_of(data@)) == crate::model::scan_err(e));
                }
                return Err(e);
            },
            Ok(t) => {
                let ghost mc = crate::outside::fp_entries(t);
                proof {
                    crate::model::lemma_scan_wf_ok(l_c, mc);
                    lemma_scan_agg_err(l_c);
                    lemma_agg_all_ok(l_c);
                    lemma_lines_len(c@);
                }
                let entries = crate::outside::table_entries(t);
                proof {
                    assert(entries_facts(entries@, mc)) by {
                        reveal(entries_facts);
                        assert(forall|i: int|
                            0 <= i < entries@.len() ==> mc.contains_pair(
                                (#[trigger] entries@[i]).0,
                                entries@[i].1@,
                            ));
                        assert(forall|i: int, j: int|
                            0 <= i < j < entries@.len() ==> (#[trigger] entries@[i]).0 != (
                            #[trigger] entries@[j]).0);
                        assert(forall|fp: u64|
                            mc.dom().contains(fp) ==> exists|i: int|
                                0 <= i < entries@.len() && (#[trigger] entries@[i]).0 == fp);
                        assert(forall|fp: u64|
                            mc.dom().contains(fp) ==> crate::model::rm_wf(#[trigger] mc[fp])
                                && crate::outside::fingerprint_of(mc[fp].key) == fp);
                    }
                    assert(forall|fp: u64|
                        mc.dom().contains(fp) ==> (#[trigger] mc[fp]).count <= (clen_b as int)
                            / 4);
                    assert(forall|q: Seq<u8>|
                        km.dom().contains(q) ==> (#[trigger] km[q]).count <= (pref.len() as int)
                            / 4);
                    assert((pref.len() as int) / 4 + 2 * ((clen_b as int) / 4)
                        < 0xffff_ffff_ffff_ffff);
                }
                let ghost km_old = km;
                fold_table(
                    &mut merged,
                    entries,
                    Ghost(mc),
                    Ghost(km),
                    Ghost((pref.len() as int) / 4),
                    Ghost((clen_b as int) / 4),
                );
                proof {
                    km = keyed_merge(km_old, to_keyed(mc));
                    assert forall|q: Seq<u8>| km.dom().contains(q) implies crate::model::rm_wf(
                        #[trigger] km[q],
                    ) && 4 * km[q].count <= pref.len() + c@.len() by {
                        assert(km[q].count <= (pref.len() as int) / 4 + (clen_b as int) / 4);
                    }
                    if keys_injective(lines_of(data@)) {
                        assert(l_c =~= lines_of(data@).subrange(
                            l_pref.len() as int,
                            l_pref.len() + l_c.len() as int,
                        ));
                        lemma_injective_subrange(
                            lines_of(data@),
                            l_pref.len() as int,
                            l_pref.len() + l_c.len() as int,
                        );
                        lemma_scan_agg(l_c);
                        assert(agg_lines(l_c) == agg_ok(to_keyed(mc)));
                        lemma_lines_append(pref, c@);
                        lemma_agg_append(l_pref, l_c);
                        assert(agg_lines(lines_of(pref + c@)) == agg_ok(km));
                    }
                    assert forall|i: int|
                        0 <= i < lines_of(pref + c@).len() implies parse_line(
                        #[trigger] lines_of(pref + c@)[i],
                    ) is Ok by {
                        lemma_lines_append(pref, c@);
                        if i < l_pref.len() {
                            assert(lines_of(pref + c@)[i] == l_pref[i]);
                        } else {
                            assert(lines_of(pref + c@)[i] == l_c[i - l_pref.len()]);
                        }
                    }
                    pref = pref + c@;
                }
                ci = ci + 1;
            },
        }
    }
    proof {
        assert(cs.subrange(clen as int, clen as int) =~= Seq::<&[u8]>::empty());
        lemma_concat_empty(cs.subrange(clen as int, clen as int));
        assert(pref =~= data@);
        lemma_all_ok_runs(lines_of(data@));
        let m_full = scan_lines(lines_of(data@))->Ok_0;
        if keys_injective(lines_of(data@)) {
            lemma_scan_agg(lines_of(data@));
            assert(km == to_keyed(m_full));
            assert(is_canonical(crate::model::canon(to_keyed(m_full)), to_keyed(m_full))) by {
                assert(is_canonical(crate::record::rec_views(merged@), to_keyed(m_full)));
            }
            crate::model::lemma_canonical_unique(
                crate::record::rec_views(merged@),
                crate::model::canon(to_keyed(m_full)),
                to_keyed(m_full),
            );
        }
        assert forall|p: int|
            0 <= p < crate::record::rec_views(merged@).len() implies crate::model::rm_wf(
            #[trigger] crate::record::rec_views(merged@)[p],
        ) by {
            assert(km.contains_pair(
                crate::record::rec_views(merged@)[p].key,
                crate::record::rec_views(merged@)[p],
            ));
        }
    }
    let out = crate::merge::render_final(&merged);
    Ok(out)
}

} // verus!
