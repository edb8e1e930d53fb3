//! The mathematical model of the aggregation pipeline: lines, records,
//! per-fingerprint and per-key aggregate maps, and the rendered summary.
use vstd::prelude::*;

verus! {

/// Line feed byte.
pub const NL: u8 = 10;

/// Field separator byte (`;`).
pub const SEMI: u8 = 59;

/// The ways a run can fail: a record without a separator, or a value field
/// that does not match the accepted fixed-point shapes.
#[derive(Clone, Copy, PartialEq, Eq, Structural, Debug)]
pub enum AggError {
    MissingSeparator,
    MalformedValue,
}

/// Ghost view of one aggregate: the representative key text and the running
/// statistics over scaled-by-ten integer values.
pub ghost struct RecordModel {
    pub key: Seq<u8>,
    pub min: int,
    pub max: int,
    pub sum: int,
    pub count: int,
}

/// Index of the first occurrence of `b` in `s`, if any.
pub open spec fn find_byte(s: Seq<u8>, b: u8) -> Option<int>
    decreases s.len(),
{
    if s.len() == 0 {
        None
    } else if s[0] == b {
        Some(0int)
    } else {
        match find_byte(s.subrange(1, s.len() as int), b) {
            Some(i) => Some(i + 1),
            None => None,
        }
    }
}

pub proof fn lemma_find_byte(s: Seq<u8>, b: u8)
    ensures
        match find_byte(s, b) {
            Some(i) => 0 <= i < s.len() && s[i] == b && forall|j: int| 0 <= j < i ==> s[j] != b,
            None => forall|j: int| 0 <= j < s.len() ==> s[j] != b,
        },
    decreases s.len(),
{
    if s.len() > 0 && s[0] != b {
        let t = s.subrange(1, s.len() as int);
        lemma_find_byte(t, b);
        assert(forall|j: int| 0 <= j < t.len() ==> t[j] == s[j + 1]);
        match find_byte(t, b) {
            Some(i) => {
                assert(s[i + 1] == b);
                assert forall|j: int| 0 <= j < i + 1 implies s[j] != b by {
                    if j > 0 {
                        assert(t[j - 1] != b);
                    }
                }
            },
            None => {
                assert forall|j: int| 0 <= j < s.len() implies s[j] != b by {
                    if j > 0 {
                        assert(t[j - 1] != b);
                    }
                }
            },
        }
    }
}

/// The first occurrence is pinned by its characterization.
pub proof fn lemma_find_byte_is_first(s: Seq<u8>, b: u8, i: int)
    requires
        0 <= i < s.len(),
        s[i] == b,
        forall|j: int| 0 <= j < i ==> s[j] != b,
    ensures
        find_byte(s, b) == Some(i),
{
    lemma_find_byte(s, b);
    match find_byte(s, b) {
        Some(k) => {
            if k < i {
                assert(s[k] != b);
            } else if i < k {
                assert(s[i] != b);
            }
        },
        None => {
            assert(s[i] != b);
        },
    }
}

pub open spec fn first_line(s: Seq<u8>) -> Seq<u8> {
    match find_byte(s, NL) {
        Some(i) => s.subrange(0, i),
        None => s,
    }
}

pub open spec fn line_rest(s: Seq<u8>) -> Seq<u8> {
    match find_byte(s, NL) {
        Some(i) => s.subrange(i + 1, s.len() as int),
        None => Seq::empty(),
    }
}

/// The records of a buffer: maximal runs split on line feeds; the final
/// record need not be newline-terminated.
pub open spec fn lines_of(s: Seq<u8>) -> Seq<Seq<u8>>
    decreases s.len(),
{
    if s.len() == 0 {
        Seq::empty()
    } else {
        match find_byte(s, NL) {
            Some(i) => if 0 <= i < s.len() {
                seq![s.subrange(0, i)] + lines_of(s.subrange(i + 1, s.len() as int))
            } else {
                Seq::empty()
            },
            None => seq![s],
        }
    }
}

/// One unfolding of `lines_of` in terms of `first_line` and `line_rest`.
pub proof fn lemma_lines_unfold(s: Seq<u8>)
    requires
        s.len() > 0,
    ensures
        lines_of(s) == seq![first_line(s)] + lines_of(line_rest(s)),
        lines_of(s).len() >= 1,
{
    lemma_find_byte(s, NL);
    match find_byte(s, NL) {
        Some(i) => {
            assert(lines_of(line_rest(s)) == lines_of(s.subrange(i + 1, s.len() as int)));
        },
        None => {
            assert(lines_of(Seq::<u8>::empty()) == Seq::<Seq<u8>>::empty());
            assert(lines_of(s) == seq![s]);
            assert(seq![first_line(s)] + lines_of(line_rest(s)) =~= seq![s]);
        },
    }
}

pub open spec fn is_ascii_digit(b: u8) -> bool {
    48 <= b <= 57
}

pub open spec fn digit_val(b: u8) -> int {
    b - 48
}

/// The accepted value shapes: `d.d`, `dd.d`, `-d.d`, `-dd.d`.
pub open spec fn valid_value(s: Seq<u8>) -> bool {
    ||| (s.len() == 3 && is_ascii_digit(s[0]) && s[1] == 46 && is_ascii_digit(s[2]))
    ||| (s.len() == 4 && is_ascii_digit(s[0]) && is_ascii_digit(s[1]) && s[2] == 46
        && is_ascii_digit(s[3]))
    ||| (s.len() == 4 && s[0] == 45 && is_ascii_digit(s[1]) && s[2] == 46 && is_ascii_digit(s[3]))
    ||| (s.len() == 5 && s[0] == 45 && is_ascii_digit(s[1]) && is_ascii_digit(s[2]) && s[3] == 46
        && is_ascii_digit(s[4]))
}

/// The scaled-by-ten integer a valid value field denotes.
pub open spec fn value_of(s: Seq<u8>) -> int {
    if s.len() == 3 {
        10 * digit_val(s[0]) + digit_val(s[2])
    } else if s.len() == 4 && s[0] == 45 {
        -(10 * digit_val(s[1]) + digit_val(s[3]))
    } else if s.len() == 4 {
        100 * digit_val(s[0]) + 10 * digit_val(s[1]) + digit_val(s[3])
    } else {
        -(100 * digit_val(s[1]) + 10 * digit_val(s[2]) + digit_val(s[4]))
    }
}

/// Split one record into its key and its scaled value, or fail.
pub open spec fn parse_line(l: Seq<u8>) -> Result<(Seq<u8>, int), AggError> {
    match find_byte(l, SEMI) {
        None => Err(AggError::MissingSeparator),
        Some(i) => {
            if valid_value(l.subrange(i + 1, l.len() as int)) {
                Ok((l.subrange(0, i), value_of(l.subrange(i + 1, l.len() as int))))
            } else {
                Err(AggError::MalformedValue)
            }
        },
    }
}

pub open spec fn rm_new(key: Seq<u8>, v: int) -> RecordModel {
    RecordModel { key, min: v, max: v, sum: v, count: 1 }
}

pub open spec fn rm_add(r: RecordModel, v: int) -> RecordModel {
    RecordModel {
        key: r.key,
        min: if v < r.min { v } else { r.min },
        max: if v > r.max { v } else { r.max },
        sum: r.sum + v,
        count: r.count + 1,
    }
}

/// Combine two aggregates for the same key; the representative key text of
/// the left one is kept.
pub open spec fn rm_merge(a: RecordModel, b: RecordModel) -> RecordModel {
    RecordModel {
        key: a.key,
        min: if b.min < a.min { b.min } else { a.min },
        max: if b.max > a.max { b.max } else { a.max },
        sum: a.sum + b.sum,
        count: a.count + b.count,
    }
}

/// Well-formedness of an aggregate built from decoded values.
pub open spec fn rm_wf(r: RecordModel) -> bool {
    &&& 1 <= r.count
    &&& -999 <= r.min <= r.max <= 999
    &&& -999 * r.count <= r.sum <= 999 * r.count
}

/// The empty per-fingerprint table.
pub open spec fn empty_fp_map() -> Map<u64, RecordModel> {
    Map::empty()
}

/// Add one record into a per-fingerprint table; on a repeated fingerprint the
/// existing aggregate is extended and its representative key text is kept.
pub open spec fn scan_upsert(m: Map<u64, RecordModel>, fp: u64, key: Seq<u8>, v: int) -> Map<
    u64,
    RecordModel,
> {
    if m.dom().contains(fp) {
        m.insert(fp, rm_add(m[fp], v))
    } else {
        m.insert(fp, rm_new(key, v))
    }
}

/// Scan a sequence of records into a per-fingerprint table, failing at the
/// first malformed record.
pub open spec fn scan_lines(ls: Seq<Seq<u8>>) -> Result<Map<u64, RecordModel>, AggError>
    decreases ls.len(),
{
    if ls.len() == 0 {
        Ok(Map::empty())
    } else {
        match scan_lines(ls.subrange(0, ls.len() - 1)) {
            Err(e) => Err(e),
            Ok(m) => match parse_line(ls.last()) {
                Err(e) => Err(e),
                Ok(kv) => Ok(scan_upsert(m, crate::outside::fingerprint_of(kv.0), kv.0, kv.1)),
            },
        }
    }
}

/// The succeeding outcome of a scan.
pub open spec fn scan_ok(m: Map<u64, RecordModel>) -> Result<Map<u64, RecordModel>, AggError> {
    Ok(m)
}

/// The failing outcome of a scan.
pub open spec fn scan_err(e: AggError) -> Result<Map<u64, RecordModel>, AggError> {
    Err(e)
}

/// One unfolding of `scan_lines` at the back.
pub proof fn lemma_scan_push(ps: Seq<Seq<u8>>, l: Seq<u8>)
    ensures
        scan_lines(ps + seq![l]) == match scan_lines(ps) {
            Err(e) => scan_err(e),
            Ok(m) => match parse_line(l) {
                Err(e) => scan_err(e),
                Ok(kv) => Ok(scan_upsert(m, crate::outside::fingerprint_of(kv.0), kv.0, kv.1)),
            },
        },
{
    let w = ps + seq![l];
    assert(w.len() == ps.len() + 1);
    assert(w.subrange(0, w.len() - 1) =~= ps);
    assert(w.last() == l);
}

/// An error in a prefix settles the whole scan.
pub proof fn lemma_scan_prefix_err(ps: Seq<Seq<u8>>, qs: Seq<Seq<u8>>, e: AggError)
    requires
        scan_lines(ps) == scan_err(e),
    ensures
        scan_lines(ps + qs) == scan_err(e),
    decreases qs.len(),
{
    if qs.len() == 0 {
        assert(ps + qs =~= ps);
    } else {
        let qs0 = qs.subrange(0, qs.len() - 1);
        lemma_scan_prefix_err(ps, qs0, e);
        let w = ps + qs;
        assert(w.subrange(0, w.len() - 1) =~= ps + qs0);
    }
}

/// A record that parses holds a separator and at least a three-byte value.
pub proof fn lemma_parse_line_len(l: Seq<u8>)
    requires
        parse_line(l) is Ok,
    ensures
        l.len() >= 4,
{
    lemma_find_byte(l, SEMI);
}

/// Every aggregate a scan builds is well formed, carries its own
/// fingerprint, and counts no more records than were scanned.
pub proof fn lemma_scan_wf(ls: Seq<Seq<u8>>)
    ensures
        scan_lines(ls) matches Ok(m) ==> forall|fp: u64|
            m.dom().contains(fp) ==> {
                &&& rm_wf(#[trigger] m[fp])
                &&& crate::outside::fingerprint_of(m[fp].key) == fp
                &&& m[fp].count <= ls.len()
            },
    decreases ls.len(),
{
    if ls.len() > 0 && scan_lines(ls) is Ok {
        let ls0 = ls.subrange(0, ls.len() - 1);
        lemma_scan_wf(ls0);
    }
}

/// `lemma_scan_wf`, restated over a named table.
pub proof fn lemma_scan_wf_ok(ls: Seq<Seq<u8>>, m: Map<u64, RecordModel>)
    requires
        scan_lines(ls) == scan_ok(m),
    ensures
        forall|fp: u64|
            m.dom().contains(fp) ==> {
                &&& rm_wf(#[trigger] m[fp])
                &&& crate::outside::fingerprint_of(m[fp].key) == fp
                &&& m[fp].count <= ls.len()
            },
{
    lemma_scan_wf(ls);
    assert forall|fp: u64| m.dom().contains(fp) implies {
        &&& rm_wf(#[trigger] m[fp])
        &&& crate::outside::fingerprint_of(m[fp].key) == fp
        &&& m[fp].count <= ls.len()
    } by {
        let mm = scan_lines(ls)->Ok_0;
        assert(mm == m);
        assert(rm_wf(mm[fp]) && crate::outside::fingerprint_of(mm[fp].key) == fp && mm[fp].count
            <= ls.len());
        assert(m[fp] == mm[fp]);
    }
}

/// Add one record into a table keyed by the true key text.
pub open spec fn agg_upsert(m: Map<Seq<u8>, RecordModel>, key: Seq<u8>, v: int) -> Map<
    Seq<u8>,
    RecordModel,
> {
    if m.dom().contains(key) {
        m.insert(key, rm_add(m[key], v))
    } else {
        m.insert(key, rm_new(key, v))
    }
}

/// Scan a sequence of records into a table keyed by the true key text.
pub open spec fn agg_lines(ls: Seq<Seq<u8>>) -> Result<Map<Seq<u8>, RecordModel>, AggError>
    decreases ls.len(),
{
    if ls.len() == 0 {
        Ok(Map::empty())
    } else {
        match agg_lines(ls.subrange(0, ls.len() - 1)) {
            Err(e) => Err(e),
            Ok(m) => match parse_line(ls.last()) {
                Err(e) => Err(e),
                Ok(kv) => Ok(agg_upsert(m, kv.0, kv.1)),
            },
        }
    }
}

/// A table keyed by key text carries each key as its own representative.
pub open spec fn keyed_wf(m: Map<Seq<u8>, RecordModel>) -> bool {
    forall|k: Seq<u8>| m.dom().contains(k) ==> (#[trigger] m[k]).key == k
}

/// Merge two tables keyed by key text: the union of their keys, with both
/// aggregates combined where a key stands in both.
pub open spec fn keyed_merge(a: Map<Seq<u8>, RecordModel>, b: Map<Seq<u8>, RecordModel>) -> Map<
    Seq<u8>,
    RecordModel,
> {
    Map::new(
        |k: Seq<u8>| a.dom().contains(k) || b.dom().contains(k),
        |k: Seq<u8>|
            if a.dom().contains(k) && b.dom().contains(k) {
                rm_merge(a[k], b[k])
            } else if a.dom().contains(k) {
                a[k]
            } else {
                b[k]
            },
    )
}

/// The succeeding outcome of a keyed aggregation.
pub open spec fn agg_ok(m: Map<Seq<u8>, RecordModel>) -> Result<Map<Seq<u8>, RecordModel>, AggError> {
    Ok(m)
}

/// The failing outcome of a keyed aggregation.
pub open spec fn agg_err(e: AggError) -> Result<Map<Seq<u8>, RecordModel>, AggError> {
    Err(e)
}

/// Fold one whole aggregate into a table keyed by key text.
pub open spec fn keyed_put(f: Map<Seq<u8>, RecordModel>, r: RecordModel) -> Map<
    Seq<u8>,
    RecordModel,
> {
    if f.dom().contains(r.key) {
        f.insert(r.key, rm_merge(f[r.key], r))
    } else {
        f.insert(r.key, r)
    }
}

/// No two records of `ls` carry distinct keys with one fingerprint.
pub open spec fn keys_injective(ls: Seq<Seq<u8>>) -> bool {
    forall|i: int, j: int|
        0 <= i < ls.len() && 0 <= j < ls.len() && parse_line(ls[i]) is Ok && parse_line(
            ls[j],
        ) is Ok && crate::outside::fingerprint_of((#[trigger] parse_line(ls[i]))->Ok_0.0)
            == crate::outside::fingerprint_of((#[trigger] parse_line(ls[j]))->Ok_0.0)
            ==> parse_line(ls[i])->Ok_0.0 == parse_line(ls[j])->Ok_0.0
}

/// Re-key a per-fingerprint table by its representative key texts.
pub open spec fn to_keyed(m: Map<u64, RecordModel>) -> Map<Seq<u8>, RecordModel> {
    Map::new(
        |k: Seq<u8>|
            m.dom().contains(crate::outside::fingerprint_of(k)) && m[crate::outside::fingerprint_of(
                k,
            )].key == k,
        |k: Seq<u8>| m[crate::outside::fingerprint_of(k)],
    )
}

/// `a` and `b` agree on the prefix of length `i`, and there `a` either ends
/// or has the smaller byte.
pub open spec fn lex_lt_at(a: Seq<u8>, b: Seq<u8>, i: int) -> bool {
    &&& 0 <= i <= a.len()
    &&& i <= b.len()
    &&& a.subrange(0, i) == b.subrange(0, i)
    &&& ((i == a.len() && i < b.len()) || (i < a.len() && i < b.len() && a[i] < b[i]))
}

/// Strict byte-lexicographic order.
pub open spec fn lex_lt(a: Seq<u8>, b: Seq<u8>) -> bool {
    exists|i: int| lex_lt_at(a, b, i)
}

/// Sequences that agree as prefixes agree at every index inside them.
pub proof fn lemma_prefix_eq_index(a: Seq<u8>, b: Seq<u8>, i: int)
    requires
        0 <= i <= a.len(),
        i <= b.len(),
        a.subrange(0, i) == b.subrange(0, i),
    ensures
        forall|k: int| 0 <= k < i ==> a[k] == b[k],
{
    assert forall|k: int| 0 <= k < i implies a[k] == b[k] by {
        assert(a.subrange(0, i)[k] == a[k]);
        assert(b.subrange(0, i)[k] == b[k]);
    }
}

pub proof fn lemma_lex_irrefl(a: Seq<u8>)
    ensures
        !lex_lt(a, a),
{
    if lex_lt(a, a) {
        let i = choose|i: int| lex_lt_at(a, a, i);
        assert(false);
    }
}

pub proof fn lemma_lex_asym(a: Seq<u8>, b: Seq<u8>)
    requires
        lex_lt(a, b),
    ensures
        !lex_lt(b, a),
{
    if lex_lt(b, a) {
        let i = choose|i: int| lex_lt_at(a, b, i);
        let j = choose|j: int| lex_lt_at(b, a, j);
        lemma_prefix_eq_index(a, b, i);
        lemma_prefix_eq_index(b, a, j);
        if i < j {
            assert(i < a.len() && i < b.len() && a[i] < b[i]) by {
                if i == a.len() {
                    assert(j <= a.len());
                }
            }
            assert(b[i] == a[i]);
        } else if j < i {
            assert(j < b.len() && j < a.len() && b[j] < a[j]) by {
                if j == b.len() {
                    assert(i <= b.len());
                }
            }
            assert(a[j] == b[j]);
        }
        assert(false);
    }
}

pub proof fn lemma_lex_trans(a: Seq<u8>, b: Seq<u8>, c: Seq<u8>)
    requires
        lex_lt(a, b),
        lex_lt(b, c),
    ensures
        lex_lt(a, c),
{
    let i = choose|i: int| lex_lt_at(a, b, i);
    let j = choose|j: int| lex_lt_at(b, c, j);
    lemma_prefix_eq_index(a, b, i);
    lemma_prefix_eq_index(b, c, j);
    if i < j {
        assert(a.subrange(0, i) =~= c.subrange(0, i)) by {
            lemma_prefix_eq_index(a, b, i);
        }
        assert(lex_lt_at(a, c, i));
    } else if j < i {
        assert(a.subrange(0, j) =~= c.subrange(0, j));
        assert(lex_lt_at(a, c, j));
    } else {
        assert(a.subrange(0, i) =~= c.subrange(0, i));
        assert(lex_lt_at(a, c, i));
    }
}

/// The decimal digits of `n` (for `n >= 0`), most significant first.
pub open spec fn dec_digits(n: int) -> Seq<u8>
    decreases n,
{
    if n < 10 {
        seq![(48 + if n >= 0 { n } else { 0 }) as u8]
    } else {
        dec_digits(n / 10) + seq![(48 + n % 10) as u8]
    }
}

/// A scaled-by-ten integer rendered as fixed point with one fractional digit.
pub open spec fn render_fixed(v: int) -> Seq<u8> {
    if v < 0 {
        seq![45u8] + dec_digits((-v) / 10) + seq![46u8] + seq![(48 + (-v) % 10) as u8]
    } else {
        dec_digits(v / 10) + seq![46u8] + seq![(48 + v % 10) as u8]
    }
}

/// The mean of an aggregate, scaled by ten and rounded half away from zero
/// to the nearest integer, in exact integer arithmetic.
pub open spec fn avg_of(r: RecordModel) -> int {
    if r.sum >= 0 {
        (2 * r.sum + r.count) / (2 * r.count)
    } else {
        -((2 * (-r.sum) + r.count) / (2 * r.count))
    }
}

/// `min/avg/max` for one aggregate.
pub open spec fn render_stats(r: RecordModel) -> Seq<u8> {
    render_fixed(r.min) + seq![47u8] + render_fixed(avg_of(r)) + seq![47u8] + render_fixed(r.max)
}

/// `key=min/avg/max` for one aggregate.
pub open spec fn render_entry(r: RecordModel) -> Seq<u8> {
    r.key + seq![61u8] + render_stats(r)
}

/// The first `i` entries rendered, each followed by `", "` except the last
/// entry of the whole sequence.
pub open spec fn entries_prefix(s: Seq<RecordModel>, i: int) -> Seq<u8>
    decreases i,
{
    if i <= 0 {
        Seq::empty()
    } else {
        entries_prefix(s, i - 1) + render_entry(s[i - 1]) + (if i < s.len() {
            seq![44u8, 32u8]
        } else {
            Seq::empty()
        })
    }
}

/// The full summary: the entries joined by `", "`, wrapped in braces, with a
/// trailing line feed.
pub open spec fn render_all(s: Seq<RecordModel>) -> Seq<u8> {
    seq![123u8] + entries_prefix(s, s.len() as int) + seq![125u8, 10u8]
}

pub open spec fn sorted_strict(s: Seq<RecordModel>) -> bool {
    forall|i: int, j: int| 0 <= i < j < s.len() ==> lex_lt(#[trigger] s[i].key, #[trigger] s[j].key)
}

/// `s` lists exactly the entries of `m`, in strictly increasing key order.
pub open spec fn is_canonical(s: Seq<RecordModel>, m: Map<Seq<u8>, RecordModel>) -> bool {
    &&& sorted_strict(s)
    &&& forall|i: int| 0 <= i < s.len() ==> m.contains_pair(#[trigger] s[i].key, s[i])
    &&& forall|k: Seq<u8>|
        m.dom().contains(k) ==> exists|i: int| 0 <= i < s.len() && (#[trigger] s[i]).key == k
}

/// The one sorted listing of a final table.
pub open spec fn canon(m: Map<Seq<u8>, RecordModel>) -> Seq<RecordModel> {
    choose|s: Seq<RecordModel>| is_canonical(s, m)
}

/// A final table has at most one sorted listing, so `canon` names it.
pub proof fn lemma_canonical_unique(
    s1: Seq<RecordModel>,
    s2: Seq<RecordModel>,
    m: Map<Seq<u8>, RecordModel>,
)
    requires
        is_canonical(s1, m),
        is_canonical(s2, m),
    ensures
        s1 == s2,
    decreases s1.len(),
{
    if s1.len() == 0 {
        if s2.len() > 0 {
            assert(m.contains_pair(s2[0].key, s2[0]));
            assert(exists|i: int| 0 <= i < s1.len() && (#[trigger] s1[i]).key == s2[0].key);
            assert(false);
        }
        assert(s1 =~= s2);
    } else {
        assert(m.contains_pair(s1[0].key, s1[0]));
        assert(s2.len() > 0) by {
            assert(exists|i: int| 0 <= i < s2.len() && (#[trigger] s2[i]).key == s1[0].key);
        }
        assert(m.contains_pair(s2[0].key, s2[0]));
        let k1 = s1[0].key;
        let k2 = s2[0].key;
        if k1 != k2 {
            let i2 = choose|i: int| 0 <= i < s1.len() && (#[trigger] s1[i]).key == k2;
            assert(i2 > 0);
            assert(lex_lt(k1, k2));
            let i1 = choose|i: int| 0 <= i < s2.len() && (#[trigger] s2[i]).key == k1;
            assert(i1 > 0);
            assert(lex_lt(k2, k1));
            lemma_lex_asym(k1, k2);
            assert(false);
        }
        assert(s1[0] == m[k1] && s2[0] == m[k1]);
        let m2 = m.remove(k1);
        let t1 = s1.subrange(1, s1.len() as int);
        let t2 = s2.subrange(1, s2.len() as int);
        assert forall|i: int| 0 <= i < t1.len() implies m2.contains_pair(
            (#[trigger] t1[i]).key,
            t1[i],
        ) by {
            assert(t1[i] == s1[i + 1]);
            assert(lex_lt(k1, s1[i + 1].key));
            if s1[i + 1].key == k1 {
                lemma_lex_irrefl(k1);
            }
        }
        assert forall|i: int| 0 <= i < t2.len() implies m2.contains_pair(
            (#[trigger] t2[i]).key,
            t2[i],
        ) by {
            assert(t2[i] == s2[i + 1]);
            assert(lex_lt(k1, s2[i + 1].key));
            if s2[i + 1].key == k1 {
                lemma_lex_irrefl(k1);
            }
        }
        assert forall|k: Seq<u8>| m2.dom().contains(k) implies exists|i: int|
            0 <= i < t1.len() && (#[trigger] t1[i]).key == k by {
            let i = choose|i: int| 0 <= i < s1.len() && (#[trigger] s1[i]).key == k;
            assert(i > 0) by {
                if i == 0 {
                    assert(k == k1);
                }
            }
            assert(t1[i - 1].key == k);
        }
        assert forall|k: Seq<u8>| m2.dom().contains(k) implies exists|i: int|
            0 <= i < t2.len() && (#[trigger] t2[i]).key == k by {
            let i = choose|i: int| 0 <= i < s2.len() && (#[trigger] s2[i]).key == k;
            assert(i > 0) by {
                if i == 0 {
                    assert(k == k1);
                }
            }
            assert(t2[i - 1].key == k);
        }
        assert(sorted_strict(t1)) by {
            assert(forall|i: int, j: int|
                0 <= i < j < t1.len() ==> t1[i] == s1[i + 1] && t1[j] == s1[j + 1]);
        }
        assert(sorted_strict(t2)) by {
            assert(forall|i: int, j: int|
                0 <= i < j < t2.len() ==> t2[i] == s2[i + 1] && t2[j] == s2[j + 1]);
        }
        lemma_canonical_unique(t1, t2, m2);
        assert forall|i: int| 0 <= i < s1.len() implies s1[i] == s2[i] by {
            if i > 0 {
                assert(s1[i] == t1[i - 1]);
                assert(s2[i] == t2[i - 1]);
            }
        }
        assert(s1 =~= s2);
    }
}

/// The input with at most one trailing line feed removed.
pub open spec fn stripped(s: Seq<u8>) -> Seq<u8> {
    if s.len() > 0 && s.last() == NL {
        s.subrange(0, s.len() - 1)
    } else {
        s
    }
}

/// The per-fingerprint table of a whole input buffer.
pub open spec fn scan_of(s: Seq<u8>) -> Result<Map<u64, RecordModel>, AggError> {
    scan_lines(lines_of(stripped(s)))
}

/// The rendered summary of a whole input buffer, defined when `scan_of` is
/// `Ok`.
pub open spec fn output_of(s: Seq<u8>) -> Seq<u8> {
    match scan_of(s) {
        Ok(m) => render_all(canon(to_keyed(m))),
        Err(_) => Seq::empty(),
    }
}

} // verus!
