//! Scanning one chunk of records into a per-worker partial table.
use crate::decode::parse_temperature;
use crate::model::{
    lemma_find_byte, lemma_find_byte_is_first, lemma_parse_line_len, lemma_scan_prefix_err,
    lemma_scan_push, lemma_scan_wf, lines_of, parse_line, rm_wf, scan_err, scan_lines, AggError, SEMI,
};
use crate::outside::{find_first, fingerprint, fp_entries, new_table, table_upsert, PartialTable};
use crate::rows::Rows;
use vstd::prelude::*;
use vstd::slice::{slice_subrange, slice_to_vec};

verus! {

/// Scan every record of `chunk` into a fresh partial table, aborting at the
/// first malformed record.
pub fn scan_chunk(chunk: &[u8]) -> (r: Result<PartialTable, AggError>)
    ensures
        match r {
            Ok(t) => scan_lines(lines_of(chunk@)) == crate::model::scan_ok(fp_entries(t)),
            Err(e) => scan_lines(lines_of(chunk@)) == scan_err(e),
        },
{
    let chunk_len = chunk.len();
    let mut table = new_table();
    let mut rows = Rows::new(chunk);
    let ghost mut processed: Seq<Seq<u8>> = Seq::empty();
    proof {
        assert(lines_of(chunk@) =~= processed + lines_of(rows.remaining()));
        assert(processed =~= processed.subrange(0, processed.len() as int));
    }
    loop
        invariant
            rows.wf(),
            rows.buf() == chunk@,
            lines_of(chunk@) == processed + lines_of(rows.remaining()),
            scan_lines(processed) == crate::model::scan_ok(fp_entries(table)),
            4 * processed.len() <= rows.cursor() <= chunk@.len(),
            chunk@.len() == chunk_len,
        ensures
            scan_lines(lines_of(chunk@)) == crate::model::scan_ok(fp_entries(table)),
        decreases rows.remaining().len(),
    {
        let ghost rem = rows.remaining();
        match rows.next() {
            None => {
                proof {
                    assert(lines_of(rem) =~= Seq::<Seq<u8>>::empty());
                    assert(lines_of(chunk@) =~= processed);
                }
                break ;
            },
            Some(line) => {
                let ghost rest_lines = lines_of(rows.remaining());
                proof {
                    assert(lines_of(chunk@) =~= (processed + seq![line@]) + rest_lines);
                    lemma_scan_push(processed, line@);
                }
                match find_first(SEMI, line) {
                    None => {
                        proof {
                            lemma_find_byte(line@, SEMI);
                            assert(parse_line(line@) == Result::<(Seq<u8>, int), AggError>::Err(
                                AggError::MissingSeparator,
                            ));
                            lemma_scan_prefix_err(
                                processed + seq![line@],
                                rest_lines,
                                AggError::MissingSeparator,
                            );
                        }
                        return Err(AggError::MissingSeparator);
                    },
                    Some(sep) => {
                        proof {
                            lemma_find_byte_is_first(line@, SEMI, sep as int);
                        }
                        let linelen = line.len();
                        let city = slice_subrange(line, 0, sep);
                        let field = slice_subrange(line, sep + 1, linelen);
                        match parse_temperature(field) {
                            None => {
                                proof {
                                    lemma_scan_prefix_err(
                                        processed + seq![line@],
                                        rest_lines,
                                        AggError::MalformedValue,
                                    );
                                }
                                return Err(AggError::MalformedValue);
                            },
                            Some(value) => {
                                let fp = fingerprint(city);
                                proof {
                                    lemma_scan_wf(processed);
                                    lemma_parse_line_len(line@);
                                    assert(4 * processed.len() <= usize::MAX as int);
                                    let m = fp_entries(table);
                                    if m.dom().contains(fp) {
                                        assert(rm_wf(m[fp]) && m[fp].count <= processed.len());
                                    }
                                }
                                table_upsert(&mut table, fp, slice_to_vec(city), value);
                                proof {
                                    processed = processed + seq![line@];
                                    lemma_scan_wf(processed);
                                }
                            },
                        }
                    },
                }
            },
        }
    }
    Ok(table)
}

} // verus!
