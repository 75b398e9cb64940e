//! The interval record's text encoding: one record per line, nine
//! space-separated fields, the alleles joined with a per-stage separator.

use vstd::prelude::*;

use crate::record::{dedup_strings, seq_views, Line};
use crate::severity::SeverityTable;
use crate::textio::{
    dec_repr,
    join_strings,
    join_with,
    parse_u64,
    parse_u8,
    push_char,
    spec_parse_u64,
    spec_parse_u8,
    split_at,
    split_fields,
    u64_to_string,
};

verus! {

/// The nine fields of a record on one line, space-separated: chromosome,
/// start, end, id, variety, reference, joined alleles, group, severity.
pub open spec fn spec_encode(l: Line, alt_sep: char) -> Seq<char> {
    l.chromosome@ + seq![' '] + dec_repr(l.start as nat) + seq![' '] + dec_repr(l.end as nat)
        + seq![' '] + l.id@ + seq![' '] + l.variety@ + seq![' '] + l.reference@ + seq![' ']
        + join_with(l.alt_views(), alt_sep) + seq![' '] + dec_repr(l.group as nat) + seq![' ']
        + l.severity@
}

/// Why a record line does not decode.
#[derive(Clone, Copy, PartialEq, Eq, Structural, Debug)]
pub enum DecodeError {
    /// The line does not have exactly nine fields.
    FieldCount,
    /// A coordinate or group field is not a decimal number in range.
    Number,
    /// The severity term's rank in the table is not a decimal number.
    Rank,
}

impl Line {
    /// Encode the record as its one-line text form.
    pub fn encode(&self, alt_sep: char) -> (r: String)
        ensures
            r@ == spec_encode(*self, alt_sep),
    {
        let mut r = String::new();
        r.append(self.chromosome.as_str());
        push_char(&mut r, ' ');
        let start = u64_to_string(self.start);
        r.append(start.as_str());
        push_char(&mut r, ' ');
        let end = u64_to_string(self.end);
        r.append(end.as_str());
        push_char(&mut r, ' ');
        r.append(self.id.as_str());
        push_char(&mut r, ' ');
        r.append(self.variety.as_str());
        push_char(&mut r, ' ');
        r.append(self.reference.as_str());
        push_char(&mut r, ' ');
        let alts = join_strings(&self.alts, alt_sep);
        r.append(alts.as_str());
        push_char(&mut r, ' ');
        let group = u64_to_string(self.group as u64);
        r.append(group.as_str());
        push_char(&mut r, ' ');
        r.append(self.severity.as_str());
        proof {
            assert(r@ =~= spec_encode(*self, alt_sep));
        }
        r
    }

    /// Decode one text line into a record, looking the severity rank up in
    /// the table; the alleles are read from the given separator and
    /// deduplicated.  Errors: not exactly nine fields; a coordinate or
    /// group that is not a decimal number in range; a severity term whose
    /// table value is malformed.
    pub fn decode(s: &str, alt_sep: char, table: &SeverityTable) -> (r: Result<Line, DecodeError>)
        ensures
            ({
                let parts = split_at(s@, ' ');
                if parts.len() != 9 {
                    r == Err::<Line, DecodeError>(DecodeError::FieldCount)
                } else if spec_parse_u64(parts[1]) is None || spec_parse_u64(parts[2]) is None
                    || spec_parse_u8(parts[7]) is None {
                    r == Err::<Line, DecodeError>(DecodeError::Number)
                } else if table.spec_rank_of(parts[8]) is None {
                    r == Err::<Line, DecodeError>(DecodeError::Rank)
                } else {
                    match r {
                        Ok(l) => {
                            &&& l.wf()
                            &&& l@.chromosome == parts[0]
                            &&& l@.start == spec_parse_u64(parts[1]).unwrap()
                            &&& l@.end == spec_parse_u64(parts[2]).unwrap()
                            &&& l@.id == parts[3]
                            &&& l@.variety == parts[4]
                            &&& l@.reference == parts[5]
                            &&& l@.alts == split_at(parts[6], alt_sep).to_set()
                            &&& l@.group == spec_parse_u8(parts[7]).unwrap()
                            &&& l@.severity == parts[8]
                            &&& l@.severity_rank == table.spec_rank_of(parts[8]).unwrap()
                        },
                        Err(_) => false,
                    }
                }
            }),
    {
        let ghost pv = split_at(s@, ' ');
        let parts = split_fields(s, ' ');
        if parts.len() != 9 {
            return Err(DecodeError::FieldCount);
        }
        proof {
            assert(forall|k: int| 0 <= k < 9 ==> seq_views(parts@)[k] == #[trigger] pv[k]);
            assert(forall|k: int| 0 <= k < 9 ==> (#[trigger] parts@[k])@ == pv[k]);
        }
        let start = match parse_u64(parts[1].as_str()) {
            Some(v) => v,
            None => {
                return Err(DecodeError::Number);
            },
        };
        let end = match parse_u64(parts[2].as_str()) {
            Some(v) => v,
            None => {
                return Err(DecodeError::Number);
            },
        };
        let group = match parse_u8(parts[7].as_str()) {
            Some(v) => v,
            None => {
                return Err(DecodeError::Number);
            },
        };
        let rank = match table.rank_of(parts[8].as_str()) {
            Some(v) => v,
            None => {
                return Err(DecodeError::Rank);
            },
        };
        let raw_alts = split_fields(parts[6].as_str(), alt_sep);
        let alts = dedup_strings(&raw_alts);
        let l = Line {
            chromosome: parts[0].clone(),
            start,
            end,
            id: parts[3].clone(),
            variety: parts[4].clone(),
            reference: parts[5].clone(),
            alts,
            group,
            severity: parts[8].clone(),
            severity_rank: rank,
        };
        Ok(l)
    }
}

} // verus!
