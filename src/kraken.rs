//! The two line formats of the classifier: the per-read output (five
//! tab-separated fields) and the hierarchical report (six fields, the last one
//! indented by two spaces per level).
use crate::text::{
    chars_of, count_leading_spaces, field_i32, field_is_float, i32_text, is_float_text,
    leading_spaces, split_fields, split_on, trim,
};
use vstd::prelude::*;
use vstd::utf8::encode_utf8;

verus! {

/// One line of the classifier's per-read output.
#[derive(Debug, Clone)]
pub struct KrakenRecord {
    pub is_classified: bool,
    pub read_id: Vec<u8>,
    pub taxon_id: i32,
    pub length: String,
    pub lca_map: String,
}

/// Why a line of the per-read output was refused.
#[derive(Debug, Clone, Copy, PartialEq, Eq, Structural)]
pub enum OutputLineError {
    /// The line holds this many fields instead of five.
    FieldCount(usize),
    /// The taxon ID field is not an `i32`.
    InvalidTaxonId,
}

/// One line of the hierarchical report. The percentage is kept as the text
/// that the line holds; it is checked to be a number.
#[derive(Debug, Clone)]
pub struct KrakenReportRecord {
    pub percent: String,
    pub fragments_clade_rooted: i32,
    pub fragments_taxon: i32,
    pub rank: String,
    pub taxon_id: i32,
    pub level: usize,
    pub name: String,
}

/// Why a line of the report was refused.
#[derive(Debug, Clone, Copy, PartialEq, Eq, Structural)]
pub enum ReportLineError {
    /// The line holds this many fields instead of six.
    FieldCount(usize),
    InvalidPercent,
    InvalidFragmentsCladeRooted,
    InvalidFragmentsTaxon,
    InvalidTaxonId,
}

pub open spec fn fields(line: Seq<char>) -> Seq<Seq<char>> {
    split_on(line, '\t')
}

/// The error that a per-read output line gives, if any.
pub open spec fn output_line_error(line: Seq<char>) -> Option<OutputLineError> {
    let f = fields(line);
    if f.len() != 5 {
        Some(OutputLineError::FieldCount(f.len() as usize))
    } else if i32_text(trim(f[2])) is None {
        Some(OutputLineError::InvalidTaxonId)
    } else {
        None
    }
}

/// The read ID of a well-formed output line, as bytes.
pub open spec fn output_read_id(line: Seq<char>) -> Seq<u8> {
    encode_utf8(fields(line)[1])
}

/// The taxon ID of a well-formed output line.
pub open spec fn output_taxon(line: Seq<char>) -> i32 {
    i32_text(trim(fields(line)[2]))->0
}

/// The error that a report line gives, if any.
pub open spec fn report_line_error(line: Seq<char>) -> Option<ReportLineError> {
    let f = fields(line);
    if f.len() != 6 {
        Some(ReportLineError::FieldCount(f.len() as usize))
    } else if !is_float_text(trim(f[0])) {
        Some(ReportLineError::InvalidPercent)
    } else if i32_text(trim(f[1])) is None {
        Some(ReportLineError::InvalidFragmentsCladeRooted)
    } else if i32_text(trim(f[2])) is None {
        Some(ReportLineError::InvalidFragmentsTaxon)
    } else if i32_text(trim(f[4])) is None {
        Some(ReportLineError::InvalidTaxonId)
    } else {
        None
    }
}

/// The taxon ID of a well-formed report line.
pub open spec fn report_taxon(line: Seq<char>) -> i32 {
    i32_text(trim(fields(line)[4]))->0
}

/// The depth of a well-formed report line: half the spaces that open its name.
pub open spec fn report_level(line: Seq<char>) -> nat {
    leading_spaces(fields(line)[5]) / 2
}

/// Parses one line of the per-read output.
pub fn process_kraken_output_line(kraken_output: &str) -> (r: Result<KrakenRecord, OutputLineError>)
    ensures
        match r {
            Ok(rec) => {
                let f = fields(kraken_output@);
                &&& output_line_error(kraken_output@) is None
                &&& rec.is_classified == (f[0] == seq!['C'])
                &&& rec.read_id@ == output_read_id(kraken_output@)
                &&& rec.taxon_id == output_taxon(kraken_output@)
                &&& rec.length@ == f[3]
                &&& rec.lca_map@ == f[4]
            },
            Err(e) => output_line_error(kraken_output@) == Some(e),
        },
{
    let f = split_fields(kraken_output, '\t');
    if f.len() != 5 {
        return Err(OutputLineError::FieldCount(f.len()));
    }
    let taxon_id = match field_i32(f[2]) {
        Some(t) => t,
        None => {
            return Err(OutputLineError::InvalidTaxonId);
        },
    };
    let classification = chars_of(f[0]);
    let is_classified = classification.len() == 1 && classification[0] == 'C';
    proof {
        if is_classified {
            assert(classification@ == seq!['C']);
        }
    }
    Ok(
        KrakenRecord {
            is_classified,
            read_id: vstd::slice::slice_to_vec(f[1].as_bytes()),
            taxon_id,
            length: f[3].to_owned(),
            lca_map: f[4].to_owned(),
        },
    )
}

/// Parses one line of the report.
pub fn process_kraken_report_line(kraken_report: &str) -> (r: Result<
    KrakenReportRecord,
    ReportLineError,
>)
    ensures
        match r {
            Ok(rec) => {
                let f = fields(kraken_report@);
                &&& report_line_error(kraken_report@) is None
                &&& rec.percent@ == f[0]
                &&& Some(rec.fragments_clade_rooted) == i32_text(trim(f[1]))
                &&& Some(rec.fragments_taxon) == i32_text(trim(f[2]))
                &&& rec.rank@ == f[3]
                &&& rec.taxon_id == report_taxon(kraken_report@)
                &&& rec.level == report_level(kraken_report@)
                &&& rec.name@ == f[5]
            },
            Err(e) => report_line_error(kraken_report@) == Some(e),
        },
{
    let f = split_fields(kraken_report, '\t');
    if f.len() != 6 {
        return Err(ReportLineError::FieldCount(f.len()));
    }
    if !field_is_float(f[0]) {
        return Err(ReportLineError::InvalidPercent);
    }
    let fragments_clade_rooted = match field_i32(f[1]) {
        Some(v) => v,
        None => {
            return Err(ReportLineError::InvalidFragmentsCladeRooted);
        },
    };
    let fragments_taxon = match field_i32(f[2]) {
        Some(v) => v,
        None => {
            return Err(ReportLineError::InvalidFragmentsTaxon);
        },
    };
    let taxon_id = match field_i32(f[4]) {
        Some(v) => v,
        None => {
            return Err(ReportLineError::InvalidTaxonId);
        },
    };
    let level = count_leading_spaces(f[5]) / 2;
    Ok(
        KrakenReportRecord {
            percent: f[0].to_owned(),
            fragments_clade_rooted,
            fragments_taxon,
            rank: f[3].to_owned(),
            taxon_id,
            level,
            name: f[5].to_owned(),
        },
    )
}

} // verus!
