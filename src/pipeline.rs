//! The decisions of the extraction pipeline: which records a reader forwards,
//! how a writer encodes and compresses, and whether one or two pairs of files
//! are processed. The reading, writing and threads are the caller's.
use crate::membership::{contains_read, read_ids};
use crate::text::{chars_of, i32_text, parse_i32};
use fxhash::FxHashSet;
use vstd::prelude::*;

verus! {

/// A compression format of a sequence file.
#[derive(Debug, Clone, Copy, PartialEq, Eq, Structural)]
pub enum Compression {
    Gzip,
    Bzip2,
    Zstd,
    Lzma,
    Uncompressed,
}

/// How a writer encodes the records it receives.
#[derive(Debug, Clone, Copy, PartialEq, Eq, Structural)]
pub enum OutputFormat {
    /// FASTQ, compressed as given.
    Fastq(Compression),
    /// FASTA (name and sequence only), uncompressed.
    Fasta,
}

/// Whether one or two pairs of input and output files are processed.
#[derive(Debug, Clone, Copy, PartialEq, Eq, Structural)]
pub enum ExtractionMode {
    SingleEnd,
    PairedEnd,
}

/// Why the input and output files cannot be paired up.
#[derive(Debug, Clone, Copy, PartialEq, Eq, Structural)]
pub enum ModeError {
    /// The numbers of input and output files differ.
    CountMismatch { inputs: usize, outputs: usize },
    /// Only one or two files of each kind can be processed.
    UnsupportedCount(usize),
}

/// A command-line value that names no compression format or level.
#[derive(Debug, Clone, Copy, PartialEq, Eq, Structural)]
pub enum ValueError {
    UnknownCompressionFormat,
    UnknownCompressionLevel,
}

/// The compression that a file name extension calls for.
pub open spec fn compression_of_extension(ext: Option<Seq<char>>) -> Compression {
    match ext {
        Some(e) => if e == seq!['g', 'z'] {
            Compression::Gzip
        } else if e == seq!['b', 'z', '2'] {
            Compression::Bzip2
        } else {
            Compression::Uncompressed
        },
        None => Compression::Uncompressed,
    }
}

/// A path that every platform splits at `/` alone: it holds no `\\` or `:`
/// and does not begin with `//` (where some platforms read a prefix).
pub open spec fn is_plain_path(path: Seq<char>) -> bool {
    &&& !path.contains('\\')
    &&& !path.contains(':')
    &&& !(path.len() >= 2 && path[0] == '/' && path[1] == '/')
}

/// `path` without the trailing `/` and `/.` pieces, which name no component.
pub open spec fn strip_path_end(path: Seq<char>) -> Seq<char>
    decreases path.len(),
{
    if path.len() > 0 && path.last() == '/' {
        strip_path_end(path.drop_last())
    } else if path.len() >= 2 && path.last() == '.' && path[path.len() - 2] == '/' {
        strip_path_end(path.drop_last())
    } else {
        path
    }
}

/// The text after the last `/` of `path`.
pub open spec fn last_segment(path: Seq<char>) -> Seq<char>
    decreases path.len(),
{
    if path.len() == 0 {
        path
    } else if path.last() == '/' {
        Seq::empty()
    } else {
        last_segment(path.drop_last()).push(path.last())
    }
}

/// The position of the last `.` in `s`, or -1.
pub open spec fn last_dot(s: Seq<char>) -> int
    decreases s.len(),
{
    if s.len() == 0 {
        -1
    } else if s.last() == '.' {
        s.len() - 1
    } else {
        last_dot(s.drop_last())
    }
}

/// The extension of a plain path as `Path::extension` documents it: the file
/// name is the last component (none for `.`, `..` or an empty one), and its
/// extension is the text after its last `.`, none where it has no `.` or
/// where its only `.` opens it.
pub open spec fn plain_extension(path: Seq<char>) -> Option<Seq<char>> {
    let name = last_segment(strip_path_end(path));
    let k = last_dot(name);
    if name == seq!['.', '.'] || k <= 0 {
        None
    } else {
        Some(name.skip(k + 1))
    }
}

/// Relies on `Path::extension`: the part of the file name after its last `.`,
/// which holds no `.`; none where the path holds no `.` at all; on a plain
/// path, exactly `plain_extension`.
#[verifier::external_body]
fn path_extension(path: &str) -> (r: Option<&str>)
    ensures
        !path@.contains('.') ==> r is None,
        r matches Some(e) ==> !e@.contains('.'),
        is_plain_path(path@) ==> match r {
            Some(e) => plain_extension(path@) == Some(e@),
            None => plain_extension(path@) is None,
        },
{
    std::path::Path::new(path).extension().and_then(|e| e.to_str())
}

fn same_text(cs: &Vec<char>, word: &Vec<char>) -> (r: bool)
    ensures
        r == (cs@ == word@),
{
    if cs.len() != word.len() {
        return false;
    }
    let mut k: usize = 0;
    while k < cs.len()
        invariant
            cs@.len() == word@.len(),
            k <= cs@.len(),
            forall|j: int| 0 <= j < k ==> cs@[j] == word@[j],
        decreases cs@.len() - k,
    {
        if cs[k] != word[k] {
            return false;
        }
        k = k + 1;
    }
    proof {
        assert(cs@ == word@);
    }
    true
}

/// The compression that a file name extension calls for: `gz` gzip, `bz2`
/// bzip2, anything else (or none) none.
pub fn compression_for_extension(ext: Option<&str>) -> (r: Compression)
    ensures
        r == compression_of_extension(
            match ext {
                Some(e) => Some(e@),
                None => None,
            },
        ),
{
    match ext {
        Some(e) => {
            let cs = chars_of(e);
            if same_text(&cs, &vec!['g', 'z']) {
                Compression::Gzip
            } else if same_text(&cs, &vec!['b', 'z', '2']) {
                Compression::Bzip2
            } else {
                Compression::Uncompressed
            }
        },
        None => Compression::Uncompressed,
    }
}

/// The compression that the extension of `file_path` calls for.
pub fn infer_compression(file_path: &str) -> (r: Compression)
    ensures
        r == Compression::Gzip || r == Compression::Bzip2 || r == Compression::Uncompressed,
        !file_path@.contains('.') ==> r == Compression::Uncompressed,
        is_plain_path(file_path@) ==> r == compression_of_extension(plain_extension(file_path@)),
{
    compression_for_extension(path_extension(file_path))
}

/// The compression of a FASTQ output: the one given explicitly, else the one
/// that the file's extension calls for.
pub fn output_compression(output_type: Option<Compression>, file_path: &str) -> (r: Compression)
    ensures
        output_type matches Some(c) ==> r == c,
        output_type is None ==> (r == Compression::Gzip || r == Compression::Bzip2 || r
            == Compression::Uncompressed) && (!file_path@.contains('.') ==> r
            == Compression::Uncompressed),
        output_type is None && is_plain_path(file_path@) ==> r == compression_of_extension(
            plain_extension(file_path@),
        ),
{
    match output_type {
        Some(c) => c,
        None => infer_compression(file_path),
    }
}

/// How the writer of `file_path` encodes: FASTA uncompressed, or FASTQ with
/// the compression that `output_compression` picks.
pub fn writer_format(fasta: bool, output_type: Option<Compression>, file_path: &str) -> (r:
    OutputFormat)
    ensures
        fasta ==> r == OutputFormat::Fasta,
        !fasta && output_type is Some ==> r == OutputFormat::Fastq(output_type->0),
        !fasta && output_type is None ==> r is Fastq,
        !fasta && output_type is None && is_plain_path(file_path@) ==> r == OutputFormat::Fastq(
            compression_of_extension(plain_extension(file_path@)),
        ),
{
    if fasta {
        OutputFormat::Fasta
    } else {
        OutputFormat::Fastq(output_compression(output_type, file_path))
    }
}

/// Reads a compression format name: `gz`, `bz2` or `none`.
pub fn validate_compression(s: &str) -> (r: Result<Compression, ValueError>)
    ensures
        s@ == seq!['g', 'z'] ==> r == Ok::<Compression, ValueError>(Compression::Gzip),
        s@ == seq!['b', 'z', '2'] ==> r == Ok::<Compression, ValueError>(Compression::Bzip2),
        s@ == seq!['n', 'o', 'n', 'e'] ==> r == Ok::<Compression, ValueError>(
            Compression::Uncompressed,
        ),
        s@ != seq!['g', 'z'] && s@ != seq!['b', 'z', '2'] && s@ != seq!['n', 'o', 'n', 'e'] ==> r
            == Err::<Compression, ValueError>(ValueError::UnknownCompressionFormat),
{
    let cs = chars_of(s);
    if same_text(&cs, &vec!['g', 'z']) {
        Ok(Compression::Gzip)
    } else if same_text(&cs, &vec!['b', 'z', '2']) {
        Ok(Compression::Bzip2)
    } else if same_text(&cs, &vec!['n', 'o', 'n', 'e']) {
        Ok(Compression::Uncompressed)
    } else {
        Err(ValueError::UnknownCompressionFormat)
    }
}

/// Reads a compression level: an integer from 1 to 9.
pub fn validate_compression_level(s: &str) -> (r: Result<u32, ValueError>)
    ensures
        match i32_text(s@) {
            Some(v) => if 1 <= v <= 9 {
                r == Ok::<u32, ValueError>(v as u32)
            } else {
                r == Err::<u32, ValueError>(ValueError::UnknownCompressionLevel)
            },
            None => r == Err::<u32, ValueError>(ValueError::UnknownCompressionLevel),
        },
{
    let cs = chars_of(s);
    proof {
        assert(cs@.subrange(0, cs@.len() as int) == cs@);
    }
    match parse_i32(&cs, 0, cs.len()) {
        Some(v) => if 1 <= v && v <= 9 {
            Ok(v as u32)
        } else {
            Err(ValueError::UnknownCompressionLevel)
        },
        None => Err(ValueError::UnknownCompressionLevel),
    }
}

/// Pairs up the input and output files: one of each for single-end reads,
/// two of each for paired-end reads.
pub fn extraction_mode(inputs: usize, outputs: usize) -> (r: Result<ExtractionMode, ModeError>)
    ensures
        inputs != outputs ==> r == Err::<ExtractionMode, ModeError>(
            ModeError::CountMismatch { inputs, outputs },
        ),
        inputs == outputs && inputs == 1 ==> r == Ok::<ExtractionMode, ModeError>(
            ExtractionMode::SingleEnd,
        ),
        inputs == outputs && inputs == 2 ==> r == Ok::<ExtractionMode, ModeError>(
            ExtractionMode::PairedEnd,
        ),
        inputs == outputs && inputs != 1 && inputs != 2 ==> r == Err::<ExtractionMode, ModeError>(
            ModeError::UnsupportedCount(inputs),
        ),
{
    if inputs != outputs {
        Err(ModeError::CountMismatch { inputs, outputs })
    } else if inputs == 1 {
        Ok(ExtractionMode::SingleEnd)
    } else if inputs == 2 {
        Ok(ExtractionMode::PairedEnd)
    } else {
        Err(ModeError::UnsupportedCount(inputs))
    }
}

/// What a reader has seen: the records it scanned and those it forwarded.
#[derive(Debug, Clone, Copy, PartialEq, Eq, Structural)]
pub struct ReadFilter {
    pub scanned: usize,
    pub forwarded: usize,
}

impl ReadFilter {
    pub fn new() -> (r: ReadFilter)
        ensures
            r.scanned == 0,
            r.forwarded == 0,
    {
        ReadFilter { scanned: 0, forwarded: 0 }
    }

    /// Counts one input record and tells whether to forward it to the writer:
    /// exactly when its name is in the membership set.
    pub fn on_record(&mut self, reads_to_save: &FxHashSet<Vec<u8>>, name: &[u8]) -> (r: bool)
        requires
            old(self).scanned < usize::MAX,
            old(self).forwarded <= old(self).scanned,
        ensures
            r == read_ids(*reads_to_save).contains(name@),
            final(self).scanned == old(self).scanned + 1,
            final(self).forwarded == old(self).forwarded + if r {
                1int
            } else {
                0int
            },
            final(self).forwarded <= final(self).scanned,
    {
        let keep = contains_read(reads_to_save, name);
        self.scanned = self.scanned + 1;
        if keep {
            self.forwarded = self.forwarded + 1;
        }
        keep
    }
}

} // verus!
