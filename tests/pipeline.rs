use kractor::membership::process_kraken_output;
use kractor::pipeline::{
    compression_for_extension, extraction_mode, infer_compression, output_compression,
    validate_compression, validate_compression_level, writer_format, Compression, ExtractionMode,
    ModeError, OutputFormat, ReadFilter, ValueError,
};

#[test]
fn test_infer_compression_gzip() {
    let compression = infer_compression("test.gz");

    assert_eq!(compression, Compression::Gzip);
}

#[test]
fn test_infer_compression_bzip() {
    let compression = infer_compression("test.bz2");

    assert_eq!(compression, Compression::Bzip2);
}

#[test]
fn test_infer_compression_no_compression() {
    let compression = infer_compression("test.fastq");

    assert_eq!(compression, Compression::Uncompressed);
}

#[test]
fn infer_compression_reads_the_last_extension_only() {
    assert_eq!(infer_compression("dir/reads.fastq.gz"), Compression::Gzip);
    assert_eq!(infer_compression("dir.gz/reads"), Compression::Uncompressed);
    assert_eq!(infer_compression("reads"), Compression::Uncompressed);
    assert_eq!(infer_compression(".gz"), Compression::Uncompressed);
    assert_eq!(infer_compression("out.GZ"), Compression::Uncompressed);
}

#[test]
fn extension_table() {
    assert_eq!(compression_for_extension(Some("gz")), Compression::Gzip);
    assert_eq!(compression_for_extension(Some("bz2")), Compression::Bzip2);
    assert_eq!(compression_for_extension(Some("zst")), Compression::Uncompressed);
    assert_eq!(compression_for_extension(None), Compression::Uncompressed);
}

#[test]
fn explicit_compression_wins() {
    assert_eq!(
        output_compression(Some(Compression::Bzip2), "out.gz"),
        Compression::Bzip2
    );
    assert_eq!(output_compression(None, "out.gz"), Compression::Gzip);
    assert_eq!(writer_format(true, Some(Compression::Gzip), "o.gz"), OutputFormat::Fasta);
    assert_eq!(
        writer_format(false, None, "o.bz2"),
        OutputFormat::Fastq(Compression::Bzip2)
    );
}

#[test]
fn compression_values() {
    assert_eq!(validate_compression("gz"), Ok(Compression::Gzip));
    assert_eq!(validate_compression("bz2"), Ok(Compression::Bzip2));
    assert_eq!(validate_compression("none"), Ok(Compression::Uncompressed));
    assert_eq!(
        validate_compression("zstd"),
        Err(ValueError::UnknownCompressionFormat)
    );
    assert_eq!(validate_compression_level("1"), Ok(1));
    assert_eq!(validate_compression_level("9"), Ok(9));
    assert_eq!(validate_compression_level("+3"), Ok(3));
    for bad in ["0", "10", "-1", "", "two", " 2", "99999999999"] {
        assert_eq!(
            validate_compression_level(bad),
            Err(ValueError::UnknownCompressionLevel),
            "{bad}"
        );
    }
}

#[test]
fn files_pair_up() {
    assert_eq!(extraction_mode(1, 1), Ok(ExtractionMode::SingleEnd));
    assert_eq!(extraction_mode(2, 2), Ok(ExtractionMode::PairedEnd));
    assert_eq!(
        extraction_mode(2, 1),
        Err(ModeError::CountMismatch {
            inputs: 2,
            outputs: 1
        })
    );
    assert_eq!(extraction_mode(0, 0), Err(ModeError::UnsupportedCount(0)));
    assert_eq!(extraction_mode(3, 3), Err(ModeError::UnsupportedCount(3)));
}

#[test]
fn single_end_forwards_members_only() {
    let lines = vec!["C\tread1\t9\t4\tx".to_string(), "C\tread2\t8\t4\tx".to_string()];
    let membership = process_kraken_output(&lines, false, &[9]).unwrap();
    let mut filter = ReadFilter::new();
    let forwarded: Vec<&[u8]> = [b"read1".as_slice(), b"read2".as_slice()]
        .into_iter()
        .filter(|name| filter.on_record(&membership.reads_to_save, name))
        .collect();
    assert_eq!(forwarded, vec![b"read1".as_slice()]);
    assert_eq!(filter.scanned, 2);
    assert_eq!(filter.forwarded, 1);
}

#[test]
fn paired_end_mates_are_counted_apart() {
    let lines = vec!["C\tread1\t9\t4\tx".to_string(), "C\tread2\t8\t4\tx".to_string()];
    let membership = process_kraken_output(&lines, false, &[9]).unwrap();
    let mut first = ReadFilter::new();
    let mut second = ReadFilter::new();
    for name in [b"read1".as_slice(), b"read2".as_slice()] {
        first.on_record(&membership.reads_to_save, name);
    }
    for name in [b"read1".as_slice(), b"read2".as_slice(), b"read1".as_slice()] {
        second.on_record(&membership.reads_to_save, name);
    }
    assert_eq!((first.scanned, first.forwarded), (2, 1));
    assert_eq!((second.scanned, second.forwarded), (3, 2));
}

#[test]
fn infer_compression_follows_the_file_name() {
    assert_eq!(infer_compression("run.1/out"), Compression::Uncompressed);
    assert_eq!(infer_compression("dir/.gz"), Compression::Uncompressed);
    assert_eq!(infer_compression("dir/out.gz/"), Compression::Gzip);
    assert_eq!(infer_compression("dir/out.bz2/."), Compression::Bzip2);
    assert_eq!(infer_compression("dir/..gz"), Compression::Gzip);
    assert_eq!(infer_compression("out.gz/.."), Compression::Uncompressed);
    assert_eq!(infer_compression("out."), Compression::Uncompressed);
    assert_eq!(
        output_compression(None, "run.gz/out"),
        Compression::Uncompressed
    );
    assert_eq!(
        writer_format(false, None, "a/b.c.gz"),
        OutputFormat::Fastq(Compression::Gzip)
    );
}
