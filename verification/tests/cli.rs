//! What the command line tool decides and reports.

use backbeat::cli::{
    convert_report, load_error_message, merge_report, resolve_format, Format, UnknownFormat,
};
use backbeat::model::LoadError;
use backbeat::wire::Error;

#[test]
fn formats_follow_the_flag_then_the_extension() {
    assert_eq!(resolve_format(None, Some("parquet")), Ok(Format::Parquet));
    assert_eq!(resolve_format(None, Some("json")), Ok(Format::Trace));
    assert_eq!(
        resolve_format(Some(Format::Trace), Some("parquet")),
        Ok(Format::Trace)
    );
    assert_eq!(resolve_format(None, Some("csv")), Err(UnknownFormat));
    assert_eq!(resolve_format(None, None), Err(UnknownFormat));
    assert!(UnknownFormat
        .message()
        .starts_with("cannot infer output format"));
    assert_eq!(Format::Parquet.extension(), "parquet");
    assert_eq!(Format::Trace.extension(), "json");
}

#[test]
fn reports_name_counts_and_outputs() {
    assert_eq!(
        convert_report(6, Format::Parquet, 2, "out.parquet"),
        "wrote 6 rows from 2 dump(s) to out.parquet"
    );
    assert_eq!(
        convert_report(10, Format::Trace, 1, "t.json"),
        "wrote 10 events from 1 dump(s) to t.json"
    );
    assert_eq!(
        merge_report(true, 3, "all.bb", 4),
        "merged 3 dump(s) into all.bb (4 event schema(s))"
    );
    assert_eq!(
        merge_report(false, 3, "all.bb", 4),
        "spliced 3 dump(s) into all.bb (4 event schema(s))"
    );
}

#[test]
fn load_errors_are_explained() {
    assert_eq!(
        load_error_message(LoadError::Decode(Error::BadMagic)),
        "bad magic: not a backbeat dump"
    );
    assert_eq!(
        load_error_message(LoadError::ShardTooLarge(5_000_000_000)),
        "shard region of 5000000000 bytes exceeds the 4 GiB this reader supports"
    );
}
