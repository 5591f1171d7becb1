//! What the command line tool decides and reports.

use crate::id::opt_chars;
use crate::model::LoadError;
use crate::text::{dec_text, push_dec, same_text};
use vstd::prelude::*;

verus! {

/// The output format of a conversion.
#[derive(Clone, Copy, Debug, PartialEq, Eq, Structural)]
pub enum Format {
    /// Sparse-wide Apache Parquet.
    Parquet,
    /// Chrome / Perfetto trace-event JSON.
    Trace,
}

/// The output format cannot be inferred.
#[derive(Clone, Copy, Debug, PartialEq, Eq, Structural)]
pub struct UnknownFormat;

impl UnknownFormat {
    /// What the error says.
    pub fn message(self) -> (s: &'static str)
        ensures
            s@
                == "cannot infer output format; pass --format parquet|trace (or use a .parquet / .json output path)"@,
    {
        "cannot infer output format; pass --format parquet|trace (or use a .parquet / .json output path)"
    }
}

/// The format that an explicit flag or the output path's extension gives: the flag decides where
/// there is one.
pub open spec fn format_of(flag: Option<Format>, extension: Option<Seq<char>>) -> Option<Format> {
    match flag {
        Some(f) => Some(f),
        None => match extension {
            Some(e) => if e == "parquet"@ {
                Some(Format::Parquet)
            } else if e == "json"@ {
                Some(Format::Trace)
            } else {
                None
            },
            None => None,
        },
    }
}

/// Infers the output format from an explicit flag or the output path's extension.
pub fn resolve_format(flag: Option<Format>, extension: Option<&str>) -> (r: Result<
    Format,
    UnknownFormat,
>)
    ensures
        match format_of(flag, opt_chars(extension)) {
            Some(f) => r == Ok::<Format, UnknownFormat>(f),
            None => r is Err,
        },
{
    match flag {
        Some(f) => Ok(f),
        None => match extension {
            Some(e) => if same_text(e, "parquet") {
                Ok(Format::Parquet)
            } else if same_text(e, "json") {
                Ok(Format::Trace)
            } else {
                Err(UnknownFormat)
            },
            None => Err(UnknownFormat),
        },
    }
}

impl Format {
    /// The extension of a file in the format.
    pub fn extension(self) -> (s: &'static str)
        ensures
            s@ == match self {
                Format::Parquet => "parquet"@,
                Format::Trace => "json"@,
            },
            format_of(None, Some(s@)) == Some(self),
    {
        proof {
            reveal_strlit("parquet");
            reveal_strlit("json");
        }
        match self {
            Format::Parquet => "parquet",
            Format::Trace => {
                assert("json"@.len() != "parquet"@.len());
                "json"
            },
        }
    }

    /// What a conversion to the format counts.
    pub fn unit(self) -> (s: &'static str)
        ensures
            s@ == match self {
                Format::Parquet => "rows"@,
                Format::Trace => "events"@,
            },
    {
        match self {
            Format::Parquet => "rows",
            Format::Trace => "events",
        }
    }
}

/// What a conversion reports.
pub fn convert_report(count: usize, format: Format, dumps: usize, output: &str) -> (s: String)
    ensures
        s@ == "wrote "@ + dec_text(count as nat) + " "@ + (match format {
            Format::Parquet => "rows"@,
            Format::Trace => "events"@,
        }) + " from "@ + dec_text(dumps as nat) + " dump(s) to "@ + output@,
{
    let mut s = "wrote ".to_string();
    push_dec(&mut s, count as u64);
    s.append(" ");
    s.append(format.unit());
    s.append(" from ");
    push_dec(&mut s, dumps as u64);
    s.append(" dump(s) to ");
    s.append(output);
    s
}

/// What a merge reports.
pub fn merge_report(dedup: bool, dumps: usize, output: &str, schemas: usize) -> (s: String)
    ensures
        s@ == (if dedup {
            "merged"@
        } else {
            "spliced"@
        }) + " "@ + dec_text(dumps as nat) + " dump(s) into "@ + output@ + " ("@ + dec_text(
            schemas as nat,
        ) + " event schema(s))"@,
{
    let mut s = if dedup {
        "merged".to_string()
    } else {
        "spliced".to_string()
    };
    s.append(" ");
    push_dec(&mut s, dumps as u64);
    s.append(" dump(s) into ");
    s.append(output);
    s.append(" (");
    push_dec(&mut s, schemas as u64);
    s.append(" event schema(s))");
    s
}

/// What a dump that cannot be loaded is reported as.
pub fn load_error_message(e: LoadError) -> (s: String)
    ensures
        s@ == match e {
            LoadError::Decode(e) => e.text(),
            LoadError::ShardTooLarge(n) => "shard region of "@ + dec_text(n as nat)
                + " bytes exceeds the 4 GiB this reader supports"@,
        },
{
    match e {
        LoadError::Decode(e) => e.message(),
        LoadError::ShardTooLarge(n) => {
            let mut s = "shard region of ".to_string();
            push_dec(&mut s, n);
            s.append(" bytes exceeds the 4 GiB this reader supports");
            s
        },
    }
}

} // verus!
