//! A system-wide flight recorder with a self-describing on-disk format.

pub mod buf;
pub mod calendar;
pub mod cli;
pub mod convert;
pub mod convert_laws;
pub mod cpu;
pub mod decode;
pub mod decode_laws;
pub mod derive;
pub mod derive_laws;
pub mod event;
pub mod fit_laws;
pub mod format;
pub mod global;
pub mod host_laws;
pub mod id;
pub mod id_laws;
pub mod inspect;
pub mod intern;
pub mod kept_laws;
pub mod layout_laws;
pub mod le;
pub mod load_laws;
pub mod lookup;
pub mod merge;
pub mod merge_laws;
pub mod model;
pub mod order;
pub mod origin_laws;
pub mod parse;
pub mod record;
pub mod recorder;
pub mod recorder_laws;
pub mod registry;
pub mod reload;
pub mod render_laws;
pub mod ring;
pub mod ring_laws;
pub mod schema;
pub mod settings_laws;
pub mod span;
pub mod splice_laws;
pub mod stamp_laws;
pub mod stream;
pub mod stream_laws;
pub mod summary_laws;
pub mod table_laws;
pub mod text;
pub mod trace;
pub mod trace_laws;
pub mod view_laws;
pub mod views;
pub mod wire;
pub mod wire_laws;

pub use event::{Event, EventEnum, FieldTy};
pub use id::EventId;
pub use schema::{EnumLabel, EventSchema, FieldRole, FieldSchema, FieldType, Phase};
