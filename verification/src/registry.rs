//! Registrations of the event types and the query DDL compiled into a program.

use crate::schema::EventSchema;
use vstd::prelude::*;

verus! {

/// One event type's registration.
pub struct Registration {
    /// The event's schema.
    pub schema: EventSchema,
}

impl Registration {
    /// Creates a registration for an event's schema.
    pub fn new(schema: EventSchema) -> (r: Self)
        ensures
            r.schema == schema,
    {
        Registration { schema }
    }
}

/// One registered set of query DDL: opaque SQL text describing how to query a program's events. It
/// travels with the dump.
pub struct ViewSet {
    /// The DDL text, stored and embedded verbatim.
    pub sql: &'static str,
}

impl ViewSet {
    /// Creates a view-set registration.
    pub fn new(sql: &'static str) -> (r: Self)
        ensures
            r.sql == sql,
    {
        ViewSet { sql }
    }
}

} // verus!
