//! Resolve-or-create against a store that enforces unique names: insert the
//! name, and when the store refuses it as a duplicate, look the row up instead.
use vstd::prelude::*;

verus! {

/// What an attempt to insert a name came to.
#[derive(Clone, Copy, Debug, PartialEq, Eq, Structural)]
pub enum InsertOutcome {
    /// The row was created under this id.
    Inserted(i64),
    /// The store already holds the name.
    Duplicate,
    /// Any other failure of the store.
    Failed,
}

/// What the resolver does next.
#[derive(Clone, Copy, Debug, PartialEq, Eq, Structural)]
pub enum NextStep {
    /// The name's id is known.
    UseId(i64),
    /// Look the existing row up by name.
    LookUp,
    /// Give up the unit of work: the store failed.
    Abort,
}

/// The step after an insert: a new row gives its id, a duplicate calls for a
/// lookup, and any other failure aborts.
pub fn after_insert(o: InsertOutcome) -> (r: NextStep)
    ensures
        match o {
            InsertOutcome::Inserted(id) => r == NextStep::UseId(id),
            InsertOutcome::Duplicate => r == NextStep::LookUp,
            InsertOutcome::Failed => r == NextStep::Abort,
        },
{
    match o {
        InsertOutcome::Inserted(id) => NextStep::UseId(id),
        InsertOutcome::Duplicate => NextStep::LookUp,
        InsertOutcome::Failed => NextStep::Abort,
    }
}

/// The step after the lookup that a duplicate called for: the id found, or an
/// abort when the store failed or held no such row.
pub fn after_lookup(found: Option<i64>) -> (r: NextStep)
    ensures
        match found {
            Some(id) => r == NextStep::UseId(id),
            None => r == NextStep::Abort,
        },
{
    match found {
        Some(id) => NextStep::UseId(id),
        None => NextStep::Abort,
    }
}

} // verus!
