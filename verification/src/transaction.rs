//! Kinds of transactions.

use vstd::prelude::*;

verus! {

/// Marks a transaction that only reads.
#[derive(Debug)]
pub struct RO;

/// Marks a transaction that reads and writes.
#[derive(Debug)]
pub struct RW;

/// Tells the kinds of transactions apart.
pub trait TransactionKind {
    /// Whether transactions of this kind write.
    const IS_READ_WRITE: bool;
}

impl TransactionKind for RO {
    const IS_READ_WRITE: bool = false;
}

impl TransactionKind for RW {
    const IS_READ_WRITE: bool = true;
}

/// Transactions of one kind write, and those of the other do not.
pub proof fn law_kinds_of_transactions()
    ensures
        RW::IS_READ_WRITE,
        !RO::IS_READ_WRITE,
{
}

} // verus!
