//! Errors of the block pipe: what failed, for which block, and at which stage.

use vstd::prelude::*;

use crate::channel::ChannelError;
use crate::errors::ProviderError;
use crate::rlp::B256;

verus! {

/// What a step of the pipe gives.
pub type PipeResult<T> = Result<T, PipeBlockError>;

/// The block that a step belongs to.
#[derive(Debug, Clone, Copy, PartialEq, Eq)]
pub struct PipeBlockContext {
    /// The block's id.
    pub block_id: B256,
    /// The block's number.
    pub block_number: u64,
    /// The block's epoch.
    pub epoch: u64,
}

/// The stages of the pipe.
#[derive(Debug, Clone, Copy, PartialEq, Eq, Structural)]
pub enum PipeStage {
    /// The block is executed.
    Execute,
    /// The state root is computed.
    Merklize,
    /// The block is sealed.
    Seal,
    /// The block is verified.
    Verify,
    /// The block is made canonical.
    Canonicalize,
}

/// The channels of the pipe.
#[derive(Debug, Clone, Copy, PartialEq, Eq, Structural)]
pub enum PipeChannel {
    /// Carries execution results.
    ExecutionResult,
    /// Carries canonical events.
    CanonicalEvent,
    /// Carries acknowledgements of canonical events.
    CanonicalAcknowledgement,
}

impl PipeChannel {
    /// The name of the channel.
    pub open spec fn text(self) -> Seq<char> {
        match self {
            PipeChannel::ExecutionResult => "execution result"@,
            PipeChannel::CanonicalEvent => "canonical event"@,
            PipeChannel::CanonicalAcknowledgement => "canonical acknowledgement"@,
        }
    }

    /// The name of the channel.
    pub fn name(self) -> (r: String)
        ensures
            r@ == self.text(),
            self == PipeChannel::ExecutionResult ==> r@ == "execution result"@,
            self == PipeChannel::CanonicalEvent ==> r@ == "canonical event"@,
            self == PipeChannel::CanonicalAcknowledgement ==> r@ == "canonical acknowledgement"@,
    {
        match self {
            PipeChannel::ExecutionResult => "execution result".to_owned(),
            PipeChannel::CanonicalEvent => "canonical event".to_owned(),
            PipeChannel::CanonicalAcknowledgement => "canonical acknowledgement".to_owned(),
        }
    }
}

/// Blocks came in the wrong order, or do not belong together.
#[derive(Debug, Clone, Copy, PartialEq, Eq, Structural)]
pub enum PipeOrderError {
    /// The first block is not executed.
    ZeroBlockNumber,
    /// The block's epoch is not that of the barrier.
    EpochMismatch {
        /// Of the block.
        ordered: u64,
        /// Of the barrier.
        barrier: u64,
    },
    /// The epoch changed in between.
    EpochStateMismatch {
        /// What it is.
        actual: u64,
        /// What it was to be.
        expected: u64,
    },
    /// The executed height is not that before the block.
    ExecuteHeightMismatch {
        /// What it is.
        actual: u64,
        /// What it was to be.
        expected: u64,
    },
    /// The block does not follow its parent.
    ParentNumberMismatch {
        /// The number of the block.
        block: u64,
        /// The number of the parent.
        parent: u64,
    },
    /// There is not one sender for every transaction.
    TransactionSenderCountMismatch {
        /// How many transactions there are.
        transactions: usize,
        /// How many senders there are.
        senders: usize,
    },
    /// The block emitted another epoch than the next.
    EpochTransitionMismatch {
        /// What it emitted.
        emitted: u64,
        /// What it was to emit.
        expected: u64,
    },
    /// There is no next epoch.
    EpochOverflow {
        /// The last epoch.
        current: u64,
    },
}

/// The output of an execution does not hold together.
#[derive(Debug, PartialEq, Eq)]
pub enum ExecutionOutputError {
    /// More gas was used than the limit allows.
    GasLimitExceeded {
        /// The limit.
        gas_limit: u64,
        /// What was used.
        gas_used: u64,
    },
    /// The last receipt tells another gas than the block.
    ReceiptGasMismatch {
        /// What the block tells.
        block_gas_used: u64,
        /// What the receipt tells.
        receipt_gas_used: u64,
    },
    /// The output tells another gas than the block.
    OutputGasMismatch {
        /// What the output tells.
        output_gas_used: u64,
        /// What the block tells.
        block_gas_used: u64,
    },
    /// The clock is set before the epoch of time.
    Clock(String),
    /// The block is too far in the future.
    InvalidTimestamp {
        /// Of the block.
        timestamp: u64,
        /// Of the clock.
        now: u64,
    },
    /// Receipts of system transactions are missing.
    MissingSystemReceipts {
        /// How many there were to be.
        expected: usize,
        /// How many there are.
        actual: usize,
    },
}

/// A block could not be executed.
#[derive(Debug, PartialEq, Eq)]
pub struct BlockExecutionError {
    /// What happened.
    pub message: String,
}

/// What failed.
#[derive(Debug, PartialEq, Eq)]
pub enum PipeErrorKind {
    /// A provider of state.
    Provider(ProviderError),
    /// The execution of the block.
    BlockExecution(BlockExecutionError),
    /// A wait or a notification.
    Channel(ChannelError),
    /// A channel whose other end is gone.
    ChannelClosed(PipeChannel),
    /// The order of blocks.
    Order(PipeOrderError),
    /// The hash of the block.
    HashMismatch {
        /// What it was to be.
        expected: B256,
        /// What it is.
        actual: B256,
    },
    /// The output of the execution.
    InvalidExecutionOutput(ExecutionOutputError),
}

/// An error that says what failed.
pub trait IntoPipeErrorKind: Sized {
    /// What failed.
    spec fn kind_of(self) -> PipeErrorKind;

    /// What failed.
    fn into_kind(self) -> (r: PipeErrorKind)
        ensures
            r == self.kind_of(),
    ;
}

impl IntoPipeErrorKind for PipeErrorKind {
    open spec fn kind_of(self) -> PipeErrorKind {
        self
    }

    fn into_kind(self) -> (r: PipeErrorKind)
        ensures
            r == self,
    {
        self
    }
}

impl IntoPipeErrorKind for ProviderError {
    open spec fn kind_of(self) -> PipeErrorKind {
        PipeErrorKind::Provider(self)
    }

    fn into_kind(self) -> (r: PipeErrorKind)
        ensures
            r == PipeErrorKind::Provider(self),
    {
        PipeErrorKind::Provider(self)
    }
}

impl IntoPipeErrorKind for BlockExecutionError {
    open spec fn kind_of(self) -> PipeErrorKind {
        PipeErrorKind::BlockExecution(self)
    }

    fn into_kind(self) -> (r: PipeErrorKind)
        ensures
            r == PipeErrorKind::BlockExecution(self),
    {
        PipeErrorKind::BlockExecution(self)
    }
}

impl IntoPipeErrorKind for ChannelError {
    open spec fn kind_of(self) -> PipeErrorKind {
        PipeErrorKind::Channel(self)
    }

    fn into_kind(self) -> (r: PipeErrorKind)
        ensures
            r == PipeErrorKind::Channel(self),
    {
        PipeErrorKind::Channel(self)
    }
}

impl IntoPipeErrorKind for PipeOrderError {
    open spec fn kind_of(self) -> PipeErrorKind {
        PipeErrorKind::Order(self)
    }

    fn into_kind(self) -> (r: PipeErrorKind)
        ensures
            r == PipeErrorKind::Order(self),
    {
        PipeErrorKind::Order(self)
    }
}

impl IntoPipeErrorKind for ExecutionOutputError {
    open spec fn kind_of(self) -> PipeErrorKind {
        PipeErrorKind::InvalidExecutionOutput(self)
    }

    fn into_kind(self) -> (r: PipeErrorKind)
        ensures
            r == PipeErrorKind::InvalidExecutionOutput(self),
    {
        PipeErrorKind::InvalidExecutionOutput(self)
    }
}

/// Each error is handed on as a failure of its own kind, and nothing of it is lost.
pub proof fn law_kinds_of_failures(
    provider: ProviderError,
    execution: BlockExecutionError,
    channel: ChannelError,
    order: PipeOrderError,
    output: ExecutionOutputError,
)
    ensures
        provider.kind_of() == PipeErrorKind::Provider(provider),
        execution.kind_of() == PipeErrorKind::BlockExecution(execution),
        channel.kind_of() == PipeErrorKind::Channel(channel),
        order.kind_of() == PipeErrorKind::Order(order),
        output.kind_of() == PipeErrorKind::InvalidExecutionOutput(output),
{
}

/// A block failed at a stage.
#[derive(Debug, PartialEq, Eq)]
pub struct PipeBlockError {
    block_id: B256,
    block_number: u64,
    epoch: u64,
    stage: PipeStage,
    kind: PipeErrorKind,
}

impl PipeBlockError {
    /// The block that failed.
    pub closed spec fn block(&self) -> PipeBlockContext {
        PipeBlockContext {
            block_id: self.block_id,
            block_number: self.block_number,
            epoch: self.epoch,
        }
    }

    /// The stage at which it failed.
    pub closed spec fn at_stage(&self) -> PipeStage {
        self.stage
    }

    /// What failed.
    pub closed spec fn failure(&self) -> PipeErrorKind {
        self.kind
    }

    /// The failure of a block at a stage.
    pub fn new<E: IntoPipeErrorKind>(context: PipeBlockContext, stage: PipeStage, kind: E) -> (r:
        PipeBlockError)
        ensures
            r.block() == context,
            r.at_stage() == stage,
            r.failure() == kind.kind_of(),
    {
        PipeBlockError {
            block_id: context.block_id,
            block_number: context.block_number,
            epoch: context.epoch,
            stage,
            kind: kind.into_kind(),
        }
    }

    /// The block that failed.
    pub fn context(&self) -> (r: PipeBlockContext)
        ensures
            r == self.block(),
    {
        PipeBlockContext {
            block_id: self.block_id,
            block_number: self.block_number,
            epoch: self.epoch,
        }
    }

    /// The stage at which it failed.
    pub fn stage(&self) -> (r: PipeStage)
        ensures
            r == self.at_stage(),
    {
        self.stage
    }

    /// What failed.
    pub fn kind(&self) -> (r: &PipeErrorKind)
        ensures
            *r == self.failure(),
    {
        &self.kind
    }

    /// Whether the block was given up because the owner of the pipe closed it: a wait or a
    /// notification found the channel closed, or nobody takes execution results any more.
    pub fn is_cancellation(&self) -> (r: bool)
        ensures
            r == (self.failure() == PipeErrorKind::Channel(ChannelError::Closed) || self.failure()
                == PipeErrorKind::ChannelClosed(PipeChannel::ExecutionResult)),
    {
        matches!(
            self.kind,
            PipeErrorKind::Channel(ChannelError::Closed)
                | PipeErrorKind::ChannelClosed(PipeChannel::ExecutionResult)
        )
    }
}

/// Says of a failure where it happened.
pub trait PipeResultExt<T>: Sized {
    /// The result for `context` at `stage`.
    spec fn located(self, context: PipeBlockContext, stage: PipeStage, r: PipeResult<T>) -> bool;

    /// Adds the block and the stage to a failure.
    fn pipe_context(self, context: PipeBlockContext, stage: PipeStage) -> (r: PipeResult<T>)
        ensures
            self.located(context, stage, r),
    ;
}

impl<T, E: IntoPipeErrorKind> PipeResultExt<T> for Result<T, E> {
    open spec fn located(
        self,
        context: PipeBlockContext,
        stage: PipeStage,
        r: PipeResult<T>,
    ) -> bool {
        match self {
            Ok(t) => r == Ok::<T, PipeBlockError>(t),
            Err(e) => r matches Err(b) && b.block() == context && b.at_stage() == stage
                && b.failure() == e.kind_of(),
        }
    }

    fn pipe_context(self, context: PipeBlockContext, stage: PipeStage) -> (r: PipeResult<T>)
        ensures
            self matches Ok(t) ==> r == Ok::<T, PipeBlockError>(t),
            self matches Err(e) ==> (r matches Err(b) && b.block() == context && b.at_stage()
                == stage && b.failure() == e.kind_of()),
    {
        match self {
            Ok(t) => Ok(t),
            Err(e) => Err(PipeBlockError::new(context, stage, e)),
        }
    }
}

} // verus!
