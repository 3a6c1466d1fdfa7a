use gravity_state::channel::{wait_result, Channel, ChannelError, State, WaitOutcome};
use gravity_state::errors::{DatabaseError, ProviderError};
use gravity_state::pipe_error::{
    BlockExecutionError, ExecutionOutputError, PipeBlockContext, PipeBlockError, PipeChannel,
    PipeErrorKind, PipeOrderError, PipeResultExt, PipeStage,
};

use rand::Rng;
use std::future::Future;
use std::sync::{Arc, Mutex};
use std::time::Duration;
use tokio::sync::oneshot;
use tokio::task::JoinSet;

/// A channel shared by tasks.
struct Shared {
    inner: Mutex<Channel<u64, u64, oneshot::Sender<u64>>>,
}

impl Shared {
    fn new() -> Shared {
        Shared { inner: Mutex::new(Channel::new()) }
    }

    fn new_with_states(values: Vec<(u64, u64)>) -> Shared {
        Shared { inner: Mutex::new(Channel::new_with_states(values)) }
    }

    async fn wait(&self, key: u64) -> Result<u64, ChannelError> {
        let (sender, receiver) = oneshot::channel();
        let now = self.inner.lock().unwrap().begin_wait(key, sender)?;
        match now {
            Some(value) => Ok(value),
            None => receiver.await.map_err(|_| ChannelError::Closed),
        }
    }

    async fn wait_timeout(
        &self,
        key: u64,
        timeout: Duration,
    ) -> Result<Option<u64>, ChannelError> {
        let (sender, receiver) = oneshot::channel();
        let now = self.inner.lock().unwrap().begin_wait(key, sender)?;
        if let Some(value) = now {
            return Ok(Some(value));
        }
        match tokio::time::timeout(timeout, receiver).await {
            Ok(value) => value.map(Some).map_err(|_| ChannelError::Closed),
            Err(_) => {
                self.inner.lock().unwrap().time_out(&key);
                Ok(None)
            }
        }
    }

    fn notify(&self, key: u64, value: u64) -> Result<(), ChannelError> {
        let mut inner = self.inner.lock().unwrap();
        if let Some((waiter, value)) = inner.notify(key, value)? {
            if let Err(unsent) = waiter.send(value) {
                inner.keep_undelivered(key, unsent);
            }
        }
        Ok(())
    }

    fn close(&self) {
        self.inner.lock().unwrap().close();
    }
}

fn run<F: Future>(future: F) -> F::Output {
    tokio::runtime::Builder::new_current_thread().enable_time().build().unwrap().block_on(future)
}

#[test]
fn test_pipe_barrier() {
    run(async {
        let barrier = Arc::new(Shared::new_with_states(vec![(0, 0)]));

        let mut tasks = JoinSet::new();
        for i in 1..10 {
            let barrier = barrier.clone();
            let sleep_ms = rand::rng().random_range(100..1000);
            tasks.spawn(async move {
                let v = barrier.wait(i - 1).await.unwrap();
                assert_eq!(v, i - 1);
                tokio::time::sleep(Duration::from_millis(sleep_ms)).await;
                barrier.notify(i, i).unwrap();
            });
        }

        tasks.join_all().await;
        assert_eq!(barrier.wait(9).await, Ok(9));
    });
}

#[test]
fn timeout_is_distinct_from_close() {
    run(async {
        let channel = Shared::new();
        assert_eq!(channel.wait_timeout(1, Duration::from_millis(1)).await, Ok(None));

        channel.close();
        assert_eq!(
            channel.wait_timeout(1, Duration::from_millis(1)).await,
            Err(ChannelError::Closed)
        );
    });
}

#[test]
fn duplicate_notify_is_an_error() {
    run(async {
        let channel = Shared::new();
        channel.notify(1, 1).unwrap();
        assert_eq!(channel.notify(1, 2), Err(ChannelError::DuplicateNotify));
        assert_eq!(channel.wait(1).await, Ok(1));
    });
}

#[test]
fn duplicate_waiter_is_an_error() {
    run(async {
        let channel = Arc::new(Shared::new());
        let waiter_channel = channel.clone();
        let waiter = tokio::spawn(async move { waiter_channel.wait(1).await });
        tokio::task::yield_now().await;

        assert_eq!(channel.wait(1).await, Err(ChannelError::DuplicateWaiter));
        channel.notify(1, 7).unwrap();
        assert_eq!(waiter.await.unwrap(), Ok(7));
    });
}

#[test]
fn closing_reaches_waiters() {
    run(async {
        let channel = Arc::new(Shared::new());
        let waiter_channel = channel.clone();
        let waiter = tokio::spawn(async move { waiter_channel.wait(1).await });
        tokio::task::yield_now().await;
        channel.close();
        assert_eq!(waiter.await.unwrap(), Err(ChannelError::Closed));
    });
}

#[test]
fn value_is_handed_over_once() {
    let mut channel: Channel<u64, u64, ()> = Channel::new();
    assert_eq!(channel.notify(3, 30), Ok(None));
    assert_eq!(channel.begin_wait(3, ()), Ok(Some(30)));
    assert_eq!(channel.begin_wait(3, ()), Ok(None));
    assert_eq!(channel.notify(3, 31), Ok(Some(((), 31))));
}

#[test]
fn value_survives_a_time_out() {
    let mut channel: Channel<u64, u64, ()> = Channel::new();
    channel.notify(3, 30).unwrap();
    channel.time_out(&3);
    assert_eq!(channel.begin_wait(3, ()), Ok(Some(30)));
    channel.begin_wait(4, ()).unwrap();
    channel.begin_wait(5, ()).unwrap();
    channel.time_out(&4);
    assert_eq!(channel.begin_wait(4, ()), Ok(None));
    assert_eq!(channel.begin_wait(5, ()), Err(ChannelError::DuplicateWaiter));
}

#[test]
fn undelivered_value_is_kept() {
    let mut channel: Channel<u64, u64, ()> = Channel::new();
    channel.begin_wait(1, ()).unwrap();
    let (_, value) = channel.notify(1, 5).unwrap().unwrap();
    channel.keep_undelivered(1, value);
    assert_eq!(channel.begin_wait(1, ()), Ok(Some(5)));
}

#[test]
fn waits_end_in_one_of_three_ways() {
    assert_eq!(wait_result(WaitOutcome::Delivered(5)), Ok(Some(5)));
    assert_eq!(wait_result::<u64>(WaitOutcome::Dropped), Err(ChannelError::Closed));
    assert_eq!(wait_result::<u64>(WaitOutcome::TimedOut), Ok(None));
}

#[test]
fn closed_channel_refuses_everything() {
    let mut channel: Channel<u64, u64, ()> = Channel::new_with_states(vec![(1, 1), (1, 2)]);
    assert_eq!(channel.begin_wait(1, ()), Ok(Some(2)));
    channel.close();
    assert_eq!(channel.notify(1, 1), Err(ChannelError::Closed));
    assert_eq!(channel.begin_wait(1, ()), Err(ChannelError::Closed));
    assert!(matches!(State::<u64, ()>::Waiting(()), State::Waiting(())));
}

#[test]
fn channel_errors_say_what_happened() {
    assert_eq!(ChannelError::Closed.message(), "channel closed");
    assert_eq!(
        ChannelError::DuplicateWaiter.message(),
        "channel already has a waiter for this key"
    );
    assert_eq!(ChannelError::DuplicateNotify.message(), "channel key was already notified");
    assert_eq!(ChannelError::Poisoned.message(), "channel mutex poisoned");
    assert_eq!(PipeChannel::ExecutionResult.name(), "execution result");
    assert_eq!(PipeChannel::CanonicalEvent.name(), "canonical event");
    assert_eq!(PipeChannel::CanonicalAcknowledgement.name(), "canonical acknowledgement");
}

#[test]
fn provider_error_remains_matchable() {
    let context = PipeBlockContext { block_id: [0; 32], block_number: 7, epoch: 2 };
    let error: PipeBlockError = Err::<(), _>(ProviderError::BestBlockNotFound)
        .pipe_context(context, PipeStage::Execute)
        .unwrap_err();

    assert!(matches!(
        error.kind(),
        PipeErrorKind::Provider(source)
            if matches!(source, ProviderError::BestBlockNotFound)
    ));
    assert_eq!(error.context(), context);
    assert_eq!(error.stage(), PipeStage::Execute);
}

#[test]
fn only_owner_channel_closure_is_cancellation() {
    let context = PipeBlockContext { block_id: [0; 32], block_number: 7, epoch: 2 };

    let cancelled = PipeBlockError::new(context, PipeStage::Verify, ChannelError::Closed);
    assert!(cancelled.is_cancellation());

    let canonical_failure = PipeBlockError::new(
        context,
        PipeStage::Canonicalize,
        PipeErrorKind::ChannelClosed(PipeChannel::CanonicalAcknowledgement),
    );
    assert!(!canonical_failure.is_cancellation());
}

#[test]
fn cancellation_by_kind() {
    let context = PipeBlockContext { block_id: [1; 32], block_number: 1, epoch: 1 };
    let of = |kind: PipeErrorKind| {
        PipeBlockError::new(context, PipeStage::Seal, kind).is_cancellation()
    };
    assert!(of(PipeErrorKind::ChannelClosed(PipeChannel::ExecutionResult)));
    assert!(!of(PipeErrorKind::ChannelClosed(PipeChannel::CanonicalEvent)));
    assert!(!of(PipeErrorKind::Channel(ChannelError::Poisoned)));
    assert!(!of(PipeErrorKind::HashMismatch { expected: [0; 32], actual: [1; 32] }));
}

#[test]
fn errors_keep_their_kind() {
    let context = PipeBlockContext { block_id: [2; 32], block_number: 3, epoch: 4 };
    let order = PipeOrderError::ParentNumberMismatch { block: 5, parent: 3 };
    let error = Err::<(), _>(order).pipe_context(context, PipeStage::Merklize).unwrap_err();
    assert_eq!(error.kind(), &PipeErrorKind::Order(order));

    let output = ExecutionOutputError::GasLimitExceeded { gas_limit: 1, gas_used: 2 };
    let error = PipeBlockError::new(context, PipeStage::Execute, output);
    assert_eq!(
        error.kind(),
        &PipeErrorKind::InvalidExecutionOutput(ExecutionOutputError::GasLimitExceeded {
            gas_limit: 1,
            gas_used: 2
        })
    );

    let execution = BlockExecutionError { message: "no".to_string() };
    let error = PipeBlockError::new(context, PipeStage::Execute, execution);
    assert!(matches!(error.kind(), PipeErrorKind::BlockExecution(e) if e.message == "no"));

    let provider = ProviderError::Database(DatabaseError::Decode);
    let error = PipeBlockError::new(context, PipeStage::Execute, provider);
    assert!(matches!(
        error.kind(),
        PipeErrorKind::Provider(ProviderError::Database(DatabaseError::Decode))
    ));

    let fine = Ok::<u64, ChannelError>(9).pipe_context(context, PipeStage::Execute);
    assert_eq!(fine, Ok(9));
}
