//! Hands values from notifiers to waiters by key. A value that nobody waits for is kept until
//! somebody does.

use std::collections::HashMap;
use std::hash::Hash;

use vstd::prelude::*;
use vstd::std_specs::hash::obeys_key_model;

verus! {

/// Why a wait or a notification is refused.
#[derive(Debug, Clone, Copy, PartialEq, Eq, Structural)]
pub enum ChannelError {
    /// The channel is closed.
    Closed,
    /// Somebody waits for the key already.
    DuplicateWaiter,
    /// The key has a value already.
    DuplicateNotify,
    /// A holder of the channel failed while it had it.
    Poisoned,
}

impl ChannelError {
    /// What the error says.
    pub open spec fn text(self) -> Seq<char> {
        match self {
            ChannelError::Closed => "channel closed"@,
            ChannelError::DuplicateWaiter => "channel already has a waiter for this key"@,
            ChannelError::DuplicateNotify => "channel key was already notified"@,
            ChannelError::Poisoned => "channel mutex poisoned"@,
        }
    }

    /// What the error says.
    pub fn message(self) -> (r: String)
        ensures
            r@ == self.text(),
            self == ChannelError::Closed ==> r@ == "channel closed"@,
            self == ChannelError::DuplicateWaiter ==> r@
                == "channel already has a waiter for this key"@,
            self == ChannelError::DuplicateNotify ==> r@ == "channel key was already notified"@,
            self == ChannelError::Poisoned ==> r@ == "channel mutex poisoned"@,
    {
        match self {
            ChannelError::Closed => "channel closed".to_owned(),
            ChannelError::DuplicateWaiter => "channel already has a waiter for this key".to_owned(),
            ChannelError::DuplicateNotify => "channel key was already notified".to_owned(),
            ChannelError::Poisoned => "channel mutex poisoned".to_owned(),
        }
    }
}

/// What there is for a key.
#[derive(Debug)]
pub enum State<V, W> {
    /// Somebody waits, and can be reached.
    Waiting(W),
    /// A value waits.
    Notified(V),
}

/// Waiters and values by key.
#[derive(Debug)]
pub struct Channel<K, V, W> {
    states: HashMap<K, State<V, W>>,
    closed: bool,
}

/// The states that a list of values makes. A later value for a key replaces an earlier one.
pub open spec fn notified<K, V, W>(values: Seq<(K, V)>) -> Map<K, State<V, W>>
    decreases values.len(),
{
    if values.len() == 0 {
        Map::empty()
    } else {
        notified::<K, V, W>(values.drop_last()).insert(
            values.last().0,
            State::Notified(values.last().1),
        )
    }
}

/// No later entry of the list has the key of entry `i`.
pub open spec fn last_of_key<K, V>(values: Seq<(K, V)>, i: int) -> bool {
    forall|j: int| i < j < values.len() ==> (#[trigger] values[j]).0 != values[i].0
}

/// A value that no later one replaces is there.
proof fn lemma_notified<K, V, W>(values: Seq<(K, V)>, i: int)
    requires
        0 <= i < values.len(),
        last_of_key(values, i),
    ensures
        notified::<K, V, W>(values).contains_key(values[i].0),
        notified::<K, V, W>(values)[values[i].0] == State::<V, W>::Notified(values[i].1),
    decreases values.len(),
{
    let rest = values.drop_last();
    if i < rest.len() {
        assert forall|j: int| i < j < rest.len() implies (#[trigger] rest[j]).0 != rest[i].0 by {
            assert(values[j].0 != values[i].0);
        }
        lemma_notified::<K, V, W>(rest, i);
        assert(values[values.len() - 1].0 != values[i].0);
    }
}

/// Nothing but the values of the list is there.
proof fn lemma_only_notified<K, V, W>(values: Seq<(K, V)>, key: K)
    requires
        notified::<K, V, W>(values).contains_key(key),
    ensures
        exists|i: int| 0 <= i < values.len() && (#[trigger] values[i]).0 == key,
    decreases values.len(),
{
    if values.len() > 0 {
        let rest = values.drop_last();
        if values.last().0 == key {
            assert(values[values.len() - 1].0 == key);
        } else {
            lemma_only_notified::<K, V, W>(rest, key);
            let i = choose|i: int| 0 <= i < rest.len() && (#[trigger] rest[i]).0 == key;
            assert(values[i].0 == key);
        }
    }
}

/// The states after the waiter for `key` gives up: a value that has come stays.
pub open spec fn given_up<K, V, W>(states: Map<K, State<V, W>>, key: K) -> Map<K, State<V, W>> {
    if states.contains_key(key) && states[key] is Waiting {
        states.remove(key)
    } else {
        states
    }
}

/// What a wait for `key` on an open channel gives, and the states after it.
pub open spec fn waited<K, V, W>(states: Map<K, State<V, W>>, key: K, waiter: W) -> (
    Map<K, State<V, W>>,
    Result<Option<V>, ChannelError>,
) {
    if !states.contains_key(key) {
        (states.insert(key, State::Waiting(waiter)), Ok(None))
    } else {
        match states[key] {
            State::Waiting(_) => (states, Err(ChannelError::DuplicateWaiter)),
            State::Notified(value) => (states.remove(key), Ok(Some(value))),
        }
    }
}

/// What a value for `key` on an open channel gives, and the states after it.
pub open spec fn brought<K, V, W>(states: Map<K, State<V, W>>, key: K, val: V) -> (
    Map<K, State<V, W>>,
    Result<Option<(W, V)>, ChannelError>,
) {
    if !states.contains_key(key) {
        (states.insert(key, State::Notified(val)), Ok(None))
    } else {
        match states[key] {
            State::Waiting(waiter) => (states.remove(key), Ok(Some((waiter, val)))),
            State::Notified(_) => (states, Err(ChannelError::DuplicateNotify)),
        }
    }
}

impl<K: Eq + Hash, V, W> Channel<K, V, W> {
    /// What there is for each key.
    pub closed spec fn states(&self) -> Map<K, State<V, W>> {
        self.states@
    }

    /// The channel is closed.
    pub closed spec fn is_closed(&self) -> bool {
        self.closed
    }

    /// An open channel without waiters and values.
    pub fn new() -> (r: Channel<K, V, W>)
        ensures
            r.states() == Map::<K, State<V, W>>::empty(),
            !r.is_closed(),
    {
        Channel { states: HashMap::new(), closed: false }
    }

    /// An open channel with values.
    pub fn new_with_states(values: Vec<(K, V)>) -> (r: Channel<K, V, W>)
        requires
            obeys_key_model::<K>(),
        ensures
            r.states() == notified::<K, V, W>(values@),
            !r.is_closed(),
            forall|i: int|
                0 <= i < values@.len() && (forall|j: int|
                    i < j < values@.len() ==> (#[trigger] values@[j]).0 != values@[i].0)
                    ==> r.states().contains_key((#[trigger] values@[i]).0)
                    && r.states()[values@[i].0] == State::<V, W>::Notified(values@[i].1),
            forall|key: K| #[trigger]
                r.states().contains_key(key) ==> exists|i: int|
                    0 <= i < values@.len() && (#[trigger] values@[i]).0 == key,
    {
        broadcast use vstd::std_specs::hash::group_hash_axioms;

        let mut states: HashMap<K, State<V, W>> = HashMap::new();
        let ghost all = values@;
        let ghost mut k: int = 0;
        assert(all.take(0) =~= Seq::empty());
        for entry in it: values
            invariant
                obeys_key_model::<K>(),
                k == it.index(),
                it.seq() == all,
                states@ == notified::<K, V, W>(all.take(k)),
        {
            let (key, value) = entry;
            states.insert(key, State::Notified(value));
            proof {
                assert(all.take(k + 1).drop_last() =~= all.take(k));
                assert(all.take(k + 1).last() == all[k]);
                k = k + 1;
            }
        }
        assert(all.take(k) =~= all);
        proof {
            assert forall|i: int| 0 <= i < all.len() && last_of_key(all, i) implies notified::<
                K,
                V,
                W,
            >(all).contains_key((#[trigger] all[i]).0) && notified::<K, V, W>(all)[all[i].0]
                == State::<V, W>::Notified(all[i].1) by {
                lemma_notified::<K, V, W>(all, i);
            }
            assert forall|key: K| #[trigger]
                notified::<K, V, W>(all).contains_key(key) implies exists|i: int|
                0 <= i < all.len() && (#[trigger] all[i]).0 == key by {
                lemma_only_notified::<K, V, W>(all, key);
            }
        }
        Channel { states, closed: false }
    }

    /// Starts to wait for `key`. A value that is there is taken at once; otherwise `waiter` is
    /// kept until there is one.
    pub fn begin_wait(&mut self, key: K, waiter: W) -> (r: Result<Option<V>, ChannelError>)
        requires
            obeys_key_model::<K>(),
        ensures
            final(self).is_closed() == old(self).is_closed(),
            if old(self).is_closed() {
                r == Err::<Option<V>, _>(ChannelError::Closed) && final(self).states() == old(
                    self,
                ).states()
            } else {
                (final(self).states(), r) == waited(old(self).states(), key, waiter)
            },
    {
        broadcast use vstd::std_specs::hash::group_hash_axioms;

        if self.closed {
            return Err(ChannelError::Closed);
        }
        if let Some(State::Waiting(_)) = self.states.get(&key) {
            return Err(ChannelError::DuplicateWaiter);
        }
        if let Some(State::Notified(value)) = self.states.remove(&key) {
            return Ok(Some(value));
        }
        self.states.insert(key, State::Waiting(waiter));
        Ok(None)
    }

    /// The waiter for `key` gives up. A value that has come for it stays.
    pub fn time_out(&mut self, key: &K)
        requires
            obeys_key_model::<K>(),
        ensures
            final(self).is_closed() == old(self).is_closed(),
            final(self).states() == given_up(old(self).states(), *key),
    {
        broadcast use vstd::std_specs::hash::group_hash_axioms;

        if let Some(State::Waiting(_)) = self.states.get(key) {
            self.states.remove(key);
        }
    }

    /// Brings a value for `key`. Where somebody waits, the waiter and the value are handed back
    /// for delivery; otherwise the value is kept.
    pub fn notify(&mut self, key: K, val: V) -> (r: Result<Option<(W, V)>, ChannelError>)
        requires
            obeys_key_model::<K>(),
        ensures
            final(self).is_closed() == old(self).is_closed(),
            if old(self).is_closed() {
                r == Err::<Option<(W, V)>, _>(ChannelError::Closed) && final(self).states() == old(
                    self,
                ).states()
            } else {
                (final(self).states(), r) == brought(old(self).states(), key, val)
            },
    {
        broadcast use vstd::std_specs::hash::group_hash_axioms;

        if self.closed {
            return Err(ChannelError::Closed);
        }
        let ghost states = self.states@;
        match self.states.remove(&key) {
            Some(State::Waiting(waiter)) => Ok(Some((waiter, val))),
            Some(State::Notified(previous)) => {
                self.states.insert(key, State::Notified(previous));
                assert(self.states@ =~= states);
                Err(ChannelError::DuplicateNotify)
            },
            None => {
                self.states.insert(key, State::Notified(val));
                assert(self.states@ =~= states.insert(key, State::Notified(val)));
                Ok(None)
            },
        }
    }

    /// Keeps a value whose waiter had gone when it was to be delivered.
    pub fn keep_undelivered(&mut self, key: K, val: V)
        requires
            obeys_key_model::<K>(),
        ensures
            final(self).is_closed() == old(self).is_closed(),
            final(self).states() == old(self).states().insert(key, State::Notified(val)),
    {
        broadcast use vstd::std_specs::hash::group_hash_axioms;

        self.states.insert(key, State::Notified(val));
    }

    /// Closes the channel and drops all waiters and values.
    pub fn close(&mut self)
        ensures
            final(self).is_closed(),
            final(self).states() == Map::<K, State<V, W>>::empty(),
    {
        self.closed = true;
        self.states.clear();
    }
}

/// What came of a wait.
#[derive(Debug, Clone, Copy, PartialEq, Eq)]
pub enum WaitOutcome<V> {
    /// A value was delivered.
    Delivered(V),
    /// The channel dropped the waiter.
    Dropped,
    /// The time was over before a value came.
    TimedOut,
}

/// What a wait answers: the value, that the channel is closed, or that there was none in time.
pub fn wait_result<V>(outcome: WaitOutcome<V>) -> (r: Result<Option<V>, ChannelError>)
    ensures
        r == match outcome {
            WaitOutcome::Delivered(value) => Ok(Some(value)),
            WaitOutcome::Dropped => Err(ChannelError::Closed),
            WaitOutcome::TimedOut => Ok(None),
        },
{
    match outcome {
        WaitOutcome::Delivered(value) => Ok(Some(value)),
        WaitOutcome::Dropped => Err(ChannelError::Closed),
        WaitOutcome::TimedOut => Ok(None),
    }
}

/// A channel made with values has each of them: one that no later value of the list replaces is
/// handed to the first who waits for its key, and the other values stay.
pub proof fn law_values_from_the_start<K, V, W>(values: Seq<(K, V)>, i: int, waiter: W)
    requires
        0 <= i < values.len(),
        forall|j: int| i < j < values.len() ==> (#[trigger] values[j]).0 != values[i].0,
    ensures
        ({
            let states = notified::<K, V, W>(values);
            let key = values[i].0;
            &&& states.contains_key(key)
            &&& states[key] == State::<V, W>::Notified(values[i].1)
            &&& waited(states, key, waiter).1 == Ok::<_, ChannelError>(Some(values[i].1))
            &&& waited(states, key, waiter).0 == states.remove(key)
        }),
{
    lemma_notified::<K, V, W>(values, i);
}

/// Where all keys are different, a channel made with values has every value of the list.
pub proof fn law_distinct_values_from_the_start<K, V, W>(values: Seq<(K, V)>)
    requires
        forall|i: int, j: int|
            0 <= i < j < values.len() ==> (#[trigger] values[i]).0 != (#[trigger] values[j]).0,
    ensures
        forall|i: int|
            0 <= i < values.len() ==> notified::<K, V, W>(values).contains_key(
                (#[trigger] values[i]).0,
            ) && notified::<K, V, W>(values)[values[i].0] == State::<V, W>::Notified(values[i].1),
{
    assert forall|i: int| 0 <= i < values.len() implies notified::<K, V, W>(values).contains_key(
        (#[trigger] values[i]).0,
    ) && notified::<K, V, W>(values)[values[i].0] == State::<V, W>::Notified(values[i].1) by {
        lemma_notified::<K, V, W>(values, i);
    }
}

/// A channel made with values has no other key, and nobody waits on it.
pub proof fn law_only_values_from_the_start<K, V, W>(values: Seq<(K, V)>, key: K)
    requires
        notified::<K, V, W>(values).contains_key(key),
    ensures
        notified::<K, V, W>(values)[key] is Notified,
        exists|i: int|
            0 <= i < values.len() && (#[trigger] values[i]).0 == key && values[i].1
                == notified::<K, V, W>(values)[key]->Notified_0,
    decreases values.len(),
{
    if values.len() > 0 {
        let rest = values.drop_last();
        if values.last().0 == key {
            assert(values[values.len() - 1].0 == key);
        } else {
            law_only_values_from_the_start::<K, V, W>(rest, key);
            let i = choose|i: int|
                0 <= i < rest.len() && (#[trigger] rest[i]).0 == key && rest[i].1
                    == notified::<K, V, W>(rest)[key]->Notified_0;
            assert(values[i].0 == key);
        }
    }
}

/// Only one can wait for a key: a second wait is refused and changes nothing.
pub proof fn law_second_wait_is_refused<K, V, W>(
    states: Map<K, State<V, W>>,
    key: K,
    first: W,
    second: W,
)
    requires
        !states.contains_key(key),
    ensures
        waited(states, key, first).1 == Ok::<Option<V>, ChannelError>(None),
        waited(waited(states, key, first).0, key, second) == (waited(states, key, first).0, Err::<
            Option<V>,
            _,
        >(ChannelError::DuplicateWaiter)),
{
}

/// A key takes one value at a time: a second one is refused, and the first one stays.
pub proof fn law_second_value_is_refused<K, V, W>(
    states: Map<K, State<V, W>>,
    key: K,
    first: V,
    second: V,
    waiter: W,
)
    requires
        !states.contains_key(key),
    ensures
        ({
            let once = brought(states, key, first);
            let twice = brought(once.0, key, second);
            &&& once.1 == Ok::<Option<(W, V)>, ChannelError>(None)
            &&& twice.1 == Err::<Option<(W, V)>, _>(ChannelError::DuplicateNotify)
            &&& twice.0 == once.0
            &&& waited(twice.0, key, waiter).1 == Ok::<_, ChannelError>(Some(first))
        }),
{
}

/// A wait and a value leave every other key alone.
pub proof fn law_other_keys_stay<K, V, W>(
    states: Map<K, State<V, W>>,
    key: K,
    other: K,
    val: V,
    waiter: W,
)
    requires
        other != key,
    ensures
        waited(states, key, waiter).0.contains_key(other) == states.contains_key(other),
        brought(states, key, val).0.contains_key(other) == states.contains_key(other),
        states.contains_key(other) ==> waited(states, key, waiter).0[other] == states[other],
        states.contains_key(other) ==> brought(states, key, val).0[other] == states[other],
{
}

/// After a waiter gives up another one can wait for the key, and a value that comes is kept.
pub proof fn law_key_is_free_after_time_out<K, V, W>(
    states: Map<K, State<V, W>>,
    key: K,
    first: W,
    second: W,
    val: V,
)
    requires
        !states.contains_key(key),
    ensures
        ({
            let gone = given_up(waited(states, key, first).0, key);
            &&& gone == states
            &&& waited(gone, key, second).1 == Ok::<Option<V>, ChannelError>(None)
            &&& brought(gone, key, val).1 == Ok::<Option<(W, V)>, ChannelError>(None)
        }),
{
    assert(states.insert(key, State::Waiting(first)).remove(key) =~= states);
}

/// A value that could not be delivered because its waiter had gone is kept, and handed to the
/// next who waits.
pub proof fn law_undelivered_is_kept<K, V, W>(
    states: Map<K, State<V, W>>,
    key: K,
    val: V,
    waiter: W,
)
    requires
        states.contains_key(key),
        states[key] is Waiting,
    ensures
        ({
            let kept = brought(states, key, val).0.insert(key, State::Notified(val));
            &&& kept == states.insert(key, State::Notified(val))
            &&& waited(kept, key, waiter).1 == Ok::<_, ChannelError>(Some(val))
        }),
{
    assert(states.remove(key).insert(key, State::Notified(val)) =~= states.insert(
        key,
        State::Notified(val),
    ));
}

/// A value that came before anybody waited is handed to the first who does.
pub proof fn law_value_before_wait<K, V, W>(
    states: Map<K, State<V, W>>,
    key: K,
    val: V,
    waiter: W,
)
    requires
        !states.contains_key(key),
    ensures
        waited(brought(states, key, val).0, key, waiter) == (states, Ok::<_, ChannelError>(
            Some(val),
        )),
{
    assert(states.insert(key, State::Notified(val)).remove(key) =~= states);
}

/// A value that comes when somebody waits is handed to whoever waits.
pub proof fn law_wait_before_value<K, V, W>(
    states: Map<K, State<V, W>>,
    key: K,
    val: V,
    waiter: W,
)
    requires
        !states.contains_key(key),
    ensures
        brought(waited(states, key, waiter).0, key, val) == (states, Ok::<_, ChannelError>(
            Some((waiter, val)),
        )),
{
    assert(states.insert(key, State::Waiting(waiter)).remove(key) =~= states);
}

/// A value that has come is not lost when its waiter gives up.
pub proof fn law_value_survives_time_out<K, V, W>(states: Map<K, State<V, W>>, key: K)
    requires
        states.contains_key(key),
        states[key] is Notified,
    ensures
        given_up(states, key) == states,
{
}

/// A waiter that gives up leaves every other key alone.
pub proof fn law_time_out_is_local<K, V, W>(states: Map<K, State<V, W>>, key: K, other: K)
    requires
        other != key,
    ensures
        given_up(states, key).contains_key(other) == states.contains_key(other),
        states.contains_key(other) ==> given_up(states, key)[other] == states[other],
{
}

} // verus!
