//! The training agent's bookkeeping: the replay memory, the cadence of
//! training, the draw of a training batch, the targets of a batch, and the
//! choice of the best action.
//!
//! The networks and their arithmetic are floating point and live with the
//! caller. The agent tells the caller when to train and on which memories,
//! and lays the new values into the targets.

use crate::engine::Reward;
use crate::features::Ratio;
use crate::random::random_below;
use std::collections::VecDeque;
use vstd::prelude::*;

verus! {

/// The number of actions that the agent chooses among.
pub const ACTION_COUNT: usize = 4;

/// The number of memories kept by an agent made with `DQNAgent::new`.
pub const DEFAULT_BUFFER_SIZE: usize = 50000;

/// The number of memories in a training batch of such an agent.
pub const DEFAULT_BATCH_SIZE: usize = 64;

/// Such an agent trains on every step whose number is a multiple of this.
pub const DEFAULT_TRAIN_EVERY: u64 = 4;

/// One remembered transition: the features before the step, the action
/// taken, its reward, the features after the step, and whether the game was
/// over then.
pub struct Experience {
    pub state: Vec<Ratio>,
    pub action: usize,
    pub reward: Reward,
    pub next_state: Vec<Ratio>,
    pub done: bool,
}

/// A training batch: the places drawn in the memory and, column by column,
/// what the memories at those places hold.
pub struct Batch {
    pub picks: Vec<usize>,
    pub states: Vec<Vec<Ratio>>,
    pub actions: Vec<usize>,
    pub rewards: Vec<Reward>,
    pub next_states: Vec<Vec<Ratio>>,
    pub dones: Vec<bool>,
}

/// `batch` holds, row by row, the memories of `memory` at the places that it
/// names.
pub open spec fn is_gathered(memory: Seq<Experience>, batch: Batch) -> bool {
    &&& batch.states@.len() == batch.picks@.len()
    &&& batch.actions@.len() == batch.picks@.len()
    &&& batch.rewards@.len() == batch.picks@.len()
    &&& batch.next_states@.len() == batch.picks@.len()
    &&& batch.dones@.len() == batch.picks@.len()
    &&& forall|i: int|
        0 <= i < batch.picks@.len() ==> {
            let from = memory[(#[trigger] batch.picks@[i]) as int];
            &&& batch.picks@[i] < memory.len()
            &&& batch.states@[i]@ == from.state@
            &&& batch.actions@[i] == from.action
            &&& batch.rewards@[i] == from.reward
            &&& batch.next_states@[i]@ == from.next_state@
            &&& batch.dones@[i] == from.done
        }
}

/// A copy of a feature vector.
fn copy_features(features: &Vec<Ratio>) -> (r: Vec<Ratio>)
    ensures
        r@ == features@,
{
    let mut copy: Vec<Ratio> = Vec::new();
    let mut k: usize = 0;
    while k < features.len()
        invariant
            k <= features@.len(),
            copy@ == features@.take(k as int),
        decreases features@.len() - k,
    {
        copy.push(features[k]);
        assert(features@.take(k as int + 1) == features@.take(k as int).push(features@[k as int]));
        k += 1;
    }
    assert(features@.take(k as int) == features@);
    copy
}

/// The targets that a batch is trained towards: the network's own
/// predictions, in which each row's value for the action taken in that row
/// is replaced by that row's new value. Every other value stays, so that
/// only the action taken is learned from.
pub fn masked_targets<T: Copy>(predictions: &Vec<Vec<T>>, actions: &Vec<usize>, values: &Vec<T>) -> (r:
    Vec<Vec<T>>)
    requires
        predictions@.len() == actions@.len(),
        predictions@.len() == values@.len(),
        forall|i: int| 0 <= i < actions@.len() ==> (#[trigger] actions@[i]) < predictions@[i]@.len(),
    ensures
        r@.len() == predictions@.len(),
        forall|i: int|
            0 <= i < r@.len() ==> (#[trigger] r@[i])@ == predictions@[i]@.update(
                actions@[i] as int,
                values@[i],
            ),
{
    let mut targets: Vec<Vec<T>> = Vec::new();
    let mut i: usize = 0;
    while i < predictions.len()
        invariant
            i <= predictions@.len(),
            predictions@.len() == actions@.len(),
            predictions@.len() == values@.len(),
            forall|k: int| 0 <= k < actions@.len() ==> (#[trigger] actions@[k]) < predictions@[k]@.len(),
            targets@.len() == i,
            forall|k: int|
                0 <= k < i ==> (#[trigger] targets@[k])@ == predictions@[k]@.update(
                    actions@[k] as int,
                    values@[k],
                ),
        decreases predictions@.len() - i,
    {
        let row = &predictions[i];
        let action: usize = actions[i];
        assert(actions@[i as int] < predictions@[i as int]@.len());
        let mut target: Vec<T> = Vec::new();
        let mut j: usize = 0;
        while j < row.len()
            invariant
                j <= row@.len(),
                action < row@.len(),
                i < values@.len(),
                target@ == row@.update(action as int, values@[i as int]).take(j as int),
            decreases row@.len() - j,
        {
            let ghost wanted = row@.update(action as int, values@[i as int]);
            if j == action {
                target.push(values[i]);
            } else {
                target.push(row[j]);
            }
            assert(wanted.take(j as int + 1) == wanted.take(j as int).push(wanted[j as int]));
            j += 1;
        }
        assert(target@ == row@.update(action as int, values@[i as int])) by {
            let wanted = row@.update(action as int, values@[i as int]);
            assert(wanted.take(j as int) == wanted);
        }
        targets.push(target);
        i += 1;
    }
    targets
}

/// The memory after `item` was stored: the oldest memory leaves first where
/// `capacity` is reached.
pub open spec fn stored<T>(memory: Seq<T>, capacity: int, item: T) -> Seq<T> {
    if memory.len() >= capacity {
        memory.drop_first().push(item)
    } else {
        memory.push(item)
    }
}

/// The memory after `items` were stored one after the other.
pub open spec fn stored_all<T>(memory: Seq<T>, capacity: int, items: Seq<T>) -> Seq<T>
    decreases items.len(),
{
    if items.len() == 0 {
        memory
    } else {
        stored(stored_all(memory, capacity, items.drop_last()), capacity, items.last())
    }
}

/// The last `count` items of `items`, or all of them where there are fewer.
pub open spec fn latest<T>(items: Seq<T>, count: int) -> Seq<T> {
    if items.len() <= count {
        items
    } else {
        items.subrange(items.len() - count, items.len() as int)
    }
}

/// After any run of insertions a memory that was within its capacity holds
/// the latest `capacity` of everything it was given, in the order given.
pub proof fn lemma_memory_keeps_latest<T>(memory: Seq<T>, capacity: int, items: Seq<T>)
    requires
        capacity >= 1,
        memory.len() <= capacity,
    ensures
        stored_all(memory, capacity, items) == latest(memory + items, capacity),
        stored_all(memory, capacity, items).len() <= capacity,
    decreases items.len(),
{
    if items.len() == 0 {
        assert(memory + items =~= memory);
    } else {
        let earlier = items.drop_last();
        lemma_memory_keeps_latest(memory, capacity, earlier);
        let before = stored_all(memory, capacity, earlier);
        assert(memory + items =~= (memory + earlier).push(items.last()));
        assert(stored(before, capacity, items.last()) =~= latest(memory + items, capacity));
    }
}

/// A memory that starts empty and is given one item more than its capacity
/// holds exactly `capacity` items: all but the first, in the order given.
pub proof fn lemma_memory_drops_oldest<T>(capacity: int, items: Seq<T>)
    requires
        capacity >= 1,
        items.len() == capacity + 1,
    ensures
        stored_all(Seq::<T>::empty(), capacity, items) == items.drop_first(),
        stored_all(Seq::<T>::empty(), capacity, items).len() == capacity,
{
    lemma_memory_keeps_latest(Seq::<T>::empty(), capacity, items);
    assert(Seq::<T>::empty() + items =~= items);
    assert(latest(items, capacity) =~= items.drop_first());
}

/// `k` is the place of the greatest of `values`, the first one where several
/// are greatest.
pub open spec fn is_first_max(values: Seq<i64>, k: int) -> bool {
    &&& 0 <= k < values.len()
    &&& forall|j: int| 0 <= j < values.len() ==> values[j] <= values[k]
    &&& forall|j: int| 0 <= j < k ==> values[j] < values[k]
}

/// The place of the greatest of `values`, the lowest such place where several
/// are greatest.
pub fn argmax(values: &Vec<i64>) -> (r: usize)
    requires
        values@.len() > 0,
    ensures
        is_first_max(values@, r as int),
{
    let mut best: usize = 0;
    let mut k: usize = 1;
    while k < values.len()
        invariant
            1 <= k <= values@.len(),
            is_first_max(values@.take(k as int), best as int),
        decreases values@.len() - k,
    {
        let ghost seen = values@.take(k as int);
        let ghost more = values@.take(k as int + 1);
        if values[k] > values[best] {
            best = k;
        }
        proof {
            assert forall|j: int| 0 <= j < more.len() implies more[j] <= more[best as int] by {
                if j < k {
                    assert(seen[j] == more[j]);
                }
            }
            assert forall|j: int| 0 <= j < best implies more[j] < more[best as int] by {
                assert(seen[j] == more[j]);
            }
        }
        k += 1;
    }
    assert(values@.take(k as int) == values@);
    best
}

/// The bookkeeping of a Double-DQN agent.
pub struct DQNAgent {
    replay_buffer: VecDeque<Experience>,
    buffer_size: usize,
    batch_size: usize,
    train_every: u64,
    step_count: u64,
}

impl DQNAgent {
    /// The memories, oldest first.
    pub closed spec fn memory(&self) -> Seq<Experience> {
        self.replay_buffer@
    }

    /// The number of memories kept at most.
    pub closed spec fn capacity(&self) -> int {
        self.buffer_size as int
    }

    /// The number of memories in a training batch.
    pub closed spec fn batch(&self) -> int {
        self.batch_size as int
    }

    /// Training happens on every step whose number is a multiple of this.
    pub closed spec fn cadence(&self) -> int {
        self.train_every as int
    }

    /// The number of steps counted so far.
    pub closed spec fn steps(&self) -> int {
        self.step_count as int
    }

    /// The limits are positive, the memory is within its capacity, and every
    /// remembered action is one of the `ACTION_COUNT` actions.
    pub closed spec fn wf(&self) -> bool {
        &&& self.buffer_size >= 1
        &&& self.batch_size >= 1
        &&& self.train_every >= 1
        &&& self.replay_buffer@.len() <= self.buffer_size
        &&& forall|i: int|
            0 <= i < self.replay_buffer@.len() ==> (#[trigger] self.replay_buffer@[i]).action
                < ACTION_COUNT
    }

    /// Whether the step now counted is one to train on: its number is a
    /// multiple of the cadence and the memory holds a batch.
    pub open spec fn training_due(&self) -> bool {
        self.steps() % self.cadence() == 0 && self.memory().len() >= self.batch()
    }

    /// `picks` is a batch drawn from the memory: as many places as a batch
    /// has, each of them a place in the memory.
    pub open spec fn is_batch(&self, picks: Seq<usize>) -> bool {
        &&& picks.len() == self.batch()
        &&& forall|i: int| 0 <= i < picks.len() ==> (#[trigger] picks[i]) < self.memory().len()
    }

    /// An agent with the default limits and an empty memory.
    pub fn new() -> (r: DQNAgent)
        ensures
            r.wf(),
            r.memory() == Seq::<Experience>::empty(),
            r.capacity() == DEFAULT_BUFFER_SIZE,
            r.batch() == DEFAULT_BATCH_SIZE,
            r.cadence() == DEFAULT_TRAIN_EVERY,
            r.steps() == 0,
    {
        DQNAgent::with_limits(DEFAULT_BUFFER_SIZE, DEFAULT_BATCH_SIZE, DEFAULT_TRAIN_EVERY)
    }

    /// An agent with the given limits and an empty memory.
    pub fn with_limits(buffer_size: usize, batch_size: usize, train_every: u64) -> (r: DQNAgent)
        requires
            buffer_size >= 1,
            batch_size >= 1,
            train_every >= 1,
        ensures
            r.wf(),
            r.memory() == Seq::<Experience>::empty(),
            r.capacity() == buffer_size,
            r.batch() == batch_size,
            r.cadence() == train_every,
            r.steps() == 0,
    {
        DQNAgent {
            replay_buffer: VecDeque::new(),
            buffer_size,
            batch_size,
            train_every,
            step_count: 0,
        }
    }

    /// Stores `exp`. Where the memory is full the oldest memory leaves first.
    pub fn remember(&mut self, exp: Experience)
        requires
            old(self).wf(),
            exp.action < ACTION_COUNT,
        ensures
            final(self).wf(),
            final(self).memory() == stored(old(self).memory(), old(self).capacity(), exp),
            final(self).capacity() == old(self).capacity(),
            final(self).batch() == old(self).batch(),
            final(self).cadence() == old(self).cadence(),
            final(self).steps() == old(self).steps(),
    {
        if self.replay_buffer.len() >= self.buffer_size {
            self.replay_buffer.pop_front();
        }
        let ghost kept = self.replay_buffer@;
        self.replay_buffer.push_back(exp);
        proof {
            assert(self.replay_buffer@ =~= stored(old(self).memory(), old(self).capacity(), exp));
            assert forall|i: int| 0 <= i < self.replay_buffer@.len() implies (
            #[trigger] self.replay_buffer@[i]).action < ACTION_COUNT by {
                if i < kept.len() {
                    assert(self.replay_buffer@[i] == kept[i]);
                    if old(self).replay_buffer@.len() >= old(self).buffer_size {
                        assert(kept[i] == old(self).replay_buffer@[i + 1]);
                    } else {
                        assert(kept[i] == old(self).replay_buffer@[i]);
                    }
                }
            }
        }
    }

    /// The number of memories.
    pub fn buffer_len(&self) -> (r: usize)
        ensures
            r == self.memory().len(),
    {
        self.replay_buffer.len()
    }

    /// The number of steps counted so far.
    pub fn step_count(&self) -> (r: u64)
        ensures
            r == self.steps(),
    {
        self.step_count
    }

    /// The memory at place `index`, the oldest being at place zero.
    pub fn experience(&self, index: usize) -> (r: &Experience)
        requires
            self.wf(),
            index < self.memory().len(),
        ensures
            *r == self.memory()[index as int],
            r.action < ACTION_COUNT,
    {
        &self.replay_buffer[index]
    }

    /// An action picked by chance, for exploring.
    pub fn random_action() -> (r: usize)
        ensures
            r < ACTION_COUNT,
    {
        random_below(ACTION_COUNT)
    }

    /// The action to take: one picked by chance where `explore` says so,
    /// else the best by `values`, which hold one value for each action. The
    /// agent is read, not changed.
    pub fn act(&self, explore: bool, values: &Vec<i64>) -> (r: usize)
        requires
            !explore ==> values@.len() == ACTION_COUNT,
        ensures
            r < ACTION_COUNT,
            !explore ==> is_first_max(values@, r as int),
    {
        if explore {
            DQNAgent::random_action()
        } else {
            self.act_greedy(values)
        }
    }

    /// The best action by `values`, which hold one value for each action:
    /// the action of the greatest value, the first such where several are
    /// greatest.
    pub fn act_greedy(&self, values: &Vec<i64>) -> (r: usize)
        requires
            values@.len() == ACTION_COUNT,
        ensures
            r < ACTION_COUNT,
            is_first_max(values@, r as int),
    {
        argmax(values)
    }

    /// Draws the places of a training batch in the memory, by chance and each
    /// draw on its own. There is none while the memory holds less than a
    /// batch.
    pub fn sample_batch(&self) -> (r: Option<Vec<usize>>)
        requires
            self.wf(),
        ensures
            r is Some <==> self.memory().len() >= self.batch(),
            r matches Some(picks) ==> self.is_batch(picks@),
    {
        let len: usize = self.replay_buffer.len();
        if len < self.batch_size {
            return None;
        }
        let mut picks: Vec<usize> = Vec::new();
        let mut k: usize = 0;
        while k < self.batch_size
            invariant
                k <= self.batch_size,
                len == self.replay_buffer@.len(),
                len >= 1,
                picks@.len() == k,
                forall|i: int| 0 <= i < picks@.len() ==> (#[trigger] picks@[i]) < len,
            decreases self.batch_size - k,
        {
            let pick: usize = random_below(len);
            picks.push(pick);
            k += 1;
        }
        Some(picks)
    }

    /// Gathers the memories at the places `picks` into a batch.
    pub fn gather(&self, picks: Vec<usize>) -> (r: Batch)
        requires
            self.wf(),
            forall|i: int| 0 <= i < picks@.len() ==> (#[trigger] picks@[i]) < self.memory().len(),
        ensures
            r.picks@ == picks@,
            is_gathered(self.memory(), r),
            forall|i: int| 0 <= i < r.actions@.len() ==> (#[trigger] r.actions@[i]) < ACTION_COUNT,
    {
        let mut states: Vec<Vec<Ratio>> = Vec::new();
        let mut actions: Vec<usize> = Vec::new();
        let mut rewards: Vec<Reward> = Vec::new();
        let mut next_states: Vec<Vec<Ratio>> = Vec::new();
        let mut dones: Vec<bool> = Vec::new();
        let mut k: usize = 0;
        while k < picks.len()
            invariant
                self.wf(),
                k <= picks@.len(),
                forall|i: int|
                    0 <= i < picks@.len() ==> (#[trigger] picks@[i]) < self.replay_buffer@.len(),
                forall|i: int| 0 <= i < k ==> (#[trigger] actions@[i]) < ACTION_COUNT,
                states@.len() == k,
                actions@.len() == k,
                rewards@.len() == k,
                next_states@.len() == k,
                dones@.len() == k,
                forall|i: int|
                    0 <= i < k ==> {
                        let from = self.replay_buffer@[(#[trigger] picks@[i]) as int];
                        &&& states@[i]@ == from.state@
                        &&& actions@[i] == from.action
                        &&& rewards@[i] == from.reward
                        &&& next_states@[i]@ == from.next_state@
                        &&& dones@[i] == from.done
                    },
            decreases picks@.len() - k,
        {
            let pick: usize = picks[k];
            assert(picks@[k as int] < self.replay_buffer@.len());
            let from = &self.replay_buffer[pick];
            assert(self.replay_buffer@[pick as int].action < ACTION_COUNT);
            states.push(copy_features(&from.state));
            actions.push(from.action);
            rewards.push(from.reward);
            next_states.push(copy_features(&from.next_state));
            dones.push(from.done);
            k += 1;
        }
        Batch { picks, states, actions, rewards, next_states, dones }
    }

    /// Counts one step of the game and, where training is due, gives the
    /// batch to train on: on every step whose number is a multiple of the
    /// cadence, once the memory holds a batch.
    pub fn step_and_train(&mut self) -> (r: Option<Batch>)
        requires
            old(self).wf(),
            old(self).steps() < u64::MAX,
        ensures
            final(self).wf(),
            final(self).steps() == old(self).steps() + 1,
            final(self).memory() == old(self).memory(),
            final(self).capacity() == old(self).capacity(),
            final(self).batch() == old(self).batch(),
            final(self).cadence() == old(self).cadence(),
            r is Some <==> final(self).training_due(),
            r matches Some(batch) ==> {
                &&& final(self).is_batch(batch.picks@)
                &&& is_gathered(final(self).memory(), batch)
                &&& forall|i: int|
                    0 <= i < batch.actions@.len() ==> (#[trigger] batch.actions@[i]) < ACTION_COUNT
            },
    {
        self.step_count += 1;
        if self.step_count % self.train_every != 0 {
            return None;
        }
        match self.sample_batch() {
            Some(picks) => Some(self.gather(picks)),
            None => None,
        }
    }
}

} // verus!
