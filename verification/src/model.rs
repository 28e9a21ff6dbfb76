//! The supervisor as a state machine over mathematical values.
//!
//! A state holds the tracked devices with the handles of their mirror
//! processes, the device set that was last reconciled against, and a phase:
//! what the supervisor has asked its driver for and now waits to be told.
//! `Model::step` takes a state and an event to the next state and the effects
//! that the driver is to perform, in order, before it serves the next request.
use vstd::prelude::*;
use crate::command::{Command, POLL_INTERVAL_SECS, RESTART_GRACE_SECS};
use crate::device_set::{lemma_without, without};
use crate::text::{first_index, lemma_first_index, lemma_first_index_contains, lemma_first_index_unique};

verus! {

/// What the driver tells the supervisor.
pub enum EventModel<H> {
    /// The command register as it was read; `None` when it could not be read
    /// without waiting.
    Command(Option<Command>),
    /// The identifier taken from the restart queue.
    RestartTarget(Seq<char>),
    /// How the requested spawn ended: the new handle, or `None` on failure.
    SpawnResult(Option<H>),
    /// The newest device set from the poller; `None` when there is no new one.
    Devices(Option<Seq<Seq<char>>>),
}

/// What the driver is to do, without anything to report back.
pub enum EffectModel<H> {
    /// Show these identifiers: the tracked devices.
    ShowTracked(Seq<Seq<char>>),
    /// Write `Idle` to the command register.
    ClearCommand,
    /// Kill the mirror process of this device, held by this handle.
    Kill(Seq<char>, H),
    /// Wait this many seconds.
    Pause(u64),
    /// Log that the mirror process of this device has started.
    Started(Seq<char>),
    /// Log that no mirror process could be started for this device.
    SpawnFailed(Seq<char>),
    /// Log that this device is gone.
    Removed(Seq<char>),
}

/// What the driver is to do next, and answer with an event.
pub enum RequestModel {
    /// Read the command register without waiting: `Command`.
    ReadCommand,
    /// Take one identifier from the restart queue, waiting for it:
    /// `RestartTarget`.
    TakeRestartTarget,
    /// Start a mirror process for this device: `SpawnResult`.
    Spawn(Seq<char>),
    /// Look for a new device set without waiting: `Devices`.
    PollDevices,
    /// Nothing: the supervisor has stopped.
    Halt,
}

/// What the supervisor waits to be told.
pub enum PhaseModel {
    /// The content of the command register.
    AwaitCommand,
    /// The device to restart.
    AwaitTarget,
    /// The result of spawning the replacement for this device.
    Respawning(Seq<char>),
    /// The newest device set.
    AwaitDevices,
    /// The result of spawning for the first device of `queue`, while
    /// reconciling against `target`.
    Spawning { target: Seq<Seq<char>>, queue: Seq<Seq<char>> },
    /// Nothing more.
    Halted,
}

/// A state of the supervisor.
pub struct Model<H> {
    /// The tracked devices, each with the handle of its mirror process.
    pub procs: Seq<(Seq<char>, H)>,
    /// The device set last reconciled against.
    pub known: Seq<Seq<char>>,
    /// What the supervisor waits for.
    pub phase: PhaseModel,
}

/// The identifiers of the tracked devices.
pub open spec fn keys<H>(procs: Seq<(Seq<char>, H)>) -> Seq<Seq<char>> {
    procs.map_values(|entry: (Seq<char>, H)| entry.0)
}

/// Where `id` stands among the tracked devices; the length when it is not
/// tracked.
pub open spec fn position<H>(procs: Seq<(Seq<char>, H)>, id: Seq<char>) -> int {
    first_index(keys(procs), id, 0)
}

/// The tracked devices as a map from identifier to handle.
pub open spec fn handle_map<H>(procs: Seq<(Seq<char>, H)>) -> Map<Seq<char>, H> {
    Map::new(
        |id: Seq<char>| keys(procs).contains(id),
        |id: Seq<char>| procs[position(procs, id)].1,
    )
}

/// One `Kill` for each tracked device.
pub open spec fn kills<H>(procs: Seq<(Seq<char>, H)>) -> Seq<EffectModel<H>> {
    procs.map_values(|entry: (Seq<char>, H)| EffectModel::Kill(entry.0, entry.1))
}

/// The log line for the result of a spawn.
pub open spec fn spawn_report<H>(id: Seq<char>, result: Option<H>) -> EffectModel<H> {
    match result {
        Some(_) => EffectModel::Started(id),
        None => EffectModel::SpawnFailed(id),
    }
}

/// The tracked devices after a spawn for `id`: with the new handle, or
/// unchanged when the spawn failed.
pub open spec fn adopt<H>(procs: Seq<(Seq<char>, H)>, id: Seq<char>, result: Option<H>) -> Seq<
    (Seq<char>, H),
> {
    match result {
        Some(handle) => procs.push((id, handle)),
        None => procs,
    }
}

/// Takes the devices of `removed` out of `tracked`, one after the other: the
/// devices that stay, and for each removed device a `Kill` if it was tracked,
/// then a `Removed`.
pub open spec fn retire<H>(procs: Seq<(Seq<char>, H)>, removed: Seq<Seq<char>>) -> (
    Seq<(Seq<char>, H)>,
    Seq<EffectModel<H>>,
)
    decreases removed.len(),
{
    if removed.len() == 0 {
        (procs, Seq::empty())
    } else {
        let before = retire(procs, removed.drop_last());
        let id = removed.last();
        let at = position(before.0, id);
        if at < before.0.len() {
            (
                before.0.remove(at),
                before.1.push(EffectModel::Kill(id, before.0[at].1)).push(EffectModel::Removed(id)),
            )
        } else {
            (before.0, before.1.push(EffectModel::Removed(id)))
        }
    }
}

/// The end of a reconciliation against `target`, after the effects `said`:
/// every known device that `target` lacks is retired, `target` becomes the
/// known set, and the supervisor rests one polling interval.
pub open spec fn settle<H>(
    procs: Seq<(Seq<char>, H)>,
    known: Seq<Seq<char>>,
    target: Seq<Seq<char>>,
    said: Seq<EffectModel<H>>,
) -> (Model<H>, Seq<EffectModel<H>>) {
    let gone = retire(procs, without(known, target));
    (
        Model { procs: gone.0, known: target, phase: PhaseModel::AwaitCommand },
        said + gone.1 + seq![EffectModel::Pause(POLL_INTERVAL_SECS)],
    )
}

impl<H> EventModel<H> {
    /// A device set names no device twice.
    pub open spec fn wf(self) -> bool {
        match self {
            EventModel::Devices(Some(target)) => target.no_duplicates(),
            _ => true,
        }
    }
}

impl<H> Model<H> {
    /// The state at startup: nothing tracked, nothing known, about to read the
    /// command register.
    pub open spec fn start() -> Model<H> {
        Model { procs: Seq::empty(), known: Seq::empty(), phase: PhaseModel::AwaitCommand }
    }

    /// The request that the driver is to serve in this state.
    pub open spec fn pending(self) -> RequestModel {
        match self.phase {
            PhaseModel::AwaitCommand => RequestModel::ReadCommand,
            PhaseModel::AwaitTarget => RequestModel::TakeRestartTarget,
            PhaseModel::Respawning(id) => RequestModel::Spawn(id),
            PhaseModel::AwaitDevices => RequestModel::PollDevices,
            PhaseModel::Spawning { target, queue } => RequestModel::Spawn(queue.first()),
            PhaseModel::Halted => RequestModel::Halt,
        }
    }

    /// Whether an event answers the pending request.
    pub open spec fn expects(self, event: EventModel<H>) -> bool {
        match (self.phase, event) {
            (PhaseModel::AwaitCommand, EventModel::Command(_)) => true,
            (PhaseModel::AwaitTarget, EventModel::RestartTarget(_)) => true,
            (PhaseModel::Respawning(_), EventModel::SpawnResult(_)) => true,
            (PhaseModel::AwaitDevices, EventModel::Devices(_)) => true,
            (PhaseModel::Spawning { .. }, EventModel::SpawnResult(_)) => true,
            _ => false,
        }
    }

    /// The state is sound: no device is tracked twice, every tracked device
    /// is in the known set or in the set being reconciled against, and no
    /// device that waits for a spawn is tracked.
    pub open spec fn wf(self) -> bool {
        &&& keys(self.procs).no_duplicates()
        &&& self.known.no_duplicates()
        &&& match self.phase {
            PhaseModel::Spawning { target, queue } => {
                &&& target.no_duplicates()
                &&& queue.no_duplicates()
                &&& queue.len() > 0
                &&& forall|id: Seq<char>| #[trigger]
                    queue.contains(id) ==> target.contains(id) && !keys(self.procs).contains(id)
                &&& forall|id: Seq<char>| #[trigger]
                    keys(self.procs).contains(id) ==> self.known.contains(id) || target.contains(
                        id,
                    )
            },
            PhaseModel::Respawning(id) => {
                &&& self.known.contains(id)
                &&& !keys(self.procs).contains(id)
                &&& forall|id: Seq<char>| #[trigger]
                    keys(self.procs).contains(id) ==> self.known.contains(id)
            },
            _ => forall|id: Seq<char>| #[trigger]
                keys(self.procs).contains(id) ==> self.known.contains(id),
        }
    }

    /// A command was read. `Quit` kills every tracked process and halts;
    /// `ListDevices` shows the tracked devices and clears the register;
    /// `RestartDevice` asks for the device to restart; `Idle`, or a register
    /// that could not be read, goes on to look for a new device set.
    pub open spec fn on_command(self, command: Option<Command>) -> (Model<H>, Seq<EffectModel<H>>) {
        match command {
            Some(Command::Quit) => (
                Model { procs: Seq::empty(), phase: PhaseModel::Halted, ..self },
                kills(self.procs),
            ),
            Some(Command::ListDevices) => (
                self,
                seq![EffectModel::ShowTracked(keys(self.procs)), EffectModel::ClearCommand],
            ),
            Some(Command::RestartDevice) => (
                Model { phase: PhaseModel::AwaitTarget, ..self },
                Seq::empty(),
            ),
            _ => (Model { phase: PhaseModel::AwaitDevices, ..self }, Seq::empty()),
        }
    }

    /// The device to restart was taken from the queue. A tracked device has
    /// its process killed and, after the grace period, a replacement spawned;
    /// for an untracked one the command is cleared and nothing else happens.
    pub open spec fn on_target(self, id: Seq<char>) -> (Model<H>, Seq<EffectModel<H>>) {
        let at = position(self.procs, id);
        if at < self.procs.len() {
            (
                Model {
                    procs: self.procs.remove(at),
                    phase: PhaseModel::Respawning(id),
                    ..self
                },
                seq![
                    EffectModel::Kill(id, self.procs[at].1),
                    EffectModel::Pause(RESTART_GRACE_SECS),
                ],
            )
        } else {
            (Model { phase: PhaseModel::AwaitCommand, ..self }, seq![EffectModel::ClearCommand])
        }
    }

    /// The spawn of a replacement ended. The device is tracked again if it
    /// succeeded and stays untracked if not; the command is cleared either way.
    pub open spec fn on_respawn(self, id: Seq<char>, result: Option<H>) -> (
        Model<H>,
        Seq<EffectModel<H>>,
    ) {
        (
            Model {
                procs: adopt(self.procs, id, result),
                phase: PhaseModel::AwaitCommand,
                ..self
            },
            seq![spawn_report(id, result), EffectModel::ClearCommand],
        )
    }

    /// The poller was asked for a new device set. Without one the supervisor
    /// rests one polling interval. With one it spawns for every device that
    /// is new, one after the other, and settles when none is left.
    pub open spec fn on_devices(self, devices: Option<Seq<Seq<char>>>) -> (
        Model<H>,
        Seq<EffectModel<H>>,
    ) {
        match devices {
            None => (
                Model { phase: PhaseModel::AwaitCommand, ..self },
                seq![EffectModel::Pause(POLL_INTERVAL_SECS)],
            ),
            Some(target) => {
                let queue = without(target, self.known);
                if queue.len() == 0 {
                    settle(self.procs, self.known, target, Seq::empty())
                } else {
                    (Model { phase: PhaseModel::Spawning { target, queue }, ..self }, Seq::empty())
                }
            },
        }
    }

    /// The spawn for the first device of `queue` ended. The device is tracked
    /// if it succeeded; then the next device of the queue is spawned for, or
    /// the reconciliation settles.
    pub open spec fn on_spawn(
        self,
        target: Seq<Seq<char>>,
        queue: Seq<Seq<char>>,
        result: Option<H>,
    ) -> (Model<H>, Seq<EffectModel<H>>) {
        let id = queue.first();
        let grown = adopt(self.procs, id, result);
        let said = seq![spawn_report(id, result)];
        let rest = queue.drop_first();
        if rest.len() == 0 {
            settle(grown, self.known, target, said)
        } else {
            (
                Model {
                    procs: grown,
                    phase: PhaseModel::Spawning { target, queue: rest },
                    ..self
                },
                said,
            )
        }
    }

    /// The next state and the effects for one event. An event that does not
    /// answer the pending request changes nothing and has no effect.
    pub open spec fn step(self, event: EventModel<H>) -> (Model<H>, Seq<EffectModel<H>>) {
        match (self.phase, event) {
            (PhaseModel::AwaitCommand, EventModel::Command(command)) => self.on_command(command),
            (PhaseModel::AwaitTarget, EventModel::RestartTarget(id)) => self.on_target(id),
            (PhaseModel::Respawning(id), EventModel::SpawnResult(result)) => self.on_respawn(
                id,
                result,
            ),
            (PhaseModel::AwaitDevices, EventModel::Devices(devices)) => self.on_devices(devices),
            (PhaseModel::Spawning { target, queue }, EventModel::SpawnResult(result)) => self.on_spawn(
                target,
                queue,
                result,
            ),
            _ => (self, Seq::empty()),
        }
    }
}

/// The entry at index `at` is found under its identifier.
pub proof fn lemma_position<H>(procs: Seq<(Seq<char>, H)>, at: int)
    requires
        keys(procs).no_duplicates(),
        0 <= at < procs.len(),
    ensures
        position(procs, procs[at].0) == at,
        keys(procs).contains(procs[at].0),
        handle_map(procs).contains_key(procs[at].0),
        handle_map(procs)[procs[at].0] == procs[at].1,
{
    let ids = keys(procs);
    assert(ids[at] == procs[at].0);
    lemma_first_index_unique(ids, procs[at].0, 0, at);
}

/// An untracked identifier is found nowhere; a tracked one at an index that
/// holds it.
pub proof fn lemma_position_range<H>(procs: Seq<(Seq<char>, H)>, id: Seq<char>)
    ensures
        0 <= position(procs, id) <= procs.len(),
        position(procs, id) < procs.len() <==> keys(procs).contains(id),
        position(procs, id) < procs.len() ==> procs[position(procs, id)].0 == id,
{
    lemma_first_index(keys(procs), id, 0);
    lemma_first_index_contains(keys(procs), id);
}

/// Tracking one more device adds it to the map.
pub proof fn lemma_map_push<H>(procs: Seq<(Seq<char>, H)>, id: Seq<char>, handle: H)
    requires
        keys(procs).no_duplicates(),
        !keys(procs).contains(id),
    ensures
        keys(procs.push((id, handle))) == keys(procs).push(id),
        keys(procs.push((id, handle))).no_duplicates(),
        handle_map(procs.push((id, handle))) == handle_map(procs).insert(id, handle),
{
    let more = procs.push((id, handle));
    assert(keys(more) =~= keys(procs).push(id));
    assert forall|i: int, j: int| 0 <= i < j < keys(more).len() implies keys(more)[i] != keys(
        more,
    )[j] by {
        if j == procs.len() {
            assert(keys(procs)[i] == keys(more)[i]);
        } else {
            assert(keys(procs)[i] != keys(procs)[j]);
        }
    }
    assert forall|x: Seq<char>| #[trigger]
        handle_map(more).contains_key(x) <==> handle_map(procs).insert(id, handle).contains_key(
            x,
        ) by {
        if keys(more).contains(x) {
            let k = choose|k: int| 0 <= k < keys(more).len() && keys(more)[k] == x;
            if k < procs.len() {
                assert(keys(procs)[k] == x);
            }
        }
        if keys(procs).contains(x) {
            let k = choose|k: int| 0 <= k < keys(procs).len() && keys(procs)[k] == x;
            assert(keys(more)[k] == x);
        }
        assert(keys(more)[procs.len() as int] == id);
    }
    assert forall|x: Seq<char>| #[trigger]
        handle_map(more).contains_key(x) implies handle_map(more)[x] == handle_map(
        procs,
    ).insert(id, handle)[x] by {
        let k = choose|k: int| 0 <= k < keys(more).len() && keys(more)[k] == x;
        lemma_position(more, k);
        if k < procs.len() {
            assert(keys(procs)[k] == x);
            lemma_position(procs, k);
        }
    }
    assert(handle_map(more) =~= handle_map(procs).insert(id, handle));
}

/// After a spawn for an untracked device the tracked devices are those of
/// before and, if the spawn succeeded, that device; none is tracked twice.
pub proof fn lemma_adopt_keys<H>(procs: Seq<(Seq<char>, H)>, id: Seq<char>, result: Option<H>)
    requires
        keys(procs).no_duplicates(),
        !keys(procs).contains(id),
    ensures
        keys(adopt(procs, id, result)).no_duplicates(),
        forall|x: Seq<char>| #[trigger]
            keys(adopt(procs, id, result)).contains(x) <==> keys(procs).contains(x) || (x == id
                && result is Some),
{
    if let Some(handle) = result {
        lemma_map_push(procs, id, handle);
        let more = procs.push((id, handle));
        assert forall|x: Seq<char>| #[trigger]
            keys(more).contains(x) <==> keys(procs).contains(x) || x == id by {
            assert(handle_map(more).contains_key(x) <==> keys(more).contains(x));
            assert(handle_map(procs).contains_key(x) <==> keys(procs).contains(x));
        }
    }
}

/// Dropping the entry at index `at` removes its identifier from the map.
pub proof fn lemma_map_remove<H>(procs: Seq<(Seq<char>, H)>, at: int)
    requires
        keys(procs).no_duplicates(),
        0 <= at < procs.len(),
    ensures
        keys(procs.remove(at)) == keys(procs).remove(at),
        keys(procs.remove(at)).no_duplicates(),
        handle_map(procs.remove(at)) == handle_map(procs).remove(procs[at].0),
{
    let less = procs.remove(at);
    let id = procs[at].0;
    assert(keys(less) =~= keys(procs).remove(at));
    assert forall|i: int| 0 <= i < less.len() implies #[trigger] less[i] == procs[if i < at {
        i
    } else {
        i + 1
    }] by {}
    assert forall|i: int, j: int| 0 <= i < j < keys(less).len() implies keys(less)[i] != keys(
        less,
    )[j] by {
        let a = if i < at { i } else { i + 1 };
        let b = if j < at { j } else { j + 1 };
        assert(keys(less)[i] == keys(procs)[a]);
        assert(keys(less)[j] == keys(procs)[b]);
    }
    assert forall|x: Seq<char>| #[trigger]
        handle_map(less).contains_key(x) <==> handle_map(procs).remove(id).contains_key(
            x,
        ) by {
        if keys(less).contains(x) {
            let k = choose|k: int| 0 <= k < keys(less).len() && keys(less)[k] == x;
            let a = if k < at { k } else { k + 1 };
            assert(keys(less)[k] == keys(procs)[a]);
            assert(keys(procs)[a] != keys(procs)[at]);
        }
        if keys(procs).contains(x) && x != id {
            let k = choose|k: int| 0 <= k < keys(procs).len() && keys(procs)[k] == x;
            let a = if k < at { k } else { k - 1 };
            assert(keys(less)[a] == x);
        }
    }
    assert forall|x: Seq<char>| #[trigger]
        handle_map(less).contains_key(x) implies handle_map(less)[x] == handle_map(
        procs,
    ).remove(id)[x] by {
        let k = choose|k: int| 0 <= k < keys(less).len() && keys(less)[k] == x;
        let a = if k < at { k } else { k + 1 };
        assert(keys(less)[k] == keys(procs)[a]);
        lemma_position(less, k);
        lemma_position(procs, a);
    }
    assert(handle_map(less) =~= handle_map(procs).remove(id));
}

/// Retiring devices removes exactly them from the map.
pub proof fn lemma_retire<H>(procs: Seq<(Seq<char>, H)>, removed: Seq<Seq<char>>)
    requires
        keys(procs).no_duplicates(),
    ensures
        keys(retire(procs, removed).0).no_duplicates(),
        handle_map(retire(procs, removed).0) == handle_map(procs).remove_keys(
            removed.to_set(),
        ),
    decreases removed.len(),
{
    if removed.len() == 0 {
        assert(removed.to_set() =~= Set::<Seq<char>>::empty());
        assert(handle_map(procs).remove_keys(removed.to_set()) =~= handle_map(procs));
    } else {
        let front = removed.drop_last();
        let id = removed.last();
        lemma_retire(procs, front);
        let before = retire(procs, front).0;
        let at = position(before, id);
        lemma_position_range(before, id);
        assert(removed =~= front.push(id));
        front.lemma_push_to_set_commute(id);
        if at < before.len() {
            lemma_map_remove(before, at);
        }
        assert(handle_map(retire(procs, removed).0) =~= handle_map(procs).remove_keys(
            removed.to_set(),
        ));
    }
}

/// The identifiers under which the map has a handle are those of `keys`.
pub proof fn lemma_map_keys<H>(procs: Seq<(Seq<char>, H)>)
    ensures
        forall|id: Seq<char>| #[trigger]
            handle_map(procs).contains_key(id) <==> keys(procs).contains(id),
{
}

/// Settling leaves a sound state.
pub proof fn lemma_settle_wf<H>(
    procs: Seq<(Seq<char>, H)>,
    known: Seq<Seq<char>>,
    target: Seq<Seq<char>>,
    said: Seq<EffectModel<H>>,
)
    requires
        keys(procs).no_duplicates(),
        target.no_duplicates(),
        forall|id: Seq<char>| #[trigger]
            keys(procs).contains(id) ==> known.contains(id) || target.contains(id),
    ensures
        settle(procs, known, target, said).0.wf(),
{
    let gone = without(known, target);
    let left = retire(procs, gone).0;
    lemma_retire(procs, gone);
    lemma_without(known, target);
    lemma_map_keys(procs);
    lemma_map_keys(left);
    assert forall|id: Seq<char>| #[trigger] keys(left).contains(id) implies target.contains(
        id,
    ) by {
        assert(handle_map(left).contains_key(id));
        assert(handle_map(procs).contains_key(id));
        assert(!gone.to_set().contains(id));
        assert(!gone.contains(id));
        assert(keys(procs).contains(id));
    }
}

/// Every step from a sound state on a sound event leads to a sound state.
pub proof fn lemma_step_wf<H>(s: Model<H>, event: EventModel<H>)
    requires
        s.wf(),
        event.wf(),
    ensures
        s.step(event).0.wf(),
{
    let next = s.step(event).0;
    lemma_map_keys(s.procs);
    lemma_map_keys(next.procs);
    match (s.phase, event) {
        (PhaseModel::AwaitCommand, EventModel::Command(command)) => {
            if command == Some(Command::Quit) {
                assert(keys(next.procs) =~= Seq::<Seq<char>>::empty());
            }
        },
        (PhaseModel::AwaitTarget, EventModel::RestartTarget(id)) => {
            let at = position(s.procs, id);
            lemma_position_range(s.procs, id);
            if at < s.procs.len() {
                lemma_map_remove(s.procs, at);
                assert(!handle_map(next.procs).contains_key(id));
                assert forall|x: Seq<char>| #[trigger]
                    keys(next.procs).contains(x) implies s.known.contains(x) by {
                    assert(handle_map(next.procs).contains_key(x));
                    assert(keys(s.procs).contains(x));
                }
            }
        },
        (PhaseModel::Respawning(id), EventModel::SpawnResult(result)) => {
            if let Some(handle) = result {
                lemma_map_push(s.procs, id, handle);
                assert forall|x: Seq<char>| #[trigger]
                    keys(next.procs).contains(x) implies s.known.contains(x) by {
                    assert(handle_map(next.procs).contains_key(x));
                    if x != id {
                        assert(keys(s.procs).contains(x));
                    }
                }
            }
        },
        (PhaseModel::AwaitDevices, EventModel::Devices(devices)) => {
            if let Some(target) = devices {
                let queue = without(target, s.known);
                lemma_without(target, s.known);
                if queue.len() == 0 {
                    lemma_settle_wf(s.procs, s.known, target, Seq::empty());
                }
            }
        },
        (PhaseModel::Spawning { target, queue }, EventModel::SpawnResult(result)) => {
            let id = queue.first();
            let grown = Model { procs: adopt(s.procs, id, result), ..s };
            let rest = queue.drop_first();
            assert(queue.contains(id));
            lemma_adopt_keys(s.procs, id, result);
            if rest.len() == 0 {
                lemma_settle_wf(grown.procs, s.known, target, seq![spawn_report(id, result)]);
            } else {
                assert forall|x: Seq<char>| #[trigger] rest.contains(x) implies target.contains(x)
                    && !keys(grown.procs).contains(x) by {
                    let k = choose|k: int| 0 <= k < rest.len() && rest[k] == x;
                    assert(queue[k + 1] == x);
                    assert(queue.contains(x));
                    assert(x != id);
                }
                assert(rest.no_duplicates());
            }
        },
        _ => {},
    }
}

} // verus!
