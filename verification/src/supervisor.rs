//! The executable process supervisor.
//!
//! `Supervisor::step` is `Model::step` on machine values: it takes the event
//! that the driver reports, and returns the effects that the driver is to
//! perform, in order, and the request that it is to serve next. The driver
//! owns every side effect; the supervisor owns the handles and every decision.
use vstd::prelude::*;
use crate::command::{Command, POLL_INTERVAL_SECS, RESTART_GRACE_SECS};
use crate::device_set::{names, without, DeviceSet};
use crate::model::{
    adopt, handle_map, keys, kills, lemma_adopt_keys, lemma_map_keys, lemma_position_range,
    lemma_settle_wf, lemma_step_wf, position, retire, settle, spawn_report, EffectModel, EventModel,
    Model, PhaseModel, RequestModel,
};
use crate::text::first_index;

verus! {

/// What the driver tells the supervisor.
pub enum Event<H> {
    /// The command register as it was read; `None` when it could not be read
    /// without waiting.
    Command(Option<Command>),
    /// The identifier taken from the restart queue.
    RestartTarget(String),
    /// How the requested spawn ended: the new handle, or `None` on failure.
    SpawnResult(Option<H>),
    /// The newest device set from the poller; `None` when there is no new one.
    Devices(Option<DeviceSet>),
}

/// What the driver is to do, without anything to report back.
#[derive(Debug, PartialEq, Eq)]
pub enum Effect<H> {
    /// Show these identifiers: the tracked devices.
    ShowTracked(Vec<String>),
    /// Write `Idle` to the command register.
    ClearCommand,
    /// Kill the mirror process of this device, held by this handle; a process
    /// that has ended already counts as killed.
    Kill(String, H),
    /// Wait this many seconds.
    Pause(u64),
    /// Log that the mirror process of this device has started.
    Started(String),
    /// Log that no mirror process could be started for this device.
    SpawnFailed(String),
    /// Log that this device is gone.
    Removed(String),
}

/// What the driver is to do next, and answer with an event.
#[derive(Debug, PartialEq, Eq)]
pub enum Request {
    /// Read the command register without waiting: `Event::Command`.
    ReadCommand,
    /// Take one identifier from the restart queue, waiting for it:
    /// `Event::RestartTarget`.
    TakeRestartTarget,
    /// Start a mirror process for this device: `Event::SpawnResult`.
    Spawn(String),
    /// Look for a new device set without waiting: `Event::Devices`.
    PollDevices,
    /// Nothing: the supervisor has stopped.
    Halt,
}

/// The outcome of one step: effects to perform in order, then the request to
/// serve.
#[derive(Debug)]
pub struct Reaction<H> {
    pub effects: Vec<Effect<H>>,
    pub next: Request,
}

impl<H> Event<H> {
    pub open spec fn view(self) -> EventModel<H> {
        match self {
            Event::Command(command) => EventModel::Command(command),
            Event::RestartTarget(id) => EventModel::RestartTarget(id@),
            Event::SpawnResult(result) => EventModel::SpawnResult(result),
            Event::Devices(Some(devices)) => EventModel::Devices(Some(devices@)),
            Event::Devices(None) => EventModel::Devices(None),
        }
    }
}

impl<H> Effect<H> {
    pub open spec fn view(self) -> EffectModel<H> {
        match self {
            Effect::ShowTracked(ids) => EffectModel::ShowTracked(names(ids@)),
            Effect::ClearCommand => EffectModel::ClearCommand,
            Effect::Kill(id, handle) => EffectModel::Kill(id@, handle),
            Effect::Pause(secs) => EffectModel::Pause(secs),
            Effect::Started(id) => EffectModel::Started(id@),
            Effect::SpawnFailed(id) => EffectModel::SpawnFailed(id@),
            Effect::Removed(id) => EffectModel::Removed(id@),
        }
    }
}

impl Request {
    pub open spec fn view(self) -> RequestModel {
        match self {
            Request::ReadCommand => RequestModel::ReadCommand,
            Request::TakeRestartTarget => RequestModel::TakeRestartTarget,
            Request::Spawn(id) => RequestModel::Spawn(id@),
            Request::PollDevices => RequestModel::PollDevices,
            Request::Halt => RequestModel::Halt,
        }
    }
}

/// The effects as the model has them.
pub open spec fn effect_views<H>(effects: Seq<Effect<H>>) -> Seq<EffectModel<H>> {
    effects.map_values(|effect: Effect<H>| effect@)
}

/// The tracked devices as the model has them.
pub open spec fn entries<H>(procs: Seq<(String, H)>) -> Seq<(Seq<char>, H)> {
    procs.map_values(|entry: (String, H)| (entry.0@, entry.1))
}

/// A step's outcome is the one that the model gives.
pub open spec fn agrees<H>(
    out: (Supervisor<H>, Reaction<H>),
    expected: (Model<H>, Seq<EffectModel<H>>),
) -> bool {
    &&& out.0@ == expected.0
    &&& effect_views(out.1.effects@) == expected.1
    &&& out.1.next@ == expected.0.pending()
    &&& expected.0.wf()
}

proof fn lemma_views_push<H>(effects: Seq<Effect<H>>, effect: Effect<H>)
    ensures
        effect_views(effects.push(effect)) == effect_views(effects).push(effect@),
{
    assert(effect_views(effects.push(effect)) =~= effect_views(effects).push(effect@));
}

/// Where `id` stands among the tracked devices; the length when it is not
/// tracked.
fn find_key<H>(procs: &Vec<(String, H)>, id: &String) -> (at: usize)
    ensures
        at == position(entries(procs@), id@),
        at <= procs@.len(),
        at < procs@.len() ==> procs@[at as int].0@ == id@,
{
    let mut i: usize = 0;
    while i < procs.len() && !(procs[i].0 == *id)
        invariant
            i <= procs.len(),
            position(entries(procs@), id@) == first_index(keys(entries(procs@)), id@, i as int),
        decreases procs.len() - i,
    {
        assert(keys(entries(procs@))[i as int] == procs@[i as int].0@);
        i = i + 1;
    }
    assert(i < procs.len() ==> keys(entries(procs@))[i as int] == procs@[i as int].0@);
    i
}

/// The identifiers of the tracked devices.
fn key_list<H>(procs: &Vec<(String, H)>) -> (ids: Vec<String>)
    ensures
        names(ids@) == keys(entries(procs@)),
{
    let mut ids: Vec<String> = Vec::new();
    let mut i: usize = 0;
    while i < procs.len()
        invariant
            i <= procs.len(),
            names(ids@) == keys(entries(procs@)).take(i as int),
        decreases procs.len() - i,
    {
        let id = procs[i].0.clone();
        let ghost before = names(ids@);
        ids.push(id);
        assert(names(ids@) =~= before.push(id@));
        assert(keys(entries(procs@)).take(i + 1) =~= keys(entries(procs@)).take(i as int).push(
            procs@[i as int].0@,
        ));
        i = i + 1;
    }
    assert(keys(entries(procs@)).take(procs@.len() as int) =~= keys(entries(procs@)));
    ids
}

/// One `Kill` for each tracked device, in order.
fn kill_all<H>(procs: Vec<(String, H)>) -> (effects: Vec<Effect<H>>)
    ensures
        effect_views(effects@) == kills(entries(procs@)),
{
    let mut effects: Vec<Effect<H>> = Vec::new();
    let ghost all = procs@;
    for entry in it: procs
        invariant
            it.seq() == all,
            effect_views(effects@) == kills(entries(all)).take(it.index() as int),
    {
        let ghost before = effects@;
        let (id, handle) = entry;
        let ghost kill = EffectModel::Kill(id@, handle);
        effects.push(Effect::Kill(id, handle));
        proof {
            lemma_views_push(before, effects@.last());
            assert(kills(entries(all)).take(it.index() + 1) =~= kills(entries(all)).take(
                it.index() as int,
            ).push(kill));
        }
    }
    assert(kills(entries(all)).take(all.len() as int) =~= kills(entries(all)));
    effects
}

/// Takes the devices of `removed` out of `procs`, one after the other, and
/// adds to `effects` what the model's `retire` lists.
fn retire_all<H>(procs: &mut Vec<(String, H)>, removed: &Vec<String>, effects: &mut Vec<Effect<H>>)
    ensures
        entries(final(procs)@) == retire(entries(old(procs)@), names(removed@)).0,
        effect_views(final(effects)@) == effect_views(old(effects)@) + retire(
            entries(old(procs)@),
            names(removed@),
        ).1,
{
    let ghost start = entries(procs@);
    let ghost said = effect_views(effects@);
    let ghost gone = names(removed@);
    let mut i: usize = 0;
    proof {
        assert(gone.take(0) =~= Seq::<Seq<char>>::empty());
        assert(said + retire(start, gone.take(0)).1 =~= said);
    }
    while i < removed.len()
        invariant
            i <= removed.len(),
            gone == names(removed@),
            entries(procs@) == retire(start, gone.take(i as int)).0,
            effect_views(effects@) == said + retire(start, gone.take(i as int)).1,
        decreases removed.len() - i,
    {
        let ghost before = retire(start, gone.take(i as int));
        let ghost had = effects@;
        let ghost held = procs@;
        proof {
            assert(gone.take(i + 1).drop_last() =~= gone.take(i as int));
            assert(gone.take(i + 1).last() == removed@[i as int]@);
        }
        let at = find_key(procs, &removed[i]);
        if at < procs.len() {
            let (id, handle) = procs.remove(at);
            effects.push(Effect::Kill(id, handle));
            let ghost mid = effects@;
            effects.push(Effect::Removed(removed[i].clone()));
            proof {
                assert(entries(procs@) =~= entries(held).remove(at as int));
                lemma_views_push(had, mid.last());
                lemma_views_push(mid, effects@.last());
                assert(effect_views(effects@) =~= said + before.1.push(
                    EffectModel::Kill(removed@[i as int]@, entries(held)[at as int].1),
                ).push(EffectModel::Removed(removed@[i as int]@)));
            }
        } else {
            effects.push(Effect::Removed(removed[i].clone()));
            proof {
                lemma_views_push(had, effects@.last());
                assert(effect_views(effects@) =~= said + before.1.push(
                    EffectModel::Removed(removed@[i as int]@),
                ));
            }
        }
        i = i + 1;
    }
    assert(gone.take(removed@.len() as int) =~= gone);
}

/// What the supervisor waits to be told.
enum Phase {
    AwaitCommand,
    AwaitTarget,
    Respawning(String),
    AwaitDevices,
    /// The devices of `queue` from index `next` on are still to be spawned for.
    Spawning { target: DeviceSet, queue: Vec<String>, next: usize },
    Halted,
}

impl Phase {
    spec fn view(self) -> PhaseModel {
        match self {
            Phase::AwaitCommand => PhaseModel::AwaitCommand,
            Phase::AwaitTarget => PhaseModel::AwaitTarget,
            Phase::Respawning(id) => PhaseModel::Respawning(id@),
            Phase::AwaitDevices => PhaseModel::AwaitDevices,
            Phase::Spawning { target, queue, next } => PhaseModel::Spawning {
                target: target@,
                queue: names(queue@).skip(next as int),
            },
            Phase::Halted => PhaseModel::Halted,
        }
    }

    spec fn in_range(self) -> bool {
        match self {
            Phase::Spawning { target, queue, next } => next < queue@.len(),
            _ => true,
        }
    }
}

/// The process supervisor: the tracked devices with the handles of their
/// mirror processes, the device set last reconciled against, and what it
/// waits for.
pub struct Supervisor<H> {
    procs: Vec<(String, H)>,
    known: DeviceSet,
    phase: Phase,
}

impl<H> Supervisor<H> {
    /// The state as the model has it.
    pub closed spec fn view(self) -> Model<H> {
        Model { procs: entries(self.procs@), known: self.known@, phase: self.phase@ }
    }

    #[verifier::type_invariant]
    spec fn sound(self) -> bool {
        self@.wf() && self.phase.in_range()
    }

    /// The supervisor at startup: it tracks nothing, knows no device, and is
    /// about to read the command register.
    pub fn new() -> (supervisor: Supervisor<H>)
        ensures
            supervisor@ == Model::<H>::start(),
            supervisor@.wf(),
    {
        let supervisor = Supervisor {
            procs: Vec::new(),
            known: DeviceSet::new(),
            phase: Phase::AwaitCommand,
        };
        assert(entries(supervisor.procs@) =~= Seq::<(Seq<char>, H)>::empty());
        assert(keys(Seq::<(Seq<char>, H)>::empty()) =~= Seq::<Seq<char>>::empty());
        supervisor
    }

    /// The request that the driver is to serve now.
    pub fn pending(&self) -> (request: Request)
        ensures
            request@ == self@.pending(),
            self@.wf(),
    {
        proof {
            use_type_invariant(self);
        }
        Self::request_for(&self.phase)
    }

    fn request_for(phase: &Phase) -> (request: Request)
        requires
            phase.in_range(),
        ensures
            request@ == (Model::<H> { procs: Seq::empty(), known: Seq::empty(), phase: phase@ }).pending(),
    {
        match phase {
            Phase::AwaitCommand => Request::ReadCommand,
            Phase::AwaitTarget => Request::TakeRestartTarget,
            Phase::Respawning(id) => Request::Spawn(id.clone()),
            Phase::AwaitDevices => Request::PollDevices,
            Phase::Spawning { target, queue, next } => {
                assert(names(queue@).skip(*next as int).first() == queue@[*next as int]@);
                Request::Spawn(queue[*next].clone())
            },
            Phase::Halted => Request::Halt,
        }
    }

    /// Whether the supervisor has stopped for good.
    pub fn is_halted(&self) -> (halted: bool)
        ensures
            halted == (self@.phase == PhaseModel::Halted),
    {
        match self.phase {
            Phase::Halted => true,
            _ => false,
        }
    }

    /// The identifiers of the tracked devices.
    pub fn tracked_devices(&self) -> (ids: Vec<String>)
        ensures
            names(ids@) == keys(self@.procs),
    {
        key_list(&self.procs)
    }

    /// The identifiers of the device set last reconciled against.
    pub fn known_devices(&self) -> (ids: Vec<String>)
        ensures
            names(ids@) == self@.known,
    {
        self.known.to_vec()
    }

    /// The handle of the mirror process of `id`, if `id` is tracked.
    pub fn handle(&self, id: &String) -> (handle: Option<&H>)
        ensures
            handle_map(self@.procs).contains_key(id@) ==> handle == Some(
                &handle_map(self@.procs)[id@],
            ),
            !handle_map(self@.procs).contains_key(id@) ==> handle is None,
    {
        proof {
            lemma_position_range(self@.procs, id@);
            lemma_map_keys(self@.procs);
        }
        let at = find_key(&self.procs, id);
        if at < self.procs.len() {
            Some(&self.procs[at].1)
        } else {
            None
        }
    }

    /// Takes one event to the next state, the effects to perform and the
    /// request to serve next, as `Model::step` gives them. An event that does
    /// not answer the pending request changes nothing and has no effect.
    pub fn step(self, event: Event<H>) -> (out: (Supervisor<H>, Reaction<H>))
        ensures
            agrees(out, self@.step(event@)),
    {
        proof {
            use_type_invariant(&self);
        }
        let Supervisor { procs, known, phase } = self;
        match phase {
            Phase::AwaitCommand => match event {
                Event::Command(command) => Self::on_command(procs, known, command),
                _ => Self::stay(procs, known, Phase::AwaitCommand),
            },
            Phase::AwaitTarget => match event {
                Event::RestartTarget(id) => Self::on_target(procs, known, id),
                _ => Self::stay(procs, known, Phase::AwaitTarget),
            },
            Phase::Respawning(id) => match event {
                Event::SpawnResult(result) => Self::on_respawn(procs, known, id, result),
                _ => Self::stay(procs, known, Phase::Respawning(id)),
            },
            Phase::AwaitDevices => match event {
                Event::Devices(devices) => Self::on_devices(procs, known, devices),
                _ => Self::stay(procs, known, Phase::AwaitDevices),
            },
            Phase::Spawning { target, queue, next } => match event {
                Event::SpawnResult(result) => Self::on_spawn(
                    procs,
                    known,
                    target,
                    queue,
                    next,
                    result,
                ),
                _ => Self::stay(procs, known, Phase::Spawning { target, queue, next }),
            },
            Phase::Halted => Self::stay(procs, known, Phase::Halted),
        }
    }

    /// The state as it is, with no effect.
    fn stay(procs: Vec<(String, H)>, known: DeviceSet, phase: Phase) -> (out: (
        Supervisor<H>,
        Reaction<H>,
    ))
        requires
            (Model { procs: entries(procs@), known: known@, phase: phase@ }).wf(),
            phase.in_range(),
        ensures
            agrees(out, (Model { procs: entries(procs@), known: known@, phase: phase@ }, Seq::empty())),
    {
        let next = Self::request_for(&phase);
        let effects: Vec<Effect<H>> = Vec::new();
        assert(effect_views(effects@) =~= Seq::<EffectModel<H>>::empty());
        (Supervisor { procs, known, phase }, Reaction { effects, next })
    }

    fn on_command(procs: Vec<(String, H)>, known: DeviceSet, command: Option<Command>) -> (out: (
        Supervisor<H>,
        Reaction<H>,
    ))
        requires
            (Model { procs: entries(procs@), known: known@, phase: PhaseModel::AwaitCommand }).wf(),
        ensures
            agrees(
                out,
                (Model {
                    procs: entries(procs@),
                    known: known@,
                    phase: PhaseModel::AwaitCommand,
                }).on_command(command),
            ),
    {
        let ghost s = Model { procs: entries(procs@), known: known@, phase: PhaseModel::AwaitCommand };
        proof {
            lemma_step_wf(s, EventModel::Command(command));
        }
        match command {
            Some(Command::Quit) => {
                let effects = kill_all(procs);
                let none: Vec<(String, H)> = Vec::new();
                assert(entries(none@) =~= Seq::<(Seq<char>, H)>::empty());
                (
                    Supervisor { procs: none, known, phase: Phase::Halted },
                    Reaction { effects, next: Request::Halt },
                )
            },
            Some(Command::ListDevices) => {
                let mut effects: Vec<Effect<H>> = Vec::new();
                effects.push(Effect::ShowTracked(key_list(&procs)));
                effects.push(Effect::ClearCommand);
                assert(effect_views(effects@) =~= s.on_command(command).1);
                (
                    Supervisor { procs, known, phase: Phase::AwaitCommand },
                    Reaction { effects, next: Request::ReadCommand },
                )
            },
            Some(Command::RestartDevice) => {
                let effects: Vec<Effect<H>> = Vec::new();
                assert(effect_views(effects@) =~= s.on_command(command).1);
                (
                    Supervisor { procs, known, phase: Phase::AwaitTarget },
                    Reaction { effects, next: Request::TakeRestartTarget },
                )
            },
            _ => {
                let effects: Vec<Effect<H>> = Vec::new();
                assert(effect_views(effects@) =~= s.on_command(command).1);
                (
                    Supervisor { procs, known, phase: Phase::AwaitDevices },
                    Reaction { effects, next: Request::PollDevices },
                )
            },
        }
    }

    fn on_target(procs: Vec<(String, H)>, known: DeviceSet, id: String) -> (out: (
        Supervisor<H>,
        Reaction<H>,
    ))
        requires
            (Model { procs: entries(procs@), known: known@, phase: PhaseModel::AwaitTarget }).wf(),
        ensures
            agrees(
                out,
                (Model {
                    procs: entries(procs@),
                    known: known@,
                    phase: PhaseModel::AwaitTarget,
                }).on_target(id@),
            ),
    {
        let ghost s = Model { procs: entries(procs@), known: known@, phase: PhaseModel::AwaitTarget };
        proof {
            lemma_step_wf(s, EventModel::RestartTarget(id@));
        }
        let mut procs = procs;
        let mut effects: Vec<Effect<H>> = Vec::new();
        let at = find_key(&procs, &id);
        if at < procs.len() {
            let ghost held = procs@;
            let (old_id, handle) = procs.remove(at);
            effects.push(Effect::Kill(old_id, handle));
            effects.push(Effect::Pause(RESTART_GRACE_SECS));
            let next = Request::Spawn(id.clone());
            proof {
                assert(entries(procs@) =~= entries(held).remove(at as int));
                assert(effect_views(effects@) =~= s.on_target(id@).1);
            }
            (Supervisor { procs, known, phase: Phase::Respawning(id) }, Reaction { effects, next })
        } else {
            effects.push(Effect::ClearCommand);
            assert(effect_views(effects@) =~= s.on_target(id@).1);
            (
                Supervisor { procs, known, phase: Phase::AwaitCommand },
                Reaction { effects, next: Request::ReadCommand },
            )
        }
    }

    /// Tracks `id` with the new handle if there is one, and adds the log line
    /// for the spawn to `effects`.
    fn take_in(
        procs: &mut Vec<(String, H)>,
        effects: &mut Vec<Effect<H>>,
        id: String,
        result: Option<H>,
    )
        ensures
            entries(final(procs)@) == adopt(entries(old(procs)@), id@, result),
            effect_views(final(effects)@) == effect_views(old(effects)@).push(
                spawn_report(id@, result),
            ),
    {
        let ghost held = procs@;
        let ghost had = effects@;
        match result {
            Some(handle) => {
                let ghost entry = (id@, handle);
                effects.push(Effect::Started(id.clone()));
                procs.push((id, handle));
                proof {
                    assert(entries(procs@) =~= entries(held).push(entry));
                    lemma_views_push(had, effects@.last());
                }
            },
            None => {
                effects.push(Effect::SpawnFailed(id));
                proof {
                    lemma_views_push(had, effects@.last());
                }
            },
        }
    }

    fn on_respawn(procs: Vec<(String, H)>, known: DeviceSet, id: String, result: Option<H>) -> (out: (
        Supervisor<H>,
        Reaction<H>,
    ))
        requires
            (Model { procs: entries(procs@), known: known@, phase: PhaseModel::Respawning(id@) }).wf(),
        ensures
            agrees(
                out,
                (Model {
                    procs: entries(procs@),
                    known: known@,
                    phase: PhaseModel::Respawning(id@),
                }).on_respawn(id@, result),
            ),
    {
        let ghost s = Model {
            procs: entries(procs@),
            known: known@,
            phase: PhaseModel::Respawning(id@),
        };
        proof {
            lemma_step_wf(s, EventModel::SpawnResult(result));
        }
        let mut procs = procs;
        let mut effects: Vec<Effect<H>> = Vec::new();
        assert(effect_views(effects@) =~= Seq::<EffectModel<H>>::empty());
        let ghost expected = s.on_respawn(id@, result).1;
        Self::take_in(&mut procs, &mut effects, id, result);
        let ghost had = effects@;
        effects.push(Effect::ClearCommand);
        proof {
            lemma_views_push(had, Effect::ClearCommand);
            assert(effect_views(effects@) =~= expected);
        }
        (
            Supervisor { procs, known, phase: Phase::AwaitCommand },
            Reaction { effects, next: Request::ReadCommand },
        )
    }

    fn settle(
        procs: Vec<(String, H)>,
        known: DeviceSet,
        target: DeviceSet,
        effects: Vec<Effect<H>>,
    ) -> (out: (Supervisor<H>, Reaction<H>))
        requires
            keys(entries(procs@)).no_duplicates(),
            forall|id: Seq<char>| #[trigger]
                keys(entries(procs@)).contains(id) ==> known@.contains(id) || target@.contains(id),
        ensures
            agrees(out, settle(entries(procs@), known@, target@, effect_views(effects@))),
    {
        proof {
            use_type_invariant(&target);
            lemma_settle_wf(entries(procs@), known@, target@, effect_views(effects@));
        }
        let ghost expected = settle(entries(procs@), known@, target@, effect_views(effects@));
        let mut procs = procs;
        let mut effects = effects;
        let removed = known.minus(&target);
        retire_all(&mut procs, &removed, &mut effects);
        let ghost had = effects@;
        effects.push(Effect::Pause(POLL_INTERVAL_SECS));
        proof {
            lemma_views_push(had, Effect::Pause(POLL_INTERVAL_SECS));
            assert(effect_views(effects@) =~= expected.1);
        }
        (
            Supervisor { procs, known: target, phase: Phase::AwaitCommand },
            Reaction { effects, next: Request::ReadCommand },
        )
    }

    fn on_devices(procs: Vec<(String, H)>, known: DeviceSet, devices: Option<DeviceSet>) -> (out: (
        Supervisor<H>,
        Reaction<H>,
    ))
        requires
            (Model { procs: entries(procs@), known: known@, phase: PhaseModel::AwaitDevices }).wf(),
        ensures
            agrees(
                out,
                (Model {
                    procs: entries(procs@),
                    known: known@,
                    phase: PhaseModel::AwaitDevices,
                }).on_devices(
                    match devices {
                        Some(target) => Some(target@),
                        None => None,
                    },
                ),
            ),
    {
        let ghost s = Model { procs: entries(procs@), known: known@, phase: PhaseModel::AwaitDevices };
        match devices {
            None => {
                proof {
                    lemma_step_wf(s, EventModel::Devices(None));
                }
                let mut effects: Vec<Effect<H>> = Vec::new();
                effects.push(Effect::Pause(POLL_INTERVAL_SECS));
                assert(effect_views(effects@) =~= s.on_devices(None).1);
                (
                    Supervisor { procs, known, phase: Phase::AwaitCommand },
                    Reaction { effects, next: Request::ReadCommand },
                )
            },
            Some(target) => {
                proof {
                    use_type_invariant(&target);
                    lemma_step_wf(s, EventModel::Devices(Some(target@)));
                }
                let queue = target.minus(&known);
                let effects: Vec<Effect<H>> = Vec::new();
                assert(effect_views(effects@) =~= Seq::<EffectModel<H>>::empty());
                if queue.len() == 0 {
                    Self::settle(procs, known, target, effects)
                } else {
                    let next = Request::Spawn(queue[0].clone());
                    proof {
                        assert(names(queue@).skip(0) =~= names(queue@));
                    }
                    (
                        Supervisor { procs, known, phase: Phase::Spawning { target, queue, next: 0 } },
                        Reaction { effects, next },
                    )
                }
            },
        }
    }

    fn on_spawn(
        procs: Vec<(String, H)>,
        known: DeviceSet,
        target: DeviceSet,
        queue: Vec<String>,
        next: usize,
        result: Option<H>,
    ) -> (out: (Supervisor<H>, Reaction<H>))
        requires
            next < queue@.len(),
            (Model {
                procs: entries(procs@),
                known: known@,
                phase: PhaseModel::Spawning {
                    target: target@,
                    queue: names(queue@).skip(next as int),
                },
            }).wf(),
        ensures
            agrees(
                out,
                (Model {
                    procs: entries(procs@),
                    known: known@,
                    phase: PhaseModel::Spawning {
                        target: target@,
                        queue: names(queue@).skip(next as int),
                    },
                }).on_spawn(target@, names(queue@).skip(next as int), result),
            ),
    {
        let ghost waiting = names(queue@).skip(next as int);
        let ghost s = Model {
            procs: entries(procs@),
            known: known@,
            phase: PhaseModel::Spawning { target: target@, queue: waiting },
        };
        proof {
            lemma_step_wf(s, EventModel::SpawnResult(result));
            assert(waiting.first() == queue@[next as int]@);
            assert(waiting.drop_first() =~= names(queue@).skip(next + 1));
        }
        let mut procs = procs;
        let mut effects: Vec<Effect<H>> = Vec::new();
        assert(effect_views(effects@) =~= Seq::<EffectModel<H>>::empty());
        let ghost outcome = result;
        Self::take_in(&mut procs, &mut effects, queue[next].clone(), result);
        assert(effect_views(effects@) =~= seq![spawn_report(waiting.first(), outcome)]);
        if next < queue.len() - 1 {
            let request = Request::Spawn(queue[next + 1].clone());
            proof {
                assert(names(queue@).skip(next + 1).first() == queue@[next + 1]@);
            }
            (
                Supervisor { procs, known, phase: Phase::Spawning { target, queue, next: next + 1 } },
                Reaction { effects, next: request },
            )
        } else {
            proof {
                assert(waiting.contains(waiting.first()));
                lemma_adopt_keys(s.procs, waiting.first(), outcome);
            }
            Self::settle(procs, known, target, effects)
        }
    }
}

} // verus!
