//! What holds of the supervisor, the poller and the command surface for every
//! state and every input.
use vstd::prelude::*;
use crate::command::{Command, POLL_INTERVAL_SECS, RESTART_GRACE_SECS};
use crate::device_set::{lemma_without, without};
use crate::discovery::{device_ids, is_line_start, line_at, line_yields, names_device, publishes};
use crate::model::{
    adopt, handle_map, keys, kills, lemma_adopt_keys, lemma_map_keys, lemma_map_push,
    lemma_map_remove,
    lemma_position, lemma_position_range, lemma_retire, lemma_settle_wf, lemma_step_wf, position,
    retire, settle, spawn_report, EffectModel, EventModel, Model, PhaseModel, RequestModel,
};
use crate::shell::{react, word, ShellEffectModel};

verus! {

/// A sequence with one more element holds what it held, and that element.
pub proof fn lemma_push_contains<T>(s: Seq<T>, x: T)
    ensures
        forall|y: T| #[trigger] s.push(x).contains(y) <==> s.contains(y) || y == x,
{
    assert forall|y: T| #[trigger] s.push(x).contains(y) <==> s.contains(y) || y == x by {
        if s.push(x).contains(y) {
            let k = choose|k: int| 0 <= k < s.push(x).len() && s.push(x)[k] == y;
            if k < s.len() {
                assert(s[k] == y);
            }
        }
        if s.contains(y) {
            let k = choose|k: int| 0 <= k < s.len() && s[k] == y;
            assert(s.push(x)[k] == y);
        }
        assert(s.push(x)[s.len() as int] == x);
    }
}

/// Two sequences in a row hold what either holds.
pub proof fn lemma_concat_contains<T>(a: Seq<T>, b: Seq<T>)
    ensures
        forall|y: T| #[trigger] (a + b).contains(y) <==> a.contains(y) || b.contains(y),
{
    assert forall|y: T| #[trigger] (a + b).contains(y) <==> a.contains(y) || b.contains(y) by {
        if (a + b).contains(y) {
            let k = choose|k: int| 0 <= k < (a + b).len() && (a + b)[k] == y;
            if k < a.len() {
                assert(a[k] == y);
            } else {
                assert(b[k - a.len()] == y);
            }
        }
        if a.contains(y) {
            let k = choose|k: int| 0 <= k < a.len() && a[k] == y;
            assert((a + b)[k] == y);
        }
        if b.contains(y) {
            let k = choose|k: int| 0 <= k < b.len() && b[k] == y;
            assert((a + b)[a.len() + k] == y);
        }
    }
}

/// The state after the spawn results `results` were reported one by one, the
/// effects of those steps in order, and the requests that they answered.
pub open spec fn feed<H>(s: Model<H>, results: Seq<Option<H>>) -> (
    Model<H>,
    Seq<EffectModel<H>>,
    Seq<RequestModel>,
)
    decreases results.len(),
{
    if results.len() == 0 {
        (s, Seq::empty(), Seq::empty())
    } else {
        let now = s.step(EventModel::SpawnResult(results.first()));
        let later = feed(now.0, results.drop_first());
        (later.0, now.1 + later.1, seq![s.pending()] + later.2)
    }
}

/// The tracked devices after a spawn for each device of `queue` ended as
/// `results` says.
pub open spec fn adopt_all<H>(
    procs: Seq<(Seq<char>, H)>,
    queue: Seq<Seq<char>>,
    results: Seq<Option<H>>,
) -> Seq<(Seq<char>, H)>
    decreases queue.len(),
{
    if queue.len() == 0 || results.len() == 0 {
        procs
    } else {
        adopt_all(
            adopt(procs, queue.first(), results.first()),
            queue.drop_first(),
            results.drop_first(),
        )
    }
}

/// The log lines for those spawns.
pub open spec fn reports<H>(queue: Seq<Seq<char>>, results: Seq<Option<H>>) -> Seq<EffectModel<H>>
    decreases queue.len(),
{
    if queue.len() == 0 || results.len() == 0 {
        Seq::empty()
    } else {
        seq![spawn_report(queue.first(), results.first())] + reports(
            queue.drop_first(),
            results.drop_first(),
        )
    }
}

/// One spawn request for each device of `queue`.
pub open spec fn spawn_requests(queue: Seq<Seq<char>>) -> Seq<RequestModel> {
    queue.map_values(|id: Seq<char>| RequestModel::Spawn(id))
}

/// The spawns of a reconciliation run their course: one request for each
/// queued device, in order, then the reconciliation settles on what the spawns
/// left.
pub proof fn lemma_feed<H>(s: Model<H>, results: Seq<Option<H>>)
    requires
        s.wf(),
        s.phase is Spawning,
        results.len() == s.phase->queue.len(),
    ensures
        ({
            let target = s.phase->target;
            let queue = s.phase->queue;
            let grown = adopt_all(s.procs, queue, results);
            let run = feed(s, results);
            &&& run.0 == settle(grown, s.known, target, Seq::<EffectModel<H>>::empty()).0
            &&& run.1 == reports(queue, results) + settle(
                grown,
                s.known,
                target,
                Seq::<EffectModel<H>>::empty(),
            ).1
            &&& run.2 == spawn_requests(queue)
        }),
    decreases results.len(),
{
    let target = s.phase->target;
    let queue = s.phase->queue;
    let rest = queue.drop_first();
    let first = results.first();
    let event = EventModel::SpawnResult(first);
    let now = s.step(event);
    let later = feed(now.0, results.drop_first());
    let grown = adopt(s.procs, queue.first(), first);
    let all = adopt_all(s.procs, queue, results);
    let nothing = Seq::<EffectModel<H>>::empty();
    let said = seq![spawn_report(queue.first(), first)];
    lemma_step_wf(s, event);
    assert(all == adopt_all(grown, rest, results.drop_first()));
    if rest.len() == 0 {
        assert(results.drop_first().len() == 0);
        assert(all == grown);
        assert(now.1 =~= said + settle(grown, s.known, target, nothing).1);
        assert(reports(rest, results.drop_first()) =~= nothing);
        assert(feed(s, results).1 =~= reports(queue, results) + settle(
            all,
            s.known,
            target,
            nothing,
        ).1);
        assert(feed(s, results).2 =~= spawn_requests(queue));
    } else {
        lemma_feed(now.0, results.drop_first());
        assert(feed(s, results).1 =~= reports(queue, results) + settle(
            all,
            s.known,
            target,
            nothing,
        ).1);
        assert(spawn_requests(rest) =~= spawn_requests(queue).drop_first());
        assert(feed(s, results).2 =~= spawn_requests(queue));
    }
}

/// After the spawns, a device that was not spawned for is tracked as before,
/// and a device that was is tracked exactly if its spawn succeeded, with the
/// handle that the spawn gave.
pub proof fn lemma_adopt_all<H>(
    procs: Seq<(Seq<char>, H)>,
    queue: Seq<Seq<char>>,
    results: Seq<Option<H>>,
)
    requires
        keys(procs).no_duplicates(),
        queue.no_duplicates(),
        results.len() == queue.len(),
        forall|id: Seq<char>| #[trigger] queue.contains(id) ==> !keys(procs).contains(id),
    ensures
        keys(adopt_all(procs, queue, results)).no_duplicates(),
        forall|id: Seq<char>| #[trigger]
            keys(adopt_all(procs, queue, results)).contains(id) ==> keys(procs).contains(id)
                || queue.contains(id),
        forall|id: Seq<char>|
            !queue.contains(id) ==> (#[trigger] handle_map(
                adopt_all(procs, queue, results),
            ).contains_key(id) <==> handle_map(procs).contains_key(id)),
        forall|id: Seq<char>|
            !queue.contains(id) && handle_map(procs).contains_key(id) ==> #[trigger] handle_map(
                adopt_all(procs, queue, results),
            )[id] == handle_map(procs)[id],
        forall|i: int|
            0 <= i < queue.len() ==> (handle_map(adopt_all(procs, queue, results)).contains_key(
                #[trigger] queue[i],
            ) <==> results[i] is Some),
        forall|i: int|
            0 <= i < queue.len() && results[i] is Some ==> handle_map(
                adopt_all(procs, queue, results),
            )[#[trigger] queue[i]] == results[i]->0,
    decreases queue.len(),
{
    if queue.len() > 0 {
        let id0 = queue.first();
        let rest = queue.drop_first();
        let later = results.drop_first();
        let grown = adopt(procs, id0, results.first());
        let all = adopt_all(procs, queue, results);
        assert(queue.contains(id0));
        lemma_map_keys(procs);
        lemma_map_keys(grown);
        lemma_adopt_keys(procs, id0, results.first());
        if let Some(handle) = results.first() {
            lemma_map_push(procs, id0, handle);
        }
        assert forall|id: Seq<char>| #[trigger] rest.contains(id) implies queue.contains(id) && id
            != id0 by {
            let k = choose|k: int| 0 <= k < rest.len() && rest[k] == id;
            assert(queue[k + 1] == id);
        }
        lemma_adopt_all(grown, rest, later);
        assert(all == adopt_all(grown, rest, later));
        assert(!rest.contains(id0)) by {
            if rest.contains(id0) {
                let k = choose|k: int| 0 <= k < rest.len() && rest[k] == id0;
                assert(queue[k + 1] == queue[0]);
            }
        }
        assert forall|id: Seq<char>| !queue.contains(id) implies (#[trigger] handle_map(
            all,
        ).contains_key(id) <==> handle_map(procs).contains_key(id)) by {
            if rest.contains(id) {
                assert(queue.contains(id));
            }
            assert(id != id0);
        }
        assert forall|id: Seq<char>|
            !queue.contains(id) && handle_map(procs).contains_key(id) implies #[trigger] handle_map(
            all,
        )[id] == handle_map(procs)[id] by {
            if rest.contains(id) {
                assert(queue.contains(id));
            }
            assert(id != id0);
            assert(handle_map(grown).contains_key(id));
        }
        assert forall|i: int| 0 <= i < queue.len() implies (handle_map(all).contains_key(
            #[trigger] queue[i],
        ) <==> results[i] is Some) by {
            if i > 0 {
                assert(queue[i] == rest[i - 1]);
                assert(results[i] == later[i - 1]);
            }
        }
        assert forall|i: int| 0 <= i < queue.len() && results[i] is Some implies handle_map(
            all,
        )[#[trigger] queue[i]] == results[i]->0 by {
            if i > 0 {
                assert(queue[i] == rest[i - 1]);
                assert(results[i] == later[i - 1]);
            } else {
                assert(handle_map(grown).contains_key(id0));
            }
        }
    }
}

/// The log lines of the spawns speak of queued devices only.
pub proof fn lemma_reports<H>(queue: Seq<Seq<char>>, results: Seq<Option<H>>)
    ensures
        forall|effect: EffectModel<H>| #[trigger]
            reports(queue, results).contains(effect) ==> match effect {
                EffectModel::Started(id) => queue.contains(id),
                EffectModel::SpawnFailed(id) => queue.contains(id),
                _ => false,
            },
    decreases queue.len(),
{
    if queue.len() > 0 && results.len() > 0 {
        let rest = queue.drop_first();
        let head = seq![spawn_report(queue.first(), results.first())];
        lemma_reports(rest, results.drop_first());
        lemma_concat_contains(head, reports(rest, results.drop_first()));
        assert forall|effect: EffectModel<H>| #[trigger]
            reports(queue, results).contains(effect) implies match effect {
            EffectModel::Started(id) => queue.contains(id),
            EffectModel::SpawnFailed(id) => queue.contains(id),
            _ => false,
        } by {
            if head.contains(effect) {
                assert(effect == head[0]);
                assert(queue[0] == queue.first());
            } else {
                assert(reports(rest, results.drop_first()).contains(effect));
                match effect {
                    EffectModel::Started(id) => {
                        let k = choose|k: int| 0 <= k < rest.len() && rest[k] == id;
                        assert(queue[k + 1] == id);
                    },
                    EffectModel::SpawnFailed(id) => {
                        let k = choose|k: int| 0 <= k < rest.len() && rest[k] == id;
                        assert(queue[k + 1] == id);
                    },
                    _ => {},
                }
            }
        }
    }
}

/// There is one log line for each spawn, in order.
pub proof fn lemma_reports_each<H>(queue: Seq<Seq<char>>, results: Seq<Option<H>>)
    requires
        results.len() == queue.len(),
    ensures
        reports(queue, results).len() == queue.len(),
        forall|i: int|
            0 <= i < queue.len() ==> #[trigger] reports(queue, results)[i] == spawn_report(
                queue[i],
                results[i],
            ),
    decreases queue.len(),
{
    if queue.len() > 0 {
        let rest = queue.drop_first();
        let later = results.drop_first();
        lemma_reports_each(rest, later);
        assert forall|i: int| 0 <= i < queue.len() implies #[trigger] reports(queue, results)[i]
            == spawn_report(queue[i], results[i]) by {
            if i > 0 {
                assert(reports(queue, results)[i] == reports(rest, later)[i - 1]);
                assert(queue[i] == rest[i - 1]);
                assert(results[i] == later[i - 1]);
            }
        }
    }
}

/// Retiring devices kills exactly the handles of those that were tracked, and
/// reports exactly the retired devices as removed.
pub proof fn lemma_retire_effects<H>(procs: Seq<(Seq<char>, H)>, removed: Seq<Seq<char>>)
    requires
        keys(procs).no_duplicates(),
        removed.no_duplicates(),
    ensures
        forall|id: Seq<char>, handle: H| #[trigger]
            retire(procs, removed).1.contains(EffectModel::Kill(id, handle)) <==> removed.contains(
                id,
            ) && handle_map(procs).contains_key(id) && handle_map(procs)[id] == handle,
        forall|id: Seq<char>| #[trigger]
            retire(procs, removed).1.contains(EffectModel::Removed(id)) <==> removed.contains(id),
        forall|effect: EffectModel<H>| #[trigger]
            retire(procs, removed).1.contains(effect) ==> effect is Kill || effect is Removed,
    decreases removed.len(),
{
    let fx = retire(procs, removed).1;
    if removed.len() == 0 {
        assert(fx =~= Seq::<EffectModel<H>>::empty());
    } else {
        let front = removed.drop_last();
        let last = removed.last();
        let before = retire(procs, front);
        let at = position(before.0, last);
        lemma_retire_effects(procs, front);
        lemma_retire(procs, front);
        lemma_position_range(before.0, last);
        lemma_map_keys(before.0);
        lemma_map_keys(procs);
        assert(removed =~= front.push(last));
        lemma_push_contains(front, last);
        assert(!front.contains(last)) by {
            if front.contains(last) {
                let k = choose|k: int| 0 <= k < front.len() && front[k] == last;
                assert(removed[k] == removed[removed.len() - 1]);
            }
        }
        assert(handle_map(before.0).contains_key(last) <==> handle_map(procs).contains_key(last));
        if at < before.0.len() {
            lemma_position(before.0, at);
            let kill = EffectModel::Kill(last, before.0[at].1);
            lemma_push_contains(before.1, kill);
            lemma_push_contains(before.1.push(kill), EffectModel::Removed(last));
            assert(before.0[at].1 == handle_map(procs)[last]);
        } else {
            lemma_push_contains(before.1, EffectModel::<H>::Removed(last));
        }
    }
}

/// A reconciliation from the known set S1 to the target S2, with every
/// requested spawn answered, asks for a spawn for exactly the devices of
/// S2 - S1 and logs how each of them ended, reports as removed exactly the
/// devices of S1 - S2 and kills exactly their handles, and leaves every device
/// of both sets as it was: tracked with the same handle, or untracked. S2 is
/// the known set afterwards.
pub proof fn law_reconcile<H>(s: Model<H>, target: Seq<Seq<char>>, results: Seq<Option<H>>)
    requires
        s.wf(),
        s.phase == PhaseModel::AwaitDevices,
        target.no_duplicates(),
        results.len() == without(target, s.known).len(),
    ensures
        ({
            let spawned = without(target, s.known);
            let removed = without(s.known, target);
            let begun = s.step(EventModel::Devices(Some(target)));
            let run = feed(begun.0, results);
            let after = handle_map(run.0.procs);
            let effects = begun.1 + run.1;
            &&& spawned.to_set() == target.to_set().difference(s.known.to_set())
            &&& removed.to_set() == s.known.to_set().difference(target.to_set())
            &&& spawned.no_duplicates()
            &&& removed.no_duplicates()
            &&& run.2 == spawn_requests(spawned)
            &&& run.0.wf()
            &&& run.0.known == target
            &&& run.0.phase == PhaseModel::AwaitCommand
            &&& forall|id: Seq<char>|
                s.known.contains(id) && target.contains(id) ==> (#[trigger] after.contains_key(id)
                    <==> handle_map(s.procs).contains_key(id))
            &&& forall|id: Seq<char>|
                s.known.contains(id) && target.contains(id) && handle_map(s.procs).contains_key(id)
                    ==> #[trigger] after[id] == handle_map(s.procs)[id]
            &&& forall|id: Seq<char>| removed.contains(id) ==> !#[trigger] after.contains_key(id)
            &&& forall|i: int|
                0 <= i < spawned.len() ==> (after.contains_key(#[trigger] spawned[i])
                    <==> results[i] is Some)
            &&& forall|i: int|
                0 <= i < spawned.len() && results[i] is Some ==> after[#[trigger] spawned[i]]
                    == results[i]->0
            &&& forall|id: Seq<char>, handle: H| #[trigger]
                effects.contains(EffectModel::Kill(id, handle)) <==> removed.contains(id)
                    && handle_map(s.procs).contains_key(id) && handle_map(s.procs)[id] == handle
            &&& forall|id: Seq<char>| #[trigger]
                effects.contains(EffectModel::Removed(id)) <==> removed.contains(id)
            &&& forall|id: Seq<char>| #[trigger]
                effects.contains(EffectModel::Started(id)) ==> spawned.contains(id)
            &&& forall|id: Seq<char>| #[trigger]
                effects.contains(EffectModel::SpawnFailed(id)) ==> spawned.contains(id)
            &&& forall|i: int|
                0 <= i < spawned.len() ==> effects.contains(
                    spawn_report(#[trigger] spawned[i], results[i]),
                )
        }),
{
    let spawned = without(target, s.known);
    let removed = without(s.known, target);
    let event = EventModel::Devices(Some(target));
    let begun = s.step(event);
    let run = feed(begun.0, results);
    let after = handle_map(run.0.procs);
    let effects = begun.1 + run.1;
    let nothing = Seq::<EffectModel<H>>::empty();
    let grown = adopt_all(s.procs, spawned, results);
    let settled = settle(grown, s.known, target, nothing);
    let gone = retire(grown, removed);
    let told = reports(spawned, results);

    lemma_without(target, s.known);
    lemma_without(s.known, target);
    assert(spawned.to_set() =~= target.to_set().difference(s.known.to_set()));
    assert(removed.to_set() =~= s.known.to_set().difference(target.to_set()));
    lemma_step_wf(s, event);
    lemma_map_keys(s.procs);

    // What the run comes to, whether or not anything was spawned.
    if spawned.len() == 0 {
        assert(grown == s.procs);
        assert(run.2 =~= spawn_requests(spawned));
        assert(told =~= nothing);
        assert(effects =~= told + settled.1);
    } else {
        lemma_feed(begun.0, results);
        assert(effects =~= told + settled.1);
    }
    assert(run.0 == settled.0);
    assert(settled.1 =~= gone.1 + seq![EffectModel::Pause(POLL_INTERVAL_SECS)]);

    // The tracked devices after the spawns, then after the removals.
    lemma_adopt_all(s.procs, spawned, results);
    lemma_map_keys(grown);
    lemma_settle_wf(grown, s.known, target, nothing);
    lemma_retire(grown, removed);
    assert(after == handle_map(grown).remove_keys(removed.to_set()));
    assert forall|i: int| 0 <= i < spawned.len() implies !removed.contains(
        #[trigger] spawned[i],
    ) by {
        assert(spawned.contains(spawned[i]));
    }

    // The effects.
    lemma_retire_effects(grown, removed);
    lemma_reports(spawned, results);
    let pause = seq![EffectModel::<H>::Pause(POLL_INTERVAL_SECS)];
    lemma_concat_contains(told, settled.1);
    lemma_concat_contains(gone.1, pause);
    assert forall|effect: EffectModel<H>| #[trigger] pause.contains(effect) implies effect
        == EffectModel::<H>::Pause(POLL_INTERVAL_SECS) by {}
    assert forall|id: Seq<char>, handle: H| #[trigger]
        effects.contains(EffectModel::Kill(id, handle)) <==> removed.contains(id) && handle_map(
            s.procs,
        ).contains_key(id) && handle_map(s.procs)[id] == handle by {
        let kill = EffectModel::Kill(id, handle);
        if removed.contains(id) {
            assert(!spawned.contains(id));
            assert(handle_map(grown).contains_key(id) <==> handle_map(s.procs).contains_key(id));
        }
        assert(effects.contains(kill) <==> gone.1.contains(kill));
    }
    assert forall|id: Seq<char>| #[trigger]
        effects.contains(EffectModel::Removed(id)) <==> removed.contains(id) by {
        let note = EffectModel::<H>::Removed(id);
        assert(effects.contains(note) <==> gone.1.contains(note));
    }
    assert forall|id: Seq<char>| #[trigger]
        effects.contains(EffectModel::Started(id)) implies spawned.contains(id) by {
        let note = EffectModel::<H>::Started(id);
        assert(!gone.1.contains(note));
        assert(told.contains(note));
    }
    assert forall|id: Seq<char>| #[trigger]
        effects.contains(EffectModel::SpawnFailed(id)) implies spawned.contains(id) by {
        let note = EffectModel::<H>::SpawnFailed(id);
        assert(!gone.1.contains(note));
        assert(told.contains(note));
    }
    lemma_reports_each(spawned, results);
    assert forall|i: int| 0 <= i < spawned.len() implies effects.contains(
        spawn_report(#[trigger] spawned[i], results[i]),
    ) by {
        assert(told[i] == spawn_report(spawned[i], results[i]));
        assert(told.contains(told[i]));
    }
}

/// Reconciling against the device set that is known already spawns nothing,
/// kills nothing, removes nothing and leaves every tracked device as it is:
/// the supervisor only rests one polling interval.
pub proof fn law_reconcile_idempotent<H>(s: Model<H>, target: Seq<Seq<char>>)
    requires
        s.wf(),
        s.phase == PhaseModel::AwaitDevices,
        target.no_duplicates(),
        target.to_set() == s.known.to_set(),
    ensures
        s.step(EventModel::Devices(Some(target))) == (
            Model { procs: s.procs, known: target, phase: PhaseModel::AwaitCommand },
            seq![EffectModel::<H>::Pause(POLL_INTERVAL_SECS)],
        ),
{
    let spawned = without(target, s.known);
    let removed = without(s.known, target);
    lemma_without(target, s.known);
    lemma_without(s.known, target);
    if spawned.len() > 0 {
        assert(spawned.contains(spawned[0]));
        assert(target.to_set().contains(spawned[0]));
    }
    if removed.len() > 0 {
        assert(removed.contains(removed[0]));
        assert(s.known.to_set().contains(removed[0]));
    }
    let out = s.step(EventModel::Devices(Some(target)));
    assert(out.1 =~= seq![EffectModel::Pause(POLL_INTERVAL_SECS)]);
}

/// After a reconciliation the target is the known set, so reconciling against
/// the same device set again changes nothing.
pub proof fn law_reconcile_twice<H>(s: Model<H>, target: Seq<Seq<char>>, results: Seq<Option<H>>)
    requires
        s.wf(),
        s.phase == PhaseModel::AwaitDevices,
        target.no_duplicates(),
        results.len() == without(target, s.known).len(),
    ensures
        ({
            let once = feed(s.step(EventModel::Devices(Some(target))).0, results).0;
            let again = Model { phase: PhaseModel::AwaitDevices, ..once };
            again.step(EventModel::Devices(Some(target))) == (
                once,
                seq![EffectModel::<H>::Pause(POLL_INTERVAL_SECS)],
            )
        }),
{
    law_reconcile(s, target, results);
    let once = feed(s.step(EventModel::Devices(Some(target))).0, results).0;
    let again = Model { phase: PhaseModel::AwaitDevices, ..once };
    law_reconcile_idempotent(again, target);
}

/// `ListDevices` shows exactly the tracked devices, each once, clears the
/// command and changes nothing.
pub proof fn law_list_devices<H>(s: Model<H>)
    requires
        s.wf(),
        s.phase == PhaseModel::AwaitCommand,
    ensures
        s.step(EventModel::Command(Some(Command::ListDevices))) == (
            s,
            seq![EffectModel::<H>::ShowTracked(keys(s.procs)), EffectModel::<H>::ClearCommand],
        ),
        keys(s.procs).no_duplicates(),
        keys(s.procs).to_set() == handle_map(s.procs).dom(),
{
    lemma_map_keys(s.procs);
    assert(keys(s.procs).to_set() =~= handle_map(s.procs).dom());
}

/// An event that does not answer the pending request changes nothing and has
/// no effect.
pub proof fn law_unexpected_event<H>(s: Model<H>, event: EventModel<H>)
    requires
        !s.expects(event),
    ensures
        s.step(event) == (s, Seq::<EffectModel<H>>::empty()),
{
}

/// Restarting a tracked device kills its old handle and waits the grace
/// period before the spawn is asked for. The device is untracked while the
/// spawn is pending and stays so if the spawn fails; if it succeeds the device
/// is tracked with the new handle. The command is cleared either way, and no
/// other device is touched.
pub proof fn law_restart_tracked<H>(s: Model<H>, id: Seq<char>, result: Option<H>)
    requires
        s.wf(),
        s.phase == PhaseModel::AwaitTarget,
        handle_map(s.procs).contains_key(id),
    ensures
        ({
            let killed = s.step(EventModel::RestartTarget(id));
            let done = killed.0.step(EventModel::SpawnResult(result));
            &&& killed.1 == seq![
                EffectModel::Kill(id, handle_map(s.procs)[id]),
                EffectModel::Pause(RESTART_GRACE_SECS),
            ]
            &&& killed.0.pending() == RequestModel::Spawn(id)
            &&& handle_map(killed.0.procs) == handle_map(s.procs).remove(id)
            &&& done.1 == seq![spawn_report(id, result), EffectModel::ClearCommand]
            &&& done.0.phase == PhaseModel::AwaitCommand
            &&& done.0.known == s.known
            &&& handle_map(done.0.procs) == match result {
                Some(handle) => handle_map(s.procs).insert(id, handle),
                None => handle_map(s.procs).remove(id),
            }
        }),
{
    let at = position(s.procs, id);
    lemma_map_keys(s.procs);
    lemma_position_range(s.procs, id);
    lemma_position(s.procs, at);
    lemma_map_remove(s.procs, at);
    let killed = s.step(EventModel::RestartTarget(id));
    lemma_step_wf(s, EventModel::RestartTarget(id));
    if let Some(handle) = result {
        lemma_map_push(killed.0.procs, id, handle);
        assert(handle_map(s.procs).remove(id).insert(id, handle) =~= handle_map(s.procs).insert(
            id,
            handle,
        ));
    }
}

/// Restarting a device that is not tracked takes its identifier from the
/// queue and clears the command; nothing is killed and nothing spawned.
pub proof fn law_restart_untracked<H>(s: Model<H>, id: Seq<char>)
    requires
        s.wf(),
        s.phase == PhaseModel::AwaitTarget,
        !handle_map(s.procs).contains_key(id),
    ensures
        s.step(EventModel::RestartTarget(id)) == (
            Model { phase: PhaseModel::AwaitCommand, ..s },
            seq![EffectModel::<H>::ClearCommand],
        ),
{
    lemma_map_keys(s.procs);
    lemma_position_range(s.procs, id);
}

/// `Quit` kills every tracked handle, each once, and tracks nothing
/// afterwards. The supervisor is halted: it asks for nothing more, and no
/// event changes it or has an effect.
pub proof fn law_quit<H>(s: Model<H>, later: EventModel<H>)
    requires
        s.wf(),
        s.phase == PhaseModel::AwaitCommand,
    ensures
        ({
            let out = s.step(EventModel::Command(Some(Command::Quit)));
            &&& out.1.len() == s.procs.len()
            &&& forall|i: int|
                0 <= i < s.procs.len() ==> #[trigger] out.1[i] == EffectModel::Kill(
                    s.procs[i].0,
                    s.procs[i].1,
                )
            &&& forall|id: Seq<char>|
                handle_map(s.procs).contains_key(id) ==> out.1.contains(
                    EffectModel::Kill(id, #[trigger] handle_map(s.procs)[id]),
                )
            &&& out.0.procs.len() == 0
            &&& out.0.phase == PhaseModel::Halted
            &&& out.0.pending() == RequestModel::Halt
            &&& out.0.step(later) == (out.0, Seq::<EffectModel<H>>::empty())
        }),
{
    let out = s.step(EventModel::Command(Some(Command::Quit)));
    lemma_map_keys(s.procs);
    assert forall|id: Seq<char>| handle_map(s.procs).contains_key(id) implies out.1.contains(
        EffectModel::Kill(id, #[trigger] handle_map(s.procs)[id]),
    ) by {
        let at = position(s.procs, id);
        lemma_position_range(s.procs, id);
        assert(out.1[at] == EffectModel::Kill(id, s.procs[at].1));
    }
}

/// An empty discovery result, and one equal to the last published result, is
/// never published; every other result is.
pub proof fn law_quiet_polls(last: Seq<char>, raw: Seq<char>)
    ensures
        !publishes(last, raw) <==> raw.len() == 0 || raw == last,
{
}

/// A discovery result of which no line names a device, such as the header
/// alone, gives the empty device set.
pub proof fn law_header_only(text: Seq<char>)
    requires
        forall|at: int| #[trigger] is_line_start(text, at) ==> !names_device(line_at(text, at)),
    ensures
        device_ids(text) == Set::<Seq<char>>::empty(),
{
    assert forall|id: Seq<char>| !device_ids(text).contains(id) by {
        if device_ids(text).contains(id) {
            let at = choose|at: int| line_yields(text, at, id);
            assert(is_line_start(text, at));
        }
    }
    assert(device_ids(text) =~= Set::<Seq<char>>::empty());
}

/// A line whose first word is `quit` writes `Quit` to the register and ends
/// the command surface. Every other line leaves it running, and a restart
/// queues the device before it writes the command.
pub proof fn law_shell(line: Seq<char>)
    ensures
        word(line, 0) == "quit"@ ==> react(line) == (
            seq![ShellEffectModel::Write(Command::Quit)],
            true,
        ),
        word(line, 0) != "quit"@ ==> !react(line).1,
        react(line).0.len() == 2 ==> react(line).0[0] is PushTarget && react(line).0[1]
            == ShellEffectModel::Write(Command::RestartDevice),
        forall|i: int|
            0 <= i < react(line).0.len() && #[trigger] react(line).0[i]
                == ShellEffectModel::Write(Command::RestartDevice) ==> i == 1 && react(
                line,
            ).0[0] is PushTarget,
{
}

} // verus!
