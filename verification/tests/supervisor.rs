use mirror_supervisor::command::{Command, POLL_INTERVAL_SECS, RESTART_GRACE_SECS};
use mirror_supervisor::device_set::DeviceSet;
use mirror_supervisor::discovery::process_adb_output;
use mirror_supervisor::supervisor::{Effect, Event, Request, Supervisor};

fn set(ids: &[&str]) -> DeviceSet {
    DeviceSet::from_vec(ids.iter().map(|id| id.to_string()).collect())
}

fn s(id: &str) -> String {
    id.to_string()
}

/// Steps once and returns the supervisor, the effects and the next request.
fn go(sup: Supervisor<u32>, event: Event<u32>) -> (Supervisor<u32>, Vec<Effect<u32>>, Request) {
    let (sup, reaction) = sup.step(event);
    (sup, reaction.effects, reaction.next)
}

/// Reconciles against `target`, answering the spawn for each device with the
/// handle that `spawn` gives; returns all effects and all spawn requests.
fn reconcile(
    sup: Supervisor<u32>,
    target: DeviceSet,
    spawn: &dyn Fn(&str) -> Option<u32>,
) -> (Supervisor<u32>, Vec<Effect<u32>>, Vec<String>) {
    assert_eq!(sup.pending(), Request::ReadCommand);
    let (sup, effects, next) = go(sup, Event::Command(Some(Command::Idle)));
    assert!(effects.is_empty());
    assert_eq!(next, Request::PollDevices);
    let (mut sup, mut all, mut next) = go(sup, Event::Devices(Some(target)));
    let mut spawned = Vec::new();
    while let Request::Spawn(id) = next {
        let (after, effects, request) = go(sup, Event::SpawnResult(spawn(&id)));
        spawned.push(id);
        all.extend(effects);
        sup = after;
        next = request;
    }
    assert_eq!(next, Request::ReadCommand);
    (sup, all, spawned)
}

fn handle_for(id: &str) -> Option<u32> {
    Some(id.len() as u32 * 100 + id.bytes().next().unwrap_or(0) as u32)
}

#[test]
fn starts_by_reading_the_command_register() {
    let sup: Supervisor<u32> = Supervisor::new();
    assert_eq!(sup.pending(), Request::ReadCommand);
    assert!(!sup.is_halted());
    assert!(sup.tracked_devices().is_empty());
    assert!(sup.known_devices().is_empty());
}

#[test]
fn idle_goes_on_to_poll_for_devices() {
    for command in [Some(Command::Idle), None] {
        let (sup, effects, next) = go(Supervisor::new(), Event::Command(command));
        assert!(effects.is_empty());
        assert_eq!(next, Request::PollDevices);
        assert_eq!(sup.pending(), Request::PollDevices);
    }
}

#[test]
fn no_new_device_set_rests_one_interval() {
    let (sup, _, _) = go(Supervisor::new(), Event::Command(Some(Command::Idle)));
    let (sup, effects, next) = go(sup, Event::Devices(None));
    assert_eq!(effects, vec![Effect::Pause(5)]);
    assert_eq!(POLL_INTERVAL_SECS, 5);
    assert_eq!(next, Request::ReadCommand);
    assert!(sup.tracked_devices().is_empty());
}

#[test]
fn device_appears_then_disappears() {
    let first = process_adb_output(&s("List of devices attached\nABC123\tdevice\n"));
    let (sup, effects, spawned) = reconcile(Supervisor::new(), first, &|_| Some(41));
    assert_eq!(spawned, vec!["ABC123"]);
    assert_eq!(effects, vec![Effect::Started(s("ABC123")), Effect::Pause(5)]);
    assert_eq!(sup.tracked_devices(), vec!["ABC123"]);
    assert_eq!(sup.handle(&s("ABC123")), Some(&41));
    assert_eq!(sup.known_devices(), vec!["ABC123"]);

    let second = process_adb_output(&s("List of devices attached\n"));
    let (sup, effects, spawned) = reconcile(sup, second, &|_| Some(42));
    assert!(spawned.is_empty());
    assert_eq!(
        effects,
        vec![Effect::Kill(s("ABC123"), 41), Effect::Removed(s("ABC123")), Effect::Pause(5)]
    );
    assert!(sup.tracked_devices().is_empty());
    assert_eq!(sup.handle(&s("ABC123")), None);
    assert!(sup.known_devices().is_empty());
}

#[test]
fn reconciliation_spawns_the_new_and_removes_the_gone() {
    let (sup, _, spawned) = reconcile(Supervisor::new(), set(&["a", "b", "c"]), &handle_for);
    assert_eq!(spawned, vec!["a", "b", "c"]);
    let before_b = *sup.handle(&s("b")).unwrap();
    let before_c = *sup.handle(&s("c")).unwrap();

    let (sup, effects, spawned) = reconcile(sup, set(&["c", "d", "b", "e"]), &|id| {
        Some(if id == "d" { 7 } else { 8 })
    });
    assert_eq!(spawned, vec!["d", "e"]);
    assert_eq!(
        effects,
        vec![
            Effect::Started(s("d")),
            Effect::Started(s("e")),
            Effect::Kill(s("a"), handle_for("a").unwrap()),
            Effect::Removed(s("a")),
            Effect::Pause(5),
        ]
    );
    assert_eq!(sup.handle(&s("a")), None);
    assert_eq!(sup.handle(&s("b")), Some(&before_b));
    assert_eq!(sup.handle(&s("c")), Some(&before_c));
    assert_eq!(sup.handle(&s("d")), Some(&7));
    assert_eq!(sup.handle(&s("e")), Some(&8));
    assert_eq!(sup.known_devices(), vec!["c", "d", "b", "e"]);
    let mut live = sup.tracked_devices();
    live.sort();
    assert_eq!(live, vec!["b", "c", "d", "e"]);
}

#[test]
fn reconciling_the_same_set_twice_does_nothing() {
    let (sup, _, _) = reconcile(Supervisor::new(), set(&["a", "b"]), &handle_for);
    let live = sup.tracked_devices();
    let (sup, effects, spawned) = reconcile(sup, set(&["a", "b"]), &|_| Some(999));
    assert!(spawned.is_empty());
    assert_eq!(effects, vec![Effect::Pause(5)]);
    assert_eq!(sup.tracked_devices(), live);
    assert_eq!(sup.handle(&s("a")), handle_for("a").as_ref());
    // The same devices in another order are the same set.
    let (sup, effects, spawned) = reconcile(sup, set(&["b", "a"]), &|_| Some(999));
    assert!(spawned.is_empty());
    assert_eq!(effects, vec![Effect::Pause(5)]);
    assert_eq!(sup.handle(&s("b")), handle_for("b").as_ref());
}

#[test]
fn empty_set_against_nothing_known_does_nothing() {
    let (sup, effects, spawned) = reconcile(Supervisor::new(), set(&[]), &|_| Some(1));
    assert!(spawned.is_empty());
    assert_eq!(effects, vec![Effect::Pause(5)]);
    assert!(sup.tracked_devices().is_empty());
}

#[test]
fn failed_spawn_leaves_the_device_untracked() {
    let (sup, effects, spawned) = reconcile(Supervisor::new(), set(&["a", "b"]), &|id| {
        if id == "a" { None } else { Some(2) }
    });
    assert_eq!(spawned, vec!["a", "b"]);
    assert_eq!(
        effects,
        vec![Effect::SpawnFailed(s("a")), Effect::Started(s("b")), Effect::Pause(5)]
    );
    assert_eq!(sup.tracked_devices(), vec!["b"]);
    assert_eq!(sup.handle(&s("a")), None);
    assert_eq!(sup.known_devices(), vec!["a", "b"]);

    // While the device stays attached no new spawn is tried.
    let (sup, effects, spawned) = reconcile(sup, set(&["a", "b"]), &|_| Some(3));
    assert!(spawned.is_empty());
    assert_eq!(effects, vec![Effect::Pause(5)]);

    // When it goes it is reported, with nothing to kill.
    let (sup, effects, _) = reconcile(sup, set(&["b"]), &|_| Some(3));
    assert_eq!(effects, vec![Effect::Removed(s("a")), Effect::Pause(5)]);

    // When it comes back the spawn is tried again.
    let (sup, effects, spawned) = reconcile(sup, set(&["b", "a"]), &|_| Some(4));
    assert_eq!(spawned, vec!["a"]);
    assert_eq!(effects, vec![Effect::Started(s("a")), Effect::Pause(5)]);
    assert_eq!(sup.handle(&s("a")), Some(&4));
    assert_eq!(sup.handle(&s("b")), Some(&2));
}

#[test]
fn list_devices_shows_the_tracked_and_clears_the_command() {
    let (sup, _, _) = reconcile(Supervisor::new(), set(&["a", "b", "c"]), &|id| {
        if id == "b" { None } else { Some(1) }
    });
    let (sup, effects, next) = go(sup, Event::Command(Some(Command::ListDevices)));
    assert_eq!(effects, vec![Effect::ShowTracked(vec![s("a"), s("c")]), Effect::ClearCommand]);
    // No device set is looked for in this cycle.
    assert_eq!(next, Request::ReadCommand);
    assert_eq!(sup.tracked_devices(), vec!["a", "c"]);
}

#[test]
fn list_devices_with_nothing_tracked() {
    let (_, effects, next) = go(Supervisor::<u32>::new(), Event::Command(Some(Command::ListDevices)));
    assert_eq!(effects, vec![Effect::ShowTracked(vec![]), Effect::ClearCommand]);
    assert_eq!(next, Request::ReadCommand);
}

#[test]
fn restart_kills_before_it_spawns() {
    let (sup, _, _) = reconcile(Supervisor::new(), set(&["a", "b"]), &handle_for);
    let (sup, effects, next) = go(sup, Event::Command(Some(Command::RestartDevice)));
    assert!(effects.is_empty());
    assert_eq!(next, Request::TakeRestartTarget);

    let (sup, effects, next) = go(sup, Event::RestartTarget(s("a")));
    assert_eq!(
        effects,
        vec![Effect::Kill(s("a"), handle_for("a").unwrap()), Effect::Pause(2)]
    );
    assert_eq!(RESTART_GRACE_SECS, 2);
    assert_eq!(next, Request::Spawn(s("a")));
    assert_eq!(sup.handle(&s("a")), None);
    assert_eq!(sup.handle(&s("b")), handle_for("b").as_ref());

    let (sup, effects, next) = go(sup, Event::SpawnResult(Some(77)));
    assert_eq!(effects, vec![Effect::Started(s("a")), Effect::ClearCommand]);
    assert_eq!(next, Request::ReadCommand);
    assert_eq!(sup.handle(&s("a")), Some(&77));
    assert_eq!(sup.handle(&s("b")), handle_for("b").as_ref());
    assert_eq!(sup.known_devices(), vec!["a", "b"]);
}

#[test]
fn restart_that_fails_to_spawn_leaves_the_device_untracked() {
    let (sup, _, _) = reconcile(Supervisor::new(), set(&["a"]), &handle_for);
    let (sup, _, _) = go(sup, Event::Command(Some(Command::RestartDevice)));
    let (sup, _, next) = go(sup, Event::RestartTarget(s("a")));
    assert_eq!(next, Request::Spawn(s("a")));
    let (sup, effects, next) = go(sup, Event::SpawnResult(None));
    assert_eq!(effects, vec![Effect::SpawnFailed(s("a")), Effect::ClearCommand]);
    assert_eq!(next, Request::ReadCommand);
    assert!(sup.tracked_devices().is_empty());
    assert_eq!(sup.known_devices(), vec!["a"]);

    // A second restart finds nothing to kill.
    let (sup, _, _) = go(sup, Event::Command(Some(Command::RestartDevice)));
    let (_, effects, next) = go(sup, Event::RestartTarget(s("a")));
    assert_eq!(effects, vec![Effect::ClearCommand]);
    assert_eq!(next, Request::ReadCommand);
}

#[test]
fn restart_of_an_untracked_device_only_clears_the_command() {
    let (sup, _, _) = reconcile(Supervisor::new(), set(&["a"]), &handle_for);
    let (sup, _, _) = go(sup, Event::Command(Some(Command::RestartDevice)));
    let (sup, effects, next) = go(sup, Event::RestartTarget(s("zzz")));
    assert_eq!(effects, vec![Effect::ClearCommand]);
    assert_eq!(next, Request::ReadCommand);
    assert_eq!(sup.tracked_devices(), vec!["a"]);
    assert_eq!(sup.handle(&s("a")), handle_for("a").as_ref());
}

#[test]
fn quit_kills_every_handle_and_halts() {
    let (sup, _, _) = reconcile(Supervisor::new(), set(&["a", "b", "c"]), &|id| match id {
        "a" => Some(1),
        "b" => None,
        _ => Some(3),
    });
    let (sup, effects, next) = go(sup, Event::Command(Some(Command::Quit)));
    assert_eq!(effects, vec![Effect::Kill(s("a"), 1), Effect::Kill(s("c"), 3)]);
    assert_eq!(next, Request::Halt);
    assert!(sup.is_halted());
    assert!(sup.tracked_devices().is_empty());
    assert_eq!(sup.pending(), Request::Halt);
}

#[test]
fn quit_with_nothing_tracked_halts_at_once() {
    let (sup, effects, next) = go(Supervisor::<u32>::new(), Event::Command(Some(Command::Quit)));
    assert!(effects.is_empty());
    assert_eq!(next, Request::Halt);
    assert!(sup.is_halted());
}

#[test]
fn halted_supervisor_ignores_every_event() {
    let (sup, _, _) = go(Supervisor::<u32>::new(), Event::Command(Some(Command::Quit)));
    let (sup, effects, next) = go(sup, Event::Command(Some(Command::ListDevices)));
    assert!(effects.is_empty());
    assert_eq!(next, Request::Halt);
    let (sup, effects, next) = go(sup, Event::Devices(Some(set(&["a"]))));
    assert!(effects.is_empty());
    assert_eq!(next, Request::Halt);
    let (sup, effects, next) = go(sup, Event::SpawnResult(Some(5)));
    assert!(effects.is_empty());
    assert_eq!(next, Request::Halt);
    let (sup, effects, next) = go(sup, Event::RestartTarget(s("a")));
    assert!(effects.is_empty());
    assert_eq!(next, Request::Halt);
    assert!(sup.is_halted());
    assert!(sup.tracked_devices().is_empty());
}

#[test]
fn event_that_was_not_asked_for_changes_nothing() {
    let (sup, _, _) = reconcile(Supervisor::new(), set(&["a"]), &handle_for);
    let (sup, effects, next) = go(sup, Event::SpawnResult(Some(5)));
    assert!(effects.is_empty());
    assert_eq!(next, Request::ReadCommand);
    let (sup, effects, next) = go(sup, Event::Devices(Some(set(&[]))));
    assert!(effects.is_empty());
    assert_eq!(next, Request::ReadCommand);
    let (sup, effects, next) = go(sup, Event::RestartTarget(s("a")));
    assert!(effects.is_empty());
    assert_eq!(next, Request::ReadCommand);
    assert_eq!(sup.handle(&s("a")), handle_for("a").as_ref());

    // While a spawn is pending, only its result is taken.
    let (sup, _, _) = go(sup, Event::Command(None));
    let (sup, _, next) = go(sup, Event::Devices(Some(set(&["a", "b"]))));
    assert_eq!(next, Request::Spawn(s("b")));
    let (sup, effects, next) = go(sup, Event::Command(Some(Command::Quit)));
    assert!(effects.is_empty());
    assert_eq!(next, Request::Spawn(s("b")));
    assert!(!sup.is_halted());
    let (sup, effects, next) = go(sup, Event::SpawnResult(Some(9)));
    assert_eq!(effects, vec![Effect::Started(s("b")), Effect::Pause(5)]);
    assert_eq!(next, Request::ReadCommand);
    assert_eq!(sup.handle(&s("b")), Some(&9));
}

#[test]
fn command_takes_the_place_of_the_device_diff_in_its_cycle() {
    let (sup, _, _) = reconcile(Supervisor::new(), set(&["a"]), &handle_for);
    for command in [Command::ListDevices, Command::RestartDevice] {
        let (after, _, next) = go(
            Supervisor::<u32>::new(),
            Event::Command(Some(command)),
        );
        assert!(next != Request::PollDevices);
        let _ = after;
    }
    let (sup, _, next) = go(sup, Event::Command(Some(Command::RestartDevice)));
    assert_eq!(next, Request::TakeRestartTarget);
    let (sup, _, next) = go(sup, Event::RestartTarget(s("a")));
    assert_eq!(next, Request::Spawn(s("a")));
    let (_, _, next) = go(sup, Event::SpawnResult(Some(1)));
    assert_eq!(next, Request::ReadCommand);
}

#[test]
fn handles_may_be_of_any_type() {
    let sup: Supervisor<String> = Supervisor::new();
    let (sup, _) = sup.step(Event::Command(None));
    let (sup, reaction) = sup.step(Event::Devices(Some(set(&["a"]))));
    assert_eq!(reaction.next, Request::Spawn(s("a")));
    let (sup, _) = sup.step(Event::SpawnResult(Some(s("process of a"))));
    assert_eq!(sup.handle(&s("a")), Some(&s("process of a")));
    let (_, reaction) = sup.step(Event::Command(Some(Command::Quit)));
    assert_eq!(reaction.effects, vec![Effect::Kill(s("a"), s("process of a"))]);
}
