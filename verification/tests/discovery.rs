use mirror_supervisor::command::Command;
use mirror_supervisor::device_set::DeviceSet;
use mirror_supervisor::discovery::{newest, process_adb_output, PollAction, PollEvent, Poller};

fn parsed(text: &str) -> Vec<String> {
    let mut ids = process_adb_output(&text.to_string()).to_vec();
    ids.sort();
    ids
}

fn published(action: PollAction) -> Option<Vec<String>> {
    match action {
        PollAction::Publish(set) => {
            let mut ids = set.to_vec();
            ids.sort();
            Some(ids)
        }
        _ => None,
    }
}

#[test]
fn one_device_after_the_header() {
    assert_eq!(parsed("List of devices attached\nABC123\tdevice\n"), vec!["ABC123"]);
}

#[test]
fn header_only_names_no_device() {
    assert!(parsed("List of devices attached\n").is_empty());
    assert!(parsed("List of devices attached\n\n").is_empty());
    assert!(parsed("List of devices attached").is_empty());
}

#[test]
fn empty_text_names_no_device() {
    assert!(parsed("").is_empty());
    assert!(parsed("\n\n\n").is_empty());
}

#[test]
fn several_devices_and_blank_lines() {
    let text = "List of devices attached\nR58M1\tdevice\nemulator-5554\toffline\n\n192.168.1.7:5555\tdevice\n\n";
    assert_eq!(parsed(text), vec!["192.168.1.7:5555", "R58M1", "emulator-5554"]);
}

#[test]
fn repeated_identifier_counts_once() {
    let set = process_adb_output(&"A\tdevice\nB\tdevice\nA\tunauthorized\n".to_string());
    assert_eq!(set.len(), 2);
    assert!(set.contains(&"A".to_string()));
    assert!(set.contains(&"B".to_string()));
    assert!(!set.contains(&"C".to_string()));
}

#[test]
fn identifier_ends_at_the_first_tab() {
    assert_eq!(parsed("serial\tdevice\tusb:1-1\tproduct:x\n"), vec!["serial"]);
}

#[test]
fn line_without_tab_is_ignored() {
    assert!(parsed("ABC123\nDEF456 device\n").is_empty());
    assert!(parsed("* daemon not running; starting now at tcp:5037\n").is_empty());
    let set = process_adb_output(
        &"List of devices attached\nno-tab-line\nABC123\tdevice\n".to_string(),
    );
    assert_eq!(set.len(), 1);
    assert!(set.contains(&"ABC123".to_string()));
    assert!(!set.contains(&"no-tab-line".to_string()));
}

#[test]
fn line_names_a_device_as_soon_as_it_has_a_tab() {
    assert_eq!(parsed("ABC123\t\n"), vec!["ABC123"]);
    assert_eq!(parsed("ABC123\n"), Vec::<String>::new());
    assert_eq!(parsed("a b\tdevice\nc\n\nd\toffline"), vec!["a b", "d"]);
}

#[test]
fn line_that_starts_with_a_tab_names_the_empty_identifier() {
    assert_eq!(parsed("\tdevice\n"), vec![""]);
}

#[test]
fn last_line_needs_no_newline() {
    assert_eq!(parsed("List of devices attached\nABC123\tdevice"), vec!["ABC123"]);
}

#[test]
fn header_marker_anywhere_in_a_line_makes_it_a_header() {
    assert!(parsed("* List of devices attached *\n").is_empty());
    assert!(parsed("xList of devices\tdevice\n").is_empty());
    assert_eq!(parsed("List of device\tdevice\n"), vec!["List of device"]);
    assert_eq!(parsed("list of devices\tdevice\n"), vec!["list of devices"]);
}

#[test]
fn carriage_return_is_part_of_the_line() {
    assert!(parsed("ABC\r\n").is_empty());
    assert_eq!(parsed("ABC\tdevice\r\n"), vec!["ABC"]);
    assert_eq!(parsed("ABC\r\tdevice\n"), vec!["ABC\r"]);
    assert_eq!(parsed("A\tdevice\rB\tdevice\n"), vec!["A"]);
}

#[test]
fn identifiers_beyond_ascii_are_kept_whole() {
    assert_eq!(parsed("gerät-ä\tdevice\n名前\tdevice\n"), vec!["gerät-ä", "名前"]);
}

#[test]
fn poller_stops_on_quit_only() {
    let mut poller = Poller::new();
    assert!(matches!(poller.step(PollEvent::Command(Some(Command::Quit))), PollAction::Stop));
    assert!(matches!(poller.step(PollEvent::Command(Some(Command::Idle))), PollAction::Query));
    assert!(matches!(
        poller.step(PollEvent::Command(Some(Command::ListDevices))),
        PollAction::Query
    ));
    assert!(matches!(
        poller.step(PollEvent::Command(Some(Command::RestartDevice))),
        PollAction::Query
    ));
    assert!(matches!(poller.step(PollEvent::Command(None)), PollAction::Query));
}

#[test]
fn poller_publishes_a_new_result() {
    let mut poller = Poller::new();
    let action = poller.step(PollEvent::Output("List of devices attached\nABC123\tdevice\n".to_string()));
    assert_eq!(published(action), Some(vec!["ABC123".to_string()]));
}

#[test]
fn poller_never_publishes_an_empty_result() {
    let mut poller = Poller::new();
    assert!(matches!(poller.step(PollEvent::Output(String::new())), PollAction::Rest));
    let _ = poller.step(PollEvent::Output("A\tdevice\n".to_string()));
    assert!(matches!(poller.step(PollEvent::Output(String::new())), PollAction::Rest));
    // The empty result did not replace the last published one.
    assert!(matches!(poller.step(PollEvent::Output("A\tdevice\n".to_string())), PollAction::Rest));
}

#[test]
fn poller_never_publishes_an_unchanged_result() {
    let mut poller = Poller::new();
    let text = "List of devices attached\nABC123\tdevice\n";
    assert!(matches!(poller.step(PollEvent::Output(text.to_string())), PollAction::Publish(_)));
    assert!(matches!(poller.step(PollEvent::Output(text.to_string())), PollAction::Rest));
    assert!(matches!(poller.step(PollEvent::Output(text.to_string())), PollAction::Rest));
}

#[test]
fn poller_publishes_the_empty_set_when_the_devices_are_gone() {
    let mut poller = Poller::new();
    let _ = poller.step(PollEvent::Output("List of devices attached\nABC123\tdevice\n".to_string()));
    let action = poller.step(PollEvent::Output("List of devices attached\n".to_string()));
    assert_eq!(published(action), Some(Vec::<String>::new()));
}

#[test]
fn poller_publishes_again_when_a_result_comes_back() {
    let mut poller = Poller::new();
    let _ = poller.step(PollEvent::Output("A\tdevice\n".to_string()));
    let _ = poller.step(PollEvent::Output("B\tdevice\n".to_string()));
    let action = poller.step(PollEvent::Output("A\tdevice\n".to_string()));
    assert_eq!(published(action), Some(vec!["A".to_string()]));
}

#[test]
fn device_set_keeps_insertion_order_without_repeats() {
    let mut set = DeviceSet::new();
    assert_eq!(set.len(), 0);
    assert!(set.insert("b".to_string()));
    assert!(set.insert("a".to_string()));
    assert!(!set.insert("b".to_string()));
    assert_eq!(set.to_vec(), vec!["b", "a"]);
    assert_eq!(set.len(), 2);
}

#[test]
fn device_set_from_vec_drops_repeats() {
    let set = DeviceSet::from_vec(vec!["x".to_string(), "y".to_string(), "x".to_string()]);
    assert_eq!(set.to_vec(), vec!["x", "y"]);
    let set = DeviceSet::from_vec(
        ["c", "a", "c", "b", "a", "c"].iter().map(|id| id.to_string()).collect(),
    );
    assert_eq!(set.to_vec(), vec!["c", "a", "b"]);
    assert!(DeviceSet::from_vec(Vec::new()).to_vec().is_empty());
}

#[test]
fn device_set_minus_keeps_what_the_other_lacks() {
    let a = DeviceSet::from_vec(vec!["1".to_string(), "2".to_string(), "3".to_string()]);
    let b = DeviceSet::from_vec(vec!["2".to_string(), "4".to_string()]);
    assert_eq!(a.minus(&b), vec!["1", "3"]);
    assert_eq!(b.minus(&a), vec!["4"]);
    assert!(a.minus(&a).is_empty());
    assert_eq!(a.minus(&DeviceSet::new()), vec!["1", "2", "3"]);
}

#[test]
fn only_the_newest_waiting_set_counts() {
    assert!(newest(Vec::new()).is_none());
    let one = newest(vec![DeviceSet::from_vec(vec!["a".to_string()])]).unwrap();
    assert_eq!(one.to_vec(), vec!["a"]);
    let last = newest(vec![
        DeviceSet::from_vec(vec!["a".to_string()]),
        DeviceSet::from_vec(vec!["b".to_string(), "c".to_string()]),
        DeviceSet::new(),
    ])
    .unwrap();
    assert!(last.to_vec().is_empty());
}
