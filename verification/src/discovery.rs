//! Reading the discovery tool's output, and the poller that watches it.
//!
//! The output is text: lines separated by `'\n'`. A line names a device when
//! it holds a tab and does not hold the header marker: the device is the
//! characters before its first tab. Every other line is ignored, an empty one
//! and the header among them.
use vstd::prelude::*;
use vstd::string::StrSliceExecFns;
use crate::command::Command;
use crate::device_set::DeviceSet;
use crate::text::{
    chars_of, contains_text, copy_range, find_char, find_text, first_index, lemma_first_index,
};

verus! {

/// The words by which the header line is known.
pub open spec fn header_marker() -> Seq<char> {
    "List of devices"@
}

/// A line starts at the beginning of the text and after every `'\n'`.
pub open spec fn is_line_start(text: Seq<char>, at: int) -> bool {
    0 <= at <= text.len() && (at == 0 || text[at - 1] == '\n')
}

/// The line that starts at `at`: up to the next `'\n'` or the end of the text.
pub open spec fn line_at(text: Seq<char>, at: int) -> Seq<char> {
    text.subrange(at, first_index(text, '\n', at))
}

/// Whether a line names a device: it holds a tab, after the identifier, and
/// is no header line.
pub open spec fn names_device(line: Seq<char>) -> bool {
    first_index(line, '\t', 0) < line.len() && !contains_text(line, header_marker())
}

/// The characters of a line before its first tab.
pub open spec fn first_field(line: Seq<char>) -> Seq<char> {
    line.take(first_index(line, '\t', 0))
}

/// The line that starts at `at` names the device `id`.
pub open spec fn line_yields(text: Seq<char>, at: int, id: Seq<char>) -> bool {
    &&& is_line_start(text, at)
    &&& names_device(line_at(text, at))
    &&& id == first_field(line_at(text, at))
}

/// The devices that the discovery output `text` names.
pub open spec fn device_ids(text: Seq<char>) -> Set<Seq<char>> {
    Set::new(|id: Seq<char>| exists|at: int| line_yields(text, at, id))
}

/// The devices named by the lines of `text` that start before `bound`.
spec fn ids_before(text: Seq<char>, bound: int) -> Set<Seq<char>> {
    Set::new(|id: Seq<char>| exists|at: int| at < bound && line_yields(text, at, id))
}

/// The devices that one line adds.
spec fn ids_of_line(line: Seq<char>) -> Set<Seq<char>> {
    if names_device(line) {
        Set::empty().insert(first_field(line))
    } else {
        Set::empty()
    }
}

/// Between a line's start and the `'\n'` that ends it no other line starts.
proof fn lemma_ids_step(text: Seq<char>, start: int)
    requires
        is_line_start(text, start),
    ensures
        ids_before(text, first_index(text, '\n', start) + 1) == ids_before(text, start).union(
            ids_of_line(line_at(text, start)),
        ),
{
    let end = first_index(text, '\n', start);
    lemma_first_index(text, '\n', start);
    let lhs = ids_before(text, end + 1);
    let rhs = ids_before(text, start).union(ids_of_line(line_at(text, start)));
    assert forall|id: Seq<char>| lhs.contains(id) <==> rhs.contains(id) by {
        if lhs.contains(id) {
            let at = choose|at: int| at < end + 1 && line_yields(text, at, id);
            if at > start {
                assert(text[at - 1] == '\n');
                assert(false);
            }
            if at < start {
                assert(at < start && line_yields(text, at, id));
            }
        }
        if ids_before(text, start).contains(id) {
            let at = choose|at: int| at < start && line_yields(text, at, id);
            assert(at < end + 1 && line_yields(text, at, id));
        }
        if ids_of_line(line_at(text, start)).contains(id) {
            assert(start < end + 1 && line_yields(text, start, id));
        }
    }
    assert(lhs =~= rhs);
}

/// Every line starts at or before the end of the text.
proof fn lemma_ids_all(text: Seq<char>)
    ensures
        ids_before(text, text.len() as int + 1) == device_ids(text),
        ids_before(text, 0) == Set::<Seq<char>>::empty(),
{
    assert forall|id: Seq<char>| ids_before(text, text.len() as int + 1).contains(id)
        <==> device_ids(text).contains(id) by {
        if device_ids(text).contains(id) {
            let at = choose|at: int| line_yields(text, at, id);
            assert(at < text.len() + 1 && line_yields(text, at, id));
        }
    }
    assert(ids_before(text, text.len() as int + 1) =~= device_ids(text));
    assert(ids_before(text, 0) =~= Set::<Seq<char>>::empty());
}

/// Reads the discovery tool's output: the set of the devices that it names.
pub fn process_adb_output(adb_string: &String) -> (devices: DeviceSet)
    ensures
        devices@.to_set() == device_ids(adb_string@),
        devices@.no_duplicates(),
{
    let text = chars_of(adb_string.as_str());
    let marker = chars_of("List of devices");
    let mut devices = DeviceSet::new();
    let mut start: usize = 0;
    proof {
        lemma_ids_all(text@);
        assert(devices@.to_set() =~= Set::<Seq<char>>::empty());
    }
    loop
        invariant
            text@ == adb_string@,
            marker@ == header_marker(),
            is_line_start(text@, start as int),
            devices@.no_duplicates(),
            devices@.to_set() == ids_before(text@, start as int),
        decreases text.len() - start,
    {
        let end = find_char(&text, '\n', start);
        let line = copy_range(&text, start, end);
        let ghost before = devices@;
        proof {
            lemma_first_index(text@, '\n', start as int);
            lemma_ids_step(text@, start as int);
            assert(line@ == line_at(text@, start as int));
        }
        let tab = find_char(&line, '\t', 0);
        proof {
            lemma_first_index(line@, '\t', 0);
        }
        if tab < line.len() && !find_text(&line, &marker) {
            let id = adb_string.as_str().substring_char(start, start + tab).to_owned();
            assert(id@ =~= first_field(line@));
            devices.insert(id);
            proof {
                before.lemma_push_to_set_commute(id@);
                assert(devices@.to_set() =~= before.to_set().insert(id@));
            }
        }
        assert(devices@.to_set() =~= ids_before(text@, end + 1));
        if end >= text.len() {
            proof {
                lemma_ids_all(text@);
            }
            return devices;
        }
        start = end + 1;
    }
}

/// Of the device sets that wait for the supervisor only the newest counts:
/// the last of `waiting`, or none when nothing waits. The older ones are
/// superseded, never merged.
pub fn newest(waiting: Vec<DeviceSet>) -> (latest: Option<DeviceSet>)
    ensures
        waiting@.len() == 0 ==> latest is None,
        waiting@.len() > 0 ==> latest is Some && latest->0@ == waiting@.last()@,
{
    let mut waiting = waiting;
    waiting.pop()
}

/// Whether a raw discovery result is handed on: it is not empty and differs
/// from the last one that was.
pub open spec fn publishes(last: Seq<char>, raw: Seq<char>) -> bool {
    raw.len() > 0 && raw != last
}

/// What the poller is told.
pub enum PollEvent {
    /// The command register as it was read; `None` when it could not be read
    /// without waiting.
    Command(Option<Command>),
    /// The raw text that the discovery tool printed.
    Output(String),
}

/// What the poller asks for next.
#[derive(Debug)]
pub enum PollAction {
    /// Leave the loop.
    Stop,
    /// Ask the discovery tool, and hand its output in.
    Query,
    /// Send this device set to the supervisor, then wait one polling interval
    /// and read the command register.
    Publish(DeviceSet),
    /// Wait one polling interval and read the command register.
    Rest,
}

/// The discovery poller: it remembers the last raw result that it handed on.
pub struct Poller {
    last_output: String,
}

impl Poller {
    /// The last raw result that was handed on; empty before the first.
    pub closed spec fn view(self) -> Seq<char> {
        self.last_output@
    }

    /// A poller that has handed on nothing yet.
    pub fn new() -> (poller: Poller)
        ensures
            poller@ == Seq::<char>::empty(),
    {
        Poller { last_output: String::new() }
    }

    /// Decides on one event. A `Quit` in the register stops the poller, any
    /// other reading makes it ask the discovery tool. A raw result is parsed
    /// and published when it is not empty and differs from the last published
    /// one, which it then replaces.
    pub fn step(&mut self, event: PollEvent) -> (action: PollAction)
        ensures
            match event {
                PollEvent::Command(command) => {
                    &&& final(self)@ == old(self)@
                    &&& command == Some(Command::Quit) ==> action is Stop
                    &&& command != Some(Command::Quit) ==> action is Query
                },
                PollEvent::Output(raw) => if publishes(old(self)@, raw@) {
                    &&& final(self)@ == raw@
                    &&& action is Publish
                    &&& action->Publish_0@.to_set() == device_ids(raw@)
                    &&& action->Publish_0@.no_duplicates()
                } else {
                    &&& final(self)@ == old(self)@
                    &&& action is Rest
                },
            },
    {
        match event {
            PollEvent::Command(Some(Command::Quit)) => PollAction::Stop,
            PollEvent::Command(_) => PollAction::Query,
            PollEvent::Output(raw) => {
                if !raw.as_str().is_empty() && !(raw == self.last_output) {
                    let devices = process_adb_output(&raw);
                    self.last_output = raw;
                    PollAction::Publish(devices)
                } else {
                    PollAction::Rest
                }
            },
        }
    }
}

} // verus!
