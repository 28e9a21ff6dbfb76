use mirror_supervisor::command::Command;
use mirror_supervisor::shell::{is_space_char, on_line, ShellEffect};

fn effects(line: &str) -> (Vec<ShellEffect>, bool) {
    let reaction = on_line(&line.to_string());
    (reaction.effects, reaction.stop)
}

#[test]
fn quit_writes_quit_and_stops() {
    assert_eq!(effects("quit\n"), (vec![ShellEffect::Write(Command::Quit)], true));
    assert_eq!(effects("quit"), (vec![ShellEffect::Write(Command::Quit)], true));
    assert_eq!(effects("  quit now\n"), (vec![ShellEffect::Write(Command::Quit)], true));
}

#[test]
fn devices_writes_list_devices() {
    assert_eq!(effects("devices\n"), (vec![ShellEffect::Write(Command::ListDevices)], false));
    assert_eq!(effects("\tdevices  \n"), (vec![ShellEffect::Write(Command::ListDevices)], false));
}

#[test]
fn restart_queues_the_device_before_it_writes_the_command() {
    assert_eq!(
        effects("restart ABC123\n"),
        (
            vec![
                ShellEffect::PushTarget("ABC123".to_string()),
                ShellEffect::Write(Command::RestartDevice),
            ],
            false
        )
    );
}

#[test]
fn restart_takes_the_second_word_whatever_the_spacing() {
    let expected = (
        vec![
            ShellEffect::PushTarget("emulator-5554".to_string()),
            ShellEffect::Write(Command::RestartDevice),
        ],
        false,
    );
    assert_eq!(effects("restart   emulator-5554"), expected);
    assert_eq!(effects(" restart\temulator-5554 extra words\r\n"), expected);
    assert_eq!(effects("restart\u{a0}emulator-5554\u{3000}"), expected);
}

#[test]
fn restart_without_a_device_is_ignored() {
    assert_eq!(effects("restart\n"), (vec![], false));
    assert_eq!(effects("restart   \n"), (vec![], false));
}

#[test]
fn other_input_is_ignored() {
    assert_eq!(effects(""), (vec![], false));
    assert_eq!(effects("\n"), (vec![], false));
    assert_eq!(effects("   \t \n"), (vec![], false));
    assert_eq!(effects("help\n"), (vec![], false));
    assert_eq!(effects("Quit\n"), (vec![], false));
    assert_eq!(effects("quitx\n"), (vec![], false));
    assert_eq!(effects("qui\n"), (vec![], false));
    assert_eq!(effects("device\n"), (vec![], false));
    assert_eq!(effects("list devices\n"), (vec![], false));
    assert_eq!(effects("restartABC\n"), (vec![], false));
}

#[test]
fn white_space_is_what_unicode_says() {
    for c in [' ', '\t', '\n', '\r', '\u{b}', '\u{c}', '\u{85}', '\u{a0}', '\u{1680}', '\u{2000}',
        '\u{2005}', '\u{200a}', '\u{2028}', '\u{2029}', '\u{202f}', '\u{205f}', '\u{3000}']
    {
        assert!(is_space_char(c));
    }
    for c in ['a', '0', '-', '\u{0}', '\u{1f}', '\u{200b}', '\u{feff}', '\u{180e}'] {
        assert!(!is_space_char(c));
    }
}

#[test]
fn white_space_agrees_with_std_on_every_character() {
    let mut code: u32 = 0;
    while code <= 0x10ffff {
        if let Some(c) = char::from_u32(code) {
            assert_eq!(is_space_char(c), c.is_whitespace());
        }
        code += 1;
    }
}
