use pathlight_core::autostart::{command_line, entry_text, escaped, launch_agent_text, xdg_entry_path, LoginItem};

/// A path with a space in it is the ordinary case on both desktops this
/// runs on, and an unquoted one starts a program that does not exist.
#[test]
fn a_command_survives_a_path_with_a_space_in_it() {
    let line = command_line("/opt/My Apps/pathlight", &["watch"]);

    assert_eq!(line, "\"/opt/My Apps/pathlight\" \"watch\"");
}

/// The entry has to name the program and say what it should do, or logging
/// in starts something that records nothing.
#[test]
fn an_entry_runs_this_program_with_what_it_was_asked_for() {
    let exe = "/opt/pathlight/pathlight-monitor";
    let text = entry_text(exe, &["watch"]);

    assert!(text.contains("pathlight-monitor"), "{text}");
    assert!(text.contains("watch"), "{text}");
}

#[test]
fn a_desktop_entry_is_exactly_what_a_session_reads() {
    let text = entry_text("/opt/p", &["watch", "--all"]);
    assert_eq!(
        text,
        "[Desktop Entry]\nType=Application\nName=Pathlight\nComment=Records what changes in the folders you watch\nExec=\"/opt/p\" \"watch\" \"--all\"\nTerminal=false\nX-GNOME-Autostart-enabled=true\n"
    );
}

#[test]
fn a_launch_agent_names_each_argument_and_escapes_markup() {
    let text = launch_agent_text("/Apps/A&B/p", &["watch"]);
    assert!(text.contains("\t\t<string>/Apps/A&amp;B/p</string>\n\t\t<string>watch</string>\n"), "{text}");
    assert!(text.starts_with("<?xml version=\"1.0\" encoding=\"UTF-8\"?>\n"));
    assert_eq!(escaped("<a&b>"), "&lt;a&amp;b&gt;");
}

#[test]
fn the_entry_lives_where_the_desktop_looks() {
    assert_eq!(xdg_entry_path(Some("/cfg"), Some("/home/u")), "/cfg/autostart/pathlight.desktop");
    assert_eq!(xdg_entry_path(Some("relative"), Some("/home/u")), "/home/u/.config/autostart/pathlight.desktop");
    assert_eq!(xdg_entry_path(None, None), "/.config/autostart/pathlight.desktop");
}

/// An entry left by another copy of Pathlight does not count as this one
/// being on.
#[test]
fn only_this_installs_entry_reads_as_enabled() {
    let item = LoginItem::xdg("/opt/pathlight/pathlight-monitor", &["watch"], "/tmp/x.desktop".to_string());
    let elsewhere = LoginItem::xdg("/elsewhere/pathlight", &["watch"], "/tmp/x.desktop".to_string());
    assert!(item.is_enabled(Some(item.text())));
    assert!(!item.is_enabled(Some(elsewhere.text())));
    assert!(!item.is_enabled(None));
    assert_eq!(item.command(), "\"/opt/pathlight/pathlight-monitor\" \"watch\"");
    assert!(item.is_registered(Some("\"/opt/pathlight/pathlight-monitor\" \"watch\"")));
}
