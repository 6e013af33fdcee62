use std::collections::HashMap;

use pathlight_core::uninstall;
use pathlight_core::uninstall::Layout;

fn env(pairs: &[(&str, &str)]) -> impl Fn(&str) -> Option<String> {
    let vars: HashMap<String, String> = pairs.iter().map(|(name, value)| (name.to_string(), value.to_string())).collect();
    move |name: &str| vars.get(name).cloned()
}

fn spellings(paths: &[String]) -> Vec<String> {
    paths.iter().map(|path| path.replace('\\', "/")).collect()
}

#[test]
fn xdg_roots_are_honoured_when_absolute() {
    let paths = uninstall::xdg_paths(
        "/home/tester",
        env(&[("XDG_DATA_HOME", "/data/pathlight-home"), ("XDG_CACHE_HOME", "/scratch/cache")]),
    );

    assert_eq!(
        spellings(&paths),
        [
            "/data/pathlight-home/pathlight",
            "/home/tester/.local/state/pathlight",
            "/home/tester/.config/pathlight",
            "/scratch/cache/pathlight",
        ],
        "unset roots fall back to the specification's defaults"
    );
}

#[test]
fn relative_or_empty_xdg_roots_are_ignored_rather_than_resolved() {
    let paths = uninstall::xdg_paths("/home/tester", env(&[("XDG_DATA_HOME", "relative/share"), ("XDG_CONFIG_HOME", "")]));

    assert_eq!(
        spellings(&paths),
        [
            "/home/tester/.local/share/pathlight",
            "/home/tester/.local/state/pathlight",
            "/home/tester/.config/pathlight",
            "/home/tester/.cache/pathlight",
        ]
    );
}

#[test]
fn windows_uses_both_roaming_and_local_app_data() {
    let configured = uninstall::windows_paths("C:/Users/tester", env(&[("APPDATA", "D:/Roaming"), ("LOCALAPPDATA", "D:/Local")]));
    assert_eq!(spellings(&configured), ["D:/Roaming/Pathlight", "D:/Local/Pathlight"]);

    let unset = uninstall::windows_paths("C:/Users/tester", env(&[]));
    assert_eq!(
        spellings(&unset),
        ["C:/Users/tester/AppData/Roaming/Pathlight", "C:/Users/tester/AppData/Local/Pathlight"],
        "a profile without the variables set still has a standard layout"
    );
}

#[test]
fn macos_leaves_the_host_specific_list_to_the_host() {
    let paths = uninstall::macos_paths("/Users/tester");
    assert_eq!(
        spellings(&paths),
        ["/Users/tester/Library/Application Support/Pathlight"],
        "the Swift host owns preferences, caches and the keychain"
    );
}

#[test]
fn no_layout_can_name_a_monitored_folder() {
    let home = "/home/tester";
    let watched = ["/home/tester/Documents", "/home/tester", "/"];
    let every_layout = [uninstall::xdg_paths(home, env(&[])), uninstall::windows_paths(home, env(&[])), uninstall::macos_paths(home)];

    for layout in every_layout {
        for spelling in layout {
            assert!(!watched.contains(&spelling.as_str()), "{spelling} is a folder someone might be monitoring");
            assert!(spelling.to_lowercase().ends_with("pathlight"), "{spelling} does not name Pathlight's own storage");
        }
    }
}

#[test]
fn the_directory_a_host_writes_to_is_always_on_the_removal_list() {
    let home = "/home/tester";
    let cases: [&[(&str, &str)]; 3] = [
        &[],
        &[("XDG_DATA_HOME", "/data/x"), ("LOCALAPPDATA", "D:/Local")],
        &[("XDG_DATA_HOME", "relative/ignored"), ("APPDATA", "")],
    ];
    for layout in [Layout::Xdg, Layout::Windows, Layout::MacOs] {
        for pairs in cases {
            let target = spellings(&[uninstall::data_dir(layout, home, env(pairs))]);
            assert!(
                spellings(&uninstall::paths(layout, home, env(pairs))).contains(&target[0]),
                "{:?} is written but never removed with {pairs:?}",
                target[0]
            );
        }
    }
}

#[test]
fn every_layout_puts_the_journal_in_its_platforms_local_place() {
    let home = "/home/tester";
    let vars = env(&[("APPDATA", "D:/Roaming"), ("LOCALAPPDATA", "D:/Local")]);
    assert_eq!(spellings(&[uninstall::windows_data_dir(home, &vars)]), ["D:/Local/Pathlight"]);
    assert_eq!(spellings(&uninstall::windows_paths(home, &vars)), ["D:/Roaming/Pathlight", "D:/Local/Pathlight"]);
    assert_eq!(spellings(&[uninstall::xdg_data_dir(home, env(&[]))]), ["/home/tester/.local/share/pathlight"]);
    assert_eq!(spellings(&[uninstall::macos_data_dir(home)]), ["/home/tester/Library/Application Support/Pathlight"]);
}
