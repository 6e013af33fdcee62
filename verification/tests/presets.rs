use pathlight_core::presets::{all, available};
use pathlight_core::uninstall::Layout;

#[test]
fn every_preset_names_a_folder_this_os_actually_uses() {
    let home = "/home/example";
    let presets = all(Layout::Xdg, Some(home), None);

    assert!(presets.iter().any(|preset| preset.title == "Whole disk"));
    let downloads = presets.iter().find(|preset| preset.title == "Downloads").expect("Downloads is offered everywhere");
    assert_eq!(downloads.path, format!("{home}/Downloads"));
    assert!(presets.iter().all(|preset| !preset.path.contains('\\')), "{presets:?}");
    let offered = available(Layout::Xdg, Some(home), None, |path: &str| path == "/" || path == "/home/example/Downloads");
    assert!(offered.len() >= 2, "{offered:?}");
}

#[test]
fn windows_presets_start_at_the_system_drive_and_use_forward_separators() {
    let presets = all(Layout::Windows, Some(r"C:\Users\x"), Some("D:"));
    assert_eq!(presets[0].path, "D:/");
    assert_eq!(presets[1].path, "C:/Users/x/Downloads");
    assert!(presets.iter().any(|p| p.path == "C:/Users/x/AppData/Local"));
    let fallback = all(Layout::Windows, None, Some(""));
    assert_eq!(fallback[0].path, "C:/");
}

#[test]
fn macos_offers_its_library_and_applications() {
    let presets = all(Layout::MacOs, Some("/Users/x"), None);
    let paths: Vec<&str> = presets.iter().map(|p| p.path.as_str()).collect();
    assert_eq!(paths, ["/", "/Users/x/Downloads", "/Users/x/Desktop", "/Users/x/Documents", "/Users/x/Library", "/Applications"]);
}
