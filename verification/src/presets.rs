//! The folders worth watching without being asked where they are.
//!
//! Every desktop keeps its churn in places a person would not think to type:
//! `AppData\Local`, `~/.cache`, `~/Library`. Naming them is the difference
//! between a monitor somebody points at Downloads and a monitor that shows
//! them where their disk actually went.

use vstd::prelude::*;

use crate::paths::{joined, normalize, normalize_windows, normalized, windows_normalized};
use crate::uninstall::Layout;

verus! {

/// One offered folder: a name and a path. What a watch records is this
/// install's settings, the same for a preset as for a folder picked by hand.
#[derive(Clone, Debug, PartialEq, Eq)]
pub struct Preset {
    pub title: String,
    pub path: String,
}

/// A preset as text.
pub open spec fn preset_view(p: Preset) -> (Seq<char>, Seq<char>) {
    (p.title@, p.path@)
}

/// The presets as text.
pub open spec fn presets_view(ps: Seq<Preset>) -> Seq<(Seq<char>, Seq<char>)> {
    ps.map_values(|p: Preset| preset_view(p))
}

/// What a home or drive variable is worth: its text when it has some.
pub open spec fn nonempty(value: Option<Seq<char>>) -> Option<Seq<char>> {
    match value {
        Some(v) => if v.len() > 0 { Some(v) } else { None },
        None => None,
    }
}

/// The home folder: the variable when it is set and not empty, `/` otherwise.
pub open spec fn home_of(home: Option<Seq<char>>) -> Seq<char> {
    match nonempty(home) {
        Some(h) => h,
        None => seq!['/'],
    }
}

/// `relative` under `home`, spelled as this OS's paths are normalized. On
/// Windows a separator is either slash.
pub open spec fn under_of(layout: Layout, home: Seq<char>, relative: Seq<char>) -> Seq<char> {
    match layout {
        Layout::Windows => windows_normalized(
            if home.len() == 0 || home.last() == '/' || home.last() == '\\' {
                home + relative
            } else {
                home + seq!['\\'] + relative
            },
        ),
        _ => normalized(joined(home, relative)),
    }
}

/// Where a whole-disk watch starts: on Windows the drive the system booted
/// from rather than a hard `C:`, `/` everywhere else.
pub open spec fn whole_disk_of(layout: Layout, system_drive: Option<Seq<char>>) -> Seq<char> {
    match layout {
        Layout::Windows => windows_normalized(
            match nonempty(system_drive) {
                Some(d) => d,
                None => "C:"@,
            } + seq!['\\'],
        ),
        _ => seq!['/'],
    }
}

/// Every preset this OS has, existing or not, in the order a person would
/// look for them.
pub open spec fn all_of(layout: Layout, home: Option<Seq<char>>, system_drive: Option<Seq<char>>) -> Seq<
    (Seq<char>, Seq<char>),
> {
    let h = home_of(home);
    let common = seq![
        ("Whole disk"@, whole_disk_of(layout, system_drive)),
        ("Downloads"@, under_of(layout, h, "Downloads"@)),
        ("Desktop"@, under_of(layout, h, "Desktop"@)),
        ("Documents"@, under_of(layout, h, "Documents"@)),
    ];
    match layout {
        Layout::Windows => common + seq![
            ("App data (local)"@, under_of(layout, h, "AppData/Local"@)),
            ("App data (roaming)"@, under_of(layout, h, "AppData/Roaming"@)),
        ],
        Layout::MacOs => common + seq![
            ("Library"@, under_of(layout, h, "Library"@)),
            ("Applications"@, "/Applications"@),
        ],
        Layout::Xdg => common + seq![
            ("Cache"@, under_of(layout, h, ".cache"@)),
            ("Application data"@, under_of(layout, h, ".local/share"@)),
            ("Logs"@, "/var/log"@),
        ],
    }
}

/// The views of an optional text.
pub open spec fn opt_view(value: Option<&str>) -> Option<Seq<char>> {
    match value {
        Some(v) => Some(v@),
        None => None,
    }
}

fn under(layout: Layout, home: &str, title: &str, relative: &str) -> (p: Preset)
    ensures
        preset_view(p) == (title@, under_of(layout, home@, relative@)),
{
    let path = match layout {
        Layout::Windows => {
            let mut text = crate::chars::chars_of(home);
            if !(text.len() == 0 || text[text.len() - 1] == '/' || text[text.len() - 1] == '\\') {
                text.push('\\');
            }
            crate::chars::push_str(&mut text, relative);
            let joined_text = crate::chars::string_of(text.as_slice());
            proof {
                if home@.len() == 0 || home@.last() == '/' || home@.last() == '\\' {
                    assert(joined_text@ =~= home@ + relative@);
                } else {
                    assert(joined_text@ =~= home@ + seq!['\\'] + relative@);
                }
            }
            normalize_windows(joined_text.as_str())
        },
        _ => {
            let j = crate::paths::join(home, relative);
            normalize(j.as_str())
        },
    };
    Preset { title: title.to_string(), path }
}

fn named(title: &str, path: String) -> (p: Preset)
    ensures
        preset_view(p) == (title@, path@),
{
    Preset { title: title.to_string(), path }
}

fn fixed(title: &str, path: &str) -> (p: Preset)
    ensures
        preset_view(p) == (title@, path@),
{
    Preset { title: title.to_string(), path: path.to_string() }
}

fn text_of(value: Option<&str>, fallback: &str) -> (out: String)
    ensures
        out@ == match nonempty(opt_view(value)) {
            Some(v) => v,
            None => fallback@,
        },
{
    match value {
        Some(v) => if crate::chars::chars_of(v).len() > 0 { v.to_string() } else { fallback.to_string() },
        None => fallback.to_string(),
    }
}

/// Every preset this OS has, existing or not: `layout` is the desktop's,
/// `home` what the home variable holds (`USERPROFILE` on Windows, `HOME`
/// elsewhere) and `system_drive` what `SystemDrive` holds.
pub fn all(layout: Layout, home: Option<&str>, system_drive: Option<&str>) -> (out: Vec<Preset>)
    ensures
        presets_view(out@) == all_of(layout, opt_view(home), opt_view(system_drive)),
{
    let h = text_of(home, "/");
    proof {
        reveal_strlit("/");
        assert(h@ == home_of(opt_view(home)));
    }
    let disk = match layout {
        Layout::Windows => {
            let drive = text_of(system_drive, "C:");
            let mut d = crate::chars::chars_of(drive.as_str());
            d.push('\\');
            let text = crate::chars::string_of(d.as_slice());
            proof {
                assert(text@ =~= drive@ + seq!['\\']);
            }
            normalize_windows(text.as_str())
        },
        _ => {
            let mut d: Vec<char> = Vec::new();
            d.push('/');
            crate::chars::string_of(d.as_slice())
        },
    };
    proof {
        assert(disk@ =~= whole_disk_of(layout, opt_view(system_drive)));
    }
    let mut out: Vec<Preset> = Vec::new();
    out.push(named("Whole disk", disk));
    out.push(under(layout, h.as_str(), "Downloads", "Downloads"));
    out.push(under(layout, h.as_str(), "Desktop", "Desktop"));
    out.push(under(layout, h.as_str(), "Documents", "Documents"));
    match layout {
        Layout::Windows => {
            out.push(under(layout, h.as_str(), "App data (local)", "AppData/Local"));
            out.push(under(layout, h.as_str(), "App data (roaming)", "AppData/Roaming"));
        },
        Layout::MacOs => {
            out.push(under(layout, h.as_str(), "Library", "Library"));
            out.push(fixed("Applications", "/Applications"));
        },
        Layout::Xdg => {
            out.push(under(layout, h.as_str(), "Cache", ".cache"));
            out.push(under(layout, h.as_str(), "Application data", ".local/share"));
            out.push(fixed("Logs", "/var/log"));
        },
    }
    proof {
        assert(presets_view(out@) =~= all_of(layout, opt_view(home), opt_view(system_drive)));
    }
    out
}

/// The presets of `ps` for which `present` answered true, in order.
pub open spec fn kept(ps: Seq<(Seq<char>, Seq<char>)>, present: Seq<bool>) -> Seq<(Seq<char>, Seq<char>)>
    decreases ps.len(),
{
    if ps.len() == 0 || present.len() == 0 {
        seq![]
    } else if present.last() {
        kept(ps.drop_last(), present.drop_last()).push(ps.last())
    } else {
        kept(ps.drop_last(), present.drop_last())
    }
}

/// `is_dir` can be asked about any path.
pub open spec fn asks_any_path<F: Fn(&str) -> bool>(is_dir: F) -> bool {
    forall|path: &str| #[trigger] call_requires(is_dir, (path,))
}

/// `is_dir` may answer `answer` when asked about the path `path`.
pub open spec fn answers<F: Fn(&str) -> bool>(is_dir: F, path: Seq<char>, answer: bool) -> bool {
    exists|p: &str| p@ == path && #[trigger] call_ensures(is_dir, (p,), answer)
}

/// The presets whose folder exists on this machine, as `is_dir` answers it,
/// in the order a person would look for them. A preset pointing at a folder
/// that is not there is an offer to watch nothing.
pub fn available<F: Fn(&str) -> bool>(layout: Layout, home: Option<&str>, system_drive: Option<&str>, is_dir: F) -> (out: Vec<Preset>)
    requires
        asks_any_path(is_dir),
    ensures
        exists|present: Seq<bool>| {
            &&& present.len() == all_of(layout, opt_view(home), opt_view(system_drive)).len()
            &&& forall|i: int| 0 <= i < present.len()
                ==> #[trigger] answers(is_dir, all_of(layout, opt_view(home), opt_view(system_drive))[i].1, present[i])
            &&& presets_view(out@) == kept(all_of(layout, opt_view(home), opt_view(system_drive)), present)
        },
{
    let every = all(layout, home, system_drive);
    let ghost views = presets_view(every@);
    let mut out: Vec<Preset> = Vec::new();
    let ghost mut present: Seq<bool> = seq![];
    let mut i: usize = 0;
    while i < every.len()
        invariant
            i <= every@.len(),
            views == presets_view(every@),
            views == all_of(layout, opt_view(home), opt_view(system_drive)),
            asks_any_path(is_dir),
            present.len() == i,
            forall|k: int| 0 <= k < i ==> #[trigger] answers(is_dir, views[k].1, present[k]),
            presets_view(out@) == kept(views.take(i as int), present),
        decreases every@.len() - i,
    {
        let path = every[i].path.as_str();
        let answer = is_dir(path);
        proof {
            assert(path@ == views[i as int].1);
        }
        let ghost before = out@;
        if answer {
            out.push(Preset { title: every[i].title.clone(), path: every[i].path.clone() });
        }
        proof {
            let next = present.push(answer);
            assert(views.take(i + 1).drop_last() =~= views.take(i as int));
            assert(next.drop_last() =~= present);
            assert(views.take(i + 1).last() == views[i as int]);
            if answer {
                assert(presets_view(out@) =~= presets_view(before).push(preset_view(every@[i as int])));
            }
            assert forall|k: int| 0 <= k < i + 1 implies #[trigger] answers(is_dir, views[k].1, next[k]) by {
                if k == i {
                    assert(call_ensures(is_dir, (path,), next[k]));
                } else {
                    assert(answers(is_dir, views[k].1, present[k]));
                }
            }
            present = next;
        }
        i = i + 1;
    }
    proof {
        assert(views.take(views.len() as int) =~= views);
    }
    out
}

} // verus!
