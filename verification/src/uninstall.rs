//! Where Pathlight's own storage lives on each OS.
//!
//! Uninstall is one of the few operations whose correctness is entirely about
//! paths, and the only one where getting a path wrong deletes somebody's data.
//! So every entry here is derived from the platform's own data directories and
//! a fixed application name — never from a watch target, a journal argument or
//! anything else a user typed. A folder the user asked Pathlight to monitor
//! cannot reach this list.
//!
//! The three layouts are plain functions of their inputs, so the Windows and
//! Linux rules hold on every host instead of only where they ship. Reading
//! the environment and removing what the list names is the host's part.

use vstd::prelude::*;

use crate::chars::{ends_with, starts_with};
use crate::paths::{join, joined};

verus! {

/// The directory name on platforms that use display-style names.
pub const APP_DIR: &'static str = "Pathlight";

/// The directory name under XDG roots, which are all-lowercase by convention.
pub const XDG_APP_DIR: &'static str = "pathlight";

/// The layout a build follows.
#[derive(Clone, Copy, Debug, PartialEq, Eq, Structural)]
pub enum Layout {
    MacOs,
    Windows,
    Xdg,
}

/// The text an environment lookup answered, if any.
pub open spec fn answered(value: Option<String>) -> Option<Seq<char>> {
    match value {
        Some(v) => Some(v@),
        None => None,
    }
}

/// A variable that is set to something: unset and empty are the same answer.
pub open spec fn present_of(value: Option<Seq<char>>) -> Option<Seq<char>> {
    match value {
        Some(v) => if v.len() > 0 { Some(v) } else { None },
        None => None,
    }
}

/// A variable that holds an absolute POSIX path; anything else is ignored.
pub open spec fn absolute_of(value: Option<Seq<char>>) -> Option<Seq<char>> {
    match value {
        Some(v) => if starts_with(v, seq!['/']) { Some(v) } else { None },
        None => None,
    }
}

/// `home` with each of `parts` joined on in turn.
pub open spec fn under(home: Seq<char>, parts: Seq<Seq<char>>) -> Seq<char>
    decreases parts.len(),
{
    if parts.len() == 0 {
        home
    } else {
        joined(under(home, parts.drop_last()), parts.last())
    }
}

pub open spec fn macos_data_dir_of(home: Seq<char>) -> Seq<char> {
    under(home, seq!["Library"@, "Application Support"@, APP_DIR@])
}

pub open spec fn windows_data_dir_of(home: Seq<char>, local: Option<Seq<char>>) -> Seq<char> {
    let base = match present_of(local) {
        Some(v) => v,
        None => under(home, seq!["AppData"@, "Local"@]),
    };
    joined(base, APP_DIR@)
}

pub open spec fn windows_roaming_of(home: Seq<char>, roaming: Option<Seq<char>>) -> Seq<char> {
    let base = match present_of(roaming) {
        Some(v) => v,
        None => under(home, seq!["AppData"@, "Roaming"@]),
    };
    joined(base, APP_DIR@)
}

/// An XDG root: the variable when it names an absolute path, the
/// specification's default under home otherwise, with the app's directory.
pub open spec fn xdg_root_of(home: Seq<char>, value: Option<Seq<char>>, default: Seq<Seq<char>>) -> Seq<char> {
    let base = match absolute_of(value) {
        Some(v) => v,
        None => under(home, default),
    };
    joined(base, XDG_APP_DIR@)
}

pub open spec fn xdg_data_dir_of(home: Seq<char>, data: Option<Seq<char>>) -> Seq<char> {
    xdg_root_of(home, data, seq![".local"@, "share"@])
}

/// The characters of each path, in order.
pub open spec fn texts(paths: Seq<String>) -> Seq<Seq<char>> {
    paths.map_values(|p: String| p@)
}

pub open spec fn macos_paths_of(home: Seq<char>) -> Seq<Seq<char>> {
    seq![macos_data_dir_of(home)]
}

pub open spec fn windows_paths_of(home: Seq<char>, roaming: Option<Seq<char>>, local: Option<Seq<char>>) -> Seq<Seq<char>> {
    seq![windows_roaming_of(home, roaming), windows_data_dir_of(home, local)]
}

pub open spec fn xdg_paths_of(
    home: Seq<char>,
    data: Option<Seq<char>>,
    state: Option<Seq<char>>,
    config: Option<Seq<char>>,
    cache: Option<Seq<char>>,
) -> Seq<Seq<char>> {
    seq![
        xdg_data_dir_of(home, data),
        xdg_root_of(home, state, seq![".local"@, "state"@]),
        xdg_root_of(home, config, seq![".config"@]),
        xdg_root_of(home, cache, seq![".cache"@]),
    ]
}

/// The directory a host writes to is on the removal list of its layout, for
/// whatever the environment answers: if the two ever disagreed, an uninstall
/// would report success while leaving the journal behind.
pub proof fn the_data_dir_is_listed(
    home: Seq<char>,
    roaming: Option<Seq<char>>,
    local: Option<Seq<char>>,
    data: Option<Seq<char>>,
    state: Option<Seq<char>>,
    config: Option<Seq<char>>,
    cache: Option<Seq<char>>,
)
    ensures
        macos_paths_of(home).contains(macos_data_dir_of(home)),
        windows_paths_of(home, roaming, local).contains(windows_data_dir_of(home, local)),
        xdg_paths_of(home, data, state, config, cache).contains(xdg_data_dir_of(home, data)),
{
    assert(macos_paths_of(home)[0] == macos_data_dir_of(home));
    assert(windows_paths_of(home, roaming, local)[1] == windows_data_dir_of(home, local));
    assert(xdg_paths_of(home, data, state, config, cache)[0] == xdg_data_dir_of(home, data));
}

/// Every entry of every layout ends in the application's own directory name,
/// whatever the environment answers: no layout can name a folder somebody is
/// watching, such as home itself.
pub proof fn every_entry_is_the_apps_own(
    home: Seq<char>,
    roaming: Option<Seq<char>>,
    local: Option<Seq<char>>,
    data: Option<Seq<char>>,
    state: Option<Seq<char>>,
    config: Option<Seq<char>>,
    cache: Option<Seq<char>>,
)
    ensures
        forall|i: int| 0 <= i < macos_paths_of(home).len()
            ==> #[trigger] ends_with(macos_paths_of(home)[i], APP_DIR@),
        forall|i: int| 0 <= i < windows_paths_of(home, roaming, local).len()
            ==> #[trigger] ends_with(windows_paths_of(home, roaming, local)[i], APP_DIR@),
        forall|i: int| 0 <= i < xdg_paths_of(home, data, state, config, cache).len()
            ==> #[trigger] ends_with(xdg_paths_of(home, data, state, config, cache)[i], XDG_APP_DIR@),
{
    let m = macos_paths_of(home);
    let w = windows_paths_of(home, roaming, local);
    let x = xdg_paths_of(home, data, state, config, cache);
    assert forall|i: int| 0 <= i < m.len() implies #[trigger] ends_with(m[i], APP_DIR@) by {
        joined_ends_with(under(home, seq!["Library"@, "Application Support"@]), APP_DIR@);
        assert(seq!["Library"@, "Application Support"@, APP_DIR@].drop_last() =~= seq!["Library"@, "Application Support"@]);
    }
    assert forall|i: int| 0 <= i < w.len() implies #[trigger] ends_with(w[i], APP_DIR@) by {
        let rb = match present_of(roaming) { Some(v) => v, None => under(home, seq!["AppData"@, "Roaming"@]) };
        let lb = match present_of(local) { Some(v) => v, None => under(home, seq!["AppData"@, "Local"@]) };
        joined_ends_with(rb, APP_DIR@);
        joined_ends_with(lb, APP_DIR@);
    }
    assert forall|i: int| 0 <= i < x.len() implies #[trigger] ends_with(x[i], XDG_APP_DIR@) by {
        let b0 = match absolute_of(data) { Some(v) => v, None => under(home, seq![".local"@, "share"@]) };
        let b1 = match absolute_of(state) { Some(v) => v, None => under(home, seq![".local"@, "state"@]) };
        let b2 = match absolute_of(config) { Some(v) => v, None => under(home, seq![".config"@]) };
        let b3 = match absolute_of(cache) { Some(v) => v, None => under(home, seq![".cache"@]) };
        joined_ends_with(b0, XDG_APP_DIR@);
        joined_ends_with(b1, XDG_APP_DIR@);
        joined_ends_with(b2, XDG_APP_DIR@);
        joined_ends_with(b3, XDG_APP_DIR@);
    }
}

proof fn joined_ends_with(base: Seq<char>, name: Seq<char>)
    ensures
        ends_with(joined(base, name), name),
{
    let j = joined(base, name);
    assert(j.skip(j.len() - name.len()) =~= name);
}

/// Whether `f` may be asked about any variable.
pub open spec fn asks_anything<F: Fn(&str) -> Option<String>>(f: F) -> bool {
    forall|name: &str| #[trigger] call_requires(f, (name,))
}

fn present(value: Option<String>) -> (out: Option<String>)
    ensures
        answered(out) == present_of(answered(value)),
{
    match value {
        Some(v) => if v.as_str().is_empty() { None } else { Some(v) },
        None => None,
    }
}

fn absolute(value: Option<String>) -> (out: Option<String>)
    ensures
        answered(out) == absolute_of(answered(value)),
{
    match value {
        Some(v) => {
            let slash: Vec<char> = vec!['/'];
            let text = crate::chars::chars_of(v.as_str());
            let starts = crate::chars::has_prefix(text.as_slice(), slash.as_slice());
            proof {
                assert(slash@ =~= seq!['/']);
            }
            if starts { Some(v) } else { None }
        },
        None => None,
    }
}

/// Only the core's own journal directory. The macOS host owns the rest of
/// that platform's list.
pub fn macos_paths(home: &str) -> (out: Vec<String>)
    ensures
        texts(out@) == macos_paths_of(home@),
{
    let mut out: Vec<String> = Vec::new();
    out.push(macos_data_dir(home));
    proof {
        assert(texts(out@) =~= macos_paths_of(home@));
    }
    out
}

pub fn macos_data_dir(home: &str) -> (out: String)
    ensures
        out@ == macos_data_dir_of(home@),
{
    let a = join(home, "Library");
    let b = join(a.as_str(), "Application Support");
    let c = join(b.as_str(), APP_DIR);
    proof {
        reveal_with_fuel(under, 4);
        let parts = seq!["Library"@, "Application Support"@, APP_DIR@];
        assert(parts.drop_last().drop_last().drop_last() =~= Seq::<Seq<char>>::empty());
        assert(parts.drop_last().drop_last() =~= seq!["Library"@]);
        assert(parts.drop_last() =~= seq!["Library"@, "Application Support"@]);
    }
    c
}

fn under_app_data(home: &str, leaf: &str) -> (out: String)
    ensures
        out@ == under(home@, seq!["AppData"@, leaf@]),
{
    let a = join(home, "AppData");
    let b = join(a.as_str(), leaf);
    proof {
        reveal_with_fuel(under, 3);
        let parts = seq!["AppData"@, leaf@];
        assert(parts.drop_last().drop_last() =~= Seq::<Seq<char>>::empty());
        assert(parts.drop_last() =~= seq!["AppData"@]);
    }
    b
}

/// `%APPDATA%` holds roaming settings, `%LOCALAPPDATA%` the journal and caches.
/// Both fall back to their standard place under the profile when unset.
pub fn windows_paths<F: Fn(&str) -> Option<String>>(home: &str, var: F) -> (out: Vec<String>)
    requires
        asks_anything(var),
    ensures
        exists|roaming: Option<String>, local: Option<String>|
            #[trigger] call_ensures(var, ("APPDATA",), roaming)
            && #[trigger] call_ensures(var, ("LOCALAPPDATA",), local)
            && texts(out@) == windows_paths_of(home@, answered(roaming), answered(local)),
{
    let roaming = var("APPDATA");
    let base = match present(roaming) {
        Some(v) => v,
        None => under_app_data(home, "Roaming"),
    };
    let first = join(base.as_str(), APP_DIR);
    let local = var("LOCALAPPDATA");
    let second = windows_local(home, local);
    let mut out: Vec<String> = Vec::new();
    out.push(first);
    out.push(second);
    proof {
        assert(texts(out@) =~= windows_paths_of(home@, answered(roaming), answered(local)));
    }
    out
}

/// The journal is local state, not roaming state: it describes this machine's
/// disk and would be wrong on the next machine a roaming profile follows to.
pub fn windows_data_dir<F: Fn(&str) -> Option<String>>(home: &str, var: F) -> (out: String)
    requires
        asks_anything(var),
    ensures
        exists|local: Option<String>| #[trigger] call_ensures(var, ("LOCALAPPDATA",), local)
            && out@ == windows_data_dir_of(home@, answered(local)),
{
    let local = var("LOCALAPPDATA");
    windows_local(home, local)
}

fn windows_local(home: &str, local: Option<String>) -> (out: String)
    ensures
        out@ == windows_data_dir_of(home@, answered(local)),
{
    let base = match present(local) {
        Some(v) => v,
        None => under_app_data(home, "Local"),
    };
    join(base.as_str(), APP_DIR)
}

fn xdg_root(home: &str, value: Option<String>, first: &str, second: Option<&str>) -> (out: String)
    ensures
        out@ == xdg_root_of(home@, answered(value), match second {
            Some(s) => seq![first@, s@],
            None => seq![first@],
        }),
{
    let base = match absolute(value) {
        Some(v) => v,
        None => {
            let a = join(home, first);
            match second {
                Some(s) => {
                    proof {
                        reveal_with_fuel(under, 3);
                        let parts = seq![first@, s@];
                        assert(parts.drop_last().drop_last() =~= Seq::<Seq<char>>::empty());
                        assert(parts.drop_last() =~= seq![first@]);
                    }
                    join(a.as_str(), s)
                },
                None => {
                    proof {
                        reveal_with_fuel(under, 2);
                        let parts = seq![first@];
                        assert(parts.drop_last() =~= Seq::<Seq<char>>::empty());
                    }
                    a
                },
            }
        },
    };
    join(base.as_str(), XDG_APP_DIR)
}

/// The XDG base directories. A variable holding a relative path is ignored per
/// the specification, which is the case a host would otherwise get wrong and
/// then delete relative to whatever the working directory happened to be.
pub fn xdg_paths<F: Fn(&str) -> Option<String>>(home: &str, var: F) -> (out: Vec<String>)
    requires
        asks_anything(var),
    ensures
        exists|data: Option<String>, state: Option<String>, config: Option<String>, cache: Option<String>|
            #[trigger] call_ensures(var, ("XDG_DATA_HOME",), data)
            && #[trigger] call_ensures(var, ("XDG_STATE_HOME",), state)
            && #[trigger] call_ensures(var, ("XDG_CONFIG_HOME",), config)
            && #[trigger] call_ensures(var, ("XDG_CACHE_HOME",), cache)
            && texts(out@) == xdg_paths_of(home@, answered(data), answered(state), answered(config), answered(cache)),
{
    let data_var = var("XDG_DATA_HOME");
    let state_var = var("XDG_STATE_HOME");
    let config_var = var("XDG_CONFIG_HOME");
    let cache_var = var("XDG_CACHE_HOME");
    let ghost answers = (answered(data_var), answered(state_var), answered(config_var), answered(cache_var));
    let data = xdg_root(home, data_var, ".local", Some("share"));
    let state = xdg_root(home, state_var, ".local", Some("state"));
    let config = xdg_root(home, config_var, ".config", None);
    let cache = xdg_root(home, cache_var, ".cache", None);
    let mut out: Vec<String> = Vec::new();
    out.push(data);
    out.push(state);
    out.push(config);
    out.push(cache);
    proof {
        assert(texts(out@) =~= xdg_paths_of(home@, answers.0, answers.1, answers.2, answers.3));
    }
    out
}

pub fn xdg_data_dir<F: Fn(&str) -> Option<String>>(home: &str, var: F) -> (out: String)
    requires
        asks_anything(var),
    ensures
        exists|v: Option<String>| #[trigger] call_ensures(var, ("XDG_DATA_HOME",), v)
            && out@ == xdg_data_dir_of(home@, answered(v)),
{
    let value = var("XDG_DATA_HOME");
    xdg_root(home, value, ".local", Some("share"))
}

/// Storage locations for a layout. `var` reads an environment variable;
/// taking it as an argument keeps the layout rules testable and lets a host
/// point them at a portable install.
pub fn paths<F: Fn(&str) -> Option<String>>(layout: Layout, home: &str, var: F) -> (out: Vec<String>)
    requires
        asks_anything(var),
    ensures
        layout == Layout::MacOs ==> texts(out@) == macos_paths_of(home@),
        layout == Layout::Windows ==> exists|roaming: Option<String>, local: Option<String>|
            #[trigger] call_ensures(var, ("APPDATA",), roaming)
            && #[trigger] call_ensures(var, ("LOCALAPPDATA",), local)
            && texts(out@) == windows_paths_of(home@, answered(roaming), answered(local)),
        layout == Layout::Xdg ==> exists|data: Option<String>, state: Option<String>, config: Option<String>, cache: Option<String>|
            #[trigger] call_ensures(var, ("XDG_DATA_HOME",), data)
            && #[trigger] call_ensures(var, ("XDG_STATE_HOME",), state)
            && #[trigger] call_ensures(var, ("XDG_CONFIG_HOME",), config)
            && #[trigger] call_ensures(var, ("XDG_CACHE_HOME",), cache)
            && texts(out@) == xdg_paths_of(home@, answered(data), answered(state), answered(config), answered(cache)),
{
    match layout {
        Layout::MacOs => macos_paths(home),
        Layout::Windows => windows_paths(home, var),
        Layout::Xdg => xdg_paths(home, var),
    }
}

/// The one directory a host writes its journal and settings into. Built from
/// the same rules as [`paths`] and always one of its entries, so an uninstall
/// removes what the host actually wrote.
pub fn data_dir<F: Fn(&str) -> Option<String>>(layout: Layout, home: &str, var: F) -> (out: String)
    requires
        asks_anything(var),
    ensures
        layout == Layout::MacOs ==> out@ == macos_data_dir_of(home@),
        layout == Layout::Windows ==> exists|local: Option<String>|
            #[trigger] call_ensures(var, ("LOCALAPPDATA",), local) && out@ == windows_data_dir_of(home@, answered(local)),
        layout == Layout::Xdg ==> exists|v: Option<String>|
            #[trigger] call_ensures(var, ("XDG_DATA_HOME",), v) && out@ == xdg_data_dir_of(home@, answered(v)),
{
    match layout {
        Layout::MacOs => macos_data_dir(home),
        Layout::Windows => windows_data_dir(home, var),
        Layout::Xdg => xdg_data_dir(home, var),
    }
}

} // verus!
