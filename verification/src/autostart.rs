//! Whether this machine starts Pathlight when the user logs in.
//!
//! A monitor is only as good as the time it was running, and the time nobody
//! remembers to start it is time nothing was recorded. Every desktop has its
//! own register for this: an XDG autostart entry, a `Run` value in the current
//! user's registry, a launch agent. All three are per-user and need no
//! administrator. This module says what goes into the register; reading and
//! writing it is the host's.

use vstd::prelude::*;

use crate::chars::{chars_of, push_str, string_of};
use crate::paths::{joined, join};

verus! {

/// `text` in double quotes.
pub open spec fn quoted(text: Seq<char>) -> Seq<char> {
    seq!['"'] + text + seq!['"']
}

/// The arguments, each quoted and preceded by one space.
pub open spec fn quoted_args(args: Seq<Seq<char>>) -> Seq<char>
    decreases args.len(),
{
    if args.len() == 0 {
        seq![]
    } else {
        quoted_args(args.drop_last()) + seq![' '] + quoted(args.last())
    }
}

/// The command as a single string, quoted so a path with a space in it still
/// runs the program rather than a prefix of its path.
pub open spec fn command_of(exe: Seq<char>, args: Seq<Seq<char>>) -> Seq<char> {
    quoted(exe) + quoted_args(args)
}

/// The views of a list of arguments.
pub open spec fn args_of(args: Seq<&str>) -> Seq<Seq<char>> {
    args.map_values(|a: &str| a@)
}

/// The command line that runs `exe` with `args`: every part quoted, one space
/// between parts.
pub fn command_line(exe: &str, args: &[&str]) -> (line: String)
    ensures
        line@ == command_of(exe@, args_of(args@)),
{
    let mut out: Vec<char> = Vec::new();
    out.push('"');
    push_str(&mut out, exe);
    out.push('"');
    proof {
        assert(out@ =~= quoted(exe@));
        assert(args_of(args@).take(0) =~= Seq::<Seq<char>>::empty());
        assert(out@ =~= quoted(exe@) + quoted_args(args_of(args@).take(0)));
    }
    let mut i: usize = 0;
    while i < args.len()
        invariant
            i <= args@.len(),
            out@ == quoted(exe@) + quoted_args(args_of(args@).take(i as int)),
        decreases args@.len() - i,
    {
        let ghost before = out@;
        out.push(' ');
        out.push('"');
        push_str(&mut out, args[i]);
        out.push('"');
        proof {
            let all = args_of(args@);
            assert(all.take(i + 1).drop_last() =~= all.take(i as int));
            assert(all.take(i + 1).last() == args@[i as int]@);
            assert(out@ =~= before + seq![' '] + quoted(args@[i as int]@));
        }
        i = i + 1;
    }
    proof {
        assert(args_of(args@).take(args@.len() as int) =~= args_of(args@));
    }
    string_of(out.as_slice())
}

/// A `.desktop` file, which is what a Linux session reads at login.
pub open spec fn desktop_entry_of(exe: Seq<char>, args: Seq<Seq<char>>) -> Seq<char> {
    "[Desktop Entry]\nType=Application\nName=Pathlight\nComment=Records what changes in the folders you watch\nExec="@
        + command_of(exe, args) + "\nTerminal=false\nX-GNOME-Autostart-enabled=true\n"@
}

/// The autostart entry a Linux session reads at login, running `exe` with
/// `args`.
pub fn entry_text(exe: &str, args: &[&str]) -> (text: String)
    ensures
        text@ == desktop_entry_of(exe@, args_of(args@)),
{
    let head = "[Desktop Entry]\nType=Application\nName=Pathlight\nComment=Records what changes in the folders you watch\nExec=";
    let tail = "\nTerminal=false\nX-GNOME-Autostart-enabled=true\n";
    let mut out = chars_of(head);
    let line = command_line(exe, args);
    push_str(&mut out, line.as_str());
    push_str(&mut out, tail);
    string_of(out.as_slice())
}

/// `text` with `&`, `<` and `>` written as entities, so a path with one of
/// them in it leaves the property list readable.
pub open spec fn escaped_of(text: Seq<char>) -> Seq<char>
    decreases text.len(),
{
    if text.len() == 0 {
        seq![]
    } else {
        let c = text.last();
        escaped_of(text.drop_last()) + if c == '&' {
            "&amp;"@
        } else if c == '<' {
            "&lt;"@
        } else if c == '>' {
            "&gt;"@
        } else {
            seq![c]
        }
    }
}

/// Exec form of [`escaped_of`].
pub fn escaped(text: &str) -> (out: String)
    ensures
        out@ == escaped_of(text@),
{
    let chars = chars_of(text);
    let mut out: Vec<char> = Vec::new();
    let mut i: usize = 0;
    while i < chars.len()
        invariant
            i <= chars@.len(),
            chars@ == text@,
            out@ == escaped_of(text@.take(i as int)),
        decreases chars@.len() - i,
    {
        let c = chars[i];
        let ghost before = out@;
        if c == '&' {
            push_str(&mut out, "&amp;");
        } else if c == '<' {
            push_str(&mut out, "&lt;");
        } else if c == '>' {
            push_str(&mut out, "&gt;");
        } else {
            out.push(c);
        }
        proof {
            assert(text@.take(i + 1).drop_last() =~= text@.take(i as int));
            assert(text@.take(i + 1).last() == c);
            if c != '&' && c != '<' && c != '>' {
                assert(out@ =~= before + seq![c]);
            }
        }
        i = i + 1;
    }
    proof {
        assert(text@.take(text@.len() as int) =~= text@);
    }
    string_of(out.as_slice())
}

/// One `<string>` element of the program arguments.
pub open spec fn plist_string(text: Seq<char>) -> Seq<char> {
    "\t\t<string>"@ + escaped_of(text) + "</string>\n"@
}

/// The `<string>` elements for every argument after the program.
pub open spec fn plist_args(args: Seq<Seq<char>>) -> Seq<char>
    decreases args.len(),
{
    if args.len() == 0 {
        seq![]
    } else {
        plist_args(args.drop_last()) + plist_string(args.last())
    }
}

/// A launch agent, which is how launchd is told to start something for one
/// user at login: the program and its arguments as separate strings, so
/// nothing depends on how launchd would have split one command.
pub open spec fn launch_agent_of(exe: Seq<char>, args: Seq<Seq<char>>) -> Seq<char> {
    "<?xml version=\"1.0\" encoding=\"UTF-8\"?>\n<!DOCTYPE plist PUBLIC \"-//Apple//DTD PLIST 1.0//EN\" \"http://www.apple.com/DTDs/PropertyList-1.0.dtd\">\n<plist version=\"1.0\">\n<dict>\n\t<key>Label</key>\n\t<string>com.pathlight.monitor</string>\n\t<key>ProgramArguments</key>\n\t<array>\n"@
        + plist_string(exe) + plist_args(args)
        + "\t</array>\n\t<key>RunAtLoad</key>\n\t<true/>\n</dict>\n</plist>\n"@
}

fn push_plist_string(out: &mut Vec<char>, text: &str)
    ensures
        final(out)@ == old(out)@ + plist_string(text@),
{
    push_str(out, "\t\t<string>");
    let e = escaped(text);
    push_str(out, e.as_str());
    push_str(out, "</string>\n");
}

/// The launch agent that starts `exe` with `args` when the user logs in on
/// macOS.
pub fn launch_agent_text(exe: &str, args: &[&str]) -> (text: String)
    ensures
        text@ == launch_agent_of(exe@, args_of(args@)),
{
    let mut out = chars_of(
        "<?xml version=\"1.0\" encoding=\"UTF-8\"?>\n<!DOCTYPE plist PUBLIC \"-//Apple//DTD PLIST 1.0//EN\" \"http://www.apple.com/DTDs/PropertyList-1.0.dtd\">\n<plist version=\"1.0\">\n<dict>\n\t<key>Label</key>\n\t<string>com.pathlight.monitor</string>\n\t<key>ProgramArguments</key>\n\t<array>\n",
    );
    push_plist_string(&mut out, exe);
    let ghost start = out@;
    proof {
        assert(args_of(args@).take(0) =~= Seq::<Seq<char>>::empty());
        assert(out@ =~= start + plist_args(args_of(args@).take(0)));
    }
    let mut i: usize = 0;
    while i < args.len()
        invariant
            i <= args@.len(),
            out@ == start + plist_args(args_of(args@).take(i as int)),
        decreases args@.len() - i,
    {
        let ghost before = out@;
        push_plist_string(&mut out, args[i]);
        proof {
            let all = args_of(args@);
            assert(all.take(i + 1).drop_last() =~= all.take(i as int));
            assert(all.take(i + 1).last() == args@[i as int]@);
            assert(out@ =~= start + plist_args(all.take(i + 1)));
        }
        i = i + 1;
    }
    proof {
        assert(args_of(args@).take(args@.len() as int) =~= args_of(args@));
    }
    push_str(&mut out, "\t</array>\n\t<key>RunAtLoad</key>\n\t<true/>\n</dict>\n</plist>\n");
    string_of(out.as_slice())
}

/// Where the desktop looks for autostart entries: `XDG_CONFIG_HOME` when it
/// is set to an absolute path, `~/.config` otherwise, and the home `/` when
/// there is none.
pub open spec fn xdg_entry_path_of(config_home: Option<Seq<char>>, home: Option<Seq<char>>) -> Seq<char> {
    let config = match config_home {
        Some(c) if c.len() > 0 && c[0] == '/' => c,
        _ => joined(match home { Some(h) => h, None => seq!['/'] }, ".config"@),
    };
    joined(joined(config, "autostart"@), "pathlight.desktop"@)
}

/// Exec form of [`xdg_entry_path_of`], given what `XDG_CONFIG_HOME` and
/// `HOME` hold.
pub fn xdg_entry_path(config_home: Option<&str>, home: Option<&str>) -> (path: String)
    ensures
        path@ == xdg_entry_path_of(
            match config_home { Some(c) => Some(c@), None => None },
            match home { Some(h) => Some(h@), None => None },
        ),
{
    let config: String = match config_home {
        Some(c) if crate::chars::chars_of(c).len() > 0 && crate::chars::chars_of(c)[0] == '/' => c.to_string(),
        _ => {
            let base = match home { Some(h) => h.to_string(), None => "/".to_string() };
            proof {
                reveal_strlit("/");
            }
            join(base.as_str(), ".config")
        },
    };
    let dir = join(config.as_str(), "autostart");
    join(dir.as_str(), "pathlight.desktop")
}

/// Where launchd looks for this user's launch agents.
pub open spec fn launch_agent_path_of(home: Option<Seq<char>>) -> Seq<char> {
    let h = match home { Some(h) => h, None => seq!['/'] };
    joined(joined(joined(h, "Library"@), "LaunchAgents"@), "com.pathlight.monitor.plist"@)
}

/// Exec form of [`launch_agent_path_of`], given what `HOME` holds.
pub fn launch_agent_path(home: Option<&str>) -> (path: String)
    ensures
        path@ == launch_agent_path_of(match home { Some(h) => Some(h@), None => None }),
{
    let base = match home { Some(h) => h.to_string(), None => "/".to_string() };
    proof {
        reveal_strlit("/");
    }
    let a = join(base.as_str(), "Library");
    let b = join(a.as_str(), "LaunchAgents");
    join(b.as_str(), "com.pathlight.monitor.plist")
}

/// This install's login item, whether or not it is registered right now:
/// what the register runs, the file that holds it where the register is a
/// file, and that file's text.
#[derive(Clone, Debug)]
pub struct LoginItem {
    command: String,
    path: String,
    text: String,
}

impl LoginItem {
    /// The login item for a file-based register at `path` holding `text`
    /// that runs `command`.
    pub fn new(command: String, path: String, text: String) -> (item: LoginItem)
        ensures
            item.command_view() == command@,
            item.path_view() == path@,
            item.text_view() == text@,
    {
        LoginItem { command, path, text }
    }

    /// The login item that runs `exe` with `args` from an XDG autostart entry
    /// at `path`.
    pub fn xdg(exe: &str, args: &[&str], path: String) -> (item: LoginItem)
        ensures
            item.command_view() == command_of(exe@, args_of(args@)),
            item.path_view() == path@,
            item.text_view() == desktop_entry_of(exe@, args_of(args@)),
    {
        LoginItem { command: command_line(exe, args), path, text: entry_text(exe, args) }
    }

    /// The login item that runs `exe` with `args` from a launch agent at
    /// `path`.
    pub fn launch_agent(exe: &str, args: &[&str], path: String) -> (item: LoginItem)
        ensures
            item.command_view() == command_of(exe@, args_of(args@)),
            item.path_view() == path@,
            item.text_view() == launch_agent_of(exe@, args_of(args@)),
    {
        LoginItem { command: command_line(exe, args), path, text: launch_agent_text(exe, args) }
    }

    pub closed spec fn command_view(&self) -> Seq<char> {
        self.command@
    }

    pub closed spec fn path_view(&self) -> Seq<char> {
        self.path@
    }

    pub closed spec fn text_view(&self) -> Seq<char> {
        self.text@
    }

    /// What the register would run, for a host that wants to show it.
    pub fn command(&self) -> (c: &str)
        ensures
            c@ == self.command_view(),
    {
        self.command.as_str()
    }

    /// The file that holds the entry.
    pub fn path(&self) -> (p: &str)
        ensures
            p@ == self.path_view(),
    {
        self.path.as_str()
    }

    /// What the file holds when this item is registered.
    pub fn text(&self) -> (t: &str)
        ensures
            t@ == self.text_view(),
    {
        self.text.as_str()
    }

    /// Whether what the register holds — `found`, the file's text, or `None`
    /// when there is no entry — is this install's entry. An entry left by
    /// another copy of Pathlight does not count as this one being on.
    pub fn is_enabled(&self, found: Option<&str>) -> (r: bool)
        ensures
            r == (found matches Some(t) && t@ == self.text_view()),
    {
        match found {
            Some(t) => crate::chars::same(crate::chars::chars_of(t).as_slice(), crate::chars::chars_of(self.text.as_str()).as_slice()),
            None => false,
        }
    }

    /// Whether what the `Run` value holds — `found`, or `None` when there is
    /// no value — runs this install's command.
    pub fn is_registered(&self, found: Option<&str>) -> (r: bool)
        ensures
            r == (found matches Some(t) && t@ == self.command_view()),
    {
        match found {
            Some(t) => crate::chars::same(crate::chars::chars_of(t).as_slice(), crate::chars::chars_of(self.command.as_str()).as_slice()),
            None => false,
        }
    }
}

} // verus!
