//! What depends on the operating system and the shell of the user: which
//! editor to start, which shell is in use, and where that shell keeps its
//! history.

use crate::text::{same_chars, string_of, to_chars};
use vstd::prelude::*;
use vstd::slice::slice_subrange;
use vstd::string::*;

verus! {

/// The operating systems that are told apart.
#[derive(Debug, Clone, Copy, PartialEq, Eq, Structural)]
pub enum OS {
    Linux,
    Windows,
    Mac,
}

/// The shells that are told apart.
#[derive(Debug, Clone, Copy, PartialEq, Eq, Structural)]
pub enum Shell {
    Bash,
    Zsh,
    Fish,
    Pwrshl,
    Cmd,
    Unknown,
}

/// The directories of the user under which a history file may lie.
#[derive(Debug, Clone, Copy, PartialEq, Eq, Structural)]
pub enum BaseDir {
    Home,
    Data,
    Config,
}

/// Where the history of a shell is kept.
#[derive(Debug)]
pub enum HistoryFile {
    /// At this path, which the user has set.
    At(String),
    /// Under one of the directories of the user, at this path below it.
    Under(BaseDir, &'static str),
    /// Nowhere that is known.
    Unknown,
}

/// Where the history of a shell is kept, as texts.
pub enum HistoryPlace {
    At(Seq<char>),
    Under(BaseDir, Seq<char>),
    Unknown,
}

impl View for HistoryFile {
    type V = HistoryPlace;

    open spec fn view(&self) -> HistoryPlace {
        match self {
            HistoryFile::At(path) => HistoryPlace::At(path@),
            HistoryFile::Under(base, below) => HistoryPlace::Under(*base, below@),
            HistoryFile::Unknown => HistoryPlace::Unknown,
        }
    }
}

/// The editor to start. On Linux and on a Mac `VISUAL` decides, then
/// `EDITOR`, then `vi`; on Windows `EDITOR`, then `notepad.exe`.
pub open spec fn editor_of(os: OS, visual: Option<Seq<char>>, editor: Option<Seq<char>>) -> Seq<
    char,
> {
    match os {
        OS::Windows => match editor {
            Some(name) => name,
            None => "notepad.exe"@,
        },
        _ => match visual {
            Some(name) => name,
            None => match editor {
                Some(name) => name,
                None => "vi"@,
            },
        },
    }
}

/// The editor to start, given what the variables `VISUAL` and `EDITOR` hold.
pub fn get_editor(os: OS, visual: Option<String>, editor: Option<String>) -> (chosen: String)
    ensures
        chosen@ == editor_of(os, string_of(visual), string_of(editor)),
{
    match os {
        OS::Linux | OS::Mac => match visual {
            Some(name) => name,
            None => match editor {
                Some(name) => name,
                None => "vi".to_owned(),
            },
        },
        OS::Windows => match editor {
            Some(name) => name,
            None => "notepad.exe".to_owned(),
        },
    }
}

/// The path of the shell in use: what `SHELL` holds, or `COMSPEC` on
/// Windows, and the usual shell of the system where the variable is unset.
pub open spec fn shell_path_of(os: OS, shell: Option<Seq<char>>, comspec: Option<Seq<char>>) -> Seq<
    char,
> {
    match os {
        OS::Linux => match shell {
            Some(path) => path,
            None => "/bin/sh"@,
        },
        OS::Mac => match shell {
            Some(path) => path,
            None => "/bin/zsh"@,
        },
        OS::Windows => match comspec {
            Some(path) => path,
            None => "cmd.exe"@,
        },
    }
}

/// The path of the shell in use, given what `SHELL` and `COMSPEC` hold.
pub fn shell_path(os: OS, shell: Option<String>, comspec: Option<String>) -> (path: String)
    ensures
        path@ == shell_path_of(os, string_of(shell), string_of(comspec)),
{
    match os {
        OS::Linux => match shell {
            Some(path) => path,
            None => "/bin/sh".to_owned(),
        },
        OS::Mac => match shell {
            Some(path) => path,
            None => "/bin/zsh".to_owned(),
        },
        OS::Windows => match comspec {
            Some(path) => path,
            None => "cmd.exe".to_owned(),
        },
    }
}

/// The part of `text` that starts at `at` and is `len` long.
pub open spec fn part_at(text: Seq<char>, at: int, len: int) -> Seq<char> {
    text.subrange(at, at + len)
}

/// Whether `part` occurs somewhere in `text`.
pub open spec fn contains(text: Seq<char>, part: Seq<char>) -> bool {
    exists|at: int|
        0 <= at <= text.len() - part.len() && #[trigger] part_at(text, at, part.len() as int)
            == part
}

/// Whether `part` occurs somewhere in `text`.
pub fn contains_text(text: &[char], part: &str) -> (found: bool)
    ensures
        found == contains(text@, part@),
{
    let wanted = to_chars(part);
    let len = wanted.len();
    if len > text.len() {
        return false;
    }
    if len == 0 {
        assert(part_at(text@, 0, 0) =~= part@);
        return true;
    }
    let last = text.len() - len;
    let mut at: usize = 0;
    while at <= last
        invariant
            wanted@ == part@,
            0 < len == wanted@.len(),
            last + len == text@.len() <= usize::MAX,
            at <= last + 1,
            forall|j: int| 0 <= j < at ==> #[trigger] part_at(text@, j, len as int) != part@,
        decreases last + 1 - at,
    {
        if same_chars(slice_subrange(text, at, at + len), wanted.as_slice()) {
            assert(part_at(text@, at as int, len as int) == part@);
            return true;
        }
        at += 1;
    }
    false
}

/// The lowercase form of a text, as `str::to_lowercase` gives it.
pub uninterp spec fn lowercase(text: Seq<char>) -> Seq<char>;

/// Calls `str::to_lowercase`. The contract only names the result: the
/// mapping to lowercase is Unicode's and is not proved here.
#[verifier::external_body]
fn to_lowercase(text: &str) -> (lower: String)
    ensures
        lower@ == lowercase(text@),
{
    text.to_lowercase()
}

/// The shell that a path in lowercase names. The first of these that occurs
/// in the path decides: `zsh`, `fish`, `bash`, `pwsh` or `powershell`,
/// `cmd.exe`.
pub open spec fn shell_named(lower: Seq<char>) -> Shell {
    if contains(lower, "zsh"@) {
        Shell::Zsh
    } else if contains(lower, "fish"@) {
        Shell::Fish
    } else if contains(lower, "bash"@) {
        Shell::Bash
    } else if contains(lower, "pwsh"@) || contains(lower, "powershell"@) {
        Shell::Pwrshl
    } else if contains(lower, "cmd.exe"@) {
        Shell::Cmd
    } else {
        Shell::Unknown
    }
}

/// The shell that a path in lowercase names.
pub fn classify_shell(lower: &str) -> (shell: Shell)
    ensures
        shell == shell_named(lower@),
{
    let chars = to_chars(lower);
    let text = chars.as_slice();
    if contains_text(text, "zsh") {
        Shell::Zsh
    } else if contains_text(text, "fish") {
        Shell::Fish
    } else if contains_text(text, "bash") {
        Shell::Bash
    } else if contains_text(text, "pwsh") || contains_text(text, "powershell") {
        Shell::Pwrshl
    } else if contains_text(text, "cmd.exe") {
        Shell::Cmd
    } else {
        Shell::Unknown
    }
}

/// The shell in use, given what the variables `SHELL` and `COMSPEC` hold.
pub fn get_shell(os: OS, shell: Option<String>, comspec: Option<String>) -> (found: Shell)
    ensures
        found == shell_named(
            lowercase(shell_path_of(os, string_of(shell), string_of(comspec))),
        ),
{
    let path = shell_path(os, shell, comspec);
    let lower = to_lowercase(path.as_str());
    classify_shell(lower.as_str())
}

/// Where the history of the shell is kept. What `HISTFILE` holds comes
/// first. Else the shell decides; `cmd.exe` keeps no history, so the history
/// of PowerShell stands in for it.
pub open spec fn history_place(histfile: Option<Seq<char>>, shell: Shell, os: OS) -> HistoryPlace {
    match histfile {
        Some(path) => HistoryPlace::At(path),
        None => match shell {
            Shell::Zsh => HistoryPlace::Under(BaseDir::Home, ".zsh_history"@),
            Shell::Bash => HistoryPlace::Under(BaseDir::Home, ".bash_history"@),
            Shell::Fish => HistoryPlace::Under(BaseDir::Data, "fish/fish_history"@),
            Shell::Pwrshl | Shell::Cmd => match os {
                OS::Windows => HistoryPlace::Under(
                    BaseDir::Config,
                    "Microsoft/Windows/PowerShell/PSReadLine/ConsoleHost_history.txt"@,
                ),
                _ => HistoryPlace::Under(
                    BaseDir::Data,
                    "powershell/PSReadLine/ConsoleHost_history.txt"@,
                ),
            },
            Shell::Unknown => HistoryPlace::Unknown,
        },
    }
}

/// Where the history of the shell is kept, given what `HISTFILE` holds.
pub fn get_history_file(histfile: Option<String>, shell: Shell, os: OS) -> (place: HistoryFile)
    ensures
        place@ == history_place(string_of(histfile), shell, os),
{
    // 1. If user has HISTFILE set, prioritize that
    if let Some(path) = histfile {
        return HistoryFile::At(path);
    }
    // 2. Determine shell type and map to history file
    match shell {
        Shell::Zsh => HistoryFile::Under(BaseDir::Home, ".zsh_history"),
        Shell::Bash => HistoryFile::Under(BaseDir::Home, ".bash_history"),
        Shell::Fish => HistoryFile::Under(BaseDir::Data, "fish/fish_history"),
        // Even if the shell is cmd, look for PowerShell history, cmd doesn't have history file
        Shell::Pwrshl | Shell::Cmd => match os {
            OS::Windows => HistoryFile::Under(
                BaseDir::Config,
                "Microsoft/Windows/PowerShell/PSReadLine/ConsoleHost_history.txt",
            ),
            _ => HistoryFile::Under(
                BaseDir::Data,
                "powershell/PSReadLine/ConsoleHost_history.txt",
            ),
        },
        Shell::Unknown => HistoryFile::Unknown,
    }
}

} // verus!
