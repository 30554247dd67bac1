//! Handing a path over to the desktop's file manager.
//!
//! The rule everywhere: *folders* are opened, never files. Launching a file in whatever application
//! claims it would be a surprising thing for a disk tool to do, and the files it surfaces are the
//! enormous ones, which is the worst possible case for opening something by accident.

use vstd::prelude::*;
use vstd::utf8::encode_utf8;
use crate::path;
use crate::path::FilePath;

verus! {

/// The desktop the program runs on.
#[derive(Copy, Clone, Debug, PartialEq, Eq, Structural)]
pub enum Platform {
    MacOs,
    Windows,
    Other,
}

pub open spec fn manager_text(platform: Platform) -> Seq<char> {
    match platform {
        Platform::MacOs => "Finder"@,
        Platform::Windows => "Explorer"@,
        Platform::Other => "your file manager"@,
    }
}

/// What the file manager is called there, for status messages.
pub fn manager_name(platform: Platform) -> (name: &'static str)
    ensures
        name@ == manager_text(platform),
{
    match platform {
        Platform::MacOs => "Finder",
        Platform::Windows => "Explorer",
        Platform::Other => "your file manager",
    }
}

/// A program and what it is called with.
#[derive(Debug)]
pub struct Invocation {
    pub program: &'static str,
    pub args: Vec<Vec<u8>>,
}

/// The same, as a value.
#[verifier::ext_equal]
pub struct Call {
    pub program: Seq<char>,
    pub args: Seq<Seq<u8>>,
}

impl View for Invocation {
    type V = Call;

    open spec fn view(&self) -> Call {
        Call { program: self.program@, args: self.args@.map_values(|arg: Vec<u8>| arg@) }
    }
}

/// What reveals a path.
///
/// On a Mac a folder is opened itself (revealing it would show the parent), and anything else is
/// selected in its parent instead of launched. Elsewhere only a *directory* is ever handed over:
/// pointed at a file, the opener would launch the default application, which is exactly what must
/// not happen to a 40 GB video.
pub open spec fn reveal_call(target: Seq<u8>, is_dir: bool, platform: Platform) -> Option<Call> {
    match platform {
        Platform::MacOs => Some(
            Call {
                program: "open"@,
                args: if is_dir {
                    seq![target]
                } else {
                    seq![encode_utf8("-R"@), target]
                },
            },
        ),
        Platform::Windows => Some(
            Call {
                program: "explorer"@,
                args: if is_dir {
                    seq![target]
                } else {
                    seq![encode_utf8("/select,"@ + path::shown(target))]
                },
            },
        ),
        Platform::Other => match shown_folder(target, is_dir) {
            Some(folder) => Some(Call { program: "xdg-open"@, args: seq![folder] }),
            None => None,
        },
    }
}

/// The folder that is shown for a path.
pub open spec fn shown_folder(target: Seq<u8>, is_dir: bool) -> Option<Seq<u8>> {
    if is_dir {
        Some(target)
    } else {
        path::parent(target)
    }
}

fn only(arg: Vec<u8>) -> (args: Vec<Vec<u8>>)
    ensures
        args@.map_values(|arg: Vec<u8>| arg@) == seq![arg@],
{
    let mut args: Vec<Vec<u8>> = Vec::new();
    args.push(arg);
    assert(args@.map_values(|arg: Vec<u8>| arg@) =~= seq![arg@]);
    args
}

/// The command that reveals `target`, whether it is a directory being opened or an item being
/// selected inside its parent.
pub fn command_for(target: &FilePath, is_dir: bool, platform: Platform) -> (out: Option<Invocation>)
    ensures
        out is Some <==> reveal_call(target@, is_dir, platform) is Some,
        out matches Some(call) ==> Some(call@) == reveal_call(target@, is_dir, platform),
{
    match platform {
        Platform::MacOs => {
            if is_dir {
                Some(Invocation { program: "open", args: only(target.duplicate().bytes) })
            } else {
                let mut args: Vec<Vec<u8>> = Vec::new();
                let flag = "-R".as_bytes_vec();
                let whole = target.duplicate().bytes;
                args.push(flag);
                args.push(whole);
                assert(args@.map_values(|arg: Vec<u8>| arg@) =~= seq![flag@, whole@]);
                Some(Invocation { program: "open", args })
            }
        },
        Platform::Windows => {
            if is_dir {
                Some(Invocation { program: "explorer", args: only(target.duplicate().bytes) })
            } else {
                let mut text = String::from_str("/select,");
                text.append(target.display().as_str());
                Some(
                    Invocation { program: "explorer", args: only(text.as_str().as_bytes_vec()) },
                )
            }
        },
        Platform::Other => match folder_for(target, is_dir) {
            Some(folder) => Some(Invocation { program: "xdg-open", args: only(folder.bytes) }),
            None => None,
        },
    }
}

/// The folder that would be shown for `target`, which is the path itself when it is a directory and
/// its parent otherwise.
pub fn folder_for(target: &FilePath, is_dir: bool) -> (out: Option<FilePath>)
    ensures
        out is Some <==> shown_folder(target@, is_dir) is Some,
        out matches Some(folder) ==> Some(folder@) == shown_folder(target@, is_dir),
{
    if is_dir {
        Some(target.duplicate())
    } else {
        target.parent()
    }
}

/// What is said where there is no folder to show.
pub fn nowhere_to_go(target: &FilePath) -> (text: String)
    ensures
        text@ == "no parent folder for "@ + path::shown(target@),
{
    let mut text = String::from_str("no parent folder for ");
    text.append(target.display().as_str());
    text
}

/// What is said where the program that shows folders is not there.
pub fn not_found(program: &str) -> (text: String)
    ensures
        text@ == "could not find "@ + program@ + " — is a desktop session running?"@,
{
    let mut text = String::from_str("could not find ");
    text.append(program);
    text.append(" — is a desktop session running?");
    text
}

/// A file is never launched: away from the desktops that can select an item, the file itself is not
/// handed over at all, only the folder it is in; on a Mac it is only ever selected.
pub proof fn files_are_never_launched(target: Seq<u8>)
    ensures
        reveal_call(target, false, Platform::Other) matches Some(call) ==> call.args == seq![
            path::parent(target)->0,
        ],
        path::parent(target) is None ==> reveal_call(target, false, Platform::Other) is None,
        reveal_call(target, false, Platform::MacOs) matches Some(call) ==> call.args[0]
            == encode_utf8("-R"@),
{
}

} // verus!
