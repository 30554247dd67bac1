//! What keeps a key press from deleting anything that was not meant.

use vstd::prelude::*;
use crate::app::{Asked, State};
use crate::keys;
use crate::keys::Key;
use crate::views;

verus! {

/// No key but Enter asks for a deletion, and Enter does so only where the word has been typed out at
/// the prompt and the program may change anything; what is then deleted is what the prompt listed,
/// and all of it.
pub proof fn the_word_and_enter_delete(state: State, key: Key, control: bool)
    requires
        !keys::asks_to_delete(state.requests),
    ensures
        keys::asks_to_delete(keys::pressed(state, key, control).requests) <==> {
            &&& key == Key::Enter
            &&& !state.read_only
            &&& state.deleting is None
            &&& state.confirm is Some
            &&& state.confirm->0.typed == "delete"@
        },
        keys::asks_to_delete(keys::pressed(state, key, control).requests) ==> keys::pressed(
            state,
            key,
            control,
        ).requests == state.requests.push(Asked::Delete { targets: state.confirm->0.targets }),
{
    reveal_strlit("delete");
}

/// A program that may change nothing starts no deletion, whatever is pressed, and asks about none: it
/// says that it runs read-only.
pub proof fn read_only_says_so(state: State, key: Key, control: bool)
    requires
        state.read_only,
    ensures
        ({
            let after = keys::pressed(state, key, control);
            &&& after.read_only
            &&& after.deleting is None <==> state.deleting is None
            &&& state.confirm is None ==> after.confirm is None
            &&& state.deleting is None && state.confirm is None && !state.search_active && (
            state.view == views::View::Overview || state.view == views::View::Explorer) && (key
                == Key::Char('x') || key == Key::Delete) && !control ==> after.status == Some(
                "disko is running read-only"@,
            )
            &&& state.deleting is None && state.confirm is Some && key == Key::Enter
                ==> after.confirm is None && after.status == Some("disko is running read-only"@)
        }),
{
}

} // verus!
