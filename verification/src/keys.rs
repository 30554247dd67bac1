//! The key map.

use vstd::prelude::*;
use crate::app;
use crate::app::{App, Asked, State};
use crate::views;

verus! {

/// A key of the keyboard.
#[derive(Copy, Clone, Debug, PartialEq, Eq, Structural)]
pub enum Key {
    Char(char),
    Enter,
    Esc,
    Backspace,
    Delete,
    Tab,
    Up,
    Down,
    Left,
    Right,
    Home,
    End,
    PageUp,
    PageDown,
    /// Any key that nothing is done for.
    Other,
}

/// A prompt owns the keyboard until it is resolved one way or the other.
pub open spec fn on_confirm(state: State, key: Key) -> State {
    match key {
        Key::Esc => app::delete_cancelled(state),
        Key::Enter => app::committed(state),
        Key::Backspace => app::confirmation_untyped(state),
        Key::Char(letter) => app::confirmation_typed(state, letter),
        _ => state,
    }
}

/// Enter keeps the filter but hands the keyboard back to navigation.
pub open spec fn on_search(state: State, key: Key) -> State {
    match key {
        Key::Esc => app::search_cleared(state),
        Key::Enter => State { search_active: false, ..state },
        Key::Backspace => app::search_untyped(state),
        Key::Char(letter) => app::search_typed(state, letter),
        _ => state,
    }
}

pub open spec fn on_picker(state: State, key: Key) -> State {
    match key {
        Key::Char('q') | Key::Esc => State { quit: true, ..state },
        Key::Down | Key::Char('j') => app::picker_moved(state, 1),
        Key::Up | Key::Char('k') => app::picker_moved(state, -1),
        Key::Enter | Key::Right | Key::Char('l') => app::picked(state),
        _ => state,
    }
}

pub open spec fn on_scanning(state: State, key: Key) -> State {
    match key {
        Key::Char('q') => State { quit: true, ..state },
        Key::Esc => app::telling(
            scan_cancelled(state),
            "stopping — showing what was counted so far"@,
        ),
        _ => state,
    }
}

pub open spec fn scan_cancelled(state: State) -> State {
    if state.scanning {
        app::asking(state, Asked::StopScan)
    } else {
        state
    }
}

/// Escape closes one layer at a time: the details, the filter, the explorer, and at last the scan,
/// where there is a disk list to step back out to.
pub open spec fn unwound(state: State) -> State {
    if state.details {
        State { details: false, ..state }
    } else if state.search is Some {
        app::search_cleared(state)
    } else if state.view == views::View::Explorer {
        State { view: views::View::Overview, ..state }
    } else if state.from_picker {
        app::at_picker(state)
    } else {
        state
    }
}

pub open spec fn last_selected(state: State) -> State {
    State {
        selection: app::clamped(
            app::rows_here(state).len() - 1,
            app::rows_here(state).len(),
        ),
        ..state
    }
}

pub open spec fn on_browsing(state: State, key: Key) -> State {
    match key {
        Key::Char('q') => State { quit: true, ..state },
        Key::Esc => unwound(state),
        Key::Down | Key::Char('j') => app::moved_by(state, 1),
        Key::Up | Key::Char('k') => app::moved_by(state, -1),
        Key::PageDown => app::moved_by(state, 10),
        Key::PageUp => app::moved_by(state, -10),
        Key::Home | Key::Char('g') => State { selection: 0, ..state },
        Key::End | Key::Char('G') => last_selected(state),
        // From the overview, Enter switches to the radial explorer; once there, Enter drills into
        // whatever is selected.
        Key::Enter => if state.view == views::View::Overview {
            State { view: views::View::Explorer, ..state }
        } else {
            app::opened(state)
        },
        Key::Tab => State {
            view: if state.view == views::View::Overview {
                views::View::Explorer
            } else {
                views::View::Overview
            },
            ..state
        },
        Key::Right | Key::Char('l') => app::opened(state),
        Key::Left | Key::Char('h') | Key::Backspace => app::gone_up(state),
        Key::Char('/') => app::search_begun(state),
        Key::Char('s') => app::resorted(state),
        Key::Char('d') => State { details: !state.details, ..state },
        Key::Char('a') => app::kind_switched(state),
        Key::Char('t') => app::metric_switched(state),
        Key::Char(' ') => app::mark_toggled(state),
        Key::Char('x') | Key::Delete => app::delete_requested(state),
        Key::Char('o') => app::show_requested(state),
        Key::Char('y') | Key::Char('c') => app::asking(
            state,
            Asked::Copy { path: app::path_to_copy(state) },
        ),
        Key::Char('r') => app::refreshed(state),
        _ => state,
    }
}

/// Any deliberate keystroke means the last message has been read.
pub open spec fn message_read(state: State) -> State {
    State { status: None, outcomes: Seq::empty(), ..state }
}

/// What a key does.
pub open spec fn pressed(state: State, key: Key, control: bool) -> State {
    if control && key == Key::Char('c') {
        State { quit: true, ..state }
    } else if state.deleting is Some {
        // A deletion in flight takes only "stop"; nothing else should reach the tree while it is
        // being changed underneath.
        if key == Key::Esc {
            app::delete_stopped(state)
        } else {
            state
        }
    } else if state.confirm is Some {
        on_confirm(state, key)
    } else if state.search_active {
        on_search(state, key)
    } else {
        match state.view {
            views::View::Picker => on_picker(message_read(state), key),
            views::View::Scanning => on_scanning(message_read(state), key),
            _ => on_browsing(message_read(state), key),
        }
    }
}

fn handle_confirm(app: &mut App, key: Key)
    ensures
        final(app)@ == on_confirm(old(app)@, key),
{
    match key {
        Key::Esc => app.cancel_delete(),
        Key::Enter => app.commit_delete(),
        Key::Backspace => app.untype_confirmation(),
        Key::Char(letter) => app.type_confirmation(letter),
        _ => {},
    }
}

fn handle_search(app: &mut App, key: Key)
    ensures
        final(app)@ == on_search(old(app)@, key),
{
    match key {
        Key::Esc => app.clear_search(),
        Key::Enter => app.search_active = false,
        Key::Backspace => app.pop_search(),
        Key::Char(letter) => app.push_search(letter),
        _ => {},
    }
}

fn handle_picker(app: &mut App, key: Key)
    ensures
        final(app)@ == on_picker(old(app)@, key),
{
    match key {
        Key::Char('q') | Key::Esc => app.quit = true,
        Key::Down | Key::Char('j') => app.move_picker(1),
        Key::Up | Key::Char('k') => app.move_picker(-1),
        Key::Enter | Key::Right | Key::Char('l') => app.pick_selected_filesystem(),
        _ => {},
    }
}

fn handle_scanning(app: &mut App, key: Key)
    ensures
        final(app)@ == on_scanning(old(app)@, key),
{
    match key {
        Key::Char('q') => app.quit = true,
        Key::Esc => {
            app.cancel_scan();
            app.status = Some(String::from_str("stopping — showing what was counted so far"));
        },
        _ => {},
    }
}

fn unwind(app: &mut App)
    ensures
        final(app)@ == unwound(old(app)@),
{
    if app.details {
        app.details = false;
    } else if app.search.is_some() {
        app.clear_search();
    } else if app.view == views::View::Explorer {
        app.view = views::View::Overview;
    } else if app.from_picker {
        app.return_to_picker();
    }
}

fn handle_letter(app: &mut App, letter: char)
    ensures
        final(app)@ == on_browsing(old(app)@, Key::Char(letter)),
{
    match letter {
        'q' => app.quit = true,
        'j' => app.move_selection(1),
        'k' => app.move_selection(-1),
        'g' => app.select_first(),
        'G' => app.select_last(),
        'l' => app.open_selected(),
        'h' => app.go_up(),
        '/' => app.begin_search(),
        's' => app.cycle_sort(),
        'd' => app.details = !app.details,
        'a' => app.toggle_size_kind(),
        't' => app.toggle_metric(),
        ' ' => app.toggle_mark(),
        'x' => app.request_delete(),
        'o' => app.reveal_selected(),
        'y' | 'c' => app.copy_selected_path(),
        'r' => app.rescan(),
        _ => {},
    }
}

fn handle_browsing(app: &mut App, key: Key)
    ensures
        final(app)@ == on_browsing(old(app)@, key),
{
    match key {
        Key::Char(letter) => handle_letter(app, letter),
        Key::Esc => unwind(app),
        Key::Down => app.move_selection(1),
        Key::Up => app.move_selection(-1),
        Key::PageDown => app.move_selection(10),
        Key::PageUp => app.move_selection(-10),
        Key::Home => app.select_first(),
        Key::End => app.select_last(),
        Key::Enter => {
            if app.view == views::View::Overview {
                app.view = views::View::Explorer;
            } else {
                app.open_selected();
            }
        },
        Key::Tab => {
            app.view =
            if app.view == views::View::Overview {
                views::View::Explorer
            } else {
                views::View::Overview
            };
        },
        Key::Right => app.open_selected(),
        Key::Left => app.go_up(),
        Key::Backspace => app.go_up(),
        Key::Delete => app.request_delete(),
        Key::Other => {},
    }
}

/// Apply a key to the state.
pub fn handle_key(app: &mut App, key: Key, control: bool)
    ensures
        final(app)@ == pressed(old(app)@, key, control),
{
    if control && key == Key::Char('c') {
        app.quit = true;
        return;
    }
    if app.deleting.is_some() {
        if key == Key::Esc {
            app.stop_delete();
        }
        return;
    }
    if app.confirm.is_some() {
        handle_confirm(app, key);
        return;
    }
    if app.search_active {
        handle_search(app, key);
        return;
    }
    app.status = None;
    app.outcomes = Vec::new();
    assert(app@.outcomes =~= Seq::empty());
    match app.view {
        views::View::Picker => handle_picker(app, key),
        views::View::Scanning => handle_scanning(app, key),
        _ => handle_browsing(app, key),
    }
}

/// A key press without a modifier, for tests and scripted walkthroughs.
pub fn press(app: &mut App, key: Key)
    ensures
        final(app)@ == pressed(old(app)@, key, false),
{
    handle_key(app, key, false);
}

/// Ctrl-C quits, whatever is on screen.
pub proof fn control_c_always_quits(state: State)
    ensures
        pressed(state, Key::Char('c'), true).quit,
{
}

/// Whether the last thing asked for is a deletion.
pub open spec fn asks_to_delete(requests: Seq<Asked>) -> bool {
    requests.len() > 0 && requests.last() is Delete
}

/// Nothing is deleted until the word has been typed in full and Enter is pressed: no other key, in
/// no other state, asks for a deletion, and what is then deleted is what the prompt showed.
pub proof fn only_the_word_deletes(state: State, key: Key, control: bool)
    requires
        pressed(state, key, control).requests != state.requests,
        asks_to_delete(pressed(state, key, control).requests),
    ensures
        key == Key::Enter,
        state.confirm is Some,
        app::armed(state.confirm->0),
        !state.read_only,
        pressed(state, key, control).requests == state.requests.push(
            Asked::Delete { targets: state.confirm->0.targets },
        ),
{
    if control && key == Key::Char('c') {
    } else if state.deleting is Some {
    } else if state.confirm is Some {
    } else if state.search_active {
    } else {
        let ready = message_read(state);
        match state.view {
            views::View::Picker => {},
            views::View::Scanning => {},
            _ => {
                browsing_never_deletes(ready, key);
            },
        }
    }
}

proof fn browsing_never_deletes(state: State, key: Key)
    ensures
        on_browsing(state, key).requests == state.requests || !asks_to_delete(
            on_browsing(state, key).requests,
        ),
{
}

/// A prompt keeps the keyboard: no key reaches the list behind it.
pub proof fn prompts_are_modal(state: State, key: Key)
    requires
        state.confirm is Some,
        state.deleting is None,
    ensures
        pressed(state, key, false).cwd == state.cwd,
        pressed(state, key, false).selection == state.selection,
        pressed(state, key, false).view == state.view,
        pressed(state, key, false).tree == state.tree,
        pressed(state, key, false).marks == state.marks,
        pressed(state, key, false).quit == state.quit,
{
}

/// While files are being removed, every key but Escape and Ctrl-C is ignored.
pub proof fn deletions_lock_the_keyboard(state: State, key: Key)
    requires
        state.deleting is Some,
        key != Key::Esc,
    ensures
        pressed(state, key, false) == state,
{
}

/// While a search is being typed, letters are letters: they change the filter and move the cursor
/// to the top, and nothing else.
pub proof fn searches_take_letters(state: State, letter: char)
    requires
        state.search_active,
        state.search is Some,
        state.confirm is None,
        state.deleting is None,
    ensures
        pressed(state, Key::Char(letter), false) == (State {
            search: Some(state.search->0.push(letter)),
            selection: 0,
            ..state
        }),
{
}

/// Read-only, nothing is ever asked to be deleted, not even with a prompt answered in full, and no
/// prompt comes up.
pub proof fn read_only_never_asks(state: State, key: Key, control: bool)
    requires
        state.read_only,
    ensures
        state.confirm is None ==> pressed(state, key, control).confirm is None,
        pressed(state, key, control).read_only,
        pressed(state, key, control).requests == state.requests || !asks_to_delete(
            pressed(state, key, control).requests,
        ),
{
    if !(control && key == Key::Char('c')) && state.deleting is None && state.confirm is None
        && !state.search_active {
        browsing_never_deletes(message_read(state), key);
    }
}

/// Moving the cursor keeps it on a row, where there is one.
pub proof fn the_cursor_stays_inside(state: State, delta: int)
    ensures
        app::moved_by(state, delta).selection < app::rows_here(state).len() || (app::rows_here(
            state,
        ).len() == 0 && app::moved_by(state, delta).selection == 0),
        app::rows_here(app::moved_by(state, delta)) == app::rows_here(state),
{
    let moved = app::moved_by(state, delta);
    assert(app::entry_here(moved) == app::entry_here(state));
    assert(app::change_here(moved) == app::change_here(state));
}

/// Escape never quits a scan that is on screen.
pub proof fn escape_does_not_quit(state: State)
    requires
        state.view != views::View::Picker,
    ensures
        pressed(state, Key::Esc, false).quit == state.quit,
{
}

/// Leaving a scan forgets what belonged to it.
pub proof fn leaving_forgets(state: State)
    ensures
        app::at_picker(state).tree is None,
        app::at_picker(state).marks.len() == 0,
        app::at_picker(state).search is None,
        app::at_picker(state).selection == 0,
        app::at_picker(state).root.len() == 0,
        app::at_picker(state).view == views::View::Picker,
        !app::at_picker(state).scanning,
{
}

/// Whatever key is pressed, no place is marked twice.
pub proof fn keys_mark_once(state: State, key: Key, control: bool)
    requires
        app::marked_once(state.marks),
    ensures
        app::marked_once(pressed(state, key, control).marks),
{
    app::no_place_is_marked_twice(state, Seq::empty());
    app::no_place_is_marked_twice(message_read(state), Seq::empty());
}

/// Sorting by something else three times comes back to where it was, and a metric switched twice
/// is the one it was.
pub proof fn switches_come_back(state: State)
    requires
        state.diff is Some,
    ensures
        app::resorted(app::resorted(app::resorted(state))).sort == state.sort,
        app::metric_switched(app::metric_switched(state)).metric == state.metric,
        app::kind_switched(app::kind_switched(state)).settings == state.settings,
{
    crate::model::sorts_cycle(state.sort);
}

} // verus!
