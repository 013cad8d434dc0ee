//! Capturing text: the double shift that asks for it, the wait for a copy, and what becomes of what
//! was selected. Also where the panel stands.

use vstd::prelude::*;
use vstd::string::*;

use crate::entries::{note_added, CandidateView};
use crate::limits::MAX_ITEM_CHARS;
use crate::notebook::{CommandError, Notebook, NotebookView};
use crate::plain::views;
use crate::text::{blank, chars_of, is_blank, text_eq};

verus! {

/// Two taps must follow one another within this time, in nanoseconds.
pub const TAP_WINDOW: u64 = 400_000_000;

/// A key that is held as long as this is not tapped, in nanoseconds.
pub const HOLD_LIMIT: u64 = 500_000_000;

/// How long a copy is waited for, in milliseconds.
pub const COPY_DEADLINE: u64 = 450;

/// A shift key.
#[derive(Debug, Clone, Copy, PartialEq, Eq, Structural)]
pub enum Side {
    Left,
    Right,
}

/// What a double tap asks for.
#[derive(Debug, Clone, Copy, PartialEq, Eq, Structural)]
pub enum TapAction {
    CaptureSelection,
    TogglePanel,
}

/// What a double tap asks for: the left key captures, the right key shows or hides the panel.
pub fn tap_action(side: Side) -> (action: TapAction)
    ensures
        action == match side {
            Side::Left => TapAction::CaptureSelection,
            Side::Right => TapAction::TogglePanel,
        },
{
    match side {
        Side::Left => TapAction::CaptureSelection,
        Side::Right => TapAction::TogglePanel,
    }
}

/// How far a double tap has come.
#[derive(Debug, Clone, Copy, PartialEq, Eq)]
pub struct TapState {
    /// The shift key that is down, and since when.
    pub pressed: Option<(Side, u64)>,
    /// Another key was pressed meanwhile.
    pub dirty: bool,
    /// The last clean tap, and when it ended.
    pub last_tap: Option<(Side, u64)>,
}

/// The time between two moments.
pub open spec fn between(earlier: u64, later: u64) -> int {
    if later >= earlier {
        later - earlier
    } else {
        0
    }
}

/// The state after a shift key went down. While one is down already, another one counts for
/// nothing.
pub open spec fn shift_pressed(state: TapState, side: Side, now: u64) -> TapState {
    match state.pressed {
        Some(_) => state,
        None => TapState { pressed: Some((side, now)), dirty: false, ..state },
    }
}

/// The state after another key went down.
pub open spec fn disturbed(state: TapState) -> TapState {
    TapState { dirty: true, last_tap: None, ..state }
}

/// The key that comes up was tapped: it alone was pressed, and not for long.
pub open spec fn tapped(state: TapState, side: Side, now: u64) -> bool {
    match state.pressed {
        Some((down, since)) => down == side && !state.dirty && between(since, now) < HOLD_LIMIT,
        None => false,
    }
}

/// The same key was tapped a moment ago.
pub open spec fn tapped_before(state: TapState, side: Side, now: u64) -> bool {
    match state.last_tap {
        Some((last, when)) => last == side && between(when, now) < TAP_WINDOW,
        None => false,
    }
}

/// The state after a shift key came up, and whether that completes a double tap.
pub open spec fn shift_released(state: TapState, side: Side, now: u64) -> (TapState, bool) {
    if !tapped(state, side, now) {
        (TapState { pressed: None, last_tap: None, ..state }, false)
    } else if tapped_before(state, side, now) {
        (TapState { pressed: None, last_tap: None, ..state }, true)
    } else {
        (TapState { pressed: None, last_tap: Some((side, now)), ..state }, false)
    }
}

impl TapState {
    /// Nothing is pressed, and nothing was tapped.
    pub fn new() -> (state: Self)
        ensures
            state == (TapState { pressed: None, dirty: false, last_tap: None }),
    {
        TapState { pressed: None, dirty: false, last_tap: None }
    }

    /// A shift key goes down.
    pub fn press(&mut self, side: Side, now: u64)
        ensures
            *final(self) == shift_pressed(*old(self), side, now),
    {
        if self.pressed.is_none() {
            self.pressed = Some((side, now));
            self.dirty = false;
        }
    }

    /// Another key goes down.
    pub fn other_key(&mut self)
        ensures
            *final(self) == disturbed(*old(self)),
    {
        self.dirty = true;
        self.last_tap = None;
    }

    /// A shift key comes up. Says whether that completes a double tap.
    pub fn release(&mut self, side: Side, now: u64) -> (fired: bool)
        ensures
            (*final(self), fired) == shift_released(*old(self), side, now),
    {
        let clean = match self.pressed {
            Some((down, since)) => down == side && !self.dirty && now.saturating_sub(since)
                < HOLD_LIMIT,
            None => false,
        };
        self.pressed = None;
        if !clean {
            self.last_tap = None;
            return false;
        }
        match self.last_tap {
            Some((last, when)) => {
                if last == side && now.saturating_sub(when) < TAP_WINDOW {
                    self.last_tap = None;
                    return true;
                }
            },
            None => {},
        }
        self.last_tap = Some((side, now));
        false
    }
}

/// A listener that is told only that a shift key has changed.
#[derive(Debug, Clone, Copy, PartialEq, Eq)]
pub struct ListenerState {
    pub left_down: bool,
    pub right_down: bool,
    pub taps: TapState,
}

/// A key is down.
pub open spec fn is_down(state: ListenerState, side: Side) -> bool {
    match side {
        Side::Left => state.left_down,
        Side::Right => state.right_down,
    }
}

/// The state after a shift key changed, and whether that completes a double tap. A second shift key
/// disturbs the first.
pub open spec fn shift_toggled(state: ListenerState, side: Side, now: u64) -> (ListenerState, bool) {
    let down = !is_down(state, side);
    let (taps, fired) = if !down {
        shift_released(state.taps, side, now)
    } else if state.taps.pressed is None {
        (shift_pressed(state.taps, side, now), false)
    } else {
        (disturbed(state.taps), false)
    };
    (
        match side {
            Side::Left => ListenerState { left_down: down, taps, ..state },
            Side::Right => ListenerState { right_down: down, taps, ..state },
        },
        fired,
    )
}

impl ListenerState {
    /// No key is down.
    pub fn new() -> (state: Self)
        ensures
            state == (ListenerState {
                left_down: false,
                right_down: false,
                taps: TapState { pressed: None, dirty: false, last_tap: None },
            }),
    {
        ListenerState { left_down: false, right_down: false, taps: TapState::new() }
    }

    /// A shift key has changed. Says whether that completes a double tap.
    pub fn shift_changed(&mut self, side: Side, now: u64) -> (fired: bool)
        ensures
            (*final(self), fired) == shift_toggled(*old(self), side, now),
    {
        let was_down = match side {
            Side::Left => self.left_down,
            Side::Right => self.right_down,
        };
        match side {
            Side::Left => {
                self.left_down = !was_down;
            },
            Side::Right => {
                self.right_down = !was_down;
            },
        }
        let mut taps = self.taps;
        let fired = if was_down {
            taps.release(side, now)
        } else {
            if taps.pressed.is_none() {
                taps.press(side, now);
            } else {
                taps.other_key();
            }
            false
        };
        self.taps = taps;
        fired
    }
}

/// Two quick taps of the same key complete a double tap with the second one, and what follows starts
/// afresh.
pub proof fn lemma_double_tap(
    state: TapState,
    side: Side,
    down: u64,
    up: u64,
    down_again: u64,
    up_again: u64,
)
    requires
        state.pressed is None,
        state.last_tap is None,
        down <= up <= down_again <= up_again,
        up - down < HOLD_LIMIT,
        up_again - down_again < HOLD_LIMIT,
        up_again - up < TAP_WINDOW,
    ensures
        ({
            let first = shift_released(shift_pressed(state, side, down), side, up);
            let second = shift_released(
                shift_pressed(first.0, side, down_again),
                side,
                up_again,
            );
            &&& !first.1
            &&& second.1
            &&& second.0.pressed is None
            &&& second.0.last_tap is None
        }),
{
}

/// Another key between two taps keeps them apart: the tap that follows completes nothing, however
/// soon it comes.
pub proof fn lemma_other_key_between(state: TapState, side: Side, down: u64, up: u64)
    ensures
        !shift_released(shift_pressed(disturbed(state), side, down), side, up).1,
{
}

/// Taps of different keys complete nothing.
pub proof fn lemma_sides_apart(state: TapState, side: Side, other: Side, when: u64, now: u64)
    requires
        state.last_tap == Some((other, when)),
        other != side,
    ensures
        !shift_released(state, side, now).1,
{
}

/// A key that is held too long completes nothing.
pub proof fn lemma_held_key(state: TapState, side: Side, down: u64, up: u64)
    requires
        state.pressed is None,
        down <= up,
        up - down >= HOLD_LIMIT,
    ensures
        !shift_released(shift_pressed(state, side, down), side, up).1,
{
}

/// The waits for a copy: short at first, then longer.
#[derive(Debug, Clone, Copy, PartialEq, Eq, Structural)]
pub struct CopyPoll {
    pub delay_ms: u64,
}

impl CopyPoll {
    /// Nothing was waited for yet.
    pub fn new() -> (poll: Self)
        ensures
            poll.delay_ms == 5,
    {
        CopyPoll { delay_ms: 5 }
    }

    /// How long to wait before looking again, where so much time has passed. The waits double up
    /// to twenty-five milliseconds, and end with the deadline.
    pub fn next(&mut self, elapsed_ms: u64) -> (wait: Option<u64>)
        requires
            old(self).delay_ms <= 25,
        ensures
            if elapsed_ms < COPY_DEADLINE {
                &&& wait == Some(old(self).delay_ms)
                &&& final(self).delay_ms == if 2 * old(self).delay_ms <= 25 {
                    2 * old(self).delay_ms
                } else {
                    25
                }
            } else {
                wait is None && *final(self) == *old(self)
            },
    {
        if elapsed_ms >= COPY_DEADLINE {
            return None;
        }
        let wait = self.delay_ms;
        self.delay_ms = if 2 * wait <= 25 {
            2 * wait
        } else {
            25
        };
        Some(wait)
    }
}

/// What the system says of a selection.
#[derive(Debug, Clone, PartialEq, Eq)]
pub enum Selection {
    Text(String),
    Empty,
    Unsupported,
    PermissionDenied,
    Protected,
}

/// What is done about a selection.
#[derive(Debug, Clone, PartialEq, Eq)]
pub enum SelectionAction {
    /// Takes the text.
    Take(String),
    /// Says that there was nothing to take.
    ReportEmpty,
    /// Says that text in protected fields is never taken.
    RefuseProtected,
    /// Shows the panel, and says what must be allowed.
    AskPermission,
    /// Asks the program in front for a copy.
    CopyInstead,
}

/// What is done about a selection.
pub fn selection_action(selection: Selection) -> (action: SelectionAction)
    ensures
        action == match selection {
            Selection::Text(text) => SelectionAction::Take(text),
            Selection::Empty => SelectionAction::ReportEmpty,
            Selection::Protected => SelectionAction::RefuseProtected,
            Selection::PermissionDenied => SelectionAction::AskPermission,
            Selection::Unsupported => SelectionAction::CopyInstead,
        },
{
    match selection {
        Selection::Text(text) => SelectionAction::Take(text),
        Selection::Empty => SelectionAction::ReportEmpty,
        Selection::Protected => SelectionAction::RefuseProtected,
        Selection::PermissionDenied => SelectionAction::AskPermission,
        Selection::Unsupported => SelectionAction::CopyInstead,
    }
}

/// A text that was captured before counts as the same capture for this long, in milliseconds.
pub const DUPLICATE_WINDOW: i64 = 1_500;

/// The open list has a note with just this text that was made a moment ago.
pub open spec fn recently_captured(state: NotebookView, text: Seq<char>, now: i64) -> bool {
    exists|i: int|
        0 <= i < state.notes.len() && (#[trigger] state.notes[i]).content == text
            && state.notes[i].list == state.active && state.notes[i].created_at >= now
            - DUPLICATE_WINDOW
}

/// What became of a captured text.
#[derive(Debug, Clone, Copy, PartialEq, Eq, Structural)]
pub enum Captured {
    /// There was nothing but blanks.
    Empty,
    /// The same text was captured a moment ago.
    Duplicate,
    /// It is a new note.
    Added(i64),
}

impl Notebook {
    /// Whether the open list has a note with just this text that was made a moment ago.
    pub fn is_recent_duplicate(&self, text: &str, now: i64) -> (recent: bool)
        ensures
            recent == recently_captured(self@, text@, now),
    {
        let ghost notes = self@.notes;
        let mut at: usize = 0;
        while at < self.items.len()
            invariant
                notes == self@.notes,
                at <= self.items@.len(),
                forall|i: int|
                    0 <= i < at ==> !((#[trigger] notes[i]).content == text@ && notes[i].list
                        == self@.active && notes[i].created_at >= now - DUPLICATE_WINDOW),
            decreases self.items@.len() - at,
        {
            let row = &self.items[at];
            assert(notes[at as int] == row@);
            if text_eq(row.content.as_str(), text) && row.section_id == self.active_section
                && row.created_at as i128 >= now as i128 - DUPLICATE_WINDOW as i128 {
                return true;
            }
            at = at + 1;
        }
        false
    }

    /// Takes a captured text as a note on the open list, as it is.
    pub fn add_text_item(&mut self, text: &str, now: i64) -> (result: Result<
        Captured,
        CommandError,
    >)
        ensures
            if blank(text@) {
                result == Ok::<Captured, CommandError>(Captured::Empty) && final(self)@ == old(
                    self,
                )@
            } else if text@.len() > MAX_ITEM_CHARS {
                result == Err::<Captured, CommandError>(CommandError::LongNote) && final(self)@
                    == old(self)@
            } else if recently_captured(old(self)@, text@, now) {
                result == Ok::<Captured, CommandError>(Captured::Duplicate) && final(self)@ == old(
                    self,
                )@
            } else {
                match note_added(
                    old(self)@,
                    text@,
                    Seq::<CandidateView>::empty(),
                    Seq::empty(),
                    now,
                ) {
                    Err(fault) => result == Err::<Captured, CommandError>(fault) && final(self)@
                        == old(self)@,
                    Ok((state, id, _)) => result == Ok::<Captured, CommandError>(
                        Captured::Added(id),
                    ) && final(self)@ == state,
                }
            },
    {
        if is_blank(text) {
            return Ok(Captured::Empty);
        }
        if chars_of(text).len() > MAX_ITEM_CHARS {
            return Err(CommandError::LongNote);
        }
        if self.is_recent_duplicate(text, now) {
            return Ok(Captured::Duplicate);
        }
        let none: Vec<crate::entries::AttachmentCandidate> = Vec::new();
        proof {
            reveal_strlit("");
            assert(""@ =~= Seq::empty());
            assert(views(none@) =~= Seq::<CandidateView>::empty());
        }
        match self.insert_item(text.to_owned(), none.as_slice(), "", now) {
            Err(fault) => Err(fault),
            Ok((id, _)) => Ok(Captured::Added(id)),
        }
    }
}

/// The usable part of a screen, and the size of a window on it.
#[derive(Debug, Clone, Copy, PartialEq, Eq, Structural)]
pub struct Placement {
    pub x: i32,
    pub y: i32,
    pub width: u32,
    pub height: u32,
    pub window_width: u32,
    pub window_height: u32,
}

/// Half of a number, cut off towards zero.
pub open spec fn half(n: int) -> int {
    if n >= 0 {
        n / 2
    } else {
        -((-n) / 2)
    }
}

/// Where the panel stands: at the right edge, in the middle of the height, but no higher than the
/// margin.
pub fn dock_position(place: Placement, margin: i32) -> (position: (i64, i64))
    ensures
        position.0 == place.x + place.width - place.window_width - margin,
        position.1 == place.y + (if half(place.height - place.window_height) >= margin {
            half(place.height - place.window_height)
        } else {
            margin as int
        }),
{
    let x = place.x as i64 + place.width as i64 - place.window_width as i64 - margin as i64;
    let middle = halved(place.height as i64 - place.window_height as i64);
    let down = if middle >= margin as i64 {
        middle
    } else {
        margin as i64
    };
    (x, place.y as i64 + down)
}

/// Where a short message stands: in the middle of the width, below the margin.
pub fn feedback_position(place: Placement, margin: i32) -> (position: (i64, i64))
    ensures
        position.0 == place.x + half(place.width - place.window_width),
        position.1 == place.y + margin,
{
    let middle = halved(place.width as i64 - place.window_width as i64);
    (place.x as i64 + middle, place.y as i64 + margin as i64)
}

fn halved(n: i64) -> (h: i64)
    requires
        -0x1_0000_0000 <= n <= 0x1_0000_0000,
    ensures
        h == half(n as int),
{
    if n >= 0 {
        n / 2
    } else {
        -((-n) / 2)
    }
}

} // verus!
