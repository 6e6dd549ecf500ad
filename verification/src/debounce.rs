//! Debouncing: changes that follow each other closely are grouped into one
//! batch, which is handed out once no change has come for a whole window.

use vstd::prelude::*;
use crate::watcher::FsEvent;

verus! {

/// The sliding window, in milliseconds, within which changes are grouped.
pub const DEBOUNCE_WINDOW_MS: u64 = 500;

/// A group of changes handed out together: the paths of each change, in the
/// order the changes came.
#[derive(Debug)]
pub struct ChangeBatch {
    pub changes: Vec<Vec<Option<String>>>,
}

/// The state of a debouncer: its window, the changes waiting to be handed
/// out (the paths of each, in the order they came) and the time of the last
/// change.
pub struct DebounceView {
    pub window: nat,
    pub pending: Seq<Seq<Option<Seq<char>>>>,
    pub last_change: nat,
}

/// The state after an event at time `now`: an access leaves it alone; any
/// other event joins the waiting changes and restarts the window at `now`.
pub open spec fn recorded(
    s: DebounceView,
    is_access: bool,
    paths: Seq<Option<Seq<char>>>,
    now: nat,
) -> DebounceView {
    if is_access {
        s
    } else {
        DebounceView { window: s.window, pending: s.pending.push(paths), last_change: now }
    }
}

/// A batch is due at `now`: changes are waiting and a whole window has
/// passed since the last one.
pub open spec fn due(s: DebounceView, now: nat) -> bool {
    s.pending.len() > 0 && now >= s.last_change + s.window
}

/// The state after a flush at `now`: emptied when a batch was due.
pub open spec fn flushed(s: DebounceView, now: nat) -> DebounceView {
    if due(s, now) {
        DebounceView { pending: seq![], ..s }
    } else {
        s
    }
}

/// Groups changes until a window passes without change.
pub struct Debouncer {
    window_ms: u64,
    pending: Vec<Vec<Option<String>>>,
    last_change_ms: u64,
}

impl View for Debouncer {
    type V = DebounceView;

    closed spec fn view(&self) -> DebounceView {
        DebounceView {
            window: self.window_ms as nat,
            pending: self.pending.deep_view(),
            last_change: self.last_change_ms as nat,
        }
    }
}

/// An access changes nothing: no change is added and the window does not
/// restart.
pub proof fn law_access_ignored(s: DebounceView, paths: Seq<Option<Seq<char>>>, now: nat)
    ensures
        recorded(s, true, paths, now) == s,
{
}

/// No change is lost: once a window has passed after a change, a batch is
/// due, and it holds everything that was waiting, then that change, in
/// order.
pub proof fn law_change_delivered(
    s: DebounceView,
    paths: Seq<Option<Seq<char>>>,
    now: nat,
    later: nat,
)
    requires
        later >= now + s.window,
    ensures
        due(recorded(s, false, paths, now), later),
        recorded(s, false, paths, now).pending == s.pending.push(paths),
        recorded(s, false, paths, now).pending.last() == paths,
{
}

/// The window slides: after a change at `now`, no batch is due before a
/// whole window has passed, whatever was waiting before.
pub proof fn law_quiet_window(s: DebounceView, paths: Seq<Option<Seq<char>>>, now: nat, at: nat)
    requires
        at < now + s.window,
    ensures
        !due(recorded(s, false, paths, now), at),
{
}

/// A flush hands a batch out once: right after it nothing is due, at any
/// time, until a new change comes.
pub proof fn law_flush_once(s: DebounceView, now: nat, later: nat)
    requires
        due(s, now),
    ensures
        flushed(s, now).pending.len() == 0,
        !due(flushed(s, now), later),
        flushed(s, now).window == s.window,
{
}

/// A copy of a list of paths.
fn copy_paths(paths: &Vec<Option<String>>) -> (r: Vec<Option<String>>)
    ensures
        r.deep_view() == paths.deep_view(),
{
    let mut r: Vec<Option<String>> = Vec::new();
    let mut i: usize = 0;
    while i < paths.len()
        invariant
            0 <= i <= paths.len(),
            r@.len() == i,
            forall|k: int| 0 <= k < i ==> #[trigger] r@[k].deep_view() == paths@[k].deep_view(),
        decreases paths.len() - i,
    {
        let p = match &paths[i] {
            Some(s) => Some(s.clone()),
            None => None,
        };
        r.push(p);
        i = i + 1;
    }
    assert(r.deep_view() =~= paths.deep_view());
    r
}

impl Debouncer {
    /// A debouncer with the given window and nothing waiting.
    pub fn new(window_ms: u64) -> (r: Debouncer)
        ensures
            r@ == (DebounceView { window: window_ms as nat, pending: seq![], last_change: 0 }),
    {
        let r = Debouncer { window_ms, pending: Vec::new(), last_change_ms: 0 };
        assert(r.pending.deep_view() =~= seq![]);
        r
    }

    /// Takes in an event that arrived at `now_ms` (see `recorded`).
    pub fn record(&mut self, event: &FsEvent, now_ms: u64)
        ensures
            final(self)@ == recorded(old(self)@, event.is_access, event.paths.deep_view(), now_ms as nat),
    {
        if event.is_access {
            return;
        }
        let ghost before = self.pending.deep_view();
        let change = copy_paths(&event.paths);
        self.pending.push(change);
        assert(self.pending.deep_view() =~= before.push(event.paths.deep_view()));
        self.last_change_ms = now_ms;
    }

    /// Whether a batch is due at `now_ms` (see `due`).
    pub fn is_due(&self, now_ms: u64) -> (r: bool)
        ensures
            r == due(self@, now_ms as nat),
    {
        self.pending.len() > 0 && now_ms >= self.last_change_ms && now_ms - self.last_change_ms
            >= self.window_ms
    }

    /// How long from `now_ms` until a batch is due: `None` when nothing is
    /// waiting, otherwise the rest of the window (0 once it has passed),
    /// capped at the largest `u64`.
    pub fn wait_ms(&self, now_ms: u64) -> (r: Option<u64>)
        ensures
            self@.pending.len() == 0 ==> r is None,
            self@.pending.len() > 0 ==> r == Some(
                if now_ms >= self@.last_change + self@.window {
                    0u64
                } else if self@.last_change + self@.window - now_ms > u64::MAX {
                    u64::MAX
                } else {
                    (self@.last_change + self@.window - now_ms) as u64
                },
            ),
    {
        if self.pending.len() == 0 {
            return None;
        }
        match self.last_change_ms.checked_add(self.window_ms) {
            Some(deadline) => {
                if now_ms >= deadline {
                    Some(0)
                } else {
                    Some(deadline - now_ms)
                }
            },
            None => {
                let rest = u64::MAX - now_ms;
                let more = self.window_ms - (u64::MAX - self.last_change_ms);
                match rest.checked_add(more) {
                    Some(w) => Some(w),
                    None => Some(u64::MAX),
                }
            },
        }
    }

    /// Hands out the waiting changes as one batch when one is due at
    /// `now_ms`, and empties the debouncer; otherwise returns `None` and
    /// changes nothing.
    pub fn flush(&mut self, now_ms: u64) -> (r: Option<ChangeBatch>)
        ensures
            final(self)@ == flushed(old(self)@, now_ms as nat),
            r is Some <==> due(old(self)@, now_ms as nat),
            r matches Some(b) ==> b.changes.deep_view() == old(self)@.pending,
    {
        if !self.is_due(now_ms) {
            return None;
        }
        let mut changes: Vec<Vec<Option<String>>> = Vec::new();
        std::mem::swap(&mut changes, &mut self.pending);
        assert(self.pending.deep_view() =~= seq![]);
        Some(ChangeBatch { changes })
    }
}

/// Whether `p` is in `list`.
pub(crate) fn contains_string(list: &Vec<String>, p: &String) -> (r: bool)
    ensures
        r == list.deep_view().contains(p@),
{
    let ghost lv = list.deep_view();
    let mut i: usize = 0;
    while i < list.len()
        invariant
            lv == list.deep_view(),
            0 <= i <= list.len(),
            forall|k: int| 0 <= k < i ==> lv[k] != p@,
        decreases list.len() - i,
    {
        if list[i] == *p {
            assert(lv[i as int] == p@);
            return true;
        }
        i = i + 1;
    }
    false
}

} // verus!
