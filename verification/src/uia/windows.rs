//! The windows that have been seen, and the handles they were given.
//!
//! A handle is opaque and local to the process. An element of the
//! accessibility service is named by a number: two numbers are equal exactly
//! where the service says that the elements are.

use vstd::prelude::*;
use vstd::string::*;

use crate::uia::entity::Bounds;

verus! {

/// A top-level window as the accessibility service describes it.
#[derive(Debug)]
pub struct WindowInfo {
    pub name: String,
    pub class_name: String,
    pub control_type: String,
    pub hwnd: isize,
    pub pid: i32,
    pub bounds: Bounds,
    /// The window that owns this one, when it has an owner.
    ///
    /// Present so a dialog can be attributed to the application it is blocking
    /// rather than appearing as an unexplained extra entry.
    pub owned_by: Option<isize>,
}

/// A [`WindowInfo`] with the characters of its strings.
pub struct WindowView {
    pub name: Seq<char>,
    pub class_name: Seq<char>,
    pub control_type: Seq<char>,
    pub hwnd: isize,
    pub pid: i32,
    pub bounds: Bounds,
    pub owned_by: Option<isize>,
}

impl View for WindowInfo {
    type V = WindowView;

    open spec fn view(&self) -> WindowView {
        WindowView {
            name: self.name@,
            class_name: self.class_name@,
            control_type: self.control_type@,
            hwnd: self.hwnd,
            pid: self.pid,
            bounds: self.bounds,
            owned_by: self.owned_by,
        }
    }
}

/// A window that is there now.
#[derive(Debug)]
pub struct SeenWindow {
    pub pid: i32,
    /// The bundle identifier of the application, empty where it has none.
    pub app: String,
    pub element: u64,
}

/// A window with the handle it was given.
#[derive(Debug)]
pub struct KnownWindow {
    pub id: isize,
    pub pid: i32,
    pub app: String,
    pub element: u64,
}

/// A [`SeenWindow`] with the characters of its string.
pub struct Seen {
    pub pid: i32,
    pub app: Seq<char>,
    pub element: u64,
}

/// A [`KnownWindow`] with the characters of its string.
pub struct Known {
    pub id: isize,
    pub pid: i32,
    pub app: Seq<char>,
    pub element: u64,
}

impl View for SeenWindow {
    type V = Seen;

    open spec fn view(&self) -> Seen {
        Seen { pid: self.pid, app: self.app@, element: self.element }
    }
}

impl View for KnownWindow {
    type V = Known;

    open spec fn view(&self) -> Known {
        Known { id: self.id, pid: self.pid, app: self.app@, element: self.element }
    }
}

/// The windows of a list with the characters of their strings.
pub open spec fn seen_of(v: Seq<SeenWindow>) -> Seq<Seen> {
    Seq::new(v.len(), |i: int| v[i]@)
}

/// The entries of a table with the characters of their strings.
pub open spec fn known_of(v: Seq<KnownWindow>) -> Seq<Known> {
    Seq::new(v.len(), |i: int| v[i]@)
}

/// What a window table holds: one entry for each window, and the last handle
/// that was given out.
#[verifier::ext_equal]
pub struct Table {
    pub windows: Seq<Known>,
    pub last: int,
}

/// Whether an entry is that of a window.
pub open spec fn is_entry(k: Known, s: Seen) -> bool {
    k.pid == s.pid && k.element == s.element
}

/// The place of the entry of a window in a table; one before the first where
/// it has none.
pub open spec fn place_of(windows: Seq<Known>, s: Seen) -> int
    decreases windows.len(),
{
    if windows.len() == 0 {
        -1
    } else if place_of(windows.drop_last(), s) >= 0 {
        place_of(windows.drop_last(), s)
    } else if is_entry(windows.last(), s) {
        windows.len() - 1
    } else {
        -1
    }
}

/// The handle of a window: the one it has, or the next that was never used.
pub open spec fn handle_for(t: Table, s: Seen) -> int {
    let i = place_of(t.windows, s);
    if i >= 0 {
        t.windows[i].id as int
    } else {
        t.last + 1
    }
}

/// A table after a window was seen.
pub open spec fn after_seen(t: Table, s: Seen) -> Table {
    let entry = Known {
        id: handle_for(t, s) as isize,
        pid: s.pid,
        app: s.app,
        element: s.element,
    };
    let i = place_of(t.windows, s);
    if i >= 0 {
        Table { windows: t.windows.update(i, entry), last: t.last }
    } else {
        Table { windows: t.windows.push(entry), last: t.last + 1 }
    }
}

/// A table after some windows were seen in turn.
pub open spec fn after_all(t: Table, seen: Seq<Seen>) -> Table
    decreases seen.len(),
{
    if seen.len() == 0 {
        t
    } else {
        after_seen(after_all(t, seen.drop_last()), seen.last())
    }
}

/// The handles of some windows that were seen in turn.
pub open spec fn handles(t: Table, seen: Seq<Seen>) -> Seq<isize>
    decreases seen.len(),
{
    if seen.len() == 0 {
        Seq::<isize>::empty()
    } else {
        handles(t, seen.drop_last()).push(
            handle_for(after_all(t, seen.drop_last()), seen.last()) as isize,
        )
    }
}

/// The entries whose handle is in a list.
pub open spec fn still_live(windows: Seq<Known>, live: Seq<isize>) -> Seq<Known>
    decreases windows.len(),
{
    if windows.len() == 0 {
        Seq::<Known>::empty()
    } else if live.contains(windows.last().id) {
        still_live(windows.drop_last(), live).push(windows.last())
    } else {
        still_live(windows.drop_last(), live)
    }
}

/// A table after a look at the desktop: windows that were seen have their
/// entries, and windows that were not are forgotten.
pub open spec fn after_look(t: Table, seen: Seq<Seen>) -> Table {
    Table {
        windows: still_live(after_all(t, seen).windows, handles(t, seen)),
        last: after_all(t, seen).last,
    }
}

/// What holds of every table: no handle and no window stands in it twice, and
/// no handle is later than the last that was given out.
pub open spec fn is_table(t: Table) -> bool {
    &&& 0 <= t.last <= isize::MAX
    &&& forall|i: int| 0 <= i < t.windows.len() ==> 0 < (#[trigger] t.windows[i]).id <= t.last
    &&& forall|i: int, j: int|
        #![trigger t.windows[i], t.windows[j]]
        0 <= i < j < t.windows.len() ==> t.windows[i].id != t.windows[j].id && !(t.windows[i].pid
            == t.windows[j].pid && t.windows[i].element == t.windows[j].element)
}

proof fn lemma_place(windows: Seq<Known>, s: Seen)
    ensures
        -1 <= place_of(windows, s) < windows.len(),
        place_of(windows, s) >= 0 ==> is_entry(windows[place_of(windows, s)], s),
        place_of(windows, s) < 0 ==> forall|j: int|
            0 <= j < windows.len() ==> !is_entry(#[trigger] windows[j], s),
    decreases windows.len(),
{
    if windows.len() > 0 {
        lemma_place(windows.drop_last(), s);
        let i = place_of(windows.drop_last(), s);
        if i < 0 && !is_entry(windows.last(), s) {
            assert forall|j: int| 0 <= j < windows.len() implies !is_entry(
                #[trigger] windows[j],
                s,
            ) by {
                if j < windows.len() - 1 {
                    assert(windows.drop_last()[j] == windows[j]);
                }
            }
        }
    }
}

proof fn lemma_after_seen(t: Table, s: Seen)
    requires
        is_table(t),
        t.last < isize::MAX,
    ensures
        is_table(after_seen(t, s)),
        t.last <= after_seen(t, s).last <= t.last + 1,
        0 < handle_for(t, s) <= after_seen(t, s).last,
{
    lemma_place(t.windows, s);
}

proof fn lemma_after_all(t: Table, seen: Seq<Seen>)
    requires
        is_table(t),
        t.last + seen.len() <= isize::MAX,
    ensures
        is_table(after_all(t, seen)),
        t.last <= after_all(t, seen).last <= t.last + seen.len(),
        handles(t, seen).len() == seen.len(),
    decreases seen.len(),
{
    if seen.len() > 0 {
        lemma_after_all(t, seen.drop_last());
        lemma_after_seen(after_all(t, seen.drop_last()), seen.last());
    }
}

proof fn lemma_still_live(windows: Seq<Known>, live: Seq<isize>)
    ensures
        still_live(windows, live).len() <= windows.len(),
        forall|i: int|
            0 <= i < still_live(windows, live).len() ==> {
                &&& live.contains((#[trigger] still_live(windows, live)[i]).id)
                &&& windows.contains(still_live(windows, live)[i])
            },
        forall|i: int|
            0 <= i < windows.len() && live.contains((#[trigger] windows[i]).id)
                ==> still_live(windows, live).contains(windows[i]),
    decreases windows.len(),
{
    if windows.len() > 0 {
        let init = windows.drop_last();
        lemma_still_live(init, live);
        let before = still_live(init, live);
        let after = still_live(windows, live);
        assert forall|i: int| 0 <= i < after.len() implies live.contains((#[trigger] after[i]).id)
            && windows.contains(after[i]) by {
            if i < before.len() {
                assert(after[i] == before[i]);
                let j = choose|j: int| 0 <= j < init.len() && init[j] == before[i];
                assert(windows[j] == after[i]);
            } else {
                assert(windows[windows.len() - 1] == after[i]);
            }
        }
        assert forall|i: int|
            0 <= i < windows.len() && live.contains(
                (#[trigger] windows[i]).id,
            ) implies after.contains(windows[i]) by {
            if i < init.len() {
                assert(init[i] == windows[i]);
                let j = choose|j: int| 0 <= j < before.len() && before[j] == init[i];
                assert(after[j] == windows[i]);
            } else {
                assert(after[after.len() - 1] == windows[i]);
            }
        }
    }
}

proof fn lemma_live_table(t: Table, live: Seq<isize>)
    requires
        is_table(t),
    ensures
        is_table(Table { windows: still_live(t.windows, live), last: t.last }),
    decreases t.windows.len(),
{
    if t.windows.len() > 0 {
        let init = t.windows.drop_last();
        let before = still_live(init, live);
        let after = still_live(t.windows, live);
        assert(is_table(Table { windows: init, last: t.last }));
        lemma_live_table(Table { windows: init, last: t.last }, live);
        lemma_still_live(init, live);
        assert forall|i: int| 0 <= i < before.len() && after.len() > before.len() implies (
        #[trigger] before[i]).id != t.windows.last().id && !(before[i].pid == t.windows.last().pid
            && before[i].element == t.windows.last().element) by {
            let j = choose|j: int| 0 <= j < init.len() && init[j] == before[i];
            assert(t.windows[j] == before[i]);
            assert(t.windows[t.windows.len() - 1] == t.windows.last());
        }
        let rest = Table { windows: before, last: t.last };
        assert(is_table(rest));
        assert forall|i: int| 0 <= i < after.len() implies 0 < (#[trigger] after[i]).id
            <= t.last by {
            if i < before.len() {
                assert(rest.windows[i] == after[i]);
            } else {
                assert(t.windows[t.windows.len() - 1] == after[i]);
            }
        }
        assert forall|i: int, j: int|
            #![trigger after[i], after[j]]
            0 <= i < j < after.len() implies after[i].id != after[j].id && !(after[i].pid
            == after[j].pid && after[i].element == after[j].element) by {
            assert(rest.windows[i] == after[i]);
            if j < before.len() {
                assert(rest.windows[j] == after[j]);
            } else {
                assert(before[i] == after[i]);
                assert(t.windows.last() == after[j]);
            }
        }
    }
}

/// The windows that have been seen.
#[derive(Debug)]
pub struct WindowTable {
    pub windows: Vec<KnownWindow>,
    pub last: isize,
}

impl View for WindowTable {
    type V = Table;

    open spec fn view(&self) -> Table {
        Table { windows: known_of(self.windows@), last: self.last as int }
    }
}

/// Why a window cannot be described.
#[derive(Debug, Clone, Copy, PartialEq, Eq, Structural)]
pub enum WindowError {
    /// The process may not use the accessibility service.
    NotTrusted,
    Gone,
    Unknown,
    NotFocusable,
}

/// What is said of a window that cannot be described.
pub open spec fn window_error_message(e: WindowError) -> Seq<char> {
    match e {
        WindowError::NotTrusted =>
            "Accessibility permission missing. Grant the host application or installed Wincrust executable access in System Settings > Privacy & Security > Accessibility, then restart it."@,
        WindowError::Gone => "window no longer exists"@,
        WindowError::Unknown => "unknown window ID; call windows again"@,
        WindowError::NotFocusable => "focused window unavailable"@,
    }
}

impl WindowError {
    /// What is said of the window.
    pub fn message(&self) -> (r: String)
        ensures
            r@ == window_error_message(*self),
    {
        match self {
            WindowError::NotTrusted =>
                "Accessibility permission missing. Grant the host application or installed Wincrust executable access in System Settings > Privacy & Security > Accessibility, then restart it.".to_string(),
            WindowError::Gone => "window no longer exists".to_string(),
            WindowError::Unknown => "unknown window ID; call windows again".to_string(),
            WindowError::NotFocusable => "focused window unavailable".to_string(),
        }
    }
}

/// What an element says of itself when a window is listed.
#[derive(Debug)]
pub struct WindowReading {
    pub title: String,
    pub bounds: Option<Bounds>,
}

/// The description of a window.
pub open spec fn described_window(k: Known, title: Seq<char>, bounds: Bounds) -> WindowView {
    WindowView {
        name: title,
        class_name: k.app,
        control_type: "window"@,
        hwnd: k.id,
        pid: k.pid,
        bounds,
        owned_by: None,
    }
}

/// The place of the entry with a handle; one before the first where there is
/// none.
pub open spec fn place_of_id(windows: Seq<Known>, id: isize) -> int
    decreases windows.len(),
{
    if windows.len() == 0 {
        -1
    } else if place_of_id(windows.drop_last(), id) >= 0 {
        place_of_id(windows.drop_last(), id)
    } else if windows.last().id == id {
        windows.len() - 1
    } else {
        -1
    }
}

/// The place of the first entry with an element; one before the first where
/// there is none.
pub open spec fn place_of_element(windows: Seq<Known>, element: u64) -> int
    decreases windows.len(),
{
    if windows.len() == 0 {
        -1
    } else if place_of_element(windows.drop_last(), element) >= 0 {
        place_of_element(windows.drop_last(), element)
    } else if windows.last().element == element {
        windows.len() - 1
    } else {
        -1
    }
}

proof fn lemma_place_of_id(windows: Seq<Known>, id: isize)
    ensures
        -1 <= place_of_id(windows, id) < windows.len(),
        place_of_id(windows, id) >= 0 ==> windows[place_of_id(windows, id)].id == id,
        place_of_id(windows, id) < 0 ==> forall|j: int|
            0 <= j < windows.len() ==> (#[trigger] windows[j]).id != id,
    decreases windows.len(),
{
    if windows.len() > 0 {
        lemma_place_of_id(windows.drop_last(), id);
        assert forall|j: int|
            place_of_id(windows, id) < 0 && 0 <= j < windows.len() implies (
        #[trigger] windows[j]).id != id by {
            if j < windows.len() - 1 {
                assert(windows.drop_last()[j] == windows[j]);
            }
        }
    }
}

/// The descriptions of the windows of a list that can be described.
pub open spec fn listing(t: Table, live: Seq<isize>, readings: Seq<WindowReading>) -> Seq<
    WindowView,
>
    decreases live.len(),
{
    if live.len() == 0 {
        Seq::<WindowView>::empty()
    } else {
        let before = listing(t, live.drop_last(), readings);
        let i = place_of_id(t.windows, live.last());
        let reading = readings[live.len() - 1];
        if i >= 0 && reading.bounds is Some {
            before.push(described_window(t.windows[i], reading.title@, reading.bounds->0))
        } else {
            before
        }
    }
}

/// The descriptions of a list, with the characters of their strings.
pub open spec fn info_views(v: Seq<WindowInfo>) -> Seq<WindowView> {
    Seq::new(v.len(), |i: int| v[i]@)
}

impl WindowTable {
    /// The table before anything was seen.
    pub fn new() -> (r: WindowTable)
        ensures
            r@ == (Table { windows: Seq::<Known>::empty(), last: 0 }),
            is_table(r@),
    {
        let r = WindowTable { windows: Vec::new(), last: 0 };
        assert(r@ =~= (Table { windows: Seq::<Known>::empty(), last: 0 }));
        r
    }

    fn find(&self, pid: i32, element: u64, Ghost(s): Ghost<Seen>) -> (r: Option<usize>)
        requires
            s.pid == pid,
            s.element == element,
        ensures
            match r {
                Some(i) => i == place_of(self@.windows, s),
                None => place_of(self@.windows, s) == -1,
            },
    {
        let ghost all = self@.windows;
        let mut i: usize = 0;
        while i < self.windows.len()
            invariant
                all == known_of(self.windows@),
                i <= self.windows.len(),
                s.pid == pid,
                s.element == element,
                place_of(all.take(i as int), s) == -1,
            decreases self.windows.len() - i,
        {
            let ghost upto = all.take(i + 1);
            assert(upto.drop_last() =~= all.take(i as int));
            assert(upto.last() == self.windows@[i as int]@);
            if self.windows[i].pid == pid && self.windows[i].element == element {
                proof {
                    lemma_place_prefix(all, i + 1, s);
                }
                return Some(i);
            }
            i = i + 1;
        }
        assert(all.take(i as int) =~= all);
        None
    }

    /// Notes a window, and gives its handle.
    fn note(&mut self, w: &SeenWindow) -> (id: isize)
        requires
            is_table(old(self)@),
            old(self).last < isize::MAX,
        ensures
            final(self)@ == after_seen(old(self)@, w@),
            id == handle_for(old(self)@, w@),
    {
        let ghost before = self@;
        proof {
            lemma_place(before.windows, w@);
        }
        match self.find(w.pid, w.element, Ghost(w@)) {
            Some(i) => {
                let id: isize = self.windows[i].id;
                self.windows.set(
                    i,
                    KnownWindow { id, pid: w.pid, app: w.app.clone(), element: w.element },
                );
                assert(self@.windows =~= after_seen(before, w@).windows);
                id
            },
            None => {
                self.last = self.last + 1;
                let id: isize = self.last;
                self.windows.push(
                    KnownWindow { id, pid: w.pid, app: w.app.clone(), element: w.element },
                );
                assert(self@.windows =~= after_seen(before, w@).windows);
                id
            },
        }
    }

    /// Looks at the desktop: gives each window that is there its handle, and
    /// forgets every window that is not. Returns the handles in the order in
    /// which the windows were seen. A process that may not look sees nothing
    /// and forgets nothing.
    pub fn list(&mut self, trusted: bool, seen: &Vec<SeenWindow>) -> (r: Result<
        Vec<isize>,
        WindowError,
    >)
        requires
            is_table(old(self)@),
            old(self)@.last + seen@.len() <= isize::MAX,
        ensures
            is_table(final(self)@),
            match r {
                Ok(live) => {
                    &&& trusted
                    &&& final(self)@ == after_look(old(self)@, seen_of(seen@))
                    &&& live@ == handles(old(self)@, seen_of(seen@))
                },
                Err(e) => {
                    &&& !trusted
                    &&& e == WindowError::NotTrusted
                    &&& final(self)@ == old(self)@
                },
            },
    {
        if !trusted {
            return Err(WindowError::NotTrusted);
        }
        let ghost start = self@;
        let ghost all = seen_of(seen@);
        let mut live: Vec<isize> = Vec::new();
        let mut i: usize = 0;
        while i < seen.len()
            invariant
                all == seen_of(seen@),
                i <= seen.len(),
                is_table(start),
                start.last + seen@.len() <= isize::MAX,
                self@ == after_all(start, all.take(i as int)),
                live@ == handles(start, all.take(i as int)),
            decreases seen.len() - i,
        {
            proof {
                let upto = all.take(i + 1);
                assert(upto.drop_last() =~= all.take(i as int));
                assert(upto.last() == seen@[i as int]@);
                lemma_after_all(start, all.take(i as int));
            }
            let id: isize = self.note(&seen[i]);
            live.push(id);
            i = i + 1;
        }
        assert(all.take(i as int) =~= all);
        proof {
            lemma_after_all(start, all);
            lemma_live_table(after_all(start, all), handles(start, all));
        }
        self.retain(&live);
        Ok(live)
    }

    fn retain(&mut self, live: &Vec<isize>)
        ensures
            final(self)@ == (Table {
                windows: still_live(old(self)@.windows, live@),
                last: old(self)@.last,
            }),
    {
        let ghost all = self@.windows;
        let ghost last = self@.last;
        let mut kept: Vec<KnownWindow> = Vec::new();
        let mut i: usize = 0;
        while i < self.windows.len()
            invariant
                all == known_of(self.windows@),
                last == self.last,
                i <= self.windows.len(),
                known_of(kept@) == still_live(all.take(i as int), live@),
            decreases self.windows.len() - i,
        {
            let ghost before = known_of(kept@);
            let ghost upto = all.take(i + 1);
            assert(upto.drop_last() =~= all.take(i as int));
            assert(upto.last() == self.windows@[i as int]@);
            let w = &self.windows[i];
            if has_handle(live, w.id) {
                kept.push(
                    KnownWindow {
                        id: w.id,
                        pid: w.pid,
                        app: w.app.clone(),
                        element: w.element,
                    },
                );
                assert(known_of(kept@) =~= before.push(upto.last()));
            }
            i = i + 1;
        }
        assert(all.take(i as int) =~= all);
        self.windows = kept;
    }

    fn place(&self, id: isize) -> (r: Option<usize>)
        ensures
            match r {
                Some(i) => i == place_of_id(self@.windows, id) && i < self.windows@.len(),
                None => place_of_id(self@.windows, id) == -1,
            },
    {
        let ghost all = self@.windows;
        let mut i: usize = 0;
        while i < self.windows.len()
            invariant
                all == known_of(self.windows@),
                i <= self.windows.len(),
                place_of_id(all.take(i as int), id) == -1,
            decreases self.windows.len() - i,
        {
            let ghost upto = all.take(i + 1);
            assert(upto.drop_last() =~= all.take(i as int));
            assert(upto.last() == self.windows@[i as int]@);
            if self.windows[i].id == id {
                proof {
                    lemma_id_prefix(all, i + 1, id);
                }
                return Some(i);
            }
            i = i + 1;
        }
        assert(all.take(i as int) =~= all);
        None
    }

    /// The window with a handle.
    pub fn get(&self, id: isize) -> (r: Option<&KnownWindow>)
        ensures
            match r {
                Some(w) => place_of_id(self@.windows, id) >= 0 && w@
                    == self@.windows[place_of_id(self@.windows, id)],
                None => place_of_id(self@.windows, id) == -1,
            },
    {
        match self.place(id) {
            Some(i) => Some(&self.windows[i]),
            None => None,
        }
    }

    /// The window to look into: the one that was asked for, or else the one
    /// whose element has the focus.
    pub fn choose_window(&self, asked: Option<isize>, focused: u64) -> (r: Result<
        isize,
        WindowError,
    >)
        ensures
            match asked {
                Some(id) => r == if place_of_id(self@.windows, id) >= 0 {
                    Ok::<isize, WindowError>(id)
                } else {
                    Err(WindowError::Unknown)
                },
                None => r == if place_of_element(self@.windows, focused) >= 0 {
                    Ok::<isize, WindowError>(
                        self@.windows[place_of_element(self@.windows, focused)].id,
                    )
                } else {
                    Err(WindowError::NotFocusable)
                },
            },
    {
        match asked {
            Some(id) => match self.place(id) {
                Some(_) => Ok(id),
                None => Err(WindowError::Unknown),
            },
            None => {
                let ghost all = self@.windows;
                let mut i: usize = 0;
                while i < self.windows.len()
                    invariant
                        all == known_of(self.windows@),
                        i <= self.windows.len(),
                        asked is None,
                        place_of_element(all.take(i as int), focused) == -1,
                    decreases self.windows.len() - i,
                {
                    let ghost upto = all.take(i + 1);
                    assert(upto.drop_last() =~= all.take(i as int));
                    assert(upto.last() == self.windows@[i as int]@);
                    if self.windows[i].element == focused {
                        proof {
                            lemma_element_prefix(all, i + 1, focused);
                        }
                        return Ok(self.windows[i].id);
                    }
                    i = i + 1;
                }
                assert(all.take(i as int) =~= all);
                Err(WindowError::NotFocusable)
            },
        }
    }

    /// Describes the window with a handle, from what its element says of
    /// itself.
    pub fn info(&self, id: isize, title: &str, bounds: Bounds) -> (r: Result<
        WindowInfo,
        WindowError,
    >)
        ensures
            match r {
                Ok(w) => place_of_id(self@.windows, id) >= 0 && w@ == described_window(
                    self@.windows[place_of_id(self@.windows, id)],
                    title@,
                    bounds,
                ),
                Err(e) => place_of_id(self@.windows, id) == -1 && e == WindowError::Gone,
            },
    {
        match self.place(id) {
            None => Err(WindowError::Gone),
            Some(i) => Ok(
                WindowInfo {
                    name: title.to_string(),
                    class_name: self.windows[i].app.clone(),
                    control_type: "window".to_string(),
                    hwnd: self.windows[i].id,
                    pid: self.windows[i].pid,
                    bounds,
                    owned_by: None,
                },
            ),
        }
    }

    /// Describes the windows of a list, leaving out those that cannot be
    /// described.
    pub fn infos(&self, live: &Vec<isize>, readings: &Vec<WindowReading>) -> (r: Vec<WindowInfo>)
        requires
            live@.len() == readings@.len(),
        ensures
            info_views(r@) == listing(self@, live@, readings@),
    {
        let mut out: Vec<WindowInfo> = Vec::new();
        for i in 0..live.len()
            invariant
                live@.len() == readings@.len(),
                info_views(out@) == listing(self@, live@.take(i as int), readings@),
        {
            let ghost before = info_views(out@);
            let ghost upto = live@.take(i + 1);
            assert(upto.drop_last() =~= live@.take(i as int));
            proof {
                lemma_place_of_id(self@.windows, live@[i as int]);
            }
            if let Some(bounds) = readings[i].bounds {
                if let Ok(w) = self.info(live[i], readings[i].title.as_str(), bounds) {
                    out.push(w);
                    assert(info_views(out@) =~= before.push(w@));
                }
            }
        }
        assert(live@.take(live@.len() as int) =~= live@);
        out
    }
}

fn has_handle(live: &Vec<isize>, id: isize) -> (r: bool)
    ensures
        r == live@.contains(id),
{
    for i in 0..live.len()
        invariant
            forall|j: int| 0 <= j < i ==> live@[j] != id,
    {
        if live[i] == id {
            return true;
        }
    }
    false
}

proof fn lemma_place_prefix(windows: Seq<Known>, n: int, s: Seen)
    requires
        0 <= n <= windows.len(),
        place_of(windows.take(n), s) >= 0,
    ensures
        place_of(windows, s) == place_of(windows.take(n), s),
    decreases windows.len(),
{
    if n < windows.len() {
        assert(windows.drop_last().take(n) =~= windows.take(n));
        lemma_place_prefix(windows.drop_last(), n, s);
    } else {
        assert(windows.take(n) =~= windows);
    }
}

proof fn lemma_id_prefix(windows: Seq<Known>, n: int, id: isize)
    requires
        0 <= n <= windows.len(),
        place_of_id(windows.take(n), id) >= 0,
    ensures
        place_of_id(windows, id) == place_of_id(windows.take(n), id),
    decreases windows.len(),
{
    if n < windows.len() {
        assert(windows.drop_last().take(n) =~= windows.take(n));
        lemma_id_prefix(windows.drop_last(), n, id);
    } else {
        assert(windows.take(n) =~= windows);
    }
}

proof fn lemma_element_prefix(windows: Seq<Known>, n: int, element: u64)
    requires
        0 <= n <= windows.len(),
        place_of_element(windows.take(n), element) >= 0,
    ensures
        place_of_element(windows, element) == place_of_element(windows.take(n), element),
    decreases windows.len(),
{
    if n < windows.len() {
        assert(windows.drop_last().take(n) =~= windows.take(n));
        lemma_element_prefix(windows.drop_last(), n, element);
    } else {
        assert(windows.take(n) =~= windows);
    }
}

proof fn lemma_entry_at(t: Table, s: Seen, i: int)
    requires
        is_table(t),
        0 <= i < t.windows.len(),
        is_entry(t.windows[i], s),
    ensures
        place_of(t.windows, s) == i,
{
    lemma_place(t.windows, s);
    let j = place_of(t.windows, s);
    if j < i {
        assert(!is_entry(t.windows[j], s) || !is_entry(t.windows[i], s));
    } else if i < j {
        assert(!is_entry(t.windows[i], s) || !is_entry(t.windows[j], s));
    }
}

proof fn lemma_grows(t: Table, seen: Seq<Seen>)
    requires
        is_table(t),
        t.last + seen.len() <= isize::MAX,
    ensures
        t.windows.len() <= after_all(t, seen).windows.len(),
        forall|i: int|
            0 <= i < t.windows.len() ==> {
                let k = #[trigger] after_all(t, seen).windows[i];
                k.id == t.windows[i].id && k.pid == t.windows[i].pid && k.element
                    == t.windows[i].element
            },
        forall|i: int|
            t.windows.len() <= i < after_all(t, seen).windows.len() ==> (#[trigger] after_all(
                t,
                seen,
            ).windows[i]).id > t.last,
    decreases seen.len(),
{
    if seen.len() > 0 {
        let init = seen.drop_last();
        lemma_grows(t, init);
        lemma_after_all(t, init);
        lemma_place(after_all(t, init).windows, seen.last());
    }
}

proof fn lemma_handle(t: Table, seen: Seq<Seen>, j: int)
    requires
        is_table(t),
        t.last + seen.len() <= isize::MAX,
        0 <= j < seen.len(),
    ensures
        place_of(after_all(t, seen).windows, seen[j]) >= 0,
        handles(t, seen)[j] == after_all(t, seen).windows[place_of(
            after_all(t, seen).windows,
            seen[j],
        )].id,
    decreases seen.len(),
{
    let init = seen.drop_last();
    let mid = after_all(t, init);
    let after = after_all(t, seen);
    lemma_after_all(t, init);
    lemma_after_all(t, seen);
    lemma_place(mid.windows, seen.last());
    if j < init.len() {
        lemma_handle(t, init, j);
        assert(init[j] == seen[j]);
        let k = place_of(mid.windows, seen[j]);
        lemma_place(mid.windows, seen[j]);
        assert(is_entry(after.windows[k], seen[j]));
        lemma_entry_at(after, seen[j], k);
        assert(handles(t, seen)[j] == handles(t, init)[j]);
    } else {
        let k = if place_of(mid.windows, seen.last()) >= 0 {
            place_of(mid.windows, seen.last())
        } else {
            mid.windows.len() as int
        };
        assert(is_entry(after.windows[k], seen[j]));
        lemma_entry_at(after, seen[j], k);
    }
}

/// A window that is seen again keeps the handle it has.
pub proof fn law_handle_is_kept(t: Table, seen: Seq<Seen>, i: int, j: int)
    requires
        is_table(t),
        t.last + seen.len() <= isize::MAX,
        0 <= i < t.windows.len(),
        0 <= j < seen.len(),
        is_entry(t.windows[i], seen[j]),
    ensures
        handles(t, seen)[j] == t.windows[i].id,
{
    lemma_grows(t, seen);
    lemma_after_all(t, seen);
    lemma_handle(t, seen, j);
    lemma_entry_at(after_all(t, seen), seen[j], i);
}

/// A window that has no handle gets one that was never given out before, so
/// a handle of a window that has gone never comes to mean another one.
pub proof fn law_handle_is_fresh(t: Table, seen: Seq<Seen>, j: int)
    requires
        is_table(t),
        t.last + seen.len() <= isize::MAX,
        0 <= j < seen.len(),
        forall|i: int| 0 <= i < t.windows.len() ==> !is_entry(#[trigger] t.windows[i], seen[j]),
    ensures
        t.last < handles(t, seen)[j] <= after_look(t, seen).last,
{
    lemma_grows(t, seen);
    lemma_after_all(t, seen);
    lemma_handle(t, seen, j);
    lemma_place(after_all(t, seen).windows, seen[j]);
    let k = place_of(after_all(t, seen).windows, seen[j]);
    if k < t.windows.len() {
        assert(!is_entry(t.windows[k], seen[j]));
    }
}

/// Two windows of a look have one handle exactly where they are the same
/// window.
pub proof fn law_one_handle_per_window(t: Table, seen: Seq<Seen>, i: int, j: int)
    requires
        is_table(t),
        t.last + seen.len() <= isize::MAX,
        0 <= i < seen.len(),
        0 <= j < seen.len(),
    ensures
        handles(t, seen)[i] == handles(t, seen)[j] <==> seen[i].pid == seen[j].pid
            && seen[i].element == seen[j].element,
{
    lemma_after_all(t, seen);
    lemma_handle(t, seen, i);
    lemma_handle(t, seen, j);
    let after = after_all(t, seen);
    lemma_place(after.windows, seen[i]);
    lemma_place(after.windows, seen[j]);
    let a = place_of(after.windows, seen[i]);
    let b = place_of(after.windows, seen[j]);
    if seen[i].pid == seen[j].pid && seen[i].element == seen[j].element {
        lemma_entry_at(after, seen[j], a);
    } else if a < b {
        assert(after.windows[a].id != after.windows[b].id);
    } else if b < a {
        assert(after.windows[b].id != after.windows[a].id);
    }
}

/// After a look the table holds the windows that were seen and no other.
pub proof fn law_only_seen_windows_stay(t: Table, seen: Seq<Seen>)
    requires
        is_table(t),
        t.last + seen.len() <= isize::MAX,
    ensures
        is_table(after_look(t, seen)),
        forall|i: int|
            0 <= i < after_look(t, seen).windows.len() ==> handles(t, seen).contains(
                (#[trigger] after_look(t, seen).windows[i]).id,
            ),
        forall|j: int|
            0 <= j < seen.len() ==> place_of(after_look(t, seen).windows, #[trigger] seen[j]) >= 0,
{
    let after = after_all(t, seen);
    let live = handles(t, seen);
    lemma_after_all(t, seen);
    lemma_live_table(after, live);
    lemma_still_live(after.windows, live);
    assert forall|j: int| 0 <= j < seen.len() implies place_of(
        after_look(t, seen).windows,
        #[trigger] seen[j],
    ) >= 0 by {
        lemma_handle(t, seen, j);
        lemma_place(after.windows, seen[j]);
        let k = place_of(after.windows, seen[j]);
        assert(live[j] == after.windows[k].id);
        let kept = after_look(t, seen).windows;
        assert(kept.contains(after.windows[k]));
        let m = choose|m: int| 0 <= m < kept.len() && kept[m] == after.windows[k];
        lemma_entry_at(after_look(t, seen), seen[j], m);
    }
}

/// The handle that a look returns for a window is that of the window's entry
/// in the table afterwards.
pub proof fn law_handle_is_that_of_the_entry(t: Table, seen: Seq<Seen>, j: int)
    requires
        is_table(t),
        t.last + seen.len() <= isize::MAX,
        0 <= j < seen.len(),
    ensures
        place_of(after_look(t, seen).windows, seen[j]) >= 0,
        after_look(t, seen).windows[place_of(after_look(t, seen).windows, seen[j])].id == handles(
            t,
            seen,
        )[j],
{
    let after = after_all(t, seen);
    let look = after_look(t, seen);
    law_only_seen_windows_stay(t, seen);
    lemma_after_all(t, seen);
    lemma_handle(t, seen, j);
    lemma_place(after.windows, seen[j]);
    lemma_place(look.windows, seen[j]);
    lemma_still_live(after.windows, handles(t, seen));
    let m = place_of(look.windows, seen[j]);
    assert(after.windows.contains(look.windows[m]));
    let k = choose|k: int| 0 <= k < after.windows.len() && after.windows[k] == look.windows[m];
    lemma_entry_at(after, seen[j], k);
}

/// A window that is seen in two looks, one after the other, has one handle in
/// both.
pub proof fn law_handle_lasts_over_two_looks(
    t: Table,
    first: Seq<Seen>,
    second: Seq<Seen>,
    i: int,
    j: int,
)
    requires
        is_table(t),
        t.last + first.len() + second.len() <= isize::MAX,
        0 <= i < first.len(),
        0 <= j < second.len(),
        first[i].pid == second[j].pid,
        first[i].element == second[j].element,
    ensures
        handles(after_look(t, first), second)[j] == handles(t, first)[i],
{
    let after = after_look(t, first);
    law_only_seen_windows_stay(t, first);
    law_handle_is_that_of_the_entry(t, first, i);
    lemma_after_all(t, first);
    lemma_place(after.windows, first[i]);
    law_handle_is_kept(after, second, place_of(after.windows, first[i]), j);
}

/// A window has its entry in a table exactly where some entry has its process
/// and its element, a handle where some entry has the handle, and an element
/// where some entry has the element; of several the first one counts.
pub proof fn law_first_entry_counts(windows: Seq<Known>, s: Seen, id: isize, element: u64)
    ensures
        ({
            let a = place_of(windows, s);
            let b = place_of_id(windows, id);
            let c = place_of_element(windows, element);
            &&& a < windows.len() && b < windows.len() && c < windows.len()
            &&& a >= 0 ==> windows[a].pid == s.pid && windows[a].element == s.element
            &&& b >= 0 ==> windows[b].id == id
            &&& c >= 0 ==> windows[c].element == element
            &&& forall|i: int|
                0 <= i < windows.len() && (a < 0 || i < a) ==> (#[trigger] windows[i]).pid != s.pid
                    || windows[i].element != s.element
            &&& forall|i: int|
                0 <= i < windows.len() && (b < 0 || i < b) ==> (#[trigger] windows[i]).id != id
            &&& forall|i: int|
                0 <= i < windows.len() && (c < 0 || i < c) ==> (#[trigger] windows[i]).element
                    != element
        }),
    decreases windows.len(),
{
    if windows.len() > 0 {
        let init = windows.drop_last();
        law_first_entry_counts(init, s, id, element);
        let a = place_of(windows, s);
        let b = place_of_id(windows, id);
        let c = place_of_element(windows, element);
        assert forall|i: int| 0 <= i < windows.len() && (a < 0 || i < a) implies (
        #[trigger] windows[i]).pid != s.pid || windows[i].element != s.element by {
            if i < init.len() {
                assert(init[i] == windows[i]);
            }
        }
        assert forall|i: int| 0 <= i < windows.len() && (b < 0 || i < b) implies (
        #[trigger] windows[i]).id != id by {
            if i < init.len() {
                assert(init[i] == windows[i]);
            }
        }
        assert forall|i: int| 0 <= i < windows.len() && (c < 0 || i < c) implies (
        #[trigger] windows[i]).element != element by {
            if i < init.len() {
                assert(init[i] == windows[i]);
            }
        }
    }
}

/// A window that is seen has an entry afterwards that says what was seen: its
/// process, its element, the application that it has now, and its handle. Every
/// other entry stays as it was, and a handle is used up exactly where the
/// window had none.
pub proof fn law_seen_window_is_noted(t: Table, s: Seen, i: int) -> (k: int)
    requires
        is_table(t),
        t.last < isize::MAX,
    ensures
        ({
            let after = after_seen(t, s);
            let known = exists|j: int|
                0 <= j < t.windows.len() && (#[trigger] t.windows[j]).pid == s.pid
                    && t.windows[j].element == s.element;
            &&& 0 <= k < after.windows.len()
            &&& after.windows[k].pid == s.pid
            &&& after.windows[k].element == s.element
            &&& after.windows[k].app == s.app
            &&& after.windows[k].id == handle_for(t, s)
            &&& known ==> k < t.windows.len() && handle_for(t, s) == t.windows[k].id && after.last
                == t.last && after.windows.len() == t.windows.len()
            &&& !known ==> k == t.windows.len() && handle_for(t, s) == t.last + 1 && after.last
                == t.last + 1 && after.windows.len() == t.windows.len() + 1
            &&& 0 <= i < t.windows.len() && i != k ==> after.windows[i] == t.windows[i]
        }),
{
    lemma_place(t.windows, s);
    let at = place_of(t.windows, s);
    if at >= 0 {
        assert(t.windows[at].pid == s.pid);
        at
    } else {
        assert forall|j: int| 0 <= j < t.windows.len() implies (#[trigger] t.windows[j]).pid
            != s.pid || t.windows[j].element != s.element by {
            assert(!is_entry(t.windows[j], s));
        }
        t.windows.len() as int
    }
}

/// The windows of a look are noted one after another.
pub proof fn law_windows_are_noted_in_turn(t: Table, seen: Seq<Seen>, s: Seen)
    ensures
        after_all(t, Seq::<Seen>::empty()) == t,
        after_all(t, seen.push(s)) == after_seen(after_all(t, seen), s),
        handles(t, seen.push(s)) == handles(t, seen).push(
            handle_for(after_all(t, seen), s) as isize,
        ),
{
    assert(seen.push(s).drop_last() =~= seen);
}

/// The entries that stay are those whose handle is in the list, as they are
/// and in order.
pub proof fn law_live_entries_stay(windows: Seq<Known>, live: Seq<isize>)
    ensures
        still_live(windows, live) == windows.filter(|k: Known| live.contains(k.id)),
    decreases windows.len(),
{
    reveal(Seq::filter);
    if windows.len() > 0 {
        law_live_entries_stay(windows.drop_last(), live);
    }
}

/// The description of a window carries the title and the rectangle that were
/// read, and the handle, the process and the application of its entry.
pub proof fn law_description_tells_of_the_window(k: Known, title: Seq<char>, bounds: Bounds)
    ensures
        ({
            let w = described_window(k, title, bounds);
            &&& w.name == title
            &&& w.bounds == bounds
            &&& w.hwnd == k.id
            &&& w.pid == k.pid
            &&& w.class_name == k.app
            &&& w.control_type == "window"@
            &&& w.owned_by is None
        }),
{
}

/// The windows of a list are described in turn, each from its own reading; one
/// is left out exactly where it has no entry or no rectangle was read.
pub proof fn law_windows_are_described_in_turn(
    t: Table,
    live: Seq<isize>,
    id: isize,
    readings: Seq<WindowReading>,
    i: int,
)
    requires
        live.len() < readings.len(),
        is_table(t),
    ensures
        ({
            let before = listing(t, live, readings);
            let after = listing(t, live.push(id), readings);
            let reading = readings[live.len() as int];
            &&& 0 <= i < t.windows.len() && t.windows[i].id == id && reading.bounds is Some ==> after
                == before.push(described_window(t.windows[i], reading.title@, reading.bounds->0))
            &&& reading.bounds is None ==> after == before
            &&& (forall|j: int| 0 <= j < t.windows.len() ==> (#[trigger] t.windows[j]).id != id)
                ==> after == before
            &&& listing(t, Seq::<isize>::empty(), readings) == Seq::<WindowView>::empty()
        }),
{
    assert(live.push(id).drop_last() =~= live);
    lemma_place_of_id(t.windows, id);
    let k = place_of_id(t.windows, id);
    if 0 <= i < t.windows.len() && t.windows[i].id == id {
        assert(k >= 0);
        if k < i {
            assert(t.windows[k].id != t.windows[i].id);
        } else if i < k {
            assert(t.windows[i].id != t.windows[k].id);
        }
    }
}

/// A window, an entry or a table and its view agree in every field, and lists
/// do entry by entry.
pub proof fn law_table_is_what_it_holds(
    info: WindowInfo,
    seen: Seq<SeenWindow>,
    known: Seq<KnownWindow>,
    t: WindowTable,
    infos: Seq<WindowInfo>,
    i: int,
)
    ensures
        info@.name == info.name@,
        info@.class_name == info.class_name@,
        info@.control_type == info.control_type@,
        info@.hwnd == info.hwnd,
        info@.pid == info.pid,
        info@.bounds == info.bounds,
        info@.owned_by == info.owned_by,
        t@.windows == known_of(t.windows@),
        t@.last == t.last,
        seen_of(seen).len() == seen.len(),
        known_of(known).len() == known.len(),
        info_views(infos).len() == infos.len(),
        0 <= i < infos.len() ==> info_views(infos)[i] == infos[i]@,
        0 <= i < seen.len() ==> {
            &&& seen_of(seen)[i].pid == seen[i].pid
            &&& seen_of(seen)[i].app == seen[i].app@
            &&& seen_of(seen)[i].element == seen[i].element
        },
        0 <= i < known.len() ==> {
            &&& known_of(known)[i].id == known[i].id
            &&& known_of(known)[i].pid == known[i].pid
            &&& known_of(known)[i].app == known[i].app@
            &&& known_of(known)[i].element == known[i].element
        },
{
}

} // verus!
