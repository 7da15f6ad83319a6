//! The application's bookkeeping: a strip of terminals, one per pane, each
//! terminal known by a number that is never handed out twice.
//!
//! Spawning terminals, drawing them and talking to the windowing system are
//! left to the caller, which performs what these functions decide.

use vstd::prelude::*;
use crate::horizontal_scroll::{Action, Pane, State, StateView};
use iced::widget::Id;

verus! {

/// The side of an existing pane on which a new terminal opens.
#[derive(Debug, Clone, Copy, PartialEq, Eq, Structural)]
pub enum Side {
    Left,
    Right,
}

/// The mathematical model of an [`App`]: the layout, whose panes hold
/// terminal numbers, and the number the next terminal will be given.
#[verifier::ext_equal]
pub struct AppView {
    pub layout: StateView<u64>,
    pub next_terminal_id: nat,
}

impl AppView {
    /// The layout is well formed, no terminal shows in two panes, and every
    /// terminal was numbered below `next_terminal_id`.
    pub open spec fn wf(self) -> bool {
        &&& self.layout.wf()
        &&& forall|i: int, j: int|
            0 <= i < self.layout.len() && 0 <= j < self.layout.len() && i != j
                ==> #[trigger] self.layout.columns[i].1 != #[trigger] self.layout.columns[j].1
        &&& forall|i: int| 0 <= i < self.layout.len() ==> #[trigger] self.layout.columns[i].1 < self.next_terminal_id
    }

    /// Whether some pane shows terminal `id`.
    pub open spec fn shows(self, id: u64) -> bool {
        exists|i: int| 0 <= i < self.layout.len() && #[trigger] self.layout.columns[i].1 == id
    }

    /// The pane that shows terminal `id`, if any.
    pub open spec fn pane_showing(self, id: u64) -> Option<Pane> {
        if self.shows(id) {
            Some(self.layout.columns[choose|i: int| 0 <= i < self.layout.len() && #[trigger] self.layout.columns[i].1 == id].0)
        } else {
            None
        }
    }

    /// Where a terminal opened on `side` of `pane` goes in the strip.
    pub open spec fn open_index(self, pane: Pane, side: Side) -> int {
        match side {
            Side::Left => self.layout.left_index(pane),
            Side::Right => self.layout.right_index(pane),
        }
    }

    /// The state after a new terminal opens on `side` of `pane`: it takes the
    /// next number, gets a new pane there, and that pane is focused.
    pub open spec fn opened(self, pane: Pane, side: Side) -> AppView {
        AppView {
            layout: self.layout.inserted_at(self.open_index(pane, side), self.next_terminal_id as u64)
                .focused_on(self.layout.fresh_pane()),
            next_terminal_id: self.next_terminal_id + 1,
        }
    }

    /// The state after `pane` (present) closes: its column goes, and the
    /// neighbor that inherits focus, if any, is focused.
    pub open spec fn closed(self, pane: Pane) -> AppView {
        AppView {
            layout: match self.layout.close_neighbor(pane) {
                Some(n) => self.layout.closed(pane).focused_on(n),
                None => self.layout.closed(pane),
            },
            next_terminal_id: self.next_terminal_id,
        }
    }
}

/// The application: a strip of panes, each showing one terminal.
pub struct App {
    layout: State<u64>,
    next_terminal_id: u64,
}

impl View for App {
    type V = AppView;

    closed spec fn view(&self) -> AppView {
        AppView { layout: self.layout@, next_terminal_id: self.next_terminal_id as nat }
    }
}

impl App {
    /// An application is always well formed.
    #[verifier::type_invariant]
    spec fn inv(self) -> bool {
        self@.wf()
    }

    /// The identifier of the strip's scrollable, which every operation keeps.
    pub closed spec fn layout_id(&self) -> Id {
        self.layout.scrollable_id()
    }

    /// Creates the application with terminal 0 in a single, focused pane.
    pub fn new() -> (r: Self)
        ensures
            r@.wf(),
            r@.layout.len() == 1,
            r@.layout.columns[0].1 == 0,
            r@.layout.focus == Some(r@.layout.columns[0].0),
            r@.layout.next_id == 1,
            r@.next_terminal_id == 1,
    {
        let (layout, _) = State::new(0u64);
        App { layout, next_terminal_id: 1 }
    }

    /// The window title.
    pub fn title(&self) -> (r: String)
        ensures
            r@ == "Terminal strip"@,
    {
        String::from_str("Terminal strip")
    }

    /// The layout of the panes.
    pub fn layout(&self) -> (r: &State<u64>)
        ensures
            r@ == self@.layout,
            r.scrollable_id() == self.layout_id(),
            self@.wf(),
    {
        proof {
            use_type_invariant(self);
        }
        &self.layout
    }

    /// Whether a new terminal can still be opened: both the terminal and the
    /// pane numbering stop one short of their largest value.
    pub fn can_open(&self) -> (r: bool)
        ensures
            r == (self@.next_terminal_id < u64::MAX && self@.layout.next_id < usize::MAX),
    {
        self.next_terminal_id < u64::MAX && self.layout.can_insert()
    }

    /// Opens a new terminal on `side` of `pane` (at the far right if the pane
    /// is gone) and focuses it. Returns the number of the terminal to spawn
    /// and its pane.
    pub fn open(&mut self, pane: Pane, side: Side) -> (r: (u64, Pane))
        requires
            old(self)@.next_terminal_id < u64::MAX,
            old(self)@.layout.next_id < usize::MAX,
        ensures
            r.0 == old(self)@.next_terminal_id,
            r.1 == old(self)@.layout.fresh_pane(),
            !old(self)@.layout.contains(r.1),
            !old(self)@.shows(r.0),
            final(self)@ == old(self)@.opened(pane, side),
            final(self)@.layout.focus == Some(r.1),
            final(self)@.next_terminal_id == old(self)@.next_terminal_id + 1,
            old(self)@.layout.contains(pane) && side is Right ==> {
                &&& final(self)@.layout.columns[old(self)@.layout.index_of(pane)].0 == pane
                &&& final(self)@.layout.columns[old(self)@.layout.index_of(pane) + 1] == (r.1, r.0)
                &&& final(self)@.layout.columns.remove(old(self)@.layout.index_of(pane) + 1)
                    == old(self)@.layout.columns
            },
            old(self)@.layout.contains(pane) && side is Left ==> {
                &&& final(self)@.layout.columns[old(self)@.layout.index_of(pane)] == (r.1, r.0)
                &&& final(self)@.layout.columns[old(self)@.layout.index_of(pane) + 1].0 == pane
                &&& final(self)@.layout.columns.remove(old(self)@.layout.index_of(pane))
                    == old(self)@.layout.columns
            },
            !old(self)@.layout.contains(pane) ==> final(self)@.layout.columns
                == old(self)@.layout.columns.push((r.1, r.0)),
            final(self)@.wf(),
            final(self).layout_id() == old(self).layout_id(),
    {
        proof {
            use_type_invariant(&*self);
        }
        let ghost before = self@;
        // The layout is taken out while it changes, leaving an empty one in
        // its place, so that the application stays well formed at every step.
        let mut layout = State::empty(self.layout.id());
        std::mem::swap(&mut layout, &mut self.layout);
        let id = self.next_terminal_id;
        self.next_terminal_id += 1;
        let new_pane = match side {
            Side::Left => layout.insert_left_of(pane, id),
            Side::Right => layout.insert_right_of(pane, id),
        };
        layout.focus(new_pane);
        proof {
            lemma_opened_wf(before, pane, side);
            law_open_shows_new_terminal(before, pane, side, id);
            if before.shows(id) {
                let i = choose|i: int| 0 <= i < before.layout.len() && #[trigger] before.layout.columns[i].1 == id;
                assert(before.layout.columns[i].1 < before.next_terminal_id);
            }
            assert(AppView { layout: layout@, next_terminal_id: self.next_terminal_id as nat }
                =~= before.opened(pane, side));
        }
        self.layout = layout;
        (id, new_pane)
    }

    /// Closes `pane`. Returns `None`, changing nothing, if it is gone;
    /// otherwise the number of its terminal, to be shut, and the neighbor
    /// that is now focused (`None` if it was the last pane).
    pub fn close(&mut self, pane: Pane) -> (r: Option<(u64, Option<Pane>)>)
        ensures
            old(self)@.layout.contains(pane) ==> r == Some(
                (
                    old(self)@.layout.columns[old(self)@.layout.index_of(pane)].1,
                    old(self)@.layout.close_neighbor(pane),
                ),
            ) && final(self)@ == old(self)@.closed(pane),
            !old(self)@.layout.contains(pane) ==> r is None && final(self)@ == old(self)@,
            final(self)@.wf(),
            final(self).layout_id() == old(self).layout_id(),
    {
        proof {
            use_type_invariant(&*self);
        }
        let ghost before = self@;
        // The layout is taken out while it changes, leaving an empty one in
        // its place, so that the application stays well formed at every step.
        let mut layout = State::empty(self.layout.id());
        std::mem::swap(&mut layout, &mut self.layout);
        let result = match layout.close(pane) {
            Some((tab_id, neighbor)) => {
                if let Some(neighbor) = neighbor {
                    proof {
                        crate::horizontal_scroll::state::law_close_removes(before.layout, pane);
                    }
                    layout.focus(neighbor);
                }
                proof {
                    lemma_closed_wf(before, pane);
                    assert(AppView { layout: layout@, next_terminal_id: self.next_terminal_id as nat }
                        =~= before.closed(pane));
                }
                Some((tab_id, neighbor))
            },
            None => {
                assert(AppView { layout: layout@, next_terminal_id: self.next_terminal_id as nat } =~= before);
                None
            },
        };
        self.layout = layout;
        result
    }

    /// Handles a click on `pane`; see [`State::click`].
    pub fn click(&mut self, pane: Pane) -> (r: Option<Action>)
        ensures
            r == old(self)@.layout.click_action(pane),
            final(self)@.layout == old(self)@.layout.focused_on(pane),
            final(self)@.next_terminal_id == old(self)@.next_terminal_id,
            final(self)@.wf(),
            final(self).layout_id() == old(self).layout_id(),
    {
        proof {
            use_type_invariant(&*self);
        }
        // The layout is taken out while it changes, leaving an empty one in
        // its place, so that the application stays well formed at every step.
        let mut layout = State::empty(self.layout.id());
        std::mem::swap(&mut layout, &mut self.layout);
        let r = layout.click(pane);
        assert(layout@.columns == old(self)@.layout.columns);
        self.layout = layout;
        r
    }

    /// The pane that shows terminal `id`, if any.
    pub fn pane_of(&self, id: u64) -> (r: Option<Pane>)
        ensures
            r == self@.pane_showing(id),
    {
        proof {
            use_type_invariant(self);
        }
        let columns = self.layout.iter();
        let mut i: usize = 0;
        while i < columns.len()
            invariant
                0 <= i <= columns@.len(),
                self@.wf(),
                columns@.len() == self@.layout.len(),
                forall|k: int| #![trigger columns@[k]] 0 <= k < columns@.len()
                    ==> columns@[k].0 == self@.layout.columns[k].0 && *columns@[k].1 == self@.layout.columns[k].1,
                forall|k: int| 0 <= k < i ==> #[trigger] self@.layout.columns[k].1 != id,
            decreases columns@.len() - i,
        {
            let (pane, tab_id) = columns[i];
            if *tab_id == id {
                proof {
                    let ii = i as int;
                    assert(columns@[ii].0 == self@.layout.columns[ii].0);
                    assert(self@.layout.columns[ii].1 == id);
                    assert(self@.shows(id));
                    let c = choose|c: int| 0 <= c < self@.layout.len() && #[trigger] self@.layout.columns[c].1 == id;
                    assert(self@.layout.columns[c].1 == id);
                    assert(c == ii);
                    assert(self@.pane_showing(id) == Some(self@.layout.columns[ii].0));
                    assert(pane == columns@[ii].0);
                }
                return Some(pane);
            }
            assert(columns@[i as int].1 == self@.layout.columns[i as int].1);
            i += 1;
        }
        None
    }
}

/// Opening a terminal on the right of a pane that is there puts the new
/// terminal, in a new pane, immediately after that pane; every other pane
/// keeps its place in the order; the new pane is focused.
pub proof fn law_open_right_next_to(s: AppView, pane: Pane)
    requires
        s.wf(),
        s.layout.contains(pane),
        s.next_terminal_id < u64::MAX,
        s.layout.next_id < usize::MAX,
    ensures
        s.opened(pane, Side::Right).layout.columns[s.layout.index_of(pane)].0 == pane,
        s.opened(pane, Side::Right).layout.columns[s.layout.index_of(pane) + 1]
            == (s.layout.fresh_pane(), s.next_terminal_id as u64),
        s.opened(pane, Side::Right).layout.columns.remove(s.layout.index_of(pane) + 1) == s.layout.columns,
        s.opened(pane, Side::Right).layout.focus == Some(s.layout.fresh_pane()),
{
    let k = s.layout.index_of(pane);
    let id = s.next_terminal_id as u64;
    crate::horizontal_scroll::state::law_insert_next_to(s.layout, pane, id);
    crate::horizontal_scroll::state::law_insert_places_new_pane(s.layout, k + 1, id);
    lemma_opened_wf(s, pane, Side::Right);
    law_open_shows_new_terminal(s, pane, Side::Right, id);
}

/// Opening a terminal on the left of a pane that is there puts the new
/// terminal, in a new pane, immediately before that pane; every other pane
/// keeps its place in the order; the new pane is focused.
pub proof fn law_open_left_next_to(s: AppView, pane: Pane)
    requires
        s.wf(),
        s.layout.contains(pane),
        s.next_terminal_id < u64::MAX,
        s.layout.next_id < usize::MAX,
    ensures
        s.opened(pane, Side::Left).layout.columns[s.layout.index_of(pane)]
            == (s.layout.fresh_pane(), s.next_terminal_id as u64),
        s.opened(pane, Side::Left).layout.columns[s.layout.index_of(pane) + 1].0 == pane,
        s.opened(pane, Side::Left).layout.columns.remove(s.layout.index_of(pane)) == s.layout.columns,
        s.opened(pane, Side::Left).layout.focus == Some(s.layout.fresh_pane()),
{
    let k = s.layout.index_of(pane);
    let id = s.next_terminal_id as u64;
    crate::horizontal_scroll::state::law_insert_next_to(s.layout, pane, id);
    crate::horizontal_scroll::state::law_insert_places_new_pane(s.layout, k, id);
    lemma_opened_wf(s, pane, Side::Left);
    law_open_shows_new_terminal(s, pane, Side::Left, id);
}

/// Opening a terminal next to a pane that is gone, on either side, appends
/// it at the far right.
pub proof fn law_open_next_to_missing_appends(s: AppView, pane: Pane, side: Side)
    requires
        s.wf(),
        !s.layout.contains(pane),
        s.next_terminal_id < u64::MAX,
        s.layout.next_id < usize::MAX,
    ensures
        s.opened(pane, side).layout.columns
            == s.layout.columns.push((s.layout.fresh_pane(), s.next_terminal_id as u64)),
{
    crate::horizontal_scroll::state::law_insert_next_to_missing_appends(s.layout, pane, s.next_terminal_id as u64);
}

/// Opening a terminal keeps the application well formed.
proof fn lemma_opened_wf(s: AppView, pane: Pane, side: Side)
    requires
        s.wf(),
        s.next_terminal_id < u64::MAX,
        s.layout.next_id < usize::MAX,
    ensures
        s.opened(pane, side).wf(),
{
    let index = s.open_index(pane, side);
    let id = s.next_terminal_id as u64;
    let inserted = s.layout.inserted_at(index, id);
    crate::horizontal_scroll::state::law_insert_places_new_pane(s.layout, index, id);
    crate::horizontal_scroll::state::law_focus(inserted, s.layout.fresh_pane());
    let t = s.opened(pane, side);
    s.layout.columns.insert_ensures(index, (s.layout.fresh_pane(), id));
    assert forall|i: int| 0 <= i < t.layout.len() && i != index implies
        #[trigger] t.layout.columns[i] == s.layout.columns[if i < index { i } else { i - 1 }] by {
    }
    assert forall|i: int, j: int|
        0 <= i < t.layout.len() && 0 <= j < t.layout.len() && i != j
        implies #[trigger] t.layout.columns[i].1 != #[trigger] t.layout.columns[j].1 by {
        if i == index {
            let jj = if j < index { j } else { j - 1 };
            assert(t.layout.columns[j] == s.layout.columns[jj]);
        } else if j == index {
            let ii = if i < index { i } else { i - 1 };
            assert(t.layout.columns[i] == s.layout.columns[ii]);
        } else {
            let ii = if i < index { i } else { i - 1 };
            let jj = if j < index { j } else { j - 1 };
            assert(t.layout.columns[i] == s.layout.columns[ii]);
            assert(t.layout.columns[j] == s.layout.columns[jj]);
        }
    }
    assert forall|i: int| 0 <= i < t.layout.len() implies #[trigger] t.layout.columns[i].1 < t.next_terminal_id by {
        if i != index {
            let ii = if i < index { i } else { i - 1 };
            assert(t.layout.columns[i] == s.layout.columns[ii]);
        }
    }
}

/// Closing a pane keeps the application well formed.
proof fn lemma_closed_wf(s: AppView, pane: Pane)
    requires
        s.wf(),
        s.layout.contains(pane),
    ensures
        s.closed(pane).wf(),
{
    crate::horizontal_scroll::state::law_close_removes(s.layout, pane);
    let c = s.layout.closed(pane);
    crate::horizontal_scroll::state::law_focus(c, s.layout.close_neighbor(pane)->0);
    let t = s.closed(pane);
    let k = s.layout.index_of(pane);
    s.layout.columns.remove_ensures(k);
    assert forall|i: int| 0 <= i < t.layout.len() implies
        #[trigger] t.layout.columns[i] == s.layout.columns[if i < k { i } else { i + 1 }] by {
    }
    assert forall|i: int, j: int|
        0 <= i < t.layout.len() && 0 <= j < t.layout.len() && i != j
        implies #[trigger] t.layout.columns[i].1 != #[trigger] t.layout.columns[j].1 by {
        let ii = if i < k { i } else { i + 1 };
        let jj = if j < k { j } else { j + 1 };
        assert(t.layout.columns[i] == s.layout.columns[ii]);
        assert(t.layout.columns[j] == s.layout.columns[jj]);
    }
    assert forall|i: int| 0 <= i < t.layout.len() implies #[trigger] t.layout.columns[i].1 < t.next_terminal_id by {
        let ii = if i < k { i } else { i + 1 };
        assert(t.layout.columns[i] == s.layout.columns[ii]);
    }
}

/// Every terminal shows in exactly one pane: looking up the terminal of any
/// pane leads back to that pane.
pub proof fn law_one_pane_per_terminal(s: AppView, i: int)
    requires
        s.wf(),
        0 <= i < s.layout.len(),
    ensures
        s.shows(s.layout.columns[i].1),
        s.pane_showing(s.layout.columns[i].1) == Some(s.layout.columns[i].0),
{
    let id = s.layout.columns[i].1;
    assert(s.shows(id));
    let c = choose|c: int| 0 <= c < s.layout.len() && #[trigger] s.layout.columns[c].1 == id;
    assert(s.layout.columns[c].1 == id);
}

/// A newly opened terminal has a number no pane showed before, it shows in
/// the new pane, that pane is focused, and every terminal shown before is
/// still shown.
pub proof fn law_open_shows_new_terminal(s: AppView, pane: Pane, side: Side, id: u64)
    requires
        s.wf(),
        s.next_terminal_id < u64::MAX,
        s.layout.next_id < usize::MAX,
    ensures
        !s.shows(s.next_terminal_id as u64),
        s.opened(pane, side).pane_showing(s.next_terminal_id as u64) == Some(s.layout.fresh_pane()),
        s.opened(pane, side).layout.focus == Some(s.layout.fresh_pane()),
        s.opened(pane, side).layout.len() == s.layout.len() + 1,
        s.shows(id) ==> s.opened(pane, side).shows(id),
{
    let index = s.open_index(pane, side);
    let new_id = s.next_terminal_id as u64;
    crate::horizontal_scroll::state::law_insert_places_new_pane(s.layout, index, new_id);
    lemma_opened_wf(s, pane, side);
    let t = s.opened(pane, side);
    s.layout.columns.insert_ensures(index, (s.layout.fresh_pane(), new_id));
    if s.shows(new_id) {
        let c = choose|c: int| 0 <= c < s.layout.len() && #[trigger] s.layout.columns[c].1 == new_id;
        assert(s.layout.columns[c].1 < s.next_terminal_id);
    }
    assert(t.layout.columns[index] == (s.layout.fresh_pane(), new_id));
    law_one_pane_per_terminal(t, index);
    if s.shows(id) {
        let c = choose|c: int| 0 <= c < s.layout.len() && #[trigger] s.layout.columns[c].1 == id;
        let cc = if c < index { c } else { c + 1 };
        assert(t.layout.columns[cc] == s.layout.columns[c]);
    }
}

/// Closing a pane stops showing its terminal, focuses the neighbor, and
/// keeps every other terminal shown.
pub proof fn law_close_stops_showing(s: AppView, pane: Pane, id: u64)
    requires
        s.wf(),
        s.layout.contains(pane),
    ensures
        !s.closed(pane).shows(s.layout.columns[s.layout.index_of(pane)].1),
        s.closed(pane).layout.focus == s.layout.close_neighbor(pane),
        s.closed(pane).layout.len() == s.layout.len() - 1,
        id != s.layout.columns[s.layout.index_of(pane)].1 ==> (s.closed(pane).shows(id) <==> s.shows(id)),
{
    let k = s.layout.index_of(pane);
    assert(s.layout.columns[k].0 == pane);
    crate::horizontal_scroll::state::law_close_removes(s.layout, pane);
    let t = s.closed(pane);
    s.layout.columns.remove_ensures(k);
    let gone = s.layout.columns[k].1;
    if t.shows(gone) {
        let c = choose|c: int| 0 <= c < t.layout.len() && #[trigger] t.layout.columns[c].1 == gone;
        let cc = if c < k { c } else { c + 1 };
        assert(t.layout.columns[c] == s.layout.columns[cc]);
    }
    if id != gone {
        if t.shows(id) {
            let c = choose|c: int| 0 <= c < t.layout.len() && #[trigger] t.layout.columns[c].1 == id;
            let cc = if c < k { c } else { c + 1 };
            assert(t.layout.columns[c] == s.layout.columns[cc]);
        }
        if s.shows(id) {
            let c = choose|c: int| 0 <= c < s.layout.len() && #[trigger] s.layout.columns[c].1 == id;
            assert(c != k);
            let cc = if c < k { c } else { c - 1 };
            assert(t.layout.columns[cc] == s.layout.columns[c]);
        }
    }
}

} // verus!
