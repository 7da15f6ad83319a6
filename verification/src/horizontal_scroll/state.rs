//! Layout state of a horizontal strip: the ordered columns, the unique
//! identifier of each, and which one holds focus.
//!
//! The widths of the columns, the gap between them, the viewport and the
//! scroll offset are measured in floating point and are kept beside this
//! state by the view layer.

use vstd::prelude::*;
use iced::widget::Id;

verus! {

/// The identifier of a widget, here the one that names the strip's
/// scrollable. Opaque: it is only ever created and handed on.
#[verifier::external_type_specification]
#[verifier::external_body]
pub struct ExId(Id);

/// Calls `iced::widget::Id::unique`, which hands out a new identifier from
/// a process-wide counter. Nothing is claimed of the result.
#[verifier::external_body]
fn unique_id() -> Id {
    Id::unique()
}

/// Calls the derived `Clone::clone` of `iced::widget::Id`, which copies the
/// identifier's single field (a number, or a name held in a `Cow`), so the
/// copy is claimed to equal the identifier it was made from.
#[verifier::external_body]
fn clone_id(id: &Id) -> (r: Id)
    ensures
        r == *id,
{
    id.clone()
}

/// A unique identifier of a column in a [`State`].
#[derive(Debug, Clone, Copy, PartialEq, Eq, Structural, Hash, PartialOrd, Ord)]
pub struct Pane(usize);

impl Pane {
    /// The number behind the identifier.
    pub closed spec fn id(self) -> nat {
        self.0 as nat
    }
}

/// A state change produced by [`State::click`] that the application may
/// want to react to.
#[derive(Debug, Clone, Copy, PartialEq, Eq, Structural)]
pub enum Action {
    /// Focus moved to the given pane.
    FocusChanged(Pane),
}

/// The mathematical model of a [`State`]: the columns from left to right,
/// each a pane and its content, the focused pane, and the number the next
/// new pane will be given.
#[verifier::ext_equal]
pub struct StateView<T> {
    pub columns: Seq<(Pane, T)>,
    pub focus: Option<Pane>,
    pub next_id: nat,
}

impl<T> StateView<T> {
    /// The number of columns.
    pub open spec fn len(self) -> nat {
        self.columns.len()
    }

    /// Whether some column holds `pane`.
    pub open spec fn contains(self, pane: Pane) -> bool {
        exists|i: int| 0 <= i < self.columns.len() && #[trigger] self.columns[i].0 == pane
    }

    /// The position of `pane` (meaningful when the pane is present).
    pub open spec fn index_of(self, pane: Pane) -> int {
        choose|i: int| 0 <= i < self.columns.len() && #[trigger] self.columns[i].0 == pane
    }

    /// The panes are pairwise distinct, each was numbered below `next_id`,
    /// and a focused pane is one of them.
    pub open spec fn wf(self) -> bool {
        &&& forall|i: int, j: int|
            0 <= i < self.columns.len() && 0 <= j < self.columns.len() && i != j
                ==> #[trigger] self.columns[i].0 != #[trigger] self.columns[j].0
        &&& forall|i: int| 0 <= i < self.columns.len() ==> (#[trigger] self.columns[i].0).id() < self.next_id
        &&& (self.focus matches Some(f) ==> self.contains(f))
    }

    /// The pane that the next insertion creates.
    pub closed spec fn fresh_pane(self) -> Pane {
        Pane(self.next_id as usize)
    }

    /// The state after a new pane holding `content` is placed at position `index`.
    pub open spec fn inserted_at(self, index: int, content: T) -> StateView<T> {
        StateView {
            columns: self.columns.insert(index, (self.fresh_pane(), content)),
            focus: self.focus,
            next_id: self.next_id + 1,
        }
    }

    /// Where a pane inserted to the right of `pane` goes: just after it, or
    /// at the far right when `pane` is not there.
    pub open spec fn right_index(self, pane: Pane) -> int {
        if self.contains(pane) {
            self.index_of(pane) + 1
        } else {
            self.len() as int
        }
    }

    /// Where a pane inserted to the left of `pane` goes: in its place, or at
    /// the far right when `pane` is not there.
    pub open spec fn left_index(self, pane: Pane) -> int {
        if self.contains(pane) {
            self.index_of(pane)
        } else {
            self.len() as int
        }
    }

    /// The state after the content at position `index` is replaced by `content`.
    pub open spec fn with_content(self, index: int, content: T) -> StateView<T> {
        StateView {
            columns: self.columns.update(index, (self.columns[index].0, content)),
            focus: self.focus,
            next_id: self.next_id,
        }
    }

    /// The state after focusing `pane`, which changes only when it is there.
    pub open spec fn focused_on(self, pane: Pane) -> StateView<T> {
        if self.contains(pane) {
            StateView { columns: self.columns, focus: Some(pane), next_id: self.next_id }
        } else {
            self
        }
    }

    /// The columns left once `pane` is removed.
    pub open spec fn columns_without(self, pane: Pane) -> Seq<(Pane, T)> {
        self.columns.remove(self.index_of(pane))
    }

    /// The pane that inherits focus when `pane` closes: the one that moves
    /// into its place, else the last one, else none.
    pub open spec fn close_neighbor(self, pane: Pane) -> Option<Pane> {
        let i = self.index_of(pane);
        let rest = self.columns_without(pane);
        if i < rest.len() {
            Some(rest[i].0)
        } else if rest.len() > 0 {
            Some(rest.last().0)
        } else {
            None
        }
    }

    /// The state after `pane` (present) is closed.
    pub open spec fn closed(self, pane: Pane) -> StateView<T> {
        StateView {
            columns: self.columns_without(pane),
            focus: if self.focus == Some(pane) {
                self.close_neighbor(pane)
            } else {
                self.focus
            },
            next_id: self.next_id,
        }
    }

    /// What a click on `pane` reports: a focus change exactly when the pane
    /// is there and the focus was elsewhere, that is, when focus moves to it.
    pub open spec fn click_action(self, pane: Pane) -> Option<Action> {
        if self.contains(pane) && self.focus != Some(pane) {
            Some(Action::FocusChanged(pane))
        } else {
            None
        }
    }
}

/// The panes and their contents, side by side and of equal length.
struct Columns<T> {
    panes: Vec<Pane>,
    contents: Vec<T>,
}

/// The ordered columns of a horizontal strip, plus focus and the
/// numbering of new panes.
pub struct State<T> {
    columns: Columns<T>,
    focus: Option<Pane>,
    next_id: usize,
    scrollable_id: Id,
}

/// The model of a state with the given fields.
spec fn view_of<T>(panes: Seq<Pane>, contents: Seq<T>, focus: Option<Pane>, next_id: usize) -> StateView<T> {
    StateView {
        columns: Seq::new(panes.len(), |i: int| (panes[i], contents[i])),
        focus: focus,
        next_id: next_id as nat,
    }
}

/// Whether a state has the given model.
spec fn has_view<T>(panes: Seq<Pane>, contents: Seq<T>, v: StateView<T>) -> bool {
    &&& panes.len() == v.columns.len()
    &&& contents.len() == v.columns.len()
    &&& forall|i: int| 0 <= i < v.columns.len() ==> #[trigger] v.columns[i] == (panes[i], contents[i])
}

/// Two pane and content sequences of equal length have the model that
/// matches them position by position.
proof fn lemma_view_of<T>(panes: Seq<Pane>, contents: Seq<T>, focus: Option<Pane>, next_id: usize, v: StateView<T>)
    requires
        has_view(panes, contents, v),
        v.focus == focus,
        v.next_id == next_id,
    ensures
        view_of(panes, contents, focus, next_id) == v,
{
    assert(view_of(panes, contents, focus, next_id).columns =~= v.columns);
}

/// The well-formedness of a state does not depend on the contents of its
/// columns.
proof fn lemma_contents_free<T>(panes: Seq<Pane>, contents: Seq<T>, focus: Option<Pane>, next_id: usize)
    requires
        view_of(panes, contents, focus, next_id).wf(),
        panes.len() == contents.len(),
    ensures
        forall|other: Seq<T>| other.len() == panes.len() ==> #[trigger] view_of(panes, other, focus, next_id).wf(),
{
    let s = view_of(panes, contents, focus, next_id);
    assert forall|other: Seq<T>| other.len() == panes.len() implies #[trigger] view_of(panes, other, focus, next_id).wf() by {
        let t = view_of(panes, other, focus, next_id);
        assert forall|k: int| 0 <= k < t.len() implies #[trigger] t.columns[k].0 == s.columns[k].0 by {}
        if let Some(f) = t.focus {
            let k = s.index_of(f);
            assert(t.columns[k].0 == f);
        }
    }
}

impl<T> State<T> {
    /// A state is always well formed, with as many contents as panes.
    #[verifier::type_invariant]
    spec fn inv(self) -> bool {
        &&& self.columns.panes@.len() == self.columns.contents@.len()
        &&& self@.wf()
    }
}

impl<T> View for State<T> {
    type V = StateView<T>;

    closed spec fn view(&self) -> StateView<T> {
        view_of(self.columns.panes@, self.columns.contents@, self.focus, self.next_id)
    }
}

impl<T> State<T> {
    /// Creates a new [`State`] holding a single, focused pane with the given
    /// content.
    pub fn new(content: T) -> (r: (Self, Pane))
        ensures
            r.0@.wf(),
            r.0@.columns == seq![(r.1, content)],
            r.0@.focus == Some(r.1),
            r.0@.next_id == 1,
            r.1.id() == 0,
    {
        let pane = Pane(0);
        let mut panes: Vec<Pane> = Vec::new();
        panes.push(pane);
        let mut contents: Vec<T> = Vec::new();
        contents.push(content);
        let scrollable_id = unique_id();
        proof {
            let v = view_of(panes@, contents@, Some(pane), 1);
            assert(v.columns =~= seq![(pane, content)]);
            assert(v.columns[0].0 == pane);
        }
        let state = Self { columns: Columns { panes, contents }, focus: Some(pane), next_id: 1, scrollable_id };
        (state, pane)
    }

    /// An empty state without panes or focus, numbering from zero, whose
    /// scrollable is named `id`. It stands in for a state while that state
    /// is moved out to be changed.
    pub(crate) fn empty(id: Id) -> (r: Self)
        ensures
            r@.columns.len() == 0,
            r@.focus is None,
            r@.next_id == 0,
            r@.wf(),
            r.scrollable_id() == id,
    {
        let panes: Vec<Pane> = Vec::new();
        let contents: Vec<T> = Vec::new();
        Self { columns: Columns { panes, contents }, focus: None, next_id: 0, scrollable_id: id }
    }

    /// The identifier of the strip's scrollable, made once by [`State::new`].
    pub closed spec fn scrollable_id(&self) -> Id {
        self.scrollable_id
    }

    /// The identifier of the strip's scrollable.
    pub fn id(&self) -> (r: Id)
        ensures
            r == self.scrollable_id(),
            self@.wf(),
    {
        proof {
            use_type_invariant(self);
        }
        clone_id(&self.scrollable_id)
    }

    /// The number of panes.
    pub fn len(&self) -> (r: usize)
        ensures
            r == self@.len(),
            self@.wf(),
    {
        proof {
            use_type_invariant(self);
        }
        self.columns.panes.len()
    }

    /// Whether there are no panes.
    pub fn is_empty(&self) -> (r: bool)
        ensures
            r == (self@.len() == 0),
            self@.wf(),
    {
        proof {
            use_type_invariant(self);
        }
        self.columns.panes.len() == 0
    }

    /// Whether a new pane can still be numbered: the numbering stops one short
    /// of the largest `usize`.
    pub fn can_insert(&self) -> (r: bool)
        ensures
            r == (self@.next_id < usize::MAX),
            self@.wf(),
    {
        proof {
            use_type_invariant(self);
        }
        self.next_id < usize::MAX
    }

    /// The focused pane, if any.
    pub fn focused(&self) -> (r: Option<Pane>)
        ensures
            r == self@.focus,
            self@.wf(),
    {
        proof {
            use_type_invariant(self);
        }
        self.focus
    }

    /// The position of `pane`, if it is there.
    fn index_of(&self, pane: Pane) -> (r: Option<usize>)
        ensures
            match r {
                Some(i) => self@.contains(pane) && i == self@.index_of(pane) && i < self@.len(),
                None => !self@.contains(pane),
            },
    {
        proof {
            use_type_invariant(self);
        }
        let mut i: usize = 0;
        while i < self.columns.panes.len()
            invariant
                0 <= i <= self.columns.panes.len(),
                self.columns.panes@.len() == self@.len(),
                self@.wf(),
                forall|j: int| 0 <= j < i ==> self@.columns[j].0 != pane,
            decreases self.columns.panes.len() - i,
        {
            if self.columns.panes[i] == pane {
                assert(self@.columns[i as int].0 == pane);
                assert(self@.contains(pane));
                let ghost k = self@.index_of(pane);
                assert(self@.columns[k].0 == pane);
                return Some(i);
            }
            assert(self@.columns[i as int].0 != pane);
            i += 1;
        }
        None
    }

    /// Focuses the given pane, if it exists.
    pub fn focus(&mut self, pane: Pane)
        ensures
            final(self)@ == old(self)@.focused_on(pane),
            final(self)@.wf(),
            final(self).scrollable_id() == old(self).scrollable_id(),
    {
        proof {
            use_type_invariant(&*self);
        }
        let found = self.index_of(pane);
        if found.is_some() {
            assert(view_of(self.columns.panes@, self.columns.contents@, Some(pane), self.next_id)
                == self@.focused_on(pane));
            self.focus = Some(pane);
        }
    }

    /// The content of the given pane, if it exists.
    pub fn get(&self, pane: Pane) -> (r: Option<&T>)
        ensures
            r.is_some() == self@.contains(pane),
            r matches Some(x) ==> *x == self@.columns[self@.index_of(pane)].1,
            self@.wf(),
    {
        proof {
            use_type_invariant(self);
        }
        match self.index_of(pane) {
            Some(i) => Some(&self.columns.contents[i]),
            None => None,
        }
    }

    /// The content of the given pane, for change in place, if it exists.
    pub fn get_mut(&mut self, pane: Pane) -> (r: Option<&mut T>)
        ensures
            r.is_some() == old(self)@.contains(pane),
            r is None ==> final(self)@ == old(self)@,
            final(self)@.wf(),
            final(self).scrollable_id() == old(self).scrollable_id(),
            r matches Some(x) ==> {
                &&& *x == old(self)@.columns[old(self)@.index_of(pane)].1
                &&& final(self)@ =~= old(self)@.with_content(old(self)@.index_of(pane), *final(x))
            },
    {
        proof {
            use_type_invariant(&*self);
        }
        match self.index_of(pane) {
            Some(i) => {
                proof {
                    lemma_replaced_content_wf(self@, i as int);
                    lemma_contents_free(self.columns.panes@, self.columns.contents@, self.focus, self.next_id);
                }
                Some(&mut self.columns.contents[i])
            },
            None => None,
        }
    }

    /// The panes and their contents, in left-to-right order.
    pub fn iter(&self) -> (r: Vec<(Pane, &T)>)
        ensures
            r@.len() == self@.len(),
            forall|i: int| #![trigger r@[i]] 0 <= i < r@.len() ==> r@[i].0 == self@.columns[i].0 && *r@[i].1 == self@.columns[i].1,
            self@.wf(),
    {
        proof {
            use_type_invariant(self);
        }
        let mut out: Vec<(Pane, &T)> = Vec::new();
        let mut i: usize = 0;
        while i < self.columns.panes.len()
            invariant
                0 <= i <= self.columns.panes.len(),
                self.columns.panes@.len() == self.columns.contents@.len(),
                self.columns.panes@.len() == self@.len(),
                out@.len() == i,
                forall|j: int| #![trigger out@[j]] 0 <= j < i ==> out@[j].0 == self@.columns[j].0 && *out@[j].1 == self@.columns[j].1,
            decreases self.columns.panes.len() - i,
        {
            out.push((self.columns.panes[i], &self.columns.contents[i]));
            i += 1;
        }
        out
    }

    /// Places a new pane holding `content` at position `index`.
    fn insert_at(&mut self, index: usize, content: T) -> (r: Pane)
        requires
            index <= old(self)@.len(),
            old(self)@.next_id < usize::MAX,
        ensures
            final(self)@ == old(self)@.inserted_at(index as int, content),
            final(self)@.columns == old(self)@.columns.insert(index as int, (r, content)),
            final(self)@.focus == old(self)@.focus,
            final(self)@.next_id == old(self)@.next_id + 1,
            r == old(self)@.fresh_pane(),
            final(self)@.wf(),
            final(self).scrollable_id() == old(self).scrollable_id(),
    {
        proof {
            use_type_invariant(&*self);
        }
        let ghost before = self@;
        let pane = Pane(self.next_id);
        // The columns are taken out while they change; focus is cleared
        // meanwhile so that the state stays well formed at every step.
        let focus = self.focus;
        self.focus = None;
        self.next_id += 1;
        let mut columns = Columns { panes: Vec::new(), contents: Vec::new() };
        assert(view_of(columns.panes@, columns.contents@, None, self.next_id).columns =~= Seq::empty());
        std::mem::swap(&mut columns, &mut self.columns);
        columns.panes.insert(index, pane);
        columns.contents.insert(index, content);
        proof {
            before.columns.insert_ensures(index as int, (pane, content));
            lemma_inserted_wf(before, index as int, content);
            let after = before.inserted_at(index as int, content);
            lemma_view_of(columns.panes@, columns.contents@, focus, self.next_id, after);
            let cleared = StateView { columns: after.columns, focus: None, next_id: after.next_id };
            lemma_view_of(columns.panes@, columns.contents@, None, self.next_id, cleared);
        }
        self.columns = columns;
        self.focus = focus;
        pane
    }

    /// Inserts a new pane immediately to the right of `pane` and returns its
    /// id. Appends at the far right if `pane` no longer exists.
    pub fn insert_right_of(&mut self, pane: Pane, content: T) -> (r: Pane)
        requires
            old(self)@.next_id < usize::MAX,
        ensures
            final(self)@ == old(self)@.inserted_at(old(self)@.right_index(pane), content),
            final(self)@.focus == old(self)@.focus,
            final(self)@.next_id == old(self)@.next_id + 1,
            old(self)@.contains(pane) ==> {
                &&& final(self)@.columns[old(self)@.index_of(pane)].0 == pane
                &&& final(self)@.columns[old(self)@.index_of(pane) + 1] == (r, content)
                &&& final(self)@.columns.remove(old(self)@.index_of(pane) + 1) == old(self)@.columns
            },
            !old(self)@.contains(pane) ==> final(self)@.columns == old(self)@.columns.push((r, content)),
            r == old(self)@.fresh_pane(),
            r.id() == old(self)@.next_id,
            !old(self)@.contains(r),
            final(self)@.wf(),
            final(self).scrollable_id() == old(self).scrollable_id(),
    {
        proof {
            use_type_invariant(&*self);
            lemma_fresh_pane_is_new(self@);
        }
        let len = self.columns.panes.len();
        let index = match self.index_of(pane) {
            Some(index) => {
                assert(self@.len() == len);
                index + 1
            },
            None => len,
        };
        let ghost before = self@;
        let r = self.insert_at(index, content);
        proof {
            lemma_insert_position_facts(before, index as int, r, content);
        }
        r
    }

    /// Inserts a new pane immediately to the left of `pane` and returns its
    /// id. Appends at the far right if `pane` no longer exists.
    pub fn insert_left_of(&mut self, pane: Pane, content: T) -> (r: Pane)
        requires
            old(self)@.next_id < usize::MAX,
        ensures
            final(self)@ == old(self)@.inserted_at(old(self)@.left_index(pane), content),
            final(self)@.focus == old(self)@.focus,
            final(self)@.next_id == old(self)@.next_id + 1,
            old(self)@.contains(pane) ==> {
                &&& final(self)@.columns[old(self)@.index_of(pane)] == (r, content)
                &&& final(self)@.columns[old(self)@.index_of(pane) + 1].0 == pane
                &&& final(self)@.columns.remove(old(self)@.index_of(pane)) == old(self)@.columns
            },
            !old(self)@.contains(pane) ==> final(self)@.columns == old(self)@.columns.push((r, content)),
            r == old(self)@.fresh_pane(),
            r.id() == old(self)@.next_id,
            !old(self)@.contains(r),
            final(self)@.wf(),
            final(self).scrollable_id() == old(self).scrollable_id(),
    {
        proof {
            use_type_invariant(&*self);
            lemma_fresh_pane_is_new(self@);
        }
        let index = match self.index_of(pane) {
            Some(index) => index,
            None => self.columns.panes.len(),
        };
        let ghost before = self@;
        let r = self.insert_at(index, content);
        proof {
            lemma_insert_position_facts(before, index as int, r, content);
        }
        r
    }

    /// Appends a new pane at the far right and returns its id.
    pub fn push(&mut self, content: T) -> (r: Pane)
        requires
            old(self)@.next_id < usize::MAX,
        ensures
            final(self)@ == old(self)@.inserted_at(old(self)@.len() as int, content),
            final(self)@.focus == old(self)@.focus,
            final(self)@.next_id == old(self)@.next_id + 1,
            final(self)@.columns == old(self)@.columns.push((r, content)),
            r == old(self)@.fresh_pane(),
            r.id() == old(self)@.next_id,
            !old(self)@.contains(r),
            final(self)@.wf(),
            final(self).scrollable_id() == old(self).scrollable_id(),
    {
        proof {
            use_type_invariant(&*self);
            lemma_fresh_pane_is_new(self@);
        }
        let index = self.columns.panes.len();
        let ghost before = self@;
        let r = self.insert_at(index, content);
        proof {
            lemma_insert_position_facts(before, index as int, r, content);
        }
        r
    }

    /// Closes the given pane, returning its content and the neighboring
    /// pane that inherits focus (`None` if it was the last pane). Returns
    /// `None`, and changes nothing, if the pane does not exist.
    pub fn close(&mut self, pane: Pane) -> (r: Option<(T, Option<Pane>)>)
        ensures
            old(self)@.contains(pane) ==> r == Some(
                (old(self)@.columns[old(self)@.index_of(pane)].1, old(self)@.close_neighbor(pane)),
            ) && final(self)@ == old(self)@.closed(pane),
            !old(self)@.contains(pane) ==> r is None && final(self)@ == old(self)@,
            final(self)@.wf(),
            final(self).scrollable_id() == old(self).scrollable_id(),
    {
        proof {
            use_type_invariant(&*self);
        }
        let ghost before = self@;
        let index = match self.index_of(pane) {
            Some(index) => index,
            None => return None,
        };
        // The columns are taken out while they change; focus is cleared
        // meanwhile so that the state stays well formed at every step.
        let focus = self.focus;
        self.focus = None;
        let mut columns = Columns { panes: Vec::new(), contents: Vec::new() };
        assert(view_of(columns.panes@, columns.contents@, None, self.next_id).columns =~= Seq::empty());
        std::mem::swap(&mut columns, &mut self.columns);
        columns.panes.remove(index);
        let content = columns.contents.remove(index);
        let len = columns.panes.len();
        let neighbor = if index < len {
            Some(columns.panes[index])
        } else if len > 0 {
            Some(columns.panes[len - 1])
        } else {
            None
        };
        let was_focused = match focus {
            Some(focused) => focused == pane,
            None => false,
        };
        let new_focus = if was_focused {
            neighbor
        } else {
            focus
        };
        proof {
            before.columns.remove_ensures(index as int);
            lemma_closed_wf(before, pane);
            let after = before.closed(pane);
            assert(has_view(columns.panes@, columns.contents@, after));
            lemma_view_of(columns.panes@, columns.contents@, new_focus, self.next_id, after);
            let cleared = StateView { columns: after.columns, focus: None, next_id: after.next_id };
            lemma_view_of(columns.panes@, columns.contents@, None, self.next_id, cleared);
        }
        self.columns = columns;
        self.focus = new_focus;
        Some((content, neighbor))
    }

    /// Handles a click on `pane`: focuses it if it exists, and reports a
    /// focus change when focus has moved to it.
    pub fn click(&mut self, pane: Pane) -> (r: Option<Action>)
        ensures
            r == old(self)@.click_action(pane),
            final(self)@ == old(self)@.focused_on(pane),
            final(self)@.wf(),
            final(self).scrollable_id() == old(self).scrollable_id(),
    {
        proof {
            use_type_invariant(&*self);
        }
        let changed = match self.focus {
            Some(focused) => focused != pane,
            None => true,
        };
        match self.index_of(pane) {
            Some(_) => {
                assert(view_of(self.columns.panes@, self.columns.contents@, Some(pane), self.next_id)
                    == self@.focused_on(pane));
                self.focus = Some(pane);
                if changed {
                    Some(Action::FocusChanged(pane))
                } else {
                    None
                }
            },
            None => None,
        }
    }
}

/// Where a column is inserted, what is around it, and that taking it out
/// again gives back the old columns.
proof fn lemma_insert_position_facts<T>(s: StateView<T>, index: int, pane: Pane, content: T)
    requires
        s.wf(),
        0 <= index <= s.len(),
    ensures
        s.columns.insert(index, (pane, content))[index] == (pane, content),
        index > 0 ==> s.columns.insert(index, (pane, content))[index - 1] == s.columns[index - 1],
        index < s.len() ==> s.columns.insert(index, (pane, content))[index + 1] == s.columns[index],
        s.columns.insert(index, (pane, content)).remove(index) == s.columns,
        index == s.len() ==> s.columns.insert(index, (pane, content)) == s.columns.push((pane, content)),
        s.contains(s.columns[index - 1].0) && index > 0 ==> s.index_of(s.columns[index - 1].0) == index - 1,
        index < s.len() ==> s.index_of(s.columns[index].0) == index,
{
    s.columns.insert_ensures(index, (pane, content));
    assert(s.columns.insert(index, (pane, content)).remove(index) =~= s.columns);
    if index == s.len() {
        assert(s.columns.insert(index, (pane, content)) =~= s.columns.push((pane, content)));
    }
    if index > 0 {
        lemma_index_of_unique(s, s.columns[index - 1].0, index - 1);
    }
    if index < s.len() {
        lemma_index_of_unique(s, s.columns[index].0, index);
    }
}

/// A pane that has just been inserted is new.
proof fn lemma_fresh_pane_is_new<T>(s: StateView<T>)
    requires
        s.wf(),
        s.next_id < usize::MAX,
    ensures
        !s.contains(s.fresh_pane()),
        s.fresh_pane().id() == s.next_id,
{
    if s.contains(s.fresh_pane()) {
        let i = s.index_of(s.fresh_pane());
        assert(s.columns[i].0.id() < s.next_id);
    }
}

/// Inserting a pane keeps a state well formed.
proof fn lemma_inserted_wf<T>(s: StateView<T>, index: int, content: T)
    requires
        s.wf(),
        0 <= index <= s.len(),
        s.next_id < usize::MAX,
    ensures
        s.inserted_at(index, content).wf(),
{
    let t = s.inserted_at(index, content);
    let p = s.fresh_pane();
    lemma_fresh_pane_is_new(s);
    s.columns.insert_ensures(index, (p, content));
    // Index in `t` to index in `s`.
    assert forall|i: int| 0 <= i < t.len() && i != index implies
        #[trigger] t.columns[i] == s.columns[if i < index { i } else { i - 1 }] by {
    }
    assert forall|i: int, j: int|
        0 <= i < t.len() && 0 <= j < t.len() && i != j
        implies #[trigger] t.columns[i].0 != #[trigger] t.columns[j].0 by {
        if i == index {
            let jj = if j < index { j } else { j - 1 };
            assert(t.columns[j] == s.columns[jj]);
            assert(s.columns[jj].0.id() < s.next_id);
        } else if j == index {
            let ii = if i < index { i } else { i - 1 };
            assert(t.columns[i] == s.columns[ii]);
            assert(s.columns[ii].0.id() < s.next_id);
        } else {
            let ii = if i < index { i } else { i - 1 };
            let jj = if j < index { j } else { j - 1 };
            assert(t.columns[i] == s.columns[ii]);
            assert(t.columns[j] == s.columns[jj]);
        }
    }
    assert forall|i: int| 0 <= i < t.len() implies (#[trigger] t.columns[i].0).id() < t.next_id by {
        if i != index {
            let ii = if i < index { i } else { i - 1 };
            assert(t.columns[i] == s.columns[ii]);
        }
    }
    if let Some(f) = t.focus {
        let k = s.index_of(f);
        let kk = if k < index { k } else { k + 1 };
        assert(t.columns[kk] == s.columns[k]);
    }
}

/// Replacing the content of a column keeps a state well formed.
proof fn lemma_replaced_content_wf<T>(s: StateView<T>, index: int)
    requires
        s.wf(),
        0 <= index < s.len(),
    ensures
        forall|c: T| #[trigger] s.with_content(index, c).wf(),
        forall|t: StateView<T>, c: T|
            #![trigger t.wf(), s.with_content(index, c)]
            t =~= s.with_content(index, c) ==> t.wf(),
{
    assert forall|c: T| #[trigger] s.with_content(index, c).wf() by {
        let t = s.with_content(index, c);
        assert forall|i: int| 0 <= i < t.len() implies #[trigger] t.columns[i].0 == s.columns[i].0 by {}
        if let Some(f) = t.focus {
            let k = s.index_of(f);
            assert(t.columns[k].0 == f);
        }
    }
}

/// Closing a pane keeps a state well formed, and hands focus to a pane
/// that is still there.
proof fn lemma_closed_wf<T>(s: StateView<T>, pane: Pane)
    requires
        s.wf(),
        s.contains(pane),
    ensures
        s.closed(pane).wf(),
        s.close_neighbor(pane) matches Some(n) ==> s.closed(pane).contains(n),
        s.close_neighbor(pane) is None ==> s.closed(pane).len() == 0,
        s.closed(pane).len() == s.len() - 1,
{
    let t = s.closed(pane);
    let k = s.index_of(pane);
    s.columns.remove_ensures(k);
    assert forall|i: int| 0 <= i < t.len() implies
        #[trigger] t.columns[i] == s.columns[if i < k { i } else { i + 1 }] by {
    }
    assert forall|i: int, j: int|
        0 <= i < t.len() && 0 <= j < t.len() && i != j
        implies #[trigger] t.columns[i].0 != #[trigger] t.columns[j].0 by {
        let ii = if i < k { i } else { i + 1 };
        let jj = if j < k { j } else { j + 1 };
        assert(t.columns[i] == s.columns[ii]);
        assert(t.columns[j] == s.columns[jj]);
    }
    assert forall|i: int| 0 <= i < t.len() implies (#[trigger] t.columns[i].0).id() < t.next_id by {
        let ii = if i < k { i } else { i + 1 };
        assert(t.columns[i] == s.columns[ii]);
    }
    let rest = s.columns_without(pane);
    if k < rest.len() {
        assert(t.columns[k].0 == rest[k].0);
    } else if rest.len() > 0 {
        assert(t.columns[rest.len() - 1].0 == rest.last().0);
    }
    if let Some(f) = s.focus {
        if f != pane {
            let m = s.index_of(f);
            assert(m != k);
            let mm = if m < k { m } else { m - 1 };
            assert(t.columns[mm] == s.columns[m]);
        }
    }
}

/// In a well-formed state a pane sits at exactly one position.
proof fn lemma_index_of_unique<T>(s: StateView<T>, pane: Pane, i: int)
    requires
        s.wf(),
        0 <= i < s.len(),
        s.columns[i].0 == pane,
    ensures
        s.contains(pane),
        s.index_of(pane) == i,
{
    assert(s.contains(pane));
    let k = s.index_of(pane);
    assert(s.columns[k].0 == pane);
}

/// A new pane is placed exactly where asked, holding the given content, and
/// every other column keeps its relative order: taking the new column out
/// again gives back the old columns. The panes stay pairwise distinct, and
/// the new one differs from every pane handed out before, closed ones
/// included (each numbered below `next_id`).
pub proof fn law_insert_places_new_pane<T>(s: StateView<T>, index: int, content: T)
    requires
        s.wf(),
        0 <= index <= s.len(),
        s.next_id < usize::MAX,
    ensures
        s.inserted_at(index, content).wf(),
        !s.contains(s.fresh_pane()),
        s.inserted_at(index, content).contains(s.fresh_pane()),
        s.inserted_at(index, content).index_of(s.fresh_pane()) == index,
        s.inserted_at(index, content).columns[index] == (s.fresh_pane(), content),
        s.inserted_at(index, content).columns.remove(index) == s.columns,
        s.inserted_at(index, content).len() == s.len() + 1,
        forall|earlier: Pane| earlier.id() < s.next_id ==> #[trigger] s.fresh_pane() != earlier,
{
    let t = s.inserted_at(index, content);
    lemma_inserted_wf(s, index, content);
    lemma_fresh_pane_is_new(s);
    s.columns.insert_ensures(index, (s.fresh_pane(), content));
    lemma_index_of_unique(t, s.fresh_pane(), index);
    assert(t.columns.remove(index) =~= s.columns);
}

/// Inserting a pane, wherever it goes, leaves the focus where it was and
/// raises the numbering by one.
pub proof fn law_insert_keeps_focus<T>(s: StateView<T>, pane: Pane, index: int, content: T)
    requires
        s.wf(),
        0 <= index <= s.len(),
    ensures
        s.inserted_at(index, content).focus == s.focus,
        s.inserted_at(s.right_index(pane), content).focus == s.focus,
        s.inserted_at(s.left_index(pane), content).focus == s.focus,
        s.inserted_at(index, content).next_id == s.next_id + 1,
{
}

/// Inserting to the right of a pane that is there puts the new pane
/// immediately after it; to the left, immediately before it.
pub proof fn law_insert_next_to<T>(s: StateView<T>, pane: Pane, content: T)
    requires
        s.wf(),
        s.contains(pane),
        s.next_id < usize::MAX,
    ensures
        s.inserted_at(s.right_index(pane), content).columns[s.index_of(pane)].0 == pane,
        s.inserted_at(s.right_index(pane), content).columns[s.index_of(pane) + 1]
            == (s.fresh_pane(), content),
        s.inserted_at(s.left_index(pane), content).columns[s.index_of(pane)]
            == (s.fresh_pane(), content),
        s.inserted_at(s.left_index(pane), content).columns[s.index_of(pane) + 1].0 == pane,
{
    let k = s.index_of(pane);
    assert(s.columns[k].0 == pane);
    s.columns.insert_ensures(k + 1, (s.fresh_pane(), content));
    s.columns.insert_ensures(k, (s.fresh_pane(), content));
}

/// Inserting next to a pane that is not there appends at the far right.
pub proof fn law_insert_next_to_missing_appends<T>(s: StateView<T>, pane: Pane, content: T)
    requires
        s.wf(),
        !s.contains(pane),
    ensures
        s.inserted_at(s.right_index(pane), content).columns == s.columns.push((s.fresh_pane(), content)),
        s.inserted_at(s.left_index(pane), content).columns == s.columns.push((s.fresh_pane(), content)),
{
    assert(s.columns.insert(s.len() as int, (s.fresh_pane(), content)) =~= s.columns.push((s.fresh_pane(), content)));
}

/// Closing a pane right after inserting it gives back its content and the
/// columns as they were; focus is as before, and the identifier stays used.
pub proof fn law_close_undoes_insert<T>(s: StateView<T>, index: int, content: T)
    requires
        s.wf(),
        0 <= index <= s.len(),
        s.next_id < usize::MAX,
    ensures
        s.inserted_at(index, content).contains(s.fresh_pane()),
        s.inserted_at(index, content).columns[s.inserted_at(index, content).index_of(s.fresh_pane())].1 == content,
        s.inserted_at(index, content).closed(s.fresh_pane()).columns == s.columns,
        s.inserted_at(index, content).closed(s.fresh_pane()).focus == s.focus,
        s.inserted_at(index, content).closed(s.fresh_pane()).next_id == s.next_id + 1,
{
    law_insert_places_new_pane(s, index, content);
    lemma_fresh_pane_is_new(s);
    if s.focus == Some(s.fresh_pane()) {
        assert(s.contains(s.fresh_pane()));
    }
}

/// The pane that inherits focus from a closed pane is its right-hand
/// neighbor, or its left-hand one when it was the rightmost, and there is
/// none exactly when it was the only pane.
pub proof fn law_close_neighbor<T>(s: StateView<T>, pane: Pane)
    requires
        s.wf(),
        s.contains(pane),
    ensures
        s.close_neighbor(pane) == (if s.index_of(pane) + 1 < s.len() {
            Some(s.columns[s.index_of(pane) + 1].0)
        } else if s.index_of(pane) > 0 {
            Some(s.columns[s.index_of(pane) - 1].0)
        } else {
            None::<Pane>
        }),
        s.close_neighbor(pane) is None <==> s.len() == 1,
        s.close_neighbor(pane) != Some(pane),
{
    let k = s.index_of(pane);
    assert(s.columns[k].0 == pane);
    s.columns.remove_ensures(k);
    lemma_closed_wf(s, pane);
    if let Some(n) = s.close_neighbor(pane) {
        let rest = s.columns_without(pane);
        if k < rest.len() {
            assert(rest[k] == s.columns[k + 1]);
        } else {
            assert(rest.last() == s.columns[k - 1]);
        }
    }
}

/// Closing removes exactly the given pane: the others stay, in order, the
/// closed pane is gone, and focus moves to the neighbor only when the
/// closed pane held it.
pub proof fn law_close_removes<T>(s: StateView<T>, pane: Pane)
    requires
        s.wf(),
        s.contains(pane),
    ensures
        s.closed(pane).wf(),
        !s.closed(pane).contains(pane),
        s.closed(pane).len() == s.len() - 1,
        s.closed(pane).columns == s.columns.remove(s.index_of(pane)),
        forall|q: Pane| q != pane ==> (s.closed(pane).contains(q) <==> s.contains(q)),
        s.focus == Some(pane) ==> s.closed(pane).focus == s.close_neighbor(pane),
        s.focus != Some(pane) ==> s.closed(pane).focus == s.focus,
        s.close_neighbor(pane) matches Some(n) ==> s.closed(pane).contains(n),
{
    let t = s.closed(pane);
    let k = s.index_of(pane);
    assert(s.columns[k].0 == pane);
    s.columns.remove_ensures(k);
    lemma_closed_wf(s, pane);
    if t.contains(pane) {
        let i = t.index_of(pane);
        let ii = if i < k { i } else { i + 1 };
        assert(t.columns[i] == s.columns[ii]);
    }
    assert forall|q: Pane| q != pane implies (s.closed(pane).contains(q) <==> s.contains(q)) by {
        if t.contains(q) {
            let i = t.index_of(q);
            let ii = if i < k { i } else { i + 1 };
            assert(t.columns[i] == s.columns[ii]);
        }
        if s.contains(q) {
            let i = s.index_of(q);
            assert(i != k);
            let ii = if i < k { i } else { i - 1 };
            assert(t.columns[ii] == s.columns[i]);
        }
    }
}

/// A pane is its number: two panes with the same number are the same pane.
pub proof fn law_pane_identity(p: Pane, q: Pane)
    ensures
        p.id() == q.id() <==> p == q,
{
}

/// The next new pane is numbered `next_id`.
pub proof fn law_fresh_pane_number<T>(s: StateView<T>)
    requires
        s.next_id < usize::MAX,
    ensures
        s.fresh_pane().id() == s.next_id,
{
}

/// Identifiers are never handed out twice. Every pane a state has handed
/// out is numbered below its `next_id` (the panes there now by `wf`, each new
/// pane by `law_fresh_pane_number`); no operation lowers `next_id`, and each
/// insertion raises it; so the next new pane differs from every pane handed
/// out before, closed ones included.
pub proof fn law_identifiers_never_reused<T>(s: StateView<T>, earlier: Pane)
    requires
        s.wf(),
        s.next_id < usize::MAX,
        earlier.id() < s.next_id,
    ensures
        s.fresh_pane() != earlier,
        forall|i: int| 0 <= i < s.len() ==> (#[trigger] s.columns[i].0).id() < s.next_id,
        forall|index: int, content: T| #[trigger] s.inserted_at(index, content).next_id == s.next_id + 1,
        forall|pane: Pane| #[trigger] s.focused_on(pane).next_id == s.next_id,
        forall|pane: Pane| #[trigger] s.closed(pane).next_id == s.next_id,
        forall|index: int, content: T| #[trigger] s.with_content(index, content).next_id == s.next_id,
{
}

/// Focusing a pane that is there makes it the focused pane; focusing one
/// that is not there changes nothing. The columns never change.
pub proof fn law_focus<T>(s: StateView<T>, pane: Pane)
    requires
        s.wf(),
    ensures
        s.focused_on(pane).wf(),
        s.focused_on(pane).columns == s.columns,
        s.contains(pane) ==> s.focused_on(pane).focus == Some(pane),
        !s.contains(pane) ==> s.focused_on(pane) == s,
        s.focused_on(pane).focused_on(pane) == s.focused_on(pane),
{
}

/// A click reports a focus change exactly when focus moves: a click on the
/// focused pane, or on a pane that is not there, reports nothing and changes
/// nothing; a click on any other pane focuses it and reports the change.
pub proof fn law_click<T>(s: StateView<T>, pane: Pane)
    requires
        s.wf(),
    ensures
        s.focus == Some(pane) ==> s.click_action(pane) is None && s.focused_on(pane) == s,
        !s.contains(pane) ==> s.click_action(pane) is None && s.focused_on(pane) == s,
        s.focus != Some(pane) && s.contains(pane) ==> s.click_action(pane) == Some(Action::FocusChanged(pane))
            && s.focused_on(pane).focus == Some(pane),
        s.click_action(pane) is Some <==> s.focused_on(pane).focus != s.focus,
{
}

} // verus!
