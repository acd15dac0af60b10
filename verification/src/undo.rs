//! A bounded history of states to go back to.
//!
//! A [`UndoStack`] knows the current state, the states before it and, after going
//! back, the states to go forward to. It keeps no more units and bytes than its
//! [`UndoCap`] allows: the oldest states leave first. Only the latest state to go back
//! to stays in any case, so that undo is never switched off.

use vstd::prelude::*;

use crate::text;

verus! {

/// The number of undo units to keep, unless the user sets one.
pub const DEFAULT_UNDO_COUNT_CAP: usize = 200;

/// The number of bytes to keep, unless the user sets one.
pub const DEFAULT_UNDO_BYTE_CAP: usize = 64 * 1024 * 1024;

/// The coalesce window in milliseconds, unless the user sets one.
pub const DEFAULT_COALESCE_WINDOW_MS: u64 = 500;

/// The bounds of a history.
#[derive(Debug, Clone, Copy, PartialEq, Eq, Structural)]
pub struct UndoCap {
    /// The number of states to go back to.
    pub max_count: usize,
    /// The number of bytes of all states.
    pub max_bytes: usize,
}

impl UndoCap {
    /// Bounds; one of zero gives way to its default.
    pub fn new(max_count: usize, max_bytes: usize) -> (r: Self)
        ensures
            r.max_count == (if max_count == 0 {
                DEFAULT_UNDO_COUNT_CAP
            } else {
                max_count
            }),
            r.max_bytes == (if max_bytes == 0 {
                DEFAULT_UNDO_BYTE_CAP
            } else {
                max_bytes
            }),
    {
        UndoCap {
            max_count: if max_count == 0 {
                DEFAULT_UNDO_COUNT_CAP
            } else {
                max_count
            },
            max_bytes: if max_bytes == 0 {
                DEFAULT_UNDO_BYTE_CAP
            } else {
                max_bytes
            },
        }
    }
}

impl Default for UndoCap {
    fn default() -> (r: Self)
        ensures
            r.max_count == DEFAULT_UNDO_COUNT_CAP,
            r.max_bytes == DEFAULT_UNDO_BYTE_CAP,
    {
        UndoCap { max_count: DEFAULT_UNDO_COUNT_CAP, max_bytes: DEFAULT_UNDO_BYTE_CAP }
    }
}

/// Caret, selection and scroll position, in characters.
#[derive(Debug, Clone, Copy, PartialEq, Eq)]
pub struct CursorState {
    /// The caret.
    pub caret: usize,
    /// The selection from its anchor to its head.
    pub selection: Option<(usize, usize)>,
    /// The bits of the scroll position in pixels.
    pub scroll: u32,
}

impl Default for CursorState {
    fn default() -> (r: Self)
        ensures
            r == (CursorState { caret: 0, selection: None, scroll: 0 }),
    {
        CursorState { caret: 0, selection: None, scroll: 0 }
    }
}

/// A state: the text and the cursor.
#[derive(Debug)]
pub struct UndoEntry {
    pub source_text: String,
    pub cursor: CursorState,
}

/// A state as a mathematical value.
pub struct State {
    pub text: Seq<char>,
    pub cursor: CursorState,
}

impl View for UndoEntry {
    type V = State;

    open spec fn view(&self) -> State {
        State { text: self.source_text@, cursor: self.cursor }
    }
}

impl UndoEntry {
    fn copy(&self) -> (r: Self)
        ensures
            r@ == self@,
    {
        UndoEntry { source_text: self.source_text.clone(), cursor: self.cursor }
    }

    fn bytes(&self) -> (r: usize)
        ensures
            r == text::byte_len(self@.text),
    {
        self.source_text.as_str().as_bytes().len()
    }
}

/// The bytes of some states.
pub open spec fn bytes_of(states: Seq<State>) -> nat
    decreases states.len(),
{
    if states.len() == 0 {
        0
    } else {
        bytes_of(states.drop_last()) + text::byte_len(states.last().text)
    }
}

/// A history as a mathematical value.
pub struct History {
    /// The states to go back to, the oldest first.
    pub past: Seq<State>,
    /// The current state.
    pub current: Option<State>,
    /// The states to go forward to, the nearest last.
    pub future: Seq<State>,
}

/// Whether states are too many or too large for the bounds. A single one never is.
pub open spec fn too_much(past: Seq<State>, cap: UndoCap) -> bool {
    past.len() > 1 && (past.len() > cap.max_count || bytes_of(past) > cap.max_bytes)
}

/// The latest states that fit the bounds.
pub open spec fn trimmed(past: Seq<State>, cap: UndoCap) -> Seq<State>
    decreases past.len(),
{
    if too_much(past, cap) {
        trimmed(past.drop_first(), cap)
    } else {
        past
    }
}

impl History {
    /// The history after recording a new state. A state that extends the unit of the
    /// current one takes its place; another one leaves the current state behind. What
    /// could be gone forward to is lost.
    pub open spec fn recorded(self, state: State, coalesce: bool, cap: UndoCap) -> History {
        let past = if coalesce || self.current is None {
            self.past
        } else {
            self.past.push(self.current->0)
        };
        History {
            past: trimmed(past, cap),
            current: Some(state),
            future: Seq::empty(),
        }
    }

    /// Whether there is a state to go back to.
    pub open spec fn can_undo(self) -> bool {
        self.current is Some && self.past.len() > 0
    }

    /// Whether there is a state to go forward to.
    pub open spec fn can_redo(self) -> bool {
        self.current is Some && self.future.len() > 0
    }

    /// The history after going back.
    pub open spec fn undone(self) -> History {
        History {
            past: self.past.drop_last(),
            current: Some(self.past.last()),
            future: self.future.push(self.current->0),
        }
    }

    /// The history after going forward.
    pub open spec fn redone(self) -> History {
        History {
            past: self.past.push(self.current->0),
            current: Some(self.future.last()),
            future: self.future.drop_last(),
        }
    }

    /// Whether the states to go back to fit the bounds.
    pub open spec fn within(self, cap: UndoCap) -> bool {
        !too_much(self.past, cap)
    }
}

/// States as mathematical values.
pub open spec fn states(entries: Seq<UndoEntry>) -> Seq<State> {
    entries.map_values(|e: UndoEntry| e@)
}

/// A bounded history.
#[derive(Debug)]
pub struct UndoStack {
    pub past: Vec<UndoEntry>,
    pub current: Option<UndoEntry>,
    pub future: Vec<UndoEntry>,
    pub cap: UndoCap,
}

impl View for UndoStack {
    type V = History;

    open spec fn view(&self) -> History {
        History {
            past: states(self.past@),
            current: match self.current {
                Some(e) => Some(e@),
                None => None,
            },
            future: states(self.future@),
        }
    }
}

impl UndoStack {
    /// An empty history with these bounds.
    pub fn with_cap(cap: UndoCap) -> (r: Self)
        ensures
            r.cap == cap,
            r@ == (History { past: Seq::empty(), current: None, future: Seq::empty() }),
    {
        let r = UndoStack { past: Vec::new(), current: None, future: Vec::new(), cap };
        assert(r@.past =~= Seq::empty() && r@.future =~= Seq::empty());
        r
    }

    /// Records a new state. With `coalesce` it extends the unit of the current one.
    pub fn record(&mut self, entry: UndoEntry, coalesce: bool)
        ensures
            final(self).cap == old(self).cap,
            final(self)@ == old(self)@.recorded(entry@, coalesce, old(self).cap),
    {
        let ghost before = self@;
        let ghost state = entry@;
        let mut slot = Some(entry);
        std::mem::swap(&mut slot, &mut self.current);
        let ghost past = if coalesce || before.current is None {
            before.past
        } else {
            before.past.push(before.current->0)
        };
        if let Some(previous) = slot {
            if !coalesce {
                self.past.push(previous);
                assert(states(self.past@) =~= past);
            }
        }
        assert(states(self.past@) == past);
        self.future = Vec::new();
        assert(states(self.future@) =~= Seq::empty());
        self.trim();
    }

    /// Drops the oldest states until the rest fits the bounds.
    fn trim(&mut self)
        ensures
            final(self).cap == old(self).cap,
            final(self).current == old(self).current,
            final(self).future == old(self).future,
            states(final(self).past@) == trimmed(states(old(self).past@), old(self).cap),
    {
        let ghost all = states(self.past@);
        let mut drop: usize = 0;
        let n = self.past.len();
        assert(all.skip(0) =~= all);
        while n - drop > 1 && (n - drop > self.cap.max_count || exceeds(
            &self.past,
            drop,
            self.cap.max_bytes,
        ))
            invariant
                drop <= n,
                n == self.past@.len(),
                all == states(self.past@),
                trimmed(all.skip(drop as int), self.cap) == trimmed(all, self.cap),
                self.cap == old(self).cap,
                self.current == old(self).current,
                self.future == old(self).future,
                self.past == old(self).past,
            decreases n - drop,
        {
            assert(all.skip(drop as int).drop_first() =~= all.skip(drop + 1));
            drop += 1;
        }
        let kept = self.past.split_off(drop);
        self.past = kept;
        assert(states(self.past@) =~= all.skip(drop as int));
    }

    /// Whether there is a state to go back to.
    pub fn can_undo(&self) -> (r: bool)
        ensures
            r == self@.can_undo(),
    {
        self.current.is_some() && self.past.len() > 0
    }

    /// Whether there is a state to go forward to.
    pub fn can_redo(&self) -> (r: bool)
        ensures
            r == self@.can_redo(),
    {
        self.current.is_some() && self.future.len() > 0
    }

    /// Goes back to the state before, if there is one, and gives a copy of it.
    pub fn undo(&mut self) -> (r: Option<UndoEntry>)
        ensures
            final(self).cap == old(self).cap,
            old(self)@.can_undo() ==> final(self)@ == old(self)@.undone(),
            !old(self)@.can_undo() ==> final(self)@ == old(self)@,
            match r {
                Some(e) => old(self)@.can_undo() && final(self)@.current == Some(e@),
                None => !old(self)@.can_undo(),
            },
    {
        let ghost before = self@;
        if !self.can_undo() {
            return None;
        }
        let mut slot: Option<UndoEntry> = None;
        std::mem::swap(&mut slot, &mut self.current);
        if let Some(current) = slot {
            self.future.push(current);
            assert(states(self.future@) =~= before.future.push(before.current->0));
        }
        let last = self.past.pop();
        assert(states(self.past@) =~= before.past.drop_last());
        match last {
            Some(e) => {
                let copy = e.copy();
                self.current = Some(e);
                Some(copy)
            },
            None => None,
        }
    }

    /// Goes forward to the next state, if there is one, and gives a copy of it.
    pub fn redo(&mut self) -> (r: Option<UndoEntry>)
        ensures
            final(self).cap == old(self).cap,
            old(self)@.can_redo() ==> final(self)@ == old(self)@.redone(),
            !old(self)@.can_redo() ==> final(self)@ == old(self)@,
            match r {
                Some(e) => old(self)@.can_redo() && final(self)@.current == Some(e@),
                None => !old(self)@.can_redo(),
            },
    {
        let ghost before = self@;
        if !self.can_redo() {
            return None;
        }
        let mut slot: Option<UndoEntry> = None;
        std::mem::swap(&mut slot, &mut self.current);
        if let Some(current) = slot {
            self.past.push(current);
            assert(states(self.past@) =~= before.past.push(before.current->0));
        }
        let last = self.future.pop();
        assert(states(self.future@) =~= before.future.drop_last());
        match last {
            Some(e) => {
                let copy = e.copy();
                self.current = Some(e);
                Some(copy)
            },
            None => None,
        }
    }

    /// The bounds.
    pub fn cap(&self) -> (r: UndoCap)
        ensures
            r == self.cap,
    {
        self.cap
    }

    /// The bytes of the states to go back and forward to, as far as a number can hold
    /// them.
    pub fn total_bytes(&self) -> (r: usize)
        ensures
            r == (if bytes_of(self@.past) + bytes_of(self@.future) > usize::MAX {
                usize::MAX as nat
            } else {
                bytes_of(self@.past) + bytes_of(self@.future)
            }),
    {
        let past = sum_of_bytes(&self.past, 0);
        sum_of_bytes(&self.future, past)
    }

    /// The number of states to go back to.
    pub fn len(&self) -> (r: usize)
        ensures
            r == self@.past.len(),
    {
        self.past.len()
    }
}

/// The bytes of the entries and `first` more, as far as a number can hold them.
fn sum_of_bytes(entries: &Vec<UndoEntry>, first: usize) -> (r: usize)
    ensures
        r == (if first + bytes_of(states(entries@)) > usize::MAX {
            usize::MAX as nat
        } else {
            first as nat + bytes_of(states(entries@))
        }),
{
    let ghost all = states(entries@);
    let mut sum: usize = first;
    let mut i: usize = 0;
    while i < entries.len()
        invariant
            i <= entries@.len(),
            all == states(entries@),
            sum == (if first + bytes_of(all.take(i as int)) > usize::MAX {
                usize::MAX as nat
            } else {
                first as nat + bytes_of(all.take(i as int))
            }),
        decreases entries@.len() - i,
    {
        assert(all.take(i + 1).drop_last() =~= all.take(i as int));
        assert(all.take(i + 1).last() == entries@[i as int]@);
        let bytes = entries[i].bytes();
        sum = if bytes > usize::MAX - sum {
            usize::MAX
        } else {
            sum + bytes
        };
        i += 1;
    }
    assert(all.take(i as int) =~= all);
    sum
}

/// Whether the entries from `from` on take more than `limit` bytes.
fn exceeds(entries: &Vec<UndoEntry>, from: usize, limit: usize) -> (r: bool)
    requires
        from <= entries@.len(),
    ensures
        r == (bytes_of(states(entries@).skip(from as int)) > limit),
{
    let ghost all = states(entries@);
    let mut left: usize = limit;
    let mut i: usize = from;
    assert(all.subrange(from as int, from as int) =~= Seq::<State>::empty());
    while i < entries.len()
        invariant
            from <= i <= entries@.len(),
            all == states(entries@),
            left == limit - bytes_of(all.subrange(from as int, i as int)),
        decreases entries@.len() - i,
    {
        let ghost part = all.subrange(from as int, i + 1);
        assert(part.drop_last() =~= all.subrange(from as int, i as int));
        assert(part.last() == entries@[i as int]@);
        let bytes = entries[i].bytes();
        if bytes > left {
            proof {
                lemma_bytes_grow(all.skip(from as int), i + 1 - from);
                assert(all.skip(from as int).take(i + 1 - from) =~= part);
            }
            return true;
        }
        left -= bytes;
        i += 1;
    }
    assert(all.subrange(from as int, i as int) =~= all.skip(from as int));
    false
}

proof fn lemma_bytes_grow(list: Seq<State>, n: int)
    requires
        0 <= n <= list.len(),
    ensures
        bytes_of(list.take(n)) <= bytes_of(list),
    decreases list.len() - n,
{
    if n == list.len() {
        assert(list.take(n) =~= list);
    } else {
        lemma_bytes_grow(list, n + 1);
        assert(list.take(n + 1).drop_last() =~= list.take(n));
    }
}

/// Going forward undoes going back.
pub proof fn redo_undoes_undo(history: History)
    requires
        history.can_undo(),
    ensures
        history.undone().can_redo(),
        history.undone().redone() == history,
{
    assert(history.undone().redone().past =~= history.past);
    assert(history.undone().redone().future =~= history.future);
}

/// Going back undoes going forward.
pub proof fn undo_undoes_redo(history: History)
    requires
        history.can_redo(),
    ensures
        history.redone().can_undo(),
        history.redone().undone() == history,
{
    assert(history.redone().undone().past =~= history.past);
    assert(history.redone().undone().future =~= history.future);
}

/// Going back after a new unit was recorded leads to the state before it.
pub proof fn undo_restores_what_was_recorded_over(history: History, state: State, cap: UndoCap)
    requires
        history.current is Some,
    ensures
        history.recorded(state, false, cap).can_undo(),
        history.recorded(state, false, cap).undone().current == history.current,
{
    lemma_trimmed_keeps_last(history.past.push(history.current->0), cap);
}

proof fn lemma_trimmed_keeps_last(past: Seq<State>, cap: UndoCap)
    requires
        past.len() > 0,
    ensures
        trimmed(past, cap).len() > 0,
        trimmed(past, cap).last() == past.last(),
        !too_much(trimmed(past, cap), cap),
    decreases past.len(),
{
    if too_much(past, cap) {
        lemma_trimmed_keeps_last(past.drop_first(), cap);
    }
}

/// What was recorded fits the bounds.
pub proof fn recording_keeps_the_bounds(
    history: History,
    state: State,
    coalesce: bool,
    cap: UndoCap,
)
    ensures
        history.recorded(state, coalesce, cap).within(cap),
{
    let past = if coalesce || history.current is None {
        history.past
    } else {
        history.past.push(history.current->0)
    };
    if past.len() > 0 {
        lemma_trimmed_keeps_last(past, cap);
    }
}

/// A new state takes away what could be gone forward to.
pub proof fn recording_forgets_the_future(
    history: History,
    state: State,
    coalesce: bool,
    cap: UndoCap,
)
    ensures
        !history.recorded(state, coalesce, cap).can_redo(),
{
}

/// The bytes of two lists are those of both together.
pub proof fn bytes_add_up(a: Seq<State>, b: Seq<State>)
    ensures
        bytes_of(a + b) == bytes_of(a) + bytes_of(b),
        a.len() == 1 ==> bytes_of(a) == vstd::utf8::encode_utf8(a[0].text).len(),
    decreases b.len(),
{
    reveal_with_fuel(bytes_of, 2);
    if b.len() == 0 {
        assert(a + b =~= a);
    } else {
        bytes_add_up(a, b.drop_last());
        assert((a + b).drop_last() =~= a + b.drop_last());
    }
}

/// Where a list of states was cut.
proof fn lemma_trimmed_is_a_tail(past: Seq<State>, cap: UndoCap) -> (cut: int)
    ensures
        0 <= cut <= past.len(),
        trimmed(past, cap) == past.skip(cut),
        cut > 0 ==> past.len() - cut >= 1,
        cut > 0 ==> past.len() - cut + 1 > cap.max_count || bytes_of(past.skip(cut - 1))
            > cap.max_bytes,
    decreases past.len(),
{
    if too_much(past, cap) {
        let rest = past.drop_first();
        let cut = lemma_trimmed_is_a_tail(rest, cap);
        assert(rest.skip(cut) =~= past.skip(cut + 1));
        if cut > 0 {
            assert(rest.skip(cut - 1) =~= past.skip(cut));
        } else {
            assert(past.skip(0) =~= past);
        }
        cut + 1
    } else {
        assert(past.skip(0) =~= past);
        0
    }
}

/// The state that was recorded is the current one. Of the states before it the oldest
/// are forgotten, and no more of them than the bounds force: with one state more, the
/// rest would be too many or too large.
pub proof fn only_the_oldest_are_forgotten(
    history: History,
    state: State,
    coalesce: bool,
    cap: UndoCap,
) -> (cut: int)
    ensures
        history.recorded(state, coalesce, cap).current == Some(state),
        coalesce || history.current is None ==> {
            &&& 0 <= cut <= history.past.len()
            &&& history.recorded(state, coalesce, cap).past == history.past.skip(cut)
            &&& cut > 0 ==> history.past.len() - cut >= 1 && (history.past.len() - cut + 1
                > cap.max_count || bytes_of(history.past.skip(cut - 1)) > cap.max_bytes)
        },
        !coalesce && history.current is Some ==> {
            &&& 0 <= cut <= history.past.len()
            &&& history.recorded(state, coalesce, cap).past == history.past.skip(cut).push(
                history.current->0,
            )
            &&& cut > 0 ==> history.past.len() - cut + 2 > cap.max_count || bytes_of(
                history.past.skip(cut - 1).push(history.current->0),
            ) > cap.max_bytes
        },
{
    if coalesce || history.current is None {
        lemma_trimmed_is_a_tail(history.past, cap)
    } else {
        let past = history.past.push(history.current->0);
        let cut = lemma_trimmed_is_a_tail(past, cap);
        lemma_trimmed_keeps_last(past, cap);
        assert(cut <= history.past.len());
        assert(past.skip(cut) =~= history.past.skip(cut).push(history.current->0));
        if cut > 0 {
            assert(past.skip(cut - 1) =~= history.past.skip(cut - 1).push(history.current->0));
        }
        cut
    }
}

/// Going back leads to the state before, whatever extended the current unit.
pub proof fn extending_keeps_where_undo_leads(
    history: History,
    first: State,
    second: State,
    cap: UndoCap,
)
    requires
        history.current is Some,
    ensures
        history.recorded(first, false, cap).recorded(second, true, cap).can_undo(),
        history.recorded(first, false, cap).recorded(second, true, cap).undone().current
            == history.current,
{
    let one = history.recorded(first, false, cap);
    lemma_trimmed_keeps_last(history.past.push(history.current->0), cap);
    assert(one.recorded(second, true, cap).past == one.past);
}

} // verus!
