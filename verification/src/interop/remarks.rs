//! What a reconstruction remarks and reports.
//!
//! Without a type some JSON stands for more than one RON value, and some is nested too
//! deeply to be rebuilt. The user is told of each.

use vstd::prelude::*;

use crate::interop::comments::CommentModel;
use crate::interop::json::JsonModel;
use crate::interop::json_to_ron::{self, Emission, EntryTypes, ItemTypes, KeyStyle, Note, MAX_JSON_DEPTH};
use crate::interop::pointer;
use crate::types::TypeModel;

verus! {

/// Every remark is given, and none is taken back.
pub proof fn remarks_are_all_given(list: Seq<Seq<char>>, notes: Seq<Note>)
    ensures
        forall|i: int|
            0 <= i < list.len() ==> json_to_ron::with_notes(list, notes).contains(#[trigger] list[i]),
        forall|i: int|
            0 <= i < notes.len() ==> json_to_ron::with_notes(list, notes).contains(
                (#[trigger] notes[i]).text,
            ),
    decreases notes.len(),
{
    let all = json_to_ron::with_notes(list, notes);
    if notes.len() == 0 {
        assert forall|i: int| 0 <= i < list.len() implies all.contains(#[trigger] list[i]) by {}
    } else {
        let less = notes.drop_last();
        let before = json_to_ron::with_notes(list, less);
        remarks_are_all_given(list, less);
        assert forall|t: Seq<char>| #[trigger] before.contains(t) implies all.contains(t) by {
            let k = before.index_of(t);
            assert(before[k] == t);
            assert(all[k] == t);
        }
        assert(all.contains(notes.last().text)) by {
            if !(notes.last().once && before.contains(notes.last().text)) {
                assert(all[all.len() - 1] == notes.last().text);
            }
        }
        assert forall|i: int| 0 <= i < notes.len() implies all.contains(
            (#[trigger] notes[i]).text,
        ) by {
            if i < less.len() {
                assert(before.contains(less[i].text));
            }
        }
    }
}

/// A remark that is given once is not repeated.
pub proof fn remarks_are_not_repeated(list: Seq<Seq<char>>, notes: Seq<Note>)
    requires
        forall|i: int| 0 <= i < notes.len() ==> (#[trigger] notes[i]).once,
        forall|i: int, j: int|
            0 <= i < j < list.len() ==> (#[trigger] list[i]) != (#[trigger] list[j]),
    ensures
        forall|i: int, j: int|
            0 <= i < j < json_to_ron::with_notes(list, notes).len() ==> (
            #[trigger] json_to_ron::with_notes(list, notes)[i]) != (
            #[trigger] json_to_ron::with_notes(list, notes)[j]),
    decreases notes.len(),
{
    let all = json_to_ron::with_notes(list, notes);
    if notes.len() > 0 {
        let less = notes.drop_last();
        let before = json_to_ron::with_notes(list, less);
        assert forall|i: int| 0 <= i < less.len() implies (#[trigger] less[i]).once by {
            assert(notes[i].once);
        }
        remarks_are_not_repeated(list, less);
        assert(notes[notes.len() - 1].once);
        assert forall|i: int, j: int| 0 <= i < j < all.len() implies (#[trigger] all[i]) != (
        #[trigger] all[j]) by {
            assert(all[i] == before[i]);
            if j < before.len() {
                assert(all[j] == before[j]);
            } else {
                assert(before.contains(before[i]));
            }
        }
    }
}

/// Whether a value is nested less than `room` deep. The null of what looks like a variant
/// without a payload takes no room.
pub open spec fn nests_within(value: JsonModel, room: nat) -> bool
    decreases room,
{
    room > 0 && match value {
        JsonModel::Array(items) => forall|i: int|
            0 <= i < items.len() ==> nests_within(#[trigger] items[i], (room - 1) as nat),
        JsonModel::Object(entries) => is_unit_variant(entries) || forall|i: int|
            0 <= i < entries.len() ==> nests_within((#[trigger] entries[i]).1, (room - 1) as nat),
        _ => true,
    }
}

/// Whether an object looks like a variant without a payload.
pub open spec fn is_unit_variant(entries: Seq<(Seq<char>, JsonModel)>) -> bool {
    entries.len() == 1 && json_to_ron::variant_like(entries[0].0) && entries[0].1 is Null
}

spec fn room_at(depth: nat) -> nat {
    if depth < MAX_JSON_DEPTH {
        (MAX_JSON_DEPTH - depth) as nat
    } else {
        0
    }
}

proof fn lemma_losses(
    model: Option<TypeModel>,
    comments: Seq<CommentModel>,
    value: JsonModel,
    at: Seq<char>,
    depth: nat,
)
    ensures
        (json_to_ron::value_emission(model, comments, value, None, at, depth).losses.len() == 0)
            == nests_within(value, room_at(depth)),
    decreases MAX_JSON_DEPTH + 1 - depth, 2nat, 0nat,
{
    if depth < MAX_JSON_DEPTH {
        let e = json_to_ron::value_emission(model, comments, value, None, at, depth);
        assert(e == json_to_ron::plain_emission(model, comments, value, at, depth));
        match value {
            JsonModel::Array(items) => {
                lemma_item_losses(model, comments, items, at, depth, 0);
            },
            JsonModel::Object(entries) => {
                if entries.len() == 1 && json_to_ron::variant_like(entries[0].0) {
                    let under = pointer::key_pointer(at, entries[0].0);
                    lemma_losses(model, comments, entries[0].1, under, depth + 1);
                } else if json_to_ron::all_idents(entries) {
                    lemma_entry_losses(model, comments, entries, KeyStyle::Name, at, depth, 0);
                } else {
                    lemma_entry_losses(model, comments, entries, KeyStyle::Quoted, at, depth, 0);
                }
            },
            _ => {},
        }
    }
}

proof fn lemma_item_losses(
    model: Option<TypeModel>,
    comments: Seq<CommentModel>,
    items: Seq<JsonModel>,
    at: Seq<char>,
    depth: nat,
    from: nat,
)
    requires
        depth < MAX_JSON_DEPTH,
        from <= items.len(),
    ensures
        (json_to_ron::items_emission(
            model,
            comments,
            items,
            ItemTypes::Same(None),
            at,
            depth,
            from,
        ).losses.len() == 0) == (forall|i: int|
            from <= i < items.len() ==> nests_within(#[trigger] items[i], room_at(depth + 1))),
    decreases MAX_JSON_DEPTH + 1 - depth, 1nat, items.len() - from,
{
    if from < items.len() {
        let under = pointer::index_pointer(at, from);
        lemma_losses(model, comments, items[from as int], under, depth + 1);
        lemma_item_losses(model, comments, items, at, depth, from + 1);
    }
}

proof fn lemma_entry_losses(
    model: Option<TypeModel>,
    comments: Seq<CommentModel>,
    entries: Seq<(Seq<char>, JsonModel)>,
    style: KeyStyle,
    at: Seq<char>,
    depth: nat,
    from: nat,
)
    requires
        depth < MAX_JSON_DEPTH,
        from <= entries.len(),
    ensures
        (json_to_ron::entries_emission(
            model,
            comments,
            entries,
            EntryTypes::Same(None),
            style,
            at,
            depth,
            from,
        ).losses.len() == 0) == (forall|i: int|
            from <= i < entries.len() ==> nests_within(
                (#[trigger] entries[i]).1,
                room_at(depth + 1),
            )),
    decreases MAX_JSON_DEPTH + 1 - depth, 1nat, entries.len() - from,
{
    if from < entries.len() {
        let under = pointer::key_pointer(at, entries[from as int].0);
        lemma_losses(model, comments, entries[from as int].1, under, depth + 1);
        lemma_entry_losses(model, comments, entries, style, at, depth, from + 1);
    }
}

/// Without a type a reconstruction reports a loss exactly where the value is nested too
/// deeply.
pub proof fn only_deep_values_are_lost(
    model: Option<TypeModel>,
    comments: Seq<CommentModel>,
    value: JsonModel,
)
    ensures
        (json_to_ron::value_emission(model, comments, value, None, Seq::empty(), 0).losses.len()
            == 0) == nests_within(value, MAX_JSON_DEPTH as nat),
{
    lemma_losses(model, comments, value, Seq::empty(), 0);
}

/// Whether `v` stands at `place` in a value at `at`.
pub open spec fn stands_in(value: JsonModel, at: Seq<char>, v: JsonModel, place: Seq<char>) -> bool
    decreases value,
{
    (v == value && place == at) || match value {
        JsonModel::Array(items) => exists|i: int|
            0 <= i < items.len() && stands_in(
                #[trigger] items[i],
                pointer::index_pointer(at, i as nat),
                v,
                place,
            ),
        JsonModel::Object(entries) => exists|i: int|
            0 <= i < entries.len() && stands_in(
                (#[trigger] entries[i]).1,
                pointer::key_pointer(at, entries[i].0),
                v,
                place,
            ),
        _ => false,
    }
}

/// The remark on a value at `place` without a type, if it stands for more than one RON
/// value: an array may be a tuple, an object with a single capitalised key a struct, and
/// one with a key that is no identifier a map with other keys.
pub open spec fn remark_on(v: JsonModel, place: Seq<char>) -> Option<Note> {
    match v {
        JsonModel::Array(_) => Some(json_to_ron::list_note(place).notes[0]),
        JsonModel::Object(entries) => if entries.len() == 1 && json_to_ron::variant_like(
            entries[0].0,
        ) {
            Some(json_to_ron::variant_note(entries[0].0, place).notes[0])
        } else if exists|i: int|
            0 <= i < entries.len() && !json_to_ron::ron_ident((#[trigger] entries[i]).0) {
            Some(json_to_ron::map_note(place).notes[0])
        } else {
            None
        },
        _ => None,
    }
}

proof fn lemma_within(a: Seq<Note>, b: Seq<Note>, note: Note)
    requires
        a.contains(note) || b.contains(note),
    ensures
        (a + b).contains(note),
{
    if a.contains(note) {
        let k = a.index_of(note);
        assert((a + b)[k] == note);
    } else {
        let k = b.index_of(note);
        assert((a + b)[a.len() + k] == note);
    }
}

proof fn lemma_then(a: Emission, b: Emission, note: Note)
    requires
        a.notes.contains(note) || b.notes.contains(note),
    ensures
        a.then_emit(b).notes.contains(note),
{
    lemma_within(a.notes, b.notes, note);
}

proof fn lemma_remark(
    model: Option<TypeModel>,
    comments: Seq<CommentModel>,
    value: JsonModel,
    at: Seq<char>,
    depth: nat,
    v: JsonModel,
    place: Seq<char>,
)
    requires
        stands_in(value, at, v, place),
        remark_on(v, place) is Some,
        nests_within(value, room_at(depth)),
    ensures
        json_to_ron::value_emission(model, comments, value, None, at, depth).notes.contains(
            remark_on(v, place)->0,
        ),
    decreases value, 0nat,
{
    let note = remark_on(v, place)->0;
    let e = json_to_ron::value_emission(model, comments, value, None, at, depth);
    assert(depth < MAX_JSON_DEPTH);
    assert(e == json_to_ron::plain_emission(model, comments, value, at, depth));
    let own = v == value && place == at;
    match value {
        JsonModel::Array(items) => {
            let first = json_to_ron::list_note(at);
            let open = first.then_emit(json_to_ron::written(seq!['[']));
            let close = json_to_ron::written(seq![']']);
            let inner = json_to_ron::items_emission(
                model,
                comments,
                items,
                ItemTypes::Same(None),
                at,
                depth,
                0,
            );
            if own {
                assert(first.notes.contains(note)) by {
                    assert(first.notes[0] == note);
                }
                lemma_then(first, json_to_ron::written(seq!['[']), note);
            } else {
                let i = choose|i: int|
                    0 <= i < items.len() && stands_in(
                        #[trigger] items[i],
                        pointer::index_pointer(at, i as nat),
                        v,
                        place,
                    );
                lemma_item_remark(model, comments, items, at, depth, 0, i, v, place);
            }
            lemma_then(open, inner, note);
            lemma_then(open.then_emit(inner), close, note);
        },
        JsonModel::Object(entries) => {
            if entries.len() == 1 && json_to_ron::variant_like(entries[0].0) {
                let under = pointer::key_pointer(at, entries[0].0);
                let first = json_to_ron::variant_note(entries[0].0, at);
                let name = json_to_ron::written(entries[0].0);
                let named = first.then_emit(name);
                let open = json_to_ron::written(seq!['(']);
                let lead = json_to_ron::anchored(comments, under);
                let close = json_to_ron::written(seq![')']);
                if own {
                    assert(first.notes.contains(note)) by {
                        assert(first.notes[0] == note);
                    }
                    lemma_then(first, name, note);
                } else {
                    assert(stands_in(entries[0].1, under, v, place));
                    assert(!(entries[0].1 is Null));
                    assert(decreases_to!(entries => entries[0]));
                    lemma_remark(model, comments, entries[0].1, under, depth + 1, v, place);
                }
                if !(entries[0].1 is Null) {
                    let inner = json_to_ron::value_emission(
                        model,
                        comments,
                        entries[0].1,
                        None,
                        under,
                        depth + 1,
                    );
                    if own {
                        lemma_then(named, open, note);
                        lemma_then(named.then_emit(open), lead, note);
                    }
                    let front = named.then_emit(open).then_emit(lead);
                    lemma_then(front, inner, note);
                    lemma_then(front.then_emit(inner), close, note);
                }
            } else {
                let names = json_to_ron::all_idents(entries);
                let style = if names {
                    KeyStyle::Name
                } else {
                    KeyStyle::Quoted
                };
                let inner = json_to_ron::entries_emission(
                    model,
                    comments,
                    entries,
                    EntryTypes::Same(None),
                    style,
                    at,
                    depth,
                    0,
                );
                let front = if names {
                    json_to_ron::written(seq!['('])
                } else {
                    json_to_ron::map_note(at).then_emit(json_to_ron::written(seq!['{']))
                };
                let close = json_to_ron::written(
                    if names {
                        seq![')']
                    } else {
                        seq!['}']
                    },
                );
                if own {
                    let first = json_to_ron::map_note(at);
                    assert(!names);
                    assert(first.notes.contains(note)) by {
                        assert(first.notes[0] == note);
                    }
                    lemma_then(first, json_to_ron::written(seq!['{']), note);
                } else {
                    let i = choose|i: int|
                        0 <= i < entries.len() && stands_in(
                            (#[trigger] entries[i]).1,
                            pointer::key_pointer(at, entries[i].0),
                            v,
                            place,
                        );
                    lemma_entry_remark(
                        model,
                        comments,
                        entries,
                        style,
                        at,
                        depth,
                        0,
                        i,
                        v,
                        place,
                    );
                }
                lemma_then(front, inner, note);
                lemma_then(front.then_emit(inner), close, note);
            }
        },
        _ => {},
    }
}

proof fn lemma_item_remark(
    model: Option<TypeModel>,
    comments: Seq<CommentModel>,
    items: Seq<JsonModel>,
    at: Seq<char>,
    depth: nat,
    from: nat,
    i: int,
    v: JsonModel,
    place: Seq<char>,
)
    requires
        depth < MAX_JSON_DEPTH,
        from <= i < items.len(),
        stands_in(items[i], pointer::index_pointer(at, i as nat), v, place),
        remark_on(v, place) is Some,
        nests_within(items[i], room_at(depth + 1)),
    ensures
        json_to_ron::items_emission(
            model,
            comments,
            items,
            ItemTypes::Same(None),
            at,
            depth,
            from,
        ).notes.contains(remark_on(v, place)->0),
    decreases items, items.len() - from,
{
    let note = remark_on(v, place)->0;
    let under = pointer::index_pointer(at, from);
    let lead = json_to_ron::separator(from).then_emit(json_to_ron::anchored(comments, under));
    let own = json_to_ron::value_emission(
        model,
        comments,
        items[from as int],
        None,
        under,
        depth + 1,
    );
    let rest = json_to_ron::items_emission(
        model,
        comments,
        items,
        ItemTypes::Same(None),
        at,
        depth,
        from + 1,
    );
    if i == from {
        lemma_remark(model, comments, items[i], under, depth + 1, v, place);
        lemma_then(lead, own, note);
    } else {
        lemma_item_remark(model, comments, items, at, depth, from + 1, i, v, place);
    }
    lemma_then(lead.then_emit(own), rest, note);
}

proof fn lemma_entry_remark(
    model: Option<TypeModel>,
    comments: Seq<CommentModel>,
    entries: Seq<(Seq<char>, JsonModel)>,
    style: KeyStyle,
    at: Seq<char>,
    depth: nat,
    from: nat,
    i: int,
    v: JsonModel,
    place: Seq<char>,
)
    requires
        depth < MAX_JSON_DEPTH,
        from <= i < entries.len(),
        stands_in(entries[i].1, pointer::key_pointer(at, entries[i].0), v, place),
        remark_on(v, place) is Some,
        nests_within(entries[i].1, room_at(depth + 1)),
    ensures
        json_to_ron::entries_emission(
            model,
            comments,
            entries,
            EntryTypes::Same(None),
            style,
            at,
            depth,
            from,
        ).notes.contains(remark_on(v, place)->0),
    decreases entries, entries.len() - from,
{
    let note = remark_on(v, place)->0;
    let key = entries[from as int].0;
    let under = pointer::key_pointer(at, key);
    let lead = json_to_ron::separator(from).then_emit(
        json_to_ron::anchored(comments, under),
    ).then_emit(json_to_ron::written(json_to_ron::key_written(key, style) + ": "@));
    let own = json_to_ron::value_emission(
        model,
        comments,
        entries[from as int].1,
        None,
        under,
        depth + 1,
    );
    let rest = json_to_ron::entries_emission(
        model,
        comments,
        entries,
        EntryTypes::Same(None),
        style,
        at,
        depth,
        from + 1,
    );
    if i == from {
        assert(decreases_to!(entries => entries[i]));
        lemma_remark(model, comments, entries[i].1, under, depth + 1, v, place);
        lemma_then(lead, own, note);
    } else {
        lemma_entry_remark(model, comments, entries, style, at, depth, from + 1, i, v, place);
    }
    lemma_then(lead.then_emit(own), rest, note);
}

/// Every choice is remarked: without a type, each value at whatever depth that stands for
/// more than one RON value gives its remark.
pub proof fn choices_are_all_remarked(
    model: Option<TypeModel>,
    comments: Seq<CommentModel>,
    value: JsonModel,
    v: JsonModel,
    place: Seq<char>,
)
    requires
        stands_in(value, Seq::empty(), v, place),
        remark_on(v, place) is Some,
        nests_within(value, MAX_JSON_DEPTH as nat),
    ensures
        json_to_ron::value_emission(model, comments, value, None, Seq::empty(), 0).notes.contains(
            remark_on(v, place)->0,
        ),
{
    lemma_remark(model, comments, value, Seq::empty(), 0, v, place);
}

} // verus!
