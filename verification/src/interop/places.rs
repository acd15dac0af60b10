//! Where the values and the comments of a document are.
//!
//! The lists of places and of comments are complete, and hold nothing else.

use vstd::prelude::*;

use crate::interop::comments::{self, CommentKind, CommentModel};
use crate::interop::loss_laws;
use crate::interop::pointer;
use crate::syntax::{self, MapEntry, RonValue, Shape, StructField, TextRange, Token};

verus! {

/// Every value of a document, at whatever depth, is listed with its span at its place.
pub proof fn values_are_all_listed(
    root: RonValue,
    at: Seq<char>,
    v: RonValue,
    place: Seq<char>,
) -> (k: int)
    requires
        loss_laws::part_of(root, at, v, place),
    ensures
        0 <= k < pointer::value_pointers(root, at).len(),
        pointer::value_pointers(root, at)[k] == (v.range, place),
    decreases root, 0nat,
{
    let all = pointer::value_pointers(root, at);
    assert(all[0] == (root.range, at));
    if v == root && place == at {
        0
    } else {
        1 + match root.shape {
            Shape::Struct { fields, .. } => {
                let i = choose|i: int|
                    0 <= i < fields@.len() && loss_laws::part_of_field(
                        #[trigger] fields@[i],
                        at,
                        v,
                        place,
                    );
                lemma_field_listed(fields@, at, v, place, 0, i)
            },
            Shape::Tuple { name, items } => if syntax::named(name, "Some"@) {
                values_are_all_listed(items@[0], at, v, place)
            } else {
                match name {
                    Some(n) => lemma_payload_listed(
                        items@,
                        pointer::key_pointer(at, n@),
                        v,
                        place,
                    ),
                    None => lemma_items_listed(items@, at, v, place),
                }
            },
            Shape::List { items } => lemma_items_listed(items@, at, v, place),
            Shape::Dictionary { entries } => {
                let i = choose|i: int|
                    0 <= i < entries@.len() && loss_laws::part_of_entry(
                        #[trigger] entries@[i],
                        at,
                        v,
                        place,
                    );
                lemma_entry_listed(entries@, at, v, place, 0, i)
            },
            Shape::EnumVariant { name, items, entries } => {
                if pointer::is_some_of(name, items@) {
                    values_are_all_listed(items@[0], at, v, place)
                } else {
                    let under = pointer::key_pointer(at, syntax::text_or_empty(name));
                    if entries@.len() > 0 || syntax::brace_among(root.layout@) {
                        let i = choose|i: int|
                            0 <= i < entries@.len() && loss_laws::part_of_member(
                                #[trigger] entries@[i],
                                under,
                                v,
                                place,
                            );
                        lemma_member_listed(entries@, under, v, place, 0, i)
                    } else {
                        lemma_payload_listed(items@, under, v, place)
                    }
                }
            },
            _ => 0,
        }
    }
}

proof fn lemma_payload_listed(
    items: Seq<RonValue>,
    at: Seq<char>,
    v: RonValue,
    place: Seq<char>,
) -> (k: int)
    requires
        loss_laws::part_of_payload(items, at, v, place),
    ensures
        0 <= k < pointer::payload_pointers(items, at).len(),
        pointer::payload_pointers(items, at)[k] == (v.range, place),
    decreases items, items.len() + 2,
{
    if items.len() == 1 {
        values_are_all_listed(items[0], at, v, place)
    } else {
        lemma_items_listed(items, at, v, place)
    }
}

proof fn lemma_items_listed(
    items: Seq<RonValue>,
    at: Seq<char>,
    v: RonValue,
    place: Seq<char>,
) -> (k: int)
    requires
        loss_laws::part_of_items(items, at, v, place),
    ensures
        0 <= k < pointer::item_pointers(items, at, 0).len(),
        pointer::item_pointers(items, at, 0)[k] == (v.range, place),
    decreases items, items.len() + 1,
{
    let i = choose|i: int|
        0 <= i < items.len() && loss_laws::part_of(
            #[trigger] items[i],
            pointer::index_pointer(at, i as nat),
            v,
            place,
        );
    lemma_item_listed(items, at, v, place, 0, i)
}

proof fn lemma_item_listed(
    items: Seq<RonValue>,
    at: Seq<char>,
    v: RonValue,
    place: Seq<char>,
    from: nat,
    i: int,
) -> (k: int)
    requires
        from <= i < items.len(),
        loss_laws::part_of(items[i], pointer::index_pointer(at, i as nat), v, place),
    ensures
        0 <= k < pointer::item_pointers(items, at, from).len(),
        pointer::item_pointers(items, at, from)[k] == (v.range, place),
    decreases items, items.len() - from,
{
    let first = pointer::value_pointers(items[from as int], pointer::index_pointer(at, from));
    if i == from {
        values_are_all_listed(items[i], pointer::index_pointer(at, from), v, place)
    } else {
        first.len() + lemma_item_listed(items, at, v, place, from + 1, i)
    }
}

proof fn lemma_field_listed(
    fields: Seq<StructField>,
    at: Seq<char>,
    v: RonValue,
    place: Seq<char>,
    from: nat,
    i: int,
) -> (k: int)
    requires
        from <= i < fields.len(),
        loss_laws::part_of_field(fields[i], at, v, place),
    ensures
        0 <= k < pointer::field_pointers(fields, at, from).len(),
        pointer::field_pointers(fields, at, from)[k] == (v.range, place),
    decreases fields, fields.len() - from,
{
    let all = pointer::field_pointers(fields, at, from);
    let rest = pointer::field_pointers(fields, at, from + 1);
    if i == from {
        assert(decreases_to!(fields => fields[i]));
        let value = fields[i].value->0;
        values_are_all_listed(value, pointer::key_pointer(at, fields[i].name->0@), v, place)
    } else {
        let k = lemma_field_listed(fields, at, v, place, from + 1, i);
        let before = all.len() - rest.len();
        assert(all[before + k] == rest[k]);
        before + k
    }
}

proof fn lemma_entry_listed(
    entries: Seq<MapEntry>,
    at: Seq<char>,
    v: RonValue,
    place: Seq<char>,
    from: nat,
    i: int,
) -> (k: int)
    requires
        from <= i < entries.len(),
        loss_laws::part_of_entry(entries[i], at, v, place),
    ensures
        0 <= k < pointer::map_pointers(entries, at, from).len(),
        pointer::map_pointers(entries, at, from)[k] == (v.range, place),
    decreases entries, entries.len() - from,
{
    let all = pointer::map_pointers(entries, at, from);
    let rest = pointer::map_pointers(entries, at, from + 1);
    if i == from {
        assert(decreases_to!(entries => entries[i]));
        let value = entries[i].value->0;
        let key = pointer::key_text(entries[i].key->0);
        values_are_all_listed(value, pointer::key_pointer(at, key), v, place)
    } else {
        let k = lemma_entry_listed(entries, at, v, place, from + 1, i);
        let before = all.len() - rest.len();
        assert(all[before + k] == rest[k]);
        before + k
    }
}

proof fn lemma_member_listed(
    entries: Seq<MapEntry>,
    at: Seq<char>,
    v: RonValue,
    place: Seq<char>,
    from: nat,
    i: int,
) -> (k: int)
    requires
        from <= i < entries.len(),
        loss_laws::part_of_member(entries[i], at, v, place),
    ensures
        0 <= k < pointer::entry_pointers(entries, at, from).len(),
        pointer::entry_pointers(entries, at, from)[k] == (v.range, place),
    decreases entries, entries.len() - from,
{
    let all = pointer::entry_pointers(entries, at, from);
    let rest = pointer::entry_pointers(entries, at, from + 1);
    if i == from {
        assert(decreases_to!(entries => entries[i]));
        let value = entries[i].value->0;
        let key = pointer::entry_name(entries[i])->0;
        values_are_all_listed(value, pointer::key_pointer(at, key), v, place)
    } else {
        let k = lemma_member_listed(entries, at, v, place, from + 1, i);
        let before = all.len() - rest.len();
        assert(all[before + k] == rest[k]);
        before + k
    }
}

/// What is listed is a value of the document with its span.
pub proof fn listed_values_are_in_the_document(root: RonValue, at: Seq<char>, k: int) -> (v:
    RonValue)
    requires
        0 <= k < pointer::value_pointers(root, at).len(),
    ensures
        loss_laws::part_of(root, at, v, pointer::value_pointers(root, at)[k].1),
        v.range == pointer::value_pointers(root, at)[k].0,
    decreases root, 0nat,
{
    if k == 0 {
        root
    } else {
        match root.shape {
            Shape::Struct { fields, .. } => lemma_field_found(fields@, at, 0, k - 1),
            Shape::Tuple { name, items } => if syntax::named(name, "Some"@) {
                listed_values_are_in_the_document(items@[0], at, k - 1)
            } else {
                match name {
                    Some(n) => lemma_payload_found(items@, pointer::key_pointer(at, n@), k - 1),
                    None => lemma_item_found(items@, at, 0, k - 1),
                }
            },
            Shape::List { items } => lemma_item_found(items@, at, 0, k - 1),
            Shape::Dictionary { entries } => lemma_entry_found(entries@, at, 0, k - 1),
            Shape::EnumVariant { name, items, entries } => {
                if pointer::is_some_of(name, items@) {
                    listed_values_are_in_the_document(items@[0], at, k - 1)
                } else {
                    let under = pointer::key_pointer(at, syntax::text_or_empty(name));
                    if entries@.len() > 0 || syntax::brace_among(root.layout@) {
                        lemma_member_found(entries@, under, 0, k - 1)
                    } else {
                        lemma_payload_found(items@, under, k - 1)
                    }
                }
            },
            _ => root,
        }
    }
}

proof fn lemma_payload_found(items: Seq<RonValue>, at: Seq<char>, k: int) -> (v: RonValue)
    requires
        0 <= k < pointer::payload_pointers(items, at).len(),
    ensures
        loss_laws::part_of_payload(items, at, v, pointer::payload_pointers(items, at)[k].1),
        v.range == pointer::payload_pointers(items, at)[k].0,
    decreases items, items.len() + 2,
{
    if items.len() == 1 {
        listed_values_are_in_the_document(items[0], at, k)
    } else {
        lemma_item_found(items, at, 0, k)
    }
}

proof fn lemma_item_found(items: Seq<RonValue>, at: Seq<char>, from: nat, k: int) -> (v: RonValue)
    requires
        0 <= k < pointer::item_pointers(items, at, from).len(),
    ensures
        loss_laws::part_of_items(items, at, v, pointer::item_pointers(items, at, from)[k].1),
        v.range == pointer::item_pointers(items, at, from)[k].0,
    decreases items, items.len() - from,
{
    let under = pointer::index_pointer(at, from);
    let first = pointer::value_pointers(items[from as int], under);
    if k < first.len() {
        let v = listed_values_are_in_the_document(items[from as int], under, k);
        assert(loss_laws::part_of(items[from as int], under, v, first[k].1));
        v
    } else {
        lemma_item_found(items, at, from + 1, k - first.len())
    }
}

proof fn lemma_field_found(fields: Seq<StructField>, at: Seq<char>, from: nat, k: int) -> (v:
    RonValue)
    requires
        0 <= k < pointer::field_pointers(fields, at, from).len(),
    ensures
        exists|i: int|
            0 <= i < fields.len() && loss_laws::part_of_field(
                #[trigger] fields[i],
                at,
                v,
                pointer::field_pointers(fields, at, from)[k].1,
            ),
        v.range == pointer::field_pointers(fields, at, from)[k].0,
    decreases fields, fields.len() - from,
{
    let field = fields[from as int];
    let first = match (field.name, field.value) {
        (Some(name), Some(value)) => pointer::value_pointers(
            value,
            pointer::key_pointer(at, name@),
        ),
        _ => Seq::empty(),
    };
    if k < first.len() {
        assert(decreases_to!(fields => fields[from as int]));
        let under = pointer::key_pointer(at, field.name->0@);
        let v = listed_values_are_in_the_document(field.value->0, under, k);
        assert(loss_laws::part_of_field(fields[from as int], at, v, first[k].1));
        v
    } else {
        lemma_field_found(fields, at, from + 1, k - first.len())
    }
}

proof fn lemma_entry_found(entries: Seq<MapEntry>, at: Seq<char>, from: nat, k: int) -> (v:
    RonValue)
    requires
        0 <= k < pointer::map_pointers(entries, at, from).len(),
    ensures
        exists|i: int|
            0 <= i < entries.len() && loss_laws::part_of_entry(
                #[trigger] entries[i],
                at,
                v,
                pointer::map_pointers(entries, at, from)[k].1,
            ),
        v.range == pointer::map_pointers(entries, at, from)[k].0,
    decreases entries, entries.len() - from,
{
    let entry = entries[from as int];
    let first = match (entry.key, entry.value) {
        (Some(key), Some(value)) => pointer::value_pointers(
            value,
            pointer::key_pointer(at, pointer::key_text(key)),
        ),
        _ => Seq::empty(),
    };
    if k < first.len() {
        assert(decreases_to!(entries => entries[from as int]));
        let under = pointer::key_pointer(at, pointer::key_text(entry.key->0));
        let v = listed_values_are_in_the_document(entry.value->0, under, k);
        assert(loss_laws::part_of_entry(entries[from as int], at, v, first[k].1));
        v
    } else {
        lemma_entry_found(entries, at, from + 1, k - first.len())
    }
}

proof fn lemma_member_found(entries: Seq<MapEntry>, at: Seq<char>, from: nat, k: int) -> (v:
    RonValue)
    requires
        0 <= k < pointer::entry_pointers(entries, at, from).len(),
    ensures
        exists|i: int|
            0 <= i < entries.len() && loss_laws::part_of_member(
                #[trigger] entries[i],
                at,
                v,
                pointer::entry_pointers(entries, at, from)[k].1,
            ),
        v.range == pointer::entry_pointers(entries, at, from)[k].0,
    decreases entries, entries.len() - from,
{
    let entry = entries[from as int];
    let first = match (pointer::entry_name(entry), entry.value) {
        (Some(name), Some(value)) => pointer::value_pointers(
            value,
            pointer::key_pointer(at, name),
        ),
        _ => Seq::empty(),
    };
    if k < first.len() {
        assert(decreases_to!(entries => entries[from as int]));
        let under = pointer::key_pointer(at, pointer::entry_name(entry)->0);
        let v = listed_values_are_in_the_document(entry.value->0, under, k);
        assert(loss_laws::part_of_member(entries[from as int], at, v, first[k].1));
        v
    } else {
        lemma_member_found(entries, at, from + 1, k - first.len())
    }
}

/// The span at a pointer is that of the last value which stands there.
pub proof fn spans_are_those_of_the_innermost_values(
    list: Seq<(TextRange, Seq<char>)>,
    place: Seq<char>,
    i: int,
)
    requires
        0 <= i < list.len(),
        list[i].1 == place,
        forall|j: int| i < j < list.len() ==> (#[trigger] list[j]).1 != place,
    ensures
        pointer::last_range(list, place) == Some(list[i].0),
    decreases list.len(),
{
    if i < list.len() - 1 {
        assert(list[list.len() - 1].1 != place);
        assert forall|j: int| i < j < list.len() - 1 implies (#[trigger] list.drop_last()[j]).1
            != place by {
            assert(list[j].1 != place);
        }
        spans_are_those_of_the_innermost_values(list.drop_last(), place, i);
    }
}

/// There is no span at a pointer where no value stands.
pub proof fn other_pointers_have_no_span(list: Seq<(TextRange, Seq<char>)>, place: Seq<char>)
    requires
        forall|j: int| 0 <= j < list.len() ==> (#[trigger] list[j]).1 != place,
    ensures
        pointer::last_range(list, place) is None,
    decreases list.len(),
{
    if list.len() > 0 {
        assert(list[list.len() - 1].1 != place);
        assert forall|j: int| 0 <= j < list.len() - 1 implies (#[trigger] list.drop_last()[j]).1
            != place by {
            assert(list[j].1 != place);
        }
        other_pointers_have_no_span(list.drop_last(), place);
    }
}

/// Every comment of a document is collected, with its words, its form and its span.
pub proof fn comments_are_all_collected(
    tokens: Seq<Token>,
    values: Seq<(TextRange, Seq<char>)>,
    n: nat,
    k: int,
) -> (at: int)
    requires
        0 <= k < n <= tokens.len(),
        tokens[k].kind is LineComment || tokens[k].kind is BlockComment,
    ensures
        0 <= at < comments::comments_in(tokens, values, n).len(),
        comments::comments_in(tokens, values, n)[at].text == tokens[k].text@,
        comments::comments_in(tokens, values, n)[at].source_range == tokens[k].range,
        comments::comments_in(tokens, values, n)[at].kind == (if tokens[k].kind is LineComment {
            CommentKind::Line
        } else {
            CommentKind::Block
        }),
    decreases n,
{
    let before = comments::comments_in(tokens, values, (n - 1) as nat);
    if k == n - 1 {
        before.len() as int
    } else {
        comments_are_all_collected(tokens, values, (n - 1) as nat, k)
    }
}

/// What is collected is a comment of the document.
pub proof fn collected_comments_are_in_the_document(
    tokens: Seq<Token>,
    values: Seq<(TextRange, Seq<char>)>,
    n: nat,
    at: int,
) -> (k: int)
    requires
        n <= tokens.len(),
        0 <= at < comments::comments_in(tokens, values, n).len(),
    ensures
        0 <= k < n,
        tokens[k].kind is LineComment || tokens[k].kind is BlockComment,
        comments::comments_in(tokens, values, n)[at].text == tokens[k].text@,
        comments::comments_in(tokens, values, n)[at].source_range == tokens[k].range,
    decreases n,
{
    let before = comments::comments_in(tokens, values, (n - 1) as nat);
    if at < before.len() {
        collected_comments_are_in_the_document(tokens, values, (n - 1) as nat, at)
    } else {
        n - 1
    }
}

/// The texts at a pointer are those of the comments which are anchored there, in their
/// order.
pub proof fn texts_are_gathered_in_order(a: Seq<CommentModel>, b: Seq<CommentModel>, place: Seq<char>)
    ensures
        comments::texts_at(a + b, place) == comments::texts_at(a, place) + comments::texts_at(
            b,
            place,
        ),
        a.len() == 1 ==> comments::texts_at(a, place) == (if a[0].anchor == place {
            seq![a[0].text]
        } else {
            Seq::empty()
        }),
    decreases b.len(),
{
    if a.len() == 1 {
        assert(a.drop_last() =~= Seq::<CommentModel>::empty());
        reveal_with_fuel(comments::texts_at, 2);
        assert(comments::texts_at(a, place) =~= (if a[0].anchor == place {
            seq![a[0].text]
        } else {
            Seq::empty()
        }));
    }
    if b.len() == 0 {
        assert(a + b =~= a);
        assert(comments::texts_at(a, place) + comments::texts_at(b, place) =~= comments::texts_at(
            a,
            place,
        ));
    } else {
        texts_are_gathered_in_order(a, b.drop_last(), place);
        assert((a + b).drop_last() =~= a + b.drop_last());
        assert(comments::texts_at(a + b, place) =~= comments::texts_at(a, place)
            + comments::texts_at(b, place));
    }
}

} // verus!
