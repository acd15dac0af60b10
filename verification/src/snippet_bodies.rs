//! How snippet bodies are written.
//!
//! A body is a row of bits: text, a `$` that stands for itself, and tab stops. The law
//! here is that a written body expands to what its bits stand for.

use vstd::prelude::*;

use crate::snippets::{self, Expanded, Stop, StopKind};
use crate::text;

verus! {

/// A bit of a snippet body.
pub enum Bit {
    /// Text.
    Text(Seq<char>),
    /// A `$`, written with a backslash before it.
    Dollar,
    /// A number behind a `$`.
    Bare(u32),
    /// A tab stop in braces.
    Braced(u32, StopKind),
}

impl Bit {
    /// The bit as it is written.
    pub open spec fn written(self) -> Seq<char> {
        match self {
            Bit::Text(t) => t,
            Bit::Dollar => seq!['\\', '$'],
            Bit::Bare(index) => seq!['$'] + text::decimal(index as nat),
            Bit::Braced(index, kind) => seq!['$', '{'] + text::decimal(index as nat)
                + details(kind),
        }
    }

    /// The text that the bit stands for.
    pub open spec fn plain(self) -> Seq<char> {
        match self {
            Bit::Text(t) => t,
            Bit::Dollar => seq!['$'],
            Bit::Bare(_) => Seq::empty(),
            Bit::Braced(_, kind) => match kind {
                StopKind::Plain => Seq::empty(),
                StopKind::Placeholder(default) => default,
                StopKind::Choice(options) => options[0],
            },
        }
    }

    /// The tab stops that the bit stands for, `at` characters into the expansion.
    pub open spec fn stops(self, at: nat) -> Seq<Stop> {
        match self {
            Bit::Text(_) => Seq::empty(),
            Bit::Dollar => Seq::empty(),
            Bit::Bare(index) => seq![Stop { index, start: at, end: at, kind: StopKind::Plain }],
            Bit::Braced(index, kind) => seq![
                Stop { index, start: at, end: at + self.plain().len(), kind },
            ],
        }
    }

    /// Whether the bit can be written: text holds no `$` and no backslash, a default no
    /// brace, and an option no bar.
    pub open spec fn writable(self) -> bool {
        match self {
            Bit::Text(t) => is_plain(t),
            Bit::Dollar => true,
            Bit::Bare(_) => true,
            Bit::Braced(_, kind) => match kind {
                StopKind::Plain => true,
                StopKind::Placeholder(default) => forall|i: int|
                    0 <= i < default.len() ==> #[trigger] default[i] != '}',
                StopKind::Choice(options) => options.len() > 0 && forall|i: int|
                    0 <= i < options.len() ==> is_option(#[trigger] options[i]),
            },
        }
    }
}

/// Whether a text holds no `$` and no backslash.
pub open spec fn is_plain(t: Seq<char>) -> bool {
    forall|i: int| 0 <= i < t.len() ==> #[trigger] t[i] != '$' && t[i] != '\\'
}

/// Whether a text can be an option of a choice.
pub open spec fn is_option(option: Seq<char>) -> bool {
    text::is_list_item(option) && forall|i: int|
        0 <= i < option.len() ==> #[trigger] option[i] != '|'
}

/// What stands behind the number of a tab stop in braces.
pub open spec fn details(kind: StopKind) -> Seq<char> {
    match kind {
        StopKind::Plain => seq!['}'],
        StopKind::Placeholder(default) => seq![':'] + default + seq!['}'],
        StopKind::Choice(options) => seq!['|'] + text::with_commas(options) + seq!['|', '}'],
    }
}

/// A body with these bits.
pub open spec fn body(bits: Seq<Bit>) -> Seq<char>
    decreases bits.len(),
{
    if bits.len() == 0 {
        Seq::empty()
    } else {
        bits[0].written() + body(bits.drop_first())
    }
}

/// The text that bits stand for.
pub open spec fn plain_text(bits: Seq<Bit>) -> Seq<char>
    decreases bits.len(),
{
    if bits.len() == 0 {
        Seq::empty()
    } else {
        bits[0].plain() + plain_text(bits.drop_first())
    }
}

/// The tab stops that bits stand for, `at` characters into the expansion.
pub open spec fn all_stops(bits: Seq<Bit>, at: nat) -> Seq<Stop>
    decreases bits.len(),
{
    if bits.len() == 0 {
        Seq::empty()
    } else {
        bits[0].stops(at) + all_stops(bits.drop_first(), at + bits[0].plain().len())
    }
}

/// Whether bits can be written in a row: a number behind a `$` is not followed by a
/// digit.
pub open spec fn can_be_written(bits: Seq<Bit>) -> bool
    decreases bits.len(),
{
    bits.len() > 0 ==> {
        let rest = bits.drop_first();
        &&& bits[0].writable()
        &&& bits[0] is Bare ==> !(body(rest).len() > 0 && snippets::digit(body(rest)[0]))
        &&& can_be_written(rest)
    }
}

proof fn lemma_decimal(n: nat)
    ensures
        text::decimal(n).len() > 0,
        forall|i: int|
            0 <= i < text::decimal(n).len() ==> snippets::digit(#[trigger] text::decimal(n)[i]),
        snippets::number_of(text::decimal(n)) == n,
    decreases n,
{
    reveal_with_fuel(snippets::number_of, 2);
    let d = text::decimal(n);
    if n < 10 {
        assert(d.drop_last() =~= Seq::<char>::empty());
    } else {
        lemma_decimal(n / 10);
        let less = text::decimal(n / 10);
        assert(d.drop_last() =~= less);
        assert forall|i: int| 0 <= i < d.len() implies snippets::digit(#[trigger] d[i]) by {
            if i < less.len() {
                assert(d[i] == less[i]);
            }
        }
    }
}

proof fn lemma_digits(s: Seq<char>, from: int, end: int)
    requires
        0 <= from <= end <= s.len(),
        forall|i: int| from <= i < end ==> snippets::digit(#[trigger] s[i]),
        end < s.len() ==> !snippets::digit(s[end]),
    ensures
        snippets::digits_end(s, from) == end,
    decreases end - from,
{
    if from < end {
        assert(snippets::digit(s[from]));
        lemma_digits(s, from + 1, end);
    }
}

proof fn lemma_first(s: Seq<char>, c: char, from: int, at: int)
    requires
        0 <= from <= at < s.len(),
        s[at] == c,
        forall|i: int| from <= i < at ==> #[trigger] s[i] != c,
    ensures
        text::index_from(s, c, from) == at,
    decreases at - from,
{
    if from < at {
        assert(s[from] != c);
        lemma_first(s, c, from + 1, at);
    }
}

/// The number of a tab stop is read where it stands.
proof fn lemma_index(head: Seq<char>, index: u32, tail: Seq<char>)
    requires
        tail.len() > 0 ==> !snippets::digit(tail[0]),
    ensures
        snippets::index_at(head + (text::decimal(index as nat) + tail), head.len() as int) == Some(
            (index, (head.len() + text::decimal(index as nat).len()) as int),
        ),
{
    let d = text::decimal(index as nat);
    let s = head + (d + tail);
    let from = head.len() as int;
    let end = from + d.len();
    lemma_decimal(index as nat);
    assert forall|i: int| from <= i < end implies snippets::digit(#[trigger] s[i]) by {
        assert(s[i] == d[i - from]);
    }
    if end < s.len() {
        assert(s[end] == tail[0]);
    }
    lemma_digits(s, from, end);
    assert(s.subrange(from, end) =~= d);
}

proof fn lemma_no_bar(options: Seq<Seq<char>>)
    requires
        forall|i: int| 0 <= i < options.len() ==> is_option(#[trigger] options[i]),
    ensures
        forall|i: int|
            0 <= i < text::with_commas(options).len() ==> #[trigger] text::with_commas(options)[i]
                != '|',
    decreases options.len(),
{
    let all = text::with_commas(options);
    if options.len() > 0 {
        assert(is_option(options[0]));
        let rest = options.drop_first();
        assert forall|i: int| 0 <= i < rest.len() implies is_option(#[trigger] rest[i]) by {
            assert(is_option(options[i + 1]));
        }
        lemma_no_bar(rest);
        assert forall|i: int| 0 <= i < all.len() implies #[trigger] all[i] != '|' by {
            if i < options[0].len() {
                assert(all[i] == options[0][i]);
            } else if options.len() > 1 && i > options[0].len() {
                assert(all[i] == text::with_commas(rest)[i - options[0].len() - 1]);
            }
        }
    }
}

/// What stands behind the number of a tab stop in braces is read where it stands.
proof fn lemma_details(head: Seq<char>, index: u32, kind: StopKind, tail: Seq<char>)
    requires
        Bit::Braced(index, kind).writable(),
    ensures
        snippets::braced_marker(head + (details(kind) + tail), index, head.len() as int) == Some(
            snippets::MarkerModel {
                index,
                kind,
                end: (head.len() + details(kind).len()) as int,
            },
        ),
{
    let s = head + (details(kind) + tail);
    let at = head.len() as int;
    assert(s[at] == details(kind)[0]);
    match kind {
        StopKind::Plain => {},
        StopKind::Placeholder(default) => {
            let close = at + 1 + default.len();
            assert(s[close] == '}');
            assert forall|i: int| at + 1 <= i < close implies #[trigger] s[i] != '}' by {
                assert(s[i] == default[i - at - 1]);
            }
            lemma_first(s, '}', at + 1, close);
            assert(s.subrange(at + 1, close) =~= default);
        },
        StopKind::Choice(options) => {
            let list = text::with_commas(options);
            let bar = at + 1 + list.len();
            assert(s[bar] == '|' && s[bar + 1] == '}');
            lemma_no_bar(options);
            assert forall|i: int| at + 1 <= i < bar implies #[trigger] s[i] != '|' by {
                assert(s[i] == list[i - at - 1]);
            }
            lemma_first(s, '|', at + 1, bar);
            assert(s.subrange(at + 1, bar) =~= list);
            assert forall|i: int| 0 <= i < options.len() implies text::is_list_item(
                #[trigger] options[i],
            ) by {
                assert(is_option(options[i]));
            }
            text::list_items_are_read_back(options);
        },
    }
}

proof fn lemma_marker(head: Seq<char>, bit: Bit, tail: Seq<char>)
    requires
        bit.writable(),
        bit is Bare || bit is Braced,
        bit is Bare ==> !(tail.len() > 0 && snippets::digit(tail[0])),
    ensures
        snippets::marker_at(head + (bit.written() + tail), head.len() as int) == Some(
            snippets::MarkerModel {
                index: bit.stops(0)[0].index,
                kind: bit.stops(0)[0].kind,
                end: (head.len() + bit.written().len()) as int,
            },
        ),
        bit.written().len() > 0,
        bit.written()[0] == '$',
{
    let s = head + (bit.written() + tail);
    let at = head.len() as int;
    match bit {
        Bit::Bare(index) => {
            let d = text::decimal(index as nat);
            lemma_decimal(index as nat);
            let front = head + seq!['$'];
            assert(s =~= front + (d + tail));
            lemma_index(front, index, tail);
            assert(s[at + 1] == d[0]);
        },
        Bit::Braced(index, kind) => {
            let d = text::decimal(index as nat);
            lemma_decimal(index as nat);
            let front = head + seq!['$', '{'];
            let behind = details(kind) + tail;
            assert(s =~= front + (d + behind));
            assert(behind[0] == details(kind)[0]);
            lemma_index(front, index, behind);
            assert(s[at + 1] == '{');
            let whole = front + d;
            assert(s =~= whole + behind);
            lemma_details(whole, index, kind, tail);
        },
        _ => {},
    }
}

proof fn lemma_text(head: Seq<char>, t: Seq<char>, tail: Seq<char>, at: nat)
    requires
        is_plain(t),
    ensures
        ({
            let s = head + (t + tail);
            let rest = snippets::expanded(s, (head.len() + t.len()) as int, at + t.len());
            snippets::expanded(s, head.len() as int, at) == (Expanded {
                text: t + rest.text,
                stops: rest.stops,
            })
        }),
    decreases t.len(),
{
    let s = head + (t + tail);
    let from = head.len() as int;
    let rest = snippets::expanded(s, from + t.len(), at + t.len());
    if t.len() == 0 {
        assert(t + rest.text =~= rest.text);
    } else {
        let more = head.push(t[0]);
        let less = t.drop_first();
        assert(t[0] != '$' && t[0] != '\\');
        assert(s[from] == t[0]);
        assert(s =~= more + (less + tail));
        assert(is_plain(less)) by {
            assert forall|i: int| 0 <= i < less.len() implies #[trigger] less[i] != '$' && less[i]
                != '\\' by {
                assert(t[i + 1] != '$');
            }
        }
        lemma_text(more, less, tail, at + 1);
        assert(seq![t[0]] + (less + rest.text) =~= t + rest.text);
    }
}

proof fn lemma_bits(head: Seq<char>, bits: Seq<Bit>, at: nat)
    requires
        can_be_written(bits),
    ensures
        snippets::expanded(head + body(bits), head.len() as int, at) == (Expanded {
            text: plain_text(bits),
            stops: all_stops(bits, at),
        }),
    decreases bits.len(),
{
    let s = head + body(bits);
    let from = head.len() as int;
    if bits.len() > 0 {
        let bit = bits[0];
        let rest = bits.drop_first();
        let tail = body(rest);
        let written = bit.written();
        let more = head + written;
        let size = bit.plain().len();
        assert(s =~= head + (written + tail));
        assert(s =~= more + tail);
        lemma_bits(more, rest, at + size);
        let end = from + written.len();
        match bit {
            Bit::Text(t) => {
                lemma_text(head, t, tail, at);
                assert(Seq::<Stop>::empty() + all_stops(rest, at + size) =~= all_stops(
                    rest,
                    at + size,
                ));
            },
            Bit::Dollar => {
                assert(s[from] == '\\' && s[from + 1] == '$');
                assert(Seq::<Stop>::empty() + all_stops(rest, at + size) =~= all_stops(
                    rest,
                    at + size,
                ));
            },
            _ => {
                lemma_marker(head, bit, tail);
                assert(s[from] == '$');
            },
        }
    }
}

/// A written body expands to the text of its bits, with their tab stops where they
/// stand in that text, in the order of their numbers.
pub proof fn written_bodies_expand_to_their_bits(bits: Seq<Bit>)
    requires
        can_be_written(bits),
    ensures
        snippets::expansion(body(bits)).text == plain_text(bits),
        snippets::in_visiting_order(snippets::expansion(body(bits)).stops),
        forall|index: u32| #[trigger]
            snippets::of_index(snippets::expansion(body(bits)).stops, index)
                == snippets::of_index(all_stops(bits, 0), index),
{
    let none = Seq::<char>::empty();
    assert(none + body(bits) =~= body(bits));
    lemma_bits(none, bits, 0);
    snippets::stops_are_visited_in_order(body(bits));
}

} // verus!
