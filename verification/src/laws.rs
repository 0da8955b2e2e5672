//! Laws of the state machine and of the projection, proved from their
//! definitions.

use vstd::prelude::*;
use crate::entry::EntryView;
use crate::entry::Summary;
use crate::browser::StateView;
use crate::browser::PopupMode;
use crate::browser::Key;
use crate::browser::InputError;
use crate::browser::step;
use crate::browser::selection_in_bounds;
use crate::browser::is_first_with_bytes;
use crate::browser::is_first_at_or_after;
use crate::browser::search_target;
use crate::browser::address_target;
use crate::text::parse_hex_bytes;
use crate::text::parse_hex_address;
use crate::text::is_hex_digit;
use crate::view::projection;
use crate::view::adjusted_scroll;
use crate::view::ViewModelView;

verus! {

/// The state after a sequence of keys, applied first to last.
pub open spec fn run_keys(s: StateView, keys: Seq<Key>, entries: Seq<EntryView>) -> StateView
    decreases keys.len(),
{
    if keys.len() == 0 {
        s
    } else {
        step(run_keys(s, keys.drop_last(), entries), keys.last(), entries)
    }
}

/// How far a sequence of keys asks the selection to move: one back for
/// every Up, one forward for every Down.
pub open spec fn net_delta(keys: Seq<Key>) -> int
    decreases keys.len(),
{
    if keys.len() == 0 {
        0
    } else {
        net_delta(keys.drop_last()) + match keys.last() {
            Key::Up => -1int,
            Key::Down => 1int,
            _ => 0int,
        }
    }
}

/// `x` brought into the indices of a store of `len` findings; zero for an
/// empty store.
pub open spec fn clamp_index(x: int, len: int) -> int {
    if len <= 0 || x < 0 {
        0
    } else if x >= len {
        len - 1
    } else {
        x
    }
}

/// Every key is Up or Down.
pub open spec fn only_arrows(keys: Seq<Key>) -> bool {
    forall|i: int| 0 <= i < keys.len() ==> (#[trigger] keys[i]) == Key::Up || keys[i] == Key::Down
}

/// No key moves the selection out of the store: a selection that points
/// into the store does so after any key.
pub proof fn lemma_step_keeps_selection(s: StateView, key: Key, entries: Seq<EntryView>)
    requires
        selection_in_bounds(s.selected_index, entries.len() as int),
    ensures
        selection_in_bounds(step(s, key, entries).selected_index, entries.len() as int),
{
    if s.mode == PopupMode::Search && key == Key::Enter {
        match parse_hex_bytes(s.input_buffer) {
            Some(bytes) => {
                if search_target(entries, bytes) is Some {
                    let i = choose|i: int| is_first_with_bytes(entries, bytes, i);
                    assert(is_first_with_bytes(entries, bytes, i));
                }
            },
            None => {},
        }
    }
    if s.mode == PopupMode::GoToAddress && key == Key::Enter {
        match parse_hex_address(s.input_buffer) {
            Some(addr) => {
                if address_target(entries, addr as int) is Some {
                    let i = choose|i: int| is_first_at_or_after(entries, addr as int, i);
                    assert(is_first_at_or_after(entries, addr as int, i));
                }
            },
            None => {},
        }
    }
}

/// The selection points into the store after any sequence of keys.
pub proof fn lemma_run_keeps_selection(s: StateView, keys: Seq<Key>, entries: Seq<EntryView>)
    requires
        selection_in_bounds(s.selected_index, entries.len() as int),
    ensures
        selection_in_bounds(run_keys(s, keys, entries).selected_index, entries.len() as int),
    decreases keys.len(),
{
    if keys.len() > 0 {
        lemma_run_keeps_selection(s, keys.drop_last(), entries);
        lemma_step_keeps_selection(run_keys(s, keys.drop_last(), entries), keys.last(), entries);
    }
}

/// Arrow keys in plain navigation change nothing but the selection.
pub proof fn lemma_arrows_stay_in_navigation(s: StateView, keys: Seq<Key>, entries: Seq<EntryView>)
    requires
        s.mode == PopupMode::Normal,
        only_arrows(keys),
    ensures
        run_keys(s, keys, entries) == (StateView {
            selected_index: run_keys(s, keys, entries).selected_index,
            ..s
        }),
    decreases keys.len(),
{
    if keys.len() > 0 {
        assert(keys.last() == Key::Up || keys.last() == Key::Down);
        lemma_arrows_stay_in_navigation(s, keys.drop_last(), entries);
    }
}

/// Presses of one arrow key only, all Up or all Down, move the selection
/// by their number and stop at the store's first or last finding.
pub proof fn lemma_same_arrow_presses(s: StateView, keys: Seq<Key>, entries: Seq<EntryView>)
    requires
        s.mode == PopupMode::Normal,
        selection_in_bounds(s.selected_index, entries.len() as int),
        (forall|i: int| 0 <= i < keys.len() ==> keys[i] == Key::Up) || (forall|i: int|
            0 <= i < keys.len() ==> keys[i] == Key::Down),
    ensures
        run_keys(s, keys, entries).selected_index == clamp_index(
            s.selected_index + net_delta(keys),
            entries.len() as int,
        ),
    decreases keys.len(),
{
    if keys.len() > 0 {
        let front = keys.drop_last();
        assert(keys.last() == keys[keys.len() - 1]);
        assert(forall|i: int| 0 <= i < front.len() ==> front[i] == keys[i]);
        lemma_same_arrow_presses(s, front, entries);
        assert(only_arrows(front));
        lemma_arrows_stay_in_navigation(s, front, entries);
        lemma_same_direction_delta(front);
    }
}

/// The requested move of presses of one arrow key is their number, back
/// or forward.
proof fn lemma_same_direction_delta(keys: Seq<Key>)
    ensures
        (forall|i: int| 0 <= i < keys.len() ==> keys[i] == Key::Up) ==> net_delta(keys)
            == -keys.len(),
        (forall|i: int| 0 <= i < keys.len() ==> keys[i] == Key::Down) ==> net_delta(keys)
            == keys.len(),
    decreases keys.len(),
{
    if keys.len() > 0 {
        let front = keys.drop_last();
        assert(forall|i: int| 0 <= i < front.len() ==> front[i] == keys[i]);
        assert(keys.last() == keys[keys.len() - 1]);
        lemma_same_direction_delta(front);
    }
}

/// Up and Down presses in any order move the selection by their net
/// count, as long as that count, taken after each press, never asks for a
/// position outside the store.
pub proof fn lemma_arrow_presses_within_store(
    s: StateView,
    keys: Seq<Key>,
    entries: Seq<EntryView>,
)
    requires
        s.mode == PopupMode::Normal,
        only_arrows(keys),
        forall|k: int|
            0 <= k <= keys.len() ==> 0 <= s.selected_index + #[trigger] net_delta(keys.take(k))
                < entries.len(),
    ensures
        run_keys(s, keys, entries).selected_index == s.selected_index + net_delta(keys),
        run_keys(s, keys, entries).selected_index == clamp_index(
            s.selected_index + net_delta(keys),
            entries.len() as int,
        ),
    decreases keys.len(),
{
    assert(keys.take(keys.len() as int) =~= keys);
    if keys.len() > 0 {
        let front = keys.drop_last();
        assert(keys.last() == Key::Up || keys.last() == Key::Down);
        assert forall|k: int| 0 <= k <= front.len() implies 0 <= s.selected_index
            + #[trigger] net_delta(front.take(k)) < entries.len() by {
            assert(front.take(k) =~= keys.take(k));
        }
        assert(only_arrows(front));
        lemma_arrow_presses_within_store(s, front, entries);
        lemma_arrows_stay_in_navigation(s, front, entries);
        assert(front.take(front.len() as int) =~= front);
        assert(keys.take(keys.len() - 1) =~= front);
    }
}

/// The characters that a sequence of key presses types.
pub open spec fn typed_text(keys: Seq<Key>) -> Seq<char>
    decreases keys.len(),
{
    if keys.len() == 0 {
        Seq::empty()
    } else {
        match keys.last() {
            Key::Char(c) => typed_text(keys.drop_last()).push(c),
            _ => typed_text(keys.drop_last()),
        }
    }
}

/// Every key is a character key.
pub open spec fn only_chars(keys: Seq<Key>) -> bool {
    forall|i: int| 0 <= i < keys.len() ==> (#[trigger] keys[i]) is Char
}

/// Typing into an open popup appends exactly the typed characters to its
/// text and changes nothing else.
pub proof fn lemma_typing_appends(s: StateView, keys: Seq<Key>, entries: Seq<EntryView>)
    requires
        s.mode != PopupMode::Normal,
        only_chars(keys),
    ensures
        run_keys(s, keys, entries) == (StateView {
            input_buffer: s.input_buffer + typed_text(keys),
            ..s
        }),
    decreases keys.len(),
{
    if keys.len() == 0 {
        assert(s.input_buffer + typed_text(keys) =~= s.input_buffer);
    } else {
        let front = keys.drop_last();
        assert(keys.last() is Char);
        assert(only_chars(front));
        lemma_typing_appends(s, front, entries);
        assert((s.input_buffer + typed_text(front)).push(keys.last()->Char_0) =~= s.input_buffer
            + typed_text(keys));
    }
}

/// Enter in the search popup, on text that spells the bytes of a finding,
/// selects the first such finding and returns to plain navigation.
pub proof fn lemma_search_hit(s: StateView, entries: Seq<EntryView>, bytes: Seq<u8>, i: int)
    requires
        s.mode == PopupMode::Search,
        parse_hex_bytes(s.input_buffer) == Some(bytes),
        is_first_with_bytes(entries, bytes, i),
    ensures
        step(s, Key::Enter, entries).mode == PopupMode::Normal,
        step(s, Key::Enter, entries).selected_index == i,
{
    let w = choose|w: int| is_first_with_bytes(entries, bytes, w);
    assert(is_first_with_bytes(entries, bytes, w));
    if w < i {
        assert(entries[w].bytes != bytes);
    }
    if i < w {
        assert(entries[i].bytes != bytes);
    }
}

/// Enter in the search popup, on text that spells bytes no finding has,
/// leaves the popup open and the selection alone, and reports that nothing
/// matched.
pub proof fn lemma_search_miss(s: StateView, entries: Seq<EntryView>, bytes: Seq<u8>)
    requires
        s.mode == PopupMode::Search,
        parse_hex_bytes(s.input_buffer) == Some(bytes),
        forall|j: int| 0 <= j < entries.len() ==> (#[trigger] entries[j]).bytes != bytes,
    ensures
        step(s, Key::Enter, entries) == (StateView { error: Some(InputError::NoMatch), ..s }),
{
    assert forall|w: int| !is_first_with_bytes(entries, bytes, w) by {
        if 0 <= w < entries.len() {
            assert(entries[w].bytes != bytes);
        }
    }
}

/// Enter in the go-to-address popup, on a readable address that some
/// finding reaches, selects the first finding in store order at or after
/// that address and returns to plain navigation.
pub proof fn lemma_goto_hit(s: StateView, entries: Seq<EntryView>, addr: usize, i: int)
    requires
        s.mode == PopupMode::GoToAddress,
        parse_hex_address(s.input_buffer) == Some(addr),
        is_first_at_or_after(entries, addr as int, i),
    ensures
        step(s, Key::Enter, entries).mode == PopupMode::Normal,
        step(s, Key::Enter, entries).selected_index == i,
{
    let w = choose|w: int| is_first_at_or_after(entries, addr as int, w);
    assert(is_first_at_or_after(entries, addr as int, w));
    if w < i {
        assert(entries[w].address < addr);
    }
    if i < w {
        assert(entries[i].address < addr);
    }
}

/// Two frames projected from the same state, store, totals and viewport
/// are equal.
pub proof fn lemma_projection_repeats(
    first: ViewModelView,
    second: ViewModelView,
    s: StateView,
    entries: Seq<EntryView>,
    summary: Summary,
    rows: int,
)
    requires
        first == projection(s, entries, summary, rows),
        second == projection(s, entries, summary, rows),
    ensures
        first == second,
{
}

/// Projecting is idempotent in the scroll offset: with a viewport of at
/// least one line, a state that has taken over the scroll offset of its
/// frame projects to the same frame again.
pub proof fn lemma_projection_settles(
    s: StateView,
    entries: Seq<EntryView>,
    summary: Summary,
    rows: int,
)
    requires
        rows > 0,
    ensures
        projection(
            StateView { scroll_offset: projection(s, entries, summary, rows).scroll_offset, ..s },
            entries,
            summary,
            rows,
        ) == projection(s, entries, summary, rows),
{
    let start = adjusted_scroll(s.scroll_offset, s.selected_index, rows);
    assert(adjusted_scroll(start, s.selected_index, rows) == start);
}

/// After a popup is opened from plain navigation and text is typed, the
/// popup's text is exactly what was typed since, and no error is set.
pub proof fn lemma_open_then_type(
    s: StateView,
    opener: char,
    keys: Seq<Key>,
    entries: Seq<EntryView>,
)
    requires
        s.mode == PopupMode::Normal,
        opener == '/' || opener == 'g',
        only_chars(keys),
    ensures
        run_keys(step(s, Key::Char(opener), entries), keys, entries) == (StateView {
            mode: if opener == '/' {
                PopupMode::Search
            } else {
                PopupMode::GoToAddress
            },
            input_buffer: typed_text(keys),
            error: None,
            ..s
        }),
{
    let open = step(s, Key::Char(opener), entries);
    lemma_typing_appends(open, keys, entries);
    assert(Seq::<char>::empty() + typed_text(keys) =~= typed_text(keys));
}

/// With a viewport of at least one line the recomputed window holds the
/// selected finding, and no offset that does so lies nearer to the old
/// one.
pub proof fn lemma_scroll_is_least_move(scroll: int, selected: int, rows: int, other: int)
    requires
        rows > 0,
    ensures
        adjusted_scroll(scroll, selected, rows) <= selected < adjusted_scroll(
            scroll,
            selected,
            rows,
        ) + rows,
        other <= selected < other + rows ==> distance(
            adjusted_scroll(scroll, selected, rows),
            scroll,
        ) <= distance(other, scroll),
{
}

/// How far apart two offsets are.
pub open spec fn distance(a: int, b: int) -> int {
    if a >= b {
        a - b
    } else {
        b - a
    }
}

/// Enter in the search popup, on text that is no even number of
/// hexadecimal digits, leaves the popup open, the selection and the text
/// alone, and reports the malformed text.
pub proof fn lemma_search_invalid(s: StateView, entries: Seq<EntryView>)
    requires
        s.mode == PopupMode::Search,
        parse_hex_bytes(s.input_buffer) is None,
    ensures
        step(s, Key::Enter, entries) == (StateView { error: Some(InputError::InvalidHex), ..s }),
{
}

/// Enter in the go-to-address popup, on text that is no hexadecimal
/// address, leaves the popup open, the selection and the text alone, and
/// reports the malformed address.
pub proof fn lemma_goto_invalid(s: StateView, entries: Seq<EntryView>)
    requires
        s.mode == PopupMode::GoToAddress,
        parse_hex_address(s.input_buffer) is None,
    ensures
        step(s, Key::Enter, entries) == (StateView {
            error: Some(InputError::InvalidAddress),
            ..s
        }),
{
}

/// Enter in the go-to-address popup, on an address above that of every
/// finding, leaves the popup open, the selection and the text alone, and
/// reports that the address was not found. This is always so over an
/// empty store.
pub proof fn lemma_goto_miss(s: StateView, entries: Seq<EntryView>, addr: usize)
    requires
        s.mode == PopupMode::GoToAddress,
        parse_hex_address(s.input_buffer) == Some(addr),
        forall|j: int| 0 <= j < entries.len() ==> (#[trigger] entries[j]).address < addr,
    ensures
        step(s, Key::Enter, entries) == (StateView {
            error: Some(InputError::AddressNotFound),
            ..s
        }),
{
    assert forall|w: int| !is_first_at_or_after(entries, addr as int, w) by {
        if 0 <= w < entries.len() {
            assert(entries[w].address < addr);
        }
    }
}

/// A second `0x` in front of an address, or a sign, makes the text no
/// address: only one leading `0x` is taken off, and what is left must be
/// hexadecimal digits.
pub proof fn lemma_address_takes_one_prefix(s: Seq<char>)
    requires
        s.len() >= 2,
        s[0] == '0',
        s[1] == 'x',
        s.len() == 2 || !is_hex_digit(s[2]),
    ensures
        parse_hex_address(s) is None,
{
    if s.len() > 2 {
        assert(s.skip(2)[0] == s[2]);
    }
}

} // verus!
