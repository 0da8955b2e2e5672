//! The projection of the browser's state into what a front end draws.

use vstd::prelude::*;
use vstd::string::StringExecFns;
use crate::entry::ResultEntry;
use crate::entry::EntryView;
use crate::entry::Summary;
use crate::entry::entries_view;
use crate::browser::BrowserState;
use crate::browser::StateView;
use crate::browser::PopupMode;
use crate::browser::error_text;
use crate::text::bytes_to_hex;
use crate::text::hex_text;
use crate::text::format_number;
use crate::text::number_text;

verus! {

/// One line of the list of findings.
#[derive(Clone, Debug, PartialEq, Eq)]
pub struct Row {
    pub text: String,
    /// The line is the selected finding's.
    pub selected: bool,
}

/// The panel on the selected finding.
#[derive(Clone, Debug, PartialEq, Eq)]
pub struct Detail {
    pub address: String,
    pub content: String,
    pub bytes: String,
    /// One line for every finding near the selected one, in store order.
    pub context: Vec<String>,
}

/// The popup of an open input mode.
#[derive(Clone, Debug, PartialEq, Eq)]
pub struct Popup {
    pub title: String,
    pub input: String,
    /// The last error's message, or empty.
    pub error: String,
}

/// Everything a front end needs to draw one frame.
#[derive(Clone, Debug, PartialEq, Eq)]
pub struct ViewModel {
    pub menu: String,
    /// Index of the first visible finding; the caller keeps it as the
    /// state's scroll offset for the next frame.
    pub scroll_offset: usize,
    pub rows: Vec<Row>,
    pub detail: Option<Detail>,
    pub summary: String,
    pub popup: Option<Popup>,
}

/// Mathematical value of a [`Row`].
pub struct RowView {
    pub text: Seq<char>,
    pub selected: bool,
}

/// Mathematical value of a [`Detail`].
pub struct DetailView {
    pub address: Seq<char>,
    pub content: Seq<char>,
    pub bytes: Seq<char>,
    pub context: Seq<Seq<char>>,
}

/// Mathematical value of a [`Popup`].
pub struct PopupView {
    pub title: Seq<char>,
    pub input: Seq<char>,
    pub error: Seq<char>,
}

/// Mathematical value of a [`ViewModel`].
pub struct ViewModelView {
    pub menu: Seq<char>,
    pub scroll_offset: int,
    pub rows: Seq<RowView>,
    pub detail: Option<DetailView>,
    pub summary: Seq<char>,
    pub popup: Option<PopupView>,
}

impl View for Row {
    type V = RowView;

    open spec fn view(&self) -> RowView {
        RowView { text: self.text@, selected: self.selected }
    }
}

/// The texts of a vector of strings.
pub open spec fn lines_view(v: Seq<String>) -> Seq<Seq<char>> {
    Seq::new(v.len(), |i: int| v[i]@)
}

/// The values of a vector of rows.
pub open spec fn rows_view(v: Seq<Row>) -> Seq<RowView> {
    Seq::new(v.len(), |i: int| v[i]@)
}

impl View for Detail {
    type V = DetailView;

    open spec fn view(&self) -> DetailView {
        DetailView {
            address: self.address@,
            content: self.content@,
            bytes: self.bytes@,
            context: lines_view(self.context@),
        }
    }
}

impl View for Popup {
    type V = PopupView;

    open spec fn view(&self) -> PopupView {
        PopupView { title: self.title@, input: self.input@, error: self.error@ }
    }
}

impl View for ViewModel {
    type V = ViewModelView;

    open spec fn view(&self) -> ViewModelView {
        ViewModelView {
            menu: self.menu@,
            scroll_offset: self.scroll_offset as int,
            rows: rows_view(self.rows@),
            detail: match self.detail {
                Some(d) => Some(d@),
                None => None,
            },
            summary: self.summary@,
            popup: match self.popup {
                Some(p) => Some(p@),
                None => None,
            },
        }
    }
}

/// The scroll offset moved by the least amount that brings the selected
/// finding into a window of `rows` lines.
pub open spec fn adjusted_scroll(scroll: int, selected: int, rows: int) -> int {
    if selected < scroll {
        selected
    } else if selected >= scroll + rows {
        selected - rows + 1
    } else {
        scroll
    }
}

/// An address as shown: `0x` and upper-case hexadecimal digits.
pub open spec fn address_text(address: int) -> Seq<char> {
    "0x"@ + number_text(address, true)
}

/// The line of a finding: its address, a colon, its bytes as a hex dump.
pub open spec fn row_text(e: EntryView) -> Seq<char> {
    address_text(e.address) + ": "@ + hex_text(e.bytes)
}

/// How many findings a window of `rows` lines that starts at `start`
/// shows.
pub open spec fn window_len(len: int, start: int, rows: int) -> int {
    if start >= len {
        0
    } else if len - start < rows {
        len - start
    } else {
        rows
    }
}

/// The visible lines: the findings from `start` on, as many as fit.
pub open spec fn visible_rows(entries: Seq<EntryView>, start: int, rows: int, selected: int) -> Seq<
    RowView,
> {
    Seq::new(
        window_len(entries.len() as int, start, rows) as nat,
        |i: int| RowView { text: row_text(entries[start + i]), selected: start + i == selected },
    )
}

/// The finding lies within sixteen bytes of `address`, before or after.
pub open spec fn is_near(e: EntryView, address: int) -> bool {
    address - 16 <= e.address <= address + 16
}

/// The lines of the findings near `address`, in store order.
pub open spec fn context_lines(entries: Seq<EntryView>, address: int) -> Seq<Seq<char>>
    decreases entries.len(),
{
    if entries.len() == 0 {
        Seq::empty()
    } else if is_near(entries.last(), address) {
        context_lines(entries.drop_last(), address).push(row_text(entries.last()))
    } else {
        context_lines(entries.drop_last(), address)
    }
}

/// The detail panel: present when the selection points at a finding.
pub open spec fn detail_of(entries: Seq<EntryView>, selected: int) -> Option<DetailView> {
    if 0 <= selected < entries.len() {
        let e = entries[selected];
        Some(
            DetailView {
                address: address_text(e.address),
                content: e.content,
                bytes: hex_text(e.bytes),
                context: context_lines(entries, e.address),
            },
        )
    } else {
        None
    }
}

/// The summary line.
pub open spec fn summary_text(summary: Summary) -> Seq<char> {
    "Total Entries: "@ + number_text(summary.total_entries as int, false)
        + " | Patterns Detected: "@ + number_text(summary.total_patterns as int, false)
        + " | ASCII Strings Found: "@ + number_text(summary.total_ascii_strings as int, false)
}

/// The menu line of a mode.
pub open spec fn menu_text(mode: PopupMode, input: Seq<char>) -> Seq<char> {
    match mode {
        PopupMode::Normal => "q: Quit | \u{2191}\u{2193}: Navigate | /: Search | g: Go to Address"@,
        PopupMode::Search => "Search: "@ + input + " (Enter to search, Esc to cancel)"@,
        PopupMode::GoToAddress => "Go to Address: "@ + input + " (Enter to jump, Esc to cancel)"@,
    }
}

/// The title of a mode's popup.
pub open spec fn popup_title(mode: PopupMode) -> Seq<char> {
    match mode {
        PopupMode::Search => "Search for ASCII or Hex"@,
        _ => "Go to Address"@,
    }
}

/// The popup: present when an input mode is open.
pub open spec fn popup_of(s: StateView) -> Option<PopupView> {
    if s.mode == PopupMode::Normal {
        None
    } else {
        Some(
            PopupView {
                title: popup_title(s.mode),
                input: s.input_buffer,
                error: match s.error {
                    Some(e) => error_text(e),
                    None => ""@,
                },
            },
        )
    }
}

/// The frame for a state, a store of findings, the totals and a viewport
/// of `rows` lines.
pub open spec fn projection(
    s: StateView,
    entries: Seq<EntryView>,
    summary: Summary,
    rows: int,
) -> ViewModelView {
    let start = adjusted_scroll(s.scroll_offset, s.selected_index, rows);
    ViewModelView {
        menu: menu_text(s.mode, s.input_buffer),
        scroll_offset: start,
        rows: visible_rows(entries, start, rows, s.selected_index),
        detail: detail_of(entries, s.selected_index),
        summary: summary_text(summary),
        popup: popup_of(s),
    }
}

/// Writes an address as `0x` and upper-case hexadecimal digits.
pub fn format_address(address: usize) -> (s: String)
    ensures
        s@ == address_text(address as int),
{
    let mut s = String::from_str("0x");
    let digits = format_number(address, true);
    s.append(digits.as_str());
    s
}

/// Writes the line of a finding: address, colon, hex dump of the bytes.
pub fn entry_line(e: &ResultEntry) -> (s: String)
    ensures
        s@ == row_text(e@),
{
    let mut s = format_address(e.address);
    s.append(": ");
    let dump = bytes_to_hex(e.bytes.as_slice());
    s.append(dump.as_str());
    s
}

fn near(address: usize, center: usize) -> (r: bool)
    ensures
        r == (center - 16 <= address <= center + 16),
{
    if address >= center {
        address - center <= 16
    } else {
        center - address <= 16
    }
}

fn context_of(results: &[ResultEntry], center: usize) -> (lines: Vec<String>)
    ensures
        lines_view(lines@) == context_lines(entries_view(results@), center as int),
{
    let ghost entries = entries_view(results@);
    let mut lines: Vec<String> = Vec::new();
    let mut i: usize = 0;
    proof {
        assert(entries.take(0) =~= Seq::<EntryView>::empty());
        assert(lines_view(lines@) =~= Seq::<Seq<char>>::empty());
    }
    while i < results.len()
        invariant
            entries == entries_view(results@),
            i <= results@.len(),
            lines_view(lines@) == context_lines(entries.take(i as int), center as int),
        decreases results@.len() - i,
    {
        proof {
            assert(entries.take(i as int + 1).drop_last() =~= entries.take(i as int));
            assert(entries.take(i as int + 1).last() == results@[i as int]@);
        }
        if near(results[i].address, center) {
            let line = entry_line(&results[i]);
            let ghost before = lines@;
            lines.push(line);
            proof {
                assert(lines_view(lines@) =~= lines_view(before).push(line@));
            }
        }
        i = i + 1;
    }
    proof {
        assert(entries.take(results@.len() as int) =~= entries);
    }
    lines
}

/// Writes the summary line of the totals.
pub fn summary_line(summary: &Summary) -> (s: String)
    ensures
        s@ == summary_text(*summary),
{
    let mut s = String::from_str("Total Entries: ");
    let a = format_number(summary.total_entries, false);
    s.append(a.as_str());
    s.append(" | Patterns Detected: ");
    let b = format_number(summary.total_patterns, false);
    s.append(b.as_str());
    s.append(" | ASCII Strings Found: ");
    let c = format_number(summary.total_ascii_strings, false);
    s.append(c.as_str());
    s
}

fn menu_line(state: &BrowserState) -> (s: String)
    ensures
        s@ == menu_text(state.mode, state.input_buffer@),
{
    match state.mode {
        PopupMode::Normal => String::from_str(
            "q: Quit | \u{2191}\u{2193}: Navigate | /: Search | g: Go to Address",
        ),
        PopupMode::Search => {
            let mut s = String::from_str("Search: ");
            let input = state.input();
            s.append(input.as_str());
            s.append(" (Enter to search, Esc to cancel)");
            s
        },
        PopupMode::GoToAddress => {
            let mut s = String::from_str("Go to Address: ");
            let input = state.input();
            s.append(input.as_str());
            s.append(" (Enter to jump, Esc to cancel)");
            s
        },
    }
}

fn popup_for(state: &BrowserState) -> (p: Option<Popup>)
    ensures
        match p {
            Some(p) => popup_of(state@) == Some(p@),
            None => popup_of(state@) is None,
        },
{
    let title = match state.mode {
        PopupMode::Normal => {
            return None;
        },
        PopupMode::Search => String::from_str("Search for ASCII or Hex"),
        PopupMode::GoToAddress => String::from_str("Go to Address"),
    };
    let error = match state.error {
        Some(e) => e.message(),
        None => String::from_str(""),
    };
    Some(Popup { title, input: state.input(), error })
}

/// Projects the state into a frame.
///
/// The window of visible findings starts at the state's scroll offset,
/// moved by the least amount that shows the selected finding, and holds
/// `rows` lines or as many as the store has left. The result depends on
/// the arguments alone.
pub fn project(state: &BrowserState, results: &[ResultEntry], summary: &Summary, rows: usize) -> (vm:
    ViewModel)
    requires
        state.wf(results@.len() as int),
    ensures
        vm@ == projection(state@, entries_view(results@), *summary, rows as int),
        rows > 0 ==> vm.scroll_offset <= state.selected_index < vm.scroll_offset + rows,
{
    let selected: usize = state.selected_index;
    let n: usize = results.len();
    let ghost entries = entries_view(results@);
    let start: usize = if selected < state.scroll_offset {
        selected
    } else if selected - state.scroll_offset >= rows {
        selected - rows + 1
    } else {
        state.scroll_offset
    };
    let count: usize = if start >= n {
        0
    } else if n - start < rows {
        n - start
    } else {
        rows
    };
    let mut lines: Vec<Row> = Vec::new();
    let mut i: usize = 0;
    while i < count
        invariant
            entries == entries_view(results@),
            n == results@.len(),
            count == window_len(n as int, start as int, rows as int),
            i <= count,
            lines@.len() == i,
            forall|k: int|
                0 <= k < i ==> (#[trigger] lines@[k])@ == (RowView {
                    text: row_text(entries[start + k]),
                    selected: start + k == selected,
                }),
        decreases count - i,
    {
        let text = entry_line(&results[start + i]);
        lines.push(Row { text, selected: start + i == selected });
        i = i + 1;
    }
    proof {
        assert(rows_view(lines@) =~= visible_rows(
            entries,
            start as int,
            rows as int,
            selected as int,
        ));
    }
    let detail = if selected < n {
        let e = &results[selected];
        Some(
            Detail {
                address: format_address(e.address),
                content: e.content.clone(),
                bytes: bytes_to_hex(e.bytes.as_slice()),
                context: context_of(results, e.address),
            },
        )
    } else {
        None
    };
    ViewModel {
        menu: menu_line(state),
        scroll_offset: start,
        rows: lines,
        detail,
        summary: summary_line(summary),
        popup: popup_for(state),
    }
}

} // verus!
