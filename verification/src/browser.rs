//! The navigation state machine: which finding is selected, which input
//! mode is open, and how each key changes that.

use vstd::prelude::*;
use vstd::string::StringExecFns;
use crate::entry::ResultEntry;
use crate::entry::EntryView;
use crate::entry::entries_view;
use crate::text::parse_hex_bytes;
use crate::text::parse_hex_address;
use crate::text::hex_string_to_bytes;
use crate::text::parse_address;
use crate::text::push_char;
use crate::text::pop_char;

verus! {

/// The input mode. `Normal` is plain navigation; the other two show a popup
/// that collects text.
#[derive(Clone, Copy, Debug, PartialEq, Eq, Structural)]
pub enum PopupMode {
    Normal,
    Search,
    GoToAddress,
}

/// A key press, reduced to what the browser tells apart.
#[derive(Clone, Copy, Debug, PartialEq, Eq, Structural)]
pub enum Key {
    Char(char),
    Enter,
    Esc,
    Backspace,
    Up,
    Down,
    Other,
}

/// Why the text of a popup was not acted on.
#[derive(Clone, Copy, Debug, PartialEq, Eq, Structural)]
pub enum InputError {
    InvalidHex,
    NoMatch,
    InvalidAddress,
    AddressNotFound,
}

/// Whether the session goes on after a key.
#[derive(Clone, Copy, Debug, PartialEq, Eq, Structural)]
pub enum Outcome {
    Continue,
    Exit,
}

/// The browser's state.
#[derive(Clone, Debug, PartialEq, Eq)]
pub struct BrowserState {
    pub selected_index: usize,
    pub scroll_offset: usize,
    pub mode: PopupMode,
    pub input_buffer: String,
    pub error: Option<InputError>,
}

/// Mathematical value of a [`BrowserState`].
pub struct StateView {
    pub selected_index: int,
    pub scroll_offset: int,
    pub mode: PopupMode,
    pub input_buffer: Seq<char>,
    pub error: Option<InputError>,
}

impl View for BrowserState {
    type V = StateView;

    open spec fn view(&self) -> StateView {
        StateView {
            selected_index: self.selected_index as int,
            scroll_offset: self.scroll_offset as int,
            mode: self.mode,
            input_buffer: self.input_buffer@,
            error: self.error,
        }
    }
}

/// The message shown for an error.
pub open spec fn error_text(e: InputError) -> Seq<char> {
    match e {
        InputError::InvalidHex => "Invalid hex format"@,
        InputError::NoMatch => "No match found"@,
        InputError::InvalidAddress => "Invalid address format"@,
        InputError::AddressNotFound => "Address not found"@,
    }
}

/// The selection points into a store of `len` findings: below `len`, and
/// zero when there is none.
pub open spec fn selection_in_bounds(selected: int, len: int) -> bool {
    0 <= selected && (len > 0 ==> selected < len) && (len <= 0 ==> selected == 0)
}

/// `i` is the first finding whose bytes are exactly `bytes`.
pub open spec fn is_first_with_bytes(entries: Seq<EntryView>, bytes: Seq<u8>, i: int) -> bool {
    0 <= i < entries.len() && entries[i].bytes == bytes && forall|j: int|
        0 <= j < i ==> (#[trigger] entries[j]).bytes != bytes
}

/// The first finding whose bytes are exactly `bytes`, if there is one.
pub open spec fn search_target(entries: Seq<EntryView>, bytes: Seq<u8>) -> Option<int> {
    if exists|i: int| is_first_with_bytes(entries, bytes, i) {
        Some(choose|i: int| is_first_with_bytes(entries, bytes, i))
    } else {
        None
    }
}

/// `i` is the first finding whose address is `addr` or higher.
pub open spec fn is_first_at_or_after(entries: Seq<EntryView>, addr: int, i: int) -> bool {
    0 <= i < entries.len() && entries[i].address >= addr && forall|j: int|
        0 <= j < i ==> (#[trigger] entries[j]).address < addr
}

/// The first finding whose address is `addr` or higher, if there is one.
/// The store is not sorted by address, so this is the first in store
/// order, not the nearest.
pub open spec fn address_target(entries: Seq<EntryView>, addr: int) -> Option<int> {
    if exists|i: int| is_first_at_or_after(entries, addr, i) {
        Some(choose|i: int| is_first_at_or_after(entries, addr, i))
    } else {
        None
    }
}

/// The state after opening a popup: empty input, no error.
pub open spec fn opened(s: StateView, mode: PopupMode) -> StateView {
    StateView { mode, input_buffer: Seq::empty(), error: None, ..s }
}

/// The state after Enter in the search popup.
pub open spec fn search_entered(s: StateView, entries: Seq<EntryView>) -> StateView {
    match parse_hex_bytes(s.input_buffer) {
        None => StateView { error: Some(InputError::InvalidHex), ..s },
        Some(bytes) => match search_target(entries, bytes) {
            Some(i) => StateView { selected_index: i, mode: PopupMode::Normal, ..s },
            None => StateView { error: Some(InputError::NoMatch), ..s },
        },
    }
}

/// The state after Enter in the go-to-address popup.
pub open spec fn address_entered(s: StateView, entries: Seq<EntryView>) -> StateView {
    match parse_hex_address(s.input_buffer) {
        None => StateView { error: Some(InputError::InvalidAddress), ..s },
        Some(addr) => match address_target(entries, addr as int) {
            Some(i) => StateView { selected_index: i, mode: PopupMode::Normal, ..s },
            None => StateView { error: Some(InputError::AddressNotFound), ..s },
        },
    }
}

/// The state after a key that edits the text of an open popup, or closes
/// it without acting.
pub open spec fn popup_edited(s: StateView, key: Key) -> StateView {
    match key {
        Key::Char(c) => StateView { input_buffer: s.input_buffer.push(c), ..s },
        Key::Backspace => if s.input_buffer.len() > 0 {
            StateView { input_buffer: s.input_buffer.drop_last(), ..s }
        } else {
            s
        },
        Key::Esc => StateView { mode: PopupMode::Normal, input_buffer: Seq::empty(), ..s },
        _ => s,
    }
}

/// The state after a key in plain navigation.
pub open spec fn navigated(s: StateView, key: Key, len: int) -> StateView {
    match key {
        Key::Char(c) => if c == '/' {
            opened(s, PopupMode::Search)
        } else if c == 'g' {
            opened(s, PopupMode::GoToAddress)
        } else {
            s
        },
        Key::Up => if s.selected_index > 0 {
            StateView { selected_index: s.selected_index - 1, ..s }
        } else {
            s
        },
        Key::Down => if s.selected_index + 1 < len {
            StateView { selected_index: s.selected_index + 1, ..s }
        } else {
            s
        },
        _ => s,
    }
}

/// The key ends the session: Esc or `q` in plain navigation.
pub open spec fn is_exit(mode: PopupMode, key: Key) -> bool {
    mode == PopupMode::Normal && (key == Key::Esc || key == Key::Char('q'))
}

/// The transition function: the state that follows `s` on `key`, over a
/// store of findings `entries`.
pub open spec fn step(s: StateView, key: Key, entries: Seq<EntryView>) -> StateView {
    match s.mode {
        PopupMode::Normal => navigated(s, key, entries.len() as int),
        PopupMode::Search => if key == Key::Enter {
            search_entered(s, entries)
        } else {
            popup_edited(s, key)
        },
        PopupMode::GoToAddress => if key == Key::Enter {
            address_entered(s, entries)
        } else {
            popup_edited(s, key)
        },
    }
}

fn bytes_equal(a: &[u8], b: &[u8]) -> (r: bool)
    ensures
        r == (a@ == b@),
{
    if a.len() != b.len() {
        return false;
    }
    let mut i: usize = 0;
    while i < a.len()
        invariant
            a@.len() == b@.len(),
            i <= a@.len(),
            forall|k: int| 0 <= k < i ==> a@[k] == b@[k],
        decreases a@.len() - i,
    {
        if a[i] != b[i] {
            return false;
        }
        i = i + 1;
    }
    proof {
        assert(a@ =~= b@);
    }
    true
}

/// Finds the first entry whose bytes are exactly `bytes`.
pub fn find_by_bytes(results: &[ResultEntry], bytes: &[u8]) -> (r: Option<usize>)
    ensures
        match r {
            Some(i) => search_target(entries_view(results@), bytes@) == Some(i as int)
                && is_first_with_bytes(entries_view(results@), bytes@, i as int),
            None => search_target(entries_view(results@), bytes@) is None,
        },
{
    let ghost entries = entries_view(results@);
    let mut i: usize = 0;
    while i < results.len()
        invariant
            entries == entries_view(results@),
            i <= results@.len(),
            forall|j: int| 0 <= j < i ==> (#[trigger] entries[j]).bytes != bytes@,
        decreases results@.len() - i,
    {
        if bytes_equal(results[i].bytes.as_slice(), bytes) {
            proof {
                assert(is_first_with_bytes(entries, bytes@, i as int));
                let w = choose|w: int| is_first_with_bytes(entries, bytes@, w);
                assert(w == i) by {
                    if w < i {
                        assert(entries[w].bytes != bytes@);
                    }
                    if i < w {
                        assert(entries[i as int].bytes != bytes@);
                    }
                }
            }
            return Some(i);
        }
        i = i + 1;
    }
    proof {
        assert forall|w: int| !is_first_with_bytes(entries, bytes@, w) by {
            if 0 <= w < entries.len() {
                assert(entries[w].bytes != bytes@);
            }
        }
    }
    None
}

/// Finds the first entry, in store order, whose address is `addr` or
/// higher.
pub fn find_by_address(results: &[ResultEntry], addr: usize) -> (r: Option<usize>)
    ensures
        match r {
            Some(i) => address_target(entries_view(results@), addr as int) == Some(i as int)
                && is_first_at_or_after(entries_view(results@), addr as int, i as int),
            None => address_target(entries_view(results@), addr as int) is None,
        },
{
    let ghost entries = entries_view(results@);
    let mut i: usize = 0;
    while i < results.len()
        invariant
            entries == entries_view(results@),
            i <= results@.len(),
            forall|j: int| 0 <= j < i ==> (#[trigger] entries[j]).address < addr,
        decreases results@.len() - i,
    {
        if results[i].address >= addr {
            proof {
                assert(is_first_at_or_after(entries, addr as int, i as int));
                let w = choose|w: int| is_first_at_or_after(entries, addr as int, w);
                assert(w == i) by {
                    if w < i {
                        assert(entries[w].address < addr);
                    }
                    if i < w {
                        assert(entries[i as int].address < addr);
                    }
                }
            }
            return Some(i);
        }
        i = i + 1;
    }
    proof {
        assert forall|w: int| !is_first_at_or_after(entries, addr as int, w) by {
            if 0 <= w < entries.len() {
                assert(entries[w].address < addr);
            }
        }
    }
    None
}

impl InputError {
    /// The message shown for this error.
    pub fn message(&self) -> (s: String)
        ensures
            s@ == error_text(*self),
    {
        match self {
            InputError::InvalidHex => String::from_str("Invalid hex format"),
            InputError::NoMatch => String::from_str("No match found"),
            InputError::InvalidAddress => String::from_str("Invalid address format"),
            InputError::AddressNotFound => String::from_str("Address not found"),
        }
    }
}

impl BrowserState {
    /// The selection points into a store of `len` findings.
    pub open spec fn wf(&self, len: int) -> bool {
        selection_in_bounds(self.selected_index as int, len)
    }

    /// The initial state: first finding selected, no popup.
    pub fn new() -> (s: BrowserState)
        ensures
            s@ == (StateView {
                selected_index: 0,
                scroll_offset: 0,
                mode: PopupMode::Normal,
                input_buffer: Seq::empty(),
                error: None,
            }),
            forall|len: int| s.wf(len),
    {
        BrowserState {
            selected_index: 0,
            scroll_offset: 0,
            mode: PopupMode::Normal,
            input_buffer: String::new(),
            error: None,
        }
    }

    /// The text typed into the popup so far.
    pub fn input(&self) -> (s: String)
        ensures
            s@ == self@.input_buffer,
    {
        self.input_buffer.clone()
    }

    /// The message of the last error, if one is set.
    pub fn error_message(&self) -> (m: Option<String>)
        ensures
            m is Some == self.error is Some,
            m is Some ==> m->0@ == error_text(self.error->0),
    {
        match self.error {
            Some(e) => Some(e.message()),
            None => None,
        }
    }

    /// Applies one key press.
    ///
    /// The new state is the one the transition function gives, and the
    /// result says whether the key ends the session. A selection that
    /// pointed into the store still does.
    pub fn handle_key(&mut self, key: Key, results: &[ResultEntry]) -> (outcome: Outcome)
        ensures
            final(self)@ == step(old(self)@, key, entries_view(results@)),
            outcome == Outcome::Exit <==> is_exit(old(self).mode, key),
            old(self).wf(results@.len() as int) ==> final(self).wf(results@.len() as int),
    {
        match self.mode {
            PopupMode::Normal => {
                match key {
                    Key::Char(c) => {
                        if c == '/' {
                            self.mode = PopupMode::Search;
                            self.input_buffer = String::new();
                            self.error = None;
                        } else if c == 'g' {
                            self.mode = PopupMode::GoToAddress;
                            self.input_buffer = String::new();
                            self.error = None;
                        } else if c == 'q' {
                            return Outcome::Exit;
                        }
                    },
                    Key::Esc => {
                        return Outcome::Exit;
                    },
                    Key::Up => {
                        if self.selected_index > 0 {
                            self.selected_index = self.selected_index - 1;
                        }
                    },
                    Key::Down => {
                        if results.len() > 0 && self.selected_index < results.len() - 1 {
                            self.selected_index = self.selected_index + 1;
                        }
                    },
                    _ => {},
                }
            },
            PopupMode::Search => {
                match key {
                    Key::Enter => {
                        match hex_string_to_bytes(self.input_buffer.as_str()) {
                            Some(bytes) => {
                                match find_by_bytes(results, bytes.as_slice()) {
                                    Some(index) => {
                                        self.selected_index = index;
                                        self.mode = PopupMode::Normal;
                                    },
                                    None => {
                                        self.error = Some(InputError::NoMatch);
                                    },
                                }
                            },
                            None => {
                                self.error = Some(InputError::InvalidHex);
                            },
                        }
                    },
                    _ => {
                        self.edit_popup(key);
                    },
                }
            },
            PopupMode::GoToAddress => {
                match key {
                    Key::Enter => {
                        match parse_address(self.input_buffer.as_str()) {
                            Some(addr) => {
                                match find_by_address(results, addr) {
                                    Some(index) => {
                                        self.selected_index = index;
                                        self.mode = PopupMode::Normal;
                                    },
                                    None => {
                                        self.error = Some(InputError::AddressNotFound);
                                    },
                                }
                            },
                            None => {
                                self.error = Some(InputError::InvalidAddress);
                            },
                        }
                    },
                    _ => {
                        self.edit_popup(key);
                    },
                }
            },
        }
        Outcome::Continue
    }

    fn edit_popup(&mut self, key: Key)
        ensures
            final(self)@ == popup_edited(old(self)@, key),
    {
        match key {
            Key::Char(c) => {
                push_char(&mut self.input_buffer, c);
            },
            Key::Backspace => {
                let _ = pop_char(&mut self.input_buffer);
            },
            Key::Esc => {
                self.mode = PopupMode::Normal;
                self.input_buffer = String::new();
            },
            _ => {},
        }
    }
}

} // verus!
