use dumpscan::browser::{
    find_by_address, find_by_bytes, BrowserState, InputError, Key, Outcome, PopupMode,
};
use dumpscan::entry::ResultEntry;

fn entry(address: usize, bytes: &[u8]) -> ResultEntry {
    ResultEntry { content: format!("Pattern 'T{}'", address), address, bytes: bytes.to_vec() }
}

fn store() -> Vec<ResultEntry> {
    vec![
        entry(0x40, &[0x50, 0x4B, 0x03, 0x04]),
        entry(0x08, &[0xFF, 0xD8, 0xFF, 0xE0]),
        entry(0x20, &[0x89, 0x50, 0x4E, 0x47]),
        entry(0x10, &[0x50, 0x4B, 0x03, 0x04]),
        entry(0x30, b"abcdef"),
    ]
}

fn type_text(state: &mut BrowserState, text: &str, results: &[ResultEntry]) {
    for c in text.chars() {
        assert_eq!(state.handle_key(Key::Char(c), results), Outcome::Continue);
    }
}

#[test]
fn initial_state() {
    let s = BrowserState::new();
    assert_eq!(s.selected_index, 0);
    assert_eq!(s.scroll_offset, 0);
    assert_eq!(s.mode, PopupMode::Normal);
    assert_eq!(s.input(), "");
    assert_eq!(s.error_message(), None);
}

#[test]
fn up_and_down_stop_at_the_ends() {
    let results = store();
    let mut s = BrowserState::new();
    assert_eq!(s.handle_key(Key::Up, &results), Outcome::Continue);
    assert_eq!(s.selected_index, 0);
    for expected in [1usize, 2, 3, 4, 4, 4] {
        assert_eq!(s.handle_key(Key::Down, &results), Outcome::Continue);
        assert_eq!(s.selected_index, expected);
    }
    for expected in [3usize, 2, 1, 0, 0] {
        s.handle_key(Key::Up, &results);
        assert_eq!(s.selected_index, expected);
    }
}

#[test]
fn presses_of_one_arrow_clamp_the_net_move() {
    let results = store();
    for initial in 0..results.len() {
        for presses in 0..8usize {
            let mut down = BrowserState::new();
            down.selected_index = initial;
            let mut up = BrowserState::new();
            up.selected_index = initial;
            for _ in 0..presses {
                down.handle_key(Key::Down, &results);
                up.handle_key(Key::Up, &results);
            }
            assert_eq!(down.selected_index, (initial + presses).min(results.len() - 1));
            assert_eq!(up.selected_index, initial.saturating_sub(presses));
        }
    }
}

#[test]
fn mixed_arrows_within_the_store_add_up() {
    let results = store();
    let mut s = BrowserState::new();
    s.selected_index = 2;
    for key in [Key::Down, Key::Up, Key::Up, Key::Down, Key::Down, Key::Down] {
        s.handle_key(key, &results);
    }
    assert_eq!(s.selected_index, 4);
}

#[test]
fn an_arrow_pressed_at_an_end_is_not_made_up_later() {
    let results = store();
    let mut s = BrowserState::new();
    s.handle_key(Key::Up, &results);
    s.handle_key(Key::Down, &results);
    assert_eq!(s.selected_index, 1);
}

#[test]
fn arrows_on_an_empty_store_do_nothing() {
    let mut s = BrowserState::new();
    s.handle_key(Key::Down, &[]);
    assert_eq!(s.selected_index, 0);
    s.handle_key(Key::Up, &[]);
    assert_eq!(s.selected_index, 0);
}

#[test]
fn exit_keys() {
    let results = store();
    let mut s = BrowserState::new();
    assert_eq!(s.handle_key(Key::Char('q'), &results), Outcome::Exit);
    assert_eq!(s.handle_key(Key::Esc, &results), Outcome::Exit);
    assert_eq!(s, BrowserState::new());
    s.handle_key(Key::Char('/'), &results);
    assert_eq!(s.handle_key(Key::Char('q'), &results), Outcome::Continue);
    assert_eq!(s.input(), "q");
    assert_eq!(s.handle_key(Key::Esc, &results), Outcome::Continue);
    assert_eq!(s.mode, PopupMode::Normal);
}

#[test]
fn keys_without_meaning_change_nothing() {
    let results = store();
    let mut s = BrowserState::new();
    s.selected_index = 2;
    let before = s.clone();
    for key in [Key::Enter, Key::Backspace, Key::Other, Key::Char('x'), Key::Char('G')] {
        assert_eq!(s.handle_key(key, &results), Outcome::Continue);
        assert_eq!(s, before);
    }
    s.handle_key(Key::Char('g'), &results);
    type_text(&mut s, "12", &results);
    let before = s.clone();
    for key in [Key::Up, Key::Down, Key::Other] {
        assert_eq!(s.handle_key(key, &results), Outcome::Continue);
        assert_eq!(s, before);
    }
}

#[test]
fn search_hit_selects_the_first_match() {
    let results = store();
    let mut s = BrowserState::new();
    s.selected_index = 4;
    s.handle_key(Key::Char('/'), &results);
    assert_eq!(s.mode, PopupMode::Search);
    type_text(&mut s, "504b0304", &results);
    assert_eq!(s.input(), "504b0304");
    assert_eq!(s.handle_key(Key::Enter, &results), Outcome::Continue);
    assert_eq!(s.mode, PopupMode::Normal);
    assert_eq!(s.selected_index, 0);
    assert_eq!(s.error_message(), None);
}

#[test]
fn search_hit_on_a_later_entry() {
    let results = store();
    let mut s = BrowserState::new();
    s.handle_key(Key::Char('/'), &results);
    type_text(&mut s, "616263646566", &results);
    s.handle_key(Key::Enter, &results);
    assert_eq!(s.mode, PopupMode::Normal);
    assert_eq!(s.selected_index, 4);
}

#[test]
fn search_miss_reports_no_match() {
    let results = store();
    let mut s = BrowserState::new();
    s.selected_index = 2;
    s.handle_key(Key::Char('/'), &results);
    type_text(&mut s, "DEADBEEF", &results);
    s.handle_key(Key::Enter, &results);
    assert_eq!(s.mode, PopupMode::Search);
    assert_eq!(s.selected_index, 2);
    assert_eq!(s.error, Some(InputError::NoMatch));
    assert_eq!(s.error_message(), Some("No match found".to_string()));
    assert_eq!(s.input(), "DEADBEEF");
}

#[test]
fn search_needs_the_whole_byte_string() {
    let results = store();
    let mut s = BrowserState::new();
    s.handle_key(Key::Char('/'), &results);
    type_text(&mut s, "504b", &results);
    s.handle_key(Key::Enter, &results);
    assert_eq!(s.error_message(), Some("No match found".to_string()));
}

#[test]
fn search_with_malformed_hex() {
    let results = store();
    for text in ["504", "zz", "50 4b"] {
        let mut s = BrowserState::new();
        s.handle_key(Key::Char('/'), &results);
        type_text(&mut s, text, &results);
        s.handle_key(Key::Enter, &results);
        assert_eq!(s.mode, PopupMode::Search);
        assert_eq!(s.selected_index, 0);
        assert_eq!(s.error, Some(InputError::InvalidHex));
        assert_eq!(s.error_message(), Some("Invalid hex format".to_string()));
    }
}

#[test]
fn go_to_address_selects_the_first_entry_at_or_after() {
    let results = store();
    let mut s = BrowserState::new();
    s.selected_index = 1;
    s.handle_key(Key::Char('g'), &results);
    assert_eq!(s.mode, PopupMode::GoToAddress);
    type_text(&mut s, "0x10", &results);
    assert_eq!(s.handle_key(Key::Enter, &results), Outcome::Continue);
    assert_eq!(s.mode, PopupMode::Normal);
    assert_eq!(s.selected_index, 0);
}

#[test]
fn go_to_address_takes_store_order_not_the_nearest() {
    let results = store();
    let mut s = BrowserState::new();
    s.handle_key(Key::Char('g'), &results);
    type_text(&mut s, "41", &results);
    s.handle_key(Key::Enter, &results);
    assert_eq!(s.mode, PopupMode::GoToAddress);
    assert_eq!(s.error_message(), Some("Address not found".to_string()));
    let reordered = vec![entry(0x08, &[1]), entry(0x30, &[2]), entry(0x10, &[3])];
    let mut s = BrowserState::new();
    s.handle_key(Key::Char('g'), &reordered);
    type_text(&mut s, "0x10", &reordered);
    s.handle_key(Key::Enter, &reordered);
    assert_eq!(s.mode, PopupMode::Normal);
    assert_eq!(s.selected_index, 1);
}

#[test]
fn go_to_address_with_malformed_text() {
    let results = store();
    for text in ["", "0x", "hello", "1 0", "0x0x10", "+10", "0x+10"] {
        let mut s = BrowserState::new();
        s.handle_key(Key::Char('g'), &results);
        type_text(&mut s, text, &results);
        s.handle_key(Key::Enter, &results);
        assert_eq!(s.mode, PopupMode::GoToAddress);
        assert_eq!(s.selected_index, 0);
        assert_eq!(s.input(), text);
        assert_eq!(s.error, Some(InputError::InvalidAddress));
        assert_eq!(s.error_message(), Some("Invalid address format".to_string()));
    }
}

#[test]
fn opening_a_popup_clears_text_and_error() {
    let results = store();
    let mut s = BrowserState::new();
    s.handle_key(Key::Char('/'), &results);
    type_text(&mut s, "zz", &results);
    s.handle_key(Key::Enter, &results);
    assert_eq!(s.error, Some(InputError::InvalidHex));
    s.handle_key(Key::Esc, &results);
    assert_eq!(s.mode, PopupMode::Normal);
    assert_eq!(s.input(), "");
    s.handle_key(Key::Char('g'), &results);
    assert_eq!(s.mode, PopupMode::GoToAddress);
    assert_eq!(s.input(), "");
    assert_eq!(s.error, None);
}

#[test]
fn backspace_removes_the_last_character() {
    let results = store();
    let mut s = BrowserState::new();
    s.handle_key(Key::Char('/'), &results);
    s.handle_key(Key::Backspace, &results);
    assert_eq!(s.input(), "");
    type_text(&mut s, "abc", &results);
    s.handle_key(Key::Backspace, &results);
    assert_eq!(s.input(), "ab");
    s.handle_key(Key::Backspace, &results);
    s.handle_key(Key::Backspace, &results);
    s.handle_key(Key::Backspace, &results);
    assert_eq!(s.input(), "");
    assert_eq!(s.mode, PopupMode::Search);
}

#[test]
fn slash_and_g_are_text_inside_a_popup() {
    let results = store();
    let mut s = BrowserState::new();
    s.handle_key(Key::Char('g'), &results);
    type_text(&mut s, "/g", &results);
    assert_eq!(s.mode, PopupMode::GoToAddress);
    assert_eq!(s.input(), "/g");
}

#[test]
fn selection_stays_in_the_store_under_any_keys() {
    let results = store();
    let keys = [
        Key::Down, Key::Down, Key::Char('/'), Key::Char('f'), Key::Char('f'), Key::Enter,
        Key::Esc, Key::Down, Key::Down, Key::Down, Key::Char('g'), Key::Char('3'),
        Key::Char('0'), Key::Enter, Key::Up, Key::Up, Key::Up, Key::Up, Key::Up, Key::Up,
        Key::Char('g'), Key::Char('f'), Key::Char('f'), Key::Char('f'), Key::Enter, Key::Esc,
        Key::Down, Key::Other, Key::Backspace,
    ];
    let mut s = BrowserState::new();
    for key in keys {
        s.handle_key(key, &results);
        assert!(s.selected_index < results.len());
    }
}

#[test]
fn lookups_by_bytes_and_address() {
    let results = store();
    assert_eq!(find_by_bytes(&results, &[0x50, 0x4B, 0x03, 0x04]), Some(0));
    assert_eq!(find_by_bytes(&results, &[0x89, 0x50, 0x4E, 0x47]), Some(2));
    assert_eq!(find_by_bytes(&results, &[0x89, 0x50, 0x4E]), None);
    assert_eq!(find_by_bytes(&results, &[]), None);
    assert_eq!(find_by_bytes(&[], &[1]), None);
    assert_eq!(find_by_address(&results, 0), Some(0));
    assert_eq!(find_by_address(&results, 0x40), Some(0));
    assert_eq!(find_by_address(&results, 0x41), None);
    assert_eq!(find_by_address(&results[1..], 0x09), Some(1));
    assert_eq!(find_by_address(&[], 0), None);
}
