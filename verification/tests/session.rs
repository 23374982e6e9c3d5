use wmfocus::hints::generate_hints;
use wmfocus::layout::intersects;
use wmfocus::layout::Rect;
use wmfocus::sequence::parse_exit_keys;
use wmfocus::sequence::Sequence;
use wmfocus::session::highlighted_len;
use wmfocus::session::is_prefix_free;
use wmfocus::session::remove_last_key;
use wmfocus::session::Action;
use wmfocus::session::Event;
use wmfocus::session::LabelTable;
use wmfocus::session::Matching;
use wmfocus::session::Session;
use wmfocus::session::TableError;
use wmfocus::windows::HintDef;

fn strings(words: &[&str]) -> Vec<String> {
    words.iter().map(|w| w.to_string()).collect()
}

fn three_windows() -> Vec<HintDef> {
    vec![
        HintDef { value: 10, pos: (0, 0), highlight: true },
        HintDef { value: 20, pos: (100, 0), highlight: false },
        HintDef { value: 30, pos: (0, 100), highlight: false },
    ]
}

fn table_of(hints: &[&str]) -> LabelTable {
    let mut defs: Vec<HintDef> = Vec::new();
    let mut sizes: Vec<(u16, u16)> = Vec::new();
    for i in 0..hints.len() {
        defs.push(HintDef { value: 10 * (i as i64 + 1), pos: (100 * i as i32, 0), highlight: false });
        sizes.push((40, 30));
    }
    LabelTable::new(&defs, &strings(hints), &sizes).unwrap()
}

fn session_of(hints: &[&str], hint_chars: &str, exit_keys: &[&str]) -> Session {
    Session::new(table_of(hints), hint_chars, exit_keys.iter().map(|e| parse_exit_keys(e)).collect())
}

fn press(session: &mut Session, key: &str) -> Action {
    session.handle_event(&Event::KeyPress(key.to_string()))
}

fn release(session: &mut Session, key: &str) -> Action {
    session.handle_event(&Event::KeyRelease(key.to_string()))
}

#[test]
fn three_windows_from_start_to_choice() {
    let defs = three_windows();
    let hints = generate_hints("ab", defs.len()).unwrap();
    assert_eq!(hints.len(), 3);
    assert!(is_prefix_free(&hints));
    let table = LabelTable::new(&defs, &hints, &vec![(40, 30), (40, 30), (60, 30)]).unwrap();
    assert_eq!(table.windows().len(), 3);
    for (i, w) in table.windows().iter().enumerate() {
        assert_eq!(w.hint, hints[i]);
        assert_eq!(w.def, defs[i]);
    }
    assert_eq!(table.windows()[0].rect, Rect { x: 0, y: 0, width: 40, height: 30 });
    assert_eq!(table.windows()[1].rect, Rect { x: 100, y: 0, width: 40, height: 30 });
    assert_eq!(table.windows()[2].rect, Rect { x: 0, y: 100, width: 60, height: 30 });
    let mut session = Session::new(table, "ab", Vec::new());
    assert_eq!(press(&mut session, "b"), Action::Redraw);
    assert_eq!(session.pressed_keys(), "b");
    assert_eq!(release(&mut session, "b"), Action::Wait);
    assert_eq!(press(&mut session, "b"), Action::Select(30));
}

#[test]
fn typing_a_hint_chooses_its_window() {
    for (word, value) in [("a", 10), ("ba", 20), ("bb", 30)] {
        let mut session = session_of(&["a", "ba", "bb"], "ab", &[]);
        let keys: Vec<char> = word.chars().collect();
        for (i, c) in keys.iter().enumerate() {
            let action = press(&mut session, &c.to_string());
            if i + 1 == keys.len() {
                assert_eq!(action, Action::Select(value));
            } else {
                assert_eq!(action, Action::Redraw);
                assert_eq!(release(&mut session, &c.to_string()), Action::Wait);
            }
        }
    }
}

#[test]
fn typing_a_hint_works_with_exit_sequences_too() {
    let mut session = session_of(&["aa", "ab", "ba", "bba", "bbb"], "ab", &["Control_L+g"]);
    assert_eq!(press(&mut session, "b"), Action::Redraw);
    release(&mut session, "b");
    assert_eq!(press(&mut session, "b"), Action::Redraw);
    release(&mut session, "b");
    assert_eq!(session.pressed_keys(), "bb");
    assert_eq!(press(&mut session, "a"), Action::Select(40));
}

#[test]
fn keys_held_over_do_not_disturb_typing() {
    let mut session = session_of(&["a", "ba", "bb"], "ab", &[]);
    assert_eq!(press(&mut session, "b"), Action::Redraw);
    assert_eq!(press(&mut session, "a"), Action::Select(20));
}

#[test]
fn a_dead_end_without_exit_sequences_ends_the_session() {
    let mut session = session_of(&["aa", "ab"], "abc", &[]);
    assert_eq!(press(&mut session, "c"), Action::Quit);
    let mut session = session_of(&["aa", "ab"], "abc", &[]);
    assert_eq!(press(&mut session, "a"), Action::Redraw);
    release(&mut session, "a");
    assert_eq!(press(&mut session, "c"), Action::Quit);
    assert_eq!(session.pressed_keys(), "a");
}

#[test]
fn a_dead_end_with_exit_sequences_takes_the_key_back() {
    let mut session = session_of(&["aa", "ab"], "abc", &["Control_L+g"]);
    assert_eq!(press(&mut session, "a"), Action::Redraw);
    release(&mut session, "a");
    assert_eq!(press(&mut session, "c"), Action::Wait);
    assert_eq!(session.pressed_keys(), "a");
    release(&mut session, "c");
    assert_eq!(press(&mut session, "b"), Action::Select(20));
}

#[test]
fn escape_ends_the_session_at_once() {
    let mut session = session_of(&["aa", "ab"], "ab", &[]);
    assert_eq!(press(&mut session, "Escape"), Action::Quit);
    let mut session = session_of(&["aa", "ab"], "ab", &["Control_L+g"]);
    assert_eq!(press(&mut session, "a"), Action::Redraw);
    assert_eq!(press(&mut session, "Escape"), Action::Quit);
    assert_eq!(session.pressed_keys(), "a");
}

#[test]
fn escape_ends_the_session_even_as_a_hint_character() {
    let mut session = session_of(&["E", "s"], "Escape", &[]);
    assert_eq!(press(&mut session, "Escape"), Action::Quit);
    assert_eq!(session.pressed_keys(), "");
    assert_eq!(press(&mut session, "s"), Action::Select(20));
}

#[test]
fn control_g_ends_the_session() {
    let mut session = session_of(&["aa", "ab"], "ab", &["Control_L+g"]);
    assert_eq!(press(&mut session, "Control_L"), Action::Redraw);
    assert_eq!(press(&mut session, "g"), Action::Quit);
}

#[test]
fn a_key_after_g_has_come_up_does_not_end_the_session() {
    let mut session = session_of(&["aa", "ab"], "ab", &["Control_L+g", "q"]);
    assert_eq!(press(&mut session, "g"), Action::Redraw);
    assert_eq!(release(&mut session, "g"), Action::Wait);
    assert_eq!(press(&mut session, "Control_L"), Action::Redraw);
    assert_eq!(press(&mut session, "x"), Action::Redraw);
    assert_eq!(release(&mut session, "x"), Action::Wait);
    assert_eq!(session.pressed_keys(), "");
    assert!(*session.sequence() == Sequence::new(Some("Control_L")));
    assert_eq!(press(&mut session, "g"), Action::Quit);
}

#[test]
fn an_exit_sequence_goes_before_a_hint() {
    let mut session = session_of(&["q", "a"], "qa", &["q"]);
    assert_eq!(press(&mut session, "q"), Action::Quit);
    let mut session = session_of(&["q", "a"], "qa", &["q"]);
    assert_eq!(press(&mut session, "a"), Action::Select(20));
}

#[test]
fn other_keys_are_not_typed() {
    let mut session = session_of(&["aa", "ab"], "ab", &[]);
    assert_eq!(press(&mut session, "Shift_L"), Action::Redraw);
    assert_eq!(session.pressed_keys(), "");
    assert_eq!(press(&mut session, "a"), Action::Redraw);
    assert_eq!(press(&mut session, "ab"), Action::Redraw);
    assert_eq!(session.pressed_keys(), "a");
    assert_eq!(press(&mut session, "semicolon"), Action::Redraw);
    assert_eq!(press(&mut session, "b"), Action::Select(20));
}

#[test]
fn characters_outside_the_hint_characters_are_not_typed() {
    let mut session = session_of(&["a", "b"], "a", &[]);
    assert_eq!(press(&mut session, "b"), Action::Redraw);
    assert_eq!(session.pressed_keys(), "");
    assert_eq!(press(&mut session, "a"), Action::Select(10));
}

#[test]
fn without_windows_any_key_ends_the_session() {
    let mut session = session_of(&[], "ab", &[]);
    assert_eq!(press(&mut session, "a"), Action::Quit);
    let mut session = session_of(&[], "ab", &["q"]);
    assert_eq!(press(&mut session, "a"), Action::Wait);
    assert_eq!(press(&mut session, "Shift_L"), Action::Wait);
    assert_eq!(session.pressed_keys(), "");
}

#[test]
fn events_that_are_no_keys() {
    let mut session = session_of(&["a", "b"], "ab", &[]);
    assert_eq!(session.handle_event(&Event::Expose), Action::Redraw);
    assert_eq!(session.handle_event(&Event::Other), Action::Wait);
    assert_eq!(session.handle_event(&Event::ButtonPress), Action::Quit);
    assert_eq!(session.handle_event(&Event::Closed), Action::Quit);
    assert_eq!(session.pressed_keys(), "");
    assert!(!session.sequence().is_started());
}

#[test]
fn keys_are_held_until_they_come_up() {
    let mut session = session_of(&["a", "b"], "ab", &["x"]);
    press(&mut session, "Shift_L");
    press(&mut session, "Control_L");
    assert!(*session.sequence() == Sequence::new(Some("Shift_L+Control_L")));
    release(&mut session, "Shift_L");
    assert!(*session.sequence() == Sequence::new(Some("Control_L")));
    release(&mut session, "Control_L");
    assert!(!session.sequence().is_started());
    assert_eq!(session.table().windows().len(), 2);
}

#[test]
fn a_table_needs_as_many_hints_and_sizes_as_windows() {
    let defs = three_windows();
    let sizes = vec![(1, 1), (1, 1), (1, 1)];
    assert_eq!(LabelTable::new(&defs, &strings(&["a", "b"]), &sizes).err(), Some(TableError::CountMismatch));
    assert_eq!(LabelTable::new(&defs, &strings(&["a", "b", "c"]), &vec![(1, 1)]).err(), Some(TableError::CountMismatch));
    assert_eq!(LabelTable::new(&Vec::new(), &strings(&["a"]), &Vec::new()).err(), Some(TableError::CountMismatch));
    assert!(LabelTable::new(&Vec::new(), &Vec::new(), &Vec::new()).is_ok());
}

#[test]
fn a_table_needs_hints_that_tell_the_windows_apart() {
    let defs = three_windows();
    let sizes = vec![(1, 1), (1, 1), (1, 1)];
    assert_eq!(LabelTable::new(&defs, &strings(&["a", "ab", "b"]), &sizes).err(), Some(TableError::AmbiguousHints));
    assert_eq!(LabelTable::new(&defs, &strings(&["a", "b", "a"]), &sizes).err(), Some(TableError::AmbiguousHints));
    assert_eq!(LabelTable::new(&defs, &strings(&["a", "b", ""]), &sizes).err(), Some(TableError::AmbiguousHints));
    assert!(LabelTable::new(&defs, &strings(&["aa", "ab", "b"]), &sizes).is_ok());
}

#[test]
fn a_table_needs_room_for_its_boxes() {
    let defs = vec![
        HintDef { value: 1, pos: (i32::MAX - 5, 0), highlight: false },
        HintDef { value: 2, pos: (i32::MAX - 3, 0), highlight: false },
    ];
    assert_eq!(LabelTable::new(&defs, &strings(&["a", "b"]), &vec![(10, 10), (2, 2)]).err(), Some(TableError::OutOfRange));
}

#[test]
fn the_boxes_of_a_table_stand_clear() {
    let defs = vec![
        HintDef { value: 1, pos: (0, 0), highlight: false },
        HintDef { value: 2, pos: (10, 5), highlight: false },
        HintDef { value: 3, pos: (0, 0), highlight: false },
    ];
    let table = LabelTable::new(&defs, &strings(&["a", "s", "d"]), &vec![(40, 30), (40, 30), (20, 10)]).unwrap();
    let rects: Vec<Rect> = table.windows().iter().map(|w| w.rect).collect();
    assert_eq!(
        rects,
        vec![
            Rect { x: 0, y: 0, width: 40, height: 30 },
            Rect { x: 50, y: 5, width: 40, height: 30 },
            Rect { x: 120, y: 0, width: 20, height: 10 },
        ]
    );
    for i in 0..rects.len() {
        for j in 0..rects.len() {
            if i != j {
                assert!(!intersects(&rects[i], &rects[j]));
            }
        }
    }
}

#[test]
fn classify_tells_hints_from_their_beginnings() {
    let table = table_of(&["aa", "ab", "b"]);
    assert_eq!(table.classify("aa"), Matching::Exact(0));
    assert_eq!(table.classify("ab"), Matching::Exact(1));
    assert_eq!(table.classify("b"), Matching::Exact(2));
    assert_eq!(table.classify("a"), Matching::Opens);
    assert_eq!(table.classify(""), Matching::Opens);
    assert_eq!(table.classify("c"), Matching::Dead);
    assert_eq!(table.classify("ba"), Matching::Dead);
    assert_eq!(table.classify("aab"), Matching::Dead);
    assert_eq!(table_of(&[]).classify(""), Matching::Dead);
}

#[test]
fn is_prefix_free_finds_a_hint_that_begins_another() {
    assert!(is_prefix_free(&strings(&["a", "ba", "bb"])));
    assert!(is_prefix_free(&strings(&[])));
    assert!(is_prefix_free(&strings(&[""])));
    assert!(!is_prefix_free(&strings(&["a", "ab"])));
    assert!(!is_prefix_free(&strings(&["ab", "a"])));
    assert!(!is_prefix_free(&strings(&["a", "b", "a"])));
    assert!(!is_prefix_free(&strings(&["", "a"])));
}

#[test]
fn highlighted_len_counts_the_typed_part() {
    assert_eq!(highlighted_len("asd", "as"), 2);
    assert_eq!(highlighted_len("asd", "asd"), 3);
    assert_eq!(highlighted_len("asd", ""), 0);
    assert_eq!(highlighted_len("asd", "s"), 0);
    assert_eq!(highlighted_len("asd", "asdf"), 0);
    assert_eq!(highlighted_len("äö", "ä"), 1);
}

#[test]
fn remove_last_key_takes_the_key_back() {
    let mut typed = "asd".to_string();
    remove_last_key(&mut typed, "d");
    assert_eq!(typed, "as");
    remove_last_key(&mut typed, "a");
    assert_eq!(typed, "as");
    remove_last_key(&mut typed, "as");
    assert_eq!(typed, "");
    remove_last_key(&mut typed, "a");
    assert_eq!(typed, "");
    let mut typed = "aö".to_string();
    remove_last_key(&mut typed, "ö");
    assert_eq!(typed, "a");
    remove_last_key(&mut typed, "");
    assert_eq!(typed, "a");
    remove_last_key(&mut typed, "Shift_L");
    assert_eq!(typed, "a");
}
