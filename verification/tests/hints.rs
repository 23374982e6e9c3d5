use wmfocus::hints::alphabet_of;
use wmfocus::hints::generate_hints;
use wmfocus::hints::get_next_hint;
use wmfocus::hints::hint_collides;
use wmfocus::hints::HintError;
use wmfocus::session::is_prefix_free;

fn strings(words: &[&str]) -> Vec<String> {
    words.iter().map(|w| w.to_string()).collect()
}

#[test]
fn seven_windows_get_one_character_each() {
    let hints = generate_hints("asdfjkl", 7).unwrap();
    assert_eq!(hints, strings(&["a", "s", "d", "f", "j", "k", "l"]));
}

#[test]
fn eighth_window_gives_up_one_short_hint() {
    let hints = generate_hints("asdfjkl", 8).unwrap();
    assert_eq!(hints, strings(&["a", "s", "d", "f", "j", "k", "la", "ls"]));
    let long: Vec<&String> = hints.iter().filter(|h| h.chars().count() == 2).collect();
    let short: Vec<&String> = hints.iter().filter(|h| h.chars().count() == 1).collect();
    assert_eq!(long.len(), 2);
    assert_eq!(short.len(), 6);
    for l in &long {
        for s in &short {
            assert!(!l.starts_with(s.as_str()));
        }
    }
}

#[test]
fn three_windows_two_symbols() {
    let hints = generate_hints("ab", 3).unwrap();
    assert_eq!(hints.len(), 3);
    assert!(is_prefix_free(&hints));
    assert_eq!(hints.iter().filter(|h| h.chars().count() >= 2).count(), 2);
    assert_eq!(hints, strings(&["a", "ba", "bb"]));
}

#[test]
fn five_windows_two_symbols() {
    let hints = generate_hints("ab", 5).unwrap();
    assert_eq!(hints, strings(&["aa", "ab", "ba", "bba", "bbb"]));
}

#[test]
fn nine_windows_three_symbols_fill_a_level() {
    let hints = generate_hints("abc", 9).unwrap();
    assert_eq!(hints, strings(&["aa", "ab", "ac", "ba", "bb", "bc", "ca", "cb", "cc"]));
}

#[test]
fn ten_windows_three_symbols() {
    let hints = generate_hints("abc", 10).unwrap();
    assert_eq!(
        hints,
        strings(&["aa", "ab", "ac", "ba", "bb", "bc", "ca", "cb", "cca", "ccb"])
    );
}

#[test]
fn fewer_windows_than_symbols() {
    assert_eq!(generate_hints("asdfjkl", 1).unwrap(), strings(&["a"]));
    assert_eq!(generate_hints("asdfjkl", 3).unwrap(), strings(&["a", "s", "d"]));
}

#[test]
fn repeated_characters_count_once() {
    assert_eq!(alphabet_of("aabacb"), vec!['a', 'b', 'c']);
    assert_eq!(generate_hints("aabb", 2).unwrap(), strings(&["a", "b"]));
    assert_eq!(generate_hints("abab", 3).unwrap(), strings(&["a", "ba", "bb"]));
}

#[test]
fn hints_are_written_with_any_characters() {
    assert_eq!(generate_hints("äö", 3).unwrap(), strings(&["ä", "öä", "öö"]));
}

#[test]
fn no_windows_need_no_symbols() {
    assert_eq!(generate_hints("", 0).unwrap(), Vec::<String>::new());
    assert_eq!(generate_hints("a", 0).unwrap(), Vec::<String>::new());
    assert_eq!(generate_hints("abc", 0).unwrap(), Vec::<String>::new());
}

#[test]
fn one_symbol_serves_one_window() {
    assert_eq!(generate_hints("a", 1).unwrap(), strings(&["a"]));
    assert_eq!(generate_hints("aaa", 1).unwrap(), strings(&["a"]));
}

#[test]
fn empty_alphabet_is_an_error() {
    assert_eq!(generate_hints("", 1), Err(HintError::EmptyAlphabet));
    assert_eq!(generate_hints("", 5), Err(HintError::EmptyAlphabet));
}

#[test]
fn one_symbol_is_too_few_for_two_windows() {
    assert_eq!(generate_hints("a", 2), Err(HintError::TooFewSymbols));
    assert_eq!(generate_hints("aaaa", 3), Err(HintError::TooFewSymbols));
}

#[test]
fn hints_stay_prefix_free_as_windows_are_added() {
    for n in 1..=120usize {
        let hints = generate_hints("asdfjkl", n).unwrap();
        assert_eq!(hints.len(), n);
        assert!(is_prefix_free(&hints));
        for h in &hints {
            assert!(!h.is_empty());
            assert!(h.chars().all(|c| "asdfjkl".contains(c)));
        }
        if n <= 7 {
            assert!(hints.iter().all(|h| h.chars().count() == 1));
        }
    }
}

#[test]
fn total_length_is_as_small_as_can_be() {
    let total = |n: usize| -> usize {
        generate_hints("ab", n).unwrap().iter().map(|h| h.len()).sum()
    };
    assert_eq!(total(1), 1);
    assert_eq!(total(2), 2);
    assert_eq!(total(3), 5);
    assert_eq!(total(4), 8);
    assert_eq!(total(5), 12);
    assert_eq!(total(8), 24);
}

#[test]
fn next_hint_is_the_first_unused() {
    let none: Vec<String> = Vec::new();
    assert_eq!(get_next_hint(&none, "asdfjkl", 8), Ok("a".to_string()));
    assert_eq!(get_next_hint(&strings(&["a"]), "asdfjkl", 8), Ok("s".to_string()));
    assert_eq!(get_next_hint(&strings(&["a", "d"]), "asdfjkl", 8), Ok("s".to_string()));
    assert_eq!(
        get_next_hint(&strings(&["a", "s", "d", "f", "j", "k"]), "asdfjkl", 8),
        Ok("la".to_string())
    );
    assert_eq!(
        get_next_hint(&strings(&["k", "j", "f", "d", "s", "a", "la"]), "asdfjkl", 8),
        Ok("ls".to_string())
    );
}

#[test]
fn next_hints_build_the_whole_assignment() {
    let mut used: Vec<String> = Vec::new();
    for _ in 0..11 {
        let hint = get_next_hint(&used, "abc", 11).unwrap();
        used.push(hint);
    }
    assert_eq!(used, generate_hints("abc", 11).unwrap());
    assert_eq!(get_next_hint(&used, "abc", 11), Err(HintError::Exhausted));
}

#[test]
fn next_hint_errors() {
    let none: Vec<String> = Vec::new();
    assert_eq!(get_next_hint(&none, "", 3), Err(HintError::EmptyAlphabet));
    assert_eq!(get_next_hint(&none, "a", 3), Err(HintError::TooFewSymbols));
    assert_eq!(get_next_hint(&none, "ab", 0), Err(HintError::Exhausted));
    assert_eq!(get_next_hint(&none, "", 0), Err(HintError::Exhausted));
    assert_eq!(get_next_hint(&strings(&["a"]), "a", 1), Err(HintError::Exhausted));
    assert_eq!(get_next_hint(&none, "a", 1), Ok("a".to_string()));
}

#[test]
fn a_hint_collides_with_what_begins_it_or_begins_with_it() {
    let used = strings(&["a", "ba"]);
    assert!(hint_collides(&used, "a"));
    assert!(hint_collides(&used, "ba"));
    assert!(hint_collides(&used, "b"));
    assert!(hint_collides(&used, "ab"));
    assert!(hint_collides(&used, "bab"));
    assert!(hint_collides(&used, ""));
    assert!(!hint_collides(&used, "bb"));
    assert!(!hint_collides(&used, "c"));
    assert!(!hint_collides(&Vec::new(), "a"));
    assert!(!hint_collides(&Vec::new(), ""));
}

#[test]
fn next_hint_keeps_clear_of_other_hints() {
    assert_eq!(get_next_hint(&strings(&["l"]), "asdfjkl", 8), Ok("a".to_string()));
    assert_eq!(
        get_next_hint(&strings(&["l", "a", "s", "d", "f", "j", "k"]), "asdfjkl", 8),
        Err(HintError::Exhausted)
    );
    assert_eq!(
        get_next_hint(&strings(&["a", "s", "d", "f", "j", "k", "lax"]), "asdfjkl", 8),
        Ok("ls".to_string())
    );
    let mut used = strings(&["sx", "k"]);
    for _ in 0..5 {
        let hint = get_next_hint(&used, "asdfjkl", 8).unwrap();
        used.push(hint);
        assert!(is_prefix_free(&used));
    }
    assert_eq!(used, strings(&["sx", "k", "a", "d", "f", "j", "la"]));
}

fn words_up_to(symbols: &[char], len: usize) -> Vec<String> {
    let mut all: Vec<String> = Vec::new();
    let mut level: Vec<String> = vec![String::new()];
    for _ in 0..len {
        let mut next: Vec<String> = Vec::new();
        for w in &level {
            for c in symbols {
                let mut longer = w.clone();
                longer.push(*c);
                next.push(longer);
            }
        }
        all.extend(next.iter().cloned());
        level = next;
    }
    all
}

fn least_total(words: &[String], from: usize, chosen: &mut Vec<usize>, n: usize, best: &mut usize) {
    let total: usize = chosen.iter().map(|i| words[*i].len()).sum();
    if total >= *best {
        return;
    }
    if chosen.len() == n {
        *best = total;
        return;
    }
    for i in from..words.len() {
        let clear = chosen
            .iter()
            .all(|j| !words[i].starts_with(words[*j].as_str()) && !words[*j].starts_with(words[i].as_str()));
        if clear {
            chosen.push(i);
            least_total(words, i + 1, chosen, n, best);
            chosen.pop();
        }
    }
}

#[test]
fn no_other_hints_are_shorter() {
    for (chars, longest, most) in [("ab", 4, 6), ("abc", 3, 7)] {
        let symbols: Vec<char> = chars.chars().collect();
        let words = words_up_to(&symbols, longest);
        for n in 1..=most {
            let ours: usize = generate_hints(chars, n).unwrap().iter().map(|h| h.len()).sum();
            let mut best = usize::MAX;
            least_total(&words, 0, &mut Vec::new(), n, &mut best);
            assert_eq!(ours, best);
        }
    }
}
