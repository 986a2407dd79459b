use spelchek::session::{match_case, Session};

fn dict_lines() -> Vec<String> {
    [
        "a", "ends", "example", "hello", "is", "of", "piece", "some", "text", "this", "with",
        "word", "world",
    ]
    .iter()
    .map(|s| s.to_string())
    .collect()
}

fn corpus_lines() -> Vec<String> {
    [
        "the 23135851162",
        "of 13151942776",
        "and 12997637966",
        "to 12136980858",
        "a 9081174698",
        "in 8469404971",
        "for 5933321709",
        "is 4705743816",
        "on 3750423199",
        "that 3400031103",
        "this 3228469771",
        "hello 640000",
        "misspelling 320000",
        "misspelled 160000",
    ]
    .iter()
    .map(|s| s.to_string())
    .collect()
}

fn get_session(text: &str) -> Session {
    Session::new(text.to_string(), dict_lines(), corpus_lines()).unwrap()
}

#[test]
fn test_accepting_suggestion() {
    let text = "Hello world, thsi is some example text.";
    let mut session = get_session(text);
    session.check_spelling();
    session.select_next_misspelling();
    session.suggest_selected();
    session.select_next_suggestion();

    let suggestion = session
        .get_suggestions()
        .unwrap()
        .get(session.selected_suggestion.unwrap())
        .unwrap()
        .clone();
    session.accept_suggestion();

    assert_eq!(
        session.get_buffer(),
        format!("Hello world, {} is some example text.", suggestion)
    );
}

#[test]
fn test_accepting_suggestion_last_word() {
    let text = "This piece of text ends with a mispeling";
    let mut session = get_session(text);
    session.check_spelling();
    session.select_next_misspelling();
    session.suggest_selected();
    session.select_next_suggestion();

    let suggestion = session
        .get_suggestions()
        .unwrap()
        .get(session.selected_suggestion.unwrap())
        .unwrap()
        .clone();
    session.accept_suggestion();

    assert_eq!(
        session.get_buffer(),
        format!("This piece of text ends with a {}", suggestion)
    );
}

#[test]
fn test_accepting_suggestion_no_misspelling() {
    let text = "Hello world";
    let mut session = get_session(text);
    session.accept_suggestion();
    session.accept_suggestion();
    session.accept_suggestion();
    session.accept_suggestion();
    session.accept_suggestion();

    assert_eq!(session.get_buffer(), "Hello world");
}

#[test]
fn test_accepting_suggestion_match_case() {
    let text = "HeLllO world, this is some example text.";
    let mut session = get_session(text);
    session.check_spelling();
    session.select_next_misspelling();
    session.suggest_selected();
    session.select_next_suggestion();

    session.accept_suggestion();

    assert_eq!(session.get_buffer(), "HeLlo world, this is some example text.");
}

#[test]
fn test_accepting_suggestion_single_word_buffer() {
    let text = "mispeled";
    let mut session = get_session(text);
    session.check_spelling();
    assert_eq!(session.spellchecker.misspellings[0].get_range(), (0, 7));
    session.select_next_misspelling();
    session.suggest_selected();
    session.select_next_suggestion();

    let suggestion = session
        .get_suggestions()
        .unwrap()
        .get(session.selected_suggestion.unwrap())
        .unwrap()
        .clone();
    session.accept_suggestion();

    // the whole buffer is replaced, with no trailing garbage
    assert_eq!(session.get_buffer(), suggestion);
}

#[test]
fn test_accepting_suggestion_shifts_later_misspellings() {
    let text = "thsi word thsi";
    let mut session = get_session(text);
    session.check_spelling();
    assert_eq!(session.spellchecker.misspellings.len(), 2);
    assert_eq!(session.spellchecker.misspellings[0].get_range(), (0, 3));
    assert_eq!(session.spellchecker.misspellings[1].get_range(), (10, 13));
    session.select_next_misspelling();
    session.suggest_selected();
    session.select_next_suggestion();

    let suggestion = session
        .get_suggestions()
        .unwrap()
        .get(session.selected_suggestion.unwrap())
        .unwrap()
        .clone();
    session.accept_suggestion();

    // the edited entry is gone and the later one moved by the length change
    assert_eq!(session.spellchecker.misspellings.len(), 1);
    let delta = suggestion.chars().count() as i64 - 4;
    let new_start = (10 + delta) as usize;
    assert_eq!(
        session.spellchecker.misspellings[0].get_range(),
        (new_start, new_start + 3)
    );
    assert_eq!(session.get_buffer(), format!("{} word thsi", suggestion));
}

#[test]
fn test_selection_wraps_around() {
    let text = "thsi wrd thri";
    let mut session = get_session(text);
    session.check_spelling();
    assert_eq!(session.spellchecker.misspellings.len(), 3);

    session.select_next_misspelling();
    assert_eq!(session.selected_misspelling, Some(0));
    session.select_next_misspelling();
    session.select_next_misspelling();
    session.select_next_misspelling();
    assert_eq!(session.selected_misspelling, Some(0));

    session.select_previous_misspelling();
    session.select_previous_misspelling();
    session.select_previous_misspelling();
    assert_eq!(session.selected_misspelling, Some(0));

    session.select_previous_misspelling();
    assert_eq!(session.selected_misspelling, Some(2));
}

#[test]
fn test_selection_on_empty_list() {
    let text = "hello world";
    let mut session = get_session(text);
    session.check_spelling();
    session.select_next_misspelling();
    assert_eq!(session.selected_misspelling, None);
    session.select_previous_misspelling();
    assert_eq!(session.selected_misspelling, None);
}

#[test]
fn test_match_case() {
    let mut target = String::from("hello");
    match_case("World", &mut target);
    assert_eq!(target, "Hello");

    let mut target = String::from("hello");
    match_case("worlD", &mut target);
    assert_eq!(target, "hellO");

    let mut target = String::from("hello");
    match_case("worLd", &mut target);
    assert_eq!(target, "helLo");

    let mut target = String::from("hello");
    match_case("", &mut target);
    assert_eq!(target, "hello");

    let mut target = String::from("");
    match_case("Hello world", &mut target);
    assert_eq!(target, "");

    let mut target = String::from("hello");
    match_case("AntidisestablishmentARIANISM", &mut target);
    assert_eq!(target, "Hello");

    let mut target = String::from("antidisestablishmentarianism");
    match_case("WorlD", &mut target);
    assert_eq!(target, "AntiDisestablishmentarianism");
}
