use spelchek::spellchecker::{
    starts_misspelling, CorpusEntry, LoadError, Misspelling, Spellchecker, SuggestionPriority,
};

fn dict_lines() -> Vec<String> {
    [
        "a",
        "apple",
        "apple's",
        "apples",
        "banana",
        "blue",
        "cucumber",
        "ends",
        "essentially",
        "example",
        "hello",
        "impotent",
        "is",
        "mis",
        "miss",
        "misspelled",
        "misspellings",
        "no",
        "not",
        "of",
        "other",
        "piece",
        "some",
        "text",
        "this",
        "which",
        "with",
        "word",
        "world",
        "yellow",
    ]
    .iter()
    .map(|s| s.to_string())
    .collect()
}

fn corpus_lines() -> Vec<String> {
    [
        "the 23135851162",
        "of 13151942776",
        "and 12997637966",
        "to 12136980858",
        "a 9081174698",
        "in 8469404971",
        "for 5933321709",
        "is 4705743816",
        "on 3750423199",
        "that 3400031103",
        "this 3228469771",
        "hello 640000",
        "common 1000000",
        "women 900000",
        "amateur 800000",
        "committed 700000",
        "millennium 600000",
        "neighbor 500000",
    ]
    .iter()
    .map(|s| s.to_string())
    .collect()
}

fn get_spellchecker() -> Spellchecker {
    Spellchecker::new(dict_lines(), corpus_lines()).unwrap()
}

#[test]
fn test_misspellings_detection() {
    let text = "Ths word aple yelow soem . ? ;";
    let mut spellchecker = get_spellchecker();
    spellchecker.check(text);
    let misspellings = spellchecker.misspellings();
    assert_eq!(misspellings.len(), 4);
}

#[test]
fn test_misspelling_word_separation() {
    let text = "ths";
    let mut spellchecker = get_spellchecker();
    spellchecker.check(text);
    let misspellings = spellchecker.misspellings();
    assert_eq!(misspellings.len(), 1);

    let text = "ths ths.ths ths'ths";
    let mut spellchecker = get_spellchecker();
    spellchecker.check(text);
    let misspellings = spellchecker.misspellings();
    assert_eq!(misspellings.len(), 4);

    let text = "apples apple's";
    let mut spellchecker = get_spellchecker();
    spellchecker.check(text);
    let misspellings = spellchecker.misspellings();
    assert_eq!(misspellings.len(), 0);
}

#[test]
fn test_spellchecking_with_possible_edge_cases() {
    let mut spellchecker = get_spellchecker();

    let text = "THS WORD APLE YELOW";
    spellchecker.check(text);
    assert_eq!(spellchecker.misspellings.len(), 3);
    spellchecker.misspellings.clear();

    let text = "ths this";
    spellchecker.check(text);
    assert_eq!(spellchecker.misspellings.len(), 1);
    spellchecker.misspellings.clear();

    let text = "....................a. 12dadf apple3 aple3";
    spellchecker.check(text);
    assert_eq!(spellchecker.misspellings.len(), 0);
    spellchecker.misspellings.clear();

    let text = ".mis";
    spellchecker.check(text);
    assert_eq!(spellchecker.misspellings.len(), 0);
    spellchecker.misspellings.clear();

    let text = ".miss";
    spellchecker.check(text);
    assert_eq!(spellchecker.misspellings.len(), 0);
    spellchecker.misspellings.clear();

    let text = "miss.";
    spellchecker.check(text);
    assert_eq!(spellchecker.misspellings.len(), 0);
    spellchecker.misspellings.clear();
}

#[test]
fn test_spellchecking() {
    let mut spellchecker = get_spellchecker();

    let text = "this is some text with no misspellings.";
    spellchecker.check(text);
    assert_eq!(spellchecker.misspellings.len(), 0);
    spellchecker.misspellings.clear();

    let text = "some other text which is not misspelled. essentially impotent";
    spellchecker.check(text);
    assert_eq!(spellchecker.misspellings.len(), 0);
    spellchecker.misspellings.clear();
}

#[test]
fn test_misspelling_position() {
    let mut spellchecker = get_spellchecker();

    let text = "mispeled word wor ";
    spellchecker.check(text);
    assert_eq!(spellchecker.misspellings[0].get_range(), (0, 7));
    assert_eq!(spellchecker.misspellings[1].get_range(), (14, 16));
}

#[test]
fn test_misspelling_position_at_end() {
    let mut spellchecker = get_spellchecker();

    let text = "mispeled";
    spellchecker.check(text);
    assert_eq!(spellchecker.misspellings[0].get_range(), (0, 7));
    spellchecker.misspellings.clear();

    let text = "     mispeled";
    spellchecker.check(text);
    assert_eq!(spellchecker.misspellings[0].get_range(), (5, 12));
}

#[test]
fn test_misspelling() {
    let mut spellchecker = get_spellchecker();

    let text = "mispeled";
    spellchecker.check(text);
    let misspelling = spellchecker.misspellings()[0].clone();
    assert_eq!(misspelling, Misspelling::new("mispeled".to_string(), 0, 7));
}

#[test]
fn test_misspelling_case() {
    let mut spellchecker = get_spellchecker();

    let text = "MiSpELed";
    spellchecker.check(text);
    let misspelling = spellchecker.misspellings()[0].clone();
    assert_eq!(misspelling, Misspelling::new("MiSpELed".to_string(), 0, 7));
}

#[test]
fn test_getting_suggestions() {
    let mut misspelling = Misspelling::new("ths".to_owned(), 0, 0);

    let spellchecker = get_spellchecker();

    misspelling.suggest(&spellchecker.suggestion_dict);
    assert!(misspelling.get_suggestions().contains(&"this".to_string()));
    assert!(misspelling.get_suggestions().contains(&"the".to_string()));
    assert!(
        misspelling
            .get_suggestions()
            .iter()
            .position(|elem| elem == &"this".to_string())
            .unwrap()
            <= 2
    );
}

#[test]
fn test_getting_suggestions_different_misspellings() {
    let spellchecker = get_spellchecker();

    let mut misspelling = Misspelling::new("comon".to_owned(), 0, 0);
    misspelling.suggest(&spellchecker.suggestion_dict);
    assert!(
        misspelling
            .get_suggestions()
            .iter()
            .position(|elem| elem == &"common".to_string())
            .unwrap()
            <= 2
    );

    let mut misspelling = Misspelling::new("womn".to_owned(), 0, 0);
    misspelling.suggest(&spellchecker.suggestion_dict);
    assert!(
        misspelling
            .get_suggestions()
            .iter()
            .position(|elem| elem == &"women".to_string())
            .unwrap()
            <= 2
    );

    let mut misspelling = Misspelling::new("amatuer".to_owned(), 0, 0);
    misspelling.suggest(&spellchecker.suggestion_dict);
    assert!(
        misspelling
            .get_suggestions()
            .iter()
            .position(|elem| elem == &"amateur".to_string())
            .unwrap()
            <= 2
    );

    let mut misspelling = Misspelling::new("commited".to_owned(), 0, 0);
    misspelling.suggest(&spellchecker.suggestion_dict);
    assert!(
        misspelling
            .get_suggestions()
            .iter()
            .position(|elem| elem == &"committed".to_string())
            .unwrap()
            <= 2
    );

    let mut misspelling = Misspelling::new("millenium".to_owned(), 0, 0);
    misspelling.suggest(&spellchecker.suggestion_dict);
    assert!(
        misspelling
            .get_suggestions()
            .iter()
            .position(|elem| elem == &"millennium".to_string())
            .unwrap()
            <= 2
    );

    let mut misspelling = Misspelling::new("nieghbor".to_owned(), 0, 0);
    misspelling.suggest(&spellchecker.suggestion_dict);
    assert!(
        misspelling
            .get_suggestions()
            .iter()
            .position(|elem| elem == &"neighbor".to_string())
            .unwrap()
            <= 2
    );
}

#[test]
fn test_suggestion_priority() {
    let mut priorities = vec![
        SuggestionPriority::new(1, i64::MAX),
        SuggestionPriority::new(2, 10),
        SuggestionPriority::new(2, 0),
        SuggestionPriority::new(1, 10),
        SuggestionPriority::new(0, 0),
    ];

    // ascending: worse priorities first, as the ranking order says
    priorities.sort_by(|a, b| {
        if b.is_higher_priority(a) {
            std::cmp::Ordering::Less
        } else if a.is_higher_priority(b) {
            std::cmp::Ordering::Greater
        } else {
            std::cmp::Ordering::Equal
        }
    });
    let mut iter = priorities.into_iter().rev();

    assert_eq!(iter.next(), Some(SuggestionPriority::new(0, 0)));
    assert_eq!(iter.next(), Some(SuggestionPriority::new(1, i64::MAX)));
    assert_eq!(iter.next(), Some(SuggestionPriority::new(1, 10)));
    assert_eq!(iter.next(), Some(SuggestionPriority::new(2, 10)));
    assert_eq!(iter.next(), Some(SuggestionPriority::new(2, 0)));
}

#[test]
fn test_word_separate_test() {
    assert!(Spellchecker::separates_word(&'.'));
    assert!(Spellchecker::separates_word(&'&'));
    assert!(!Spellchecker::separates_word(&'"'));
    assert!(!Spellchecker::separates_word(&'\''));
}

#[test]
fn test_word_separator_whitespace() {
    assert!(Spellchecker::separates_word(&' '));
    assert!(Spellchecker::separates_word(&'\t'));
    assert!(Spellchecker::separates_word(&'\n'));
    assert!(!Spellchecker::separates_word(&'x'));
}

#[test]
fn test_get_suggestion_idx_no_misspellings() {
    let misspelling = Misspelling::new("".to_string(), 0, 0);
    assert_eq!(misspelling.get_next_suggestion_index(Some(1)), None);
    assert_eq!(misspelling.get_next_suggestion_index(Some(10000000)), None);
    assert_eq!(misspelling.get_next_suggestion_index(None), None);

    assert_eq!(misspelling.get_previous_suggestion_index(Some(1)), None);
    assert_eq!(misspelling.get_previous_suggestion_index(Some(10000000)), None);
    assert_eq!(misspelling.get_previous_suggestion_index(None), None);
}

fn misspelling_with_ten_suggestions() -> Misspelling {
    let mut misspelling = Misspelling::new("".to_string(), 0, 0);
    let corpus: Vec<CorpusEntry> = [
        "alpha", "bravo", "charlie", "delta", "echo", "foxtrot", "golf", "hotel", "india",
        "juliett",
    ]
    .iter()
    .map(|w| CorpusEntry { word: w.to_string(), popularity: 1 })
    .collect();
    misspelling.suggest(&corpus);
    assert_eq!(misspelling.get_suggestions().len(), 10);
    misspelling
}

#[test]
fn test_get_next_suggestion_idx() {
    let misspelling = misspelling_with_ten_suggestions();
    assert_eq!(misspelling.get_next_suggestion_index(Some(0)), Some(1));
    assert_eq!(misspelling.get_next_suggestion_index(Some(10000)), Some(0));
    assert_eq!(misspelling.get_next_suggestion_index(Some(9)), Some(0));
    assert_eq!(misspelling.get_next_suggestion_index(None), Some(0));
}

#[test]
fn test_get_previous_suggestion_idx() {
    let misspelling = misspelling_with_ten_suggestions();
    assert_eq!(misspelling.get_previous_suggestion_index(Some(2)), Some(1));
    assert_eq!(misspelling.get_previous_suggestion_index(Some(0)), Some(9));
    assert_eq!(misspelling.get_previous_suggestion_index(None), Some(9));
}

fn empty_misspelling(start: usize, end: usize) -> Misspelling {
    Misspelling::new("".to_string(), start, end)
}

fn set_misspellings(spellchecker: &mut Spellchecker) {
    spellchecker.misspellings = vec![
        empty_misspelling(0, 5),
        empty_misspelling(10, 20),
        empty_misspelling(42, 420),
    ]
}

#[test]
fn test_offsetting_misspellings() {
    let mut spellchecker = get_spellchecker();
    set_misspellings(&mut spellchecker);
    spellchecker.offset_misspelling_positions(1, 0);
    assert_eq!(
        spellchecker.misspellings,
        vec![
            empty_misspelling(1, 6),
            empty_misspelling(11, 21),
            empty_misspelling(43, 421)
        ]
    );
    spellchecker.offset_misspelling_positions(1, 1);
    assert_eq!(
        spellchecker.misspellings,
        vec![
            empty_misspelling(1, 6),
            empty_misspelling(12, 22),
            empty_misspelling(44, 422)
        ]
    );
}

#[test]
fn test_offsetting_misspellings_no_misspellings() {
    let mut spellchecker = get_spellchecker();
    spellchecker.misspellings = vec![];
    spellchecker.offset_misspelling_positions(99999999, 99999999);
    assert_eq!(spellchecker.misspellings, vec![]);
}

#[test]
fn test_starts_misspelling_no_misspellings() {
    assert_eq!(starts_misspelling(10, &Vec::<Misspelling>::new()), None);
    assert_eq!(starts_misspelling(0, &Vec::<Misspelling>::new()), None);
    assert_eq!(starts_misspelling(9999999999999999, &Vec::<Misspelling>::new()), None);
}

#[test]
fn test_starts_misspelling() {
    let misspellings = vec![
        Misspelling::new(String::from("1"), 0, 5),
        Misspelling::new(String::from("2"), 10, 20),
        Misspelling::new(String::from("3"), 30, 33),
    ];
    assert_eq!(starts_misspelling(2, &misspellings), None);
    assert_eq!(starts_misspelling(0, &misspellings), Some(0));
    assert_eq!(starts_misspelling(10, &misspellings), Some(1));
    assert_eq!(starts_misspelling(30, &misspellings), Some(2));
    assert_eq!(starts_misspelling(31, &misspellings), None);
    assert_eq!(starts_misspelling(15, &misspellings), None);
    assert_eq!(starts_misspelling(20, &misspellings), None);
}

#[test]
fn test_empty_dictionary_is_rejected() {
    let r = Spellchecker::new(Vec::new(), corpus_lines());
    assert_eq!(r.err(), Some(LoadError::EmptyDictionary));
}

#[test]
fn test_malformed_corpus_line_is_rejected() {
    let corpus = vec!["the 100".to_string(), "lonely".to_string(), "is 5".to_string()];
    let r = Spellchecker::new(dict_lines(), corpus);
    assert_eq!(r.err(), Some(LoadError::MalformedCorpusLine(1)));

    let corpus = vec!["the notanumber".to_string()];
    let r = Spellchecker::new(dict_lines(), corpus);
    assert_eq!(r.err(), Some(LoadError::MalformedCorpusLine(0)));

    let corpus = vec!["big 99999999999999999999999999".to_string()];
    let r = Spellchecker::new(dict_lines(), corpus);
    assert_eq!(r.err(), Some(LoadError::MalformedCorpusLine(0)));
}

#[test]
fn test_corpus_lines_are_trimmed_and_split() {
    // extra whitespace around the count still parses; extra tokens are ignored
    let corpus = vec!["the   42   extra".to_string(), "of\t-7".to_string()];
    let mut spellchecker = Spellchecker::new(dict_lines(), corpus).unwrap();
    spellchecker.check("xyzzt");
    spellchecker.suggest(0);
    assert_eq!(spellchecker.get_suggestions(0).len(), 2);
}

#[test]
fn test_dictionary_lines_are_trimmed_and_sorted() {
    // unsorted and padded input still gives a working dictionary
    let dict = vec!["  zebra ".to_string(), "apple".to_string(), " mango".to_string()];
    let mut spellchecker = Spellchecker::new(dict, vec!["the 1".to_string()]).unwrap();
    spellchecker.check("zebra mango apple kiwi");
    assert_eq!(spellchecker.misspellings.len(), 1);
    assert_eq!(spellchecker.misspellings[0].get_word(), "kiwi");
}

#[test]
fn test_rank_keeps_at_most_ten() {
    let spellchecker = get_spellchecker();
    let mut misspelling = Misspelling::new("ths".to_string(), 0, 2);
    misspelling.suggest(&spellchecker.suggestion_dict);
    // the corpus has more entries than the bound
    assert!(spellchecker.suggestion_dict.len() > 10);
    assert_eq!(misspelling.get_suggestions().len(), 10);
}

#[test]
fn test_rank_prefers_distance_then_popularity() {
    let corpus: Vec<CorpusEntry> = vec![
        CorpusEntry { word: "bat".to_string(), popularity: 999999 },
        CorpusEntry { word: "card".to_string(), popularity: 10 },
        CorpusEntry { word: "cat".to_string(), popularity: 50 },
    ];
    let mut misspelling = Misspelling::new("cart".to_string(), 0, 3);
    misspelling.suggest(&corpus);
    // "cat" and "card" are one edit away, "bat" two; among the close pair the
    // more popular "cat" comes first, however popular the distant "bat" is
    assert_eq!(misspelling.get_suggestions()[0], "cat");
    assert_eq!(misspelling.get_suggestions()[1], "card");
    assert_eq!(misspelling.get_suggestions()[2], "bat");
}
