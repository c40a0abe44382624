use braille_art::zoazo::{generate_zoazo, zoazo_emote};

#[test]
fn emote_is_zoazo_and_the_capitalised_words() {
    assert_eq!(zoazo_emote(&vec![]), "zoazo");
    assert_eq!(zoazo_emote(&vec!["hello"]), "zoazoHello");
    assert_eq!(zoazo_emote(&vec!["hello", "world", "again"]), "zoazoHelloWorldAgain");
}

#[test]
fn only_the_first_letter_changes_and_only_if_it_is_ascii() {
    assert_eq!(zoazo_emote(&vec!["hELLo"]), "zoazoHELLo");
    assert_eq!(zoazo_emote(&vec!["Already"]), "zoazoAlready");
    assert_eq!(zoazo_emote(&vec!["", "a", "zz"]), "zoazoAZz");
    assert_eq!(zoazo_emote(&vec!["élan", "9lives", "{brace"]), "zoazoélan9lives{brace");
}

#[test]
fn a_short_emote_has_one_word_of_the_list() {
    let words = vec!["alpha", "beta", "gamma"];
    for _ in 0..50 {
        let emote = generate_zoazo(true, &words);
        assert!(["zoazoAlpha", "zoazoBeta", "zoazoGamma"].contains(&emote.as_str()));
    }
}

#[test]
fn a_long_emote_has_two_to_five_words_of_the_list() {
    let words = vec!["alpha", "beta", "gamma"];
    for _ in 0..200 {
        let emote = generate_zoazo(false, &words);
        let mut rest = emote.strip_prefix("zoazo").unwrap();
        let mut count = 0;
        while !rest.is_empty() {
            let word = ["Alpha", "Beta", "Gamma"].into_iter().find(|w| rest.starts_with(w)).unwrap();
            rest = &rest[word.len()..];
            count += 1;
        }
        assert!((2..=5).contains(&count));
    }
}

#[test]
fn a_list_of_one_word_leaves_no_choice() {
    assert_eq!(generate_zoazo(true, &vec!["solo"]), "zoazoSolo");
    let emote = generate_zoazo(false, &vec!["ab"]);
    assert!(["zoazoAbAb", "zoazoAbAbAb", "zoazoAbAbAbAb", "zoazoAbAbAbAbAb"].contains(&emote.as_str()));
}
