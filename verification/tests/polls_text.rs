//! Behaviour of straw polls and of the text helpers: normalization and
//! decimal parsing.

use guildstore::polls::StrawPoll;
use guildstore::text::{normalized, parse_u64, same_title, u64_to_dec};

#[test]
fn poll_question_and_answers() {
    let mut poll = StrawPoll {
        question: String::new(),
        answers: Vec::new(),
        answerers: Vec::new(),
    };
    poll.set_question("Next game night?".to_string());
    poll.add_answer("Friday".to_string());
    poll.add_answer("Saturday".to_string());
    assert_eq!(poll.question, "Next game night?");
    assert_eq!(poll.answers, vec!["Friday".to_string(), "Saturday".to_string()]);
    assert_eq!(poll.remove_answer(0), Some(()));
    assert_eq!(poll.answers, vec!["Saturday".to_string()]);
    assert_eq!(poll.remove_answer(1), None);
    assert_eq!(poll.answers.len(), 1);
}

#[test]
fn normalization_trims_and_lowers() {
    assert_eq!(normalized("  HaLo  "), "halo");
    assert_eq!(normalized("\t\r\n"), "");
    assert_eq!(normalized("Äpfel"), "Äpfel");
    assert!(same_title("Halo", " hALO\t"));
    assert!(!same_title("Halo", "Halos"));
}

#[test]
fn decimal_round_trip() {
    assert_eq!(u64_to_dec(0), "0");
    assert_eq!(u64_to_dec(76561198000000000), "76561198000000000");
    assert_eq!(parse_u64("76561198000000000"), Some(76561198000000000));
    assert_eq!(parse_u64("0"), Some(0));
    assert_eq!(parse_u64("18446744073709551615"), Some(u64::MAX));
    assert_eq!(parse_u64("18446744073709551616"), None);
    assert_eq!(parse_u64(""), None);
    assert_eq!(parse_u64("12x"), None);
    assert_eq!(parse_u64("vanityname"), None);
}
