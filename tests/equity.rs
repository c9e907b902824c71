use poker_equity::cards::{board_parser, hand_parser, player_parser, Hand, HandError};
use poker_equity::engine::{compute_equity, EquityError, Showdowns};

fn hand(text: &str) -> Hand {
    hand_parser(text, 7).unwrap()
}

fn equity(s: &Showdowns) -> f64 {
    let total = (s.wins + s.ties + s.losses) as f64;
    (s.wins as f64 + 0.5 * s.ties as f64) / total
}

fn run(player: &str, opponents: &[&str], board: &str, samples: usize, seed: u64) -> Result<Showdowns, EquityError> {
    let opponents: Vec<Hand> = opponents.iter().map(|o| hand(o)).collect();
    compute_equity(&hand(player), &opponents, &hand(board), &samples, &seed)
}

#[test]
fn parses_cards_as_indices() {
    let h = player_parser("As Ah").unwrap();
    assert_eq!(h.cards(), &vec![50u8, 51u8]);
    assert_eq!(h.len(), 2);
    assert!(!h.is_empty());
    assert!(h.contains(51));
    assert!(!h.contains(0));
    let low = player_parser("2c 3d").unwrap();
    assert_eq!(low.cards(), &vec![0u8, 5u8]);
}

#[test]
fn parses_blank_as_empty_hand() {
    let h = board_parser("").unwrap();
    assert!(h.is_empty());
    assert_eq!(h.len(), 0);
    assert_eq!(Hand::new().len(), 0);
}

#[test]
fn refuses_malformed_card() {
    assert_eq!(player_parser("Xx").unwrap_err(), HandError::Unparsable);
    assert_eq!(player_parser("As Ahh").unwrap_err(), HandError::Unparsable);
}

#[test]
fn refuses_repeated_card() {
    assert_eq!(player_parser("As As").unwrap_err(), HandError::Unparsable);
}

#[test]
fn refuses_too_many_cards_for_role() {
    assert_eq!(player_parser("As Ah Kd").unwrap_err(), HandError::TooMany { max: 2 });
    assert_eq!(board_parser("2c 3c 4c 5c 6c 7c").unwrap_err(), HandError::TooMany { max: 5 });
    assert_eq!(board_parser("2c 3c 4c 5c 6c").unwrap().len(), 5);
}

#[test]
fn identical_hands_split_every_pot() {
    for seed in [1u64, 42, 7777] {
        let s = run("As Ah", &["Ah As"], "", 2000, seed).unwrap();
        assert_eq!(s, Showdowns { wins: 0, ties: 2000, losses: 0 });
        assert_eq!(equity(&s), 0.5);
    }
}

#[test]
fn complete_board_win_is_settled() {
    for (samples, seed) in [(10usize, 1u64), (500, 2), (1, 99)] {
        let s = run("As Ah", &["7d 8c"], "2s 5d 9h Jc Kc", samples, seed).unwrap();
        assert_eq!(s, Showdowns { wins: samples, ties: 0, losses: 0 });
        assert_eq!(equity(&s), 1.0);
    }
}

#[test]
fn complete_board_loss_is_settled() {
    let s = run("7d 8c", &["As Ah"], "2s 5d 9h Jc Kc", 300, 5).unwrap();
    assert_eq!(s, Showdowns { wins: 0, ties: 0, losses: 300 });
    assert_eq!(equity(&s), 0.0);
}

#[test]
fn complete_board_royal_flush_ties() {
    let s = run("2d 3h", &["4s 7d"], "Ac Kc Qc Jc Tc", 250, 11).unwrap();
    assert_eq!(s, Showdowns { wins: 0, ties: 250, losses: 0 });
    assert_eq!(equity(&s), 0.5);
}

#[test]
fn too_many_cards_needed_is_refused() {
    let opponents = vec![""; 23];
    assert_eq!(run("", &opponents, "", 10, 42), Err(EquityError::InsufficientCards));
    let opponents = vec![""; 22];
    assert!(run("", &opponents, "", 10, 42).is_ok());
    let opponents = vec![""; 23];
    assert_eq!(run("As Ah", &opponents, "2c 3c 4c", 10, 42), Err(EquityError::InsufficientCards));
    assert!(run("As Ah", &opponents[..22], "2c 3c 4c", 10, 42).is_ok());
}

#[test]
fn insufficient_cards_refused_even_without_samples() {
    let opponents = vec![""; 30];
    assert_eq!(run("", &opponents, "", 0, 42), Err(EquityError::InsufficientCards));
}

#[test]
fn card_on_board_and_in_hand_is_refused() {
    assert_eq!(run("As Ah", &["Kd"], "As 2c 3c", 10, 42), Err(EquityError::DuplicateCard));
    assert_eq!(run("Ks Kh", &["Qd 2c"], "2c 3c 4c", 10, 42), Err(EquityError::DuplicateCard));
    assert_eq!(run("Ks Kh", &["Qd 2c", "2c Jd"], "", 10, 42), Err(EquityError::DuplicateCard));
}

#[test]
fn oversized_hand_is_refused() {
    assert_eq!(run("As Ah Kd", &["Qd"], "", 10, 42), Err(EquityError::TooManyCards));
    assert_eq!(run("As", &["Qd 2c 3c"], "", 10, 42), Err(EquityError::TooManyCards));
    assert_eq!(run("As", &["Qd"], "2c 3c 4c 5c 6c 7c", 10, 42), Err(EquityError::TooManyCards));
}

#[test]
fn oversized_hand_is_reported_before_duplicate() {
    assert_eq!(run("As Ah Kd", &["As"], "As", 10, 42), Err(EquityError::TooManyCards));
}

#[test]
fn zero_samples_give_empty_tally() {
    let s = run("As Ah", &["2c 7d"], "", 0, 42).unwrap();
    assert_eq!(s, Showdowns { wins: 0, ties: 0, losses: 0 });
}

#[test]
fn same_arguments_give_same_tally() {
    let a = run("As Kd", &["Qh Qc", ""], "7c", 5000, 123).unwrap();
    let b = run("As Kd", &["Qh Qc", ""], "7c", 5000, 123).unwrap();
    assert_eq!(a, b);
    assert_eq!(equity(&a).to_bits(), equity(&b).to_bits());
}

#[test]
fn tally_counts_every_sample() {
    for (player, board) in [("", ""), ("Ah", "Kd 2c"), ("Ts 9s", "8s 7s 2d 3c")] {
        let s = run(player, &["", "Qc", "4d 4h"], board, 3000, 9).unwrap();
        assert_eq!(s.wins + s.ties + s.losses, 3000);
        let e = equity(&s);
        assert!((0.0..=1.0).contains(&e));
    }
}

#[test]
fn swapping_hands_is_complementary() {
    let a = equity(&run("As Kd", &["Qh Qc"], "", 40000, 42).unwrap());
    let b = equity(&run("Qh Qc", &["As Kd"], "", 40000, 42).unwrap());
    assert!((a + b - 1.0).abs() < 0.03, "{} + {}", a, b);
}

#[test]
fn aces_against_seven_deuce() {
    let e = equity(&run("As Ah", &["2c 7d"], "", 100000, 42).unwrap());
    assert!(e > 0.82 && e < 0.92, "{}", e);
}

#[test]
fn random_hands_are_even() {
    let e = equity(&run("", &[""], "", 40000, 3).unwrap());
    assert!((e - 0.5).abs() < 0.02, "{}", e);
}

#[test]
fn refuses_long_runs_of_repeated_cards() {
    let thirteen = vec!["As"; 13].join(" ");
    assert_eq!(player_parser(&thirteen).unwrap_err(), HandError::Unparsable);
    let seventeen = vec!["As"; 17].join(" ");
    assert_eq!(board_parser(&seventeen).unwrap_err(), HandError::Unparsable);
    assert_eq!(hand_parser(&seventeen, 7).unwrap_err(), HandError::Unparsable);
}

#[test]
fn accepts_padded_text() {
    let h = board_parser("      Kd 2c 9h                        ").unwrap();
    assert_eq!(h.cards(), &vec![0u8, 30u8, 45u8]);
}

#[test]
fn accepts_text_padded_with_tabs_and_newlines() {
    let text = format!("As{}", "\t".repeat(24));
    assert_eq!(player_parser(&text).unwrap().cards(), &vec![51u8]);
    let text = format!("\n\n{}Kd 2c{}", "\t".repeat(30), "\r\n".repeat(20));
    assert_eq!(player_parser(&text).unwrap().cards(), &vec![0u8, 45u8]);
    let text = format!("{}As Ah Kd", " \t".repeat(20));
    assert_eq!(player_parser(&text).unwrap_err(), HandError::TooMany { max: 2 });
}

#[test]
fn refuses_non_ascii_text() {
    assert_eq!(player_parser("é").unwrap_err(), HandError::Unparsable);
    assert_eq!(player_parser("As é").unwrap_err(), HandError::Unparsable);
    assert_eq!(board_parser("A♠").unwrap_err(), HandError::Unparsable);
}

#[test]
fn lists_written_cards_in_ascending_order() {
    assert_eq!(player_parser("As 3c").unwrap().cards(), &vec![4u8, 51u8]);
    assert_eq!(board_parser("Th 2d Qs").unwrap().cards(), &vec![1u8, 34u8, 43u8]);
}

#[test]
fn refuses_more_than_seven_cards() {
    assert_eq!(hand_parser("2c 3c 4c 5c 6c 7c 8c 9c", 7).unwrap_err(), HandError::Unparsable);
    assert_eq!(hand_parser("2c 3c 4c 5c 6c 7c 8c", 7).unwrap().len(), 7);
}

#[test]
fn partly_shared_hole_cards_are_refused() {
    assert_eq!(run("As Ah", &["As Kd"], "", 10, 42), Err(EquityError::DuplicateCard));
    assert_eq!(run("As Ah", &["As"], "", 10, 42), Err(EquityError::DuplicateCard));
    assert_eq!(run("As", &["As Kd"], "", 10, 42), Err(EquityError::DuplicateCard));
    assert!(run("As", &["As"], "", 10, 42).is_ok());
}
