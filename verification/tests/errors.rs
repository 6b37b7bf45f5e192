use poker_equity::sim::categories;
use poker_equity::sim::inputs::{any_duplicate, read_matchup, validate_inputs, SimError};
use poker_equity::sim::card::Card;
use poker_equity::sim::rank_distribution::simulate_rank_distribution;
use poker_equity::sim::simulate_vs_list::{simulate_vs_list_with_ranks, simulate_vs_list_with_ranks_trace};

fn message(hero: &str, board: &str, list: &str) -> String {
    let err = simulate_vs_list_with_ranks(hero, board, list, 10, 1).expect_err("error");
    assert_eq!(simulate_vs_list_with_ranks_trace(hero, board, list, 10, 1), Err(err.clone()));
    let detail = detailed(hero, board, list);
    if err != "hero hand must have 2 cards" && err != "each compare hand must have 2 cards" {
        assert_eq!(detail, err);
    }
    err
}

fn detailed(hero: &str, board: &str, list: &str) -> String {
    categories::simulate_vs_list_with_ranks(hero, board, list, 10, 1).expect_err("error")
}

#[test]
fn tokens_that_spell_no_card_are_told_apart() {
    assert_eq!(detailed("As", "", "KdKc"), "hero hand must have 2 cards");
    assert_eq!(detailed("AsKsQs", "", "KdKc"), "hero hand must have 2 cards");
    assert_eq!(detailed("", "", "KdKc"), "hero hand must have 2 cards");
    assert_eq!(detailed("AxKs", "", "KdKc"), "failed to parse hero card1");
    assert_eq!(detailed("Ax Kx", "", "KdKc"), "failed to parse hero card1");
    assert_eq!(detailed("AsK", "", "KdKc"), "failed to parse hero card2");
    assert_eq!(detailed("As Kx", "8d Qx", ""), "failed to parse hero card2");
    assert_eq!(message("AsK", "", "KdKc"), "hero hand must have 2 cards");
    assert_eq!(detailed("AsKs", "8d Qx", "Kd"), "failed to parse board");
    assert_eq!(detailed("AsKs", "", "KdKc;Qh"), "each compare hand must have 2 cards");
    assert_eq!(detailed("AsKs", "", "KdKc; QhQd"), "each compare hand must have 2 cards");
    assert_eq!(detailed("AsKs", "", "KdKc;QxQd"), "failed to parse compare card1");
    assert_eq!(detailed("AsKs", "", " ;KdKc;Qh Q;Qx"), "failed to parse compare card2");
    assert_eq!(detailed("AsKs", "", "KdKc;QhQ"), "failed to parse compare card2");
    assert_eq!(message("AsKs", "", "KdKc;QhQ"), "each compare hand must have 2 cards");
    assert_eq!(detailed("AsKs", "", "KdKc;Qh;QxQd"), "each compare hand must have 2 cards");
}

#[test]
fn duplicate_hero_card_is_turned_down() {
    assert_eq!(message("AsAs", "", "KdKc"), "duplicate cards inside hero hand");
    assert_eq!(read_matchup("AsAs", "", "KdKc").err(), Some(SimError::DuplicateHero));
}

#[test]
fn texts_that_spell_no_matchup() {
    assert_eq!(message("As", "", "KdKc"), "hero hand must have 2 cards");
    assert_eq!(message("", "", "KdKc"), "hero hand must have 2 cards");
    assert_eq!(message("AsKs", "8d Qx", "KdKc"), "failed to parse board");
    assert_eq!(message("AsKs", "2c3c4c5c6c7c", "KdKc"), "failed to parse board");
    assert_eq!(message("AsKs", "", "KdKc;Qh"), "each compare hand must have 2 cards");
    assert_eq!(message("AsKs", "", ""), "no compare hands provided");
    assert_eq!(message("AsKs", "", " ; ;"), "no compare hands provided");
    assert_eq!(message("As", "8d Qx", ""), "hero hand must have 2 cards");
    assert_eq!(message("AsKs", "8d Qx", ""), "failed to parse board");
}

#[test]
fn cards_that_occur_twice() {
    assert_eq!(message("AsKs", "2c 3c 2c", "KdKc"), "duplicate cards detected in board");
    assert_eq!(message("AsAs", "2c 3c 2c", "KdKc"), "duplicate cards detected in board");
    assert_eq!(message("AsKs", "2c 3c As", "KdKc"), "hero overlaps board");
    assert_eq!(message("AsKs", "2c 3c Ks", "KdKc"), "hero overlaps board");
    assert_eq!(message("AsKs", "2c 3c", "KdKd"), "duplicate cards inside opponent hand");
    assert_eq!(message("AsKs", "2c 3c", "KdAs"), "opponent overlaps hero");
    assert_eq!(message("AsKs", "2c 3c", "KsKd"), "opponent overlaps hero");
    assert_eq!(message("AsKs", "2c 3c", "Kd2c"), "opponent overlaps board");
    assert_eq!(message("AsKs", "2c 3c", "3cKd"), "opponent overlaps board");
    assert_eq!(message("AsKs", "2c 3c", "2cAs"), "opponent overlaps board");
    assert_eq!(message("AsKs", "2c 3c", "As2c"), "opponent overlaps hero");
    assert_eq!(message("AsKs", "2c 3c", "QdQh;2cAs;KdKd"), "opponent overlaps board");
}

#[test]
fn one_to_eight_opponents() {
    let eight = "2c2d;3c3d;4c4d;5c5d;6c6d;7c7d;8c8d;9c9d";
    let rows = simulate_vs_list_with_ranks("AsKs", "", eight, 3, 1).expect("rows");
    assert_eq!(rows.len(), 9);
    assert_eq!(rows[8].4, 24);
    let nine = "2c2d;3c3d;4c4d;5c5d;6c6d;7c7d;8c8d;9c9d;TcTd";
    assert_eq!(message("AsKs", "", nine), "too many compare hands provided");
    assert_eq!(message("AsKs", "", "2c2d;3c3d;4c4d;5c5d;6c6d;7c7d;8c8d;9c9d;AsAs"), "too many compare hands provided");
    assert_eq!(message("AsKs", "", "2c2d;3c3d;4c4d;5c5d;6c6d;7c7d;8c8d;9c9d;Tc"), "each compare hand must have 2 cards");
}

#[test]
fn opponents_may_share_cards_with_each_other() {
    let rows = simulate_vs_list_with_ranks("AsKs", "", "QhQd;QhJd;QhQd", 20, 1).expect("rows");
    assert_eq!(rows.len(), 4);
}

#[test]
fn every_error_has_its_message() {
    let all = [
        (SimError::HeroHand, "hero hand must have 2 cards"),
        (SimError::HeroCard1, "failed to parse hero card1"),
        (SimError::HeroCard2, "failed to parse hero card2"),
        (SimError::CompareCard1, "failed to parse compare card1"),
        (SimError::CompareCard2, "failed to parse compare card2"),
        (SimError::Board, "failed to parse board"),
        (SimError::CompareHand, "each compare hand must have 2 cards"),
        (SimError::NoCompareHands, "no compare hands provided"),
        (SimError::TooManyCompareHands, "too many compare hands provided"),
        (SimError::Hands, "failed to parse hands"),
        (SimError::BoardTooShort, "board must be >=3 cards"),
        (SimError::DuplicateBoard, "duplicate cards detected in board"),
        (SimError::DuplicateHero, "duplicate cards inside hero hand"),
        (SimError::HeroOverlapsBoard, "hero overlaps board"),
        (SimError::DuplicateOpponent, "duplicate cards inside opponent hand"),
        (SimError::OpponentOverlapsHero, "opponent overlaps hero"),
        (SimError::OpponentOverlapsBoard, "opponent overlaps board"),
        (SimError::DuplicateHand, "duplicate cards inside a hand"),
        (SimError::HandOverlapsBoard, "hand overlaps board"),
        (SimError::Game, "game setup failed"),
    ];
    for (e, text) in all {
        assert_eq!(e.message(), text);
    }
}

#[test]
fn validation_of_cards() {
    let a = Card { rank: 12, suit: 0 };
    let k = Card { rank: 11, suit: 0 };
    let q = Card { rank: 10, suit: 1 };
    let j = Card { rank: 9, suit: 1 };
    assert!(!any_duplicate(&[]));
    assert!(!any_duplicate(&[a, k, q]));
    assert!(any_duplicate(&[a, k, a]));
    assert_eq!(validate_inputs(&[a, k], &[q], &[[j, Card { rank: 2, suit: 2 }]]), Ok(()));
    assert_eq!(validate_inputs(&[a, k], &[q], &[]), Ok(()));
    assert_eq!(validate_inputs(&[a, k], &[q, q], &[[a, a]]), Err(SimError::DuplicateBoard));
    assert_eq!(validate_inputs(&[a, k], &[q], &[[j, q]]), Err(SimError::OpponentOverlapsBoard));
}

#[test]
fn distribution_errors() {
    let err = |hands: &str, board: &str| simulate_rank_distribution(hands, board, 5, 1).expect_err("error");
    assert_eq!(err("", "2c3c4c"), "failed to parse hands");
    assert_eq!(err("AsK", "2c3c4c"), "failed to parse hands");
    assert_eq!(err("AsKs", "2c3x4c"), "failed to parse board");
    assert_eq!(err("AsKs", "2c3c"), "board must be >=3 cards");
    assert_eq!(err("AsKs", ""), "board must be >=3 cards");
    assert_eq!(err("AsKs", "2c3c2c"), "duplicate cards detected in board");
    assert_eq!(err("AsAs", "2c3c4c"), "duplicate cards inside a hand");
    assert_eq!(err("AsKs;2cKd", "2c3c4c"), "hand overlaps board");
    assert_eq!(err("AsKs;Kd4c", "2c3c4c"), "hand overlaps board");
    let loose = |hands: &str, board: &str| categories::simulate_rank_distribution(hands, board, 5, 1);
    assert!(loose("AsKs", "2c3c").is_ok());
    assert!(loose("AsKs;AsKs", "").is_ok());
    assert_eq!(loose("AsKs", "2c2c"), Err("duplicate cards detected in board".to_string()));
    assert_eq!(loose("", ""), Err("failed to parse hands".to_string()));
}
