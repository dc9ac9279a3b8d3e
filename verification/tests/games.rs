use puzzles::combat::{get_deck, DeckError, GameState, PlayerHand};
use puzzles::cups::{cups_succ, Check, Cup, CupCircle};
use puzzles::expr::{eval, Expr, Lexer, Parser, PrecedenceError, Rules, Token};
use std::collections::VecDeque;

fn lines(text: &str) -> Vec<String> {
    text.split('\n').map(|s| s.to_string()).collect()
}

fn hand(cards: &[u32]) -> PlayerHand {
    PlayerHand { cards: cards.iter().copied().collect() }
}

fn cards_of(h: &PlayerHand) -> Vec<u32> {
    h.cards.iter().copied().collect()
}

#[test]
fn decks_are_read_by_player() {
    let text = lines("Player 1:\n9\n2\n6\n3\n1\n\nPlayer 2:\n5\n8\n4\n7\n10");
    assert_eq!(get_deck(1, &text), Ok(VecDeque::from(vec![9, 2, 6, 3, 1])));
    assert_eq!(get_deck(2, &text), Ok(VecDeque::from(vec![5, 8, 4, 7, 10])));
    assert_eq!(get_deck(3, &text), Ok(VecDeque::new()));
    let game = GameState::new(&text).ok().unwrap();
    assert_eq!(cards_of(&game.p1), vec![9, 2, 6, 3, 1]);
    assert_eq!(cards_of(&game.p2), vec![5, 8, 4, 7, 10]);
    assert_eq!(cards_of(&PlayerHand::new(2, &text).ok().unwrap()), vec![5, 8, 4, 7, 10]);
}

#[test]
fn bad_cards_are_reported_with_their_line() {
    let text = lines("Player 1:\n9\nx\nPlayer 2:\n-5");
    assert_eq!(get_deck(1, &text), Err(DeckError::BadCard(2)));
    assert_eq!(get_deck(2, &text), Err(DeckError::BadCard(4)));
    assert_eq!(GameState::new(&text).err(), Some(DeckError::BadCard(2)));
    let before = lines("7\nPlayer 1:\n+3");
    assert_eq!(get_deck(1, &before), Ok(VecDeque::from(vec![3])));
    assert_eq!(get_deck(0, &before), Ok(VecDeque::from(vec![7])));
    assert_eq!(get_deck(0, &lines("x")), Err(DeckError::BadCard(0)));
}

#[test]
fn score_counts_from_the_bottom() {
    assert_eq!(hand(&[3, 2, 10, 6, 8, 5, 9, 4, 7, 1]).score(), 306);
    assert_eq!(hand(&[]).score(), 0);
    assert_eq!(hand(&[7]).score(), 7);
}

#[test]
fn hands_change_as_cards_move() {
    let mut h = hand(&[4, 5, 6]);
    assert_eq!(h.play_next_card(), 4);
    h.win_cards(9, 1);
    assert_eq!(cards_of(&h), vec![5, 6, 9, 1]);
    assert_eq!(h.num_cards(), 4);
    assert!(!h.is_empty());
    h.truncate(2);
    assert_eq!(cards_of(&h), vec![5, 6]);
    h.truncate(5);
    assert_eq!(cards_of(&h), vec![5, 6]);
    h.truncate(0);
    assert!(h.is_empty());
}

#[test]
fn rounds_of_the_basic_game() {
    let mut game = GameState { p1: hand(&[9, 2]), p2: hand(&[5, 8]) };
    assert_eq!(game.total_card_count(), 4);
    assert_eq!(game.game_result(), None);
    assert!(!game.play_one_basic_round(1));
    assert_eq!(cards_of(&game.p1), vec![2, 9, 5]);
    assert_eq!(cards_of(&game.p2), vec![8]);
    assert!(!game.play_one_basic_round(2));
    assert_eq!(cards_of(&game.p1), vec![9, 5]);
    assert_eq!(cards_of(&game.p2), vec![8, 2]);
    assert_eq!(game.score(1), 23);
    assert_eq!(game.score(2), 18);
    let mut tie = GameState { p1: hand(&[4]), p2: hand(&[4]) };
    assert!(tie.play_one_basic_round(1));
    assert_eq!(cards_of(&tie.p1), vec![4, 4]);
    assert_eq!(tie.game_result(), Some((1, 12)));
    let other = GameState { p1: hand(&[]), p2: hand(&[2, 3]) };
    assert_eq!(other.game_result(), Some((2, 7)));
    let mut cut = GameState { p1: hand(&[1, 2, 3]), p2: hand(&[4, 5, 6]) };
    cut.truncate_hands(1, 7);
    assert_eq!(cards_of(&cut.p1), vec![1]);
    assert_eq!(cards_of(&cut.p2), vec![4, 5, 6]);
}

#[test]
fn lexer_cuts_tokens() {
    let mut lex = Lexer::new(" 12 +(3*45)  ");
    let mut seen = Vec::new();
    while let Some(t) = lex.next() {
        seen.push(t);
        lex.consume();
    }
    assert_eq!(
        seen,
        vec![
            Token::Number(12),
            Token::Operator('+'),
            Token::LeftParen,
            Token::Number(3),
            Token::Operator('*'),
            Token::Number(45),
            Token::RightParen
        ]
    );
    assert_eq!(lex.unread_input(), Vec::<char>::new());
    let lex = Lexer::new("7 * 8");
    assert_eq!(lex.next(), Some(Token::Number(7)));
    assert_eq!(lex.unread_input(), vec![' ', '*', ' ', '8']);
    assert_eq!(Lexer::new("   ").next(), None);
    assert_eq!(Lexer::new("9223372036854775807").next(), Some(Token::Number(i64::MAX)));
}

#[test]
fn precedences_follow_the_rules() {
    let p = Parser { rules: Rules { precedence_plus: 30, precedence_times: 20 } };
    assert_eq!(p.prec(&None), Ok(-1));
    assert_eq!(p.prec(&Some(Token::Operator('+'))), Ok(30));
    assert_eq!(p.prec(&Some(Token::Operator('*'))), Ok(20));
    assert_eq!(p.prec(&Some(Token::Operator('-'))), Err(PrecedenceError::UnknownOperator('-')));
    assert_eq!(
        p.prec(&Some(Token::Number(4))),
        Err(PrecedenceError::UnexpectedToken(Token::Number(4)))
    );
    assert_eq!(p.right_prec(&Some(Token::Operator('+'))), Ok(31));
    assert_eq!(p.right_prec(&None), Ok(-1));
    assert_eq!(p.next_prec(&Some(Token::Operator('*'))), Ok(20));
    assert!(p.prec_is_between(20, &Some(Token::Operator('*')), 20));
    assert!(!p.prec_is_between(21, &Some(Token::Operator('*')), 1000));
    assert!(!p.prec_is_between(0, &Some(Token::Operator('+')), 29));
    assert!(!p.prec_is_between(0, &None, 1000));
    assert!(!p.prec_is_between(0, &Some(Token::LeftParen), 1000));
}

#[test]
fn expressions_are_evaluated() {
    let two = || Box::new(Expr::Constant(2));
    let three = || Box::new(Expr::Constant(3));
    assert_eq!(eval(&Expr::Constant(-5)), -5);
    assert_eq!(eval(&Expr::Op(two(), '+', three())), 5);
    assert_eq!(eval(&Expr::Op(two(), '*', three())), 6);
    let nested = Expr::Op(Box::new(Expr::Op(two(), '+', three())), '*', Box::new(Expr::Op(two(), '*', three())));
    assert_eq!(eval(&nested), 30);
}

fn circle(labels: &[u32]) -> CupCircle {
    let n = labels.len();
    let mut label_to_pos = vec![0usize; n];
    for (pos, label) in labels.iter().enumerate() {
        label_to_pos[*label as usize - 1] = pos;
    }
    CupCircle {
        verbose: false,
        checks: Check::Never,
        cups: labels.iter().enumerate().map(|(i, l)| Cup { label: *l, succ: (i + 1) % n }).collect(),
        label_to_pos,
        current_pos: 0,
        max_label: n as u32,
    }
}

#[test]
fn cups_are_found_by_label_and_by_walking() {
    let c = circle(&[3, 8, 9, 1, 2, 5, 4, 6, 7]);
    assert_eq!(c.label_of_current(), 3);
    assert_eq!(c.get_pos(1), 3);
    assert_eq!(c.get_pos(7), 8);
    assert_eq!(cups_succ(1, 0, &c), 1);
    assert_eq!(cups_succ(1, 1, &c), 2);
    assert_eq!(cups_succ(1, 2, &c), 5);
    assert_eq!(cups_succ(7, 1, &c), 3);
    assert_eq!(cups_succ(7, 9, &c), 7);
}
