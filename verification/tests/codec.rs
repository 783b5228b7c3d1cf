use chess_positions::codec::{BitPiece, BitPosition, DecodeError, ParseError, PieceInPlay, Side};

const START_FEN: &str = "rnbqkbnr/pppppppp/8/8/8/8/PPPPPPPP/RNBQKBNR w KQkq - 0 1";
const EMPTY_FEN: &str = "8/8/8/8/8/8/8/8 w - - 0 1";

#[test]
fn square_codes_follow_the_fixed_table() {
    assert_eq!(PieceInPlay::new(BitPiece::Rook, Side::White).value(), 0);
    assert_eq!(PieceInPlay::new(BitPiece::Pawn, Side::White).value(), 5);
    assert_eq!(PieceInPlay::new(BitPiece::Rook, Side::Black).value(), 8);
    assert_eq!(PieceInPlay::new(BitPiece::Pawn, Side::Black).value(), 13);
    assert_eq!(PieceInPlay::new(BitPiece::Empty, Side::Black).value(), 14);
}

#[test]
fn unmapped_codes_do_not_decode() {
    assert_eq!(PieceInPlay::from_code(6), None);
    assert_eq!(PieceInPlay::from_code(7), None);
    assert_eq!(PieceInPlay::from_code(15), None);
    assert_eq!(
        PieceInPlay::from_code(14),
        Some(PieceInPlay::new(BitPiece::Empty, Side::Black))
    );
    for c in [0u8, 1, 2, 3, 4, 5, 8, 9, 10, 11, 12, 13, 14] {
        assert_eq!(PieceInPlay::from_code(c).unwrap().value(), c);
    }
}

#[test]
fn display_letters() {
    assert_eq!(PieceInPlay::new(BitPiece::King, Side::White).to_char(), 'K');
    assert_eq!(PieceInPlay::new(BitPiece::King, Side::Black).to_char(), 'k');
    assert_eq!(PieceInPlay::new(BitPiece::Empty, Side::Black).to_char(), '_');
}

#[test]
fn empty_board_has_the_all_empty_fingerprint() {
    let b = BitPosition::new();
    let (r12, r34, r56, r78) = b.to_bits();
    assert_eq!(r12, 0xEEEE_EEEE_EEEE_EEEE);
    assert_eq!(r34, 0xEEEE_EEEE_EEEE_EEEE);
    assert_eq!(r56, 0xEEEE_EEEE_EEEE_EEEE);
    assert_eq!(r78, 0xEEEE_EEEE_EEEE_EEEE);
}

#[test]
fn starting_placement_has_the_documented_words() {
    let b = BitPosition::parse_from_str(START_FEN).unwrap();
    let (r12, r34, r56, r78) = b.to_bits();
    assert_eq!(r12, 0xDDDD_DDDD_89AC_BA98);
    assert_eq!(r34, 0xEEEE_EEEE_EEEE_EEEE);
    assert_eq!(r56, 0xEEEE_EEEE_EEEE_EEEE);
    assert_eq!(r78, 0x0124_3210_5555_5555);
}

#[test]
fn encoding_is_deterministic_across_calls() {
    let b = BitPosition::parse_from_str(START_FEN).unwrap();
    assert_eq!(b.to_bits(), b.to_bits());
    let again = BitPosition::parse_from_str(START_FEN).unwrap();
    assert_eq!(b.to_bits(), again.to_bits());
}

#[test]
fn starting_placement_round_trips_through_the_codec() {
    let b = BitPosition::parse_from_str(START_FEN).unwrap();
    let (r12, r34, r56, r78) = b.to_bits();
    let back = BitPosition::from_bits(r12, r34, r56, r78).unwrap();
    assert!(back == b);
}

#[test]
fn empty_placement_parses_to_the_all_empty_board() {
    let b = BitPosition::parse_from_str(EMPTY_FEN).unwrap();
    let empty = PieceInPlay::new(BitPiece::Empty, Side::Black);
    assert_eq!(b.board.len(), 64);
    for sq in &b.board {
        assert!(*sq == empty);
    }
    assert!(b == BitPosition::new());
}

#[test]
fn mid_game_placement_round_trips() {
    let fen = "rnbqkbnr/pp1ppppp/8/2p5/4P3/8/PPPP1PPP/RNBQKBNR w KQkq c6 0 2";
    let b = BitPosition::parse_from_str(fen).unwrap();
    let (r12, r34, r56, r78) = b.to_bits();
    let back = BitPosition::from_bits(r12, r34, r56, r78).unwrap();
    assert!(back == b);
    assert_eq!(back.board[26].to_char(), 'p');
    assert_eq!(back.board[25].to_char(), '_');
}

#[test]
fn unknown_nibble_fails_decoding() {
    // nibble 6 is the one empty-with-white code the table never produces
    assert_eq!(
        BitPosition::from_bits(6, 0xEEEE_EEEE_EEEE_EEEE, 0, 0),
        Err(DecodeError::UnknownCode)
    );
    // 0 alone is 16 white rooks: odd, but every nibble is mapped
    assert!(BitPosition::from_bits(0, 0, 0, 0).is_ok());
}

#[test]
fn record_with_too_few_fields_is_rejected() {
    assert_eq!(
        BitPosition::parse_from_str("8/8/8/8/8/8/8/8 w - -"),
        Err(ParseError::WrongFieldCount)
    );
    assert_eq!(
        BitPosition::parse_from_str(""),
        Err(ParseError::WrongFieldCount)
    );
    assert_eq!(
        BitPosition::parse_from_str("8/8/8/8/8/8/8/8 w - - 0 1 extra"),
        Err(ParseError::WrongFieldCount)
    );
}

#[test]
fn placement_with_wrong_rank_count_is_rejected() {
    assert_eq!(
        BitPosition::parse_from_str("8/8/8/8/8/8/8 w - - 0 1"),
        Err(ParseError::WrongRankCount)
    );
    assert_eq!(
        BitPosition::parse_from_str("8/8/8/8/8/8/8/8/8 w - - 0 1"),
        Err(ParseError::WrongRankCount)
    );
}

#[test]
fn digits_outside_one_to_eight_are_rejected_not_fatal() {
    assert_eq!(
        BitPosition::parse_from_str("9/8/8/8/8/8/8/8 w - - 0 1"),
        Err(ParseError::InvalidDigit)
    );
    assert_eq!(
        BitPosition::parse_from_str("8/8/8/0/8/8/8/8 w - - 0 1"),
        Err(ParseError::InvalidDigit)
    );
}

#[test]
fn rank_whose_digits_sum_past_eight_is_rejected() {
    assert_eq!(
        BitPosition::parse_from_str("44P4/8/8/8/8/8/8/8 w - - 0 1"),
        Err(ParseError::InvalidDigit)
    );
    assert_eq!(
        BitPosition::parse_from_str("8/8/8/8/8/8/8/63 w - - 0 1"),
        Err(ParseError::InvalidDigit)
    );
}

#[test]
fn underfull_rank_is_rejected() {
    assert_eq!(
        BitPosition::parse_from_str("7/8/8/8/8/8/8/8 w - - 0 1"),
        Err(ParseError::InvalidDigit)
    );
}

#[test]
fn stray_characters_are_piece_errors() {
    assert_eq!(
        BitPosition::parse_from_str("8/8/8/8/8/8/8/7x w - - 0 1"),
        Err(ParseError::InvalidPieceChar)
    );
    assert_eq!(
        BitPosition::parse_from_str("rnbqkbnr/pppppppp/8/8/8/8/PPPPPPPP/RNBQKBNx w - - 0 1"),
        Err(ParseError::InvalidPieceChar)
    );
}
