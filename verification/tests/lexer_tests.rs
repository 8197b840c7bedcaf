use molecule_parser::error::ErrorKind;
use molecule_parser::lexer::{chars_of, lex, lex_atom, lex_index, Token};

fn atom(symbol: &str) -> Token {
    Token::Atom(symbol.to_string())
}

#[test]
fn lex_gives_the_tokens_in_order() {
    assert_eq!(
        lex("K4[ON(SO3)2]2"),
        Ok(vec![
            atom("K"),
            Token::Index(4),
            Token::Bracket('['),
            atom("O"),
            atom("N"),
            Token::Bracket('('),
            atom("S"),
            atom("O"),
            Token::Index(3),
            Token::Bracket(')'),
            Token::Index(2),
            Token::Bracket(']'),
            Token::Index(2),
        ])
    );
}

#[test]
fn lex_of_the_empty_text_is_empty() {
    assert_eq!(lex(""), Ok(Vec::new()));
}

#[test]
fn lex_takes_lowercase_letters_into_the_atom() {
    assert_eq!(lex("MgOH"), Ok(vec![atom("Mg"), atom("O"), atom("H")]));
    assert_eq!(lex("Uuo"), Ok(vec![atom("Uuo")]));
}

#[test]
fn lex_reads_a_run_of_digits_as_one_number() {
    assert_eq!(lex("120"), Ok(vec![Token::Index(120)]));
    assert_eq!(lex("007"), Ok(vec![Token::Index(7)]));
    assert_eq!(lex("0"), Ok(vec![Token::Index(0)]));
    assert_eq!(lex("1(2"), Ok(vec![Token::Index(1), Token::Bracket('('), Token::Index(2)]));
}

#[test]
fn lex_takes_all_six_brackets() {
    assert_eq!(
        lex("()[]{}"),
        Ok(vec![
            Token::Bracket('('),
            Token::Bracket(')'),
            Token::Bracket('['),
            Token::Bracket(']'),
            Token::Bracket('{'),
            Token::Bracket('}'),
        ])
    );
}

#[test]
fn lex_rejects_the_first_character_that_starts_no_token() {
    assert_eq!(lex("pie"), Err(ErrorKind::LexError('p', 0)));
    assert_eq!(lex("H2 O"), Err(ErrorKind::LexError(' ', 2)));
    assert_eq!(lex("H-O+"), Err(ErrorKind::LexError('-', 1)));
    assert_eq!(lex("Mg<"), Err(ErrorKind::LexError('<', 2)));
}

#[test]
fn lex_counts_positions_in_characters() {
    assert_eq!(lex("Hé"), Err(ErrorKind::LexError('é', 1)));
    assert_eq!(lex("HÉ2"), Err(ErrorKind::LexError('É', 1)));
    assert_eq!(lex("٣"), Err(ErrorKind::LexError('٣', 0)));
}

#[test]
fn lex_fails_on_a_number_that_does_not_fit() {
    assert_eq!(lex("H340282366920938463463374607431768211456"), Err(ErrorKind::Overflow));
    let max = format!("{}", usize::MAX);
    assert_eq!(lex(&max), Ok(vec![Token::Index(usize::MAX)]));
    let beyond = format!("{}0", usize::MAX);
    assert_eq!(lex(&beyond), Err(ErrorKind::Overflow));
}

#[test]
fn chars_of_gives_every_character() {
    assert_eq!(chars_of("Mg(OH)2"), vec!['M', 'g', '(', 'O', 'H', ')', '2']);
    assert_eq!(chars_of("aé٣"), vec!['a', 'é', '٣']);
    assert_eq!(chars_of(""), Vec::<char>::new());
}

#[test]
fn lex_atom_takes_the_lowercase_letters_after_the_start() {
    let text = "NaCl2";
    let chars = chars_of(text);
    assert_eq!(lex_atom(text, &chars, 0), ("Na".to_string(), 2));
    assert_eq!(lex_atom(text, &chars, 2), ("Cl".to_string(), 4));
    assert_eq!(lex_atom(text, &chars, 1), ("a".to_string(), 2));
    assert_eq!(lex_atom(text, &chars, 4), ("2".to_string(), 5));
}

#[test]
fn lex_atom_cuts_by_characters_not_bytes() {
    let text = "éHeé";
    let chars = chars_of(text);
    assert_eq!(lex_atom(text, &chars, 1), ("He".to_string(), 3));
}

#[test]
fn lex_index_reads_base_ten() {
    let chars = chars_of("H120O07");
    assert_eq!(lex_index(&chars, 1), Ok((120, 4)));
    assert_eq!(lex_index(&chars, 2), Ok((20, 4)));
    assert_eq!(lex_index(&chars, 5), Ok((7, 7)));
}

#[test]
fn lex_index_overflows_past_usize() {
    let text = format!("{}9", usize::MAX);
    let chars = chars_of(&text);
    assert_eq!(lex_index(&chars, 0), Err(ErrorKind::Overflow));
    let shorter: usize = text[2..].parse().unwrap();
    assert_eq!(lex_index(&chars, 2), Ok((shorter, chars.len())));
}

#[test]
fn clone_of_a_token_is_equal() {
    assert_eq!(atom("Mg").clone(), atom("Mg"));
    assert_eq!(Token::Index(3).clone(), Token::Index(3));
    assert_eq!(Token::Bracket('[').clone(), Token::Bracket('['));
}
