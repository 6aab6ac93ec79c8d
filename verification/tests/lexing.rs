//! The lexer's token stream, and the per-procedure compiler.

use stacklang::common::Error;
use stacklang::compile::compile_ir;
use stacklang::ir::{IR, IRKind};
use stacklang::lexer::Lexer;
use stacklang::token::{Token, TokenData, TokenKind};
use stacklang::tokenizer::Tokenizer;

fn tokens_of(source: &str) -> Vec<Token> {
    let mut lexer = Lexer::new("test".to_string(), source);
    let mut tokens = Vec::new();
    loop {
        let t = lexer.next_token().expect("the source should lex");
        if t.kind == TokenKind::EndOfFile {
            return tokens;
        }
        tokens.push(t);
    }
}

fn procedures_of(source: &str) -> Result<Vec<Vec<IR>>, Error> {
    let mut lexer = Lexer::new("test".to_string(), source);
    let mut procedures = Vec::new();
    compile_ir(&mut lexer, &mut procedures)?;
    Ok(procedures)
}

#[test]
fn keywords_operators_and_names() {
    let kinds: Vec<TokenKind> = tokens_of(
        "print if else while proc call dup drop swap memory ( ) { } ! -> + - * / < > <= >= = != spoon 42",
    )
    .into_iter()
    .map(|t| t.kind)
    .collect();
    assert_eq!(
        kinds,
        vec![
            TokenKind::Print,
            TokenKind::If,
            TokenKind::Else,
            TokenKind::While,
            TokenKind::Proc,
            TokenKind::Call,
            TokenKind::Dup,
            TokenKind::Drop,
            TokenKind::Swap,
            TokenKind::Memory,
            TokenKind::OpenParenthesis,
            TokenKind::CloseParenthesis,
            TokenKind::OpenBrace,
            TokenKind::CloseBrace,
            TokenKind::Not,
            TokenKind::RightArrow,
            TokenKind::Plus,
            TokenKind::Minus,
            TokenKind::Asterisk,
            TokenKind::Slash,
            TokenKind::LessThan,
            TokenKind::GreaterThan,
            TokenKind::LessThanEqual,
            TokenKind::GreaterThanEqual,
            TokenKind::Equal,
            TokenKind::NotEqual,
            TokenKind::Name,
            TokenKind::Integer,
        ]
    );
}

#[test]
fn integer_payloads_follow_their_base() {
    let tokens = tokens_of("0x10 0b11 0o10 0d7 12 1_2");
    let values: Vec<isize> = tokens.iter().map(|t| t.data.get_integer()).collect();
    assert_eq!(values, vec![16, 3, 8, 7, 12, 12]);
}

#[test]
fn name_tokens_carry_their_text() {
    let tokens = tokens_of("alpha _beta g4mma");
    let names: Vec<String> = tokens.iter().map(|t| t.data.get_string()).collect();
    assert_eq!(names, vec!["alpha", "_beta", "g4mma"]);
}

#[test]
fn spans_reconstruct_the_source_without_whitespace() {
    let source = "1 2 +\n  print  \t proc0b11";
    let mut without_space = String::new();
    for c in source.chars() {
        if !matches!(c, ' ' | '\t' | '\n' | '\r') {
            without_space.push(c);
        }
    }
    let chars: Vec<char> = source.chars().collect();
    let mut rebuilt = String::new();
    for t in tokens_of(source) {
        let start = t.location.position;
        for k in start..start + t.length {
            rebuilt.push(chars[k]);
        }
    }
    assert_eq!(rebuilt, without_space);
}

#[test]
fn lines_and_columns_start_at_one_and_follow_newlines() {
    let tokens = tokens_of("1 2\n 34");
    assert_eq!(
        (tokens[0].location.line, tokens[0].location.column),
        (1, 1)
    );
    assert_eq!(
        (tokens[1].location.line, tokens[1].location.column),
        (1, 3)
    );
    assert_eq!(
        (tokens[2].location.line, tokens[2].location.column),
        (2, 2)
    );
    assert_eq!(tokens[2].location.position, 5);
    assert_eq!(tokens[2].length, 2);
}

#[test]
fn end_of_file_repeats() {
    let mut lexer = Lexer::new("test".to_string(), "1");
    assert_eq!(lexer.next_token().unwrap().kind, TokenKind::Integer);
    assert_eq!(lexer.next_token().unwrap().kind, TokenKind::EndOfFile);
    assert_eq!(lexer.next_token().unwrap().kind, TokenKind::EndOfFile);
}

#[test]
fn peek_does_not_consume() {
    let mut lexer = Lexer::new("test".to_string(), "1 2");
    assert_eq!(lexer.peek_kind().unwrap(), TokenKind::Integer);
    let first = lexer.next_token().unwrap();
    assert_eq!(first.data.get_integer(), 1);
    let second = lexer.peek_token().unwrap();
    assert_eq!(second.data.get_integer(), 2);
    assert_eq!(lexer.next_token().unwrap().data.get_integer(), 2);
}

#[test]
fn unknown_character_fails_to_lex() {
    let mut lexer = Lexer::new("test".to_string(), "  #");
    assert!(lexer.next_token().is_err());
}

#[test]
fn digit_out_of_base_fails_to_lex() {
    let mut lexer = Lexer::new("test".to_string(), "0o9");
    assert!(lexer.next_token().is_err());
}

#[test]
fn ir_for_a_straight_line_program() {
    let procedures = procedures_of("1 2 + print").unwrap();
    assert_eq!(procedures.len(), 1);
    let kinds: Vec<&IRKind> = procedures[0].iter().map(|ir| &ir.kind).collect();
    assert_eq!(kinds.len(), 5);
    assert_eq!(*kinds[0], IRKind::PushInt { value: 1 });
    assert_eq!(*kinds[1], IRKind::PushInt { value: 2 });
    assert_eq!(*kinds[2], IRKind::Add);
    assert_eq!(*kinds[3], IRKind::Print);
    assert_eq!(*kinds[4], IRKind::Exit);
}

#[test]
fn ir_splits_procedures_out() {
    let procedures = procedures_of("proc f(){ 1 print } f call").unwrap();
    assert_eq!(procedures.len(), 2);
    assert_eq!(procedures[0][0].kind, IRKind::PushProc { id: 1 });
    assert_eq!(procedures[0][1].kind, IRKind::Call);
    assert_eq!(procedures[0][2].kind, IRKind::Exit);
    assert_eq!(procedures[1][0].kind, IRKind::PushInt { value: 1 });
    assert_eq!(procedures[1][1].kind, IRKind::Print);
    assert_eq!(procedures[1][2].kind, IRKind::Return);
}

#[test]
fn ir_if_else_patches_relative_jumps() {
    let procedures = procedures_of("1 1 = if { 1 print } else { 2 print }").unwrap();
    let kinds: Vec<&IRKind> = procedures[0].iter().map(|ir| &ir.kind).collect();
    assert_eq!(*kinds[3], IRKind::JumpFalse { relative_position: 4 });
    assert_eq!(*kinds[6], IRKind::Jump { relative_position: 3 });
    assert_eq!(*kinds[9], IRKind::Exit);
}

#[test]
fn ir_while_jumps_back_to_its_condition() {
    let procedures = procedures_of("0 while dup 3 < { drop }").unwrap();
    let kinds: Vec<&IRKind> = procedures[0].iter().map(|ir| &ir.kind).collect();
    assert_eq!(*kinds[4], IRKind::JumpFalse { relative_position: 3 });
    assert_eq!(*kinds[6], IRKind::Jump { relative_position: -5 });
    assert_eq!(*kinds[7], IRKind::Exit);
}

#[test]
fn ir_jump_targets_stay_inside_their_procedure() {
    let procedures =
        procedures_of("proc f(){ 0 while dup 2 < { 1 + } drop } 1 1 = if { f call } else { }")
            .unwrap();
    for procedure in &procedures {
        for (i, ir) in procedure.iter().enumerate() {
            match ir.kind {
                IRKind::Jump { relative_position } | IRKind::JumpFalse { relative_position } => {
                    let target = i as isize + relative_position;
                    assert!(0 <= target && target <= procedure.len() as isize);
                }
                IRKind::PushProc { id } => assert!(id < procedures.len()),
                _ => {}
            }
        }
    }
}

#[test]
fn ir_unresolved_name_is_an_error() {
    assert!(procedures_of("mystery").is_err());
}

#[test]
fn ir_memory_is_not_supported() {
    assert!(procedures_of("memory").is_err());
}

#[test]
fn ir_empty_program_is_a_lone_exit() {
    let procedures = procedures_of("").unwrap();
    assert_eq!(procedures.len(), 1);
    assert_eq!(procedures[0].len(), 1);
    assert_eq!(procedures[0][0].kind, IRKind::Exit);
}

#[test]
fn ir_every_procedure_ends_in_return() {
    let procedures = procedures_of("proc f(){ proc g(){ 1 print } g call } f call").unwrap();
    assert_eq!(procedures.len(), 3);
    for p in procedures.iter().skip(1) {
        assert_eq!(p.last().unwrap().kind, IRKind::Return);
    }
}
