use corn_sprite::sprig::ast::{BinOp, Expr, Function, Param, Program, Stmt, Type, UnaryOp};
use corn_sprite::sprig::lexer::{Lexer, Token, TokenKind};

fn kinds(src: &str) -> Vec<TokenKind> {
    Lexer::new(src).tokenize().into_iter().map(|t| t.kind).collect()
}

fn ident(s: &str) -> TokenKind {
    TokenKind::Identifier(s.to_string())
}

#[test]
fn token_new_keeps_fields() {
    let t = Token::new(TokenKind::Plus, 3, 7);
    assert_eq!(t.kind, TokenKind::Plus);
    assert_eq!(t.line, 3);
    assert_eq!(t.col, 7);
}

#[test]
fn empty_input_gives_only_eof() {
    let toks = Lexer::new("").tokenize();
    assert_eq!(toks.len(), 1);
    assert_eq!(toks[0].kind, TokenKind::Eof);
    assert_eq!((toks[0].line, toks[0].col), (1, 1));
}

#[test]
fn keywords_and_identifiers() {
    assert_eq!(
        kinds("fn let if else while return true false int bool"),
        vec![
            TokenKind::Fn,
            TokenKind::Let,
            TokenKind::If,
            TokenKind::Else,
            TokenKind::While,
            TokenKind::Return,
            TokenKind::True,
            TokenKind::False,
            TokenKind::Int,
            TokenKind::Bool,
            TokenKind::Eof
        ]
    );
    assert_eq!(
        kinds("fnx _tmp x1 Let"),
        vec![ident("fnx"), ident("_tmp"), ident("x1"), ident("Let"), TokenKind::Eof]
    );
}

#[test]
fn operators_and_delimiters() {
    assert_eq!(
        kinds("+ - * / % == != < <= > >= && || ! = ( ) { } , : -> ;"),
        vec![
            TokenKind::Plus,
            TokenKind::Minus,
            TokenKind::Star,
            TokenKind::Slash,
            TokenKind::Percent,
            TokenKind::Eq,
            TokenKind::Ne,
            TokenKind::Lt,
            TokenKind::Le,
            TokenKind::Gt,
            TokenKind::Ge,
            TokenKind::And,
            TokenKind::Or,
            TokenKind::Not,
            TokenKind::Assign,
            TokenKind::LParen,
            TokenKind::RParen,
            TokenKind::LBrace,
            TokenKind::RBrace,
            TokenKind::Comma,
            TokenKind::Colon,
            TokenKind::Arrow,
            TokenKind::Semicolon,
            TokenKind::Eof
        ]
    );
    assert_eq!(
        kinds("a->b-c=>d<=e"),
        vec![
            ident("a"),
            TokenKind::Arrow,
            ident("b"),
            TokenKind::Minus,
            ident("c"),
            TokenKind::Assign,
            TokenKind::Gt,
            ident("d"),
            TokenKind::Le,
            ident("e"),
            TokenKind::Eof
        ]
    );
}

#[test]
fn number_token_has_its_first_digit() {
    // the number token swallows every digit but carries the value of the first
    assert_eq!(kinds("7"), vec![TokenKind::Integer(7), TokenKind::Eof]);
    assert_eq!(kinds("123+4"), vec![TokenKind::Integer(1), TokenKind::Plus, TokenKind::Integer(4), TokenKind::Eof]);
    assert_eq!(kinds("09x"), vec![TokenKind::Integer(0), ident("x"), TokenKind::Eof]);
}

#[test]
fn comments_and_whitespace_are_skipped() {
    assert_eq!(
        kinds("a // comment + - \n\t b / c // end"),
        vec![ident("a"), ident("b"), TokenKind::Slash, ident("c"), TokenKind::Eof]
    );
}

#[test]
fn token_positions() {
    let toks = Lexer::new("let x = 5;\n  return x;").tokenize();
    let pos: Vec<(u32, u32)> = toks.iter().map(|t| (t.line, t.col)).collect();
    assert_eq!(pos, vec![(1, 1), (1, 5), (1, 7), (1, 9), (1, 10), (2, 3), (2, 10), (2, 11), (2, 12)]);
    // exactly one end-of-file token, at the end
    assert_eq!(toks.iter().filter(|t| t.kind == TokenKind::Eof).count(), 1);
    assert_eq!(toks.last().unwrap().kind, TokenKind::Eof);
}

#[test]
fn next_token_repeats_eof() {
    let mut lx = Lexer::new(" x ");
    assert_eq!(lx.next_token().kind, ident("x"));
    let e1 = lx.next_token();
    let e2 = lx.next_token();
    assert_eq!(e1.kind, TokenKind::Eof);
    assert_eq!(e2.kind, TokenKind::Eof);
    assert_eq!((e1.line, e1.col), (e2.line, e2.col));
    assert_eq!((e1.line, e1.col), (1, 4));
}

#[test]
fn unicode_letters_and_spaces() {
    assert_eq!(kinds("αβ\u{00A0}ü_1"), vec![ident("αβ"), ident("ü_1"), TokenKind::Eof]);
}

#[test]
fn try_tokenize_accepts_what_tokenize_reads() {
    let toks = Lexer::new("fn f(a: int) -> bool { return a >= 1 || !true; }").try_tokenize().unwrap();
    let expected = Lexer::new("fn f(a: int) -> bool { return a >= 1 || !true; }").tokenize();
    assert_eq!(toks.len(), expected.len());
    for (a, b) in toks.iter().zip(expected.iter()) {
        assert_eq!(a.kind, b.kind);
        assert_eq!((a.line, a.col), (b.line, b.col));
    }
}

#[test]
fn try_tokenize_rejects_lone_ampersand_and_bar() {
    assert!(Lexer::new("a & b").try_tokenize().is_none());
    assert!(Lexer::new("a | b").try_tokenize().is_none());
    assert!(Lexer::new("a $ b").try_tokenize().is_none());
    assert!(Lexer::new("x &").try_tokenize().is_none());
    assert!(Lexer::new("x && y").try_tokenize().is_some());
}

#[test]
fn try_next_token_stops_before_bad_character() {
    let mut lx = Lexer::new("a  # b");
    assert_eq!(lx.try_next_token().unwrap().kind, ident("a"));
    assert!(lx.try_next_token().is_none());
    assert!(lx.try_next_token().is_none());
}

#[test]
fn ast_values_can_be_built() {
    let e = Expr::BinOp {
        op: BinOp::Add,
        left: Box::new(Expr::IntLit(1)),
        right: Box::new(Expr::UnaryOp { op: UnaryOp::Neg, expr: Box::new(Expr::Var("x".to_string())) }),
    };
    let f = Function {
        name: "main".to_string(),
        params: vec![Param { name: "x".to_string(), ty: Type::Int }],
        return_ty: Type::Void,
        body: vec![
            Stmt::Let { name: "y".to_string(), ty: Type::Bool, init: Some(Expr::BoolLit(true)) },
            Stmt::Expr(Expr::Call { name: "print".to_string(), args: vec![e] }),
            Stmt::Return(None),
        ],
    };
    let p = Program { functions: vec![f] };
    assert_eq!(p.functions.len(), 1);
    assert_eq!(p.functions[0].params[0].ty, Type::Int);
    assert_ne!(BinOp::Lt, BinOp::Le);
}

#[test]
fn every_white_space_character_is_skipped() {
    let spaces = [
        '\u{9}', '\u{a}', '\u{b}', '\u{c}', '\u{d}', ' ', '\u{85}', '\u{a0}', '\u{1680}', '\u{2000}',
        '\u{2005}', '\u{200a}', '\u{2028}', '\u{2029}', '\u{202f}', '\u{205f}', '\u{3000}',
    ];
    for c in spaces {
        assert!(c.is_whitespace());
        let src = format!("a{}b", c);
        assert_eq!(kinds(&src), vec![ident("a"), ident("b"), TokenKind::Eof]);
    }
    // a zero-width space is not whitespace, and starts no token
    assert!(Lexer::new("a\u{200b}b").try_tokenize().is_none());
}

#[test]
fn classes_given_by_the_caller_decide_words() {
    // "let x": every character but the space is a letter
    let src = "let x";
    let alpha = vec![true, true, true, false, true];
    let mut lx = Lexer::from_classified(src, alpha.clone(), alpha);
    let t1 = lx.next_token();
    assert_eq!((t1.kind, t1.line, t1.col), (TokenKind::Let, 1, 1));
    let t2 = lx.next_token();
    assert_eq!((t2.kind, t2.line, t2.col), (ident("x"), 1, 5));
    assert_eq!(lx.next_token().kind, TokenKind::Eof);
    // with '#' classed as a letter, it reads as an identifier character
    let mut lx = Lexer::from_classified("a#b", vec![true, true, true], vec![true, true, true]);
    assert_eq!(lx.next_token().kind, ident("a#b"));
    // with 'b' not classed as a letter, it starts no token
    let mut lx = Lexer::from_classified("a b", vec![true, false, false], vec![true, false, false]);
    assert_eq!(lx.try_next_token().unwrap().kind, ident("a"));
    assert!(lx.try_next_token().is_none());
}

#[test]
fn tokenize_equals_repeated_next_token() {
    let src = "fn main() -> int {\n  // sum\n  let s = 1 + 23;\n  return s;\n}\n";
    let all = Lexer::new(src).tokenize();
    let mut lx = Lexer::new(src);
    let mut one_by_one = Vec::new();
    loop {
        let t = lx.next_token();
        let eof = t.kind == TokenKind::Eof;
        one_by_one.push(t);
        if eof {
            break;
        }
    }
    assert_eq!(all.len(), one_by_one.len());
    for (a, b) in all.iter().zip(one_by_one.iter()) {
        assert_eq!((&a.kind, a.line, a.col), (&b.kind, b.line, b.col));
    }
    // afterwards the lexer keeps giving the end-of-file token from the same place
    let last = one_by_one.last().unwrap();
    let again = lx.next_token();
    assert_eq!((again.kind, again.line, again.col), (TokenKind::Eof, last.line, last.col));
}
