use punc_tokenizer::tokenizers::is_ascii_ws;
use punc_tokenizer::Token;
use punc_tokenizer::WhitespacePuncTokenizer;

fn assert_token(token: &Token, position: usize, text: &str, from: usize, to: usize) {
    assert_eq!(token.position, position, "expected position {} but {:?}", position, token);
    assert_eq!(token.text, text, "expected text {} but {:?}", text, token);
    assert_eq!(token.offset_from, from, "expected offset_from {} but {:?}", from, token);
    assert_eq!(token.offset_to, to, "expected offset_to {} but {:?}", to, token);
}

fn collect(text: &str) -> Vec<Token> {
    let tokenizer = WhitespacePuncTokenizer;
    let mut stream = tokenizer.token_stream(text);
    let mut tokens: Vec<Token> = Vec::new();
    while stream.advance() {
        tokens.push(stream.token().clone());
    }
    tokens
}

#[test]
fn it_works() {
    let result = 2 + 2;
    assert_eq!(result, 4);
}

#[test]
fn test_whitespace_tokenizer() {
    let tokenizer = WhitespacePuncTokenizer {};
    let mut tokens: Vec<Token> = vec![];
    tokenizer.token_stream("Hello, happy tax payer!").process(&mut tokens);
    println!("{:?}", &tokens);
    assert_eq!(tokens.len(), 4);
    assert_token(&tokens[0], 0, "Hello,", 0, 6);
    assert_token(&tokens[1], 1, "happy", 7, 12);
    assert_token(&tokens[2], 2, "tax", 13, 16);
    assert_token(&tokens[3], 3, "payer!", 17, 23);
}

#[test]
fn empty_text_has_no_token() {
    let tokenizer = WhitespacePuncTokenizer;
    let mut stream = tokenizer.token_stream("");
    assert!(!stream.advance());
    assert!(collect("").is_empty());
}

#[test]
fn blank_text_has_no_token() {
    assert!(collect(" \t\n\r\x0b\x0c  ").is_empty());
}

#[test]
fn lone_punctuation_is_its_own_token() {
    let tokens = collect("wait , what !");
    assert_eq!(tokens.len(), 4);
    assert_token(&tokens[0], 0, "wait", 0, 4);
    assert_token(&tokens[1], 1, ",", 5, 6);
    assert_token(&tokens[2], 2, "what", 7, 11);
    assert_token(&tokens[3], 3, "!", 12, 13);
}

#[test]
fn leading_and_repeated_whitespace_is_skipped() {
    let tokens = collect("\n\t  a \r\n bc\x0c\x0bd   ");
    assert_eq!(tokens.len(), 3);
    assert_token(&tokens[0], 0, "a", 4, 5);
    assert_token(&tokens[1], 1, "bc", 9, 11);
    assert_token(&tokens[2], 2, "d", 13, 14);
}

#[test]
fn offsets_are_bytes_of_multibyte_text() {
    let text = "héllo  wörld ünï";
    let tokens = collect(text);
    assert_eq!(tokens.len(), 3);
    assert_token(&tokens[0], 0, "héllo", 0, 6);
    assert_token(&tokens[1], 1, "wörld", 8, 14);
    assert_token(&tokens[2], 2, "ünï", 15, 20);
    for t in &tokens {
        assert_eq!(&text[t.offset_from..t.offset_to], t.text);
        assert!(t.offset_from < t.offset_to);
    }
}

#[test]
fn unicode_space_is_not_a_separator() {
    let tokens = collect("a\u{00a0}b c");
    assert_eq!(tokens.len(), 2);
    assert_token(&tokens[0], 0, "a\u{00a0}b", 0, 4);
    assert_token(&tokens[1], 1, "c", 5, 6);
}

#[test]
fn token_count_equals_run_count() {
    let text = "  one two\tthree\n\nfour ";
    assert_eq!(collect(text).len(), 4);
    assert_eq!(collect("x").len(), 1);
    assert_eq!(collect("x y").len(), 2);
}

#[test]
fn positions_count_from_zero() {
    let tokens = collect("   a b c d e");
    for (i, t) in tokens.iter().enumerate() {
        assert_eq!(t.position, i);
    }
    assert_eq!(tokens.len(), 5);
}

#[test]
fn rescanning_gives_the_same_tokens() {
    let text = "to be, or not to be: that is the question";
    let first = collect(text);
    let second = collect(text);
    assert_eq!(first.len(), second.len());
    assert_eq!(first.len(), 10);
    for (a, b) in first.iter().zip(second.iter()) {
        assert_eq!(a.text, b.text);
        assert_eq!(a.offset_from, b.offset_from);
        assert_eq!(a.offset_to, b.offset_to);
        assert_eq!(a.position, b.position);
    }
}

#[test]
fn exhausted_stream_stays_exhausted() {
    let tokenizer = WhitespacePuncTokenizer;
    let mut stream = tokenizer.token_stream("only ");
    assert!(stream.advance());
    assert_token(stream.token(), 0, "only", 0, 4);
    assert!(!stream.advance());
    assert_eq!(stream.token().text, "");
    assert!(!stream.advance());
    assert!(!stream.advance());
}

#[test]
fn position_goes_on_at_every_call() {
    let tokenizer = WhitespacePuncTokenizer;
    let mut stream = tokenizer.token_stream("a");
    assert_eq!(stream.token().position, usize::MAX);
    assert!(stream.advance());
    assert_eq!(stream.token().position, 0);
    assert!(!stream.advance());
    assert_eq!(stream.token().position, 1);
}

#[test]
fn process_appends_after_existing_tokens() {
    let tokenizer = WhitespacePuncTokenizer;
    let mut sink: Vec<Token> = collect("first");
    tokenizer.token_stream("x yz").process(&mut sink);
    assert_eq!(sink.len(), 3);
    assert_token(&sink[0], 0, "first", 0, 5);
    assert_token(&sink[1], 0, "x", 0, 1);
    assert_token(&sink[2], 1, "yz", 2, 4);
}

#[test]
fn default_token_is_before_the_first_position() {
    let t = Token::default();
    assert_eq!(t.position, usize::MAX);
    assert_eq!(t.offset_from, 0);
    assert_eq!(t.offset_to, 0);
    assert_eq!(t.text, "");
    assert_eq!(t.position_length, 1);
}

#[test]
fn ascii_whitespace_predicate() {
    for b in [b' ', b'\t', b'\n', b'\r', 0x0bu8, 0x0cu8] {
        assert!(is_ascii_ws(b));
    }
    for b in [b'a', b',', b'!', 0x00u8, 0xa0u8, 0x85u8] {
        assert!(!is_ascii_ws(b));
    }
}
