use bfc::parser::{parse, ASTNode, ParseError};
use bfc::tokenizer::Tokenizer;

fn body(children: Vec<ASTNode>) -> ASTNode {
    ASTNode::Body(Box::new(children))
}

fn looped(children: Vec<ASTNode>) -> ASTNode {
    ASTNode::Loop(Box::new(body(children)))
}

#[test]
fn tokenizer_test() {
    let program = "++-[ butts\n>\n <,.]asdfe";
    let mut tokenizer = Tokenizer::new(program);

    assert_eq!(tokenizer.token, Some('+'));
    tokenizer.consume();
    assert_eq!(tokenizer.token, Some('+'));
    tokenizer.consume();
    assert_eq!(tokenizer.token, Some('-'));
    tokenizer.consume();
    assert_eq!(tokenizer.token, Some('['));
    tokenizer.consume();
    assert_eq!(tokenizer.token, Some('>'));
    tokenizer.consume();
    assert_eq!(tokenizer.token, Some('<'));
    tokenizer.consume();
    assert_eq!(tokenizer.token, Some(','));
    tokenizer.consume();
    assert_eq!(tokenizer.token, Some('.'));
    tokenizer.consume();
    assert_eq!(tokenizer.token, Some(']'));
    tokenizer.consume();
    assert_eq!(tokenizer.token, None);
}

#[test]
#[should_panic]
fn no_empty_programs() {
    let program = "";
    parse(program).unwrap();
}

#[test]
fn parse_no_loops() {
    let program = "+-><,.";
    let ast = ASTNode::Body(Box::new(vec![
        ASTNode::ADD(0),
        ASTNode::DP(0),
        ASTNode::GETC,
        ASTNode::PUTC,
    ]));
    assert_eq!(ast, parse(program).unwrap());
}

#[test]
fn parse_loops() {
    let program = "+[>---]+";
    let ast = ASTNode::Body(Box::new(vec![
        ASTNode::ADD(1),
        ASTNode::Loop(Box::new(ASTNode::Body(Box::new(vec![
            ASTNode::DP(1),
            ASTNode::ADD(-3),
        ])))),
        ASTNode::ADD(1),
    ]));
    assert_eq!(ast, parse(program).unwrap());
}

#[test]
fn tokenizer_stays_at_the_end() {
    let mut tokenizer = Tokenizer::new("a.b");
    assert_eq!(tokenizer.token, Some('.'));
    tokenizer.consume();
    assert_eq!(tokenizer.token, None);
    tokenizer.consume();
    assert_eq!(tokenizer.token, None);
}

#[test]
fn tokenizer_on_text_without_instructions() {
    let tokenizer = Tokenizer::new("no instructions here");
    assert_eq!(tokenizer.token, None);
    let tokenizer = Tokenizer::new("");
    assert_eq!(tokenizer.token, None);
}

#[test]
fn tokenizer_passes_over_characters_of_several_bytes() {
    // None of the bytes of these characters may be taken for an instruction,
    // and the instructions between them must be found.
    let mut tokenizer = Tokenizer::new("é+ü\u{2b50}-\u{1f600}[\u{ff0b}]");
    assert_eq!(tokenizer.token, Some('+'));
    tokenizer.consume();
    assert_eq!(tokenizer.token, Some('-'));
    tokenizer.consume();
    assert_eq!(tokenizer.token, Some('['));
    tokenizer.consume();
    assert_eq!(tokenizer.token, Some(']'));
    tokenizer.consume();
    assert_eq!(tokenizer.token, None);
}

#[test]
fn tokenizer_yields_each_of_the_eight_instructions() {
    let mut tokenizer = Tokenizer::new("+-<>[],.");
    for expected in ['+', '-', '<', '>', '[', ']', ',', '.'] {
        assert_eq!(tokenizer.token, Some(expected));
        tokenizer.consume();
    }
    assert_eq!(tokenizer.token, None);
}

#[test]
fn empty_text_is_refused() {
    assert_eq!(parse(""), Err(ParseError::EmptyProgram));
}

#[test]
fn comment_only_text_is_the_empty_sequence() {
    assert_eq!(parse(" "), Ok(body(vec![])));
    assert_eq!(parse("hello, world".replace(',', ";").as_str()), Ok(body(vec![])));
    assert_eq!(parse("\n\t# a comment\n"), Ok(body(vec![])));
}

#[test]
fn unmatched_open_is_refused() {
    assert_eq!(parse("["), Err(ParseError::UnmatchedOpen));
    assert_eq!(parse("+[>"), Err(ParseError::UnmatchedOpen));
    assert_eq!(parse("[[]"), Err(ParseError::UnmatchedOpen));
    assert_eq!(parse("[+[-]"), Err(ParseError::UnmatchedOpen));
}

#[test]
fn unmatched_close_is_refused() {
    assert_eq!(parse("]"), Err(ParseError::UnmatchedClose));
    assert_eq!(parse("+]"), Err(ParseError::UnmatchedClose));
    assert_eq!(parse("[]]"), Err(ParseError::UnmatchedClose));
    assert_eq!(parse("[+]-]["), Err(ParseError::UnmatchedClose));
}

#[test]
fn first_error_wins() {
    // The `]` comes first; the open loop after it is never reached.
    assert_eq!(parse("][") , Err(ParseError::UnmatchedClose));
}

#[test]
fn comments_do_not_change_the_tree() {
    let plain = parse("+[>---]+").unwrap();
    assert_eq!(parse(" +[>---]+"), Ok(parse("+[>---]+").unwrap()));
    assert_eq!(parse("+ [ > - a - b - ] c +\n").unwrap(), plain);
    assert_eq!(parse("+[>-é-\u{1f600}-]+").unwrap(), plain);
    assert_eq!(parse("add one +, then loop [ right > and down --- ] +".replace(',', "").as_str()).unwrap(), plain);
    assert_eq!(parse("x]"), parse("]"));
    assert_eq!(parse("[x"), parse("["));
}

#[test]
fn a_comment_splits_no_run() {
    assert_eq!(parse("++ comment ++"), Ok(body(vec![ASTNode::ADD(4)])));
    assert_eq!(parse("> x < y >"), Ok(body(vec![ASTNode::DP(1)])));
}

#[test]
fn runs_fold_to_their_net_count() {
    assert_eq!(parse("+++"), Ok(body(vec![ASTNode::ADD(3)])));
    assert_eq!(parse("---"), Ok(body(vec![ASTNode::ADD(-3)])));
    assert_eq!(parse("+-+-+"), Ok(body(vec![ASTNode::ADD(1)])));
    assert_eq!(parse("-++++-"), Ok(body(vec![ASTNode::ADD(2)])));
    assert_eq!(parse(">>>"), Ok(body(vec![ASTNode::DP(3)])));
    assert_eq!(parse("<<<<"), Ok(body(vec![ASTNode::DP(-4)])));
    assert_eq!(parse("<>><"), Ok(body(vec![ASTNode::DP(0)])));
    assert_eq!(
        parse("++>>--<<"),
        Ok(body(vec![ASTNode::ADD(2), ASTNode::DP(2), ASTNode::ADD(-2), ASTNode::DP(-2)]))
    );
}

#[test]
fn add_runs_wrap_to_eight_bits() {
    assert_eq!(parse("+".repeat(127).as_str()), Ok(body(vec![ASTNode::ADD(127)])));
    assert_eq!(parse("+".repeat(128).as_str()), Ok(body(vec![ASTNode::ADD(-128)])));
    assert_eq!(parse("+".repeat(129).as_str()), Ok(body(vec![ASTNode::ADD(-127)])));
    assert_eq!(parse("+".repeat(255).as_str()), Ok(body(vec![ASTNode::ADD(-1)])));
    assert_eq!(parse("+".repeat(256).as_str()), Ok(body(vec![ASTNode::ADD(0)])));
    assert_eq!(parse("+".repeat(300).as_str()), Ok(body(vec![ASTNode::ADD(44)])));
    assert_eq!(parse("-".repeat(128).as_str()), Ok(body(vec![ASTNode::ADD(-128)])));
    assert_eq!(parse("-".repeat(129).as_str()), Ok(body(vec![ASTNode::ADD(127)])));
    assert_eq!(parse("-".repeat(256).as_str()), Ok(body(vec![ASTNode::ADD(0)])));
}

#[test]
fn pointer_runs_do_not_wrap_to_eight_bits() {
    assert_eq!(parse(">".repeat(300).as_str()), Ok(body(vec![ASTNode::DP(300)])));
    assert_eq!(parse("<".repeat(70000).as_str()), Ok(body(vec![ASTNode::DP(-70000)])));
}

#[test]
fn input_and_output_do_not_fold() {
    assert_eq!(
        parse(",,.."),
        Ok(body(vec![ASTNode::GETC, ASTNode::GETC, ASTNode::PUTC, ASTNode::PUTC]))
    );
}

#[test]
fn loops_nest() {
    assert_eq!(parse("[]"), Ok(body(vec![looped(vec![])])));
    assert_eq!(
        parse("[[][.]]"),
        Ok(body(vec![looped(vec![looped(vec![]), looped(vec![ASTNode::PUTC])])]))
    );
    assert_eq!(
        parse("+[-[>+<-]]"),
        Ok(body(vec![
            ASTNode::ADD(1),
            looped(vec![
                ASTNode::ADD(-1),
                looped(vec![ASTNode::DP(1), ASTNode::ADD(1), ASTNode::DP(-1), ASTNode::ADD(-1)]),
            ]),
        ]))
    );
}

#[test]
fn runs_end_at_a_bracket() {
    assert_eq!(
        parse("++[++]++"),
        Ok(body(vec![ASTNode::ADD(2), looped(vec![ASTNode::ADD(2)]), ASTNode::ADD(2)]))
    );
}

#[test]
fn parsing_is_a_function_of_the_text() {
    let text = "++[>+<-],.[[-]>]";
    assert_eq!(parse(text), parse(text));
}

#[test]
fn each_error_has_its_message() {
    assert_eq!(ParseError::EmptyProgram.message(), "can't parse an empty program");
    assert_eq!(ParseError::UnmatchedClose.message(), "Unmatched ]");
    assert_eq!(ParseError::UnmatchedOpen.message(), "Unmatched [");
    assert_eq!(parse("[").unwrap_err().message(), "Unmatched [");
}
