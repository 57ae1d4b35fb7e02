use rlox::chunks::Chunk;
use rlox::compiler::{Compiler, Precedence};
use rlox::error::{repeat_string, Level, Reporter};
use rlox::opcode;
use rlox::pos::{Position, Span, Spanned};
use rlox::scanner::{is_letter_ch, look_up_identifier, serialize, Lexer, LexerError};
use rlox::token::{Token, TokenType};
use rlox::value::{number_eq, number_lt, number_neg, Value};
use rlox::vm::{decimal, BinaryOp, ErrorKind, Halt, VM};

fn number_values(tokens: &[Spanned<Token>]) -> Vec<u32> {
    tokens
        .iter()
        .map(|t| match &t.value.ty {
            TokenType::Number(text) => text.parse::<f32>().unwrap().to_bits(),
            _ => 0,
        })
        .collect()
}

fn lex(src: &str) -> (Result<Vec<Spanned<Token>>, ()>, Reporter) {
    let mut lexer = Lexer::new(src, Reporter::new());
    let r = lexer.lex();
    (r, lexer.into_reporter())
}

fn compile(src: &str) -> Compiler {
    let (tokens, reporter) = lex(src);
    let tokens = tokens.expect("lexing failed");
    let numbers = number_values(&tokens);
    let mut compiler = Compiler::new(reporter, tokens, numbers);
    let _ = compiler.compile();
    compiler
}

fn arithmetic(op: BinaryOp, a: u32, b: u32) -> u32 {
    let (a, b) = (f32::from_bits(a), f32::from_bits(b));
    let r = match op {
        BinaryOp::Add => a + b,
        BinaryOp::Sub => a - b,
        BinaryOp::Mul => a * b,
        BinaryOp::Div => a / b,
    };
    r.to_bits()
}

fn show(v: &Value) -> String {
    match v {
        Value::Bool(b) => format!("{}", b),
        Value::Nil => "nil".to_string(),
        Value::Number(n) => format!("{}", f32::from_bits(*n)),
        Value::Object(o) => o.string().clone(),
    }
}

/// Runs a chunk to its end, doing the arithmetic the machine asks for, and
/// counts the instructions executed.
fn execute(chunk: &Chunk) -> (Result<String, String>, usize) {
    let mut vm = VM::new(chunk, None);
    let mut executed = 0;
    loop {
        let before = vm.ip;
        let halt = vm.run();
        // every instruction moves ip forward
        executed += count_instructions(chunk, before, vm.ip);
        match halt {
            Halt::Return(v) => return (Ok(show(&v)), executed),
            Halt::Arithmetic(op, a, b) => {
                assert!(vm.resume(arithmetic(op, a, b)));
            }
            Halt::Error(e) => return (Err(e.describe()), executed),
        }
    }
}

fn count_instructions(chunk: &Chunk, from: usize, to: usize) -> usize {
    let mut i = from;
    let mut n = 0;
    while i < to {
        i = chunk.disassemble_instruction(i).next;
        n += 1;
    }
    n
}

fn run(src: &str) -> Result<String, String> {
    let compiler = compile(src);
    assert!(!compiler.reporter.has_error(), "compile failed for {}", src);
    execute(&compiler.chunks[0]).0
}

fn messages(r: &Reporter) -> Vec<String> {
    r.diagnostics().iter().map(|d| d.msg.clone()).collect()
}

#[test]
fn adds_two_numbers() {
    assert_eq!(run("1 + 2"), Ok("3".to_string()));
}

#[test]
fn negates_a_group() {
    assert_eq!(run("-(1 + 2) * 3"), Ok("-9".to_string()));
}

#[test]
fn not_of_equality() {
    assert_eq!(run("!(5 == 5)"), Ok("false".to_string()));
}

#[test]
fn factor_binds_tighter_than_term() {
    assert_eq!(run("1 + 2 * 3"), Ok("7".to_string()));
}

#[test]
fn grouping_overrides_precedence() {
    assert_eq!(run("(1 + 2) * 3"), Ok("9".to_string()));
}

#[test]
fn boolean_equality() {
    assert_eq!(run("true == !false"), Ok("true".to_string()));
}

#[test]
fn comparisons_and_their_negations() {
    assert_eq!(run("1 < 2"), Ok("true".to_string()));
    assert_eq!(run("1 > 2"), Ok("false".to_string()));
    assert_eq!(run("2 <= 2"), Ok("true".to_string()));
    assert_eq!(run("1 >= 2"), Ok("false".to_string()));
    assert_eq!(run("1 != 2"), Ok("true".to_string()));
    assert_eq!(run("nil == nil"), Ok("true".to_string()));
    assert_eq!(run("\"ab\" == \"ab\""), Ok("true".to_string()));
    assert_eq!(run("\"ab\" == \"abc\""), Ok("false".to_string()));
    assert_eq!(run("1 = 1"), Ok("true".to_string()));
    assert_eq!(run("!nil"), Ok("true".to_string()));
}

#[test]
fn division_follows_ieee() {
    assert_eq!(run("1 / 0"), Ok("inf".to_string()));
    assert_eq!(run("7 / 2"), Ok("3.5".to_string()));
    assert_eq!(run("1.5 - 0.25"), Ok("1.25".to_string()));
}

#[test]
fn string_literal_is_returned() {
    assert_eq!(run("\"hello\""), Ok("hello".to_string()));
}

#[test]
fn missing_operand_is_a_compile_error() {
    let compiler = compile("1 +");
    let reporter = &compiler.reporter;
    assert_eq!(messages(reporter), vec!["Expected an expression instead found `\0`".to_string()]);
    assert_eq!(reporter.diagnostics()[0].span, reporter.end());
    assert_eq!(reporter.diagnostics()[0].level, Level::Error);
    assert!(compiler.chunks.is_empty());
}

#[test]
fn string_operand_is_a_runtime_error() {
    assert_eq!(run("1 + \"a\""), Err("[line 1] error: `+` operands must be numbers.".to_string()));
}

#[test]
fn negating_a_bool_is_a_runtime_error() {
    assert_eq!(run("-true"), Err("[line 1] error: Unary `-` operand must be a number.".to_string()));
}

#[test]
fn comparing_nil_is_a_runtime_error() {
    assert_eq!(run("nil < 1"), Err("[line 1] error: `<` operands must be numbers.".to_string()));
}

fn sum_of_ones(n: usize) -> String {
    vec!["1"; n].join("+")
}

#[test]
fn constant_pool_overflows_at_257() {
    let compiler = compile(&sum_of_ones(257));
    assert_eq!(messages(&compiler.reporter), vec!["Too many constants in one chunk".to_string()]);
    assert!(compiler.chunks.is_empty());
    assert_eq!(compiler.chunk.constants.len(), 256);
}

#[test]
fn constant_pool_holds_256() {
    let compiler = compile(&sum_of_ones(256));
    assert!(!compiler.reporter.has_error());
    assert_eq!(compiler.chunks[0].constants.len(), 256);
    assert_eq!(execute(&compiler.chunks[0]).0, Ok("256".to_string()));
}

#[test]
fn deep_nesting_overflows_the_stack() {
    let mut src = String::new();
    for _ in 0..300 {
        src.push_str("true==(");
    }
    src.push_str("true");
    for _ in 0..300 {
        src.push(')');
    }
    let compiler = compile(&src);
    assert!(!compiler.reporter.has_error());
    let mut vm = VM::new(&compiler.chunks[0], None);
    match vm.run() {
        Halt::Error(e) => assert_eq!(e.kind, ErrorKind::StackOverflow),
        _ => panic!("expected a stack overflow"),
    }
}

#[test]
fn write_keeps_code_and_lines_parallel() {
    let mut chunk = Chunk::new();
    chunk.write(opcode::NIL, 3);
    chunk.write(opcode::RETURN, 4);
    assert_eq!(chunk.code, vec![opcode::NIL, opcode::RETURN]);
    assert_eq!(chunk.lines, vec![3, 4]);
    assert_eq!(chunk.add_constant(Value::nil()), 0);
    assert_eq!(chunk.add_constant(Value::bool(true)), 1);
}

#[test]
fn compiled_constants_have_operands() {
    let compiler = compile("1 + 2 * (3 - \"x\") == 4");
    let chunk = &compiler.chunks[0];
    let listing = chunk.disassemble();
    for ins in &listing {
        if ins.op == opcode::CONSTANT {
            assert!(ins.offset + 1 < chunk.code.len());
            assert!(ins.constant.is_some());
        }
    }
    assert_eq!(listing.last().unwrap().op, opcode::RETURN);
    assert_eq!(listing.last().unwrap().next, chunk.code.len());
}

#[test]
fn bytecode_of_a_comparison() {
    let compiler = compile("1 <= 2");
    let c = &compiler.chunks[0];
    assert_eq!(
        c.code,
        vec![opcode::CONSTANT, 0, opcode::CONSTANT, 1, opcode::GREATER, opcode::NOT, opcode::RETURN]
    );
    assert_eq!(c.code.len(), c.lines.len());
    assert_eq!(compiler.disassemble()[0].len(), 5);
}

#[test]
fn string_literals_go_on_the_object_list() {
    let compiler = compile("\"a\" == \"b\"");
    let head = compiler.objects.as_ref().unwrap();
    assert_eq!(head.chars.string(), "b");
    assert_eq!(head.obj.next.as_ref().unwrap().chars.string(), "a");
    assert!(head.obj.next.as_ref().unwrap().obj.next.is_none());
    let mut vm = VM::new(&compiler.chunks[0], compiler.objects);
    vm.free_objects();
    assert!(vm.objects.is_none());
}

#[test]
fn disassembly_counts_executed_instructions() {
    let compiler = compile("-(1 + 2) * 3 < 10 == !false");
    let chunk = &compiler.chunks[0];
    let (result, executed) = execute(chunk);
    assert_eq!(result, Ok("true".to_string()));
    assert_eq!(chunk.disassemble().len(), executed);
}

#[test]
fn disassembly_marks_repeated_lines() {
    let compiler = compile("1\n+\n2");
    let listing = compiler.chunks[0].disassemble();
    assert_eq!(listing[0].line, Some(1));
    assert_eq!(listing[0].name, "OPCODE::CONSTANT");
    assert_eq!(listing[0].constant, Some(0));
    assert_eq!(listing[1].line, Some(2));
    assert_eq!(listing[2].name, "OPCODE::ADD");
}

#[test]
fn unknown_opcode_is_a_runtime_error() {
    let mut chunk = Chunk::new();
    chunk.write(0x42, 7);
    let mut vm = VM::new(&chunk, None);
    match vm.run() {
        Halt::Error(e) => {
            assert_eq!(e.kind, ErrorKind::UnknownOpcode(0x42));
            assert_eq!(e.line, 7);
        }
        _ => panic!("expected an error"),
    }
    assert_eq!(chunk.disassemble()[0].name, "UNKNOWN OPCODE");
}

#[test]
fn value_equality_laws() {
    let nan = f32::NAN.to_bits();
    let zero = 0.0f32.to_bits();
    let neg_zero = (-0.0f32).to_bits();
    assert!(!Value::number(nan).is_equal(&Value::number(nan)));
    assert!(Value::number(zero).is_equal(&Value::number(neg_zero)));
    assert!(Value::number(neg_zero).is_equal(&Value::number(zero)));
    assert!(Value::nil().is_equal(&Value::nil()));
    assert!(!Value::nil().is_equal(&Value::bool(false)));
    assert!(!Value::number(zero).is_equal(&Value::bool(false)));
    assert!(Value::bool(true).is_equal(&Value::bool(true)));
    assert!(Value::nil().is_falsey());
    assert!(Value::bool(false).is_falsey());
    assert!(!Value::number(zero).is_falsey());
}

#[test]
fn float_comparisons_on_encodings() {
    let f = |x: f32| x.to_bits();
    assert!(number_lt(f(1.0), f(2.0)));
    assert!(number_lt(f(-2.0), f(-1.0)));
    assert!(number_lt(f(-1.0), f(0.5)));
    assert!(!number_lt(f(-0.0), f(0.0)));
    assert!(!number_lt(f(f32::NAN), f(1.0)));
    assert!(number_lt(f(f32::NEG_INFINITY), f(f32::MIN)));
    assert!(number_eq(f(2.5), f(2.5)));
    assert!(!number_eq(f(2.5), f(-2.5)));
    assert_eq!(number_neg(f(2.5)), f(-2.5));
    assert_eq!(number_neg(f(-0.0)), f(0.0));
}

#[test]
fn higher_climbs_to_primary() {
    assert_eq!(Precedence::Lowest.higher(), Precedence::Assignment);
    assert_eq!(Precedence::Assignment.higher(), Precedence::Or);
    assert_eq!(Precedence::Term.higher(), Precedence::Factor);
    assert_eq!(Precedence::Call.higher(), Precedence::Primary);
    assert_eq!(Precedence::Primary.higher(), Precedence::Primary);
    assert!(Precedence::Term.higher().level() >= Precedence::Term.level());
}

#[test]
fn tokens_serialize_back_to_the_source() {
    let src = "(12.5+3)*-4>=!true==nil";
    let (tokens, _) = lex(src);
    let tokens = tokens.unwrap();
    assert_eq!(serialize(&tokens), src);
    let (tokens, _) = lex("\"a\"<=b");
    assert_eq!(serialize(&tokens.unwrap()), "\"a\"<=b");
    let spaced = "( 12.5 + 3 ) // note\n * /* more */ -4";
    let (tokens, _) = lex(spaced);
    assert_eq!(serialize(&tokens.unwrap()), "(12.5+3)*-4");
}

#[test]
fn lexer_ends_with_eof_at_the_end() {
    let (tokens, reporter) = lex("1 +\n  2");
    let tokens = tokens.unwrap();
    assert_eq!(tokens.len(), 4);
    let last = tokens.last().unwrap();
    assert_eq!(last.value.ty, TokenType::EOF);
    let end = Position { line: 2, column: 4, absolute: 7 };
    assert_eq!(last.span, Span { start: end, end });
    assert_eq!(reporter.end(), Span { start: end, end });
    assert_eq!(tokens[2].value.ty, TokenType::Number("2".to_string()));
    assert_eq!(tokens[2].span.start, Position { line: 2, column: 3, absolute: 6 });
}

#[test]
fn lexer_reports_unclosed_string() {
    let (tokens, reporter) = lex("1 + \"abc");
    assert!(tokens.is_err());
    assert_eq!(messages(&reporter), vec!["Unclosed string".to_string()]);
}

#[test]
fn lexer_reports_unclosed_block_comment() {
    let (tokens, reporter) = lex("1 /* abc");
    assert!(tokens.is_err());
    assert_eq!(messages(&reporter), vec!["Unclosed block comment".to_string()]);
    let start = Position { line: 1, column: 3, absolute: 2 };
    assert_eq!(reporter.diagnostics()[0].span.start, start);
}

#[test]
fn lexer_reports_stray_character() {
    let (tokens, reporter) = lex("1 # 2");
    assert!(tokens.is_err());
    assert_eq!(messages(&reporter), vec!["Unexpected char '#' ".to_string()]);
}

#[test]
fn lexer_rejects_letter_after_number() {
    let (tokens, reporter) = lex("12ab");
    assert!(tokens.is_err());
    assert_eq!(messages(&reporter), vec!["Unexpected char 'a' ".to_string()]);
}

#[test]
fn lexer_reads_keywords_and_identifiers() {
    let (tokens, _) = lex("and or class else false for fun if nil print return super this true var while name_1 été");
    let tys: Vec<TokenType> = tokens.unwrap().into_iter().map(|t| t.value.ty).collect();
    assert_eq!(
        tys,
        vec![
            TokenType::And, TokenType::Or, TokenType::Class, TokenType::Else, TokenType::False,
            TokenType::For, TokenType::Fun, TokenType::If, TokenType::Nil, TokenType::Print,
            TokenType::Return, TokenType::Super, TokenType::This, TokenType::True, TokenType::Var,
            TokenType::While, TokenType::Ident("name_1".to_string()),
            TokenType::Ident("été".to_string()), TokenType::EOF,
        ]
    );
    assert_eq!(look_up_identifier("while".to_string()), TokenType::While);
    assert_eq!(look_up_identifier("whilst".to_string()), TokenType::Ident("whilst".to_string()));
}

#[test]
fn unicode_whitespace_and_letters() {
    assert!(is_letter_ch('é'));
    assert!(is_letter_ch('_'));
    assert!(!is_letter_ch('+'));
    let (tokens, reporter) = lex("1\u{a0}+\u{2003}2");
    assert!(!reporter.has_error());
    assert_eq!(tokens.unwrap().len(), 4);
}

#[test]
fn position_shift_rules() {
    let p = Position { line: 1, column: 1, absolute: 0 };
    assert_eq!(p.shift('a'), Position { line: 1, column: 2, absolute: 1 });
    assert_eq!(p.shift('\t'), Position { line: 1, column: 5, absolute: 1 });
    assert_eq!(p.shift('\n'), Position { line: 2, column: 1, absolute: 1 });
    assert_eq!(p.shift('é'), Position { line: 1, column: 2, absolute: 2 });
    assert_eq!(p.shift('€'), Position { line: 1, column: 2, absolute: 3 });
}

#[test]
fn reporter_keeps_order() {
    let mut r = Reporter::new();
    assert!(!r.has_error());
    let s = Span { start: Position { line: 1, column: 1, absolute: 0 }, end: Position { line: 1, column: 2, absolute: 1 } };
    r.warn("first".to_string(), s);
    r.error("second".to_string(), s);
    assert!(r.has_error());
    assert_eq!(r.emit(), vec!["warning: first".to_string(), "error: second".to_string()]);
    r.remove_error();
    assert_eq!(r.emit(), vec!["warning: first".to_string()]);
}

#[test]
fn repeat_string_repeats() {
    assert_eq!(repeat_string("^", 3), "^^^");
    assert_eq!(repeat_string("ab", 0), "");
}

#[test]
fn decimal_and_messages() {
    assert_eq!(decimal(0), "0");
    assert_eq!(decimal(4096), "4096");
    assert_eq!(decimal(u32::MAX), "4294967295");
    assert_eq!(LexerError::UnclosedString.message(), "Unclosed string");
    assert_eq!(TokenType::EOF.text(), "\0");
    assert_eq!(TokenType::String("x".to_string()).text(), "\"x\"");
}

#[test]
fn unclosed_group_is_reported() {
    let compiler = compile("(1 + 2");
    assert_eq!(messages(&compiler.reporter), vec!["Expected ')'".to_string()]);
}

#[test]
fn trailing_token_is_reported() {
    let compiler = compile("1 2");
    assert_eq!(messages(&compiler.reporter), vec!["Expected EOF".to_string()]);
}

#[test]
fn unary_of_nothing_is_reported() {
    let compiler = compile("-");
    assert_eq!(
        messages(&compiler.reporter),
        vec!["Expected an expression instead found `\0`".to_string()]
    );
}

#[test]
fn bytecode_of_a_negated_group() {
    let compiler = compile("-(1 + 2) * 3");
    let c = &compiler.chunks[0];
    assert_eq!(
        c.code,
        vec![
            opcode::CONSTANT, 0, opcode::CONSTANT, 1, opcode::ADD, opcode::NEGATE,
            opcode::CONSTANT, 2, opcode::MUL, opcode::RETURN,
        ]
    );
    assert_eq!(c.constants.len(), 3);
    assert!(c.constants[2].is_equal(&Value::number(3.0f32.to_bits())));
}

#[test]
fn bytecode_of_not_equal() {
    let compiler = compile("true != nil");
    assert_eq!(
        compiler.chunks[0].code,
        vec![opcode::TRUE, opcode::NIL, opcode::EQUAL, opcode::NOT, opcode::RETURN]
    );
}

#[test]
fn lexer_takes_the_longest_token() {
    let (tokens, _) = lex("ab==c 1.5.2 <=>");
    let tys: Vec<TokenType> = tokens.unwrap().into_iter().map(|t| t.value.ty).collect();
    assert_eq!(
        tys,
        vec![
            TokenType::Ident("ab".to_string()), TokenType::EqualEqual, TokenType::Ident("c".to_string()),
            TokenType::Number("1.5".to_string()), TokenType::Dot, TokenType::Number("2".to_string()),
            TokenType::LessEqual, TokenType::Greater, TokenType::EOF,
        ]
    );
}

#[test]
fn comments_are_skipped() {
    let (tokens, reporter) = lex("1 // one\n+ /* two\n*/ 2 /**/");
    assert!(!reporter.has_error());
    let tys: Vec<TokenType> = tokens.unwrap().into_iter().map(|t| t.value.ty).collect();
    assert_eq!(
        tys,
        vec![TokenType::Number("1".to_string()), TokenType::Plus, TokenType::Number("2".to_string()), TokenType::EOF]
    );
}

fn halt_kind(chunk: &Chunk) -> ErrorKind {
    let mut vm = VM::new(chunk, None);
    match vm.run() {
        Halt::Error(e) => e.kind,
        _ => panic!("expected an error"),
    }
}

#[test]
fn malformed_chunks_are_runtime_errors() {
    let mut c = Chunk::new();
    c.write(opcode::RETURN, 1);
    assert_eq!(halt_kind(&c), ErrorKind::StackUnderflow);

    let mut c = Chunk::new();
    c.write(opcode::CONSTANT, 1);
    assert_eq!(halt_kind(&c), ErrorKind::MissingOperand);

    let mut c = Chunk::new();
    c.write(opcode::CONSTANT, 1);
    c.write(5, 1);
    assert_eq!(halt_kind(&c), ErrorKind::BadConstant);

    let mut c = Chunk::new();
    c.write(opcode::NIL, 1);
    assert_eq!(halt_kind(&c), ErrorKind::EndOfCode);

    let mut c = Chunk::new();
    c.write(opcode::NIL, 1);
    c.write(opcode::ADD, 1);
    assert_eq!(halt_kind(&c), ErrorKind::StackUnderflow);
}

#[test]
fn runtime_error_text() {
    let e = rlox::vm::RuntimeError { line: 12, kind: ErrorKind::StackOverflow };
    assert_eq!(e.describe(), "[line 12] error: Stack overflow.");
    let e = rlox::vm::RuntimeError { line: 3, kind: ErrorKind::NumberOperands(opcode::DIV) };
    assert_eq!(e.describe(), "[line 3] error: `/` operands must be numbers.");
}

#[test]
fn arithmetic_halts_with_both_operands() {
    let compiler = compile("7 - 2");
    let mut vm = VM::new(&compiler.chunks[0], None);
    match vm.run() {
        Halt::Arithmetic(op, a, b) => {
            assert_eq!(op, BinaryOp::Sub);
            assert_eq!(a, 7.0f32.to_bits());
            assert_eq!(b, 2.0f32.to_bits());
        }
        _ => panic!("expected an arithmetic halt"),
    }
    assert!(vm.resume(5.0f32.to_bits()));
    match vm.run() {
        Halt::Return(v) => assert_eq!(show(&v), "5"),
        _ => panic!("expected a return"),
    }
}

#[test]
fn compiled_arithmetic_matches_direct_evaluation() {
    let direct = ((1.5f32 + 2.25f32) * -4.0f32) / 3.0f32 - 0.1f32;
    assert_eq!(run("(1.5 + 2.25) * -4 / 3 - 0.1"), Ok(format!("{}", direct)));
    let direct = 1.0f32 - 2.0f32 - 3.0f32;
    assert_eq!(run("1 - 2 - 3"), Ok(format!("{}", direct)));
}

#[test]
fn operator_spans_are_half_open() {
    let mut lexer = Lexer::new("<=!===>=<", Reporter::new());
    let expected = [
        (TokenType::LessEqual, 0, 2),
        (TokenType::BangEqual, 2, 4),
        (TokenType::EqualEqual, 4, 6),
        (TokenType::GreaterEqual, 6, 8),
        (TokenType::Less, 8, 9),
        (TokenType::EOF, 9, 9),
    ];
    for (ty, start, end) in expected.iter() {
        let t = lexer.next().unwrap();
        assert_eq!(&t.value.ty, ty);
        assert_eq!(t.span.start.absolute, *start);
        assert_eq!(t.span.end.absolute, *end);
    }
    assert!(!lexer.into_reporter().has_error());
}

#[test]
fn comments_before_a_token_keep_its_position() {
    let mut lexer = Lexer::new("/* a/b */ // c\n+", Reporter::new());
    let t = lexer.next().unwrap();
    assert_eq!(t.value.ty, TokenType::Plus);
    assert_eq!(t.span.start, Position { line: 2, column: 1, absolute: 15 });
    assert_eq!(t.span.end, Position { line: 2, column: 2, absolute: 16 });
    assert!(!lexer.into_reporter().has_error());
}

#[test]
fn every_lexing_error_is_recorded() {
    let (tokens, reporter) = lex("# 1x \"ab");
    assert!(tokens.is_err());
    let d = reporter.diagnostics();
    assert_eq!(messages(&reporter), vec![
        "Unexpected char '#' ".to_string(),
        "Unexpected char 'x' ".to_string(),
        "Unclosed string".to_string(),
    ]);
    let at = |a: usize, c: u32| Position { line: 1, column: c, absolute: a };
    assert_eq!(d[0].span, Span { start: at(0, 1), end: at(0, 1) });
    assert_eq!(d[1].span, Span { start: at(2, 3), end: at(2, 3) });
    assert_eq!(d[2].span, Span { start: at(5, 6), end: at(8, 9) });
}

#[test]
fn compiled_bytes_carry_their_lines() {
    let compiler = compile("1 + 2 * 3");
    let c = &compiler.chunks[0];
    assert_eq!(c.code, vec![
        opcode::CONSTANT, 0, opcode::CONSTANT, 1, opcode::CONSTANT, 2, opcode::MUL, opcode::ADD, opcode::RETURN,
    ]);
    assert_eq!(c.lines, vec![1; 9]);
    assert_eq!(run("-true"), Err("[line 1] error: Unary `-` operand must be a number.".to_string()));
}

#[test]
fn group_without_close_reports_at_the_end() {
    let compiler = compile("(1");
    let d = compiler.reporter.diagnostics();
    assert_eq!(d.len(), 1);
    assert_eq!(d[0].msg, "Expected ')'");
    assert_eq!(d[0].span, compiler.reporter.end());
}

#[test]
fn too_many_constants_is_reported_at_the_token() {
    let compiler = compile(&sum_of_ones(257));
    let d = compiler.reporter.diagnostics();
    assert_eq!(d.len(), 1);
    assert_eq!(d[0].level, Level::Error);
    assert_eq!(d[0].span.start.absolute, 256 * 2);
}
