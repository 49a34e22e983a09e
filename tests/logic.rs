use nander::binary::Binary;
use nander::logic::{eval_logic_expr, AsLogic, LogicExpr, Logip, PlainLogip};
use nander::parse::{parse_chars, parse_logic_expr, strip_whitespace, ParseError};

fn eval_text(text: &str) -> Binary {
    let e: LogicExpr<Binary> = parse_logic_expr(text).unwrap();
    eval_logic_expr(&PlainLogip, e)
}

fn err_of(text: &str) -> &'static str {
    match parse_logic_expr::<Binary>(text) {
        Ok(_) => panic!("{} parsed", text),
        Err(e) => e,
    }
}

/// A processor that only knows NAND, so every other gate is the derived one.
struct NandOnly;

impl Logip for NandOnly {
    type R = Binary;
    fn nand(&self, lhs: Binary, rhs: Binary) -> Binary {
        if lhs == Binary::One && rhs == Binary::One {
            Binary::Zero
        } else {
            Binary::One
        }
    }
}

const BITS: [Binary; 2] = [Binary::Zero, Binary::One];

#[test]
fn parse_nand_of_or() {
    assert_eq!(eval_text("1$(0|1)"), Binary::Zero);
}

#[test]
fn parse_not_of_and() {
    assert_eq!(eval_text("!(1&0)"), Binary::One);
}

#[test]
fn parse_ignores_whitespace() {
    assert_eq!(eval_text(" 1 $\t( 0 |\n1 ) "), Binary::Zero);
    assert_eq!(strip_whitespace(" a b\tc\n"), vec!['a', 'b', 'c']);
}

#[test]
fn parse_equal_precedence_left_to_right() {
    // (1 | 0) & 0 = 0, where AND binding tighter would give 1
    assert_eq!(eval_text("1|0&0"), Binary::Zero);
    assert_eq!(eval_text("1^1^1"), Binary::One);
    assert_eq!(eval_text("!!1"), Binary::One);
    assert_eq!(eval_text("0$0"), Binary::One);
}

#[test]
fn parse_ignores_trailing_text() {
    assert_eq!(eval_text("1)"), Binary::One);
    assert_eq!(eval_text("0 1"), Binary::Zero);
}

#[test]
fn parse_errors() {
    assert_eq!(err_of("(1&0"), "bracket is not closed");
    assert_eq!(err_of("(1&0]"), "bracket is not closed");
    assert_eq!(err_of("2"), "invalid element");
    assert_eq!(err_of("1&x"), "invalid element");
    assert_eq!(err_of(""), "invalid element (none)");
    assert_eq!(err_of("1&"), "invalid element (none)");
    assert_eq!(err_of("!"), "invalid element (none)");
}

#[test]
fn parse_chars_reports_kind() {
    assert!(matches!(parse_chars::<Binary>(&['(', '1']), Err(ParseError::BracketNotClosed)));
    assert!(matches!(parse_chars::<Binary>(&['a']), Err(ParseError::InvalidElement)));
    assert!(matches!(parse_chars::<Binary>(&[]), Err(ParseError::InvalidElementNone)));
    assert_eq!(ParseError::InvalidElement.message(), "invalid element");
}

#[test]
fn parse_nand_keeps_operand_order() {
    let e: LogicExpr<bool> = parse_logic_expr("1$0").unwrap();
    match e {
        LogicExpr::Nand(first, second) => {
            assert!(matches!(*first, LogicExpr::Leaf(true)));
            assert!(matches!(*second, LogicExpr::Leaf(false)));
        }
        _ => panic!("not a nand"),
    }
}

#[test]
fn derived_and_native_gates_agree() {
    for &a in BITS.iter() {
        for &b in BITS.iter() {
            assert_eq!(NandOnly.and(a, b), PlainLogip.and(a, b));
            assert_eq!(NandOnly.or(a, b), PlainLogip.or(a, b));
            assert_eq!(NandOnly.xor(a, b), PlainLogip.xor(a, b));
            assert_eq!(PlainLogip.and(a, b), PlainLogip.not(PlainLogip.nand(a, b)));
        }
        assert_eq!(NandOnly.not(a), PlainLogip.not(a));
    }
}

#[test]
fn eval_truth_tables() {
    let leaf = |b: Binary| Box::new(LogicExpr::Leaf(b));
    for &a in BITS.iter() {
        for &b in BITS.iter() {
            let ta = a == Binary::One;
            let tb = b == Binary::One;
            let expect = |t: bool| if t { Binary::One } else { Binary::Zero };
            assert_eq!(eval_logic_expr(&PlainLogip, LogicExpr::And(leaf(a), leaf(b))), expect(ta && tb));
            assert_eq!(eval_logic_expr(&PlainLogip, LogicExpr::Or(leaf(a), leaf(b))), expect(ta || tb));
            assert_eq!(eval_logic_expr(&NandOnly, LogicExpr::Xor(leaf(a), leaf(b))), expect(ta != tb));
            assert_eq!(eval_logic_expr(&NandOnly, LogicExpr::Nand(leaf(a), leaf(b))), expect(!(ta && tb)));
        }
        assert_eq!(eval_logic_expr(&NandOnly, LogicExpr::Not(leaf(a))), expect_not(a));
    }
    assert_eq!(<Binary as AsLogic>::logic_true(), Binary::One);
    assert_eq!(<Binary as AsLogic>::logic_false(), Binary::Zero);
}

fn expect_not(a: Binary) -> Binary {
    if a == Binary::One {
        Binary::Zero
    } else {
        Binary::One
    }
}
