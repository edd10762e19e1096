use parsing::cell::any_char;
use parsing::cell::any_digit;
use parsing::cell::byte;
use parsing::cell::cell;
use parsing::cell::chr;
use parsing::cell::many0;
use parsing::cell::many1;
use parsing::cell::skip;
use parsing::cell::skip_left;
use parsing::cell::slice;
use parsing::cell::state;
use parsing::cell::take_until;
use parsing::parser::And;
use parsing::parser::AnyChar;
use parsing::parser::AnyDigit;
use parsing::parser::Byte;
use parsing::parser::Char;
use parsing::parser::Many0;
use parsing::parser::Many1;
use parsing::parser::Or;
use parsing::parser::Parse;
use parsing::parser::Skip;
use parsing::parser::Slice;
use parsing::parser::State;
use parsing::parser::TakeUntil;
use parsing::parser::Transform;

#[test]
fn byte_matches_and_consumes_one() {
    let p = byte(b'a');
    let (rest, v) = p.parse(b"abc").unwrap();
    assert_eq!(*v, b'a');
    assert_eq!(rest, b"bc");
}

#[test]
fn byte_rejects_mismatch_and_empty() {
    let p = byte(b'a');
    assert_eq!(p.parse(b"xbc").unwrap_err(), b"xbc");
    assert_eq!(p.parse(b"").unwrap_err(), b"" as &[u8]);
}

#[test]
fn chr_matches_single_byte_code_point() {
    let p = chr(':');
    let (rest, v) = p.parse(b":def").unwrap();
    assert_eq!(v, ':');
    assert_eq!(rest, b"def");
    assert!(p.parse(b"x").is_err());
}

#[test]
fn any_char_accepts_ascii_alphabetic_only() {
    let (rest, v) = any_char().parse(b"Qx1").unwrap();
    assert_eq!(v, 'Q');
    assert_eq!(rest, b"x1");
    assert!(any_char().parse(b"1ab").is_err());
    assert!(any_char().parse(b"").is_err());
}

#[test]
fn any_digit_accepts_ascii_digits() {
    let (rest, v) = any_digit().parse(b"7a").unwrap();
    assert_eq!(v, '7');
    assert_eq!(rest, b"a");
    assert!(any_digit().parse(b"a7").is_err());
    assert!(any_digit().parse(b"").is_err());
}

#[test]
fn any_digit_accepts_latin1_numerics() {
    // 178 is the superscript-two character when a byte is read as a code
    // point, and it counts as numeric.
    let input: [u8; 2] = [178, b'x'];
    let (rest, v) = any_digit().parse(&input).unwrap();
    assert_eq!(v as u32, 178);
    assert_eq!(rest, b"x");
}

#[test]
fn slice_matches_literal_prefix() {
    let p = slice(b"GET");
    let (rest, v) = p.parse(b"GET /").unwrap();
    assert_eq!(v, b"GET");
    assert_eq!(rest, b" /");
}

#[test]
fn slice_rejects_on_length_before_comparing() {
    let p = slice(b"GET");
    assert_eq!(p.parse(b"GE").unwrap_err(), b"GE" as &[u8]);
    assert_eq!(p.parse(b"GEX /").unwrap_err(), b"GEX /" as &[u8]);
}

#[test]
fn slice_len_reports_pattern_length() {
    assert_eq!(Slice::new(b"abcd").len(), 4);
    assert_eq!(Slice::new(b"").len(), 0);
}

#[test]
fn state_consumes_nothing_and_seeds_a_value() {
    let p = state(|| 42u32);
    let (rest, v) = p.parse(b"xyz").unwrap();
    assert_eq!(v, 42);
    assert_eq!(rest, b"xyz");
}

#[test]
fn map_transforms_the_output() {
    let p = any_digit().map(|c| c.to_digit(10).unwrap());
    let (rest, v) = p.parse(b"8!").unwrap();
    assert_eq!(v, 8);
    assert_eq!(rest, b"!");
}

#[test]
fn map_guards_against_empty_input() {
    // The defensive guard: even though the value source succeeds on any
    // input, mapping it fails on an empty one without trying it.
    let p = state(|| 1u8).map(|x| x + 1);
    assert!(p.parse(b"").is_err());
    let (rest, v) = p.parse(b"a").unwrap();
    assert_eq!(v, 2);
    assert_eq!(rest, b"a");
}

#[test]
fn or_prefers_the_earlier_alternative() {
    // Overlapping-prefix literal alternatives: the earlier-declared one
    // wins when both could match.
    let p = slice(b"ab").or(slice(b"abc"));
    let (rest, v) = p.parse(b"abcd").unwrap();
    assert_eq!(v, b"ab");
    assert_eq!(rest, b"cd");

    let q = slice(b"abc").or(slice(b"ab"));
    let (rest, v) = q.parse(b"abcd").unwrap();
    assert_eq!(v, b"abc");
    assert_eq!(rest, b"d");
}

#[test]
fn or_tries_the_right_against_the_original_input() {
    let p = slice(b"xy").or(slice(b"ab"));
    let (rest, v) = p.parse(b"abz").unwrap();
    assert_eq!(v, b"ab");
    assert_eq!(rest, b"z");
}

#[test]
fn or_fails_only_if_both_fail() {
    let p = byte(b'a').or(byte(b'b'));
    assert!(p.parse(b"c").is_err());
    assert!(p.parse(b"").is_err());
}

#[test]
fn then_pairs_sequenced_outputs() {
    let p = chr('a').then(chr('b'));
    let (rest, v) = p.parse(b"abc").unwrap();
    assert_eq!(v, ('a', 'b'));
    assert_eq!(rest, b"c");
}

#[test]
fn then_fails_with_whichever_side_failed() {
    let p = chr('a').then(chr('b'));
    assert_eq!(p.parse(b"xb").unwrap_err(), b"xb" as &[u8]);
    assert_eq!(p.parse(b"ax").unwrap_err(), b"x" as &[u8]);
}

#[test]
fn skip_discards_the_second_output() {
    let p = slice(b"ab").skip(slice(b"cd"));
    let (rest, v) = p.parse(b"abcdef").unwrap();
    assert_eq!(v, b"ab");
    assert_eq!(rest, b"ef");
}

#[test]
fn skip_left_discards_the_prefix() {
    let p = chr('b').skip_left(chr('a'));
    let (rest, v) = p.parse(b"abc").unwrap();
    assert_eq!(v, 'a');
    assert_eq!(rest, b"c");
}

#[test]
fn free_skip_functions_compose_parsers() {
    let p = skip(Slice::new(b"ab"), Slice::new(b"cd"));
    let (rest, v) = p.parse(b"abcd").unwrap();
    assert_eq!(v, b"ab");
    assert_eq!(rest, b"" as &[u8]);

    let q = skip_left(Char::new('a'), Char::new('b'));
    let (rest, v) = q.parse(b"bac").unwrap();
    assert_eq!(v, 'b');
    assert_eq!(rest, b"c");
}

#[test]
fn many0_collects_until_first_failure() {
    let p = many0(AnyDigit::new());
    let (rest, v) = p.parse(b"123ab").unwrap();
    assert_eq!(v, vec!['1', '2', '3']);
    assert_eq!(rest, b"ab");
}

#[test]
fn many0_zero_matches_is_empty_with_unchanged_cursor() {
    let p = many0(AnyDigit::new());
    let (rest, v) = p.parse(b"ab").unwrap();
    assert_eq!(v, Vec::<char>::new());
    assert_eq!(rest, b"ab");
}

#[test]
fn many0_requires_non_empty_input() {
    let p = many0(AnyDigit::new());
    assert!(p.parse(b"").is_err());
}

#[test]
fn many1_zero_matches_fails() {
    let p = many1(AnyDigit::new());
    assert_eq!(p.parse(b"ab").unwrap_err(), b"ab" as &[u8]);
    assert!(p.parse(b"").is_err());
}

#[test]
fn many1_collects_at_least_one() {
    let p = many1(AnyDigit::new());
    let (rest, v) = p.parse(b"42x").unwrap();
    assert_eq!(v, vec!['4', '2']);
    assert_eq!(rest, b"x");
}

#[test]
fn take_until_stops_before_the_delimiter() {
    let p = take_until(chr(':'));
    let (rest, v) = p.parse(b"abc:def").unwrap();
    assert_eq!(v, b"abc");
    assert_eq!(rest, b":def");
}

#[test]
fn take_until_fails_without_a_delimiter() {
    let p = take_until(chr(':'));
    assert_eq!(p.parse(b"abcdef").unwrap_err(), b"abcdef" as &[u8]);
}

#[test]
fn take_until_accepts_a_leading_delimiter() {
    let p = take_until(chr(':'));
    let (rest, v) = p.parse(b":x").unwrap();
    assert_eq!(v, b"" as &[u8]);
    assert_eq!(rest, b":x");
}

#[test]
fn constructors_build_the_same_matchers() {
    let p = And::new(Byte::new(b'a'), AnyChar::new());
    let (rest, (first, second)) = p.parse(b"abc").unwrap();
    assert_eq!(*first, b'a');
    assert_eq!(second, 'b');
    assert_eq!(rest, b"c");

    let q = Or::new(Char::new('x'), Char::new('y'));
    let (_, v) = q.parse(b"y").unwrap();
    assert_eq!(v, 'y');

    let r = Skip::new(Slice::new(b"a"), Slice::new(b"b"));
    let (_, v) = r.parse(b"ab").unwrap();
    assert_eq!(v, b"a");

    let s = Transform::new(AnyChar::new(), |c: char| c.to_ascii_uppercase());
    let (_, v) = s.parse(b"q").unwrap();
    assert_eq!(v, 'Q');

    let t = TakeUntil::new(Byte::new(b'!'));
    let (_, v) = t.parse(b"hi!").unwrap();
    assert_eq!(v, b"hi");

    let u = Many0::new(AnyChar::new());
    let (_, v) = u.parse(b"ab1").unwrap();
    assert_eq!(v, vec!['a', 'b']);

    let w = Many1::new(AnyChar::new());
    assert!(w.parse(b"1").is_err());

    let x = State::new(|| 7i32);
    let (_, v) = x.parse(b"z").unwrap();
    assert_eq!(v, 7);
}

#[test]
fn cell_wraps_and_unwraps_transparently() {
    let inner = Byte::new(b'k');
    let wrapped = cell(inner);
    let (rest, v) = wrapped.parse(b"kl").unwrap();
    assert_eq!(*v, b'k');
    assert_eq!(rest, b"l");
    let back: Byte = wrapped.take();
    assert!(back.parse(b"k").is_ok());
}

#[test]
fn parse_twice_yields_identical_results() {
    let p = take_until(chr(' ')).then(many1(AnyDigit::new()).skip_left(chr(' ')));
    let input = b"abc 123";
    let r1 = p.parse(input);
    let r2 = p.parse(input);
    match (r1, r2) {
        (Ok((rest1, v1)), Ok((rest2, v2))) => {
            assert_eq!(rest1, rest2);
            assert_eq!(v1, v2);
        }
        _ => panic!("both parses must succeed"),
    }
}
