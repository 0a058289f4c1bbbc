use winnow::bytes::complete::{
    any, escaped, escaped_after_escapable, escaped_after_normal, escaped_transform,
    escaped_transform_after_normal, escaped_transform_after_transform, is_a, is_not,
    none_of_internal, one_of_internal, tag, tag_no_case, take, take_till, take_till1, take_until,
    take_until1, take_while, take_while1, take_while_m_n, Move,
};
use winnow::error::{ErrMode, Error, ErrorKind};
use winnow::input::{find_slice, len_utf8, offset_for, AsChar};
use winnow::IResult;

fn chars(s: &str) -> Vec<char> {
    s.chars().collect()
}

fn backtrack<I, O>(input: I, kind: ErrorKind) -> Result<O, ErrMode<Error<I>>> {
    Err(ErrMode::Backtrack(Error::new(input, kind)))
}

/// Runs a parser of characters on `s` and gives back the remainder and the
/// output as strings, or the failed check and where it failed.
fn on_str<'a, F>(s: &'a str, f: F) -> Result<(String, String), (String, ErrorKind)>
where
    F: for<'b> Fn(&'b [char]) -> IResult<'b, char, &'b [char]>,
{
    let input = chars(s);
    match f(&input) {
        Ok((rest, out)) => Ok((rest.iter().collect(), out.iter().collect())),
        Err(ErrMode::Backtrack(e)) => Err((e.input.iter().collect(), e.kind)),
        Err(_) => panic!("unexpected error mode"),
    }
}

fn ok(rest: &str, out: &str) -> Result<(String, String), (String, ErrorKind)> {
    Ok((rest.to_string(), out.to_string()))
}

fn fail(at: &str, kind: ErrorKind) -> Result<(String, String), (String, ErrorKind)> {
    Err((at.to_string(), kind))
}

#[test]
fn tag_recognizes_its_pattern() {
    let hello = chars("Hello");
    let p = |s: &str| on_str(s, |i| tag(&hello, i));
    assert_eq!(p("Hello, World!"), ok(", World!", "Hello"));
    assert_eq!(p("Something"), fail("Something", ErrorKind::Tag));
    assert_eq!(p(""), fail("", ErrorKind::Tag));
    assert_eq!(p("Hell"), fail("Hell", ErrorKind::Tag));
    assert_eq!(tag(b"He", b"Hello"), Ok((&b"llo"[..], &b"He"[..])));
    assert_eq!(tag(b"", b"Hello"), Ok((&b"Hello"[..], &b""[..])));
}

#[test]
fn tag_no_case_ignores_case() {
    let hello = chars("hello");
    let p = |s: &str| on_str(s, |i| tag_no_case(&hello, i));
    assert_eq!(p("Hello, World!"), ok(", World!", "Hello"));
    assert_eq!(p("hello, World!"), ok(", World!", "hello"));
    assert_eq!(p("HeLlO, World!"), ok(", World!", "HeLlO"));
    assert_eq!(p("Something"), fail("Something", ErrorKind::Tag));
    assert_eq!(p(""), fail("", ErrorKind::Tag));
    assert_eq!(tag_no_case(b"hello", b"HELLO!"), Ok((&b"!"[..], &b"HELLO"[..])));
    assert_eq!(tag_no_case(b"a[", b"A{"), backtrack(&b"A{"[..], ErrorKind::Tag));
}

#[test]
fn tag_no_case_folds_unicode_characters() {
    let ecole = chars("école");
    let p = |s: &str| on_str(s, |i| tag_no_case(&ecole, i));
    assert_eq!(p("ÉCOLE!"), ok("!", "ÉCOLE"));
    assert_eq!(p("ÉCOLO"), fail("ÉCOLO", ErrorKind::Tag));
    // Bytes fold the ASCII letters only: the two bytes of "é" and "É" differ.
    assert_eq!(
        tag_no_case("é".as_bytes(), "É".as_bytes()),
        backtrack("É".as_bytes(), ErrorKind::Tag)
    );
}

#[test]
fn is_not_stops_at_listed_tokens() {
    let not_space = |s: &str| on_str(s, |i| is_not(|c: char| " \t\r\n".contains(c), i));
    assert_eq!(not_space("Hello, World!"), ok(" World!", "Hello,"));
    assert_eq!(not_space("Sometimes\t"), ok("\t", "Sometimes"));
    assert_eq!(not_space("Nospace"), ok("", "Nospace"));
    assert_eq!(not_space(""), fail("", ErrorKind::IsNot));
    assert_eq!(not_space(" lead"), fail(" lead", ErrorKind::IsNot));
}

#[test]
fn is_a_takes_listed_tokens() {
    let hex = |s: &str| on_str(s, |i| is_a(|c: char| "1234567890ABCDEF".contains(c), i));
    assert_eq!(hex("123 and voila"), ok(" and voila", "123"));
    assert_eq!(hex("DEADBEEF and others"), ok(" and others", "DEADBEEF"));
    assert_eq!(hex("BADBABEsomething"), ok("something", "BADBABE"));
    assert_eq!(hex("D15EA5E"), ok("", "D15EA5E"));
    assert_eq!(hex(""), fail("", ErrorKind::IsA));
}

fn is_alpha(c: u8) -> bool {
    c.is_ascii_alphabetic()
}

#[test]
fn take_while_never_fails() {
    assert_eq!(take_while(is_alpha, b"latin123"), Ok((&b"123"[..], &b"latin"[..])));
    assert_eq!(take_while(is_alpha, b"12345"), Ok((&b"12345"[..], &b""[..])));
    assert_eq!(take_while(is_alpha, b"latin"), Ok((&b""[..], &b"latin"[..])));
    assert_eq!(take_while(is_alpha, b""), Ok((&b""[..], &b""[..])));
}

#[test]
fn take_while1_needs_one_token() {
    assert_eq!(take_while1(is_alpha, b"latin123"), Ok((&b"123"[..], &b"latin"[..])));
    assert_eq!(take_while1(is_alpha, b"latin"), Ok((&b""[..], &b"latin"[..])));
    assert_eq!(take_while1(is_alpha, b"12345"), backtrack(&b"12345"[..], ErrorKind::TakeWhile1));
    assert_eq!(take_while1(is_alpha, b""), backtrack(&b""[..], ErrorKind::TakeWhile1));
}

#[test]
fn take_while_m_n_stays_within_bounds() {
    let short_alpha = |i: &'static [u8]| take_while_m_n(3, 6, is_alpha, i);
    assert_eq!(short_alpha(b"latin123"), Ok((&b"123"[..], &b"latin"[..])));
    assert_eq!(short_alpha(b"lengthy"), Ok((&b"y"[..], &b"length"[..])));
    assert_eq!(short_alpha(b"latin"), Ok((&b""[..], &b"latin"[..])));
    assert_eq!(short_alpha(b"ed"), backtrack(&b"ed"[..], ErrorKind::TakeWhileMN));
    assert_eq!(short_alpha(b"12345"), backtrack(&b"12345"[..], ErrorKind::TakeWhileMN));
    assert_eq!(short_alpha(b"ab1cdefg"), backtrack(&b"ab1cdefg"[..], ErrorKind::TakeWhileMN));
    assert_eq!(short_alpha(b"abcdefgh1"), Ok((&b"gh1"[..], &b"abcdef"[..])));
    // When `m` exceeds `n`, no length fits, and the parser fails.
    assert_eq!(take_while_m_n(3, 1, is_alpha, b"abcd"), backtrack(&b"abcd"[..], ErrorKind::TakeWhileMN));
    assert_eq!(take_while_m_n(5, 2, is_alpha, b"abc"), backtrack(&b"abc"[..], ErrorKind::TakeWhileMN));
    assert_eq!(take_while_m_n(3, 2, is_alpha, b"abcd1"), backtrack(&b"abcd1"[..], ErrorKind::TakeWhileMN));
    assert_eq!(take_while_m_n(0, 0, is_alpha, b"abcd"), Ok((&b"abcd"[..], &b""[..])));
}

#[test]
fn take_till_stops_at_accepted_token() {
    let till_colon = |s: &str| on_str(s, |i| take_till(|c: char| c == ':', i));
    assert_eq!(till_colon("latin:123"), ok(":123", "latin"));
    assert_eq!(till_colon(":empty matched"), ok(":empty matched", ""));
    assert_eq!(till_colon("12345"), ok("", "12345"));
    assert_eq!(till_colon(""), ok("", ""));
}

#[test]
fn take_till1_needs_one_token() {
    let till_colon = |s: &str| on_str(s, |i| take_till1(|c: char| c == ':', i));
    assert_eq!(till_colon("latin:123"), ok(":123", "latin"));
    assert_eq!(till_colon(":empty matched"), fail(":empty matched", ErrorKind::TakeTill1));
    assert_eq!(till_colon("12345"), ok("", "12345"));
    assert_eq!(till_colon(""), fail("", ErrorKind::TakeTill1));
}

#[test]
fn take_counts_tokens() {
    let take6 = |s: &str| on_str(s, |i| take(6, i));
    assert_eq!(take6("1234567"), ok("7", "123456"));
    assert_eq!(take6("things"), ok("", "things"));
    assert_eq!(take6("short"), fail("short", ErrorKind::Eof));
    assert_eq!(take6(""), fail("", ErrorKind::Eof));
    assert_eq!(on_str("💙", |i| take(1, i)), ok("", "💙"));
    assert_eq!(take(1, "💙".as_bytes()), Ok((&b"\x9F\x92\x99"[..], &b"\xF0"[..])));
    assert_eq!(take(0, &b""[..]), Ok((&b""[..], &b""[..])));
}

#[test]
fn take_until_stops_before_pattern() {
    let eof = chars("eof");
    let until_eof = |s: &str| on_str(s, |i| take_until(&eof, i));
    assert_eq!(until_eof("hello, worldeof"), ok("eof", "hello, world"));
    assert_eq!(until_eof("hello, world"), fail("hello, world", ErrorKind::TakeUntil));
    assert_eq!(until_eof(""), fail("", ErrorKind::TakeUntil));
    assert_eq!(until_eof("1eof2eof"), ok("eof2eof", "1"));
    assert_eq!(until_eof("eof"), ok("eof", ""));
    assert_eq!(until_eof("eoeof"), ok("eof", "eo"));
    assert_eq!(take_until(b"", b"abc"), Ok((&b"abc"[..], &b""[..])));
}

#[test]
fn take_until1_needs_one_token() {
    let eof = chars("eof");
    let until_eof = |s: &str| on_str(s, |i| take_until1(&eof, i));
    assert_eq!(until_eof("hello, worldeof"), ok("eof", "hello, world"));
    assert_eq!(until_eof("hello, world"), fail("hello, world", ErrorKind::TakeUntil));
    assert_eq!(until_eof(""), fail("", ErrorKind::TakeUntil));
    assert_eq!(until_eof("1eof2eof"), ok("eof2eof", "1"));
    assert_eq!(until_eof("eof"), fail("eof", ErrorKind::TakeUntil));
}

#[test]
fn any_one_of_none_of_take_the_first_token() {
    assert_eq!(any(b"abc"), Ok((&b"bc"[..], b'a')));
    assert_eq!(any::<u8>(b""), backtrack(&b""[..], ErrorKind::Eof));
    let vowel = |c: u8| b"aeiou".contains(&c);
    assert_eq!(one_of_internal(b"abc", &vowel), Ok((&b"bc"[..], b'a')));
    assert_eq!(one_of_internal(b"bca", &vowel), backtrack(&b"bca"[..], ErrorKind::OneOf));
    assert_eq!(one_of_internal(b"", &vowel), backtrack(&b""[..], ErrorKind::OneOf));
    assert_eq!(none_of_internal(b"bca", &vowel), Ok((&b"ca"[..], b'b')));
    assert_eq!(none_of_internal(b"abc", &vowel), backtrack(&b"abc"[..], ErrorKind::NoneOf));
    assert_eq!(none_of_internal(b"", &vowel), backtrack(&b""[..], ErrorKind::NoneOf));
}

fn digit1(i: &[char]) -> IResult<'_, char, &[char]> {
    take_while1(|c: char| c.is_ascii_digit(), i)
}

fn alpha1(i: &[u8]) -> IResult<'_, u8, &[u8]> {
    take_while1(is_alpha, i)
}

#[test]
fn escaped_keeps_escapes() {
    let esc = |s: &str| {
        on_str(s, |i| {
            escaped(digit1, '\\', |i| one_of_internal(i, &|c: char| "\"n\\".contains(c)), i)
        })
    };
    assert_eq!(esc("123;"), ok(";", "123"));
    assert_eq!(esc("12\\\"34;"), ok(";", "12\\\"34"));
    assert_eq!(esc(""), ok("", ""));
    assert_eq!(esc(";"), fail(";", ErrorKind::Escaped));
}

#[test]
fn escaped_skips_the_bytes_of_a_wide_control_character() {
    // On bytes, a control character spans its UTF-8 length; the byte 0xE9 is
    // read as the character 'é'.
    let input: &[u8] = b"ab\xE9xncd;";
    let r = escaped(alpha1, 'é', |i| one_of_internal(i, &|c: u8| c == b'n'), input);
    assert_eq!(r, Ok((&b";"[..], &b"ab\xE9xncd"[..])));
    assert_eq!(len_utf8('é'), 2);
    assert_eq!(<u8 as AsChar>::char_len('é'), 2);
    assert_eq!(<char as AsChar>::char_len('é'), 1);
    assert_eq!(0xE9u8.as_char(), 'é');
}

#[test]
fn escaped_steps() {
    let input: &[u8] = b"ab\\n";
    let ok_rest: IResult<'_, u8, ()> = Ok((&input[2..], ()));
    assert_eq!(escaped_after_normal(input, 0, '\\', ok_rest), Move::Resume(2));
    let none_left: IResult<'_, u8, ()> = Ok((&input[4..], ()));
    assert_eq!(escaped_after_normal(input, 0, '\\', none_left), Move::Accept(4));
    let nothing_taken: IResult<'_, u8, ()> = Ok((&input[2..], ()));
    assert_eq!(escaped_after_normal(input, 2, '\\', nothing_taken), Move::Accept(2));
    let failed: IResult<'_, u8, ()> = backtrack(&input[2..], ErrorKind::Alpha);
    assert_eq!(escaped_after_normal(input, 2, '\\', failed), Move::Escape(3));
    let failed: IResult<'_, u8, ()> = backtrack(&input[3..], ErrorKind::Alpha);
    assert_eq!(escaped_after_normal(input, 3, 'x', failed), Move::Accept(3));
    let failed: IResult<'_, u8, ()> = backtrack(input, ErrorKind::Alpha);
    assert_eq!(
        escaped_after_normal(input, 0, 'x', failed),
        Move::Fail(ErrMode::Backtrack(Error::new(input, ErrorKind::Escaped)))
    );
    let cut: IResult<'_, u8, ()> = Err(ErrMode::Cut(Error::new(input, ErrorKind::Alpha)));
    assert_eq!(
        escaped_after_normal(input, 0, 'x', cut),
        Move::Fail(ErrMode::Cut(Error::new(input, ErrorKind::Alpha)))
    );
    let short: &[u8] = b"ab\\";
    let failed: IResult<'_, u8, ()> = backtrack(&short[2..], ErrorKind::Alpha);
    assert_eq!(
        escaped_after_normal(short, 2, '\\', failed),
        Move::Fail(ErrMode::Backtrack(Error::new(short, ErrorKind::Escaped)))
    );
    let escaped_ok: IResult<'_, u8, u8> = Ok((&input[4..], b'n'));
    assert_eq!(escaped_after_escapable(input, escaped_ok), Move::Accept(4));
    let escaped_more: IResult<'_, u8, u8> = Ok((&input[3..], b'n'));
    assert_eq!(escaped_after_escapable(input, escaped_more), Move::Resume(3));
}

#[test]
fn escaped_transform_steps_collect_outputs() {
    let input: &[u8] = b"ab\\n";
    let mut acc: Vec<u8> = Vec::new();
    let ok_rest: IResult<'_, u8, &[u8]> = Ok((&input[2..], &input[..2]));
    assert_eq!(
        escaped_transform_after_normal(input, 0, input, '\\', ok_rest, &mut acc),
        Move::Resume(2)
    );
    assert_eq!(acc, b"ab".to_vec());
    let failed: IResult<'_, u8, &[u8]> = backtrack(&input[2..], ErrorKind::Alpha);
    assert_eq!(
        escaped_transform_after_normal(input, 2, &input[2..], '\\', failed, &mut acc),
        Move::Escape(3)
    );
    assert_eq!(acc, b"ab".to_vec());
    let replaced: IResult<'_, u8, Vec<u8>> = Ok((&input[4..], b"\n".to_vec()));
    assert_eq!(escaped_transform_after_transform(input, replaced, &mut acc), Move::Accept(4));
    assert_eq!(acc, b"ab\n".to_vec());
    let short: &[u8] = b"ab\\";
    let failed: IResult<'_, u8, &[u8]> = backtrack(&short[2..], ErrorKind::Alpha);
    assert_eq!(
        escaped_transform_after_normal(short, 2, &short[2..], '\\', failed, &mut acc),
        Move::Fail(ErrMode::Backtrack(Error::new(&short[2..], ErrorKind::EscapedTransform)))
    );
}

#[test]
fn escaped_transform_replaces_escapes() {
    fn transform(i: &[char]) -> IResult<'_, char, Vec<char>> {
        let quote = chars("\"");
        let n = chars("n");
        if let Ok((rest, _)) = tag(&quote, i) {
            return Ok((rest, chars("\"")));
        }
        match tag(&n, i) {
            Ok((rest, _)) => Ok((rest, chars("\n"))),
            Err(e) => Err(e),
        }
    }
    fn alpha1c(i: &[char]) -> IResult<'_, char, &[char]> {
        take_while1(|c: char| c.is_ascii_alphabetic(), i)
    }
    let run = |s: &str| {
        let input = chars(s);
        escaped_transform(alpha1c, '\\', transform, &input)
            .map(|(rest, o)| (rest.iter().collect::<String>(), o.iter().collect::<String>()))
            .map_err(|e| match e {
                ErrMode::Backtrack(e) => (e.input.iter().collect::<String>(), e.kind),
                _ => panic!("unexpected error mode"),
            })
    };
    assert_eq!(run("ab\\\"cd"), ok("", "ab\"cd"));
    assert_eq!(run("ab\\ncd"), ok("", "ab\ncd"));
    assert_eq!(run(""), ok("", ""));
    assert_eq!(run(";"), fail(";", ErrorKind::EscapedTransform));
    assert_eq!(run("ab;"), ok(";", "ab"));
}

#[test]
fn scans_share_their_stopping_point() {
    // The non-empty scans take what the scans that may take nothing take.
    let input: &[u8] = b"abc123";
    assert_eq!(take_while1(is_alpha, input), take_while(is_alpha, input));
    assert_eq!(is_a(is_alpha, input), take_while(is_alpha, input));
    let digit = |c: u8| c.is_ascii_digit();
    assert_eq!(take_till1(digit, input), take_till(digit, input));
    assert_eq!(is_not(digit, input), take_till(digit, input));
    assert_eq!(offset_for(input, &digit, true), 3);
    assert_eq!(offset_for(input, &is_alpha, false), 3);
    // The output followed by the remainder is the input.
    if let Ok((rest, out)) = take_while(is_alpha, input) {
        assert_eq!([out, rest].concat(), input.to_vec());
    }
}

#[test]
fn take_until_then_tag() {
    let input: &[u8] = b"key=value";
    let (rest, key) = take_until(b"=", input).unwrap();
    assert_eq!(key, b"key");
    assert_eq!(tag(b"=", rest), Ok((&b"value"[..], &b"="[..])));
    assert_eq!(find_slice(input, b"=v"), Some(3));
    assert_eq!(find_slice(input, b"=x"), None);
}

#[test]
fn tag_no_case_accepts_what_tag_accepts() {
    for input in [&b"abc"[..], &b"ABC"[..], &b"abd"[..]] {
        if tag(b"ab", input).is_ok() {
            assert_eq!(tag_no_case(b"ab", input), tag(b"ab", input));
        }
    }
    assert!(tag(b"ab", b"ABC").is_err());
    assert!(tag_no_case(b"ab", b"ABC").is_ok());
}

#[test]
fn one_of_and_none_of_are_complementary() {
    let vowel = |c: u8| b"aeiou".contains(&c);
    for input in [&b"abc"[..], &b"bca"[..], &b"u"[..], &b"z"[..]] {
        assert_ne!(one_of_internal(input, &vowel).is_ok(), none_of_internal(input, &vowel).is_ok());
    }
}

#[test]
fn take_while_m_n_output_within_bounds() {
    for input in [&b"a"[..], &b"ab1"[..], &b"abcdefghij"[..], &b"1"[..], &b""[..]] {
        if let Ok((rest, out)) = take_while_m_n(2, 5, is_alpha, input) {
            assert!(2 <= out.len() && out.len() <= 5);
            assert_eq!([out, rest].concat(), input.to_vec());
        }
    }
}

#[test]
fn escaped_transform_agrees_with_escaped() {
    fn escapable(i: &[u8]) -> IResult<'_, u8, u8> {
        one_of_internal(i, &|c: u8| b"n\\".contains(&c))
    }
    fn transform(i: &[u8]) -> IResult<'_, u8, Vec<u8>> {
        match escapable(i) {
            Ok((rest, c)) => Ok((rest, vec![c])),
            Err(e) => Err(e),
        }
    }
    for input in [&b"ab\\ncd;"[..], &b"ab\\"[..], &b";x"[..], &b"ab\\xcd"[..], &b""[..], &b"abc"[..]] {
        let e = escaped(alpha1, '\\', escapable, input);
        let t = escaped_transform(alpha1, '\\', transform, input);
        assert_eq!(e.is_ok(), t.is_ok());
        match (e, t) {
            (Ok((rest_e, _)), Ok((rest_t, _))) => assert_eq!(rest_e, rest_t),
            (Err(ErrMode::Backtrack(a)), Err(ErrMode::Backtrack(b))) => {
                if a.kind == ErrorKind::Escaped {
                    assert_eq!(a.input, input);
                    assert_eq!(b.kind, ErrorKind::EscapedTransform);
                } else {
                    assert_eq!(a, b);
                }
            },
            _ => panic!("the two scans disagree"),
        }
    }
}
