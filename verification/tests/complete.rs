use winnow::bytes::complete::{
    escaped, escaped_transform, none_of_internal, one_of_internal, tag, take_while, take_while1,
    take_while_m_n,
};
use winnow::error::{ErrMode, Error, ErrorKind};
use winnow::IResult;

fn chars(s: &str) -> Vec<char> {
    s.chars().collect()
}

fn to_s(i: Vec<u8>) -> String {
    String::from_utf8_lossy(&i).into_owned()
}

fn retag<'a, T, O>(r: IResult<'a, T, O>, kind: ErrorKind) -> IResult<'a, T, O> {
    match r {
        Err(ErrMode::Backtrack(e)) => Err(ErrMode::Backtrack(Error::new(e.input, kind))),
        other => other,
    }
}

fn alpha1_bytes(i: &[u8]) -> IResult<'_, u8, &[u8]> {
    retag(take_while1(|c: u8| c.is_ascii_alphabetic(), i), ErrorKind::Alpha)
}

fn digit1_bytes(i: &[u8]) -> IResult<'_, u8, &[u8]> {
    retag(take_while1(|c: u8| c.is_ascii_digit(), i), ErrorKind::Digit)
}

fn alpha1_chars(i: &[char]) -> IResult<'_, char, &[char]> {
    retag(take_while1(|c: char| c.is_ascii_alphabetic(), i), ErrorKind::Alpha)
}

fn alpha0_chars(i: &[char]) -> IResult<'_, char, &[char]> {
    take_while(|c: char| c.is_ascii_alphabetic(), i)
}

fn digit1_chars(i: &[char]) -> IResult<'_, char, &[char]> {
    retag(take_while1(|c: char| c.is_ascii_digit(), i), ErrorKind::Digit)
}

fn one_of_bytes<'a>(list: &'static [u8], i: &'a [u8]) -> IResult<'a, u8, u8> {
    one_of_internal(i, &|c: u8| list.contains(&c))
}

fn one_of_chars<'a>(list: &str, i: &'a [char]) -> IResult<'a, char, char> {
    let list = chars(list);
    one_of_internal(i, &|c: char| list.contains(&c))
}

fn none_of_chars<'a>(list: &str, i: &'a [char]) -> IResult<'a, char, char> {
    let list = chars(list);
    none_of_internal(i, &|c: char| list.contains(&c))
}

fn char_chars(c: char, i: &[char]) -> IResult<'_, char, char> {
    match one_of_internal(i, &|t: char| t == c) {
        Err(ErrMode::Backtrack(e)) => Err(ErrMode::Backtrack(Error::new(e.input, ErrorKind::Char))),
        other => other,
    }
}

#[test]
fn complete_take_while_m_n_utf8_all_matching() {
    let input = chars("øn");
    let result: IResult<'_, char, &[char]> = take_while_m_n(1, 4, |c: char| c.is_alphabetic(), &input);
    assert_eq!(result, Ok((&chars("")[..], &chars("øn")[..])));
}

#[test]
fn complete_take_while_m_n_utf8_all_matching_substring() {
    let input = chars("øn");
    let result: IResult<'_, char, &[char]> = take_while_m_n(1, 1, |c: char| c.is_alphabetic(), &input);
    assert_eq!(result, Ok((&chars("n")[..], &chars("ø")[..])));
}

fn escaped_string(input: &[char]) -> IResult<'_, char, &[char]> {
    escaped(alpha0_chars, '\\', |i| one_of_chars("n", i), input)
}

#[test]
fn escaped_hang() {
    escaped_string(&chars("7")).unwrap();
    escaped_string(&chars("a7")).unwrap();
}

fn unquote(input: &[char]) -> IResult<'_, char, &[char]> {
    let (i, _) = char_chars('"', input)?;
    let opt_none_of = |i| match none_of_chars("\\\"", i) {
        Ok((rest, c)) => Ok((rest, Some(c))),
        Err(ErrMode::Backtrack(_)) => Ok((i, None)),
        Err(e) => Err(e),
    };
    let (i, o) = escaped(opt_none_of, '\\', |i| one_of_chars("\\\"rnt", i), i)?;
    let (i, _) = char_chars('"', i)?;
    Ok((i, o))
}

#[test]
fn escaped_hang_1118() {
    let input = chars("\"\"");
    assert_eq!(unquote(&input), Ok((&chars("")[..], &chars("")[..])));
}

#[test]
fn escaping() {
    fn esc(i: &[u8]) -> IResult<'_, u8, &[u8]> {
        escaped(alpha1_bytes, '\\', |i| one_of_bytes(b"\"n\\", i), i)
    }
    assert_eq!(esc(&b"abcd;"[..]), Ok((&b";"[..], &b"abcd"[..])));
    assert_eq!(esc(&b"ab\\\"cd;"[..]), Ok((&b";"[..], &b"ab\\\"cd"[..])));
    assert_eq!(esc(&b"\\\"abcd;"[..]), Ok((&b";"[..], &b"\\\"abcd"[..])));
    assert_eq!(esc(&b"\\n;"[..]), Ok((&b";"[..], &b"\\n"[..])));
    assert_eq!(esc(&b"ab\\\"12"[..]), Ok((&b"12"[..], &b"ab\\\""[..])));
    assert_eq!(
        esc(&b"AB\\"[..]),
        Err(ErrMode::Backtrack(Error::new(&b"AB\\"[..], ErrorKind::Escaped)))
    );
    assert_eq!(
        esc(&b"AB\\A"[..]),
        Err(ErrMode::Backtrack(Error::new(&b"A"[..], ErrorKind::OneOf)))
    );

    fn esc2(i: &[u8]) -> IResult<'_, u8, &[u8]> {
        escaped(digit1_bytes, '\\', |i| one_of_bytes(b"\"n\\", i), i)
    }
    assert_eq!(esc2(&b"12\\nnn34"[..]), Ok((&b"nn34"[..], &b"12\\n"[..])));
}

#[test]
fn escaping_str() {
    fn esc(i: &[char]) -> IResult<'_, char, &[char]> {
        escaped(alpha1_chars, '\\', |i| one_of_chars("\"n\\", i), i)
    }
    assert_eq!(esc(&chars("abcd;")), Ok((&chars(";")[..], &chars("abcd")[..])));
    assert_eq!(esc(&chars("ab\\\"cd;")), Ok((&chars(";")[..], &chars("ab\\\"cd")[..])));
    assert_eq!(esc(&chars("\\\"abcd;")), Ok((&chars(";")[..], &chars("\\\"abcd")[..])));
    assert_eq!(esc(&chars("\\n;")), Ok((&chars(";")[..], &chars("\\n")[..])));
    assert_eq!(esc(&chars("ab\\\"12")), Ok((&chars("12")[..], &chars("ab\\\"")[..])));
    assert_eq!(
        esc(&chars("AB\\")),
        Err(ErrMode::Backtrack(Error::new(&chars("AB\\")[..], ErrorKind::Escaped)))
    );
    assert_eq!(
        esc(&chars("AB\\A")),
        Err(ErrMode::Backtrack(Error::new(&chars("A")[..], ErrorKind::OneOf)))
    );

    fn esc2(i: &[char]) -> IResult<'_, char, &[char]> {
        escaped(digit1_chars, '\\', |i| one_of_chars("\"n\\", i), i)
    }
    assert_eq!(esc2(&chars("12\\nnn34")), Ok((&chars("nn34")[..], &chars("12\\n")[..])));

    fn esc3(i: &[char]) -> IResult<'_, char, &[char]> {
        escaped(alpha1_chars, '\u{241b}', |i| one_of_chars("\"n", i), i)
    }
    assert_eq!(esc3(&chars("ab␛ncd;")), Ok((&chars(";")[..], &chars("ab␛ncd")[..])));
}

/// Tries each `(replacement, pattern)` in turn: the first pattern that the
/// input begins with is consumed and its replacement is the output; if none
/// matches, the error of the last one is returned.
fn alt_values<'a, T: winnow::input::AsChar + 'a, V: Clone>(
    choices: &[(V, Vec<T>)],
    i: &'a [T],
) -> IResult<'a, T, V> {
    let mut last = Err(ErrMode::Backtrack(Error::new(i, ErrorKind::Alt)));
    for (v, pattern) in choices {
        match tag(pattern, i) {
            Ok((rest, _)) => return Ok((rest, v.clone())),
            Err(ErrMode::Backtrack(e)) => last = Err(ErrMode::Backtrack(e)),
            Err(e) => return Err(e),
        }
    }
    last
}

#[test]
fn escape_transform() {
    fn esc(i: &[u8]) -> IResult<'_, u8, String> {
        let choices: Vec<(&'static [u8], Vec<u8>)> = vec![
            (&b"\\"[..], b"\\".to_vec()),
            (&b"\""[..], b"\"".to_vec()),
            (&b"\n"[..], b"n".to_vec()),
        ];
        escaped_transform(alpha1_bytes, '\\', |i| alt_values(&choices, i), i)
            .map(|(rest, o)| (rest, to_s(o)))
    }

    assert_eq!(esc(&b"abcd;"[..]), Ok((&b";"[..], String::from("abcd"))));
    assert_eq!(esc(&b"ab\\\"cd;"[..]), Ok((&b";"[..], String::from("ab\"cd"))));
    assert_eq!(esc(&b"\\\"abcd;"[..]), Ok((&b";"[..], String::from("\"abcd"))));
    assert_eq!(esc(&b"\\n;"[..]), Ok((&b";"[..], String::from("\n"))));
    assert_eq!(esc(&b"ab\\\"12"[..]), Ok((&b"12"[..], String::from("ab\""))));
    assert_eq!(
        esc(&b"AB\\"[..]),
        Err(ErrMode::Backtrack(Error::new(&b"\\"[..], ErrorKind::EscapedTransform)))
    );
    assert_eq!(
        esc(&b"AB\\A"[..]),
        Err(ErrMode::Backtrack(Error::new(&b"A"[..], ErrorKind::Tag)))
    );

    fn esc2(i: &[u8]) -> IResult<'_, u8, String> {
        let choices: Vec<(&'static [u8], Vec<u8>)> = vec![
            ("è".as_bytes(), b"egrave;".to_vec()),
            ("à".as_bytes(), b"agrave;".to_vec()),
        ];
        escaped_transform(alpha1_bytes, '&', |i| alt_values(&choices, i), i)
            .map(|(rest, o)| (rest, to_s(o)))
    }
    assert_eq!(esc2(&b"ab&egrave;DEF;"[..]), Ok((&b";"[..], String::from("abèDEF"))));
    assert_eq!(esc2(&b"ab&egrave;D&agrave;EF;"[..]), Ok((&b";"[..], String::from("abèDàEF"))));
}

#[test]
fn escape_transform_str() {
    fn run<'a>(
        control: char,
        choices: &[(Vec<char>, Vec<char>)],
        i: &'a [char],
    ) -> IResult<'a, char, String> {
        escaped_transform(alpha1_chars, control, |i| alt_values(choices, i), i)
            .map(|(rest, o)| (rest, o.into_iter().collect::<String>()))
    }
    let escapes = vec![
        (chars("\\"), chars("\\")),
        (chars("\""), chars("\"")),
        (chars("\n"), chars("n")),
    ];
    let esc = |s: &str| {
        let input = chars(s);
        run('\\', &escapes, &input)
            .map(|(rest, o)| (rest.iter().collect::<String>(), o))
            .map_err(|e| match e {
                ErrMode::Backtrack(e) => {
                    ErrMode::Backtrack(Error::new(e.input.iter().collect::<String>(), e.kind))
                },
                ErrMode::Cut(e) => ErrMode::Cut(Error::new(e.input.iter().collect::<String>(), e.kind)),
                ErrMode::Incomplete(n) => ErrMode::Incomplete(n),
            })
    };

    assert_eq!(esc("abcd;"), Ok((String::from(";"), String::from("abcd"))));
    assert_eq!(esc("ab\\\"cd;"), Ok((String::from(";"), String::from("ab\"cd"))));
    assert_eq!(esc("\\\"abcd;"), Ok((String::from(";"), String::from("\"abcd"))));
    assert_eq!(esc("\\n;"), Ok((String::from(";"), String::from("\n"))));
    assert_eq!(esc("ab\\\"12"), Ok((String::from("12"), String::from("ab\""))));
    let input = chars("AB\\");
    assert_eq!(
        run('\\', &escapes, &input),
        Err(ErrMode::Backtrack(Error::new(&chars("\\")[..], ErrorKind::EscapedTransform)))
    );
    let input = chars("AB\\A");
    assert_eq!(
        run('\\', &escapes, &input),
        Err(ErrMode::Backtrack(Error::new(&chars("A")[..], ErrorKind::Tag)))
    );

    let entities = vec![(chars("è"), chars("egrave;")), (chars("à"), chars("agrave;"))];
    let input = chars("ab&egrave;DEF;");
    assert_eq!(
        run('&', &entities, &input),
        Ok((&chars(";")[..], String::from("abèDEF")))
    );
    let input = chars("ab&egrave;D&agrave;EF;");
    assert_eq!(
        run('&', &entities, &input),
        Ok((&chars(";")[..], String::from("abèDàEF")))
    );

    let controls = vec![(chars("\0"), chars("0")), (chars("\n"), chars("n"))];
    let input = chars("a␛0bc␛n");
    assert_eq!(
        run('␛', &controls, &input),
        Ok((&chars("")[..], String::from("a\0bc\n")))
    );
}
