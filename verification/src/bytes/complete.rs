//! Parsers recognizing token streams, complete input version.
use vstd::prelude::*;
use vstd::slice::slice_subrange;

use crate::error::{ErrMode, Error, ErrorKind};
use crate::input::{
    callable, find_slice, first_occurrence_at, matches_at, matches_no_case, occurs_at, offset_for,
    starts_with, starts_with_no_case, stops_at, AsChar, ExtendInto,
};
use crate::IResult;

verus! {

/// The success of a parser that consumed the first `n` tokens of `input` and
/// returned them as its output.
pub open spec fn splits_at<'a, T>(input: &'a [T], n: int, r: IResult<'a, T, &'a [T]>) -> bool {
    &&& 0 <= n <= input@.len()
    &&& r matches Ok((rest, out))
    &&& out@ == input@.take(n)
    &&& rest@ == input@.skip(n)
}

/// The failure `Backtrack` with the default error at `input` of `kind`.
pub open spec fn backtracks<'a, T, O>(input: &'a [T], kind: ErrorKind, r: IResult<'a, T, O>) -> bool {
    r == Err::<(&'a [T], O), _>(ErrMode::Backtrack(Error { input, kind }))
}

/// Splits `input` after its first `n` tokens: the remainder and the taken prefix.
fn next_slice<'a, T>(input: &'a [T], n: usize) -> (r: (&'a [T], &'a [T]))
    requires
        n <= input@.len(),
    ensures
        r.0@ == input@.skip(n as int),
        r.1@ == input@.take(n as int),
{
    let taken = slice_subrange(input, 0, n);
    let rest = slice_subrange(input, n, input.len());
    (rest, taken)
}

/// Returns an input slice containing the first `count` input tokens.
///
/// Fails with `ErrorKind::Eof` if the input is shorter than `count`.
pub fn take<'a, T>(count: usize, input: &'a [T]) -> (r: IResult<'a, T, &'a [T]>)
    ensures
        count <= input@.len() ==> splits_at(input, count as int, r),
        count > input@.len() ==> backtracks(input, ErrorKind::Eof, r),
{
    if count <= input.len() {
        Ok(next_slice(input, count))
    } else {
        Err(ErrMode::Backtrack(Error::new(input, ErrorKind::Eof)))
    }
}

/// Returns the first token of the input.
///
/// Fails with `ErrorKind::Eof` if the input is empty.
pub fn any<'a, T: Copy>(input: &'a [T]) -> (r: IResult<'a, T, T>)
    ensures
        input@.len() > 0 ==> (r matches Ok((rest, t)) && t == input@[0] && rest@ == input@.skip(1)),
        input@.len() == 0 ==> backtracks(input, ErrorKind::Eof, r),
{
    if input.len() > 0 {
        let t = input[0];
        let rest = slice_subrange(input, 1, input.len());
        Ok((rest, t))
    } else {
        Err(ErrMode::Backtrack(Error::new(input, ErrorKind::Eof)))
    }
}

/// Recognizes a pattern: the input must begin with `pattern`, which is then
/// returned as the output.
///
/// Fails with `ErrorKind::Tag` if the input does not begin with `pattern`.
pub fn tag<'a, T: AsChar>(pattern: &[T], input: &'a [T]) -> (r: IResult<'a, T, &'a [T]>)
    ensures
        starts_with(input@, pattern@) ==> splits_at(input, pattern@.len() as int, r),
        !starts_with(input@, pattern@) ==> backtracks(input, ErrorKind::Tag, r),
{
    if matches_at(input, pattern, 0) {
        Ok(next_slice(input, pattern.len()))
    } else {
        Err(ErrMode::Backtrack(Error::new(input, ErrorKind::Tag)))
    }
}

/// Recognizes a pattern with no regard to case: the input must begin with
/// `pattern` once case is ignored; the matching part of the input is returned.
///
/// Fails with `ErrorKind::Tag` if the input does not begin with `pattern`.
pub fn tag_no_case<'a, T: AsChar>(pattern: &[T], input: &'a [T]) -> (r: IResult<'a, T, &'a [T]>)
    ensures
        starts_with_no_case(input@, pattern@) ==> splits_at(input, pattern@.len() as int, r),
        !starts_with_no_case(input@, pattern@) ==> backtracks(input, ErrorKind::Tag, r),
{
    if matches_no_case(input, pattern) {
        Ok(next_slice(input, pattern.len()))
    } else {
        Err(ErrMode::Backtrack(Error::new(input, ErrorKind::Tag)))
    }
}

/// The result of a parser that takes the first token when `list` answers
/// `want` on it, and fails with `kind` otherwise.
pub open spec fn first_token_result<'a, T, P: Fn(T) -> bool>(
    list: P,
    want: bool,
    kind: ErrorKind,
    input: &'a [T],
    r: IResult<'a, T, T>,
) -> bool {
    match r {
        Ok((rest, t)) => {
            &&& input@.len() > 0
            &&& call_ensures(list, (input@[0],), want)
            &&& t == input@[0]
            &&& rest@ == input@.skip(1)
        },
        Err(_) => {
            &&& backtracks(input, kind, r)
            &&& input@.len() > 0 ==> call_ensures(list, (input@[0],), !want)
        },
    }
}

/// Returns the first token if `list` accepts it.
///
/// Fails with `ErrorKind::OneOf` if the input is empty or `list` rejects the
/// first token.
pub fn one_of_internal<'a, T: Copy, P: Fn(T) -> bool>(input: &'a [T], list: &P) -> (r: IResult<
    'a,
    T,
    T,
>)
    requires
        callable(*list),
    ensures
        first_token_result(*list, true, ErrorKind::OneOf, input, r),
{
    if input.len() > 0 {
        let t = input[0];
        if list(t) {
            let rest = slice_subrange(input, 1, input.len());
            return Ok((rest, t));
        }
    }
    Err(ErrMode::Backtrack(Error::new(input, ErrorKind::OneOf)))
}

/// Returns the first token if `list` rejects it.
///
/// Fails with `ErrorKind::NoneOf` if the input is empty or `list` accepts the
/// first token.
pub fn none_of_internal<'a, T: Copy, P: Fn(T) -> bool>(input: &'a [T], list: &P) -> (r: IResult<
    'a,
    T,
    T,
>)
    requires
        callable(*list),
    ensures
        first_token_result(*list, false, ErrorKind::NoneOf, input, r),
{
    if input.len() > 0 {
        let t = input[0];
        if !list(t) {
            let rest = slice_subrange(input, 1, input.len());
            return Ok((rest, t));
        }
    }
    Err(ErrMode::Backtrack(Error::new(input, ErrorKind::NoneOf)))
}

/// The result of a scan that stops at the first token on which `pred` answers
/// `stop` and never fails: the tokens before that point are the output.
pub open spec fn scan_result<'a, T, P: Fn(T) -> bool>(
    pred: P,
    stop: bool,
    input: &'a [T],
    r: IResult<'a, T, &'a [T]>,
) -> bool {
    r matches Ok((rest, out)) && stops_at(pred, input@, out@.len() as int, stop) && splits_at(
        input,
        out@.len() as int,
        r,
    )
}

/// The result of a scan that stops at the first token on which `pred` answers
/// `stop` and fails with `kind` when it stops at the first token.
pub open spec fn scan1_result<'a, T, P: Fn(T) -> bool>(
    pred: P,
    stop: bool,
    kind: ErrorKind,
    input: &'a [T],
    r: IResult<'a, T, &'a [T]>,
) -> bool {
    match r {
        Ok((rest, out)) => {
            &&& out@.len() > 0
            &&& stops_at(pred, input@, out@.len() as int, stop)
            &&& splits_at(input, out@.len() as int, r)
        },
        Err(_) => {
            &&& stops_at(pred, input@, 0, stop)
            &&& backtracks(input, kind, r)
        },
    }
}

/// Splits the input before the first token on which `pred` answers `stop`;
/// never fails.
fn split_at_offset_complete<'a, T: Copy, P: Fn(T) -> bool>(
    input: &'a [T],
    pred: &P,
    stop: bool,
) -> (r: IResult<'a, T, &'a [T]>)
    requires
        callable(*pred),
    ensures
        scan_result(*pred, stop, input, r),
{
    let k = offset_for(input, pred, stop);
    Ok(next_slice(input, k))
}

/// Splits the input before the first token on which `pred` answers `stop`;
/// fails with `kind` if that is the first token or the input is empty.
fn split_at_offset1_complete<'a, T: Copy, P: Fn(T) -> bool>(
    input: &'a [T],
    pred: &P,
    stop: bool,
    kind: ErrorKind,
) -> (r: IResult<'a, T, &'a [T]>)
    requires
        callable(*pred),
    ensures
        scan1_result(*pred, stop, kind, input, r),
{
    let k = offset_for(input, pred, stop);
    if k == 0 {
        Err(ErrMode::Backtrack(Error::new(input, kind)))
    } else {
        Ok(next_slice(input, k))
    }
}

/// Parses till one of the tokens accepted by `arr` is met: returns the longest
/// (non-empty) slice of tokens that `arr` rejects. The accepted token is not
/// consumed.
///
/// Fails with `ErrorKind::IsNot` if no token is taken.
pub fn is_not<'a, T: Copy, P: Fn(T) -> bool>(arr: P, input: &'a [T]) -> (r: IResult<
    'a,
    T,
    &'a [T],
>)
    requires
        callable(arr),
    ensures
        scan1_result(arr, true, ErrorKind::IsNot, input, r),
{
    split_at_offset1_complete(input, &arr, true, ErrorKind::IsNot)
}

/// Returns the longest (non-empty) slice of tokens that `arr` accepts.
///
/// Fails with `ErrorKind::IsA` if no token is taken.
pub fn is_a<'a, T: Copy, P: Fn(T) -> bool>(arr: P, input: &'a [T]) -> (r: IResult<
    'a,
    T,
    &'a [T],
>)
    requires
        callable(arr),
    ensures
        scan1_result(arr, false, ErrorKind::IsA, input, r),
{
    split_at_offset1_complete(input, &arr, false, ErrorKind::IsA)
}

/// Returns the longest (possibly empty) slice of tokens that `list` accepts.
pub fn take_while<'a, T: Copy, P: Fn(T) -> bool>(list: P, input: &'a [T]) -> (r: IResult<
    'a,
    T,
    &'a [T],
>)
    requires
        callable(list),
    ensures
        scan_result(list, false, input, r),
{
    split_at_offset_complete(input, &list, false)
}

/// Returns the longest (non-empty) slice of tokens that `list` accepts.
///
/// Fails with `ErrorKind::TakeWhile1` if no token is taken.
pub fn take_while1<'a, T: Copy, P: Fn(T) -> bool>(list: P, input: &'a [T]) -> (r: IResult<
    'a,
    T,
    &'a [T],
>)
    requires
        callable(list),
    ensures
        scan1_result(list, false, ErrorKind::TakeWhile1, input, r),
{
    split_at_offset1_complete(input, &list, false, ErrorKind::TakeWhile1)
}

/// How many tokens `take_while_m_n` takes when the accepted prefix has `k`
/// tokens, if it succeeds: the prefix cut to at most `n` tokens, provided that
/// leaves at least `m`.
pub open spec fn m_n_count(k: int, m: int, n: int) -> Option<int> {
    let c = if k <= n { k } else { n };
    if c >= m {
        Some(c)
    } else {
        None
    }
}

/// Returns the longest slice of tokens that `list` accepts, of at least `m`
/// and at most `n` tokens.
///
/// Fails with `ErrorKind::TakeWhileMN` if no such slice exists: fewer than `m`
/// tokens are accepted, or `n` is less than `m`.
pub fn take_while_m_n<'a, T: Copy, P: Fn(T) -> bool>(
    m: usize,
    n: usize,
    list: P,
    input: &'a [T],
) -> (r: IResult<'a, T, &'a [T]>)
    requires
        callable(list),
    ensures
        exists|k: int|
            {
                &&& stops_at(list, input@, k, false)
                &&& match m_n_count(k, m as int, n as int) {
                    Some(c) => splits_at(input, c, r),
                    None => backtracks(input, ErrorKind::TakeWhileMN, r),
                }
            },
{
    let k = offset_for(input, &list, false);
    let c = if k <= n {
        k
    } else {
        n
    };
    if c >= m {
        Ok(next_slice(input, c))
    } else {
        Err(ErrMode::Backtrack(Error::new(input, ErrorKind::TakeWhileMN)))
    }
}

/// Returns the longest (possibly empty) slice of tokens before the first token
/// that `list` accepts.
pub fn take_till<'a, T: Copy, P: Fn(T) -> bool>(list: P, input: &'a [T]) -> (r: IResult<
    'a,
    T,
    &'a [T],
>)
    requires
        callable(list),
    ensures
        scan_result(list, true, input, r),
{
    split_at_offset_complete(input, &list, true)
}

/// Returns the longest (non-empty) slice of tokens before the first token that
/// `list` accepts.
///
/// Fails with `ErrorKind::TakeTill1` if the input is empty or `list` accepts
/// its first token.
pub fn take_till1<'a, T: Copy, P: Fn(T) -> bool>(list: P, input: &'a [T]) -> (r: IResult<
    'a,
    T,
    &'a [T],
>)
    requires
        callable(list),
    ensures
        scan1_result(list, true, ErrorKind::TakeTill1, input, r),
{
    split_at_offset1_complete(input, &list, true, ErrorKind::TakeTill1)
}

/// Returns the input slice up to the first occurrence of `pattern`, which is not
/// consumed.
///
/// Fails with `ErrorKind::TakeUntil` if `pattern` does not occur in the input.
pub fn take_until<'a, T: AsChar>(pattern: &[T], input: &'a [T]) -> (r: IResult<'a, T, &'a [T]>)
    ensures
        match r {
            Ok((_, out)) => {
                &&& first_occurrence_at(input@, pattern@, out@.len() as int)
                &&& splits_at(input, out@.len() as int, r)
            },
            Err(_) => {
                &&& forall|j: int| !occurs_at(input@, pattern@, j)
                &&& backtracks(input, ErrorKind::TakeUntil, r)
            },
        },
{
    match find_slice(input, pattern) {
        Some(offset) => Ok(next_slice(input, offset)),
        None => Err(ErrMode::Backtrack(Error::new(input, ErrorKind::TakeUntil))),
    }
}

/// Returns the non-empty input slice up to the first occurrence of `pattern`, which
/// is not consumed.
///
/// Fails with `ErrorKind::TakeUntil` if `pattern` does not occur in the input, or
/// occurs first at its start.
pub fn take_until1<'a, T: AsChar>(pattern: &[T], input: &'a [T]) -> (r: IResult<'a, T, &'a [T]>)
    ensures
        match r {
            Ok((_, out)) => {
                &&& out@.len() > 0
                &&& first_occurrence_at(input@, pattern@, out@.len() as int)
                &&& splits_at(input, out@.len() as int, r)
            },
            Err(_) => {
                &&& (forall|j: int| !occurs_at(input@, pattern@, j)) || occurs_at(
                    input@,
                    pattern@,
                    0,
                )
                &&& backtracks(input, ErrorKind::TakeUntil, r)
            },
        },
{
    match find_slice(input, pattern) {
        Some(offset) => {
            if offset == 0 {
                Err(ErrMode::Backtrack(Error::new(input, ErrorKind::TakeUntil)))
            } else {
                Ok(next_slice(input, offset))
            }
        },
        None => Err(ErrMode::Backtrack(Error::new(input, ErrorKind::TakeUntil))),
    }
}

/// A parser that can be called on every input and that, when it succeeds,
/// leaves a suffix of its input as the remaining input.
pub open spec fn well_behaved<'a, T: 'a, O, F: Fn(&'a [T]) -> IResult<'a, T, O>>(f: F) -> bool {
    &&& forall|s: &'a [T]| call_requires(f, (s,))
    &&& forall|s: &'a [T], r: IResult<'a, T, O>|
        #[trigger] call_ensures(f, (s,), r) ==> (r matches Ok((rest, _)) ==> {
            &&& rest@.len() <= s@.len()
            &&& rest@ == s@.skip(s@.len() - rest@.len())
        })
}

/// Where one step of an escaped scan leads.
#[derive(Debug, Clone, Copy, PartialEq, Eq)]
pub enum Move<E> {
    /// Go on scanning at this position.
    Resume(usize),
    /// Call the parser of escaped tokens at this position.
    Escape(usize),
    /// Stop and accept the tokens before this position.
    Accept(usize),
    /// Stop and fail with this error.
    Fail(E),
}

/// The error that an escaped scan of `input` fails with.
pub open spec fn escaped_error<'a, T>(input: &'a [T]) -> ErrMode<Error<&'a [T]>> {
    ErrMode::Backtrack(Error { input, kind: ErrorKind::Escaped })
}

/// Where `escaped` goes after the normal parser answered `r1` at position `pos`
/// of `input`.
pub open spec fn after_normal<'a, T: AsChar, O1>(
    input: &'a [T],
    pos: usize,
    control_char: char,
    r1: IResult<'a, T, O1>,
) -> Move<ErrMode<Error<&'a [T]>>> {
    let len = input@.len();
    match r1 {
        Ok((rest, _)) => {
            if rest@.len() == 0 {
                Move::Accept(len as usize)
            } else if rest@.len() == len - pos {
                Move::Accept(pos)
            } else {
                Move::Resume((len - rest@.len()) as usize)
            }
        },
        Err(ErrMode::Backtrack(_)) => {
            if input@[pos as int].spec_as_char() == control_char {
                let next = T::spec_char_len(control_char);
                if next >= len - pos {
                    Move::Fail(escaped_error(input))
                } else {
                    Move::Escape((pos + next) as usize)
                }
            } else if pos == 0 {
                Move::Fail(escaped_error(input))
            } else {
                Move::Accept(pos)
            }
        },
        Err(e) => Move::Fail(e),
    }
}

/// Where `escaped` goes after the parser of escaped tokens answered `r2`.
pub open spec fn after_escapable<'a, T, O2>(input: &'a [T], r2: IResult<'a, T, O2>) -> Move<
    ErrMode<Error<&'a [T]>>,
> {
    match r2 {
        Ok((rest, _)) => {
            if rest@.len() == 0 {
                Move::Accept(input@.len() as usize)
            } else {
                Move::Resume((input@.len() - rest@.len()) as usize)
            }
        },
        Err(e) => Move::Fail(e),
    }
}

/// Decides what `escaped` does after the normal parser answered `r1` at
/// position `pos` of `input`.
pub fn escaped_after_normal<'a, T: AsChar, O1>(
    input: &'a [T],
    pos: usize,
    control_char: char,
    r1: IResult<'a, T, O1>,
) -> (m: Move<ErrMode<Error<&'a [T]>>>)
    requires
        pos < input@.len(),
        r1 matches Ok((rest, _)) ==> rest@.len() <= input@.len() - pos,
    ensures
        m == after_normal(input, pos, control_char, r1),
{
    let len = input.len();
    match r1 {
        Ok((rest, _)) => {
            if rest.len() == 0 {
                Move::Accept(len)
            } else if rest.len() == len - pos {
                Move::Accept(pos)
            } else {
                Move::Resume(len - rest.len())
            }
        },
        Err(ErrMode::Backtrack(_)) => {
            if input[pos].as_char() == control_char {
                let next = T::char_len(control_char);
                if next >= len - pos {
                    Move::Fail(ErrMode::Backtrack(Error::new(input, ErrorKind::Escaped)))
                } else {
                    Move::Escape(pos + next)
                }
            } else if pos == 0 {
                Move::Fail(ErrMode::Backtrack(Error::new(input, ErrorKind::Escaped)))
            } else {
                Move::Accept(pos)
            }
        },
        Err(e) => Move::Fail(e),
    }
}

/// Decides what `escaped` does after the parser of escaped tokens answered `r2`.
pub fn escaped_after_escapable<'a, T, O2>(input: &'a [T], r2: IResult<'a, T, O2>) -> (m: Move<
    ErrMode<Error<&'a [T]>>,
>)
    requires
        r2 matches Ok((rest, _)) ==> rest@.len() <= input@.len(),
    ensures
        m == after_escapable(input, r2),
{
    match r2 {
        Ok((rest, _)) => {
            if rest.len() == 0 {
                Move::Accept(input.len())
            } else {
                Move::Resume(input.len() - rest.len())
            }
        },
        Err(e) => Move::Fail(e),
    }
}

/// One round of an escaped scan: the normal parser called at `pos` on `arg`
/// answered `res`; if that led to an escape, the parser of escaped tokens was
/// called on `escape_arg` and answered `escape_res`.
pub struct EscapedRound<'a, T, O1, O2> {
    pub pos: usize,
    pub arg: &'a [T],
    pub res: IResult<'a, T, O1>,
    pub escape_arg: &'a [T],
    pub escape_res: IResult<'a, T, O2>,
}

/// Where a round of `escaped` leads.
pub open spec fn round_move<'a, T: AsChar, O1, O2>(
    input: &'a [T],
    control_char: char,
    round: EscapedRound<'a, T, O1, O2>,
) -> Move<ErrMode<Error<&'a [T]>>> {
    match after_normal(input, round.pos, control_char, round.res) {
        Move::Escape(_) => after_escapable(input, round.escape_res),
        m => m,
    }
}

/// A round of `escaped` that the parsers could have answered so.
pub open spec fn round_valid<'a, T: AsChar, O1, O2, F, G>(
    normal: F,
    control_char: char,
    escapable: G,
    input: &'a [T],
    round: EscapedRound<'a, T, O1, O2>,
) -> bool where
    F: Fn(&'a [T]) -> IResult<'a, T, O1>,
    G: Fn(&'a [T]) -> IResult<'a, T, O2>,
 {
    &&& round.pos < input@.len()
    &&& round.arg@ == input@.skip(round.pos as int)
    &&& call_ensures(normal, (round.arg,), round.res)
    &&& after_normal(input, round.pos, control_char, round.res) matches Move::Escape(q) ==> {
        &&& round.escape_arg@ == input@.skip(q as int)
        &&& call_ensures(escapable, (round.escape_arg,), round.escape_res)
    }
}

/// `rounds` is a run of `escaped` on `input` that ends in `out`: it starts at
/// the first token, each round resumes where the one before led, and the last
/// round stops with `out`.
pub open spec fn escaped_run<'a, T: AsChar, O1, O2, F, G>(
    normal: F,
    control_char: char,
    escapable: G,
    input: &'a [T],
    rounds: Seq<EscapedRound<'a, T, O1, O2>>,
    out: Move<ErrMode<Error<&'a [T]>>>,
) -> bool where
    F: Fn(&'a [T]) -> IResult<'a, T, O1>,
    G: Fn(&'a [T]) -> IResult<'a, T, O2>,
 {
    if input@.len() == 0 {
        rounds.len() == 0 && out == Move::<ErrMode<Error<&'a [T]>>>::Accept(0)
    } else {
        &&& rounds.len() > 0
        &&& rounds[0].pos == 0
        &&& forall|k: int|
            0 <= k < rounds.len() ==> round_valid(
                normal,
                control_char,
                escapable,
                input,
                #[trigger] rounds[k],
            )
        &&& forall|k: int|
            0 <= k < rounds.len() - 1 ==> round_move(input, control_char, #[trigger] rounds[k])
                == Move::<ErrMode<Error<&'a [T]>>>::Resume(rounds[k + 1].pos)
        &&& out == round_move(input, control_char, rounds.last())
        &&& (out is Accept || out is Fail)
    }
}

/// `rounds` is the start of a run of `escaped` on `input` that has led to
/// `pos`.
pub open spec fn run_reaches<'a, T: AsChar, O1, O2, F, G>(
    normal: F,
    control_char: char,
    escapable: G,
    input: &'a [T],
    rounds: Seq<EscapedRound<'a, T, O1, O2>>,
    pos: usize,
) -> bool where
    F: Fn(&'a [T]) -> IResult<'a, T, O1>,
    G: Fn(&'a [T]) -> IResult<'a, T, O2>,
 {
    if rounds.len() == 0 {
        pos == 0
    } else {
        &&& rounds[0].pos == 0
        &&& forall|k: int|
            0 <= k < rounds.len() ==> round_valid(
                normal,
                control_char,
                escapable,
                input,
                #[trigger] rounds[k],
            )
        &&& forall|k: int|
            0 <= k < rounds.len() - 1 ==> round_move(input, control_char, #[trigger] rounds[k])
                == Move::<ErrMode<Error<&'a [T]>>>::Resume(rounds[k + 1].pos)
        &&& round_move(input, control_char, rounds.last())
            == Move::<ErrMode<Error<&'a [T]>>>::Resume(pos)
    }
}

/// A round of `escaped` taken where the run has led extends the run.
proof fn lemma_run_step<'a, T: AsChar, O1, O2, F, G>(
    normal: F,
    control_char: char,
    escapable: G,
    input: &'a [T],
    rounds: Seq<EscapedRound<'a, T, O1, O2>>,
    round: EscapedRound<'a, T, O1, O2>,
) where
    F: Fn(&'a [T]) -> IResult<'a, T, O1>,
    G: Fn(&'a [T]) -> IResult<'a, T, O2>,

    requires
        input@.len() > 0,
        run_reaches(normal, control_char, escapable, input, rounds, round.pos),
        round_valid(normal, control_char, escapable, input, round),
    ensures
        round_move(input, control_char, round) matches Move::Resume(q) ==> run_reaches(
            normal,
            control_char,
            escapable,
            input,
            rounds.push(round),
            q,
        ),
        (round_move(input, control_char, round) is Accept || round_move(
            input,
            control_char,
            round,
        ) is Fail) ==> escaped_run(
            normal,
            control_char,
            escapable,
            input,
            rounds.push(round),
            round_move(input, control_char, round),
        ),
{
    let new_rounds = rounds.push(round);
    assert(new_rounds.last() == round);
    assert forall|k: int| 0 <= k < new_rounds.len() implies round_valid(
        normal,
        control_char,
        escapable,
        input,
        #[trigger] new_rounds[k],
    ) by {
        if k < rounds.len() {
            assert(new_rounds[k] == rounds[k]);
        }
    }
    assert forall|k: int| 0 <= k < new_rounds.len() - 1 implies round_move(
        input,
        control_char,
        #[trigger] new_rounds[k],
    ) == Move::<ErrMode<Error<&'a [T]>>>::Resume(new_rounds[k + 1].pos) by {
        assert(new_rounds[k] == rounds[k]);
        if k < rounds.len() - 1 {
            assert(new_rounds[k + 1] == rounds[k + 1]);
        } else {
            assert(rounds[k] == rounds.last());
        }
    }
    if rounds.len() == 0 {
        assert(new_rounds[0] == round);
    } else {
        assert(new_rounds[0] == rounds[0]);
    }
}

/// A round of `escaped` never stops at an escape, and when it resumes, it
/// resumes further on in the input.
proof fn lemma_round_progress<'a, T: AsChar, O1, O2, F, G>(
    normal: F,
    control_char: char,
    escapable: G,
    input: &'a [T],
    round: EscapedRound<'a, T, O1, O2>,
) where
    F: Fn(&'a [T]) -> IResult<'a, T, O1>,
    G: Fn(&'a [T]) -> IResult<'a, T, O2>,

    requires
        well_behaved(normal),
        well_behaved(escapable),
        round_valid(normal, control_char, escapable, input, round),
    ensures
        !(round_move(input, control_char, round) is Escape),
        round_move(input, control_char, round) matches Move::Resume(q) ==> round.pos < q
            < input@.len(),
{
    assert(call_ensures(normal, (round.arg,), round.res));
    T::lemma_char_len_positive(control_char);
    let len = input@.len();
    assert(input.len() == len);
    if let Ok((rest, _)) = round.res {
        assert(rest@.len() <= round.arg@.len());
    }
    if let Move::Escape(q) = after_normal(input, round.pos, control_char, round.res) {
        assert(call_ensures(escapable, (round.escape_arg,), round.escape_res));
        assert(round.pos < q < len);
        if let Ok((rest2, _)) = round.escape_res {
            assert(rest2@.len() <= round.escape_arg@.len());
            assert(round.escape_arg@.len() == len - q);
        }
    }
}

/// `r` is what a parser of `input` reports when it ends in `out`.
pub open spec fn reports<'a, T>(
    input: &'a [T],
    out: Move<ErrMode<Error<&'a [T]>>>,
    r: IResult<'a, T, &'a [T]>,
) -> bool {
    match out {
        Move::Accept(n) => splits_at(input, n as int, r),
        Move::Fail(e) => r == Err::<(&'a [T], &'a [T]), _>(e),
        _ => false,
    }
}

/// Matches a string with escaped tokens: runs of tokens that `normal` accepts,
/// and escapes made of `control_char` followed by what `escapable` accepts.
/// Returns the matched part of the input.
///
/// `normal` must not accept the control character.
pub fn escaped<'a, T: AsChar, O1, O2, F, G>(
    normal: F,
    control_char: char,
    escapable: G,
    input: &'a [T],
) -> (r: IResult<'a, T, &'a [T]>) where
    F: Fn(&'a [T]) -> IResult<'a, T, O1>,
    G: Fn(&'a [T]) -> IResult<'a, T, O2>,

    requires
        well_behaved(normal),
        well_behaved(escapable),
    ensures
        exists|rounds: Seq<EscapedRound<'a, T, O1, O2>>, out: Move<ErrMode<Error<&'a [T]>>>|
            escaped_run(normal, control_char, escapable, input, rounds, out) && reports(
                input,
                out,
                r,
            ),
{
    let len = input.len();
    if len == 0 {
        let r = Ok(next_slice(input, 0));
        proof {
            let rounds = Seq::<EscapedRound<'a, T, O1, O2>>::empty();
            let out = Move::<ErrMode<Error<&'a [T]>>>::Accept(0);
            assert(escaped_run(normal, control_char, escapable, input, rounds, out));
            assert(reports(input, out, r));
        }
        return r;
    }
    let mut pos: usize = 0;
    let ghost mut rounds: Seq<EscapedRound<'a, T, O1, O2>> = Seq::empty();
    loop
        invariant
            well_behaved(normal),
            well_behaved(escapable),
            len == input@.len(),
            0 <= pos < len,
            run_reaches(normal, control_char, escapable, input, rounds, pos),
        decreases len - pos,
    {
        let rest = slice_subrange(input, pos, len);
        let r1 = normal(rest);
        let ghost g1 = r1;
        let ghost mut escape_arg = rest;
        let ghost mut escape_res: IResult<'a, T, O2> = vstd::pervasive::arbitrary();
        let m1 = escaped_after_normal(input, pos, control_char, r1);
        let m = match m1 {
            Move::Escape(q) => {
                let rest2 = slice_subrange(input, q, len);
                let r2 = escapable(rest2);
                proof {
                    escape_arg = rest2;
                    escape_res = r2;
                }
                escaped_after_escapable(input, r2)
            },
            other => other,
        };
        let ghost round = EscapedRound { pos, arg: rest, res: g1, escape_arg, escape_res };
        proof {
            assert(round_valid(normal, control_char, escapable, input, round));
            assert(round_move(input, control_char, round) == m);
            lemma_round_progress(normal, control_char, escapable, input, round);
            lemma_run_step(normal, control_char, escapable, input, rounds, round);
            rounds = rounds.push(round);
        }
        match m {
            Move::Resume(q) => {
                pos = q;
            },
            Move::Accept(n) => {
                let r = Ok(next_slice(input, n));
                proof {
                    assert(reports(input, m, r));
                }
                return r;
            },
            Move::Fail(e) => {
                let r = Err(e);
                proof {
                    assert(reports(input, m, r));
                }
                return r;
            },
            Move::Escape(_) => {
                proof {
                    assert(false);
                }
                return Err(ErrMode::Backtrack(Error::new(input, ErrorKind::Escaped)));
            },
        }
    }
}

/// The error that `escaped_transform` fails with at `remainder`.
pub open spec fn transform_error<'a, T>(remainder: &'a [T]) -> ErrMode<Error<&'a [T]>> {
    ErrMode::Backtrack(Error { input: remainder, kind: ErrorKind::EscapedTransform })
}

/// Where `escaped_transform` goes after the normal parser answered `r1` on
/// `remainder`, the input from position `pos` on.
pub open spec fn transform_after_normal<'a, T: AsChar, O1>(
    input: &'a [T],
    pos: usize,
    remainder: &'a [T],
    control_char: char,
    r1: IResult<'a, T, O1>,
) -> Move<ErrMode<Error<&'a [T]>>> {
    let len = input@.len();
    match r1 {
        Ok((rest, _)) => {
            if rest@.len() == 0 {
                Move::Accept(len as usize)
            } else if rest@.len() == len {
                Move::Accept(pos)
            } else {
                Move::Resume((len - rest@.len()) as usize)
            }
        },
        Err(ErrMode::Backtrack(_)) => {
            if input@[pos as int].spec_as_char() == control_char {
                let next = pos + T::spec_char_len(control_char);
                if next >= len {
                    Move::Fail(transform_error(remainder))
                } else {
                    Move::Escape(next as usize)
                }
            } else if pos == 0 {
                Move::Fail(transform_error(remainder))
            } else {
                Move::Accept(pos)
            }
        },
        Err(e) => Move::Fail(e),
    }
}

/// The tokens that a parser's answer contributes to the transformed output.
pub open spec fn output_tokens<'a, T, O: ExtendInto<T>>(r: IResult<'a, T, O>) -> Seq<T> {
    match r {
        Ok((_, o)) => o.spec_tokens(),
        Err(_) => Seq::empty(),
    }
}

/// Decides what `escaped_transform` does after the normal parser answered `r1`
/// on `remainder`, the input from position `pos` on, and appends its output to
/// `acc` if it succeeded.
pub fn escaped_transform_after_normal<'a, T: AsChar, O1: ExtendInto<T>>(
    input: &'a [T],
    pos: usize,
    remainder: &'a [T],
    control_char: char,
    r1: IResult<'a, T, O1>,
    acc: &mut Vec<T>,
) -> (m: Move<ErrMode<Error<&'a [T]>>>)
    requires
        pos < input@.len(),
        remainder@ == input@.skip(pos as int),
        r1 matches Ok((rest, _)) ==> rest@.len() <= input@.len() - pos,
    ensures
        m == transform_after_normal(input, pos, remainder, control_char, r1),
        final(acc)@ == old(acc)@ + output_tokens(r1),
{
    let len = input.len();
    match r1 {
        Ok((rest, o)) => {
            o.extend_into(acc);
            if rest.len() == 0 {
                Move::Accept(len)
            } else if rest.len() == len {
                Move::Accept(pos)
            } else {
                Move::Resume(len - rest.len())
            }
        },
        Err(ErrMode::Backtrack(_)) => {
            assert(acc@ == old(acc)@ + Seq::<T>::empty());
            if remainder[0].as_char() == control_char {
                let width = T::char_len(control_char);
                if width >= len - pos {
                    Move::Fail(ErrMode::Backtrack(Error::new(remainder, ErrorKind::EscapedTransform)))
                } else {
                    Move::Escape(pos + width)
                }
            } else if pos == 0 {
                Move::Fail(ErrMode::Backtrack(Error::new(remainder, ErrorKind::EscapedTransform)))
            } else {
                Move::Accept(pos)
            }
        },
        Err(e) => {
            assert(acc@ == old(acc)@ + Seq::<T>::empty());
            Move::Fail(e)
        },
    }
}

/// Decides what `escaped_transform` does after the transforming parser
/// answered `r2`, and appends its output to `acc` if it succeeded.
pub fn escaped_transform_after_transform<'a, T, O2: ExtendInto<T>>(
    input: &'a [T],
    r2: IResult<'a, T, O2>,
    acc: &mut Vec<T>,
) -> (m: Move<ErrMode<Error<&'a [T]>>>)
    requires
        r2 matches Ok((rest, _)) ==> rest@.len() <= input@.len(),
    ensures
        m == after_escapable(input, r2),
        final(acc)@ == old(acc)@ + output_tokens(r2),
{
    match r2 {
        Ok((rest, o)) => {
            o.extend_into(acc);
            if rest.len() == 0 {
                Move::Accept(input.len())
            } else {
                Move::Resume(input.len() - rest.len())
            }
        },
        Err(e) => {
            assert(acc@ == old(acc)@ + Seq::<T>::empty());
            Move::Fail(e)
        },
    }
}

/// Where a round of `escaped_transform` leads.
pub open spec fn transform_round_move<'a, T: AsChar, O1, O2>(
    input: &'a [T],
    control_char: char,
    round: EscapedRound<'a, T, O1, O2>,
) -> Move<ErrMode<Error<&'a [T]>>> {
    match transform_after_normal(input, round.pos, round.arg, control_char, round.res) {
        Move::Escape(_) => after_escapable(input, round.escape_res),
        m => m,
    }
}

/// The tokens that a round of `escaped_transform` contributes to the output.
pub open spec fn round_tokens<'a, T: AsChar, O1: ExtendInto<T>, O2: ExtendInto<T>>(
    input: &'a [T],
    control_char: char,
    round: EscapedRound<'a, T, O1, O2>,
) -> Seq<T> {
    output_tokens(round.res) + if transform_after_normal(
        input,
        round.pos,
        round.arg,
        control_char,
        round.res,
    ) is Escape {
        output_tokens(round.escape_res)
    } else {
        Seq::empty()
    }
}

/// The tokens that the rounds of `escaped_transform` contribute, in order.
pub open spec fn collected<'a, T: AsChar, O1: ExtendInto<T>, O2: ExtendInto<T>>(
    input: &'a [T],
    control_char: char,
    rounds: Seq<EscapedRound<'a, T, O1, O2>>,
) -> Seq<T>
    decreases rounds.len(),
{
    if rounds.len() == 0 {
        Seq::empty()
    } else {
        collected(input, control_char, rounds.drop_last()) + round_tokens(
            input,
            control_char,
            rounds.last(),
        )
    }
}

/// A round of `escaped_transform` that the parsers could have answered so.
pub open spec fn transform_round_valid<'a, T: AsChar, O1, O2, F, G>(
    normal: F,
    control_char: char,
    transform: G,
    input: &'a [T],
    round: EscapedRound<'a, T, O1, O2>,
) -> bool where
    F: Fn(&'a [T]) -> IResult<'a, T, O1>,
    G: Fn(&'a [T]) -> IResult<'a, T, O2>,
 {
    &&& round.pos < input@.len()
    &&& round.arg@ == input@.skip(round.pos as int)
    &&& call_ensures(normal, (round.arg,), round.res)
    &&& transform_after_normal(input, round.pos, round.arg, control_char, round.res) matches Move::Escape(q) ==> {
        &&& round.escape_arg@ == input@.skip(q as int)
        &&& call_ensures(transform, (round.escape_arg,), round.escape_res)
    }
}

/// `rounds` is the start of a run of `escaped_transform` on `input` that has
/// led to `pos`.
pub open spec fn transform_run_reaches<'a, T: AsChar, O1, O2, F, G>(
    normal: F,
    control_char: char,
    transform: G,
    input: &'a [T],
    rounds: Seq<EscapedRound<'a, T, O1, O2>>,
    pos: usize,
) -> bool where
    F: Fn(&'a [T]) -> IResult<'a, T, O1>,
    G: Fn(&'a [T]) -> IResult<'a, T, O2>,
 {
    if rounds.len() == 0 {
        pos == 0
    } else {
        &&& rounds[0].pos == 0
        &&& forall|k: int|
            0 <= k < rounds.len() ==> transform_round_valid(
                normal,
                control_char,
                transform,
                input,
                #[trigger] rounds[k],
            )
        &&& forall|k: int|
            0 <= k < rounds.len() - 1 ==> transform_round_move(
                input,
                control_char,
                #[trigger] rounds[k],
            ) == Move::<ErrMode<Error<&'a [T]>>>::Resume(rounds[k + 1].pos)
        &&& transform_round_move(input, control_char, rounds.last())
            == Move::<ErrMode<Error<&'a [T]>>>::Resume(pos)
    }
}

/// Wherever a run of `escaped_transform` on `input` can lead past the first
/// token, the normal parser, when it succeeds there, leaves less than it was
/// given (otherwise the scan would stay at that position for ever).
pub open spec fn progresses_where_reached<'a, T: AsChar, O1, O2, F, G>(
    normal: F,
    control_char: char,
    transform: G,
    input: &'a [T],
) -> bool where
    F: Fn(&'a [T]) -> IResult<'a, T, O1>,
    G: Fn(&'a [T]) -> IResult<'a, T, O2>,
 {
    forall|rounds: Seq<EscapedRound<'a, T, O1, O2>>, pos: usize, s: &'a [T], r: IResult<'a, T, O1>|
        #![trigger transform_run_reaches(normal, control_char, transform, input, rounds, pos), call_ensures(normal, (s,), r)]
        transform_run_reaches(normal, control_char, transform, input, rounds, pos) && 0 < pos
            && s@ == input@.skip(pos as int) && call_ensures(normal, (s,), r) ==> (r matches Ok(
            (rest, _),
        ) ==> rest@.len() < s@.len())
}

/// `rounds` is a run of `escaped_transform` on `input` that ends in `out`.
pub open spec fn transform_run<'a, T: AsChar, O1, O2, F, G>(
    normal: F,
    control_char: char,
    transform: G,
    input: &'a [T],
    rounds: Seq<EscapedRound<'a, T, O1, O2>>,
    out: Move<ErrMode<Error<&'a [T]>>>,
) -> bool where
    F: Fn(&'a [T]) -> IResult<'a, T, O1>,
    G: Fn(&'a [T]) -> IResult<'a, T, O2>,
 {
    if input@.len() == 0 {
        rounds.len() == 0 && out == Move::<ErrMode<Error<&'a [T]>>>::Accept(0)
    } else {
        &&& rounds.len() > 0
        &&& rounds[0].pos == 0
        &&& forall|k: int|
            0 <= k < rounds.len() ==> transform_round_valid(
                normal,
                control_char,
                transform,
                input,
                #[trigger] rounds[k],
            )
        &&& forall|k: int|
            0 <= k < rounds.len() - 1 ==> transform_round_move(
                input,
                control_char,
                #[trigger] rounds[k],
            ) == Move::<ErrMode<Error<&'a [T]>>>::Resume(rounds[k + 1].pos)
        &&& out == transform_round_move(input, control_char, rounds.last())
        &&& (out is Accept || out is Fail)
    }
}

/// `r` is what `escaped_transform` on `input` reports when it ends in `out`
/// having collected `tokens`.
pub open spec fn reports_transformed<'a, T>(
    input: &'a [T],
    out: Move<ErrMode<Error<&'a [T]>>>,
    tokens: Seq<T>,
    r: IResult<'a, T, Vec<T>>,
) -> bool {
    match out {
        Move::Accept(n) => r matches Ok((rest, o)) && n <= input@.len() && rest@ == input@.skip(
            n as int,
        ) && o@ == tokens,
        Move::Fail(e) => r == Err::<(&'a [T], Vec<T>), _>(e),
        _ => false,
    }
}

/// A round of `escaped_transform` taken where the run has led extends the run.
proof fn lemma_transform_run_step<'a, T: AsChar, O1, O2, F, G>(
    normal: F,
    control_char: char,
    transform: G,
    input: &'a [T],
    rounds: Seq<EscapedRound<'a, T, O1, O2>>,
    round: EscapedRound<'a, T, O1, O2>,
) where
    F: Fn(&'a [T]) -> IResult<'a, T, O1>,
    G: Fn(&'a [T]) -> IResult<'a, T, O2>,

    requires
        input@.len() > 0,
        transform_run_reaches(normal, control_char, transform, input, rounds, round.pos),
        transform_round_valid(normal, control_char, transform, input, round),
    ensures
        transform_round_move(input, control_char, round) matches Move::Resume(q)
            ==> transform_run_reaches(
            normal,
            control_char,
            transform,
            input,
            rounds.push(round),
            q,
        ),
        (transform_round_move(input, control_char, round) is Accept || transform_round_move(
            input,
            control_char,
            round,
        ) is Fail) ==> transform_run(
            normal,
            control_char,
            transform,
            input,
            rounds.push(round),
            transform_round_move(input, control_char, round),
        ),
{
    let new_rounds = rounds.push(round);
    assert(new_rounds.last() == round);
    assert forall|k: int| 0 <= k < new_rounds.len() implies transform_round_valid(
        normal,
        control_char,
        transform,
        input,
        #[trigger] new_rounds[k],
    ) by {
        if k < rounds.len() {
            assert(new_rounds[k] == rounds[k]);
        }
    }
    assert forall|k: int| 0 <= k < new_rounds.len() - 1 implies transform_round_move(
        input,
        control_char,
        #[trigger] new_rounds[k],
    ) == Move::<ErrMode<Error<&'a [T]>>>::Resume(new_rounds[k + 1].pos) by {
        assert(new_rounds[k] == rounds[k]);
        if k < rounds.len() - 1 {
            assert(new_rounds[k + 1] == rounds[k + 1]);
        } else {
            assert(rounds[k] == rounds.last());
        }
    }
    if rounds.len() == 0 {
        assert(new_rounds[0] == round);
    } else {
        assert(new_rounds[0] == rounds[0]);
    }
}

/// A round of `escaped_transform` never stops at an escape, and when it
/// resumes, it resumes further on in the input.
proof fn lemma_transform_round_progress<'a, T: AsChar, O1, O2, F, G>(
    normal: F,
    control_char: char,
    transform: G,
    input: &'a [T],
    rounds: Seq<EscapedRound<'a, T, O1, O2>>,
    round: EscapedRound<'a, T, O1, O2>,
) where
    F: Fn(&'a [T]) -> IResult<'a, T, O1>,
    G: Fn(&'a [T]) -> IResult<'a, T, O2>,

    requires
        well_behaved(normal),
        well_behaved(transform),
        progresses_where_reached(normal, control_char, transform, input),
        transform_run_reaches(normal, control_char, transform, input, rounds, round.pos),
        transform_round_valid(normal, control_char, transform, input, round),
    ensures
        !(transform_round_move(input, control_char, round) is Escape),
        transform_round_move(input, control_char, round) matches Move::Resume(q) ==> round.pos
            < q < input@.len(),
{
    assert(call_ensures(normal, (round.arg,), round.res));
    T::lemma_char_len_positive(control_char);
    let len = input@.len();
    assert(input.len() == len);
    if let Ok((rest, _)) = round.res {
        assert(rest@.len() <= round.arg@.len());
        if round.pos > 0 {
            assert(transform_run_reaches(normal, control_char, transform, input, rounds, round.pos));
            assert(rest@.len() < round.arg@.len());
        }
    }
    if let Move::Escape(q) = transform_after_normal(
        input,
        round.pos,
        round.arg,
        control_char,
        round.res,
    ) {
        assert(call_ensures(transform, (round.escape_arg,), round.escape_res));
        assert(round.pos < q < len);
        if let Ok((rest2, _)) = round.escape_res {
            assert(rest2@.len() <= round.escape_arg@.len());
            assert(round.escape_arg@.len() == len - q);
        }
    }
}

/// Matches a string with escaped tokens, and transforms it: runs of tokens
/// that `normal` accepts are kept as `normal` outputs them, and escapes made of
/// `control_char` followed by what `transform` accepts are replaced by what
/// `transform` outputs. Returns the concatenated outputs.
///
/// `normal` must not accept the control character.
pub fn escaped_transform<'a, T: AsChar, O1: ExtendInto<T>, O2: ExtendInto<T>, F, G>(
    normal: F,
    control_char: char,
    transform: G,
    input: &'a [T],
) -> (r: IResult<'a, T, Vec<T>>) where
    F: Fn(&'a [T]) -> IResult<'a, T, O1>,
    G: Fn(&'a [T]) -> IResult<'a, T, O2>,

    requires
        well_behaved(normal),
        well_behaved(transform),
        progresses_where_reached(normal, control_char, transform, input),
    ensures
        exists|rounds: Seq<EscapedRound<'a, T, O1, O2>>, out: Move<ErrMode<Error<&'a [T]>>>|
            transform_run(normal, control_char, transform, input, rounds, out)
                && reports_transformed(input, out, collected(input, control_char, rounds), r),
{
    let len = input.len();
    let mut acc: Vec<T> = Vec::new();
    if len == 0 {
        let r = Ok((input, acc));
        proof {
            let rounds = Seq::<EscapedRound<'a, T, O1, O2>>::empty();
            let out = Move::<ErrMode<Error<&'a [T]>>>::Accept(0);
            assert(input@.skip(0) =~= input@);
            assert(transform_run(normal, control_char, transform, input, rounds, out));
            assert(reports_transformed(input, out, collected(input, control_char, rounds), r));
        }
        return r;
    }
    let mut pos: usize = 0;
    let ghost mut rounds: Seq<EscapedRound<'a, T, O1, O2>> = Seq::empty();
    loop
        invariant
            well_behaved(normal),
            well_behaved(transform),
            progresses_where_reached(normal, control_char, transform, input),
            len == input@.len(),
            0 <= pos < len,
            transform_run_reaches(normal, control_char, transform, input, rounds, pos),
            acc@ == collected(input, control_char, rounds),
        decreases len - pos,
    {
        let ghost start = acc@;
        let remainder = slice_subrange(input, pos, len);
        let r1 = normal(remainder);
        let ghost g1 = r1;
        let ghost mut escape_arg = remainder;
        let ghost mut escape_res: IResult<'a, T, O2> = vstd::pervasive::arbitrary();
        let m1 = escaped_transform_after_normal(
            input,
            pos,
            remainder,
            control_char,
            r1,
            &mut acc,
        );
        let ghost mid = acc@;
        let m = match m1 {
            Move::Escape(q) => {
                let rest2 = slice_subrange(input, q, len);
                let r2 = transform(rest2);
                proof {
                    escape_arg = rest2;
                    escape_res = r2;
                }
                escaped_transform_after_transform(input, r2, &mut acc)
            },
            other => other,
        };
        let ghost round = EscapedRound { pos, arg: remainder, res: g1, escape_arg, escape_res };
        proof {
            assert(transform_round_valid(normal, control_char, transform, input, round));
            assert(transform_round_move(input, control_char, round) == m);
            assert(acc@ == start + round_tokens(input, control_char, round)) by {
                if m1 is Escape {
                    assert(acc@ == mid + output_tokens(escape_res));
                } else {
                    assert(acc@ == mid);
                    assert(mid + Seq::<T>::empty() =~= mid);
                }
            }
            lemma_transform_round_progress(normal, control_char, transform, input, rounds, round);
            lemma_transform_run_step(normal, control_char, transform, input, rounds, round);
            let old_rounds = rounds;
            rounds = rounds.push(round);
            assert(rounds.drop_last() =~= old_rounds);
            assert(acc@ == collected(input, control_char, rounds));
        }
        match m {
            Move::Resume(q) => {
                pos = q;
            },
            Move::Accept(n) => {
                let rest = slice_subrange(input, n, len);
                let r = Ok((rest, acc));
                proof {
                    assert(reports_transformed(
                        input,
                        m,
                        collected(input, control_char, rounds),
                        r,
                    ));
                }
                return r;
            },
            Move::Fail(e) => {
                let r = Err(e);
                proof {
                    assert(reports_transformed(
                        input,
                        m,
                        collected(input, control_char, rounds),
                        r,
                    ));
                }
                return r;
            },
            Move::Escape(_) => {
                proof {
                    assert(false);
                }
                return Err(ErrMode::Backtrack(Error::new(input, ErrorKind::EscapedTransform)));
            },
        }
    }
}

} // verus!
