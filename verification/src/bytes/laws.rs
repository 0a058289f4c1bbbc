//! Properties that hold across the parsers of `complete`.
use vstd::prelude::*;

use crate::bytes::complete::{
    after_normal, backtracks, escaped_error, escaped_run, first_token_result, m_n_count, reports,
    reports_transformed, round_move, round_valid, scan1_result, scan_result, splits_at,
    transform_after_normal, transform_error, transform_round_move, transform_round_valid,
    transform_run, well_behaved, EscapedRound, Move,
};
use crate::error::{ErrMode, Error, ErrorKind};
use crate::input::{
    deterministic, first_occurrence_at, lemma_stops_at_unique, occurs_at, starts_with,
    starts_with_no_case, AsChar, ExtendInto,
};
use crate::IResult;

verus! {

/// Whenever a parser succeeds, its output followed by the remaining input is
/// the input it was given.
pub proof fn law_output_then_rest_is_input<'a, T>(
    input: &'a [T],
    n: int,
    r: IResult<'a, T, &'a [T]>,
)
    requires
        splits_at(input, n, r),
    ensures
        r matches Ok((rest, out)) && out@.len() == n && out@ + rest@ == input@,
{
    if let Ok((rest, out)) = r {
        assert(out@ + rest@ =~= input@);
    }
}

/// The scans that must take at least one token (`take_while1`, `is_a`,
/// `take_till1`, `is_not`) take what the scans that may take nothing
/// (`take_while`, `take_till`) take with the same predicate, and fail exactly
/// when those take nothing.
pub proof fn law_scan1_is_non_empty_scan<'a, T, P: Fn(T) -> bool>(
    pred: P,
    stop: bool,
    kind: ErrorKind,
    input: &'a [T],
    r0: IResult<'a, T, &'a [T]>,
    r1: IResult<'a, T, &'a [T]>,
)
    requires
        deterministic(pred),
        scan_result(pred, stop, input, r0),
        scan1_result(pred, stop, kind, input, r1),
    ensures
        r0 matches Ok((rest0, out0)) && if out0@.len() > 0 {
            r1 matches Ok((rest1, out1)) && out1@ == out0@ && rest1@ == rest0@
        } else {
            backtracks(input, kind, r1)
        },
{
    if let Ok((rest0, out0)) = r0 {
        match r1 {
            Ok((rest1, out1)) => {
                lemma_stops_at_unique(
                    pred,
                    input@,
                    out0@.len() as int,
                    out1@.len() as int,
                    stop,
                );
            },
            Err(_) => {
                lemma_stops_at_unique(pred, input@, out0@.len() as int, 0, stop);
            },
        }
    }
}

/// `take_while_m_n(m, n, ..)` takes between `m` and `n` tokens, all of them
/// accepted, and no more than the accepted prefix of `k` tokens holds; and it
/// takes the longest such slice (it stops only at the end of the accepted
/// prefix or at `n`); it fails only when no length between `m` and `n` fits
/// within the accepted prefix.
pub proof fn law_take_while_m_n_longest_within_bounds(k: int, m: int, n: int)
    requires
        0 <= k,
        0 <= m,
        0 <= n,
    ensures
        m_n_count(k, m, n) matches Some(c) ==> m <= c <= n && c <= k && (c == k || c == n),
        m_n_count(k, m, n) is None ==> k < m || n < m,
{
}

/// When `pattern` occurs in the input, there is a first place where it occurs,
/// so `take_until(pattern)` succeeds.
pub proof fn law_take_until_finds_present_pattern<T>(s: Seq<T>, t: Seq<T>, j0: int)
    requires
        occurs_at(s, t, j0),
    ensures
        exists|j: int| first_occurrence_at(s, t, j),
    decreases j0,
{
    if forall|i: int| 0 <= i < j0 ==> !occurs_at(s, t, i) {
        assert(first_occurrence_at(s, t, j0));
    } else {
        let i = choose|i: int| 0 <= i < j0 && occurs_at(s, t, i);
        law_take_until_finds_present_pattern(s, t, i);
    }
}

/// What `take_until(pattern)` leaves begins with `pattern`, so that
/// `tag(pattern)` then succeeds on it; and a non-empty `pattern` does not occur
/// within what it takes.
pub proof fn law_take_until_stops_before_pattern<T>(s: Seq<T>, t: Seq<T>, j: int)
    requires
        first_occurrence_at(s, t, j),
    ensures
        starts_with(s.skip(j), t),
        t.len() > 0 ==> forall|i: int| !occurs_at(#[trigger] s.take(j), t, i),
{
    assert(s.skip(j).subrange(0, t.len() as int) =~= s.subrange(j, j + t.len()));
    assert forall|i: int| t.len() > 0 implies !occurs_at(#[trigger] s.take(j), t, i) by {
        if occurs_at(s.take(j), t, i) {
            assert(s.take(j).subrange(i, i + t.len()) =~= s.subrange(i, i + t.len()));
            assert(occurs_at(s, t, i));
        }
    }
}

/// Whatever `tag(pattern)` accepts, `tag_no_case(pattern)` accepts too.
pub proof fn law_tag_no_case_accepts_tag<T: AsChar>(s: Seq<T>, t: Seq<T>)
    requires
        starts_with(s, t),
    ensures
        starts_with_no_case(s, t),
{
    assert forall|i: int| 0 <= i < t.len() implies (#[trigger] s[i]).spec_eq_no_case(t[i]) by {
        assert(s.subrange(0, t.len() as int)[i] == s[i]);
        s[i].lemma_eq_no_case_reflexive();
    }
}

/// On a non-empty input, exactly one of `one_of_internal(list)` and
/// `none_of_internal(list)` succeeds.
pub proof fn law_one_of_none_of_complementary<'a, T, P: Fn(T) -> bool>(
    list: P,
    input: &'a [T],
    r1: IResult<'a, T, T>,
    r2: IResult<'a, T, T>,
)
    requires
        deterministic(list),
        input@.len() > 0,
        first_token_result(list, true, ErrorKind::OneOf, input, r1),
        first_token_result(list, false, ErrorKind::NoneOf, input, r2),
    ensures
        r1 is Ok <==> r2 is Err,
{
}

/// When `escaped` succeeds, its output followed by the remaining input is the
/// input.
pub proof fn law_escaped_output_then_rest<'a, T: AsChar, O1, O2, F, G>(
    normal: F,
    control_char: char,
    escapable: G,
    input: &'a [T],
    rounds: Seq<EscapedRound<'a, T, O1, O2>>,
    out: crate::bytes::complete::Move<ErrMode<Error<&'a [T]>>>,
    r: IResult<'a, T, &'a [T]>,
) where
    F: Fn(&'a [T]) -> IResult<'a, T, O1>,
    G: Fn(&'a [T]) -> IResult<'a, T, O2>,

    requires
        escaped_run(normal, control_char, escapable, input, rounds, out),
        reports(input, out, r),
    ensures
        r matches Ok((rest, o)) ==> o@ + rest@ == input@,
{
    if let Ok((rest, o)) = r {
        assert(o@ + rest@ =~= input@);
    }
}

/// When `escaped` succeeds and leaves input, it stopped where the normal
/// parser made no progress: the normal parser, called where the output ends,
/// either succeeded without taking anything or failed on a token that is not
/// the control character.
pub proof fn law_escaped_stops_where_normal_stalls<'a, T: AsChar, O1, O2, F, G>(
    normal: F,
    control_char: char,
    escapable: G,
    input: &'a [T],
    rounds: Seq<EscapedRound<'a, T, O1, O2>>,
    out: crate::bytes::complete::Move<ErrMode<Error<&'a [T]>>>,
    r: IResult<'a, T, &'a [T]>,
) where
    F: Fn(&'a [T]) -> IResult<'a, T, O1>,
    G: Fn(&'a [T]) -> IResult<'a, T, O2>,

    requires
        escaped_run(normal, control_char, escapable, input, rounds, out),
        reports(input, out, r),
    ensures
        r matches Ok((rest, o)) ==> rest@.len() > 0 ==> {
            let last = rounds.last();
            &&& last.pos == o@.len()
            &&& call_ensures(normal, (last.arg,), last.res)
            &&& last.arg@ == input@.skip(last.pos as int)
            &&& {
                ||| last.res matches Ok((x, _)) && x@.len() == rest@.len()
                ||| last.res matches Err(ErrMode::Backtrack(_)) && input@[last.pos as int].spec_as_char()
                    != control_char
            }
        },
{
    if let Ok((rest, o)) = r {
        if rest@.len() > 0 {
            assert(input@.len() > 0);
            let k = rounds.len() - 1;
            let last = rounds[k];
            assert(rounds.last() == last);
            assert(round_valid(normal, control_char, escapable, input, last));
            assert(out == round_move(input, control_char, last));
            let len = input@.len();
            assert(input.len() == len);
            let n = o@.len();
            assert(out == crate::bytes::complete::Move::<ErrMode<Error<&'a [T]>>>::Accept(
                n as usize,
            ));
            assert(n < len);
            match last.res {
                Ok((x, _)) => {
                    assert(x@.len() != 0);
                },
                Err(ErrMode::Backtrack(_)) => {
                    if input@[last.pos as int].spec_as_char() == control_char {
                        assert(after_normal(input, last.pos, control_char, last.res) is Escape
                            || after_normal(input, last.pos, control_char, last.res) is Fail);
                    }
                },
                Err(_) => {
                },
            }
        }
    }
}

/// `escaped` fails with its own `Escaped` error exactly when the normal parser
/// backtracks at the first token and that token is not the control character,
/// or backtracks at a control character too close to the end of the input for
/// anything to follow it; every other failure is an error that a parser
/// returned and that is passed on unchanged.
pub proof fn law_escaped_errors<'a, T: AsChar, O1, O2, F, G>(
    normal: F,
    control_char: char,
    escapable: G,
    input: &'a [T],
    rounds: Seq<EscapedRound<'a, T, O1, O2>>,
    out: crate::bytes::complete::Move<ErrMode<Error<&'a [T]>>>,
    r: IResult<'a, T, &'a [T]>,
) where
    F: Fn(&'a [T]) -> IResult<'a, T, O1>,
    G: Fn(&'a [T]) -> IResult<'a, T, O2>,

    requires
        escaped_run(normal, control_char, escapable, input, rounds, out),
        reports(input, out, r),
    ensures
        r is Err ==> {
            let last = rounds.last();
            let at_control = input@[last.pos as int].spec_as_char() == control_char;
            let trailing = T::spec_char_len(control_char) >= input@.len() - last.pos;
            let own = last.res matches Err(ErrMode::Backtrack(_)) && ((last.pos == 0 && !at_control)
                || (at_control && trailing));
            &&& own ==> r == Err::<(&'a [T], &'a [T]), _>(escaped_error(input))
            &&& !own ==> {
                ||| last.res matches Err(e) && !(e is Backtrack) && r == Err::<
                    (&'a [T], &'a [T]),
                    _,
                >(e)
                ||| after_normal(input, last.pos, control_char, last.res) is Escape && (
                last.escape_res matches Err(e) && r == Err::<(&'a [T], &'a [T]), _>(e))
            }
        },
{
}

/// When `escaped_transform` succeeds and leaves input, it stopped where the
/// normal parser made no progress: called where it stopped, the normal parser
/// either succeeded without taking anything (at the first token) or failed on
/// a token that is not the control character.
pub proof fn law_escaped_transform_stops_where_normal_stalls<'a, T: AsChar, O1: crate::input::ExtendInto<T>, O2: crate::input::ExtendInto<T>, F, G>(
    normal: F,
    control_char: char,
    transform: G,
    input: &'a [T],
    rounds: Seq<EscapedRound<'a, T, O1, O2>>,
    out: crate::bytes::complete::Move<ErrMode<Error<&'a [T]>>>,
    r: IResult<'a, T, Vec<T>>,
) where
    F: Fn(&'a [T]) -> IResult<'a, T, O1>,
    G: Fn(&'a [T]) -> IResult<'a, T, O2>,

    requires
        well_behaved(normal),
        transform_run(normal, control_char, transform, input, rounds, out),
        reports_transformed(
            input,
            out,
            crate::bytes::complete::collected(input, control_char, rounds),
            r,
        ),
    ensures
        r matches Ok((rest, _)) ==> rest@ == input@.skip(input@.len() - rest@.len()),
        r matches Ok((rest, _)) ==> rest@.len() > 0 ==> {
            let last = rounds.last();
            &&& last.pos == input@.len() - rest@.len()
            &&& call_ensures(normal, (last.arg,), last.res)
            &&& last.arg@ == input@.skip(last.pos as int)
            &&& {
                ||| last.res matches Ok((x, _)) && x@.len() == rest@.len() && last.pos == 0
                ||| last.res matches Err(ErrMode::Backtrack(_)) && input@[last.pos as int].spec_as_char()
                    != control_char
            }
        },
{
    if let Ok((rest, o)) = r {
        if rest@.len() > 0 {
            assert(input@.len() > 0);
            let k = rounds.len() - 1;
            let last = rounds[k];
            assert(rounds.last() == last);
            assert(transform_round_valid(normal, control_char, transform, input, last));
            assert(out == crate::bytes::complete::transform_round_move(input, control_char, last));
            let len = input@.len();
            assert(input.len() == len);
            let n = len - rest@.len();
            assert(out == crate::bytes::complete::Move::<ErrMode<Error<&'a [T]>>>::Accept(
                n as usize,
            ));
            assert(n < len);
            match last.res {
                Ok((x, _)) => {
                    assert(call_ensures(normal, (last.arg,), last.res));
                    assert(x@.len() <= last.arg@.len());
                    assert(x@.len() != 0);
                },
                Err(ErrMode::Backtrack(_)) => {
                    if input@[last.pos as int].spec_as_char() == control_char {
                        assert(transform_after_normal(
                            input,
                            last.pos,
                            last.arg,
                            control_char,
                            last.res,
                        ) is Escape || transform_after_normal(
                            input,
                            last.pos,
                            last.arg,
                            control_char,
                            last.res,
                        ) is Fail);
                    }
                },
                Err(_) => {
                },
            }
        }
    }
}

/// `escaped_transform` fails with its own `EscapedTransform` error, at the
/// remaining input, exactly when the normal parser backtracks at the first
/// token and that token is not the control character, or backtracks at a
/// control character too close to the end of the input for anything to follow
/// it; every other failure is an error that a parser returned, passed on
/// unchanged.
pub proof fn law_escaped_transform_errors<'a, T: AsChar, O1: crate::input::ExtendInto<T>, O2: crate::input::ExtendInto<T>, F, G>(
    normal: F,
    control_char: char,
    transform: G,
    input: &'a [T],
    rounds: Seq<EscapedRound<'a, T, O1, O2>>,
    out: crate::bytes::complete::Move<ErrMode<Error<&'a [T]>>>,
    r: IResult<'a, T, Vec<T>>,
) where
    F: Fn(&'a [T]) -> IResult<'a, T, O1>,
    G: Fn(&'a [T]) -> IResult<'a, T, O2>,

    requires
        transform_run(normal, control_char, transform, input, rounds, out),
        reports_transformed(
            input,
            out,
            crate::bytes::complete::collected(input, control_char, rounds),
            r,
        ),
    ensures
        r is Err ==> {
            let last = rounds.last();
            let at_control = input@[last.pos as int].spec_as_char() == control_char;
            let trailing = T::spec_char_len(control_char) >= input@.len() - last.pos;
            let own = last.res matches Err(ErrMode::Backtrack(_)) && ((last.pos == 0 && !at_control)
                || (at_control && trailing));
            &&& own ==> r == Err::<(&'a [T], Vec<T>), _>(transform_error(last.arg))
            &&& last.arg@ == input@.skip(last.pos as int)
            &&& !own ==> {
                ||| last.res matches Err(e) && !(e is Backtrack) && r == Err::<(&'a [T], Vec<T>), _>(
                    e,
                )
                ||| transform_after_normal(input, last.pos, last.arg, control_char, last.res) is Escape
                    && (last.escape_res matches Err(e) && r == Err::<(&'a [T], Vec<T>), _>(e))
            }
        },
{
}

/// `f` answers the same on every call with the same input.
pub open spec fn pure_parser<'a, T: 'a, O, F: Fn(&'a [T]) -> IResult<'a, T, O>>(f: F) -> bool {
    forall|s: &'a [T], r1: IResult<'a, T, O>, r2: IResult<'a, T, O>|
        call_ensures(f, (s,), r1) && call_ensures(f, (s,), r2) ==> r1 == r2
}

/// `f` takes at least one token whenever it succeeds on non-empty input.
pub open spec fn consumes_when_ok<'a, T: 'a, O, F: Fn(&'a [T]) -> IResult<'a, T, O>>(f: F) -> bool {
    forall|s: &'a [T], r: IResult<'a, T, O>|
        #[trigger] call_ensures(f, (s,), r) && s@.len() > 0 ==> (r matches Ok((rest, _))
            ==> rest@.len() < s@.len())
}

/// `f` and `g` succeed and fail on the same inputs, leave as much input when
/// they succeed, and fail with the same errors.
pub open spec fn same_consumption<'a, T: 'a, O2, O3, G, H>(f: G, g: H) -> bool where
    G: Fn(&'a [T]) -> IResult<'a, T, O2>,
    H: Fn(&'a [T]) -> IResult<'a, T, O3>,
 {
    forall|s: &'a [T], ra: IResult<'a, T, O2>, rb: IResult<'a, T, O3>|
        #![trigger call_ensures(f, (s,), ra), call_ensures(g, (s,), rb)]
        call_ensures(f, (s,), ra) && call_ensures(g, (s,), rb) ==> match ra {
            Ok((x, _)) => rb matches Ok((y, _)) && x@.len() == y@.len(),
            Err(e1) => rb matches Err(e2) && e1 == e2,
        }
}

/// Two moves of the scans agree: they are the same, or they are the scans' own
/// failures (`escaped` at the whole input, `escaped_transform` at `remainder`).
pub open spec fn moves_agree<'a, T>(
    m1: Move<ErrMode<Error<&'a [T]>>>,
    m2: Move<ErrMode<Error<&'a [T]>>>,
    input: &'a [T],
    remainder: &'a [T],
) -> bool {
    ||| m1 == m2
    ||| m1 == Move::<ErrMode<Error<&'a [T]>>>::Fail(escaped_error(input)) && m2
        == Move::<ErrMode<Error<&'a [T]>>>::Fail(transform_error(remainder))
}

/// Rounds of the two scans taken at the same position move alike.
proof fn lemma_rounds_agree<'a, T: AsChar, O1, O2, O3, F, G, H>(
    normal: F,
    control_char: char,
    g: H,
    transform: G,
    input: &'a [T],
    re: EscapedRound<'a, T, O1, O3>,
    rt: EscapedRound<'a, T, O1, O2>,
) where
    F: Fn(&'a [T]) -> IResult<'a, T, O1>,
    G: Fn(&'a [T]) -> IResult<'a, T, O2>,
    H: Fn(&'a [T]) -> IResult<'a, T, O3>,

    requires
        well_behaved(normal),
        pure_parser(normal),
        consumes_when_ok(normal),
        same_consumption(transform, g),
        round_valid(normal, control_char, g, input, re),
        transform_round_valid(normal, control_char, transform, input, rt),
        re.pos == rt.pos,
    ensures
        moves_agree(
            round_move(input, control_char, re),
            transform_round_move(input, control_char, rt),
            input,
            rt.arg,
        ),
{
    assert(re.arg =~= rt.arg);
    assert(call_ensures(normal, (re.arg,), re.res));
    assert(call_ensures(normal, (re.arg,), rt.res));
    assert(re.res == rt.res);
    assert(input.len() == input@.len());
    if let Ok((x, _)) = re.res {
        assert(x@.len() < re.arg@.len());
    }
    let m1 = after_normal(input, re.pos, control_char, re.res);
    let m2 = transform_after_normal(input, rt.pos, rt.arg, control_char, rt.res);
    if m1 is Escape {
        assert(m2 is Escape);
        assert(re.escape_arg =~= rt.escape_arg);
        assert(call_ensures(g, (re.escape_arg,), re.escape_res));
        assert(call_ensures(transform, (re.escape_arg,), rt.escape_res));
    }
}

/// The rounds of the two scans take place at the same positions.
proof fn lemma_positions_agree<'a, T: AsChar, O1, O2, O3, F, G, H>(
    normal: F,
    control_char: char,
    g: H,
    transform: G,
    input: &'a [T],
    rounds_e: Seq<EscapedRound<'a, T, O1, O3>>,
    out_e: Move<ErrMode<Error<&'a [T]>>>,
    rounds_t: Seq<EscapedRound<'a, T, O1, O2>>,
    out_t: Move<ErrMode<Error<&'a [T]>>>,
    k: int,
) where
    F: Fn(&'a [T]) -> IResult<'a, T, O1>,
    G: Fn(&'a [T]) -> IResult<'a, T, O2>,
    H: Fn(&'a [T]) -> IResult<'a, T, O3>,

    requires
        well_behaved(normal),
        pure_parser(normal),
        consumes_when_ok(normal),
        same_consumption(transform, g),
        input@.len() > 0,
        escaped_run(normal, control_char, g, input, rounds_e, out_e),
        transform_run(normal, control_char, transform, input, rounds_t, out_t),
        0 <= k < rounds_e.len(),
        k < rounds_t.len(),
    ensures
        rounds_e[k].pos == rounds_t[k].pos,
    decreases k,
{
    if k > 0 {
        lemma_positions_agree(
            normal,
            control_char,
            g,
            transform,
            input,
            rounds_e,
            out_e,
            rounds_t,
            out_t,
            k - 1,
        );
        assert(round_valid(normal, control_char, g, input, rounds_e[k - 1]));
        assert(transform_round_valid(normal, control_char, transform, input, rounds_t[k - 1]));
        lemma_rounds_agree(
            normal,
            control_char,
            g,
            transform,
            input,
            rounds_e[k - 1],
            rounds_t[k - 1],
        );
        assert(round_move(input, control_char, rounds_e[k - 1])
            == Move::<ErrMode<Error<&'a [T]>>>::Resume(rounds_e[k].pos));
        assert(transform_round_move(input, control_char, rounds_t[k - 1])
            == Move::<ErrMode<Error<&'a [T]>>>::Resume(rounds_t[k].pos));
    }
}

/// With a pure normal parser that takes something whenever it succeeds, and a
/// transforming parser that succeeds, fails and consumes exactly as the parser
/// of escaped tokens does, `escaped_transform` succeeds exactly when `escaped`
/// does and leaves the same input; when they fail, they fail alike, except
/// that their own error is reported at the remaining input by
/// `escaped_transform` and at the whole input by `escaped`.
pub proof fn law_escaped_transform_agrees_with_escaped<
    'a,
    T: AsChar,
    O1: crate::input::ExtendInto<T>,
    O2: crate::input::ExtendInto<T>,
    O3,
    F,
    G,
    H,
>(
    normal: F,
    control_char: char,
    g: H,
    transform: G,
    input: &'a [T],
    rounds_e: Seq<EscapedRound<'a, T, O1, O3>>,
    out_e: Move<ErrMode<Error<&'a [T]>>>,
    r_e: IResult<'a, T, &'a [T]>,
    rounds_t: Seq<EscapedRound<'a, T, O1, O2>>,
    out_t: Move<ErrMode<Error<&'a [T]>>>,
    r_t: IResult<'a, T, Vec<T>>,
) where
    F: Fn(&'a [T]) -> IResult<'a, T, O1>,
    G: Fn(&'a [T]) -> IResult<'a, T, O2>,
    H: Fn(&'a [T]) -> IResult<'a, T, O3>,

    requires
        well_behaved(normal),
        pure_parser(normal),
        consumes_when_ok(normal),
        same_consumption(transform, g),
        escaped_run(normal, control_char, g, input, rounds_e, out_e),
        reports(input, out_e, r_e),
        transform_run(normal, control_char, transform, input, rounds_t, out_t),
        reports_transformed(
            input,
            out_t,
            crate::bytes::complete::collected(input, control_char, rounds_t),
            r_t,
        ),
    ensures
        moves_agree(out_e, out_t, input, rounds_t.last().arg),
        r_e is Ok <==> r_t is Ok,
        r_e matches Ok((rest_e, _)) ==> (r_t matches Ok((rest_t, _)) && rest_e@ == rest_t@),
        r_e matches Err(e) ==> (r_t == Err::<(&'a [T], Vec<T>), _>(e) || (e == escaped_error(input)
            && r_t == Err::<(&'a [T], Vec<T>), _>(transform_error(rounds_t.last().arg)))),
{
    if input@.len() == 0 {
        return;
    }
    let ne = rounds_e.len();
    let nt = rounds_t.len();
    if ne < nt {
        lemma_positions_agree(
            normal,
            control_char,
            g,
            transform,
            input,
            rounds_e,
            out_e,
            rounds_t,
            out_t,
            ne - 1,
        );
        assert(round_valid(normal, control_char, g, input, rounds_e[ne - 1]));
        assert(transform_round_valid(normal, control_char, transform, input, rounds_t[ne - 1]));
        lemma_rounds_agree(
            normal,
            control_char,
            g,
            transform,
            input,
            rounds_e[ne - 1],
            rounds_t[ne - 1],
        );
        assert(transform_round_move(input, control_char, rounds_t[ne - 1])
            == Move::<ErrMode<Error<&'a [T]>>>::Resume(rounds_t[ne as int].pos));
        assert(rounds_e[ne - 1] == rounds_e.last());
        assert(false);
    } else if nt < ne {
        lemma_positions_agree(
            normal,
            control_char,
            g,
            transform,
            input,
            rounds_e,
            out_e,
            rounds_t,
            out_t,
            nt - 1,
        );
        assert(round_valid(normal, control_char, g, input, rounds_e[nt - 1]));
        assert(transform_round_valid(normal, control_char, transform, input, rounds_t[nt - 1]));
        lemma_rounds_agree(
            normal,
            control_char,
            g,
            transform,
            input,
            rounds_e[nt - 1],
            rounds_t[nt - 1],
        );
        assert(round_move(input, control_char, rounds_e[nt - 1])
            == Move::<ErrMode<Error<&'a [T]>>>::Resume(rounds_e[nt as int].pos));
        assert(rounds_t[nt - 1] == rounds_t.last());
        assert(false);
    } else {
        lemma_positions_agree(
            normal,
            control_char,
            g,
            transform,
            input,
            rounds_e,
            out_e,
            rounds_t,
            out_t,
            ne - 1,
        );
        assert(round_valid(normal, control_char, g, input, rounds_e[ne - 1]));
        assert(transform_round_valid(normal, control_char, transform, input, rounds_t[ne - 1]));
        lemma_rounds_agree(
            normal,
            control_char,
            g,
            transform,
            input,
            rounds_e[ne - 1],
            rounds_t[ne - 1],
        );
        assert(rounds_e[ne - 1] == rounds_e.last());
        assert(rounds_t[ne - 1] == rounds_t.last());
    }
}

/// Two bytes are equal once case is ignored exactly when they are the same
/// byte, or the same ASCII letter, one upper-case (`A`..=`Z`) and the other
/// lower-case (`a`..=`z`).
pub proof fn law_bytes_equal_ignoring_case(a: u8, b: u8)
    ensures
        a.spec_eq_no_case(b) <==> {
            ||| a == b
            ||| 0x41 <= a <= 0x5a && b == a + 0x20
            ||| 0x41 <= b <= 0x5a && a == b + 0x20
        },
{
}

/// A vector output contributes all of its tokens, in order.
pub proof fn law_vec_output_tokens<T: Copy>(v: Vec<T>)
    ensures
        v.spec_tokens() == v@,
{
}

/// A slice output contributes all of its tokens, in order.
pub proof fn law_slice_output_tokens<'b, T: Copy>(s: &'b [T])
    ensures
        s.spec_tokens() == s@,
{
}

/// How many tokens a parser took from `arg` when it answered `r`: none when it
/// failed.
pub open spec fn taken_by<'a, T, O>(arg: &'a [T], r: IResult<'a, T, O>) -> int {
    match r {
        Ok((rest, _)) => arg@.len() - rest@.len(),
        Err(_) => 0,
    }
}

/// In this round the normal parser backtracked on a control character with
/// room after it, so that the parser of escaped tokens was called.
pub open spec fn escape_taken<'a, T: AsChar, O1, O2>(
    input: &'a [T],
    control_char: char,
    round: EscapedRound<'a, T, O1, O2>,
) -> bool {
    &&& round.res matches Err(ErrMode::Backtrack(_))
    &&& input@[round.pos as int].spec_as_char() == control_char
    &&& round.pos + T::spec_char_len(control_char) < input@.len()
}

/// The tokens a round of an escaped scan consumed: what the normal parser took,
/// and, for an escape, the control character and what the parser of escaped
/// tokens took.
pub open spec fn round_taken<'a, T: AsChar, O1, O2>(
    input: &'a [T],
    control_char: char,
    round: EscapedRound<'a, T, O1, O2>,
) -> int {
    taken_by(round.arg, round.res) + if escape_taken(input, control_char, round) {
        T::spec_char_len(control_char) + taken_by(round.escape_arg, round.escape_res)
    } else {
        0
    }
}

/// The tokens that the rounds consumed in all.
pub open spec fn total_taken<'a, T: AsChar, O1, O2>(
    input: &'a [T],
    control_char: char,
    rounds: Seq<EscapedRound<'a, T, O1, O2>>,
) -> int
    decreases rounds.len(),
{
    if rounds.len() == 0 {
        0
    } else {
        total_taken(input, control_char, rounds.drop_last()) + round_taken(
            input,
            control_char,
            rounds.last(),
        )
    }
}

/// A round of `escaped` moves on, or stops and accepts, exactly past the tokens
/// it consumed.
proof fn lemma_escaped_round_accounting<'a, T: AsChar, O1, O2, F, G>(
    normal: F,
    control_char: char,
    escapable: G,
    input: &'a [T],
    round: EscapedRound<'a, T, O1, O2>,
) where
    F: Fn(&'a [T]) -> IResult<'a, T, O1>,
    G: Fn(&'a [T]) -> IResult<'a, T, O2>,

    requires
        well_behaved(normal),
        well_behaved(escapable),
        round_valid(normal, control_char, escapable, input, round),
    ensures
        round_move(input, control_char, round) matches Move::Resume(q) ==> q == round.pos
            + round_taken(input, control_char, round),
        round_move(input, control_char, round) matches Move::Accept(n) ==> n == round.pos
            + round_taken(input, control_char, round),
{
    assert(input.len() == input@.len());
    assert(call_ensures(normal, (round.arg,), round.res));
    if let Ok((x, _)) = round.res {
        assert(x@.len() <= round.arg@.len());
    }
    if after_normal(input, round.pos, control_char, round.res) is Escape {
        assert(call_ensures(escapable, (round.escape_arg,), round.escape_res));
        if let Ok((y, _)) = round.escape_res {
            assert(y@.len() <= round.escape_arg@.len());
        }
    }
}

/// A round of `escaped_transform` moves on, or stops and accepts, exactly past
/// the tokens it consumed.
proof fn lemma_transform_round_accounting<'a, T: AsChar, O1, O2, F, G>(
    normal: F,
    control_char: char,
    transform: G,
    input: &'a [T],
    round: EscapedRound<'a, T, O1, O2>,
) where
    F: Fn(&'a [T]) -> IResult<'a, T, O1>,
    G: Fn(&'a [T]) -> IResult<'a, T, O2>,

    requires
        well_behaved(normal),
        well_behaved(transform),
        transform_round_valid(normal, control_char, transform, input, round),
    ensures
        transform_round_move(input, control_char, round) matches Move::Resume(q) ==> q
            == round.pos + round_taken(input, control_char, round),
        transform_round_move(input, control_char, round) matches Move::Accept(n) ==> n
            == round.pos + round_taken(input, control_char, round),
{
    assert(input.len() == input@.len());
    assert(call_ensures(normal, (round.arg,), round.res));
    if let Ok((x, _)) = round.res {
        assert(x@.len() <= round.arg@.len());
    }
    if transform_after_normal(input, round.pos, round.arg, control_char, round.res) is Escape {
        assert(call_ensures(transform, (round.escape_arg,), round.escape_res));
        if let Ok((y, _)) = round.escape_res {
            assert(y@.len() <= round.escape_arg@.len());
        }
    }
}

/// Each round of an `escaped` run starts past the tokens that the rounds before
/// it consumed.
proof fn lemma_escaped_positions<'a, T: AsChar, O1, O2, F, G>(
    normal: F,
    control_char: char,
    escapable: G,
    input: &'a [T],
    rounds: Seq<EscapedRound<'a, T, O1, O2>>,
    out: Move<ErrMode<Error<&'a [T]>>>,
    k: int,
) where
    F: Fn(&'a [T]) -> IResult<'a, T, O1>,
    G: Fn(&'a [T]) -> IResult<'a, T, O2>,

    requires
        well_behaved(normal),
        well_behaved(escapable),
        input@.len() > 0,
        escaped_run(normal, control_char, escapable, input, rounds, out),
        0 <= k < rounds.len(),
    ensures
        rounds[k].pos == total_taken(input, control_char, rounds.take(k)),
    decreases k,
{
    if k == 0 {
        assert(rounds.take(0).len() == 0);
    } else {
        lemma_escaped_positions(normal, control_char, escapable, input, rounds, out, k - 1);
        assert(round_valid(normal, control_char, escapable, input, rounds[k - 1]));
        lemma_escaped_round_accounting(normal, control_char, escapable, input, rounds[k - 1]);
        assert(round_move(input, control_char, rounds[k - 1])
            == Move::<ErrMode<Error<&'a [T]>>>::Resume(rounds[k].pos));
        assert(rounds.take(k).drop_last() =~= rounds.take(k - 1));
        assert(rounds.take(k).last() == rounds[k - 1]);
    }
}

/// Each round of an `escaped_transform` run starts past the tokens that the
/// rounds before it consumed.
proof fn lemma_transform_positions<'a, T: AsChar, O1, O2, F, G>(
    normal: F,
    control_char: char,
    transform: G,
    input: &'a [T],
    rounds: Seq<EscapedRound<'a, T, O1, O2>>,
    out: Move<ErrMode<Error<&'a [T]>>>,
    k: int,
) where
    F: Fn(&'a [T]) -> IResult<'a, T, O1>,
    G: Fn(&'a [T]) -> IResult<'a, T, O2>,

    requires
        well_behaved(normal),
        well_behaved(transform),
        input@.len() > 0,
        transform_run(normal, control_char, transform, input, rounds, out),
        0 <= k < rounds.len(),
    ensures
        rounds[k].pos == total_taken(input, control_char, rounds.take(k)),
    decreases k,
{
    if k == 0 {
        assert(rounds.take(0).len() == 0);
    } else {
        lemma_transform_positions(normal, control_char, transform, input, rounds, out, k - 1);
        assert(transform_round_valid(normal, control_char, transform, input, rounds[k - 1]));
        lemma_transform_round_accounting(normal, control_char, transform, input, rounds[k - 1]);
        assert(transform_round_move(input, control_char, rounds[k - 1])
            == Move::<ErrMode<Error<&'a [T]>>>::Resume(rounds[k].pos));
        assert(rounds.take(k).drop_last() =~= rounds.take(k - 1));
        assert(rounds.take(k).last() == rounds[k - 1]);
    }
}

/// When `escaped` succeeds, what it recognised is exactly what its parsers took:
/// the runs of the normal parser and the escapes (the control character and
/// what the parser of escaped tokens took), and nothing else.
pub proof fn law_escaped_output_is_what_parsers_took<'a, T: AsChar, O1, O2, F, G>(
    normal: F,
    control_char: char,
    escapable: G,
    input: &'a [T],
    rounds: Seq<EscapedRound<'a, T, O1, O2>>,
    out: Move<ErrMode<Error<&'a [T]>>>,
    r: IResult<'a, T, &'a [T]>,
) where
    F: Fn(&'a [T]) -> IResult<'a, T, O1>,
    G: Fn(&'a [T]) -> IResult<'a, T, O2>,

    requires
        well_behaved(normal),
        well_behaved(escapable),
        escaped_run(normal, control_char, escapable, input, rounds, out),
        reports(input, out, r),
    ensures
        r matches Ok((rest, o)) ==> {
            &&& o@.len() == total_taken(input, control_char, rounds)
            &&& o@ == input@.take(o@.len() as int)
            &&& rest@ == input@.skip(o@.len() as int)
        },
{
    if input@.len() > 0 && r is Ok {
        let k = rounds.len() - 1;
        lemma_escaped_positions(normal, control_char, escapable, input, rounds, out, k);
        assert(round_valid(normal, control_char, escapable, input, rounds[k]));
        lemma_escaped_round_accounting(normal, control_char, escapable, input, rounds[k]);
        assert(rounds.last() == rounds[k]);
        assert(rounds.take(k) =~= rounds.drop_last());
    }
}

/// When `escaped_transform` succeeds, the input it leaves follows exactly what
/// its parsers took: the runs of the normal parser and the escapes (the control
/// character and what the transforming parser took), and nothing else.
pub proof fn law_escaped_transform_consumes_what_parsers_took<'a, T: AsChar, O1: ExtendInto<T>, O2: ExtendInto<T>, F, G>(
    normal: F,
    control_char: char,
    transform: G,
    input: &'a [T],
    rounds: Seq<EscapedRound<'a, T, O1, O2>>,
    out: Move<ErrMode<Error<&'a [T]>>>,
    r: IResult<'a, T, Vec<T>>,
) where
    F: Fn(&'a [T]) -> IResult<'a, T, O1>,
    G: Fn(&'a [T]) -> IResult<'a, T, O2>,

    requires
        well_behaved(normal),
        well_behaved(transform),
        transform_run(normal, control_char, transform, input, rounds, out),
        reports_transformed(
            input,
            out,
            crate::bytes::complete::collected(input, control_char, rounds),
            r,
        ),
    ensures
        r matches Ok((rest, _)) ==> {
            &&& 0 <= total_taken(input, control_char, rounds) <= input@.len()
            &&& rest@ == input@.skip(total_taken(input, control_char, rounds))
        },
{
    if input@.len() > 0 && r is Ok {
        let k = rounds.len() - 1;
        lemma_transform_positions(normal, control_char, transform, input, rounds, out, k);
        assert(transform_round_valid(normal, control_char, transform, input, rounds[k]));
        lemma_transform_round_accounting(normal, control_char, transform, input, rounds[k]);
        assert(rounds.last() == rounds[k]);
        assert(rounds.take(k) =~= rounds.drop_last());
    }
}

/// The outputs of an `escaped_transform` run's parsers, in the order they
/// were produced: what the normal parser output in each round and, when the
/// round was an escape, what the transforming parser output.
pub open spec fn parser_outputs<'a, T: AsChar, O1: ExtendInto<T>, O2: ExtendInto<T>>(
    input: &'a [T],
    control_char: char,
    rounds: Seq<EscapedRound<'a, T, O1, O2>>,
) -> Seq<T>
    decreases rounds.len(),
{
    if rounds.len() == 0 {
        Seq::empty()
    } else {
        let last = rounds.last();
        let normal_out = match last.res {
            Ok((_, o)) => o.spec_tokens(),
            Err(_) => Seq::empty(),
        };
        let escape_out = if escape_taken(input, control_char, last) {
            match last.escape_res {
                Ok((_, o)) => o.spec_tokens(),
                Err(_) => Seq::empty(),
            }
        } else {
            Seq::empty()
        };
        parser_outputs(input, control_char, rounds.drop_last()) + normal_out + escape_out
    }
}

/// What a run collects is what its parsers output, in order.
proof fn lemma_collected_is_parser_outputs<'a, T: AsChar, O1: ExtendInto<T>, O2: ExtendInto<T>>(
    input: &'a [T],
    control_char: char,
    rounds: Seq<EscapedRound<'a, T, O1, O2>>,
)
    ensures
        crate::bytes::complete::collected(input, control_char, rounds) == parser_outputs(
            input,
            control_char,
            rounds,
        ),
    decreases rounds.len(),
{
    if rounds.len() > 0 {
        lemma_collected_is_parser_outputs(input, control_char, rounds.drop_last());
        let last = rounds.last();
        assert(input.len() == input@.len());
        assert((transform_after_normal(input, last.pos, last.arg, control_char, last.res) is Escape)
            == escape_taken(input, control_char, last));
        let a = crate::bytes::complete::collected(input, control_char, rounds.drop_last());
        let t = crate::bytes::complete::round_tokens(input, control_char, last);
        assert(a + t =~= parser_outputs(input, control_char, rounds));
    }
}

/// When `escaped_transform` succeeds, its output is the concatenation of the
/// whole outputs of its parsers, in order: each run of the normal parser, and
/// for each escape, the transforming parser's output in its place.
pub proof fn law_escaped_transform_output_is_parser_outputs<'a, T: AsChar, O1: ExtendInto<T>, O2: ExtendInto<T>, F, G>(
    normal: F,
    control_char: char,
    transform: G,
    input: &'a [T],
    rounds: Seq<EscapedRound<'a, T, O1, O2>>,
    out: Move<ErrMode<Error<&'a [T]>>>,
    r: IResult<'a, T, Vec<T>>,
) where
    F: Fn(&'a [T]) -> IResult<'a, T, O1>,
    G: Fn(&'a [T]) -> IResult<'a, T, O2>,

    requires
        transform_run(normal, control_char, transform, input, rounds, out),
        reports_transformed(
            input,
            out,
            crate::bytes::complete::collected(input, control_char, rounds),
            r,
        ),
    ensures
        r matches Ok((_, o)) ==> o@ == parser_outputs(input, control_char, rounds),
{
    lemma_collected_is_parser_outputs(input, control_char, rounds);
}

} // verus!
