//! What the parsers need of their tokens, and the scans over token slices
//! that several parsers share.
use vstd::prelude::*;

verus! {

/// The number of bytes of the UTF-8 encoding of `c`.
pub open spec fn spec_len_utf8(c: char) -> nat {
    let u = c as u32;
    if u < 0x80 {
        1
    } else if u < 0x800 {
        2
    } else if u < 0x10000 {
        3
    } else {
        4
    }
}

/// The number of bytes of the UTF-8 encoding of `c`.
pub fn len_utf8(c: char) -> (n: usize)
    ensures
        n == spec_len_utf8(c),
{
    let u = c as u32;
    if u < 0x80 {
        1
    } else if u < 0x800 {
        2
    } else if u < 0x10000 {
        3
    } else {
        4
    }
}

/// The ASCII lower-case form of a byte: `A`..=`Z` become `a`..=`z`, every other
/// byte is left as it is.
pub open spec fn spec_ascii_lower(b: u8) -> u8 {
    if 0x41 <= b <= 0x5a {
        (b + 0x20) as u8
    } else {
        b
    }
}

/// The ASCII lower-case form of a byte.
pub fn ascii_lower(b: u8) -> (r: u8)
    ensures
        r == spec_ascii_lower(b),
{
    if 0x41 <= b && b <= 0x5a {
        b + 0x20
    } else {
        b
    }
}

/// The characters that `char::to_lowercase` yields for `c` (the Unicode
/// lower-case mapping of `c`, one or more characters).
pub uninterp spec fn lowercase(c: char) -> Seq<char>;

/// Calls `char::to_lowercase` on `c` and collects what it yields.
///
/// Claimed: the characters collected are `lowercase(c)`, which depends on `c`
/// alone (the Unicode tables built into std), and there is at least one of
/// them, as std documents. Which characters they are is not said.
#[verifier::external_body]
fn to_lowercase(c: char) -> (r: Vec<char>)
    ensures
        r@ == lowercase(c),
        r@.len() >= 1,
{
    c.to_lowercase().collect()
}

/// Whether two vectors of characters hold the same characters in the same order.
fn same_chars(a: &Vec<char>, b: &Vec<char>) -> (r: bool)
    ensures
        r == (a@ == b@),
{
    if a.len() != b.len() {
        return false;
    }
    let mut i: usize = 0;
    while i < a.len()
        invariant
            a@.len() == b@.len(),
            0 <= i <= a@.len(),
            forall|j: int| 0 <= j < i ==> a@[j] == b@[j],
        decreases a@.len() - i,
    {
        if a[i] != b[i] {
            return false;
        }
        i = i + 1;
    }
    assert(a@ =~= b@);
    true
}

/// A token of the input: a byte or a character.
///
/// The parsers compare tokens, fold their case, read them as characters, and
/// need to know how many tokens a character spans (one for characters, the
/// length of its UTF-8 encoding for bytes).
pub trait AsChar: Copy + Sized {
    /// The character this token stands for.
    spec fn spec_as_char(self) -> char;

    /// Whether two tokens are equal once their case is ignored.
    spec fn spec_eq_no_case(self, other: Self) -> bool;

    /// How many tokens the character `c` spans in an input of such tokens.
    spec fn spec_char_len(c: char) -> nat;

    /// The character this token stands for.
    fn as_char(self) -> (c: char)
        ensures
            c == self.spec_as_char(),
    ;

    /// Whether two tokens are equal.
    fn eq_token(self, other: Self) -> (b: bool)
        ensures
            b == (self == other),
    ;

    /// Whether two tokens are equal once their case is ignored.
    fn eq_no_case(self, other: Self) -> (b: bool)
        ensures
            b == self.spec_eq_no_case(other),
    ;

    /// How many tokens the character `c` spans in an input of such tokens.
    fn char_len(c: char) -> (n: usize)
        ensures
            n == Self::spec_char_len(c),
            1 <= n <= 4,
    ;

    /// Every token is equal to itself once case is ignored.
    proof fn lemma_eq_no_case_reflexive(self)
        ensures
            self.spec_eq_no_case(self),
    ;

    /// A character spans at least one token.
    proof fn lemma_char_len_positive(c: char)
        ensures
            Self::spec_char_len(c) >= 1,
    ;
}

impl AsChar for u8 {
    open spec fn spec_as_char(self) -> char {
        self as char
    }

    open spec fn spec_eq_no_case(self, other: Self) -> bool {
        spec_ascii_lower(self) == spec_ascii_lower(other)
    }

    open spec fn spec_char_len(c: char) -> nat {
        spec_len_utf8(c)
    }

    fn as_char(self) -> (c: char) {
        self as char
    }

    fn eq_token(self, other: Self) -> (b: bool) {
        self == other
    }

    fn eq_no_case(self, other: Self) -> (b: bool) {
        ascii_lower(self) == ascii_lower(other)
    }

    fn char_len(c: char) -> (n: usize) {
        len_utf8(c)
    }

    proof fn lemma_eq_no_case_reflexive(self) {
    }

    proof fn lemma_char_len_positive(c: char) {
    }
}

impl AsChar for char {
    open spec fn spec_as_char(self) -> char {
        self
    }

    open spec fn spec_eq_no_case(self, other: Self) -> bool {
        lowercase(self) == lowercase(other)
    }

    open spec fn spec_char_len(c: char) -> nat {
        1
    }

    fn as_char(self) -> (c: char) {
        self
    }

    fn eq_token(self, other: Self) -> (b: bool) {
        self == other
    }

    fn eq_no_case(self, other: Self) -> (b: bool) {
        let a = to_lowercase(self);
        let b = to_lowercase(other);
        same_chars(&a, &b)
    }

    fn char_len(c: char) -> (n: usize) {
        1
    }

    proof fn lemma_eq_no_case_reflexive(self) {
    }

    proof fn lemma_char_len_positive(c: char) {
    }
}

/// An output that can be appended, token by token, to an accumulator.
pub trait ExtendInto<T> {
    /// The tokens that this output appends.
    spec fn spec_tokens(&self) -> Seq<T>;

    /// Appends this output's tokens to `acc`.
    fn extend_into(&self, acc: &mut Vec<T>)
        ensures
            final(acc)@ == old(acc)@ + self.spec_tokens(),
    ;
}

impl<'b, T: Copy> ExtendInto<T> for &'b [T] {
    open spec fn spec_tokens(&self) -> Seq<T> {
        (**self)@
    }

    fn extend_into(&self, acc: &mut Vec<T>) {
        let ghost start = acc@;
        let mut i: usize = 0;
        while i < self.len()
            invariant
                0 <= i <= self@.len(),
                acc@ == start + self@.take(i as int),
            decreases self@.len() - i,
        {
            acc.push(self[i]);
            i = i + 1;
            assert(self@.take(i as int) =~= self@.take(i - 1).push(self@[i - 1]));
        }
        assert(self@.take(i as int) =~= self@);
    }
}

impl<T: Copy> ExtendInto<T> for Vec<T> {
    open spec fn spec_tokens(&self) -> Seq<T> {
        self@
    }

    fn extend_into(&self, acc: &mut Vec<T>) {
        self.as_slice().extend_into(acc);
    }
}

/// `pred` can be called on every token.
pub open spec fn callable<T, P: Fn(T) -> bool>(pred: P) -> bool {
    forall|t: T| call_requires(pred, (t,))
}

/// `k` is where a scan of `s` with `pred` stops when it looks for the first
/// token on which `pred` answers `stop`: `pred` answered `!stop` on every token
/// before `k`, and `stop` on the token at `k` unless `k` is the end of `s`.
pub open spec fn stops_at<T, P: Fn(T) -> bool>(pred: P, s: Seq<T>, k: int, stop: bool) -> bool {
    &&& 0 <= k <= s.len()
    &&& forall|i: int| 0 <= i < k ==> call_ensures(pred, (s[i],), !stop)
    &&& k < s.len() ==> call_ensures(pred, (s[k],), stop)
}

/// `pred` answers the same on every call with the same token.
pub open spec fn deterministic<T, P: Fn(T) -> bool>(pred: P) -> bool {
    forall|t: T, b1: bool, b2: bool|
        call_ensures(pred, (t,), b1) && call_ensures(pred, (t,), b2) ==> b1 == b2
}

/// A scan stops at one place only, when `pred` answers the same on every call
/// with the same token.
pub proof fn lemma_stops_at_unique<T, P: Fn(T) -> bool>(
    pred: P,
    s: Seq<T>,
    k1: int,
    k2: int,
    stop: bool,
)
    requires
        deterministic(pred),
        stops_at(pred, s, k1, stop),
        stops_at(pred, s, k2, stop),
    ensures
        k1 == k2,
{
    if k1 < k2 {
        assert(call_ensures(pred, (s[k1],), stop));
        assert(call_ensures(pred, (s[k1],), !stop));
    } else if k2 < k1 {
        assert(call_ensures(pred, (s[k2],), stop));
        assert(call_ensures(pred, (s[k2],), !stop));
    }
}

/// Scans `input` for the first token on which `pred` answers `stop`, and
/// returns its index, or the length of `input` if there is none.
pub fn offset_for<T: Copy, P: Fn(T) -> bool>(input: &[T], pred: &P, stop: bool) -> (k: usize)
    requires
        callable(*pred),
    ensures
        stops_at(*pred, input@, k as int, stop),
{
    let mut i: usize = 0;
    while i < input.len()
        invariant
            callable(*pred),
            0 <= i <= input@.len(),
            forall|j: int| 0 <= j < i ==> call_ensures(*pred, (input@[j],), !stop),
        decreases input@.len() - i,
    {
        let t = input[i];
        let b = pred(t);
        if b == stop {
            return i;
        }
        i = i + 1;
    }
    i
}

/// `t` occurs in `s` at index `j`.
pub open spec fn occurs_at<T>(s: Seq<T>, t: Seq<T>, j: int) -> bool {
    0 <= j && j + t.len() <= s.len() && s.subrange(j, j + t.len()) == t
}

/// `s` begins with `t`.
pub open spec fn starts_with<T>(s: Seq<T>, t: Seq<T>) -> bool {
    occurs_at(s, t, 0)
}

/// `s` begins with `t` once the case of tokens is ignored.
pub open spec fn starts_with_no_case<T: AsChar>(s: Seq<T>, t: Seq<T>) -> bool {
    &&& t.len() <= s.len()
    &&& forall|i: int| 0 <= i < t.len() ==> (#[trigger] s[i]).spec_eq_no_case(t[i])
}

/// `j` is the first index at which `t` occurs in `s`.
pub open spec fn first_occurrence_at<T>(s: Seq<T>, t: Seq<T>, j: int) -> bool {
    &&& occurs_at(s, t, j)
    &&& forall|i: int| 0 <= i < j ==> !occurs_at(s, t, i)
}

/// `t` occurs first at one index only.
pub proof fn lemma_first_occurrence_unique<T>(s: Seq<T>, t: Seq<T>, j1: int, j2: int)
    requires
        first_occurrence_at(s, t, j1),
        first_occurrence_at(s, t, j2),
    ensures
        j1 == j2,
{
}

/// Whether `t` occurs in `input` at index `j`.
pub fn matches_at<T: AsChar>(input: &[T], t: &[T], j: usize) -> (r: bool)
    ensures
        r == occurs_at(input@, t@, j as int),
{
    if t.len() > input.len() || j > input.len() - t.len() {
        return false;
    }
    let n = input.len();
    let mut i: usize = 0;
    while i < t.len()
        invariant
            n == input@.len(),
            j + t@.len() <= input@.len(),
            0 <= i <= t@.len(),
            forall|k: int| 0 <= k < i ==> input@[j + k] == t@[k],
        decreases t@.len() - i,
    {
        if !input[j + i].eq_token(t[i]) {
            assert(input@.subrange(j as int, j + t@.len())[i as int] != t@[i as int]);
            return false;
        }
        i = i + 1;
    }
    assert(input@.subrange(j as int, j + t@.len()) =~= t@);
    true
}

/// Whether `input` begins with `t` once the case of tokens is ignored.
pub fn matches_no_case<T: AsChar>(input: &[T], t: &[T]) -> (r: bool)
    ensures
        r == starts_with_no_case(input@, t@),
{
    if t.len() > input.len() {
        return false;
    }
    let mut i: usize = 0;
    while i < t.len()
        invariant
            t@.len() <= input@.len(),
            0 <= i <= t@.len(),
            forall|k: int| 0 <= k < i ==> (#[trigger] input@[k]).spec_eq_no_case(t@[k]),
        decreases t@.len() - i,
    {
        if !input[i].eq_no_case(t[i]) {
            return false;
        }
        i = i + 1;
    }
    true
}

/// The index of the first occurrence of `t` in `input`, if there is one.
pub fn find_slice<T: AsChar>(input: &[T], t: &[T]) -> (r: Option<usize>)
    ensures
        match r {
            Some(j) => first_occurrence_at(input@, t@, j as int),
            None => forall|j: int| !occurs_at(input@, t@, j),
        },
{
    if t.len() > input.len() {
        return None;
    }
    let last = input.len() - t.len();
    let mut j: usize = 0;
    loop
        invariant
            last + t@.len() == input@.len(),
            0 <= j <= last,
            forall|i: int| 0 <= i < j ==> !occurs_at(input@, t@, i),
        decreases last - j,
    {
        if matches_at(input, t, j) {
            return Some(j);
        }
        if j == last {
            assert forall|i: int| !occurs_at(input@, t@, i) by {
                if 0 <= i < j {
                }
            }
            return None;
        }
        j = j + 1;
    }
}

} // verus!
