use vstd::prelude::*;
use vstd::slice::slice_subrange;

verus! {

/// Whether `b` is one of the bytes that `u8::is_ascii_whitespace` accepts:
/// space, horizontal tab, line feed, form feed and carriage return.
pub open spec fn is_ascii_whitespace_byte(b: u8) -> bool {
    b == 0x20 || b == 0x09 || b == 0x0a || b == 0x0c || b == 0x0d
}

/// Whether `b` is an ASCII decimal digit.
pub open spec fn is_ascii_digit_byte(b: u8) -> bool {
    0x30 <= b && b <= 0x39
}

/// `s` without its leading ASCII whitespace.
pub open spec fn trim_leading(s: Seq<u8>) -> Seq<u8>
    decreases s.len(),
{
    if s.len() > 0 && is_ascii_whitespace_byte(s[0]) {
        trim_leading(s.drop_first())
    } else {
        s
    }
}

/// `s` without its trailing ASCII whitespace.
pub open spec fn trim_trailing(s: Seq<u8>) -> Seq<u8>
    decreases s.len(),
{
    if s.len() > 0 && is_ascii_whitespace_byte(s.last()) {
        trim_trailing(s.drop_last())
    } else {
        s
    }
}

/// `s` without leading and trailing ASCII whitespace.
pub open spec fn trim_ascii(s: Seq<u8>) -> Seq<u8> {
    trim_trailing(trim_leading(s))
}

proof fn lemma_trim_leading_skip(s: Seq<u8>, i: int)
    requires
        0 <= i <= s.len(),
        forall|k: int| 0 <= k < i ==> is_ascii_whitespace_byte(#[trigger] s[k]),
    ensures
        trim_leading(s) == trim_leading(s.subrange(i, s.len() as int)),
    decreases i,
{
    if i == 0 {
        assert(s.subrange(0, s.len() as int) =~= s);
    } else {
        let t = s.drop_first();
        assert forall|k: int| 0 <= k < i - 1 implies is_ascii_whitespace_byte(#[trigger] t[k]) by {
            assert(t[k] == s[k + 1]);
        }
        lemma_trim_leading_skip(t, i - 1);
        assert(t.subrange(i - 1, t.len() as int) =~= s.subrange(i, s.len() as int));
    }
}

proof fn lemma_trim_trailing_cut(s: Seq<u8>, j: int)
    requires
        0 <= j <= s.len(),
        forall|k: int| j <= k < s.len() ==> is_ascii_whitespace_byte(#[trigger] s[k]),
    ensures
        trim_trailing(s) == trim_trailing(s.subrange(0, j)),
    decreases s.len() - j,
{
    if j == s.len() {
        assert(s.subrange(0, j) =~= s);
    } else {
        let t = s.drop_last();
        assert forall|k: int| j <= k < t.len() implies is_ascii_whitespace_byte(#[trigger] t[k]) by {
            assert(t[k] == s[k]);
        }
        lemma_trim_trailing_cut(t, j);
        assert(t.subrange(0, j) =~= s.subrange(0, j));
    }
}

/// Strips leading and trailing ASCII whitespace.
fn trim_ascii_whitespace(input: &[u8]) -> (trimmed: &[u8])
    ensures
        trimmed@ == trim_ascii(input@),
{
    let mut start: usize = 0;
    while start < input.len() && is_ascii_whitespace(input[start])
        invariant
            start <= input@.len(),
            forall|k: int| 0 <= k < start ==> is_ascii_whitespace_byte(#[trigger] input@[k]),
        decreases input@.len() - start,
    {
        start += 1;
    }
    let mut end: usize = input.len();
    while end > start && is_ascii_whitespace(input[end - 1])
        invariant
            start <= end <= input@.len(),
            forall|k: int| end <= k < input@.len() ==> is_ascii_whitespace_byte(#[trigger] input@[k]),
        decreases end,
    {
        end -= 1;
    }
    proof {
        let s = input@;
        lemma_trim_leading_skip(s, start as int);
        let rest = s.subrange(start as int, s.len() as int);
        assert(trim_leading(rest) == rest);
        assert forall|k: int| end - start <= k < rest.len() implies is_ascii_whitespace_byte(
            #[trigger] rest[k],
        ) by {
            assert(rest[k] == s[k + start]);
        }
        lemma_trim_trailing_cut(rest, end - start);
        let cut = rest.subrange(0, end - start);
        assert(cut =~= s.subrange(start as int, end as int));
        if cut.len() > 0 {
            assert(cut.last() == s[end - 1]);
        }
        assert(trim_trailing(cut) == cut);
    }
    slice_subrange(input, start, end)
}

fn is_ascii_whitespace(b: u8) -> (r: bool)
    ensures
        r == is_ascii_whitespace_byte(b),
{
    b == 0x20 || b == 0x09 || b == 0x0a || b == 0x0c || b == 0x0d
}


/// Why a CPU list could not be used as a process-visible CPU view.
#[derive(Clone, Copy, Debug, PartialEq, Eq, Structural)]
pub enum ParseError {
    Empty,
    InvalidCharacter,
    InvalidNumber,
    ReversedRange,
    UnorderedOrOverlapping,
    Overflow,
    ZeroCount,
    CountExceedsAbi,
}

impl ParseError {
    /// A sentence that describes the error.
    pub fn message(&self) -> (text: &'static str)
        ensures
            text@ == spec_parse_error_message(*self)@,
    {
        match self {
            ParseError::Empty => "CPU list is empty",
            ParseError::InvalidCharacter => "CPU list contains invalid syntax",
            ParseError::InvalidNumber => "CPU list contains an invalid CPU number",
            ParseError::ReversedRange => "CPU list contains a reversed range",
            ParseError::UnorderedOrOverlapping => "CPU list is unordered or overlapping",
            ParseError::Overflow => "CPU list arithmetic overflowed",
            ParseError::ZeroCount => "CPU list contains no CPUs",
            ParseError::CountExceedsAbi => "CPU count does not fit the public ABI",
        }
    }
}

/// The sentence that describes each parse error.
pub open spec fn spec_parse_error_message(e: ParseError) -> &'static str {
    match e {
        ParseError::Empty => "CPU list is empty",
        ParseError::InvalidCharacter => "CPU list contains invalid syntax",
        ParseError::InvalidNumber => "CPU list contains an invalid CPU number",
        ParseError::ReversedRange => "CPU list contains a reversed range",
        ParseError::UnorderedOrOverlapping => "CPU list is unordered or overlapping",
        ParseError::Overflow => "CPU list arithmetic overflowed",
        ParseError::ZeroCount => "CPU list contains no CPUs",
        ParseError::CountExceedsAbi => "CPU count does not fit the public ABI",
    }
}

/// The value of the ASCII digit `b`.
pub open spec fn digit_value(b: u8) -> nat {
    (b - 0x30) as nat
}

/// The number of consecutive ASCII digits in `s` starting at index `i`.
pub open spec fn digit_run(s: Seq<u8>, i: int) -> nat
    decreases s.len() - i,
{
    if 0 <= i < s.len() && is_ascii_digit_byte(s[i]) {
        1 + digit_run(s, i + 1)
    } else {
        0
    }
}

/// The decimal value of the `n` digits of `s` that start at index `i`.
pub open spec fn decimal_value(s: Seq<u8>, i: int, n: nat) -> nat
    decreases n,
{
    if n == 0 {
        0
    } else {
        decimal_value(s, i, (n - 1) as nat) * 10 + digit_value(s[i + n - 1])
    }
}

/// The unsigned decimal number at index `i` of `s`, with the index just past it.
pub open spec fn spec_parse_number(s: Seq<u8>, i: int) -> Result<(usize, int), ParseError> {
    let n = digit_run(s, i);
    if n == 0 {
        Err(ParseError::InvalidNumber)
    } else if decimal_value(s, i, n) > usize::MAX {
        Err(ParseError::Overflow)
    } else {
        Ok((decimal_value(s, i, n) as usize, i + n))
    }
}

pub(crate) proof fn lemma_digit_run_split(s: Seq<u8>, i: int, j: int)
    requires
        0 <= i <= j <= s.len(),
        forall|k: int| i <= k < j ==> is_ascii_digit_byte(#[trigger] s[k]),
    ensures
        digit_run(s, i) == (j - i) + digit_run(s, j),
    decreases j - i,
{
    if i < j {
        lemma_digit_run_split(s, i + 1, j);
    }
}

proof fn lemma_decimal_value_monotonic(s: Seq<u8>, i: int, k: nat, m: nat)
    requires
        k <= m,
    ensures
        decimal_value(s, i, k) <= decimal_value(s, i, m),
    decreases m,
{
    if k < m {
        lemma_decimal_value_monotonic(s, i, k, (m - 1) as nat);
    }
}

/// Parses the decimal number that starts at `*offset` and moves `*offset` past it.
fn parse_number(input: &[u8], offset: &mut usize) -> (r: Result<usize, ParseError>)
    ensures
        match spec_parse_number(input@, *old(offset) as int) {
            Ok((value, next)) => r == Ok::<usize, ParseError>(value) && *final(offset) == next,
            Err(e) => r == Err::<usize, ParseError>(e),
        },
        r == Err::<usize, ParseError>(ParseError::InvalidNumber) ==> *final(offset) == *old(offset),
        r == Err::<usize, ParseError>(ParseError::Overflow) ==> {
            let digits = (*final(offset) - *old(offset)) as nat;
            &&& *old(offset) <= *final(offset)
            &&& digits < digit_run(input@, *old(offset) as int)
            &&& decimal_value(input@, *old(offset) as int, digits) <= usize::MAX
            &&& decimal_value(input@, *old(offset) as int, digits + 1) > usize::MAX
        },
{
    let ghost s = input@;
    let start = *offset;
    let mut value: usize = 0;
    while *offset < input.len() && is_ascii_digit(input[*offset])
        invariant
            start <= *offset,
            *offset <= s.len() || *offset == start,
            start == *old(offset),
            s == input@,
            forall|k: int| start <= k < *offset ==> is_ascii_digit_byte(#[trigger] s[k]),
            value as nat == decimal_value(s, start as int, (*offset - start) as nat),
        decreases s.len() - *offset,
    {
        let byte = input[*offset];
        let ghost n: nat = (*offset - start) as nat;
        assert(decimal_value(s, start as int, n + 1) == value * 10 + digit_value(byte));
        let next = match value.checked_mul(10) {
            Some(tens) => tens.checked_add((byte - 0x30) as usize),
            None => None,
        };
        match next {
            Some(v) => {
                value = v;
            },
            None => {
                proof {
                    assert(value * 10 + digit_value(byte) > usize::MAX);
                    lemma_digit_run_split(s, start as int, *offset as int);
                    assert(digit_run(s, *offset as int) >= 1);
                    lemma_decimal_value_monotonic(s, start as int, n + 1, digit_run(s, start as int));
                }
                return Err(ParseError::Overflow);
            },
        }
        *offset += 1;
    }
    proof {
        if start <= s.len() {
            lemma_digit_run_split(s, start as int, *offset as int);
        }
    }
    if *offset == start {
        return Err(ParseError::InvalidNumber);
    }
    Ok(value)
}

fn is_ascii_digit(b: u8) -> (r: bool)
    ensures
        r == is_ascii_digit_byte(b),
{
    0x30 <= b && b <= 0x39
}


/// A validated Linux CPU list.
#[derive(Clone, Copy, Debug, PartialEq, Eq)]
pub struct CpuList {
    count: usize,
    contiguous_from_zero: bool,
}

impl View for CpuList {
    /// The number of CPUs in the list, and whether the list is exactly `0..count`.
    type V = (nat, bool);

    closed spec fn view(&self) -> (nat, bool) {
        (self.count as nat, self.contiguous_from_zero)
    }
}

impl CpuList {
    #[verifier::type_invariant]
    spec fn counts_fit_abi(self) -> bool {
        1 <= self.count <= i32::MAX
    }

    /// Returns the number of CPUs in the list.
    pub fn count(self) -> (n: usize)
        ensures
            n == self@.0,
            1 <= n <= i32::MAX,
    {
        proof {
            use_type_invariant(&self);
        }
        self.count
    }

    /// Returns whether the list is exactly `0..count`.
    pub fn is_contiguous_from_zero(self) -> (b: bool)
        ensures
            b == self@.1,
    {
        self.contiguous_from_zero
    }
}

/// The range `start-end` (or the single CPU `start`) at index `i` of `s`,
/// with the index just past it.
pub open spec fn spec_parse_range(s: Seq<u8>, i: int) -> Result<(usize, usize, int), ParseError> {
    match spec_parse_number(s, i) {
        Err(e) => Err(e),
        Ok((start, j)) => if j < s.len() && s[j] == 0x2d {
            match spec_parse_number(s, j + 1) {
                Err(e) => Err(e),
                Ok((end, k)) => if end < start {
                    Err(ParseError::ReversedRange)
                } else {
                    Ok((start, end, k))
                },
            }
        } else {
            Ok((start, start, j))
        },
    }
}

/// The number of CPUs that the inclusive ranges of `r` name, counted with repetition.
pub open spec fn total_width(r: Seq<(usize, usize)>) -> int
    decreases r.len(),
{
    if r.len() == 0 {
        0
    } else {
        total_width(r.drop_last()) + (r.last().1 - r.last().0 + 1)
    }
}

/// Whether the ranges of `r` are, in order, exactly `0..n` for some `n > 0`.
pub open spec fn ranges_contiguous_from_zero(r: Seq<(usize, usize)>) -> bool {
    &&& r.len() > 0
    &&& r[0].0 == 0
    &&& forall|i: int| 0 < i < r.len() ==> #[trigger] r[i].0 == r[i - 1].1 + 1
}

pub proof fn lemma_parse_number_advances(s: Seq<u8>, i: int)
    ensures
        spec_parse_number(s, i) matches Ok((_, j)) ==> 0 <= i < j <= s.len(),
{
    if digit_run(s, i) > 0 {
        lemma_digit_run_bound(s, i);
    }
}

pub proof fn lemma_digit_run_bound(s: Seq<u8>, i: int)
    requires
        digit_run(s, i) > 0,
    ensures
        0 <= i,
        i + digit_run(s, i) <= s.len(),
    decreases s.len() - i,
{
    if digit_run(s, i + 1) > 0 {
        lemma_digit_run_bound(s, i + 1);
    }
}

pub proof fn lemma_parse_range_advances(s: Seq<u8>, i: int)
    ensures
        spec_parse_range(s, i) matches Ok((_, _, k)) ==> 0 <= i < k <= s.len(),
{
    lemma_parse_number_advances(s, i);
    if let Ok((_, j)) = spec_parse_number(s, i) {
        lemma_parse_number_advances(s, j + 1);
    }
}

/// The comma-separated ranges of `s` from index `i` on, appended to the
/// ranges `acc` already read, or the first reason to reject them, found
/// in reading order.
pub open spec fn spec_parse_ranges(s: Seq<u8>, i: int, acc: Seq<(usize, usize)>) -> Result<
    Seq<(usize, usize)>,
    ParseError,
>
    decreases s.len() - i,
{
    match spec_parse_range(s, i) {
        Err(e) => Err(e),
        Ok((start, end, k)) => {
            let total = total_width(acc) + (end - start + 1);
            if acc.len() > 0 && start <= acc.last().1 {
                Err(ParseError::UnorderedOrOverlapping)
            } else if end - start + 1 > usize::MAX || total > usize::MAX {
                Err(ParseError::Overflow)
            } else if total > i32::MAX {
                Err(ParseError::CountExceedsAbi)
            } else if k >= s.len() {
                Ok(acc.push((start, end)))
            } else if s[k] != 0x2c || k + 1 >= s.len() {
                Err(ParseError::InvalidCharacter)
            } else {
                proof {
                    lemma_parse_range_advances(s, i);
                }
                spec_parse_ranges(s, k + 1, acc.push((start, end)))
            }
        },
    }
}

/// The ranges that `input` lists, once surrounding whitespace is trimmed.
pub open spec fn spec_cpu_ranges(input: Seq<u8>) -> Result<Seq<(usize, usize)>, ParseError> {
    let t = trim_ascii(input);
    if t.len() == 0 {
        Err(ParseError::Empty)
    } else {
        spec_parse_ranges(t, 0, Seq::empty())
    }
}

/// What parsing `input` gives: the CPU count and whether the list is
/// exactly `0..count`, or why it is rejected.
pub open spec fn spec_parse_cpu_list(input: Seq<u8>) -> Result<(nat, bool), ParseError> {
    match spec_cpu_ranges(input) {
        Ok(r) => Ok((total_width(r) as nat, ranges_contiguous_from_zero(r))),
        Err(e) => Err(e),
    }
}

proof fn lemma_push_contiguous(r: Seq<(usize, usize)>, x: (usize, usize))
    ensures
        ranges_contiguous_from_zero(r.push(x)) == if r.len() == 0 {
            x.0 == 0
        } else {
            ranges_contiguous_from_zero(r) && x.0 == r.last().1 + 1
        },
{
    let q = r.push(x);
    if r.len() > 0 {
        if ranges_contiguous_from_zero(q) {
            assert forall|i: int| 0 < i < r.len() implies #[trigger] r[i].0 == r[i - 1].1 + 1 by {
                assert(q[i] == r[i] && q[i - 1] == r[i - 1]);
            }
            assert(q[r.len() as int] == x);
        }
        if ranges_contiguous_from_zero(r) && x.0 == r.last().1 + 1 {
            assert forall|i: int| 0 < i < q.len() implies #[trigger] q[i].0 == q[i - 1].1 + 1 by {
                if i < r.len() {
                    assert(q[i] == r[i] && q[i - 1] == r[i - 1]);
                }
            }
        }
    }
}

/// Parses Linux CPU-list syntax such as `0-3,8-11`.
///
/// Input must be globally ordered and non-overlapping. Whitespace is accepted
/// only at the beginning and end, matching the newline-terminated sysfs file.
pub fn parse_cpu_list(input: &[u8]) -> (res: Result<CpuList, ParseError>)
    ensures
        match res {
            Ok(list) => spec_parse_cpu_list(input@) == Ok::<(nat, bool), ParseError>(list@),
            Err(e) => spec_parse_cpu_list(input@) == Err::<(nat, bool), ParseError>(e),
        },
{
    let ghost raw = input@;
    let text = trim_ascii_whitespace(input);
    if text.len() == 0 {
        return Err(ParseError::Empty);
    }
    let ghost s = text@;

    let mut offset: usize = 0;
    let mut count: usize = 0;
    let mut previous_end: Option<usize> = None;
    let mut contiguous_from_zero = true;
    let ghost mut acc: Seq<(usize, usize)> = Seq::empty();

    while offset < text.len()
        invariant_except_break
            offset < s.len(),
            spec_parse_ranges(s, 0, Seq::empty()) == spec_parse_ranges(s, offset as int, acc),
        invariant
            s == text@,
            s == trim_ascii(raw),
            raw == input@,
            s.len() > 0,
            count == total_width(acc),
            count <= i32::MAX,
            acc.len() > 0 ==> count > 0,
            previous_end == (if acc.len() > 0 { Some(acc.last().1) } else { None::<usize> }),
            contiguous_from_zero == (acc.len() == 0 || ranges_contiguous_from_zero(acc)),
        ensures
            spec_parse_ranges(s, 0, Seq::empty()) == Ok::<Seq<(usize, usize)>, ParseError>(acc),
            acc.len() > 0,
        decreases s.len() - offset,
    {
        proof {
            lemma_parse_number_advances(s, offset as int);
        }
        let start = match parse_number(text, &mut offset) {
            Ok(v) => v,
            Err(e) => return Err(e),
        };
        let end = if offset < text.len() && text[offset] == 0x2d {
            offset += 1;
            proof {
                lemma_parse_number_advances(s, offset as int);
            }
            let end = match parse_number(text, &mut offset) {
                Ok(v) => v,
                Err(e) => return Err(e),
            };
            if end < start {
                return Err(ParseError::ReversedRange);
            }
            end
        } else {
            start
        };

        if let Some(previous_end) = previous_end {
            if start <= previous_end {
                return Err(ParseError::UnorderedOrOverlapping);
            }
            let after_previous = match previous_end.checked_add(1) {
                Some(v) => v,
                None => return Err(ParseError::Overflow),
            };
            if start != after_previous {
                contiguous_from_zero = false;
            }
        } else if start != 0 {
            contiguous_from_zero = false;
        }

        let range_count = match end.checked_sub(start) {
            Some(width) => match width.checked_add(1) {
                Some(n) => n,
                None => return Err(ParseError::Overflow),
            },
            None => return Err(ParseError::Overflow),
        };
        count = match count.checked_add(range_count) {
            Some(n) => n,
            None => return Err(ParseError::Overflow),
        };
        if count > i32::MAX as usize {
            return Err(ParseError::CountExceedsAbi);
        }
        proof {
            lemma_push_contiguous(acc, (start, end));
            assert(acc.push((start, end)).drop_last() =~= acc);
            acc = acc.push((start, end));
        }
        previous_end = Some(end);

        if offset == text.len() {
            break;
        }
        if text[offset] != 0x2c {
            return Err(ParseError::InvalidCharacter);
        }
        offset += 1;
        if offset == text.len() {
            return Err(ParseError::InvalidCharacter);
        }
    }

    if count == 0 {
        return Err(ParseError::ZeroCount);
    }

    Ok(CpuList { count, contiguous_from_zero })
}

} // verus!
