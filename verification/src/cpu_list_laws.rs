use vstd::prelude::*;
use vstd::set_lib::{lemma_int_range, lemma_set_disjoint_lens, set_int_range};

use crate::cpu_list::{
    decimal_value, digit_run, digit_value, is_ascii_digit_byte, lemma_digit_run_split,
    spec_parse_number, is_ascii_whitespace_byte, lemma_parse_range_advances, trim_ascii, trim_leading, trim_trailing, ranges_contiguous_from_zero, spec_cpu_ranges, spec_parse_cpu_list,
    spec_parse_range, spec_parse_ranges, total_width,
};

verus! {

/// Whether every range of `r` is well formed (`start <= end`) and starts
/// after the previous one ends: the ranges ascend and do not overlap.
pub open spec fn ranges_ascending(r: Seq<(usize, usize)>) -> bool {
    &&& forall|i: int| 0 <= i < r.len() ==> #[trigger] r[i].0 <= r[i].1
    &&& forall|i: int| 0 < i < r.len() ==> r[i - 1].1 < #[trigger] r[i].0
}

/// The CPUs that the inclusive ranges of `r` name.
pub open spec fn range_cpus(r: Seq<(usize, usize)>) -> Set<int> {
    Set::new(|c: int| exists|i: int| #![trigger r[i]] 0 <= i < r.len() && r[i].0 <= c <= r[i].1)
}

/// The CPUs that the CPU list `input` names, where it parses.
pub open spec fn listed_cpus(input: Seq<u8>) -> Set<int> {
    match spec_cpu_ranges(input) {
        Ok(r) => range_cpus(r),
        Err(_) => Set::empty(),
    }
}

proof fn lemma_ascending_push(r: Seq<(usize, usize)>, x: (usize, usize))
    requires
        ranges_ascending(r),
        x.0 <= x.1,
        r.len() > 0 ==> r.last().1 < x.0,
    ensures
        ranges_ascending(r.push(x)),
{
    let q = r.push(x);
    assert forall|i: int| 0 <= i < q.len() implies #[trigger] q[i].0 <= q[i].1 by {
        if i < r.len() {
            assert(q[i] == r[i]);
        }
    }
    assert forall|i: int| 0 < i < q.len() implies q[i - 1].1 < #[trigger] q[i].0 by {
        if i < r.len() {
            assert(q[i] == r[i] && q[i - 1] == r[i - 1]);
        }
    }
}

proof fn lemma_parse_ranges_shape(s: Seq<u8>, i: int, acc: Seq<(usize, usize)>)
    requires
        ranges_ascending(acc),
        0 <= total_width(acc),
    ensures
        spec_parse_ranges(s, i, acc) matches Ok(r) ==> {
            &&& ranges_ascending(r)
            &&& r.len() > 0
            &&& total_width(r) <= i32::MAX
        },
    decreases s.len() - i,
{
    if let Ok((start, end, k)) = spec_parse_range(s, i) {
        let total = total_width(acc) + (end - start + 1);
        let next = acc.push((start, end));
        if !(acc.len() > 0 && start <= acc.last().1) && !(end - start + 1 > usize::MAX || total
            > usize::MAX) && !(total > i32::MAX) {
            lemma_ascending_push(acc, (start, end));
            assert(next.drop_last() =~= acc);
            if k < s.len() && s[k] == 0x2c && k + 1 < s.len() {
                lemma_parse_range_advances(s, i);
                lemma_parse_ranges_shape(s, k + 1, next);
            }
        }
    }
}

proof fn lemma_total_width_at_least_len(r: Seq<(usize, usize)>)
    requires
        ranges_ascending(r),
    ensures
        total_width(r) >= r.len(),
    decreases r.len(),
{
    if r.len() > 0 {
        let p = r.drop_last();
        assert(ranges_ascending(p)) by {
            assert forall|i: int| 0 <= i < p.len() implies #[trigger] p[i].0 <= p[i].1 by {
                assert(p[i] == r[i]);
            }
            assert forall|i: int| 0 < i < p.len() implies p[i - 1].1 < #[trigger] p[i].0 by {
                assert(p[i] == r[i] && p[i - 1] == r[i - 1]);
            }
        }
        lemma_total_width_at_least_len(p);
        assert(r.last() == r[r.len() - 1]);
    }
}

/// Every list that parses names ascending, non-overlapping ranges, and its
/// CPU count lies in `1..=i32::MAX`.
pub proof fn law_parsed_ranges_ascend(input: Seq<u8>)
    ensures
        spec_cpu_ranges(input) matches Ok(r) ==> ranges_ascending(r) && r.len() > 0,
        spec_parse_cpu_list(input) matches Ok((n, _)) ==> 1 <= n <= i32::MAX,
{
    let t = crate::cpu_list::trim_ascii(input);
    if t.len() > 0 {
        let e = Seq::<(usize, usize)>::empty();
        assert(ranges_ascending(e));
        lemma_parse_ranges_shape(t, 0, e);
        if let Ok(r) = spec_cpu_ranges(input) {
            lemma_total_width_at_least_len(r);
        }
    }
}


/// Whether each range of `r` starts right after the previous one ends.
pub open spec fn ranges_adjacent(r: Seq<(usize, usize)>) -> bool {
    forall|i: int| 0 < i < r.len() ==> #[trigger] r[i].0 == r[i - 1].1 + 1
}

proof fn lemma_ascending_drop_last(r: Seq<(usize, usize)>)
    requires
        ranges_ascending(r),
        r.len() > 0,
    ensures
        ranges_ascending(r.drop_last()),
{
    let p = r.drop_last();
    assert forall|i: int| 0 <= i < p.len() implies #[trigger] p[i].0 <= p[i].1 by {
        assert(p[i] == r[i]);
    }
    assert forall|i: int| 0 < i < p.len() implies p[i - 1].1 < #[trigger] p[i].0 by {
        assert(p[i] == r[i] && p[i - 1] == r[i - 1]);
    }
}

proof fn lemma_range_cpus_shape(r: Seq<(usize, usize)>)
    requires
        ranges_ascending(r),
        r.len() > 0,
    ensures
        range_cpus(r).finite(),
        range_cpus(r).len() == total_width(r),
        forall|c: int| #[trigger] range_cpus(r).contains(c) ==> r[0].0 <= c <= r.last().1,
        r.last().1 + 1 - r[0].0 >= total_width(r),
        (r.last().1 + 1 - r[0].0 == total_width(r)) == ranges_adjacent(r),
        ranges_adjacent(r) ==> range_cpus(r) == set_int_range(r[0].0 as int, r.last().1 + 1),
    decreases r.len(),
{
    let x = r.last();
    assert(x == r[r.len() - 1]);
    let last_cpus = set_int_range(x.0 as int, x.1 + 1);
    lemma_int_range(x.0 as int, x.1 + 1);
    if r.len() == 1 {
        assert(range_cpus(r) =~= last_cpus) by {
            assert forall|c: int| last_cpus.contains(c) implies #[trigger] range_cpus(r).contains(c) by {
                assert(r[0].0 <= c <= r[0].1);
            }
        }
        assert(r.drop_last() =~= Seq::<(usize, usize)>::empty());
        assert(total_width(r) == total_width(r.drop_last()) + (x.1 - x.0 + 1));
        assert(total_width(r) == x.1 - x.0 + 1);
    } else {
        let p = r.drop_last();
        lemma_ascending_drop_last(r);
        lemma_range_cpus_shape(p);
        assert(p.last() == r[r.len() - 2]);
        assert(p[0] == r[0]);
        let pc = range_cpus(p);
        assert(total_width(r) == total_width(p) + (x.1 - x.0 + 1));
        assert(range_cpus(r) =~= pc + last_cpus) by {
            assert forall|c: int| #[trigger] range_cpus(r).contains(c) implies (pc + last_cpus).contains(c) by {
                let i = choose|i: int| #![trigger r[i]] 0 <= i < r.len() && r[i].0 <= c <= r[i].1;
                if i < p.len() {
                    assert(p[i] == r[i]);
                }
            }
            assert forall|c: int| #[trigger] pc.contains(c) implies range_cpus(r).contains(c) by {
                let i = choose|i: int| #![trigger p[i]] 0 <= i < p.len() && p[i].0 <= c <= p[i].1;
                assert(p[i] == r[i]);
            }
            assert forall|c: int| #[trigger] last_cpus.contains(c) implies range_cpus(r).contains(c) by {
                assert(r[r.len() - 1].0 <= c <= r[r.len() - 1].1);
            }
        }
        assert(pc.disjoint(last_cpus));
        lemma_set_disjoint_lens(pc, last_cpus);
        assert forall|c: int| #[trigger] range_cpus(r).contains(c) implies r[0].0 <= c <= r.last().1 by {
            if pc.contains(c) {
            }
        }
        if ranges_adjacent(r) {
            assert(ranges_adjacent(p)) by {
                assert forall|i: int| 0 < i < p.len() implies #[trigger] p[i].0 == p[i - 1].1 + 1 by {
                    assert(p[i] == r[i] && p[i - 1] == r[i - 1]);
                }
            }
            assert(r[r.len() - 1].0 == r[r.len() - 2].1 + 1);
            assert(range_cpus(r) =~= set_int_range(r[0].0 as int, r.last().1 + 1));
        }
        if r.last().1 + 1 - r[0].0 == total_width(r) {
            assert(x.0 == p.last().1 + 1);
            assert(ranges_adjacent(p));
            assert forall|i: int| 0 < i < r.len() implies #[trigger] r[i].0 == r[i - 1].1 + 1 by {
                if i < p.len() {
                    assert(p[i] == r[i] && p[i - 1] == r[i - 1]);
                }
            }
        }
    }
}

/// The CPU count of a list that parses is the number of CPUs it names,
/// and the list is reported as contiguous from zero exactly when the CPUs
/// it names are `0..count`.
pub proof fn law_parsed_list_describes_listed_cpus(input: Seq<u8>)
    ensures
        spec_parse_cpu_list(input) matches Ok((n, contiguous)) ==> {
            &&& listed_cpus(input).finite()
            &&& listed_cpus(input).len() == n
            &&& contiguous <==> listed_cpus(input) == set_int_range(0, n as int)
        },
{
    law_parsed_ranges_ascend(input);
    if let Ok(r) = spec_cpu_ranges(input) {
        lemma_range_cpus_shape(r);
        lemma_total_width_at_least_len(r);
        let n = total_width(r);
        let cpus = range_cpus(r);
        if ranges_contiguous_from_zero(r) {
            assert(ranges_adjacent(r));
        }
        if cpus == set_int_range(0, n) {
            assert(cpus.contains(0));
            assert(cpus.contains(r.last().1 as int)) by {
                assert(r[r.len() - 1].0 <= r.last().1 <= r[r.len() - 1].1);
            }
            assert(r[0].0 == 0);
            assert(ranges_adjacent(r));
        }
    }
}


/// Whether every byte of `s` is ASCII whitespace.
pub open spec fn all_ascii_whitespace(s: Seq<u8>) -> bool {
    forall|k: int| 0 <= k < s.len() ==> is_ascii_whitespace_byte(#[trigger] s[k])
}

proof fn lemma_trim_leading_after_whitespace(w: Seq<u8>, x: Seq<u8>)
    requires
        all_ascii_whitespace(w),
    ensures
        trim_leading(w + x) == trim_leading(x),
    decreases w.len(),
{
    if w.len() == 0 {
        assert(w + x =~= x);
    } else {
        let w2 = w.drop_first();
        assert((w + x)[0] == w[0]);
        assert((w + x).drop_first() =~= w2 + x);
        assert(all_ascii_whitespace(w2)) by {
            assert forall|k: int| 0 <= k < w2.len() implies is_ascii_whitespace_byte(#[trigger] w2[k]) by {
                assert(w2[k] == w[k + 1]);
            }
        }
        lemma_trim_leading_after_whitespace(w2, x);
    }
}

proof fn lemma_trim_trailing_before_whitespace(x: Seq<u8>, w: Seq<u8>)
    requires
        all_ascii_whitespace(w),
    ensures
        trim_trailing(x + w) == trim_trailing(x),
    decreases w.len(),
{
    if w.len() == 0 {
        assert(x + w =~= x);
    } else {
        let w2 = w.drop_last();
        assert((x + w).last() == w.last());
        assert(w.last() == w[w.len() - 1]);
        assert((x + w).drop_last() =~= x + w2);
        assert(all_ascii_whitespace(w2)) by {
            assert forall|k: int| 0 <= k < w2.len() implies is_ascii_whitespace_byte(#[trigger] w2[k]) by {
                assert(w2[k] == w[k]);
            }
        }
        lemma_trim_trailing_before_whitespace(x, w2);
    }
}

proof fn lemma_trim_leading_then_whitespace(d: Seq<u8>, w: Seq<u8>)
    requires
        all_ascii_whitespace(w),
    ensures
        trim_leading(d + w) == (if trim_leading(d).len() > 0 {
            trim_leading(d) + w
        } else {
            Seq::<u8>::empty()
        }),
    decreases d.len(),
{
    if d.len() == 0 {
        assert(d + w =~= Seq::<u8>::empty() + w);
        lemma_trim_leading_after_whitespace(w, Seq::<u8>::empty());
        assert(w + Seq::<u8>::empty() =~= w);
        assert(d + w =~= w);
    } else {
        assert((d + w)[0] == d[0]);
        if is_ascii_whitespace_byte(d[0]) {
            assert((d + w).drop_first() =~= d.drop_first() + w);
            lemma_trim_leading_then_whitespace(d.drop_first(), w);
        }
    }
}

/// Leading and trailing ASCII whitespace never changes what a CPU list
/// parses to.
pub proof fn law_surrounding_whitespace_is_ignored(prefix: Seq<u8>, data: Seq<u8>, suffix: Seq<u8>)
    requires
        all_ascii_whitespace(prefix),
        all_ascii_whitespace(suffix),
    ensures
        spec_parse_cpu_list(prefix + data + suffix) == spec_parse_cpu_list(data),
        spec_cpu_ranges(prefix + data + suffix) == spec_cpu_ranges(data),
{
    assert(prefix + data + suffix =~= prefix + (data + suffix));
    lemma_trim_leading_after_whitespace(prefix, data + suffix);
    lemma_trim_leading_then_whitespace(data, suffix);
    if trim_leading(data).len() > 0 {
        lemma_trim_trailing_before_whitespace(trim_leading(data), suffix);
    }
    assert(trim_ascii(prefix + data + suffix) == trim_ascii(data));
}


/// The decimal digits of `v`, most significant first, without leading zeros.
pub open spec fn decimal_digits(v: nat) -> Seq<u8>
    decreases v,
{
    if v < 10 {
        seq![(0x30 + v) as u8]
    } else {
        decimal_digits(v / 10) + seq![(0x30 + v % 10) as u8]
    }
}

/// The canonical CPU list of the CPUs `0..n`: `0` for one CPU, else `0-` and
/// the decimal digits of `n - 1`.
pub open spec fn canonical_cpu_list(n: nat) -> Seq<u8> {
    if n <= 1 {
        seq![0x30u8]
    } else {
        seq![0x30u8, 0x2du8] + decimal_digits((n - 1) as nat)
    }
}

proof fn lemma_decimal_digits(v: nat, s: Seq<u8>, i: int)
    requires
        0 <= i,
        i + decimal_digits(v).len() <= s.len(),
        forall|k: int| 0 <= k < decimal_digits(v).len() ==> s[i + k] == #[trigger] decimal_digits(v)[k],
    ensures
        decimal_digits(v).len() >= 1,
        forall|k: int| 0 <= k < decimal_digits(v).len() ==> is_ascii_digit_byte(
            #[trigger] decimal_digits(v)[k],
        ),
        decimal_value(s, i, decimal_digits(v).len()) == v,
    decreases v,
{
    let d = decimal_digits(v);
    if v < 10 {
        assert(s[i + 0] == d[0]);
        assert(decimal_value(s, i, 1) == decimal_value(s, i, 0) * 10 + digit_value(s[i]));
    } else {
        let p = decimal_digits(v / 10);
        assert(d == p + seq![(0x30 + v % 10) as u8]);
        assert forall|k: int| 0 <= k < p.len() implies s[i + k] == #[trigger] p[k] by {
            assert(d[k] == p[k]);
        }
        lemma_decimal_digits(v / 10, s, i);
        assert(d[p.len() as int] == (0x30 + v % 10) as u8);
        assert(s[i + p.len()] == d[p.len() as int]);
        assert forall|k: int| 0 <= k < d.len() implies is_ascii_digit_byte(#[trigger] d[k]) by {
            if k < p.len() {
                assert(d[k] == p[k]);
            }
        }
        assert(decimal_value(s, i, d.len()) == decimal_value(s, i, p.len()) * 10 + digit_value(
            s[i + p.len()],
        ));
    }
}

/// The canonical list `0-{n-1}` (or `0`) of `n` CPUs parses back to a list of
/// `n` CPUs that is contiguous from zero, for every count that the ABI admits.
pub proof fn law_canonical_list_round_trip(n: nat)
    requires
        1 <= n <= i32::MAX,
    ensures
        spec_parse_cpu_list(canonical_cpu_list(n)) == Ok::<(nat, bool), crate::cpu_list::ParseError>((n, true)),
{
    let s = canonical_cpu_list(n);
    assert(!is_ascii_whitespace_byte(s[0]));
    assert(trim_leading(s) == s);
    if n == 1 {
        assert(s.last() == s[0]);
        assert(trim_trailing(s) == s);
        assert(digit_run(s, 1) == 0);
        assert(digit_run(s, 0) == 1);
        assert(decimal_value(s, 0, 1) == decimal_value(s, 0, 0) * 10 + digit_value(s[0]));
        assert(spec_parse_number(s, 0) == Ok::<(usize, int), crate::cpu_list::ParseError>((0usize, 1int)));
        let r = seq![(0usize, 0usize)];
        assert(Seq::<(usize, usize)>::empty().push((0usize, 0usize)) == r);
        assert(r.drop_last() =~= Seq::<(usize, usize)>::empty());
        assert(spec_cpu_ranges(s) == Ok::<Seq<(usize, usize)>, crate::cpu_list::ParseError>(r));
        assert(total_width(r) == 1);
    } else {
        let v: nat = (n - 1) as nat;
        let d = decimal_digits(v);
        let prefix = seq![0x30u8, 0x2du8];
        assert forall|k: int| 0 <= k < d.len() implies s[2 + k] == #[trigger] d[k] by {
            assert(s[2 + k] == (prefix + d)[2 + k]);
        }
        lemma_decimal_digits(v, s, 2);
        assert(s.last() == d[d.len() - 1]);
        assert(s.last() == s[s.len() - 1]);
        assert(is_ascii_digit_byte(d[d.len() - 1]));
        assert(trim_trailing(s) == s);
        assert(s[1] == 0x2du8);
        assert(digit_run(s, 1) == 0);
        assert(digit_run(s, 0) == 1);
        assert(decimal_value(s, 0, 1) == decimal_value(s, 0, 0) * 10 + digit_value(s[0]));
        assert(spec_parse_number(s, 0) == Ok::<(usize, int), crate::cpu_list::ParseError>((0usize, 1int)));
        assert forall|k: int| 2 <= k < s.len() implies is_ascii_digit_byte(#[trigger] s[k]) by {
            assert(s[k] == d[k - 2]);
        }
        lemma_digit_run_split(s, 2, s.len() as int);
        assert(digit_run(s, s.len() as int) == 0);
        assert(digit_run(s, 2) == d.len());
        assert(spec_parse_number(s, 2) == Ok::<(usize, int), crate::cpu_list::ParseError>((v as usize, s.len() as int)));
        let r = seq![(0usize, v as usize)];
        assert(Seq::<(usize, usize)>::empty().push((0usize, v as usize)) == r);
        assert(r.drop_last() =~= Seq::<(usize, usize)>::empty());
        assert(spec_cpu_ranges(s) == Ok::<Seq<(usize, usize)>, crate::cpu_list::ParseError>(r));
        assert(total_width(r) == n);
    }
}


proof fn lemma_trim_leading_shape(s: Seq<u8>)
    ensures
        trim_leading(s).len() > 0 ==> !is_ascii_whitespace_byte(trim_leading(s)[0]),
    decreases s.len(),
{
    if s.len() > 0 && is_ascii_whitespace_byte(s[0]) {
        lemma_trim_leading_shape(s.drop_first());
    }
}

proof fn lemma_trim_trailing_shape(s: Seq<u8>)
    ensures
        trim_trailing(s).len() <= s.len(),
        trim_trailing(s) == s.subrange(0, trim_trailing(s).len() as int),
        trim_trailing(s).len() > 0 ==> !is_ascii_whitespace_byte(trim_trailing(s).last()),
    decreases s.len(),
{
    if s.len() > 0 && is_ascii_whitespace_byte(s.last()) {
        let p = s.drop_last();
        lemma_trim_trailing_shape(p);
        assert(p.subrange(0, trim_trailing(p).len() as int) =~= s.subrange(
            0,
            trim_trailing(p).len() as int,
        ));
    } else {
        assert(s.subrange(0, s.len() as int) =~= s);
    }
}

/// Trimming surrounding ASCII whitespace a second time changes nothing.
pub proof fn law_trimming_is_idempotent(s: Seq<u8>)
    ensures
        trim_ascii(trim_ascii(s)) == trim_ascii(s),
{
    let l = trim_leading(s);
    let t = trim_trailing(l);
    lemma_trim_leading_shape(s);
    lemma_trim_trailing_shape(l);
    if t.len() > 0 {
        assert(t[0] == l[0]);
        assert(!is_ascii_whitespace_byte(t[0]));
        assert(trim_leading(t) == t);
        assert(trim_trailing(t) == t);
    } else {
        assert(trim_leading(t) == t);
        assert(trim_trailing(t) == t);
    }
}


/// The CPU-list text of one inclusive range: `a` for a single CPU, else `a-b`,
/// in decimal without leading zeros.
pub open spec fn render_range(x: (usize, usize)) -> Seq<u8> {
    if x.0 == x.1 {
        decimal_digits(x.0 as nat)
    } else {
        decimal_digits(x.0 as nat) + seq![0x2du8] + decimal_digits(x.1 as nat)
    }
}

/// The CPU-list text of the ranges `r`: their texts joined by commas.
pub open spec fn render_ranges(r: Seq<(usize, usize)>) -> Seq<u8>
    decreases r.len(),
{
    if r.len() == 0 {
        Seq::empty()
    } else if r.len() == 1 {
        render_range(r[0])
    } else {
        render_range(r[0]) + seq![0x2cu8] + render_ranges(r.drop_first())
    }
}

proof fn lemma_digits_are_digits(v: nat)
    ensures
        decimal_digits(v).len() >= 1,
        forall|k: int| 0 <= k < decimal_digits(v).len() ==> is_ascii_digit_byte(
            #[trigger] decimal_digits(v)[k],
        ),
{
    let d = decimal_digits(v);
    assert forall|k: int| 0 <= k < d.len() implies d[0 + k] == #[trigger] d[k] by {}
    lemma_decimal_digits(v, d, 0);
}

proof fn lemma_number_at(s: Seq<u8>, i: int, v: usize)
    requires
        0 <= i,
        i + decimal_digits(v as nat).len() <= s.len(),
        forall|k: int|
            0 <= k < decimal_digits(v as nat).len() ==> s[i + k] == #[trigger] decimal_digits(
                v as nat,
            )[k],
        i + decimal_digits(v as nat).len() == s.len() || !is_ascii_digit_byte(
            s[i + decimal_digits(v as nat).len()],
        ),
    ensures
        spec_parse_number(s, i) == Ok::<(usize, int), crate::cpu_list::ParseError>(
            (v, i + decimal_digits(v as nat).len()),
        ),
{
    let d = decimal_digits(v as nat);
    lemma_decimal_digits(v as nat, s, i);
    assert forall|k: int| i <= k < i + d.len() implies is_ascii_digit_byte(#[trigger] s[k]) by {
        assert(s[i + (k - i)] == d[k - i]);
    }
    lemma_digit_run_split(s, i, i + d.len());
    assert(digit_run(s, i + d.len()) == 0);
}

proof fn lemma_ascending_take(r: Seq<(usize, usize)>, m: int)
    requires
        ranges_ascending(r),
        0 <= m <= r.len(),
    ensures
        ranges_ascending(r.take(m)),
{
    let t = r.take(m);
    assert forall|i: int| 0 <= i < t.len() implies #[trigger] t[i].0 <= t[i].1 by {
        assert(t[i] == r[i]);
    }
    assert forall|i: int| 0 < i < t.len() implies t[i - 1].1 < #[trigger] t[i].0 by {
        assert(t[i] == r[i] && t[i - 1] == r[i - 1]);
    }
}

proof fn lemma_total_width_of_prefix(r: Seq<(usize, usize)>, m: int)
    requires
        ranges_ascending(r),
        0 <= m <= r.len(),
    ensures
        0 <= total_width(r.take(m)) <= total_width(r),
    decreases r.len(),
{
    lemma_ascending_take(r, m);
    lemma_total_width_at_least_len(r.take(m));
    if m < r.len() {
        let p = r.drop_last();
        lemma_ascending_drop_last(r);
        assert(p.take(m) =~= r.take(m));
        lemma_total_width_of_prefix(p, m);
        assert(r.last() == r[r.len() - 1]);
    } else {
        assert(r.take(m) =~= r);
    }
}

proof fn lemma_parse_rendered(s: Seq<u8>, i: int, acc: Seq<(usize, usize)>, rest: Seq<(usize, usize)>)
    requires
        0 <= i <= s.len(),
        s.subrange(i, s.len() as int) == render_ranges(rest),
        rest.len() >= 1,
        ranges_ascending(acc + rest),
        total_width(acc + rest) <= i32::MAX,
    ensures
        spec_parse_ranges(s, i, acc) == Ok::<Seq<(usize, usize)>, crate::cpu_list::ParseError>(
            acc + rest,
        ),
    decreases rest.len(),
{
    let full = acc + rest;
    let x = rest[0];
    assert(full[acc.len() as int] == x);
    assert(x.0 <= x.1);
    let r0 = render_range(x);
    let tail = if rest.len() > 1 {
        seq![0x2cu8] + render_ranges(rest.drop_first())
    } else {
        Seq::<u8>::empty()
    };
    assert(render_ranges(rest) =~= r0 + tail);
    assert forall|k: int| 0 <= k < r0.len() + tail.len() implies s[i + k] == #[trigger] (r0
        + tail)[k] by {
        assert(s.subrange(i, s.len() as int)[k] == s[i + k]);
    }
    let d0 = decimal_digits(x.0 as nat);
    let after = i + d0.len();
    lemma_digits_are_digits(x.0 as nat);
    lemma_digits_are_digits(x.1 as nat);
    assert forall|k: int| 0 <= k < d0.len() implies s[i + k] == #[trigger] d0[k] by {
        assert((r0 + tail)[k] == r0[k]);
    }
    if rest.len() > 1 {
        assert((r0 + tail)[r0.len() as int] == 0x2cu8);
    }
    let k = i + r0.len();
    if x.0 == x.1 {
        lemma_number_at(s, i, x.0);
        assert(spec_parse_range(s, i) == Ok::<(usize, usize, int), crate::cpu_list::ParseError>(
            (x.0, x.0, k),
        ));
    } else {
        let d1 = decimal_digits(x.1 as nat);
        assert((r0 + tail)[d0.len() as int] == 0x2du8);
        lemma_number_at(s, i, x.0);
        assert forall|m: int| 0 <= m < d1.len() implies s[after + 1 + m] == #[trigger] d1[m] by {
            assert((r0 + tail)[d0.len() + 1 + m] == r0[d0.len() + 1 + m]);
        }
        lemma_number_at(s, after + 1, x.1);
        assert(spec_parse_range(s, i) == Ok::<(usize, usize, int), crate::cpu_list::ParseError>(
            (x.0, x.1, k),
        ));
    }
    if acc.len() > 0 {
        assert(full[acc.len() - 1] == acc.last());
    }
    let next = acc.push(x);
    assert(next =~= full.take(acc.len() + 1int));
    lemma_total_width_of_prefix(full, acc.len() as int);
    lemma_total_width_of_prefix(full, acc.len() + 1int);
    assert(full.take(acc.len() as int) =~= acc);
    assert(next.drop_last() =~= acc);
    assert(total_width(next) == total_width(acc) + (x.1 - x.0 + 1));
    if rest.len() == 1 {
        assert(k == s.len());
        assert(next =~= full);
    } else {
        let rest2 = rest.drop_first();
        assert(s.subrange(k + 1, s.len() as int) =~= render_ranges(rest2)) by {
            assert forall|m: int| 0 <= m < render_ranges(rest2).len() implies s.subrange(
                k + 1,
                s.len() as int,
            )[m] == #[trigger] render_ranges(rest2)[m] by {
                assert((r0 + tail)[r0.len() + 1 + m] == tail[1 + m]);
            }
        }
        lemma_digits_are_digits(rest2[0].0 as nat);
        assert(next + rest2 =~= full);
        lemma_parse_rendered(s, k + 1, next, rest2);
    }
}

proof fn lemma_rendered_ends_are_digits(r: Seq<(usize, usize)>)
    requires
        r.len() >= 1,
    ensures
        render_ranges(r).len() >= 1,
        is_ascii_digit_byte(render_ranges(r)[0]),
        is_ascii_digit_byte(render_ranges(r).last()),
    decreases r.len(),
{
    let x = r[0];
    lemma_digits_are_digits(x.0 as nat);
    lemma_digits_are_digits(x.1 as nat);
    let r0 = render_range(x);
    let d0 = decimal_digits(x.0 as nat);
    let d1 = decimal_digits(x.1 as nat);
    assert(r0[0] == d0[0]);
    if x.0 == x.1 {
        assert(r0.last() == d0[d0.len() - 1]);
    } else {
        assert(r0.last() == d1[d1.len() - 1]);
    }
    if r.len() > 1 {
        let t = render_ranges(r.drop_first());
        lemma_rendered_ends_are_digits(r.drop_first());
        let whole = r0 + seq![0x2cu8] + t;
        assert(whole[0] == r0[0]);
        assert(whole.last() == t.last());
    }
}

/// Every ascending list of ranges whose count fits the ABI, written in
/// CPU-list syntax (`a` or `a-b`, comma separated, decimal without leading
/// zeros), parses back to exactly those ranges: the listed CPUs are their
/// union, and the count is the number of CPUs they name.
pub proof fn law_rendered_ranges_round_trip(r: Seq<(usize, usize)>)
    requires
        ranges_ascending(r),
        r.len() >= 1,
        total_width(r) <= i32::MAX,
    ensures
        spec_cpu_ranges(render_ranges(r)) == Ok::<Seq<(usize, usize)>, crate::cpu_list::ParseError>(r),
        listed_cpus(render_ranges(r)) == range_cpus(r),
        listed_cpus(render_ranges(r)).len() == total_width(r),
        spec_parse_cpu_list(render_ranges(r)) == Ok::<(nat, bool), crate::cpu_list::ParseError>(
            (listed_cpus(render_ranges(r)).len(), ranges_contiguous_from_zero(r)),
        ),
{
    let s = render_ranges(r);
    lemma_rendered_ends_are_digits(r);
    assert(trim_leading(s) == s);
    assert(s.last() == s[s.len() - 1]);
    assert(trim_trailing(s) == s);
    assert(s.subrange(0, s.len() as int) =~= s);
    assert(Seq::<(usize, usize)>::empty() + r =~= r);
    lemma_parse_rendered(s, 0, Seq::empty(), r);
    lemma_range_cpus_shape(r);
}

} // verus!
