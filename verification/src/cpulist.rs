//! Reading the kernel's list of possible CPUs.
//!
//! The list is what `/sys/devices/system/cpu/possible` holds: CPU indices and
//! ranges of them, separated by commas, such as `0-3,8`.

use vstd::prelude::*;

verus! {

/// Unicode's White_Space characters.
pub open spec fn is_space(c: char) -> bool {
    ||| '\u{9}' <= c <= '\u{d}'
    ||| c == '\u{20}'
    ||| c == '\u{85}'
    ||| c == '\u{a0}'
    ||| c == '\u{1680}'
    ||| '\u{2000}' <= c <= '\u{200a}'
    ||| c == '\u{2028}'
    ||| c == '\u{2029}'
    ||| c == '\u{202f}'
    ||| c == '\u{205f}'
    ||| c == '\u{3000}'
}

/// `s` without the white space at its start.
pub open spec fn without_leading_space(s: Seq<char>) -> Seq<char>
    decreases s.len(),
{
    if s.len() > 0 && is_space(s[0]) {
        without_leading_space(s.subrange(1, s.len() as int))
    } else {
        s
    }
}

/// `s` without the white space at its end.
pub open spec fn without_trailing_space(s: Seq<char>) -> Seq<char>
    decreases s.len(),
{
    if s.len() > 0 && is_space(s[s.len() - 1]) {
        without_trailing_space(s.subrange(0, s.len() - 1))
    } else {
        s
    }
}

/// `s` without the white space at both ends.
pub open spec fn trimmed(s: Seq<char>) -> Seq<char> {
    without_trailing_space(without_leading_space(s))
}

/// The position of the first `c` in `s`, or the length of `s`.
pub open spec fn first_index(s: Seq<char>, c: char) -> int
    decreases s.len(),
{
    if s.len() == 0 || s[0] == c {
        0
    } else {
        1 + first_index(s.subrange(1, s.len() as int), c)
    }
}

/// Whether `c` is one of the ten ASCII digits.
pub open spec fn is_digit(c: char) -> bool {
    '0' <= c <= '9'
}

/// The number that a sequence of digits stands for.
pub open spec fn decimal(s: Seq<char>) -> nat
    decreases s.len(),
{
    if s.len() == 0 {
        0
    } else {
        decimal(s.subrange(0, s.len() - 1)) * 10 + ((s[s.len() - 1] as nat) - ('0' as nat)) as nat
    }
}

/// `s` without the plus sign that a number may start with.
pub open spec fn without_sign(s: Seq<char>) -> Seq<char> {
    if s.len() > 0 && s[0] == '+' {
        s.subrange(1, s.len() as int)
    } else {
        s
    }
}

/// The number that `s` stands for, or 0 if `s` is not a number that fits in
/// `usize`.
pub open spec fn number_or_zero(s: Seq<char>) -> nat {
    let digits = without_sign(s);
    if digits.len() > 0 && (forall|i: int| 0 <= i < digits.len() ==> is_digit(#[trigger] digits[i]))
        && decimal(digits) <= usize::MAX {
        decimal(digits)
    } else {
        0
    }
}

/// The last CPU of one entry of the list: the number behind its first hyphen,
/// or the whole entry where it has none.
pub open spec fn entry_end(s: Seq<char>) -> nat {
    let hyphen = first_index(s, '-');
    if hyphen < s.len() {
        number_or_zero(s.subrange(hyphen + 1, s.len() as int))
    } else {
        number_or_zero(s)
    }
}

/// The larger of two numbers.
pub open spec fn larger(a: nat, b: nat) -> nat {
    if a >= b {
        a
    } else {
        b
    }
}

/// The largest end of all entries of the list.
pub open spec fn largest_end(s: Seq<char>) -> nat
    decreases s.len(),
{
    let comma = first_index(s, ',');
    if 0 <= comma < s.len() {
        larger(
            entry_end(s.subrange(0, comma)),
            largest_end(s.subrange(comma + 1, s.len() as int)),
        )
    } else {
        entry_end(s)
    }
}

proof fn lemma_decimal_grows(s: Seq<char>, n: int)
    requires
        0 <= n <= s.len(),
    ensures
        decimal(s.subrange(0, n)) <= decimal(s),
    decreases s.len(),
{
    if n == s.len() {
        assert(s.subrange(0, n) =~= s);
    } else {
        let init = s.subrange(0, s.len() - 1);
        lemma_decimal_grows(init, n);
        assert(init.subrange(0, n) =~= s.subrange(0, n));
    }
}

fn space(c: char) -> (b: bool)
    ensures
        b == is_space(c),
{
    ('\u{9}' <= c && c <= '\u{d}') || c == '\u{20}' || c == '\u{85}' || c == '\u{a0}' || c
        == '\u{1680}' || ('\u{2000}' <= c && c <= '\u{200a}') || c == '\u{2028}' || c == '\u{2029}'
        || c == '\u{202f}' || c == '\u{205f}' || c == '\u{3000}'
}

fn chars_of(s: &str) -> (chars: Vec<char>)
    ensures
        chars@ == s@,
{
    let mut chars: Vec<char> = Vec::new();
    for c in it: s.chars()
        invariant
            chars@.len() == it.index(),
            it.seq() == s@,
            forall|j: int| 0 <= j < chars@.len() ==> chars@[j] == it.seq()[j],
    {
        chars.push(c);
    }
    assert(chars@ =~= s@);
    chars
}

/// The number of white-space characters at the start of `chars`.
fn skip_space(chars: &[char]) -> (lo: usize)
    ensures
        lo <= chars@.len(),
        chars@.subrange(lo as int, chars@.len() as int) == without_leading_space(chars@),
{
    let mut lo: usize = 0;
    assert(chars@.subrange(0, chars@.len() as int) =~= chars@);
    while lo < chars.len() && space(chars[lo])
        invariant
            lo <= chars@.len(),
            without_leading_space(chars@) == without_leading_space(
                chars@.subrange(lo as int, chars@.len() as int),
            ),
        decreases chars@.len() - lo,
    {
        let ghost rest = chars@.subrange(lo as int, chars@.len() as int);
        assert(rest.subrange(1, rest.len() as int) =~= chars@.subrange(
            lo + 1,
            chars@.len() as int,
        ));
        lo += 1;
    }
    lo
}

/// The end of `chars[lo..]` without the white space that trails it.
fn drop_space(chars: &[char], lo: usize) -> (hi: usize)
    requires
        lo <= chars@.len(),
    ensures
        lo <= hi <= chars@.len(),
        chars@.subrange(lo as int, hi as int) == without_trailing_space(
            chars@.subrange(lo as int, chars@.len() as int),
        ),
{
    let mut hi: usize = chars.len();
    while lo < hi && space(chars[hi - 1])
        invariant
            lo <= hi <= chars@.len(),
            without_trailing_space(chars@.subrange(lo as int, chars@.len() as int))
                == without_trailing_space(chars@.subrange(lo as int, hi as int)),
        decreases hi,
    {
        let ghost rest = chars@.subrange(lo as int, hi as int);
        assert(rest.subrange(0, rest.len() - 1) =~= chars@.subrange(lo as int, hi - 1));
        hi -= 1;
    }
    hi
}

/// The position of the first `c` in `chars[lo..hi]`, or `hi`.
fn find(chars: &[char], lo: usize, hi: usize, c: char) -> (at: usize)
    requires
        lo <= hi <= chars@.len(),
    ensures
        lo <= at <= hi,
        at - lo == first_index(chars@.subrange(lo as int, hi as int), c),
{
    let mut at: usize = lo;
    while at < hi && chars[at] != c
        invariant
            lo <= at <= hi <= chars@.len(),
            first_index(chars@.subrange(lo as int, hi as int), c) == at - lo + first_index(
                chars@.subrange(at as int, hi as int),
                c,
            ),
        decreases hi - at,
    {
        let ghost rest = chars@.subrange(at as int, hi as int);
        assert(rest.subrange(1, rest.len() as int) =~= chars@.subrange(at + 1, hi as int));
        at += 1;
    }
    at
}

/// The number in `chars[lo..hi]`, or 0 if there is none that fits in `usize`.
fn parse_or_zero(chars: &[char], lo: usize, hi: usize) -> (value: usize)
    requires
        lo <= hi <= chars@.len(),
    ensures
        value == number_or_zero(chars@.subrange(lo as int, hi as int)),
{
    let ghost text = chars@.subrange(lo as int, hi as int);
    let start: usize = if lo < hi && chars[lo] == '+' {
        lo + 1
    } else {
        lo
    };
    let ghost digits = without_sign(text);
    assert(digits =~= chars@.subrange(start as int, hi as int));
    if start == hi {
        return 0;
    }
    let mut value: usize = 0;
    let mut at: usize = start;
    assert(digits.subrange(0, 0) =~= Seq::<char>::empty());
    while at < hi
        invariant
            start <= at <= hi <= chars@.len(),
            text == chars@.subrange(lo as int, hi as int),
            digits == without_sign(text),
            digits == chars@.subrange(start as int, hi as int),
            value == decimal(digits.subrange(0, at - start)),
            forall|i: int| 0 <= i < at - start ==> is_digit(#[trigger] digits[i]),
        decreases hi - at,
    {
        let c: char = chars[at];
        assert(digits[at - start] == c);
        if c < '0' || '9' < c {
            assert(!is_digit(digits[at - start]));
            return 0;
        }
        let digit: usize = (c as u32 - '0' as u32) as usize;
        let ghost longer = digits.subrange(0, at - start + 1);
        proof {
            assert(longer.subrange(0, longer.len() - 1) =~= digits.subrange(0, at - start));
            lemma_decimal_grows(digits, at - start + 1);
        }
        if value > (usize::MAX - digit) / 10 {
            assert(value * 10 + digit > usize::MAX) by {
                assert(value >= (usize::MAX - digit) / 10 + 1);
            }
            return 0;
        }
        value = value * 10 + digit;
        at += 1;
    }
    assert(digits.subrange(0, digits.len() as int) =~= digits);
    value
}

/// The end of the entry in `chars[lo..hi]`.
fn parse_entry(chars: &[char], lo: usize, hi: usize) -> (end: usize)
    requires
        lo <= hi <= chars@.len(),
    ensures
        end == entry_end(chars@.subrange(lo as int, hi as int)),
{
    let hyphen: usize = find(chars, lo, hi, '-');
    if hyphen < hi {
        let ghost entry = chars@.subrange(lo as int, hi as int);
        assert(entry.subrange(hyphen - lo + 1, entry.len() as int) =~= chars@.subrange(
            hyphen + 1,
            hi as int,
        ));
        parse_or_zero(chars, hyphen + 1, hi)
    } else {
        parse_or_zero(chars, lo, hi)
    }
}

/// The index of the last possible CPU, as the kernel's list gives it.
///
/// What is not a number counts as 0.
pub fn last_possible_cpu(content: &str) -> (last: usize)
    ensures
        last == largest_end(trimmed(content@)),
{
    let chars: Vec<char> = chars_of(content);
    let lo: usize = skip_space(chars.as_slice());
    let hi: usize = drop_space(chars.as_slice(), lo);
    let ghost list = trimmed(content@);
    assert(list == chars@.subrange(lo as int, hi as int));
    let mut last: usize = 0;
    let mut start: usize = lo;
    loop
        invariant
            lo <= start <= hi <= chars@.len(),
            list == trimmed(content@),
            list == chars@.subrange(lo as int, hi as int),
            largest_end(list) == larger(
                last as nat,
                largest_end(chars@.subrange(start as int, hi as int)),
            ),
        decreases hi - start,
    {
        let ghost rest = chars@.subrange(start as int, hi as int);
        let comma: usize = find(chars.as_slice(), start, hi, ',');
        let end: usize = parse_entry(chars.as_slice(), start, comma);
        assert(rest.subrange(0, comma - start) =~= chars@.subrange(start as int, comma as int));
        if end > last {
            last = end;
        }
        if comma == hi {
            assert(rest.subrange(0, comma - start) =~= rest);
            return last;
        }
        assert(rest.subrange(comma - start + 1, rest.len() as int) =~= chars@.subrange(
            comma + 1,
            hi as int,
        ));
        start = comma + 1;
    }
}

/// The digit of a number below ten.
pub open spec fn digit(d: nat) -> char {
    (48 + d) as char
}

/// The decimal numeral of `n`.
pub open spec fn numeral(n: nat) -> Seq<char>
    decreases n,
{
    if n < 10 {
        seq![digit(n)]
    } else {
        numeral(n / 10).push(digit(n % 10))
    }
}

/// An entry of the list: a CPU, or the range that ends with it.
pub open spec fn range_text(first: Option<nat>, last: nat) -> Seq<char> {
    match first {
        Some(m) => numeral(m) + seq!['-'] + numeral(last),
        None => numeral(last),
    }
}

/// Entries, separated by commas.
pub open spec fn list_text(ranges: Seq<(Option<nat>, nat)>) -> Seq<char>
    decreases ranges.len(),
{
    if ranges.len() == 0 {
        Seq::empty()
    } else if ranges.len() == 1 {
        range_text(ranges[0].0, ranges[0].1)
    } else {
        range_text(ranges[0].0, ranges[0].1) + seq![','] + list_text(
            ranges.subrange(1, ranges.len() as int),
        )
    }
}

/// `s` is made of white space.
pub open spec fn is_blank(s: Seq<char>) -> bool {
    forall|i: int| 0 <= i < s.len() ==> is_space(#[trigger] s[i])
}

/// `s` does not hold `c`.
pub open spec fn is_free_of(s: Seq<char>, c: char) -> bool {
    forall|i: int| 0 <= i < s.len() ==> #[trigger] s[i] != c
}

/// White space is what Unicode says it is.
pub proof fn law_white_space_is_that_of_unicode(c: char)
    ensures
        is_space(c) <==> {
            let code = c as int;
            ||| 9 <= code <= 13
            ||| code == 32
            ||| code == 133
            ||| code == 160
            ||| code == 5760
            ||| 8192 <= code <= 8202
            ||| code == 8232
            ||| code == 8233
            ||| code == 8239
            ||| code == 8287
            ||| code == 12288
        },
{
}

proof fn lemma_numeral(n: nat)
    ensures
        numeral(n).len() > 0,
        forall|i: int| 0 <= i < numeral(n).len() ==> 48 <= (#[trigger] numeral(n)[i]) as int <= 57,
        decimal(numeral(n)) == n,
    decreases n,
{
    let s = numeral(n);
    if n < 10 {
        assert(s.subrange(0, 0) =~= Seq::<char>::empty());
        assert(decimal(s.subrange(0, 0)) == 0);
    } else {
        lemma_numeral(n / 10);
        assert(s.subrange(0, s.len() - 1) =~= numeral(n / 10));
    }
}

proof fn lemma_leading_zeros(zeros: nat, t: Seq<char>)
    ensures
        decimal(Seq::new(zeros, |i: int| '0') + t) == decimal(t),
    decreases zeros + t.len(),
{
    let z = Seq::new(zeros, |i: int| '0');
    let s = z + t;
    if t.len() > 0 {
        let init = t.subrange(0, t.len() - 1);
        lemma_leading_zeros(zeros, init);
        assert(s.subrange(0, s.len() - 1) =~= z + init);
    } else if zeros > 0 {
        lemma_leading_zeros((zeros - 1) as nat, t);
        assert(s.subrange(0, s.len() - 1) =~= Seq::new((zeros - 1) as nat, |i: int| '0') + t);
    } else {
        assert(s =~= t);
    }
}

/// A number is read: the numeral of `n` stands for `n`, with a plus sign or
/// without, and with zeros in front of it or without. Where `n` does not fit in
/// `usize`, it stands for 0.
pub proof fn law_number_is_read(plus: bool, zeros: nat, n: nat)
    ensures
        ({
            let sign = if plus {
                seq!['+']
            } else {
                Seq::empty()
            };
            let text = sign + (Seq::new(zeros, |i: int| '0') + numeral(n));
            &&& n <= usize::MAX ==> number_or_zero(text) == n
            &&& n > usize::MAX ==> number_or_zero(text) == 0
        }),
{
    let sign = if plus {
        seq!['+']
    } else {
        Seq::empty()
    };
    let digits = Seq::new(zeros, |i: int| '0') + numeral(n);
    let text = sign + digits;
    lemma_numeral(n);
    lemma_leading_zeros(zeros, numeral(n));
    assert forall|i: int| 0 <= i < digits.len() implies is_digit(#[trigger] digits[i]) by {
        if i >= zeros {
            assert(digits[i] == numeral(n)[i - zeros]);
        }
    }
    assert(is_digit(digits[0]));
    if plus {
        assert(text.subrange(1, text.len() as int) =~= digits);
    } else {
        assert(text =~= digits);
    }
    assert(without_sign(text) == digits);
}

/// What is no number counts as 0: nothing, a sign alone, or what holds anything
/// but digits behind its sign.
pub proof fn law_what_is_no_number_counts_as_zero(s: Seq<char>, at: int)
    requires
        s.len() == 0 || (s.len() == 1 && s[0] == '+') || (0 <= at < s.len() && !('0' <= s[at]
            <= '9') && !(at == 0 && s[0] == '+')),
    ensures
        number_or_zero(s) == 0,
{
    let digits = without_sign(s);
    if s.len() > 1 || (s.len() == 1 && s[0] != '+') {
        if s[0] == '+' {
            assert(digits[at - 1] == s[at]);
        } else {
            assert(digits[at] == s[at]);
        }
    }
}

proof fn lemma_first_index(a: Seq<char>, b: Seq<char>, c: char)
    requires
        is_free_of(a, c),
        b.len() == 0 || b[0] == c,
    ensures
        first_index(a + b, c) == a.len(),
    decreases a.len(),
{
    let s = a + b;
    if a.len() > 0 {
        let rest = a.subrange(1, a.len() as int);
        assert forall|i: int| 0 <= i < rest.len() implies #[trigger] rest[i] != c by {
            assert(rest[i] == a[i + 1]);
        }
        lemma_first_index(rest, b, c);
        assert(s[0] == a[0]);
        assert(s.subrange(1, s.len() as int) =~= rest + b);
    } else {
        assert(s =~= b);
    }
}

/// An entry ends with what stands behind its first hyphen, or with all of it
/// where it has none.
pub proof fn law_entry_ends_behind_its_hyphen(a: Seq<char>, b: Seq<char>)
    requires
        is_free_of(a, '-'),
    ensures
        entry_end(a) == number_or_zero(a),
        entry_end(a + seq!['-'] + b) == number_or_zero(b),
{
    let s = a + seq!['-'] + b;
    lemma_first_index(a, Seq::empty(), '-');
    assert(a + Seq::empty() =~= a);
    lemma_first_index(a, seq!['-'] + b, '-');
    assert(a + (seq!['-'] + b) =~= s);
    assert(s.subrange(a.len() + 1int, s.len() as int) =~= b);
}

/// The largest end of a list is the largest of the ends of its entries, which
/// commas separate.
pub proof fn law_largest_end_is_the_largest(a: Seq<char>, b: Seq<char>)
    requires
        is_free_of(a, ','),
    ensures
        largest_end(a) == entry_end(a),
        ({
            let largest = largest_end(a + seq![','] + b);
            &&& largest >= entry_end(a)
            &&& largest >= largest_end(b)
            &&& largest == entry_end(a) || largest == largest_end(b)
        }),
{
    let s = a + seq![','] + b;
    lemma_first_index(a, Seq::empty(), ',');
    assert(a + Seq::empty() =~= a);
    lemma_first_index(a, seq![','] + b, ',');
    assert(a + (seq![','] + b) =~= s);
    assert(s.subrange(0, a.len() as int) =~= a);
    assert(s.subrange(a.len() + 1int, s.len() as int) =~= b);
}

proof fn lemma_leading(a: Seq<char>, s: Seq<char>)
    requires
        is_blank(a),
        s.len() == 0 || !is_space(s[0]),
    ensures
        without_leading_space(a + s) == s,
    decreases a.len(),
{
    if a.len() > 0 {
        let rest = a.subrange(1, a.len() as int);
        assert forall|i: int| 0 <= i < rest.len() implies is_space(#[trigger] rest[i]) by {
            assert(rest[i] == a[i + 1]);
        }
        lemma_leading(rest, s);
        assert((a + s)[0] == a[0]);
        assert((a + s).subrange(1, (a + s).len() as int) =~= rest + s);
    } else {
        assert(a + s =~= s);
    }
}

proof fn lemma_trailing(s: Seq<char>, b: Seq<char>)
    requires
        is_blank(b),
        s.len() == 0 || !is_space(s[s.len() - 1]),
    ensures
        without_trailing_space(s + b) == s,
    decreases b.len(),
{
    let t = s + b;
    if b.len() > 0 {
        let rest = b.subrange(0, b.len() - 1);
        assert forall|i: int| 0 <= i < rest.len() implies is_space(#[trigger] rest[i]) by {
            assert(rest[i] == b[i]);
        }
        lemma_trailing(s, rest);
        assert(t[t.len() - 1] == b[b.len() - 1]);
        assert(t.subrange(0, t.len() - 1) =~= s + rest);
    } else {
        assert(t =~= s);
    }
}

/// White space around a text is left out, and nothing else.
pub proof fn law_white_space_around_does_not_matter(before: Seq<char>, s: Seq<char>, after: Seq<char>)
    requires
        is_blank(before),
        is_blank(after),
        s.len() > 0 ==> !is_space(s[0]) && !is_space(s[s.len() - 1]),
    ensures
        trimmed(before + s + after) == s,
{
    if s.len() > 0 {
        assert((s + after)[0] == s[0]);
        assert(before + s + after =~= before + (s + after));
        lemma_leading(before, s + after);
        lemma_trailing(s, after);
    } else {
        let all = before + after;
        assert(before + s + after =~= all + s);
        assert forall|i: int| 0 <= i < all.len() implies is_space(#[trigger] all[i]) by {
            if i >= before.len() {
                assert(all[i] == after[i - before.len()]);
            } else {
                assert(all[i] == before[i]);
            }
        }
        lemma_leading(all, s);
    }
}

proof fn lemma_range_text(first: Option<nat>, last: nat)
    ensures
        ({
            let text = range_text(first, last);
            &&& text.len() > 0
            &&& 48 <= text[0] as int <= 57
            &&& 48 <= text[text.len() - 1] as int <= 57
            &&& is_free_of(text, ',')
        }),
        last <= usize::MAX ==> entry_end(range_text(first, last)) == last,
{
    let text = range_text(first, last);
    lemma_numeral(last);
    law_number_is_read(false, 0, last);
    assert(Seq::<char>::empty() + (Seq::new(0, |i: int| '0') + numeral(last)) =~= numeral(last));
    let end = numeral(last);
    assert(48 <= end[end.len() - 1] as int <= 57);
    assert(48 <= end[0] as int <= 57);
    if let Some(m) = first {
        lemma_numeral(m);
        let start = numeral(m);
        assert(48 <= start[0] as int <= 57);
        assert(text[0] == start[0]);
        assert(text[text.len() - 1] == end[end.len() - 1]);
        law_entry_ends_behind_its_hyphen(start, end);
        assert forall|i: int| 0 <= i < text.len() implies #[trigger] text[i] != ',' by {
            if i < start.len() {
                assert(text[i] == start[i]);
            } else if i > start.len() {
                assert(text[i] == end[i - start.len() - 1]);
            }
        }
    } else {
        law_entry_ends_behind_its_hyphen(end, Seq::empty());
    }
}

/// A numeral as the kernel's list, alone or as the end of a range, with white
/// space around it or not, names the last CPU.
pub proof fn law_numeral_is_read(
    before: Seq<char>,
    first: Option<nat>,
    last: nat,
    after: Seq<char>,
)
    requires
        last <= usize::MAX,
        is_blank(before),
        is_blank(after),
    ensures
        largest_end(trimmed(before + range_text(first, last) + after)) == last,
{
    let text = range_text(first, last);
    lemma_range_text(first, last);
    law_white_space_around_does_not_matter(before, text, after);
    law_largest_end_is_the_largest(text, Seq::empty());
}

proof fn lemma_list_text(ranges: Seq<(Option<nat>, nat)>)
    requires
        ranges.len() > 0,
        forall|i: int| 0 <= i < ranges.len() ==> (#[trigger] ranges[i]).1 <= usize::MAX,
    ensures
        ({
            let text = list_text(ranges);
            &&& text.len() > 0
            &&& 48 <= text[0] as int <= 57
            &&& 48 <= text[text.len() - 1] as int <= 57
            &&& forall|i: int|
                0 <= i < ranges.len() ==> largest_end(text) >= (#[trigger] ranges[i]).1
            &&& exists|i: int| 0 <= i < ranges.len() && largest_end(text) == (#[trigger] ranges[i]).1
        }),
    decreases ranges.len(),
{
    let text = list_text(ranges);
    let head = range_text(ranges[0].0, ranges[0].1);
    lemma_range_text(ranges[0].0, ranges[0].1);
    law_largest_end_is_the_largest(head, Seq::empty());
    if ranges.len() > 1 {
        let rest = ranges.subrange(1, ranges.len() as int);
        assert forall|i: int| 0 <= i < rest.len() implies (#[trigger] rest[i]).1
            <= usize::MAX by {
            assert(rest[i] == ranges[i + 1]);
        }
        lemma_list_text(rest);
        let tail = list_text(rest);
        law_largest_end_is_the_largest(head, tail);
        assert(text == head + seq![','] + tail);
        assert(text[0] == head[0]);
        assert(text[text.len() - 1] == tail[tail.len() - 1]);
        assert forall|i: int| 0 <= i < ranges.len() implies largest_end(text) >= (
        #[trigger] ranges[i]).1 by {
            if i > 0 {
                assert(rest[i - 1] == ranges[i]);
            }
        }
        if largest_end(text) == entry_end(head) {
            assert(largest_end(text) == ranges[0].1);
        } else {
            let i = choose|i: int|
                0 <= i < rest.len() && largest_end(tail) == (#[trigger] rest[i]).1;
            assert(rest[i] == ranges[i + 1]);
            assert(largest_end(text) == ranges[i + 1].1);
        }
    } else {
        assert(largest_end(text) == ranges[0].1);
    }
}

/// A list of such entries, separated by commas, names the last CPU of the entry
/// that reaches furthest.
pub proof fn law_list_is_read(
    before: Seq<char>,
    ranges: Seq<(Option<nat>, nat)>,
    after: Seq<char>,
)
    requires
        ranges.len() > 0,
        forall|i: int| 0 <= i < ranges.len() ==> (#[trigger] ranges[i]).1 <= usize::MAX,
        is_blank(before),
        is_blank(after),
    ensures
        ({
            let last = largest_end(trimmed(before + list_text(ranges) + after));
            &&& forall|i: int| 0 <= i < ranges.len() ==> last >= (#[trigger] ranges[i]).1
            &&& exists|i: int| 0 <= i < ranges.len() && last == (#[trigger] ranges[i]).1
        }),
{
    lemma_list_text(ranges);
    law_white_space_around_does_not_matter(before, list_text(ranges), after);
}

} // verus!
