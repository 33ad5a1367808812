//! Reading command lines: options by name and whole numbers.

use vstd::prelude::*;
use vstd::string::*;

verus! {

/// Whether two texts are the same.
pub fn same_text(a: &str, b: &str) -> (out: bool)
    ensures
        out == (a@ == b@),
{
    let n: usize = a.unicode_len();
    if n != b.unicode_len() {
        return false;
    }
    let mut k: usize = 0;
    while k < n
        invariant
            k <= n,
            n == a@.len(),
            n == b@.len(),
            forall|i: int| 0 <= i < k ==> a@[i] == b@[i],
        decreases n - k,
    {
        if a.get_char(k) != b.get_char(k) {
            return false;
        }
        k = k + 1;
    }
    assert(a@ =~= b@);
    true
}

/// The character is a decimal digit.
pub open spec fn is_digit(c: char) -> bool {
    '0' <= c <= '9'
}

/// The value of the digits from one place up to before another.
pub open spec fn decimal(text: Seq<char>, from: int, to: int) -> int
    decreases to - from,
{
    if to <= from {
        0
    } else {
        10 * decimal(text, from, to - 1) + (text[to - 1] as int - '0' as int)
    }
}

/// Where the digits of a number begin: behind a plus sign, if there is one.
pub open spec fn digits_start(text: Seq<char>) -> int {
    if text.len() > 0 && text[0] == '+' {
        1
    } else {
        0
    }
}

/// The text is an unsigned number: digits, perhaps behind a plus sign.
pub open spec fn is_number(text: Seq<char>) -> bool {
    let start = digits_start(text);
    start < text.len() && forall|i: int| start <= i < text.len() ==> is_digit(#[trigger] text[i])
}

/// The number that a text holds, if it holds one up to a limit.
pub open spec fn number_of(text: Seq<char>, limit: int) -> Option<int> {
    let value = decimal(text, digits_start(text), text.len() as int);
    if is_number(text) && value <= limit {
        Some(value)
    } else {
        None
    }
}

proof fn lemma_decimal_grows(text: Seq<char>, from: int, mid: int, to: int)
    requires
        0 <= from <= mid <= to <= text.len(),
        forall|i: int| from <= i < to ==> is_digit(#[trigger] text[i]),
    ensures
        0 <= decimal(text, from, mid) <= decimal(text, from, to),
    decreases to - from,
{
    if mid < to {
        lemma_decimal_grows(text, from, mid, to - 1);
        assert(is_digit(text[to - 1]));
    } else if from < mid {
        lemma_decimal_grows(text, from, mid - 1, mid - 1);
        assert(is_digit(text[mid - 1]));
    }
}

/// The numbers are the same, or neither is there.
pub open spec fn same_number(out: Option<u64>, want: Option<int>) -> bool {
    match (out, want) {
        (None, None) => true,
        (Some(a), Some(b)) => a == b,
        _ => false,
    }
}

/// Reads an unsigned number up to a limit.
pub fn parse_limited(text: &str, limit: u64) -> (out: Option<u64>)
    ensures
        same_number(out, number_of(text@, limit as int)),
{
    let n: usize = text.unicode_len();
    let start: usize = if n > 0 && text.get_char(0) == '+' {
        1
    } else {
        0
    };
    if start >= n {
        return None;
    }
    let mut value: u128 = 0;
    let mut k: usize = start;
    while k < n
        invariant
            n == text@.len(),
            start == digits_start(text@),
            start <= k <= n,
            value == decimal(text@, start as int, k as int),
            value <= limit,
            forall|i: int| start <= i < k ==> is_digit(#[trigger] text@[i]),
        decreases n - k,
    {
        let c = text.get_char(k);
        if c < '0' || '9' < c {
            assert(!is_digit(text@[k as int]));
            return None;
        }
        value = 10 * value + (c as u32 - '0' as u32) as u128;
        k = k + 1;
        if value > limit as u128 {
            proof {
                if is_number(text@) {
                    lemma_decimal_grows(text@, start as int, k as int, n as int);
                }
            }
            return None;
        }
    }
    Some(value as u64)
}

/// Reads an unsigned 64-bit number.
pub fn parse_u64(text: &str) -> (out: Option<u64>)
    ensures
        same_number(out, number_of(text@, u64::MAX as int)),
{
    parse_limited(text, u64::MAX)
}

/// Reads an unsigned number of the machine's word size.
pub fn parse_usize(text: &str) -> (out: Option<usize>)
    ensures
        match number_of(text@, usize::MAX as int) {
            Some(v) => out == Some(v as usize),
            None => out is None,
        },
{
    match parse_limited(text, usize::MAX as u64) {
        Some(v) => Some(v as usize),
        None => None,
    }
}

/// A number that was written without a sign reads back.
pub proof fn law_plus_sign_is_ignored(text: Seq<char>, limit: int)
    requires
        text.len() > 0,
        text[0] != '+',
    ensures
        number_of(seq!['+'] + text, limit) == number_of(text, limit),
{
    let signed = seq!['+'] + text;
    assert(signed[0] == '+');
    lemma_decimal_shifts(text, text.len() as int);
    if is_number(text) {
        assert forall|i: int| 1 <= i < signed.len() implies is_digit(#[trigger] signed[i]) by {
            assert(signed[i] == text[i - 1]);
        }
    }
    if is_number(signed) {
        assert forall|i: int| 0 <= i < text.len() implies is_digit(#[trigger] text[i]) by {
            assert(signed[i + 1] == text[i]);
        }
    }
}

proof fn lemma_decimal_shifts(text: Seq<char>, to: int)
    requires
        0 <= to <= text.len(),
    ensures
        decimal(seq!['+'] + text, 1, to + 1) == decimal(text, 0, to),
    decreases to,
{
    if to > 0 {
        lemma_decimal_shifts(text, to - 1);
        assert((seq!['+'] + text)[to] == text[to - 1]);
    }
}

/// The place of the value behind a name, searched from a place on.
pub open spec fn value_place(args: Seq<String>, name: Seq<char>, from: int) -> Option<int>
    decreases args.len() - from,
{
    if from + 1 >= args.len() {
        None
    } else if args[from]@ == name {
        Some(from + 1)
    } else {
        value_place(args, name, from + 1)
    }
}

/// The value behind a name.
pub open spec fn value_of(args: Seq<String>, name: Seq<char>) -> Option<Seq<char>> {
    match value_place(args, name, 0) {
        Some(i) => Some(args[i]@),
        None => None,
    }
}

/// The name is on the command line.
pub open spec fn is_given(args: Seq<String>, name: Seq<char>) -> bool {
    exists|i: int| 0 <= i < args.len() && (#[trigger] args[i])@ == name
}

/// The text of an optional string.
pub open spec fn text_of(s: Option<String>) -> Option<Seq<char>> {
    match s {
        Some(t) => Some(t@),
        None => None,
    }
}

/// The place of the value behind a name: that of its first occurrence that has
/// anything behind it.
pub fn place_after(args: &Vec<String>, name: &str) -> (out: Option<usize>)
    ensures
        match value_place(args@, name@, 0) {
            Some(i) => out is Some && out->0 == i && 0 < i < args@.len(),
            None => out is None,
        },
{
    let n: usize = args.len();
    let mut k: usize = 0;
    while k < n && k < n - 1
        invariant
            n == args@.len(),
            k <= n,
            value_place(args@, name@, 0) == value_place(args@, name@, k as int),
        decreases n - k,
    {
        if same_text(args[k].as_str(), name) {
            return Some(k + 1);
        }
        k = k + 1;
    }
    None
}

/// The value behind a name.
pub fn value_after(args: &Vec<String>, name: &str) -> (out: Option<String>)
    ensures
        text_of(out) == value_of(args@, name@),
{
    match place_after(args, name) {
        Some(i) => Some(args[i].clone()),
        None => None,
    }
}

/// The value behind a name, or a text in its place.
pub fn value_or(args: &Vec<String>, name: &str, other: &str) -> (out: String)
    ensures
        out@ == match value_of(args@, name@) {
            Some(t) => t,
            None => other@,
        },
{
    match value_after(args, name) {
        Some(t) => t,
        None => other.to_owned(),
    }
}

/// The unsigned number behind a name, up to a limit.
pub open spec fn number_after(args: Seq<String>, name: Seq<char>, limit: int) -> Option<int> {
    match value_of(args, name) {
        Some(t) => number_of(t, limit),
        None => None,
    }
}

/// The unsigned number behind a name, up to a limit.
pub fn limited_after(args: &Vec<String>, name: &str, limit: u64) -> (out: Option<u64>)
    ensures
        same_number(out, number_after(args@, name@, limit as int)),
{
    match value_after(args, name) {
        Some(t) => parse_limited(t.as_str(), limit),
        None => None,
    }
}

/// Whether a name is on the command line.
pub fn has_flag(args: &Vec<String>, name: &str) -> (out: bool)
    ensures
        out == is_given(args@, name@),
{
    let mut k: usize = 0;
    while k < args.len()
        invariant
            k <= args@.len(),
            forall|i: int| 0 <= i < k ==> (#[trigger] args@[i])@ != name@,
        decreases args@.len() - k,
    {
        if same_text(args[k].as_str(), name) {
            assert(args@[k as int]@ == name@);
            return true;
        }
        k = k + 1;
    }
    false
}

/// A name that has a value is on the command line, with the value right behind
/// it.
pub proof fn law_value_follows_its_name(args: Seq<String>, name: Seq<char>, from: int)
    requires
        0 <= from,
        value_place(args, name, from) is Some,
    ensures
        ({
            let i = value_place(args, name, from)->0;
            from < i < args.len() && args[i - 1]@ == name
        }),
        is_given(args, name),
    decreases args.len() - from,
{
    if args[from]@ != name {
        law_value_follows_its_name(args, name, from + 1);
    }
}

/// The value is that of the first name that has one: no name stands before it.
pub proof fn law_first_name_counts(args: Seq<String>, name: Seq<char>, from: int, k: int)
    requires
        0 <= from <= k,
        k + 1 < args.len(),
        args[k]@ == name,
    ensures
        value_place(args, name, from) is Some,
        value_place(args, name, from)->0 <= k + 1,
    decreases args.len() - from,
{
    if args[from]@ != name {
        law_first_name_counts(args, name, from + 1, k);
    }
}

/// A digit behind a number makes it ten times as large and the digit larger; without
/// any digit there is no number.
pub proof fn law_digits_count_by_tens(text: Seq<char>, digit: char, limit: int)
    requires
        is_number(text),
        '0' <= digit <= '9',
    ensures
        ({
            let longer = text.push(digit);
            let value = decimal(text, digits_start(text), text.len() as int);
            let grown = 10 * value + (digit as int - '0' as int);
            &&& number_of(text, value) == Some(value)
            &&& number_of(text, value - 1) is None
            &&& grown <= limit ==> number_of(longer, limit) == Some(grown)
            &&& grown > limit ==> number_of(longer, limit) is None
        }),
        number_of(seq![digit], 9) == Some(digit as int - '0' as int),
        number_of(Seq::empty(), limit) is None,
{
    let longer = text.push(digit);
    let start = digits_start(text);
    assert(longer[0] == text[0]);
    assert(digits_start(longer) == start);
    lemma_decimal_prefix(text, digit, start, text.len() as int);
    assert forall|i: int| start <= i < longer.len() implies is_digit(#[trigger] longer[i]) by {
        if i < text.len() {
            assert(is_digit(text[i]));
        }
    }
    let one = seq![digit];
    assert(digits_start(one) == 0);
    assert(decimal(one, 0, 0) == 0);
    assert(is_number(one));
}

proof fn lemma_decimal_prefix(text: Seq<char>, digit: char, from: int, to: int)
    requires
        0 <= from <= to <= text.len(),
    ensures
        decimal(text.push(digit), from, to) == decimal(text, from, to),
    decreases to - from,
{
    if from < to {
        lemma_decimal_prefix(text, digit, from, to - 1);
    }
}

/// Whatever is not a digit, but for one plus sign in front, makes a text no number.
pub proof fn law_numbers_are_digits(text: Seq<char>, limit: int, i: int)
    requires
        0 <= i < text.len(),
        !('0' <= text[i] <= '9'),
        i > 0 || text[0] != '+' || text.len() == 1,
    ensures
        number_of(text, limit) is None,
{
    assert(!is_digit(text[i]));
}

} // verus!
