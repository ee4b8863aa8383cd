//! Text: decimal numbers, the fields of a line, suffixes, order.
use vstd::prelude::*;
use vstd::string::*;

verus! {

// ---------------------------------------------------------------------------
// Order
// ---------------------------------------------------------------------------

/// `a` comes before `b` when texts are ordered by code point, a prefix before
/// what it begins.
pub open spec fn precedes(a: Seq<char>, b: Seq<char>) -> bool
    decreases a.len(),
{
    if b.len() == 0 {
        false
    } else if a.len() == 0 {
        true
    } else if a[0] == b[0] {
        precedes(a.skip(1), b.skip(1))
    } else {
        a[0] < b[0]
    }
}

pub proof fn lemma_precedes_irreflexive(a: Seq<char>)
    ensures
        !precedes(a, a),
    decreases a.len(),
{
    if a.len() > 0 {
        lemma_precedes_irreflexive(a.skip(1));
    }
}

pub proof fn lemma_precedes_transitive(a: Seq<char>, b: Seq<char>, c: Seq<char>)
    requires
        precedes(a, b),
        precedes(b, c),
    ensures
        precedes(a, c),
    decreases a.len(),
{
    if a.len() > 0 && a[0] == b[0] && b[0] == c[0] {
        lemma_precedes_transitive(a.skip(1), b.skip(1), c.skip(1));
    }
}

pub proof fn lemma_precedes_total(a: Seq<char>, b: Seq<char>)
    ensures
        a == b || precedes(a, b) || precedes(b, a),
    decreases a.len(),
{
    if a.len() == 0 || b.len() == 0 {
        if a.len() == 0 && b.len() == 0 {
            assert(a =~= b);
        }
    } else if a[0] == b[0] {
        lemma_precedes_total(a.skip(1), b.skip(1));
        if a.skip(1) == b.skip(1) {
            assert(a =~= seq![a[0]] + a.skip(1));
            assert(b =~= seq![b[0]] + b.skip(1));
        }
    }
}

// ---------------------------------------------------------------------------
// Characters
// ---------------------------------------------------------------------------

/// The characters of `s`.
pub fn chars_of(s: &str) -> (r: Vec<char>)
    ensures
        r@ == s@,
{
    let mut r: Vec<char> = Vec::new();
    for c in it: s.chars()
        invariant
            it.seq() == s@,
            r@ == s@.take(it.index() as int),
    {
        r.push(c);
        assert(s@.take(it.index() as int).push(c) =~= s@.take(it.index() + 1));
    }
    assert(s@.take(s@.len() as int) =~= s@);
    r
}

/// Whether `a` comes before `b`.
pub fn comes_before(a: &str, b: &str) -> (r: bool)
    ensures
        r == precedes(a@, b@),
{
    let x: Vec<char> = chars_of(a);
    let y: Vec<char> = chars_of(b);
    let mut i: usize = 0;
    assert(a@.skip(0) =~= a@);
    assert(b@.skip(0) =~= b@);
    while i < x.len() && i < y.len()
        invariant
            x@ == a@,
            y@ == b@,
            i <= x.len(),
            i <= y.len(),
            precedes(a@, b@) == precedes(a@.skip(i as int), b@.skip(i as int)),
        decreases x.len() - i,
    {
        if x[i] != y[i] {
            return x[i] < y[i];
        }
        assert(a@.skip(i as int).skip(1) =~= a@.skip(i + 1));
        assert(b@.skip(i as int).skip(1) =~= b@.skip(i + 1));
        i += 1;
    }
    i < y.len()
}

/// `whole` ends with `tail`.
pub open spec fn has_suffix(whole: Seq<char>, tail: Seq<char>) -> bool {
    tail.len() <= whole.len() && whole.skip(whole.len() - tail.len()) == tail
}

/// Whether `whole` ends with `tail`.
pub fn ends_with(whole: &str, tail: &str) -> (r: bool)
    ensures
        r == has_suffix(whole@, tail@),
{
    let w: Vec<char> = chars_of(whole);
    let t: Vec<char> = chars_of(tail);
    if t.len() > w.len() {
        return false;
    }
    let offset: usize = w.len() - t.len();
    let mut i: usize = 0;
    while i < t.len()
        invariant
            w@ == whole@,
            t@ == tail@,
            offset + t.len() == w.len(),
            i <= t.len(),
            forall|j: int| 0 <= j < i ==> w[offset + j] == t[j],
        decreases t.len() - i,
    {
        if w[offset + i] != t[i] {
            assert(whole@.skip(offset as int)[i as int] != tail@[i as int]);
            return false;
        }
        i += 1;
    }
    assert(whole@.skip(offset as int) =~= tail@);
    true
}

/// The lower case of a text.
pub uninterp spec fn lower_case(s: Seq<char>) -> Seq<char>;

/// Calls `str::to_lowercase`: the result is named `lower_case` of the text. It
/// follows the Unicode tables that std carries, and nothing more is said of it.
#[verifier::external_body]
pub(crate) fn to_lower_case(s: &str) -> (r: String)
    ensures
        r@ == lower_case(s@),
{
    s.to_lowercase()
}

/// `a` followed by `b`.
pub fn join(a: &str, b: &str) -> (r: String)
    ensures
        r@ == a@ + b@,
{
    let mut r: String = String::new();
    r.append(a);
    r.append(b);
    proof {
        assert(Seq::<char>::empty() + a@ =~= a@);
    }
    r
}

// ---------------------------------------------------------------------------
// Numbers
// ---------------------------------------------------------------------------

/// The digit for `d`, which is less than ten.
pub open spec fn digit(d: nat) -> char {
    (48 + d) as char
}

/// `n` in decimal, without leading zeros.
pub open spec fn decimal(n: nat) -> Seq<char>
    decreases n,
{
    if n < 10 {
        seq![digit(n)]
    } else {
        decimal(n / 10).push(digit(n % 10))
    }
}

fn digit_text(d: u64) -> (r: &'static str)
    requires
        d < 10,
    ensures
        r@ == seq![digit(d as nat)],
{
    proof {
        reveal_strlit("0");
        reveal_strlit("1");
        reveal_strlit("2");
        reveal_strlit("3");
        reveal_strlit("4");
        reveal_strlit("5");
        reveal_strlit("6");
        reveal_strlit("7");
        reveal_strlit("8");
        reveal_strlit("9");
    }
    match d {
        0 => "0",
        1 => "1",
        2 => "2",
        3 => "3",
        4 => "4",
        5 => "5",
        6 => "6",
        7 => "7",
        8 => "8",
        _ => "9",
    }
}

/// Appends `n` in decimal to `out`.
pub fn append_number(out: &mut String, n: u64)
    ensures
        final(out)@ == old(out)@ + decimal(n as nat),
    decreases n,
{
    if n >= 10 {
        append_number(out, n / 10);
    }
    out.append(digit_text(n % 10));
    assert(out@ =~= old(out)@ + decimal(n as nat));
}

/// `c` is one of the ten digits.
pub open spec fn is_digit(c: char) -> bool {
    '0' <= c <= '9'
}

/// The number that a run of digits writes.
pub open spec fn digits_value(s: Seq<char>) -> nat
    decreases s.len(),
{
    if s.len() == 0 {
        0
    } else {
        (digits_value(s.drop_last()) * 10 + (s.last() as int - 48)) as nat
    }
}

/// A number's text without the plus sign that may stand before it.
pub open spec fn unsigned_part(s: Seq<char>) -> Seq<char> {
    if s.len() > 0 && s[0] == '+' {
        s.skip(1)
    } else {
        s
    }
}

/// What a text says when read as a 64-bit number: an optional plus sign, then
/// digits alone, at least one, whose number fits.
pub open spec fn number_of(s: Seq<char>) -> Option<u64> {
    let digits = unsigned_part(s);
    if digits.len() > 0 && (forall|i: int| 0 <= i < digits.len() ==> is_digit(#[trigger] digits[i]))
        && digits_value(digits) <= u64::MAX {
        Some(digits_value(digits) as u64)
    } else {
        None
    }
}

proof fn lemma_digits_value_grows(s: Seq<char>, n: int)
    requires
        0 <= n <= s.len(),
        forall|i: int| 0 <= i < s.len() ==> is_digit(#[trigger] s[i]),
    ensures
        digits_value(s.take(n)) <= digits_value(s),
    decreases s.len(),
{
    if n == s.len() {
        assert(s.take(n) =~= s);
    } else {
        assert(is_digit(s[s.len() - 1]));
        lemma_digits_value_grows(s.drop_last(), n);
        assert(s.drop_last().take(n) =~= s.take(n));
    }
}

/// Reads a 64-bit number.
pub fn parse_number(s: &str) -> (r: Option<u64>)
    ensures
        r == number_of(s@),
{
    let c: Vec<char> = chars_of(s);
    let start: usize = if c.len() > 0 && c[0] == '+' { 1 } else { 0 };
    let ghost digits = unsigned_part(s@);
    assert(digits =~= s@.skip(start as int));
    if start == c.len() {
        return None;
    }
    let mut value: u64 = 0;
    let mut i: usize = start;
    while i < c.len()
        invariant
            c@ == s@,
            digits == unsigned_part(s@),
            digits =~= s@.skip(start as int),
            start <= i <= c.len(),
            forall|j: int| 0 <= j < i - start ==> is_digit(#[trigger] digits[j]),
            value == digits_value(digits.take(i - start)),
        decreases c.len() - i,
    {
        let d: char = c[i];
        assert(d == digits[i - start]);
        if d < '0' || d > '9' {
            return None;
        }
        let add: u64 = d as u64 - 48;
        proof {
            let next = digits.take(i - start + 1);
            assert(next.drop_last() =~= digits.take(i - start));
            if value * 10 + add > u64::MAX {
                if forall|k: int| 0 <= k < digits.len() ==> is_digit(#[trigger] digits[k]) {
                    lemma_digits_value_grows(digits, i - start + 1);
                }
            }
        }
        if value > u64::MAX / 10 || value * 10 > u64::MAX - add {
            return None;
        }
        value = value * 10 + add;
        i += 1;
    }
    assert(digits.take(digits.len() as int) =~= digits);
    Some(value)
}

proof fn lemma_decimal_is_digits(n: nat)
    ensures
        decimal(n).len() > 0,
        forall|i: int| 0 <= i < decimal(n).len() ==> is_digit(#[trigger] decimal(n)[i]),
        digits_value(decimal(n)) == n,
    decreases n,
{
    if n < 10 {
        assert(decimal(n).drop_last() =~= Seq::<char>::empty());
        assert(digits_value(Seq::<char>::empty()) == 0);
    } else {
        lemma_decimal_is_digits(n / 10);
        assert(decimal(n).drop_last() =~= decimal(n / 10));
    }
}

/// A number that is written in decimal and read back is that number, and its
/// text holds digits alone.
pub proof fn lemma_number_reads_back(n: u64)
    ensures
        number_of(decimal(n as nat)) == Some(n),
        forall|i: int|
            0 <= i < decimal(n as nat).len() ==> is_digit(#[trigger] decimal(n as nat)[i]),
{
    lemma_decimal_is_digits(n as nat);
    assert(is_digit(decimal(n as nat)[0]));
}

// ---------------------------------------------------------------------------
// Fields
// ---------------------------------------------------------------------------

/// Two slashes stand at `i`.
pub open spec fn separator_at(s: Seq<char>, i: int) -> bool {
    0 <= i && i + 1 < s.len() && s[i] == '/' && s[i + 1] == '/'
}

/// The first place at or after `i` where two slashes stand; the length if
/// there is none.
pub open spec fn next_separator(s: Seq<char>, i: int) -> int
    decreases s.len() - i,
{
    if i >= s.len() {
        s.len() as int
    } else if separator_at(s, i) {
        i
    } else {
        next_separator(s, i + 1)
    }
}

proof fn lemma_next_separator(s: Seq<char>, i: int)
    requires
        0 <= i <= s.len(),
    ensures
        i <= next_separator(s, i) <= s.len(),
        next_separator(s, i) < s.len() ==> separator_at(s, next_separator(s, i)),
        forall|j: int| i <= j < next_separator(s, i) ==> !separator_at(s, j),
    decreases s.len() - i,
{
    if i < s.len() && !separator_at(s, i) {
        lemma_next_separator(s, i + 1);
    }
}

/// The fields of a line: what stands between the double slashes, taken from
/// the left.
pub open spec fn fields(s: Seq<char>) -> Seq<Seq<char>>
    decreases s.len(),
{
    let i = next_separator(s, 0);
    if 0 <= i && i + 1 < s.len() {
        seq![s.take(i)] + fields(s.skip(i + 2))
    } else {
        seq![s]
    }
}

/// Splits a line into its fields.
pub fn split_fields(line: &str) -> (r: Vec<String>)
    ensures
        r.deep_view() == fields(line@),
{
    let c: Vec<char> = chars_of(line);
    let mut r: Vec<String> = Vec::new();
    let mut start: usize = 0;
    let mut i: usize = 0;
    assert(line@.skip(0) =~= line@);
    assert(r.deep_view() + fields(line@) =~= fields(line@));
    while c.len() > 0 && i < c.len() - 1
        invariant
            c@ == line@,
            start <= i <= c.len(),
            r.deep_view() + fields(line@.skip(start as int)) == fields(line@),
            forall|j: int| 0 <= j < i - start ==> !separator_at(line@.skip(start as int), j),
        decreases c.len() - i,
    {
        let ghost rest = line@.skip(start as int);
        assert(rest[i - start] == c[i as int] && rest[i - start + 1] == c[i + 1]);
        if c[i] == '/' && c[i + 1] == '/' {
            let field: String = line.substring_char(start, i).to_owned();
            let ghost before = r.deep_view();
            r.push(field);
            proof {
                lemma_next_separator(rest, 0);
                assert(separator_at(rest, i - start));
                assert(next_separator(rest, 0) == i - start);
                assert(rest.take(i - start) =~= line@.subrange(start as int, i as int));
                assert(rest.skip(i - start + 2) =~= line@.skip(i + 2));
                assert(r.deep_view() =~= before.push(field@));
                assert(before + (seq![field@] + fields(line@.skip(i + 2))) =~= before.push(field@)
                    + fields(line@.skip(i + 2)));
            }
            i += 2;
            start = i;
        } else {
            assert(!separator_at(rest, i - start));
            i += 1;
        }
    }
    let field: String = line.substring_char(start, c.len()).to_owned();
    let ghost before = r.deep_view();
    r.push(field);
    proof {
        let rest = line@.skip(start as int);
        lemma_next_separator(rest, 0);
        assert(rest =~= line@.subrange(start as int, c@.len() as int));
        assert(fields(rest) == seq![rest]);
        assert(r.deep_view() =~= before.push(field@));
        assert(before + seq![rest] =~= before.push(field@));
    }
    r
}

/// The double slash that stands between two fields.
pub open spec fn separator() -> Seq<char> {
    seq!['/', '/']
}

/// A text that can be a field: it holds no double slash and ends with no slash.
pub open spec fn is_field(s: Seq<char>) -> bool {
    &&& forall|i: int| 0 <= i ==> !separator_at(s, i)
    &&& s.len() > 0 ==> s.last() != '/'
}

/// The first field of a line is what was written before the first double slash.
pub proof fn lemma_fields_split(head: Seq<char>, rest: Seq<char>)
    requires
        is_field(head),
    ensures
        fields(head + separator() + rest) == seq![head] + fields(rest),
{
    let s = head + separator() + rest;
    let n = head.len() as int;
    lemma_next_separator(s, 0);
    assert(separator_at(s, n));
    assert forall|j: int| 0 <= j < n implies !separator_at(s, j) by {
        if j + 1 < n {
            assert(!separator_at(head, j));
            assert(s[j] == head[j] && s[j + 1] == head[j + 1]);
        } else {
            assert(s[j] == head.last());
        }
    }
    assert(next_separator(s, 0) == n);
    assert(s.take(n) =~= head);
    assert(s.skip(n + 2) =~= rest);
}

/// A line without a double slash has one field.
pub proof fn lemma_fields_single(s: Seq<char>)
    requires
        forall|i: int| 0 <= i ==> !separator_at(s, i),
    ensures
        fields(s) == seq![s],
{
    lemma_next_separator(s, 0);
}

// ---------------------------------------------------------------------------
// Laws
// ---------------------------------------------------------------------------

/// Of two texts the one comes first that has the lesser character where they first
/// differ, or that the other begins with.
pub proof fn law_order_of_texts(a: Seq<char>, b: Seq<char>)
    ensures
        precedes(a, b) <==> exists|n: int|
            {
                &&& 0 <= n <= a.len()
                &&& n < b.len()
                &&& #[trigger] a.take(n) == b.take(n)
                &&& n == a.len() || a[n] < b[n]
            },
    decreases a.len(),
{
    if b.len() == 0 {
    } else if a.len() == 0 {
        assert(a.take(0) =~= b.take(0));
    } else if a[0] == b[0] {
        let c = a.skip(1);
        let d = b.skip(1);
        law_order_of_texts(c, d);
        if precedes(c, d) {
            let n = choose|n: int|
                {
                    &&& 0 <= n <= c.len()
                    &&& n < d.len()
                    &&& #[trigger] c.take(n) == d.take(n)
                    &&& n == c.len() || c[n] < d[n]
                };
            let x = a.take(n + 1);
            let y = b.take(n + 1);
            assert forall|i: int| 0 <= i < n + 1 implies #[trigger] x[i] == y[i] by {
                if i > 0 {
                    assert(c.take(n)[i - 1] == d.take(n)[i - 1]);
                }
            }
            assert(x =~= y);
        }
        if exists|n: int|
            {
                &&& 0 <= n <= a.len()
                &&& n < b.len()
                &&& #[trigger] a.take(n) == b.take(n)
                &&& n == a.len() || a[n] < b[n]
            } {
            let n = choose|n: int|
                {
                    &&& 0 <= n <= a.len()
                    &&& n < b.len()
                    &&& #[trigger] a.take(n) == b.take(n)
                    &&& n == a.len() || a[n] < b[n]
                };
            let x = c.take(n - 1);
            let y = d.take(n - 1);
            assert forall|i: int| 0 <= i < n - 1 implies #[trigger] x[i] == y[i] by {
                assert(a.take(n)[i + 1] == b.take(n)[i + 1]);
            }
            assert(x =~= y);
        }
    } else {
        assert(a.take(0) =~= b.take(0));
        if exists|n: int|
            {
                &&& 0 <= n <= a.len()
                &&& n < b.len()
                &&& #[trigger] a.take(n) == b.take(n)
                &&& n == a.len() || a[n] < b[n]
            } {
            let n = choose|n: int|
                {
                    &&& 0 <= n <= a.len()
                    &&& n < b.len()
                    &&& #[trigger] a.take(n) == b.take(n)
                    &&& n == a.len() || a[n] < b[n]
                };
            if n > 0 {
                assert(a.take(n)[0] == b.take(n)[0]);
            }
        }
    }
}

/// A text ends with another if it is something and then that.
pub proof fn law_suffix(whole: Seq<char>, tail: Seq<char>)
    ensures
        has_suffix(whole, tail) <==> exists|head: Seq<char>| whole == #[trigger] (head + tail),
{
    if has_suffix(whole, tail) {
        let head = whole.take(whole.len() - tail.len());
        assert(head + tail =~= whole);
    }
    if exists|head: Seq<char>| whole == #[trigger] (head + tail) {
        let head = choose|head: Seq<char>| whole == #[trigger] (head + tail);
        assert(whole.skip(whole.len() - tail.len()) =~= tail);
    }
}

proof fn lemma_value_is_folded(digits: Seq<char>)
    requires
        forall|i: int| 0 <= i < digits.len() ==> '0' <= #[trigger] digits[i] <= '9',
    ensures
        digits_value(digits) == digits.fold_left(
            0int,
            |value: int, c: char| value * 10 + (c as int - '0' as int),
        ),
    decreases digits.len(),
{
    if digits.len() > 0 {
        let init = digits.drop_last();
        assert forall|i: int| 0 <= i < init.len() implies '0' <= #[trigger] init[i] <= '9' by {
            assert(init[i] == digits[i]);
        }
        lemma_value_is_folded(init);
        assert('0' <= digits[digits.len() - 1] <= '9');
    }
}

/// A number is read from digits, with a plus before them or not: it is their value, if
/// that fits in a machine word.
pub proof fn law_digits_are_read(digits: Seq<char>)
    requires
        digits.len() > 0,
        forall|i: int| 0 <= i < digits.len() ==> '0' <= #[trigger] digits[i] <= '9',
    ensures
        ({
            let value = digits.fold_left(
                0int,
                |value: int, c: char| value * 10 + (c as int - '0' as int),
            );
            let number = if value <= u64::MAX {
                Some(value as u64)
            } else {
                None
            };
            number_of(digits) == number && number_of(seq!['+'] + digits) == number
        }),
{
    lemma_value_is_folded(digits);
    assert('0' <= digits[0]);
    assert((seq!['+'] + digits).skip(1) =~= digits);
    assert(forall|i: int| 0 <= i < digits.len() ==> is_digit(#[trigger] digits[i]));
}

/// No number is read from anything else: behind a plus, if there is one, stand digits
/// and nothing but digits.
pub proof fn law_digits_alone_are_read(s: Seq<char>)
    requires
        number_of(s) is Some,
    ensures
        ({
            let digits = if s.len() > 0 && s[0] == '+' {
                s.skip(1)
            } else {
                s
            };
            &&& digits.len() > 0
            &&& forall|i: int| 0 <= i < digits.len() ==> '0' <= #[trigger] digits[i] <= '9'
        }),
{
    let digits = unsigned_part(s);
    assert forall|i: int| 0 <= i < digits.len() implies '0' <= #[trigger] digits[i] <= '9' by {
        assert(is_digit(digits[i]));
    }
}

/// A number is written in digits that have its value, without a zero before them.
pub proof fn law_number_is_written(n: nat)
    ensures
        decimal(n).len() > 0,
        forall|i: int| 0 <= i < decimal(n).len() ==> '0' <= #[trigger] decimal(n)[i] <= '9',
        decimal(n).fold_left(0int, |value: int, c: char| value * 10 + (c as int - '0' as int)) == n,
        decimal(n).len() > 1 ==> decimal(n)[0] != '0',
{
    lemma_decimal_is_digits(n);
    assert forall|i: int| 0 <= i < decimal(n).len() implies '0' <= #[trigger] decimal(n)[i]
        <= '9' by {
        assert(is_digit(decimal(n)[i]));
    }
    lemma_value_is_folded(decimal(n));
    lemma_no_zero_before(n);
}

proof fn lemma_no_zero_before(n: nat)
    ensures
        decimal(n).len() > 0,
        n > 0 ==> decimal(n)[0] != '0',
        decimal(n).len() > 1 ==> n > 0,
    decreases n,
{
    if n >= 10 {
        lemma_no_zero_before(n / 10);
        assert(decimal(n)[0] == decimal(n / 10)[0]);
    }
}

/// A line is parted at its double slashes, from the left: it has one field where there
/// is none, and else what stands before the first, and then the fields of what stands
/// behind it.
pub proof fn law_line_is_parted_at_double_slashes(s: Seq<char>, n: int)
    requires
        0 <= n <= s.len(),
        forall|i: int|
            0 <= i < n && i + 1 < s.len() ==> !(#[trigger] s[i] == '/' && s[i + 1] == '/'),
    ensures
        n + 1 >= s.len() ==> fields(s) == seq![s],
        n + 1 < s.len() && s[n] == '/' && s[n + 1] == '/' ==> fields(s) == seq![s.take(n)]
            + fields(s.skip(n + 2)),
{
    lemma_next_separator(s, 0);
    let i = next_separator(s, 0);
    if i < n {
        assert(separator_at(s, i));
        assert(s[i] == '/');
    }
    if n + 1 < s.len() && s[n] == '/' && s[n + 1] == '/' {
        assert(separator_at(s, n));
    }
}

} // verus!
