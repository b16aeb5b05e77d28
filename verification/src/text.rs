//! Character-level text utilities: whitespace handling, trimming,
//! splitting, ASCII case folding, decimal formatting and parsing.
//!
//! All executable functions work on `Vec<char>` or `&str` and are
//! specified against `Seq<char>` views.

use vstd::prelude::*;

verus! {

/// The Unicode `White_Space` characters, the set that `str::trim` and
/// `str::split_whitespace` strip.
pub open spec fn is_space_char(c: char) -> bool {
    let u = c as u32;
    (0x09 <= u && u <= 0x0D) || u == 0x20 || u == 0x85 || u == 0xA0 || u == 0x1680 || (0x2000
        <= u && u <= 0x200A) || u == 0x2028 || u == 0x2029 || u == 0x202F || u == 0x205F || u
        == 0x3000
}

/// Executable test for `is_space_char`.
pub fn is_space(c: char) -> (r: bool)
    ensures
        r == is_space_char(c),
{
    let u = c as u32;
    (0x09 <= u && u <= 0x0D) || u == 0x20 || u == 0x85 || u == 0xA0 || u == 0x1680 || (0x2000
        <= u && u <= 0x200A) || u == 0x2028 || u == 0x2029 || u == 0x202F || u == 0x205F || u
        == 0x3000
}

/// Relies on `String::push`: appends exactly the given character.
#[verifier::external_body]
pub fn push_char(s: &mut String, c: char)
    ensures
        final(s)@ == old(s)@.push(c),
{
    s.push(c);
}

/// The characters of a string slice, in order.
pub fn str_chars(s: &str) -> (r: Vec<char>)
    ensures
        r@ == s@,
{
    let n = s.unicode_len();
    let mut r: Vec<char> = Vec::new();
    let mut i: usize = 0;
    while i < n
        invariant
            n == s@.len(),
            i <= n,
            r@ == s@.subrange(0, i as int),
        decreases n - i,
    {
        r.push(s.get_char(i));
        i = i + 1;
        proof {
            assert(r@ =~= s@.subrange(0, i as int));
        }
    }
    proof {
        assert(r@ =~= s@);
    }
    r
}

/// A `String` holding exactly the given characters.
pub fn chars_to_string(v: &Vec<char>) -> (r: String)
    ensures
        r@ == v@,
{
    let mut r = String::new();
    let mut i: usize = 0;
    while i < v.len()
        invariant
            i <= v@.len(),
            r@ == v@.subrange(0, i as int),
        decreases v@.len() - i,
    {
        push_char(&mut r, v[i]);
        i = i + 1;
        proof {
            assert(r@ =~= v@.subrange(0, i as int));
        }
    }
    proof {
        assert(r@ =~= v@);
    }
    r
}

/// The input without its leading whitespace.
pub open spec fn spec_trim_start(s: Seq<char>) -> Seq<char>
    decreases s.len(),
{
    if s.len() == 0 {
        s
    } else if is_space_char(s[0]) {
        spec_trim_start(s.drop_first())
    } else {
        s
    }
}

/// The input without its trailing whitespace.
pub open spec fn spec_trim_end(s: Seq<char>) -> Seq<char>
    decreases s.len(),
{
    if s.len() == 0 {
        s
    } else if is_space_char(s.last()) {
        spec_trim_end(s.drop_last())
    } else {
        s
    }
}

/// The input without leading and trailing whitespace, as `str::trim`
/// leaves it.
pub open spec fn spec_trim(s: Seq<char>) -> Seq<char> {
    spec_trim_end(spec_trim_start(s))
}

proof fn lemma_trim_start_at(s: Seq<char>, i: int)
    requires
        0 <= i <= s.len(),
        forall|j: int| 0 <= j < i ==> is_space_char(s[j]),
        i < s.len() ==> !is_space_char(s[i]),
    ensures
        spec_trim_start(s) == s.subrange(i, s.len() as int),
    decreases i,
{
    if i == 0 {
        if s.len() == 0 {
            assert(s =~= s.subrange(0, s.len() as int));
        } else {
            assert(s =~= s.subrange(0, s.len() as int));
        }
    } else {
        assert(is_space_char(s[0]));
        lemma_trim_start_at(s.drop_first(), i - 1);
        assert(s.drop_first().subrange(i - 1, s.drop_first().len() as int) =~= s.subrange(
            i,
            s.len() as int,
        ));
    }
}

proof fn lemma_trim_end_at(s: Seq<char>, i: int)
    requires
        0 <= i <= s.len(),
        forall|j: int| i <= j < s.len() ==> is_space_char(s[j]),
        i > 0 ==> !is_space_char(s[i - 1]),
    ensures
        spec_trim_end(s) == s.subrange(0, i),
    decreases s.len() - i,
{
    if i == s.len() {
        if s.len() == 0 {
            assert(s =~= s.subrange(0, i));
        } else {
            assert(!is_space_char(s.last()));
            assert(s =~= s.subrange(0, i));
        }
    } else {
        assert(is_space_char(s.last()));
        lemma_trim_end_at(s.drop_last(), i);
        assert(s.drop_last().subrange(0, i) =~= s.subrange(0, i));
    }
}

/// The characters with leading and trailing whitespace removed.
pub fn trim_chars(v: &Vec<char>) -> (r: Vec<char>)
    ensures
        r@ == spec_trim(v@),
{
    let n = v.len();
    let mut a: usize = 0;
    while a < n && is_space(v[a])
        invariant
            n == v@.len(),
            a <= n,
            forall|j: int| 0 <= j < a ==> is_space_char(v@[j]),
        decreases n - a,
    {
        a = a + 1;
    }
    proof {
        lemma_trim_start_at(v@, a as int);
    }
    let ghost t = v@.subrange(a as int, n as int);
    let mut b: usize = n;
    while b > a && is_space(v[b - 1])
        invariant
            n == v@.len(),
            a <= b <= n,
            t == v@.subrange(a as int, n as int),
            forall|j: int| b <= j < n ==> is_space_char(v@[j]),
        decreases b,
    {
        b = b - 1;
    }
    proof {
        assert(forall|j: int| #![auto] b - a <= j < t.len() ==> is_space_char(t[j]));
        assert(b > a ==> !is_space_char(t[b - a - 1]));
        lemma_trim_end_at(t, b - a);
    }
    let mut r: Vec<char> = Vec::new();
    let mut i: usize = a;
    while i < b
        invariant
            a <= i <= b <= n,
            n == v@.len(),
            r@ == v@.subrange(a as int, i as int),
        decreases b - i,
    {
        r.push(v[i]);
        i = i + 1;
        proof {
            assert(r@ =~= v@.subrange(a as int, i as int));
        }
    }
    proof {
        assert(t.subrange(0, b - a) =~= v@.subrange(a as int, b as int));
    }
    r
}

/// Tokenizer state machine behind `spec_tokens`: `cur` is the token
/// being accumulated, `acc` the tokens already produced.
pub open spec fn spec_tokens_go(s: Seq<char>, i: int, cur: Seq<char>, acc: Seq<Seq<char>>) -> Seq<
    Seq<char>,
>
    decreases s.len() - i,
{
    if i < 0 || i >= s.len() {
        if cur.len() > 0 {
            acc.push(cur)
        } else {
            acc
        }
    } else if is_space_char(s[i]) {
        spec_tokens_go(
            s,
            i + 1,
            Seq::empty(),
            if cur.len() > 0 {
                acc.push(cur)
            } else {
                acc
            },
        )
    } else {
        spec_tokens_go(s, i + 1, cur.push(s[i]), acc)
    }
}

/// The maximal whitespace-free runs of the input, in order: what
/// `str::split_whitespace` yields.
pub open spec fn spec_tokens(s: Seq<char>) -> Seq<Seq<char>> {
    spec_tokens_go(s, 0, Seq::empty(), Seq::empty())
}

/// The whitespace-separated tokens of the input, in order.
pub fn split_whitespace_chars(v: &Vec<char>) -> (r: Vec<Vec<char>>)
    ensures
        r.deep_view() == spec_tokens(v@),
{
    let n = v.len();
    let mut r: Vec<Vec<char>> = Vec::new();
    let mut cur: Vec<char> = Vec::new();
    proof {
        assert(r.deep_view() =~~= Seq::<Seq<char>>::empty());
    }
    let mut i: usize = 0;
    while i < n
        invariant
            n == v@.len(),
            i <= n,
            spec_tokens_go(v@, i as int, cur@, r.deep_view()) == spec_tokens(v@),
        decreases n - i,
    {
        let ghost old_dv = r.deep_view();
        let ghost old_cur = cur@;
        if is_space(v[i]) {
            if cur.len() > 0 {
                r.push(cur);
                cur = Vec::new();
                proof {
                    assert(r.deep_view() =~~= old_dv.push(old_cur));
                }
            } else {
                proof {
                    assert(cur@ =~= Seq::<char>::empty());
                }
            }
        } else {
            cur.push(v[i]);
        }
        i = i + 1;
    }
    if cur.len() > 0 {
        let ghost old_dv = r.deep_view();
        let ghost old_cur = cur@;
        r.push(cur);
        proof {
            assert(r.deep_view() =~~= old_dv.push(old_cur));
        }
    }
    r
}

/// Splitter state machine behind `spec_split`.
pub open spec fn spec_split_go(
    s: Seq<char>,
    sep: char,
    i: int,
    cur: Seq<char>,
    acc: Seq<Seq<char>>,
) -> Seq<Seq<char>>
    decreases s.len() - i,
{
    if i < 0 || i >= s.len() {
        acc.push(cur)
    } else if s[i] == sep {
        spec_split_go(s, sep, i + 1, Seq::empty(), acc.push(cur))
    } else {
        spec_split_go(s, sep, i + 1, cur.push(s[i]), acc)
    }
}

/// The parts of the input between occurrences of `sep`, in order,
/// empty parts kept: what `str::split(sep)` yields.
pub open spec fn spec_split(s: Seq<char>, sep: char) -> Seq<Seq<char>> {
    spec_split_go(s, sep, 0, Seq::empty(), Seq::empty())
}

/// The parts of the input between occurrences of `sep`, in order.
pub fn split_char(v: &Vec<char>, sep: char) -> (r: Vec<Vec<char>>)
    ensures
        r.deep_view() == spec_split(v@, sep),
        r@.len() > 0,
{
    let n = v.len();
    let mut r: Vec<Vec<char>> = Vec::new();
    let mut cur: Vec<char> = Vec::new();
    proof {
        assert(r.deep_view() =~~= Seq::<Seq<char>>::empty());
    }
    let mut i: usize = 0;
    while i < n
        invariant
            n == v@.len(),
            i <= n,
            spec_split_go(v@, sep, i as int, cur@, r.deep_view()) == spec_split(v@, sep),
        decreases n - i,
    {
        let ghost old_dv = r.deep_view();
        let ghost old_cur = cur@;
        if v[i] == sep {
            r.push(cur);
            cur = Vec::new();
            proof {
                assert(r.deep_view() =~~= old_dv.push(old_cur));
            }
        } else {
            cur.push(v[i]);
        }
        i = i + 1;
    }
    let ghost old_dv = r.deep_view();
    let ghost old_cur = cur@;
    r.push(cur);
    proof {
        assert(r.deep_view() =~~= old_dv.push(old_cur));
    }
    r
}

/// Index of the first occurrence of `c`, or -1 if it does not occur.
pub open spec fn spec_index_of(s: Seq<char>, c: char) -> int
    decreases s.len(),
{
    if s.len() == 0 {
        -1
    } else if s[0] == c {
        0
    } else {
        let r = spec_index_of(s.drop_first(), c);
        if r < 0 {
            -1
        } else {
            r + 1
        }
    }
}

/// What `str::split_once(c)` yields: the text before and after the
/// first occurrence of `c`, or nothing when `c` does not occur.
pub open spec fn spec_split_once(s: Seq<char>, c: char) -> Option<(Seq<char>, Seq<char>)> {
    let i = spec_index_of(s, c);
    if i < 0 {
        None
    } else {
        Some((s.subrange(0, i), s.subrange(i + 1, s.len() as int)))
    }
}

proof fn lemma_index_of_at(s: Seq<char>, c: char, i: int)
    requires
        0 <= i <= s.len(),
        forall|j: int| 0 <= j < i ==> s[j] != c,
        i < s.len() ==> s[i] == c,
    ensures
        spec_index_of(s, c) == if i < s.len() {
            i
        } else {
            -1
        },
    decreases i,
{
    if i == 0 {
    } else {
        lemma_index_of_at(s.drop_first(), c, i - 1);
    }
}

/// The text before and after the first occurrence of `c`, if any.
pub fn split_once_char(v: &Vec<char>, c: char) -> (r: Option<(Vec<char>, Vec<char>)>)
    ensures
        match r {
            Some(p) => spec_split_once(v@, c) == Some((p.0@, p.1@)),
            None => spec_split_once(v@, c) is None,
        },
{
    let n = v.len();
    let mut i: usize = 0;
    while i < n && v[i] != c
        invariant
            n == v@.len(),
            i <= n,
            forall|j: int| 0 <= j < i ==> v@[j] != c,
        decreases n - i,
    {
        i = i + 1;
    }
    proof {
        lemma_index_of_at(v@, c, i as int);
    }
    if i == n {
        None
    } else {
        let mut before: Vec<char> = Vec::new();
        let mut j: usize = 0;
        while j < i
            invariant
                i < n == v@.len(),
                j <= i,
                before@ == v@.subrange(0, j as int),
            decreases i - j,
        {
            before.push(v[j]);
            j = j + 1;
            proof {
                assert(before@ =~= v@.subrange(0, j as int));
            }
        }
        let mut after: Vec<char> = Vec::new();
        let mut k: usize = i + 1;
        while k < n
            invariant
                i < n == v@.len(),
                i + 1 <= k <= n,
                after@ == v@.subrange(i + 1, k as int),
            decreases n - k,
        {
            after.push(v[k]);
            k = k + 1;
            proof {
                assert(after@ =~= v@.subrange(i + 1, k as int));
            }
        }
        Some((before, after))
    }
}

/// ASCII-case-folded code point: the letters `A`-`Z` map to their
/// lower-case codes, every other character to its own code.
pub open spec fn fold_code(c: char) -> int {
    if 65 <= c as u32 && c as u32 <= 90 {
        c as u32 + 32
    } else {
        c as u32 as int
    }
}

/// Equality of two character sequences up to ASCII case, as
/// `str::eq_ignore_ascii_case` decides it.
pub open spec fn seq_eq_ignore_case(a: Seq<char>, b: Seq<char>) -> bool {
    a.len() == b.len() && (forall|i: int| 0 <= i < a.len() ==> fold_code(a[i]) == fold_code(b[i]))
}

/// The ASCII-case-folded code of one character.
pub fn fold_char_code(c: char) -> (r: u32)
    ensures
        r == fold_code(c),
{
    let u = c as u32;
    if 65 <= u && u <= 90 {
        u + 32
    } else {
        u
    }
}

/// Whether two character sequences are equal up to ASCII case.
pub fn eq_ignore_case(a: &Vec<char>, b: &Vec<char>) -> (r: bool)
    ensures
        r == seq_eq_ignore_case(a@, b@),
{
    if a.len() != b.len() {
        return false;
    }
    let n = a.len();
    let mut i: usize = 0;
    while i < n
        invariant
            n == a@.len() == b@.len(),
            i <= n,
            forall|j: int| 0 <= j < i ==> fold_code(a@[j]) == fold_code(b@[j]),
        decreases n - i,
    {
        if fold_char_code(a[i]) != fold_char_code(b[i]) {
            return false;
        }
        i = i + 1;
    }
    true
}

/// Whether `c` is an ASCII decimal digit.
pub open spec fn is_digit_char(c: char) -> bool {
    48 <= c as u32 && c as u32 <= 57
}

/// The numeric value of one digit character.
pub open spec fn digit_val(c: char) -> int {
    c as u32 - 48
}

/// The value of a digit string read in base ten.
pub open spec fn digits_value(s: Seq<char>) -> int
    decreases s.len(),
{
    if s.len() == 0 {
        0
    } else {
        digits_value(s.drop_last()) * 10 + digit_val(s.last())
    }
}

/// The digits of a `u8` token, after the optional leading `+` sign
/// that `u8::from_str` accepts.
pub open spec fn spec_u8_body(s: Seq<char>) -> Seq<char> {
    if s.len() > 0 && s[0] == '+' {
        s.drop_first()
    } else {
        s
    }
}

/// What `str::parse::<u8>` yields: the value of an optionally
/// `+`-signed, non-empty all-digit token whose value fits in a `u8`,
/// and nothing for every other input.
pub open spec fn spec_parse_u8(s: Seq<char>) -> Option<u8> {
    let body = spec_u8_body(s);
    if body.len() > 0 && (forall|i: int| 0 <= i < body.len() ==> is_digit_char(body[i]))
        && digits_value(body) <= 255 {
        Some(digits_value(body) as u8)
    } else {
        None
    }
}

proof fn lemma_digits_value_nonneg(s: Seq<char>)
    requires
        forall|i: int| 0 <= i < s.len() ==> is_digit_char(s[i]),
    ensures
        digits_value(s) >= 0,
    decreases s.len(),
{
    if s.len() > 0 {
        lemma_digits_value_nonneg(s.drop_last());
    }
}

proof fn lemma_digits_value_monotone(s: Seq<char>, k: int)
    requires
        0 <= k <= s.len(),
        forall|i: int| 0 <= i < s.len() ==> is_digit_char(s[i]),
    ensures
        digits_value(s) >= digits_value(s.subrange(0, k)),
    decreases s.len() - k,
{
    if k == s.len() {
        assert(s.subrange(0, k) =~= s);
    } else {
        let t = s.subrange(0, k + 1);
        lemma_digits_value_monotone(s, k + 1);
        assert(t.drop_last() =~= s.subrange(0, k));
        lemma_digits_value_nonneg(s.subrange(0, k));
        assert(is_digit_char(t.last()));
    }
}

/// The `u8` value of a token, exactly as `str::parse::<u8>` reads it.
pub fn parse_u8(v: &Vec<char>) -> (r: Option<u8>)
    ensures
        r == spec_parse_u8(v@),
{
    let n = v.len();
    let start: usize = if n > 0 && v[0] == '+' {
        1
    } else {
        0
    };
    let ghost body = spec_u8_body(v@);
    proof {
        assert(body =~= v@.subrange(start as int, n as int));
    }
    if start == n {
        return None;
    }
    let mut val: u32 = 0;
    let mut i: usize = start;
    while i < n
        invariant
            start <= i <= n,
            n == v@.len(),
            body == spec_u8_body(v@),
            body == v@.subrange(start as int, n as int),
            forall|j: int| start <= j < i ==> is_digit_char(v@[j]),
            val <= 255,
            val == digits_value(v@.subrange(start as int, i as int)),
        decreases n - i,
    {
        let u = v[i] as u32;
        if u < 48 || u > 57 {
            proof {
                assert(body[i - start] == v@[i as int]);
                assert(!is_digit_char(body[i - start]));
            }
            return None;
        }
        let ghost pre = v@.subrange(start as int, i as int);
        let ghost cur = v@.subrange(start as int, i + 1 as int);
        proof {
            assert(cur.drop_last() =~= pre);
            assert(cur.last() == v@[i as int]);
            assert(digit_val(v@[i as int]) == u - 48);
        }
        val = val * 10 + (u - 48);
        i = i + 1;
        if val > 255 {
            proof {
                assert(cur.last() == v@[i - 1]);
                assert(digits_value(cur) == digits_value(pre) * 10 + digit_val(cur.last()));
                assert(digits_value(cur) == val);
                if forall|j: int| 0 <= j < body.len() ==> is_digit_char(body[j]) {
                    lemma_digits_value_monotone(body, i - start);
                    assert(body.subrange(0, i - start) =~= cur);
                    assert(digits_value(body) > 255);
                }
            }
            return None;
        }
    }
    proof {
        assert(v@.subrange(start as int, i as int) =~= body);
    }
    Some(val as u8)
}

/// The character for one decimal digit.
pub open spec fn spec_digit_char(d: int) -> char {
    if d == 0 {
        '0'
    } else if d == 1 {
        '1'
    } else if d == 2 {
        '2'
    } else if d == 3 {
        '3'
    } else if d == 4 {
        '4'
    } else if d == 5 {
        '5'
    } else if d == 6 {
        '6'
    } else if d == 7 {
        '7'
    } else if d == 8 {
        '8'
    } else {
        '9'
    }
}

/// The decimal digits of `n`, without leading zeros.
pub open spec fn spec_u8_digits(n: u8) -> Seq<char> {
    if n < 10 {
        seq![spec_digit_char(n as int)]
    } else if n < 100 {
        seq![spec_digit_char(n as int / 10), spec_digit_char(n as int % 10)]
    } else {
        seq![
            spec_digit_char(n as int / 100),
            spec_digit_char((n as int / 10) % 10),
            spec_digit_char(n as int % 10),
        ]
    }
}

/// `n` right-aligned in three columns, as `format!("{:>3}", n)` prints
/// a `u8`.
pub open spec fn spec_pad3(n: u8) -> Seq<char> {
    if n < 10 {
        seq![' ', ' '] + spec_u8_digits(n)
    } else if n < 100 {
        seq![' '] + spec_u8_digits(n)
    } else {
        spec_u8_digits(n)
    }
}

/// The character for a digit value below ten.
pub fn digit_char(d: u8) -> (c: char)
    requires
        d < 10,
    ensures
        c == spec_digit_char(d as int),
{
    match d {
        0 => '0',
        1 => '1',
        2 => '2',
        3 => '3',
        4 => '4',
        5 => '5',
        6 => '6',
        7 => '7',
        8 => '8',
        _ => '9',
    }
}

/// Appends `n` right-aligned in three columns.
pub fn push_pad3(out: &mut Vec<char>, n: u8)
    ensures
        final(out)@ == old(out)@ + spec_pad3(n),
{
    let ghost base = out@;
    if n < 10 {
        out.push(' ');
        out.push(' ');
        out.push(digit_char(n));
    } else if n < 100 {
        out.push(' ');
        out.push(digit_char(n / 10));
        out.push(digit_char(n % 10));
    } else {
        out.push(digit_char(n / 100));
        out.push(digit_char((n / 10) % 10));
        out.push(digit_char(n % 10));
    }
    proof {
        assert(out@ =~= base + spec_pad3(n));
    }
}

/// `count` copies of `c`.
pub open spec fn spec_repeat(c: char, count: nat) -> Seq<char> {
    Seq::new(count, |i: int| c)
}

/// Appends `count` copies of `c`.
pub fn push_repeat(out: &mut Vec<char>, c: char, count: usize)
    ensures
        final(out)@ == old(out)@ + spec_repeat(c, count as nat),
{
    let ghost base = out@;
    let mut i: usize = 0;
    while i < count
        invariant
            i <= count,
            out@ == base + spec_repeat(c, i as nat),
        decreases count - i,
    {
        out.push(c);
        i = i + 1;
        proof {
            assert(out@ =~= base + spec_repeat(c, i as nat));
        }
    }
}

} // verus!

