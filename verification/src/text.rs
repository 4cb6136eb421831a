//! Settings as text: trimming, splitting, numbers.

use vstd::prelude::*;
use vstd::string::StringExecFns;
use vstd::string::StrSliceExecFns;

verus! {

/// White space as Unicode has it.
pub open spec fn is_white(c: char) -> bool {
    let n = c as u32;
    ||| 0x9 <= n <= 0xd
    ||| n == 0x20
    ||| n == 0x85
    ||| n == 0xa0
    ||| n == 0x1680
    ||| 0x2000 <= n <= 0x200a
    ||| n == 0x2028
    ||| n == 0x2029
    ||| n == 0x202f
    ||| n == 0x205f
    ||| n == 0x3000
}

/// `s` without the white space that it starts with.
pub open spec fn trimmed_start(s: Seq<char>) -> Seq<char>
    decreases s.len(),
{
    if s.len() > 0 && is_white(s[0]) {
        trimmed_start(s.drop_first())
    } else {
        s
    }
}

/// `s` without the white space that it ends with.
pub open spec fn trimmed_end(s: Seq<char>) -> Seq<char>
    decreases s.len(),
{
    if s.len() > 0 && is_white(s.last()) {
        trimmed_end(s.drop_last())
    } else {
        s
    }
}

/// `s` without white space around it.
pub open spec fn trimmed(s: Seq<char>) -> Seq<char> {
    trimmed_end(trimmed_start(s))
}

/// The position of the first `c` in `s`; the length of `s` where there is none.
pub open spec fn position(s: Seq<char>, c: char) -> nat
    decreases s.len(),
{
    if s.len() == 0 || s[0] == c {
        0
    } else {
        1 + position(s.drop_first(), c)
    }
}

/// The parts of `s` between one `c` and the next.
pub open spec fn parts(s: Seq<char>, c: char) -> Seq<Seq<char>>
    decreases s.len(),
{
    let i = position(s, c) as int;
    if i < s.len() {
        seq![s.take(i)] + parts(s.skip(i + 1), c)
    } else {
        seq![s]
    }
}

/// `c` is an ASCII decimal digit.
pub open spec fn is_digit(c: char) -> bool {
    '0' <= c <= '9'
}

/// The number that a text of digits spells, if it is one.
pub open spec fn digits(s: Seq<char>) -> Option<nat>
    decreases s.len(),
{
    if s.len() == 0 {
        None
    } else if !is_digit(s.last()) {
        None
    } else {
        let last = (s.last() as u32 - '0' as u32) as nat;
        if s.len() == 1 {
            Some(last)
        } else {
            match digits(s.drop_last()) {
                Some(head) => Some(head * 10 + last),
                None => None,
            }
        }
    }
}

/// The number that a text spells, if it is a number from 0 to `max`: digits behind an optional plus
/// sign.
pub open spec fn unsigned(s: Seq<char>, max: nat) -> Option<nat> {
    let body = if s.len() > 0 && s[0] == '+' {
        s.drop_first()
    } else {
        s
    };
    match digits(body) {
        Some(n) => if n <= max {
            Some(n)
        } else {
            None
        },
        None => None,
    }
}

/// The number that a text spells, if it is a number from `min` to `max`: digits behind an optional
/// sign.
pub open spec fn signed(s: Seq<char>, min: int, max: int) -> Option<int> {
    if s.len() > 0 && s[0] == '-' {
        match digits(s.drop_first()) {
            Some(n) => if -n >= min {
                Some(-n)
            } else {
                None
            },
            None => None,
        }
    } else {
        match unsigned(s, max as nat) {
            Some(n) => Some(n as int),
            None => None,
        }
    }
}

proof fn lemma_position(s: Seq<char>, c: char, i: int)
    requires
        0 <= i <= s.len(),
        forall|j: int| 0 <= j < i ==> s[j] != c,
        i < s.len() ==> s[i] == c,
    ensures
        position(s, c) == i,
    decreases s.len(),
{
    if i > 0 {
        assert(s[0] != c);
        let t = s.drop_first();
        assert forall|j: int| 0 <= j < i - 1 implies t[j] != c by {
            assert(s[j + 1] != c);
        }
        lemma_position(t, c, i - 1);
    }
}

fn white(c: char) -> (r: bool)
    ensures
        r == is_white(c),
{
    let n: u32 = c as u32;
    (0x9 <= n && n <= 0xd) || n == 0x20 || n == 0x85 || n == 0xa0 || n == 0x1680 || (0x2000 <= n
        && n <= 0x200a) || n == 0x2028 || n == 0x2029 || n == 0x202f || n == 0x205f || n == 0x3000
}

/// `s` without white space around it.
pub fn trim(s: &str) -> (r: &str)
    ensures
        r@ == trimmed(s@),
{
    let n: usize = s.unicode_len();
    let mut from: usize = 0;
    assert(s@.skip(0) =~= s@);
    while from < n && white(s.get_char(from))
        invariant
            from <= n,
            n == s@.len(),
            trimmed_start(s@.skip(from as int)) == trimmed_start(s@),
        decreases n - from,
    {
        assert(s@.skip(from as int).drop_first() =~= s@.skip(from + 1));
        from = from + 1;
    }
    let ghost rest = s@.skip(from as int);
    assert(trimmed_start(s@) == rest);
    let mut to: usize = n;
    assert(s@.subrange(from as int, n as int) =~= rest);
    while from < to && white(s.get_char(to - 1))
        invariant
            from <= to <= n,
            n == s@.len(),
            trimmed_end(s@.subrange(from as int, to as int)) == trimmed_end(rest),
        decreases to,
    {
        assert(s@.subrange(from as int, to as int).drop_last() =~= s@.subrange(
            from as int,
            to - 1,
        ));
        to = to - 1;
    }
    s.substring_char(from, to)
}

/// The position of the first `c` in `s`, counted in characters, if there is one.
pub fn find_char(s: &str, c: char) -> (r: Option<usize>)
    ensures
        r matches Some(i) ==> i == position(s@, c) && i < s@.len(),
        r is None ==> position(s@, c) == s@.len(),
{
    let n: usize = s.unicode_len();
    let mut i: usize = 0;
    while i < n
        invariant
            i <= n,
            n == s@.len(),
            forall|j: int| 0 <= j < i ==> s@[j] != c,
        decreases n - i,
    {
        if s.get_char(i) == c {
            proof {
                lemma_position(s@, c, i as int);
            }
            return Some(i);
        }
        i = i + 1;
    }
    proof {
        lemma_position(s@, c, n as int);
    }
    None
}

/// The parts of `s` before and behind the first `c`, if there is one.
pub fn split_once(s: &str, c: char) -> (r: Option<(&str, &str)>)
    ensures
        r is Some <==> position(s@, c) < s@.len(),
        r matches Some((before, behind)) ==> before@ == s@.take(position(s@, c) as int)
            && behind@ == s@.skip(position(s@, c) as int + 1),
{
    match find_char(s, c) {
        Some(i) => {
            let n: usize = s.unicode_len();
            let before = s.substring_char(0, i);
            let behind = s.substring_char(i + 1, n);
            assert(before@ =~= s@.take(i as int));
            assert(behind@ =~= s@.skip(i + 1));
            Some((before, behind))
        },
        None => None,
    }
}

/// The parts of `s` between one `c` and the next.
pub fn split(s: &str, c: char) -> (r: Vec<&str>)
    ensures
        r@.len() == parts(s@, c).len(),
        r@.len() > 0,
        forall|i: int| 0 <= i < r@.len() ==> (#[trigger] r@[i])@ == parts(s@, c)[i],
{
    let mut r: Vec<&str> = Vec::new();
    let mut rest: &str = s;
    proof {
        assert(parts(s@, c) =~= Seq::<Seq<char>>::empty() + parts(rest@, c));
    }
    loop
        invariant
            parts(s@, c).len() == r@.len() + parts(rest@, c).len(),
            forall|i: int| 0 <= i < r@.len() ==> (#[trigger] r@[i])@ == parts(s@, c)[i],
            forall|i: int|
                0 <= i < parts(rest@, c).len() ==> #[trigger] parts(rest@, c)[i] == parts(
                    s@,
                    c,
                )[r@.len() + i],
        decreases rest@.len(),
    {
        let ghost before = rest@;
        let ghost count = r@.len();
        match split_once(rest, c) {
            Some((head, tail)) => {
                proof {
                    assert(parts(before, c) =~= seq![head@] + parts(tail@, c));
                    assert(parts(before, c)[0] == parts(s@, c)[count as int]);
                    assert forall|i: int| 0 <= i < parts(tail@, c).len() implies #[trigger] parts(
                        tail@,
                        c,
                    )[i] == parts(s@, c)[count + 1 + i] by {
                        assert(parts(before, c)[i + 1] == parts(s@, c)[count + (i + 1)]);
                    }
                }
                r.push(head);
                rest = tail;
            },
            None => {
                proof {
                    assert(parts(before, c) =~= seq![before]);
                    assert(parts(before, c)[0] == parts(s@, c)[count as int]);
                }
                r.push(rest);
                return r;
            },
        }
    }
}

proof fn lemma_digits_stop(s: Seq<char>, i: int)
    requires
        0 <= i < s.len(),
        !is_digit(s[i]),
    ensures
        digits(s) is None,
    decreases s.len(),
{
    if i < s.len() - 1 {
        lemma_digits_stop(s.drop_last(), i);
    }
}

proof fn lemma_digits_grow(s: Seq<char>, n: int)
    requires
        0 < n <= s.len(),
    ensures
        digits(s.take(n)) is None ==> digits(s) is None,
        digits(s) matches Some(all) ==> digits(s.take(n)) matches Some(head) && head <= all,
    decreases s.len() - n,
{
    if n == s.len() {
        assert(s.take(n) =~= s);
    } else {
        lemma_digits_grow(s, n + 1);
        assert(s.take(n + 1).drop_last() =~= s.take(n));
    }
}

/// The number from 0 to `max` that the characters of `s` from `from` on spell.
fn read_digits(s: &str, from: usize, max: u64) -> (r: Option<u64>)
    requires
        from <= s@.len(),
    ensures
        r == (match digits(s@.skip(from as int)) {
            Some(n) => if n <= max {
                Some(n as u64)
            } else {
                None
            },
            None => None,
        }),
        r matches Some(n) ==> n <= max,
{
    let n: usize = s.unicode_len();
    let ghost body = s@.skip(from as int);
    if from == n {
        return None;
    }
    let mut value: u64 = 0;
    let mut i: usize = from;
    while i < n
        invariant
            from <= i <= n,
            n == s@.len(),
            body == s@.skip(from as int),
            body.len() == n - from,
            i == from ==> value == 0,
            i > from ==> digits(body.take(i - from)) == Some(value as nat),
            value <= max,
        decreases n - i,
    {
        let c: char = s.get_char(i);
        proof {
            assert(body[i - from] == c);
            assert(body.take(i + 1 - from).drop_last() =~= body.take(i - from));
            assert(body.take(i + 1 - from).last() == c);
        }
        if !('0' <= c && c <= '9') {
            proof {
                lemma_digits_stop(body, i - from);
            }
            return None;
        }
        let digit: u64 = (c as u32 - 48) as u64;
        proof {
            lemma_digits_grow(body, i + 1 - from);
        }
        if value > (max - if digit <= max { digit } else { max }) / 10 || digit > max {
            proof {
                assert(value * 10 + digit > max);
            }
            return None;
        }
        value = value * 10 + digit;
        i = i + 1;
    }
    assert(body.take(n - from) =~= body);
    Some(value)
}

/// The number from 0 to `max` that `s` spells.
pub fn parse_unsigned(s: &str, max: u64) -> (r: Option<u64>)
    ensures
        r == (match unsigned(s@, max as nat) {
            Some(n) => Some(n as u64),
            None => None,
        }),
        r matches Some(n) ==> n <= max && unsigned(s@, max as nat) == Some(n as nat),
{
    if s.unicode_len() > 0 && s.get_char(0) == '+' {
        assert(s@.skip(1) =~= s@.drop_first());
        read_digits(s, 1, max)
    } else {
        assert(s@.skip(0) =~= s@);
        read_digits(s, 0, max)
    }
}

/// The number from `-max - 1` to `max` that `s` spells.
pub fn parse_signed(s: &str, max: i64) -> (r: Option<i64>)
    requires
        max >= 0,
    ensures
        r == (match signed(s@, -max - 1, max as int) {
            Some(n) => Some(n as i64),
            None => None,
        }),
        r matches Some(n) ==> -max - 1 <= n <= max && signed(s@, -max - 1, max as int) == Some(
            n as int,
        ),
{
    if s.unicode_len() > 0 && s.get_char(0) == '-' {
        assert(s@.skip(1) =~= s@.drop_first());
        match read_digits(s, 1, max as u64 + 1) {
            Some(n) => {
                if n == max as u64 + 1 {
                    Some(-max - 1)
                } else {
                    Some(-(n as i64))
                }
            },
            None => None,
        }
    } else {
        match parse_unsigned(s, max as u64) {
            Some(n) => Some(n as i64),
            None => None,
        }
    }
}

/// Tells whether two texts are the same.
pub fn same_text(a: &str, b: &str) -> (r: bool)
    ensures
        r == (a@ == b@),
{
    let n: usize = a.unicode_len();
    if n != b.unicode_len() {
        return false;
    }
    let mut i: usize = 0;
    while i < n
        invariant
            i <= n,
            n == a@.len(),
            n == b@.len(),
            forall|j: int| 0 <= j < i ==> a@[j] == b@[j],
        decreases n - i,
    {
        if a.get_char(i) != b.get_char(i) {
            return false;
        }
        i = i + 1;
    }
    assert(a@ =~= b@);
    true
}

/// A number's decimal digits.
pub open spec fn decimal(n: nat) -> Seq<char>
    decreases n,
{
    let last = ('0' as u32 + n % 10) as char;
    if n < 10 {
        seq![last]
    } else {
        decimal(n / 10).push(last)
    }
}

/// A number's decimal digits, behind a minus sign where it is negative.
pub open spec fn signed_decimal(n: int) -> Seq<char> {
    if n < 0 {
        seq!['-'] + decimal((-n) as nat)
    } else {
        decimal(n as nat)
    }
}

/// Reading the decimal digits of a number gives the number back.
pub proof fn law_digits_of_decimal(n: nat)
    ensures
        digits(decimal(n)) == Some(n),
    decreases n,
{
    let s = decimal(n);
    let last = ('0' as u32 + n % 10) as char;
    assert(s.last() == last);
    if n < 10 {
        assert(s.len() == 1);
    } else {
        law_digits_of_decimal(n / 10);
        assert(decimal(n / 10).len() > 0) by {
            assert(digits(decimal(n / 10)) is Some);
        }
        assert(s.drop_last() =~= decimal(n / 10));
    }
}

/// Writes a number's decimal digits behind a text.
pub fn push_decimal(s: &mut String, n: u64)
    ensures
        final(s)@ == old(s)@ + decimal(n as nat),
    decreases n,
{
    if n >= 10 {
        push_decimal(s, n / 10);
    }
    let d: u64 = n % 10;
    let digit: &str = if d == 0 {
        "0"
    } else if d == 1 {
        "1"
    } else if d == 2 {
        "2"
    } else if d == 3 {
        "3"
    } else if d == 4 {
        "4"
    } else if d == 5 {
        "5"
    } else if d == 6 {
        "6"
    } else if d == 7 {
        "7"
    } else if d == 8 {
        "8"
    } else {
        "9"
    };
    s.append(digit);
    proof {
        reveal_strlit("0");
        reveal_strlit("1");
        reveal_strlit("2");
        reveal_strlit("3");
        reveal_strlit("4");
        reveal_strlit("5");
        reveal_strlit("6");
        reveal_strlit("7");
        reveal_strlit("8");
        reveal_strlit("9");
        assert(digit@ =~= seq![('0' as u32 + n as nat % 10) as char]);
        assert(s@ =~= old(s)@ + decimal(n as nat));
    }
}

/// Writes a number's decimal digits behind a text, with a minus sign where it is negative.
pub fn push_signed(s: &mut String, n: i64)
    ensures
        final(s)@ == old(s)@ + signed_decimal(n as int),
{
    if n < 0 {
        s.append("-");
        push_decimal(s, (-(n as i128)) as u64);
        proof {
            reveal_strlit("-");
            assert(s@ =~= old(s)@ + signed_decimal(n as int));
        }
    } else {
        push_decimal(s, n as u64);
    }
}

} // verus!
