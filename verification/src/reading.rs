//! What texts are read as.

use vstd::prelude::*;

use crate::fd_passing::epoll;
use crate::lb;
use crate::settings;
use crate::text;

verus! {

/// White space alone.
pub open spec fn all_white(s: Seq<char>) -> bool {
    forall|k: int| 0 <= k < s.len() ==> text::is_white(#[trigger] s[k])
}

/// Nothing, or something that neither starts nor ends with white space.
pub open spec fn is_tight(s: Seq<char>) -> bool {
    s.len() > 0 ==> !text::is_white(s[0]) && !text::is_white(s[s.len() - 1])
}

proof fn lemma_trimmed_start(white: Seq<char>, s: Seq<char>)
    requires
        all_white(white),
        s.len() > 0 ==> !text::is_white(s[0]),
    ensures
        text::trimmed_start(white + s) == s,
    decreases white.len(),
{
    if white.len() > 0 {
        let tail = white.drop_first();
        assert((white + s)[0] == white[0]);
        assert((white + s).drop_first() =~= tail + s);
        assert forall|k: int| 0 <= k < tail.len() implies text::is_white(#[trigger] tail[k]) by {
            assert(tail[k] == white[k + 1]);
        }
        lemma_trimmed_start(tail, s);
    } else {
        assert(white + s =~= s);
    }
}

proof fn lemma_trimmed_end(s: Seq<char>, white: Seq<char>)
    requires
        all_white(white),
        s.len() > 0 ==> !text::is_white(s[s.len() - 1]),
    ensures
        text::trimmed_end(s + white) == s,
    decreases white.len(),
{
    if white.len() > 0 {
        let front = white.drop_last();
        assert((s + white).last() == white[white.len() - 1]);
        assert((s + white).drop_last() =~= s + front);
        assert forall|k: int| 0 <= k < front.len() implies text::is_white(#[trigger] front[k]) by {
            assert(front[k] == white[k]);
        }
        lemma_trimmed_end(s, front);
    } else {
        assert(s + white =~= s);
    }
}

/// Trimming takes the white space around a text away, and nothing else.
pub proof fn law_white_space_around_does_not_count(
    before: Seq<char>,
    s: Seq<char>,
    after: Seq<char>,
)
    requires
        all_white(before),
        is_tight(s),
        all_white(after),
    ensures
        text::trimmed(before + s + after) == s,
{
    if s.len() == 0 {
        let white = before + after;
        assert(before + s + after =~= white + s);
        assert forall|k: int| 0 <= k < white.len() implies text::is_white(#[trigger] white[k]) by {
            if k < before.len() {
                assert(white[k] == before[k]);
            } else {
                assert(white[k] == after[k - before.len()]);
            }
        }
        lemma_trimmed_start(white, s);
    } else {
        let rest = s + after;
        assert(before + s + after =~= before + rest);
        assert(rest[0] == s[0]);
        lemma_trimmed_start(before, rest);
        lemma_trimmed_end(s, after);
    }
}

/// The character is not in the text.
pub open spec fn lacks(s: Seq<char>, c: char) -> bool {
    forall|k: int| 0 <= k < s.len() ==> #[trigger] s[k] != c
}

proof fn lemma_position(s: Seq<char>, c: char, rest: Seq<char>)
    requires
        lacks(s, c),
        rest.len() > 0 ==> rest[0] == c,
    ensures
        text::position(s + rest, c) == s.len(),
    decreases s.len(),
{
    if s.len() > 0 {
        let tail = s.drop_first();
        assert((s + rest)[0] == s[0]);
        assert((s + rest).drop_first() =~= tail + rest);
        assert forall|k: int| 0 <= k < tail.len() implies #[trigger] tail[k] != c by {
            assert(tail[k] == s[k + 1]);
        }
        lemma_position(tail, c, rest);
    } else {
        assert(s + rest =~= rest);
    }
}

/// A text is parted at the character: what stands before the first one is the first part, and the parts
/// of what stands behind it follow; a text without it is one part.
pub proof fn law_texts_are_parted(s: Seq<char>, c: char, rest: Seq<char>)
    requires
        lacks(s, c),
    ensures
        text::parts(s, c) == seq![s],
        text::parts(s + seq![c] + rest, c) == seq![s] + text::parts(rest, c),
{
    lemma_position(s, c, Seq::empty());
    assert(s + Seq::<char>::empty() =~= s);
    let tail = seq![c] + rest;
    let whole = s + seq![c] + rest;
    assert(whole =~= s + tail);
    lemma_position(s, c, tail);
    assert(whole.take(s.len() as int) =~= s);
    assert(whole.skip(s.len() as int + 1) =~= rest);
}

/// Digits alone, and at least one of them.
pub open spec fn is_number(s: Seq<char>) -> bool {
    s.len() > 0 && forall|k: int| 0 <= k < s.len() ==> '0' <= (#[trigger] s[k]) <= '9'
}

/// A text spells a number if and only if it has digits alone, at least one.
pub proof fn law_numbers_are_digits(s: Seq<char>)
    ensures
        text::digits(s) is Some <==> is_number(s),
    decreases s.len(),
{
    if s.len() > 0 {
        let front = s.drop_last();
        law_numbers_are_digits(front);
        if is_number(s) {
            assert('0' <= s[s.len() - 1] <= '9');
            if s.len() > 1 {
                assert forall|k: int| 0 <= k < front.len() implies '0' <= (#[trigger] front[k]) <= '9' by {
                    assert(front[k] == s[k]);
                }
            }
        }
        if text::digits(s) is Some {
            assert forall|k: int| 0 <= k < s.len() implies '0' <= (#[trigger] s[k]) <= '9' by {
                if k < s.len() - 1 {
                    assert(front[k] == s[k]);
                }
            }
        }
    }
}

proof fn lemma_decimal(n: nat)
    ensures
        is_number(text::decimal(n)),
{
    text::law_digits_of_decimal(n);
    law_numbers_are_digits(text::decimal(n));
}

/// A number that is written out is read back where it is not too large, with or without a plus, and is
/// no number where it is.
pub proof fn law_written_numbers_are_read_back(n: nat, max: nat)
    ensures
        text::unsigned(text::decimal(n), max) == (if n <= max {
            Some(n)
        } else {
            None
        }),
        text::unsigned(seq!['+'] + text::decimal(n), max) == (if n <= max {
            Some(n)
        } else {
            None
        }),
{
    let s = text::decimal(n);
    text::law_digits_of_decimal(n);
    lemma_decimal(n);
    assert('0' <= s[0] <= '9');
    assert((seq!['+'] + s).drop_first() =~= s);
}

/// The same of numbers with a sign.
pub proof fn law_written_signed_numbers_are_read_back(n: int, min: int, max: int)
    requires
        max >= 0,
    ensures
        text::signed(text::signed_decimal(n), min, max) == (if n >= 0 && n <= max || n < 0 && n >= min {
            Some(n)
        } else {
            None
        }),
{
    if n < 0 {
        let s = text::decimal((-n) as nat);
        text::law_digits_of_decimal((-n) as nat);
        assert((seq!['-'] + s).drop_first() =~= s);
    } else {
        let s = text::decimal(n as nat);
        law_written_numbers_are_read_back(n as nat, max as nat);
        lemma_decimal(n as nat);
        assert('0' <= s[0] <= '9');
    }
}

/// An entry of a processor, a colon and an absolute path gives them back, with white space around it.
pub proof fn law_worker_entries_are_read_back(
    before: Seq<char>,
    cpu: nat,
    path: Seq<char>,
    after: Seq<char>,
)
    requires
        all_white(before),
        all_white(after),
        cpu <= usize::MAX,
        path.len() > 0,
        path[0] == '/',
        !text::is_white(path[path.len() - 1]),
    ensures
        lb::entry_of(before + (text::decimal(cpu) + seq![':'] + path) + after) == Ok::<
            (nat, Seq<char>),
            Seq<char>,
        >((cpu, path)),
{
    let number = text::decimal(cpu);
    let e = number + seq![':'] + path;
    lemma_decimal(cpu);
    assert(e[0] == number[0]);
    assert('0' <= number[0] <= '9');
    assert(e[e.len() - 1] == path[path.len() - 1]);
    law_white_space_around_does_not_count(before, e, after);
    let tail = seq![':'] + path;
    assert(e =~= number + tail);
    assert forall|k: int| 0 <= k < number.len() implies #[trigger] number[k] != ':' by {
        assert('0' <= number[k] <= '9');
    }
    lemma_position(number, ':', tail);
    assert(e.take(number.len() as int) =~= number);
    assert(e.skip(number.len() as int + 1) =~= path);
    law_written_numbers_are_read_back(cpu, usize::MAX as nat);
}

proof fn lemma_entries(entries: Seq<Seq<char>>, n: nat)
    requires
        n <= entries.len(),
    ensures
        lb::entries_of(entries, n) matches Ok(specs) ==> {
            &&& specs.len() == n
            &&& forall|k: int|
                0 <= k < n ==> lb::entry_of(#[trigger] entries[k]) == Ok::<
                    (nat, Seq<char>),
                    Seq<char>,
                >(specs[k])
        },
        lb::entries_of(entries, n) matches Err(e) ==> exists|k: int|
            0 <= k < n && lb::entry_of(#[trigger] entries[k]) == Err::<(nat, Seq<char>), Seq<char>>(
                e,
            ) && forall|j: int| 0 <= j < k ==> lb::entry_of(#[trigger] entries[j]) is Ok,
    decreases n,
{
    if n > 0 {
        lemma_entries(entries, (n - 1) as nat);
        if lb::entries_of(entries, (n - 1) as nat) is Ok {
            if lb::entry_of(entries[n - 1]) is Err {
                assert forall|j: int| 0 <= j < n - 1 implies lb::entry_of(
                    #[trigger] entries[j],
                ) is Ok by {}
            }
        }
    }
}

/// A map of workers is read entry by entry: it has as many workers as entries, each as its entry says;
/// the first entry that is wrong is complained of. A blank text has no workers.
pub proof fn law_worker_maps_are_read_entry_by_entry(value: Seq<char>)
    ensures
        all_white(value) ==> lb::worker_map_of(value) == Ok::<
            Seq<(nat, Seq<char>)>,
            Seq<char>,
        >(Seq::empty()),
        text::trimmed(value).len() > 0 ==> {
            let entries = text::parts(text::trimmed(value), ',');
            &&& lb::worker_map_of(value) matches Ok(specs) ==> specs.len() == entries.len()
                && forall|k: int|
                0 <= k < entries.len() ==> lb::entry_of(#[trigger] entries[k]) == Ok::<
                    (nat, Seq<char>),
                    Seq<char>,
                >(specs[k])
            &&& lb::worker_map_of(value) matches Err(e) ==> exists|k: int|
                0 <= k < entries.len() && lb::entry_of(#[trigger] entries[k]) == Err::<
                    (nat, Seq<char>),
                    Seq<char>,
                >(e) && forall|j: int| 0 <= j < k ==> lb::entry_of(#[trigger] entries[j]) is Ok
        },
{
    if all_white(value) {
        law_white_space_around_does_not_count(value, Seq::empty(), Seq::empty());
        assert(value + Seq::<char>::empty() + Seq::<char>::empty() =~= value);
    }
    let entries = text::parts(text::trimmed(value), ',');
    lemma_entries(entries, entries.len());
}

proof fn lemma_upstreams(parts: Seq<Seq<char>>, n: nat)
    requires
        n <= parts.len(),
    ensures
        ({
            let kept = lb::upstreams_of(parts, n);
            let named = parts.take(n as int).map_values(|s: Seq<char>| text::trimmed(s)).filter(
                |s: Seq<char>| s.len() > 0,
            );
            &&& named.len() <= 32 ==> kept == named
            &&& named.len() > 32 ==> kept == named.take(32)
        }),
    decreases n,
{
    reveal(Seq::filter);
    let trim = |s: Seq<char>| text::trimmed(s);
    let full = |s: Seq<char>| s.len() > 0;
    let mapped = parts.take(n as int).map_values(trim);
    if n == 0 {
        assert(mapped =~= Seq::<Seq<char>>::empty());
        assert(lb::upstreams_of(parts, n) =~= mapped.filter(full));
    } else {
        let m = (n - 1) as nat;
        lemma_upstreams(parts, m);
        let before = parts.take(m as int).map_values(trim);
        assert(mapped.drop_last() =~= before);
        assert(mapped.last() == text::trimmed(parts[n - 1]));
        let (named, earlier) = (mapped.filter(full), before.filter(full));
        let path = text::trimmed(parts[n - 1]);
        if path.len() > 0 {
            assert(named == earlier.push(path));
            if earlier.len() >= 32 {
                assert(named.take(32) =~= earlier.take(32));
                if earlier.len() == 32 {
                    assert(earlier.take(32) =~= earlier);
                }
            }
        } else {
            assert(named == earlier);
        }
    }
}

/// A list of sockets names its parts, trimmed, without those that are empty, and no more than the first
/// thirty-two.
pub proof fn law_upstreams_are_the_parts(value: Seq<char>)
    ensures
        ({
            let named = text::parts(value, ',').map_values(
                |s: Seq<char>| text::trimmed(s),
            ).filter(|s: Seq<char>| s.len() > 0);
            &&& named.len() <= 32 ==> lb::upstream_list(value) == named
            &&& named.len() > 32 ==> lb::upstream_list(value) == named.take(32)
        }),
{
    let parts = text::parts(value, ',');
    lemma_upstreams(parts, parts.len());
    assert(parts.take(parts.len() as int) =~= parts);
}

/// A setting that is a number is that number, and one that is missing, is no number or is out of range
/// leaves the default.
pub proof fn law_settings_are_what_they_say(n: nat, max: nat, default: nat, s: Seq<char>)
    ensures
        settings::unsigned_or(Some(text::decimal(n)), max, default) == (if n <= max {
            n
        } else {
            default
        }),
        settings::unsigned_or(None, max, default) == default,
        !is_number(s) && !(s.len() > 0 && s[0] == '+' && is_number(s.drop_first()))
            ==> settings::unsigned_or(Some(s), max, default) == default,
{
    law_written_numbers_are_read_back(n, max);
    law_numbers_are_digits(s);
    if s.len() > 0 {
        law_numbers_are_digits(s.drop_first());
        if s[0] == '+' {
            assert(!('0' <= s[0] <= '9'));
        }
    }
}

/// Events are waited for as long as is set in microseconds, or else a thousand times as long as is set in
/// milliseconds, as far as can be counted; a millisecond where neither is set to a number that is not
/// negative.
pub proof fn law_waiting_time_is_what_is_set(us: int, ms: int)
    requires
        -0x8000_0000_0000_0000 <= us <= 0x7fff_ffff_ffff_ffff,
        -0x8000_0000_0000_0000 <= ms <= 0x7fff_ffff_ffff_ffff,
    ensures
        ({
            let (u, m) = (text::signed_decimal(us), text::signed_decimal(ms));
            let from_ms = if ms < 0 {
                1000
            } else if ms * 1000 > 0x7fff_ffff_ffff_ffff {
                0x7fff_ffff_ffff_ffff
            } else {
                ms * 1000
            };
            &&& us >= 0 ==> epoll::idle_us(Some(u), Some(m)) == us && epoll::idle_us(Some(u), None)
                == us
            &&& us < 0 ==> epoll::idle_us(Some(u), Some(m)) == from_ms && epoll::idle_us(
                Some(u),
                None,
            ) == 1000
            &&& epoll::idle_us(None, Some(m)) == from_ms
            &&& epoll::idle_us(None, None) == 1000
        }),
{
    let max = 0x7fff_ffff_ffff_ffffint;
    law_written_signed_numbers_are_read_back(us, -max - 1, max);
    law_written_signed_numbers_are_read_back(ms, -max - 1, max);
}

/// A waiting time in milliseconds is long enough, and no millisecond longer, but for the shortest one
/// and what can be counted.
pub proof fn law_milliseconds_are_rounded_up(us: int)
    ensures
        1 <= epoll::whole_ms(us) <= i32::MAX,
        us <= 1000 ==> epoll::whole_ms(us) == 1,
        1000 < us <= 2_147_483_647_000 ==> epoll::whole_ms(us) * 1000 - 1000 < us
            <= epoll::whole_ms(us) * 1000,
        us > 2_147_483_647_000 ==> epoll::whole_ms(us) == i32::MAX,
{
}

} // verus!
