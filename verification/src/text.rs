//! Text helpers for the calendar types: decimal digits, separator
//! splitting, and ASCII lowercasing, each with an exact character-level
//! specification.

use vstd::prelude::*;

verus! {

/// The character is a decimal digit.
pub open spec fn is_digit(c: char) -> bool {
    '0' <= c && c <= '9'
}

/// The digit's value.
pub open spec fn digit_val(c: char) -> int {
    c as int - 48
}

/// The character for a digit value.
pub open spec fn digit_char(d: int) -> char {
    ((48 + d) as u8) as char
}

/// Every character of the text is a decimal digit.
pub open spec fn all_digits(s: Seq<char>) -> bool {
    forall|i: int| 0 <= i < s.len() ==> is_digit(#[trigger] s[i])
}

/// The number a digit string stands for, most significant first.
pub open spec fn digits_val(s: Seq<char>) -> int
    decreases s.len(),
{
    if s.len() == 0 {
        0
    } else {
        digits_val(s.drop_last()) * 10 + digit_val(s.last())
    }
}

/// The text split on a separator, as Rust's `str::split` does it: one part
/// more than there are separators, empty parts kept.
pub open spec fn split_on(s: Seq<char>, sep: char) -> Seq<Seq<char>>
    decreases s.len(),
{
    if s.len() == 0 {
        seq![Seq::empty()]
    } else {
        let tail = split_on(s.drop_first(), sep);
        if s[0] == sep {
            seq![Seq::<char>::empty()] + tail
        } else {
            seq![seq![s[0]] + tail[0]] + tail.drop_first()
        }
    }
}

/// A nonempty all-digit part's value; anything else does not parse.
pub open spec fn seg_val(s: Seq<char>) -> Option<int> {
    if s.len() > 0 && all_digits(s) {
        Some(digits_val(s))
    } else {
        None
    }
}

/// The split always has at least one part.
pub proof fn lemma_split_len(s: Seq<char>, sep: char)
    ensures
        split_on(s, sep).len() >= 1,
    decreases s.len(),
{
    if s.len() > 0 {
        lemma_split_len(s.drop_first(), sep);
    }
}

/// A text without the separator is one part.
pub proof fn lemma_split_none(s: Seq<char>, sep: char)
    requires
        forall|i: int| 0 <= i < s.len() ==> #[trigger] s[i] != sep,
    ensures
        split_on(s, sep) == seq![s],
    decreases s.len(),
{
    if s.len() == 0 {
        assert(split_on(s, sep) =~~= seq![s]);
    } else {
        lemma_split_none(s.drop_first(), sep);
        assert(seq![s[0]] + s.drop_first() =~= s);
        assert(split_on(s, sep) =~~= seq![s]);
    }
}

/// Splitting at the first separator: the part before it, then the split of
/// what follows it.
pub proof fn lemma_split_first(s: Seq<char>, sep: char, i: int)
    requires
        0 <= i < s.len(),
        s[i] == sep,
        forall|w: int| 0 <= w < i ==> #[trigger] s[w] != sep,
    ensures
        split_on(s, sep) == seq![s.take(i)] + split_on(s.skip(i + 1), sep),
    decreases i,
{
    if i == 0 {
        assert(s.take(0) =~= Seq::<char>::empty());
        assert(s.skip(1) =~= s.drop_first());
        assert(split_on(s, sep) =~~= seq![s.take(0)] + split_on(s.skip(1), sep));
    } else {
        let t = s.drop_first();
        assert(t[i - 1] == sep);
        lemma_split_first(t, sep, i - 1);
        lemma_split_len(t.skip(i), sep);
        assert(seq![s[0]] + t.take(i - 1) =~= s.take(i));
        assert(t.skip(i) =~= s.skip(i + 1));
        assert((seq![t.take(i - 1)] + split_on(t.skip(i), sep))[0] == t.take(i - 1));
        assert((seq![t.take(i - 1)] + split_on(t.skip(i), sep)).drop_first() =~= split_on(
            t.skip(i),
            sep,
        ));
        assert(split_on(s, sep) =~~= seq![s.take(i)] + split_on(s.skip(i + 1), sep));
    }
}

/// Find the first occurrence of a separator at or after `from`.
pub fn find_sep(s: &str, from: usize, sep: char) -> (r: Option<usize>)
    requires
        from <= s@.len(),
    ensures
        r matches Some(i) ==> from <= i < s@.len() && s@[i as int] == sep && (forall|w: int|
            from <= w < i ==> #[trigger] s@[w] != sep),
        r is None ==> forall|w: int| from <= w < s@.len() ==> #[trigger] s@[w] != sep,
{
    let n = s.unicode_len();
    let mut i: usize = from;
    while i < n
        invariant
            from <= i <= n,
            n == s@.len(),
            forall|w: int| from <= w < i ==> #[trigger] s@[w] != sep,
        decreases n - i,
    {
        if s.get_char(i) == sep {
            return Some(i);
        }
        i += 1;
    }
    None
}

/// Parse one all-digit part as a number, reporting values past the `u16`
/// range as the cap 0x10000: callers reject those anyway.
pub fn parse_seg(s: &str, from: usize, to: usize) -> (r: Option<u32>)
    requires
        from <= to <= s@.len(),
    ensures
        r is Some <==> seg_val(s@.subrange(from as int, to as int)) is Some,
        r matches Some(x) ==> {
            let v = seg_val(s@.subrange(from as int, to as int))->Some_0;
            x == (if v < 0x10000 {
                v
            } else {
                0x10000
            })
        },
{
    if from == to {
        return None;
    }
    let mut acc: u32 = 0;
    let mut i: usize = from;
    while i < to
        invariant
            from <= i <= to <= s@.len(),
            all_digits(s@.subrange(from as int, i as int)),
            acc <= 0x10000,
            acc as int == (if digits_val(s@.subrange(from as int, i as int)) < 0x10000 {
                digits_val(s@.subrange(from as int, i as int))
            } else {
                0x10000int
            }),
        decreases to - i,
    {
        let c = s.get_char(i);
        if c < '0' || c > '9' {
            proof {
                assert(s@.subrange(from as int, to as int)[i - from as int] == s@[i as int]);
                assert(!all_digits(s@.subrange(from as int, to as int)));
            }
            return None;
        }
        let d = (c as u32) - 48;
        let t = acc * 10 + d;
        proof {
            let prev = s@.subrange(from as int, i as int);
            let now = s@.subrange(from as int, i + 1 as int);
            assert(now.drop_last() =~= prev);
            assert(now.last() == s@[i as int]);
        }
        acc = if t > 0x10000 {
            0x10000
        } else {
            t
        };
        i += 1;
    }
    Some(acc)
}

/// The character with upper-case ASCII letters lowered.
pub open spec fn lower_char(c: char) -> char {
    if 'A' <= c && c <= 'Z' {
        ((c as u8) + 32) as char
    } else {
        c
    }
}

/// The text with upper-case ASCII letters lowered.
pub open spec fn lower(s: Seq<char>) -> Seq<char> {
    s.map_values(|c: char| lower_char(c))
}

/// Whether the text, ASCII-lowercased, is exactly `name`.
pub fn matches_lower(s: &str, name: &str) -> (r: bool)
    ensures
        r == (lower(s@) == name@),
{
    let n = s.unicode_len();
    if n != name.unicode_len() {
        proof {
            assert(lower(s@).len() != name@.len());
        }
        return false;
    }
    let mut i: usize = 0;
    while i < n
        invariant
            i <= n,
            n == s@.len(),
            n == name@.len(),
            forall|w: int| 0 <= w < i ==> #[trigger] lower(s@)[w] == name@[w],
        decreases n - i,
    {
        let c = s.get_char(i);
        let lc = if 'A' <= c && c <= 'Z' {
            ((c as u8) + 32) as char
        } else {
            c
        };
        if lc != name.get_char(i) {
            proof {
                assert(lower(s@)[i as int] != name@[i as int]);
            }
            return false;
        }
        i += 1;
    }
    proof {
        assert(lower(s@) =~= name@);
    }
    true
}

/// Two decimal digits, zero-padded, for a value below one hundred.
pub open spec fn two_digits(x: int) -> Seq<char> {
    seq![digit_char(x / 10), digit_char(x % 10)]
}

/// The one-character text for a digit value.
pub fn digit_str(d: u8) -> (r: &'static str)
    requires
        d <= 9,
    ensures
        r@ == seq![digit_char(d as int)],
{
    proof {
        reveal_strlit("0");
        reveal_strlit("1");
        reveal_strlit("2");
        reveal_strlit("3");
        reveal_strlit("4");
        reveal_strlit("5");
        reveal_strlit("6");
        reveal_strlit("7");
        reveal_strlit("8");
        reveal_strlit("9");
    }
    let r = match d {
        0 => "0",
        1 => "1",
        2 => "2",
        3 => "3",
        4 => "4",
        5 => "5",
        6 => "6",
        7 => "7",
        8 => "8",
        _ => "9",
    };
    proof {
        assert(r@ =~= seq![digit_char(d as int)]);
    }
    r
}

} // verus!
