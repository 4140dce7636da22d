//! Executable comparisons of strings, specified over their characters.

use crate::order::{first_difference, lemma_asymmetric, Ordered};
use vstd::prelude::*;
use vstd::std_specs::iter::IteratorSpec;
use vstd::string::*;

verus! {

/// The text that marks an activation entry as a reference to a dependency.
pub open spec fn dependency_marker() -> Seq<char> {
    seq!['d', 'e', 'p', ':']
}

/// The text that marks a feature as hidden.
pub open spec fn hidden_marker() -> Seq<char> {
    seq!['_', '_']
}

/// The texts of the given strings.
pub open spec fn texts(strings: Seq<String>) -> Seq<Seq<char>> {
    strings.map_values(|s: String| s@)
}

/// The text that separates the members of a rendered feature set.
pub open spec fn comma() -> Seq<char> {
    seq![',']
}

/// The texts of `parts` one after another, with `separator` between neighbours.
pub open spec fn joined(parts: Seq<Seq<char>>, separator: Seq<char>) -> Seq<char>
    decreases parts.len(),
{
    if parts.len() == 0 {
        Seq::empty()
    } else if parts.len() == 1 {
        parts[0]
    } else {
        joined(parts.drop_last(), separator) + separator + parts.last()
    }
}

/// Whether `a` comes before `b` in the lexicographic order of their characters.
pub fn text_precedes(a: &str, b: &str) -> (r: bool)
    ensures
        r == a@.precedes(b@),
{
    broadcast use vstd::string::group_string_axioms;

    let mut rest_a = a.chars();
    let mut rest_b = b.chars();
    let ghost mut k: int = 0;
    loop
        invariant
            0 <= k <= a@.len(),
            k <= b@.len(),
            rest_a.obeys_prophetic_iter_laws(),
            rest_b.obeys_prophetic_iter_laws(),
            rest_a.remaining() == a@.skip(k),
            rest_b.remaining() == b@.skip(k),
            forall|i: int| 0 <= i < k ==> a@[i] == b@[i],
        decreases a@.len() - k,
    {
        let next_a = rest_a.next();
        let next_b = rest_b.next();
        match (next_a, next_b) {
            (_, None) => {
                // `b` ends here: `a` is `b` or goes on behind it
                proof {
                    assert(b@.skip(k).len() == 0);
                    if a@.len() == k {
                        assert(a@ =~= b@);
                        Seq::<char>::lemma_irreflexive(a@);
                    } else {
                        assert(a@.skip(k).len() > 0);
                        assert(first_difference(b@, a@, k));
                        lemma_asymmetric(b@, a@);
                    }
                }
                return false;
            },
            (None, Some(_)) => {
                // `a` ends here and `b` goes on
                assert(a@.skip(k).len() == 0);
                assert(b@.skip(k).len() > 0);
                assert(first_difference(a@, b@, k));
                return true;
            },
            (Some(ca), Some(cb)) => {
                assert(ca == a@.skip(k)[0] && cb == b@.skip(k)[0]);
                if ca < cb {
                    assert(first_difference(a@, b@, k));
                    return true;
                }
                if cb < ca {
                    proof {
                        assert(first_difference(b@, a@, k));
                        lemma_asymmetric(b@, a@);
                    }
                    return false;
                }
                proof {
                    assert(a@.skip(k).drop_first() =~= a@.skip(k + 1));
                    assert(b@.skip(k).drop_first() =~= b@.skip(k + 1));
                    k = k + 1;
                }
            },
        }
    }
}

/// Whether `text` begins with `prefix`.
pub fn starts_with(text: &str, prefix: &str) -> (r: bool)
    ensures
        r == prefix@.is_prefix_of(text@),
{
    broadcast use vstd::string::group_string_axioms;

    let mut rest_t = text.chars();
    let mut rest_p = prefix.chars();
    let ghost mut k: int = 0;
    loop
        invariant
            0 <= k <= text@.len(),
            k <= prefix@.len(),
            rest_t.obeys_prophetic_iter_laws(),
            rest_p.obeys_prophetic_iter_laws(),
            rest_t.remaining() == text@.skip(k),
            rest_p.remaining() == prefix@.skip(k),
            forall|i: int| 0 <= i < k ==> text@[i] == prefix@[i],
        decreases prefix@.len() - k,
    {
        match rest_p.next() {
            None => {
                assert(prefix@.skip(k).len() == 0);
                assert(prefix@ =~= text@.subrange(0, k));
                return true;
            },
            Some(cp) => {
                match rest_t.next() {
                    None => {
                        assert(text@.skip(k).len() == 0);
                        assert(prefix@.skip(k).len() > 0);
                        return false;
                    },
                    Some(ct) => {
                        assert(ct == text@.skip(k)[0] && cp == prefix@.skip(k)[0]);
                        assert(ct == text@[k] && cp == prefix@[k]);
                        if ct != cp {
                            proof {
                                if prefix@.is_prefix_of(text@) {
                                    assert(prefix@[k] == text@.subrange(
                                        0,
                                        prefix@.len() as int,
                                    )[k]);
                                }
                            }
                            return false;
                        }
                        proof {
                            assert(text@.skip(k).drop_first() =~= text@.skip(k + 1));
                            assert(prefix@.skip(k).drop_first() =~= prefix@.skip(k + 1));
                            k = k + 1;
                        }
                    },
                }
            },
        }
    }
}

/// The character that stands for the digit `d`.
pub open spec fn digit(d: int) -> char {
    if d == 0 {
        '0'
    } else if d == 1 {
        '1'
    } else if d == 2 {
        '2'
    } else if d == 3 {
        '3'
    } else if d == 4 {
        '4'
    } else if d == 5 {
        '5'
    } else if d == 6 {
        '6'
    } else if d == 7 {
        '7'
    } else if d == 8 {
        '8'
    } else {
        '9'
    }
}

/// The decimal digits of `n`, without leading zeros.
pub open spec fn digits(n: nat) -> Seq<char>
    decreases n,
{
    if n < 10 {
        seq![digit(n as int)]
    } else {
        digits(n / 10).push(digit((n % 10) as int))
    }
}

/// `i` written in decimal, with a minus sign if it is negative.
pub open spec fn decimal(i: int) -> Seq<char> {
    if i < 0 {
        seq!['-'] + digits((-i) as nat)
    } else {
        digits(i as nat)
    }
}

/// The text of one digit.
fn digit_text(d: u8) -> (text: &'static str)
    requires
        d < 10,
    ensures
        text@ == seq![digit(d as int)],
{
    proof {
        reveal_strlit("0");
        reveal_strlit("1");
        reveal_strlit("2");
        reveal_strlit("3");
        reveal_strlit("4");
        reveal_strlit("5");
        reveal_strlit("6");
        reveal_strlit("7");
        reveal_strlit("8");
        reveal_strlit("9");
    }
    let text = if d == 0 {
        "0"
    } else if d == 1 {
        "1"
    } else if d == 2 {
        "2"
    } else if d == 3 {
        "3"
    } else if d == 4 {
        "4"
    } else if d == 5 {
        "5"
    } else if d == 6 {
        "6"
    } else if d == 7 {
        "7"
    } else if d == 8 {
        "8"
    } else {
        "9"
    };
    assert(text@ =~= seq![digit(d as int)]);
    text
}

/// `value` written in decimal.
pub fn to_decimal(value: i32) -> (text: String)
    ensures
        text@ == decimal(value as int),
{
    let negative = value < 0;
    let magnitude: u32 = if negative {
        (0 - value as i64) as u32
    } else {
        value as u32
    };
    // the digits, the last one first
    let mut reversed: Vec<u8> = Vec::new();
    let mut rest: u32 = magnitude;
    let ghost mut tail: Seq<char> = Seq::empty();
    loop
        invariant_except_break
            digits(magnitude as nat) == digits(rest as nat) + tail,
        invariant
            reversed@.len() == tail.len(),
            forall|j: int|
                0 <= j < reversed@.len() ==> reversed@[j] < 10 && tail[tail.len() - 1 - j] == digit(
                    reversed@[j] as int,
                ),
        ensures
            digits(magnitude as nat) == tail,
        decreases rest,
    {
        let last = (rest % 10) as u8;
        let ghost before = tail;
        reversed.push(last);
        proof {
            tail = seq![digit(last as int)] + before;
            assert forall|j: int| 0 <= j < reversed@.len() implies reversed@[j] < 10 && tail[tail.len()
                - 1 - j] == digit(reversed@[j] as int) by {
                if j < reversed@.len() - 1 {
                    assert(tail[tail.len() - 1 - j] == before[before.len() - 1 - j]);
                }
            }
        }
        if rest < 10 {
            assert(digits(rest as nat) + before =~= tail);
            break ;
        }
        proof {
            assert(digits(rest as nat) + before =~= digits((rest / 10) as nat) + tail);
        }
        rest = rest / 10;
    }
    let mut text = String::new();
    if negative {
        proof {
            reveal_strlit("-");
        }
        text.append("-");
    }
    let ghost sign = text@;
    assert(sign =~= if negative {
        seq!['-']
    } else {
        Seq::<char>::empty()
    });
    let mut left: usize = reversed.len();
    while left > 0
        invariant
            0 <= left <= reversed@.len(),
            reversed@.len() == tail.len(),
            forall|j: int|
                0 <= j < reversed@.len() ==> reversed@[j] < 10 && tail[tail.len() - 1 - j] == digit(
                    reversed@[j] as int,
                ),
            text@ =~= sign + tail.take(tail.len() - left),
        decreases left,
    {
        left = left - 1;
        let ghost so_far = text@;
        text.append(digit_text(reversed[left]));
        assert(text@ =~= so_far.push(tail[tail.len() - 1 - left]));
    }
    assert(tail.take(tail.len() as int) =~= tail);
    assert(text@ =~= decimal(value as int));
    text
}

} // verus!
