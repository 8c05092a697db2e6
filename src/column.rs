//! Column indices and their labels.
//!
//! Non-negative indices are written in bijective base 26 with the digits
//! `A`..`Z` (`0 -> "A"`, `25 -> "Z"`, `26 -> "AA"`, ...). A negative index
//! `n` is written as `'n'` followed by the label of `-(n + 1)`, so that `-1`
//! mirrors `0` and every 64-bit index has exactly one label.
use vstd::prelude::*;
use vstd::std_specs::iter::IteratorSpec;

verus! {

/// The value of the digit `c` (`'A'` is 0, `'Z'` is 25).
pub open spec fn digit_value(c: char) -> int {
    c as int - 'A' as int
}

/// The letter whose digit value is `d`, for `0 <= d < 26`.
pub open spec fn letter(d: int) -> char {
    (d + 'A' as int) as char
}

/// `c` is one of the uppercase letters `A`..`Z`.
pub open spec fn is_upper(c: char) -> bool {
    'A' <= c && c <= 'Z'
}

/// `s` is a non-empty string of uppercase letters.
pub open spec fn is_letters(s: Seq<char>) -> bool {
    s.len() > 0 && forall|i: int| 0 <= i < s.len() ==> #[trigger] is_upper(s[i])
}

/// The bijective base-26 value of a string of letters, most significant first.
pub open spec fn letters_value(s: Seq<char>) -> int
    decreases s.len(),
{
    if s.len() <= 1 {
        digit_value(s[0])
    } else {
        (letters_value(s.drop_last()) + 1) * 26 + digit_value(s.last())
    }
}

/// The bijective base-26 letters of a non-negative number.
pub open spec fn letters_of(n: nat) -> Seq<char>
    decreases n,
{
    if n < 26 {
        seq![letter(n as int)]
    } else {
        letters_of((n / 26 - 1) as nat).push(letter((n % 26) as int))
    }
}

/// The label of index `n`.
pub open spec fn label_of(n: int) -> Seq<char> {
    if n >= 0 {
        letters_of(n as nat)
    } else {
        seq!['n'] + letters_of((-(n + 1)) as nat)
    }
}

/// The index that the label `s` denotes, or `None` when `s` is no label.
/// No bound is placed on the index here.
pub open spec fn label_value(s: Seq<char>) -> Option<int> {
    if s.len() > 0 && s[0] == 'n' {
        if is_letters(s.drop_first()) {
            Some(-letters_value(s.drop_first()) - 1)
        } else {
            None
        }
    } else if is_letters(s) {
        Some(letters_value(s))
    } else {
        None
    }
}

/// `v` is an index that fits in an `i64`.
pub open spec fn in_i64(v: int) -> bool {
    i64::MIN <= v <= i64::MAX
}

/// Relies on `String::push`: the character is appended at the end.
#[verifier::external_body]
fn push_char(s: &mut String, c: char)
    ensures
        final(s)@ == old(s)@.push(c),
{
    s.push(c)
}

/// Returns the label of column index `n`.
pub fn column_name(n: i64) -> (r: String)
    ensures
        r@ == label_of(n as int),
{
    let negative = n < 0;
    let mut m: i64 = if negative { -(n + 1) } else { n };
    let ghost m0: nat = m as nat;
    let ghost mut tail: Seq<char> = Seq::empty();
    // digits, least significant first
    let mut rev: Vec<char> = Vec::new();
    loop
        invariant_except_break
            m >= 0,
            letters_of(m0) == letters_of(m as nat) + tail,
        invariant
            rev@.len() == tail.len(),
            forall|j: int| 0 <= j < tail.len() ==> #[trigger] rev@[j] == tail[tail.len() - 1 - j],
        ensures
            letters_of(m0) == tail,
        decreases m,
    {
        let d: i64 = m % 26;
        let c: char = ((d as u8) + 65u8) as char;
        assert(c == letter(d as int));
        proof {
            tail = seq![c] + tail;
        }
        rev.push(c);
        let q: i64 = m / 26;
        if q <= 0 {
            assert(letters_of(m as nat) == seq![c]);
            assert(letters_of(m0) == tail);
            break;
        }
        assert(letters_of(m as nat) == letters_of((q - 1) as nat).push(c));
        assert(letters_of(m0) == letters_of((q - 1) as nat) + tail);
        m = q - 1;
    }
    let mut r = String::new();
    if negative {
        push_char(&mut r, 'n');
    }
    let ghost start = r@;
    let mut k: usize = rev.len();
    while k > 0
        invariant
            k <= rev@.len(),
            rev@.len() == tail.len(),
            forall|j: int| 0 <= j < tail.len() ==> #[trigger] rev@[j] == tail[tail.len() - 1 - j],
            r@ == start + tail.take(tail.len() - k),
        decreases k,
    {
        k = k - 1;
        push_char(&mut r, rev[k]);
    }
    r
}

proof fn lemma_letters_value_nonneg(s: Seq<char>)
    requires
        is_letters(s),
    ensures
        letters_value(s) >= 0,
    decreases s.len(),
{
    if s.len() > 1 {
        assert(is_upper(s[s.len() - 1]));
        lemma_letters_value_nonneg(s.drop_last());
    } else {
        assert(is_upper(s[0]));
    }
}

/// A prefix of a string of letters is worth no more than the whole string.
proof fn lemma_letters_value_prefix(s: Seq<char>, k: int)
    requires
        is_letters(s),
        1 <= k <= s.len(),
    ensures
        letters_value(s.take(k)) <= letters_value(s),
    decreases s.len(),
{
    if k < s.len() {
        let p = s.drop_last();
        assert(is_upper(s[s.len() - 1]));
        assert(is_letters(p)) by {
            assert forall|i: int| 0 <= i < p.len() implies #[trigger] is_upper(p[i]) by {
                assert(is_upper(s[i]));
            }
        }
        lemma_letters_value_prefix(p, k);
        lemma_letters_value_nonneg(p);
        assert(p.take(k) =~= s.take(k));
    } else {
        assert(s.take(k) =~= s);
    }
}

/// Returns the index that the label `s` denotes, or `None` when `s` is not a
/// label or denotes an index outside the range of `i64`.
pub fn column_from_name(s: &str) -> (r: Option<i64>)
    ensures
        r matches Some(v) ==> label_value(s@) == Some(v as int),
        r is None ==> (label_value(s@) matches Some(v) ==> !in_i64(v)),
{
    broadcast use vstd::string::group_string_axioms;

    let mut it = s.chars();
    let mut head = it.next();
    let mut negative = false;
    let ghost rest: Seq<char> = s@;
    if let Some(c) = head {
        if c == 'n' {
            negative = true;
            head = it.next();
            proof {
                rest = s@.drop_first();
            }
        }
    }
    assert(label_value(s@) == (if is_letters(rest) {
        Some(if negative { -letters_value(rest) - 1 } else { letters_value(rest) })
    } else {
        None
    }));
    let first = match head {
        None => {
            return None;
        },
        Some(c) => c,
    };
    assert(rest.len() > 0 && rest[0] == first && it.remaining() == rest.drop_first());
    if !('A' <= first && first <= 'Z') {
        assert(!is_upper(rest[0]));
        return None;
    }
    let mut acc: i64 = (first as u32 - 'A' as u32) as i64;
    let ghost mut i: int = 1;
    assert(rest.take(1) =~= seq![first]);
    loop
        invariant_except_break
            1 <= i <= rest.len(),
            label_value(s@) == (if is_letters(rest) {
                Some(if negative { -letters_value(rest) - 1 } else { letters_value(rest) })
            } else {
                None
            }),
            it.remaining() == rest.skip(i),
            is_letters(rest.take(i)),
            acc == letters_value(rest.take(i)),
            acc >= 0,
        ensures
            acc >= 0,
            i == rest.len(),
            is_letters(rest),
            acc == letters_value(rest),
        decreases rest.len() - i,
    {
        match it.next() {
            None => {
                assert(rest.take(i) =~= rest);
                break;
            },
            Some(c) => {
                assert(c == rest[i]);
                if !('A' <= c && c <= 'Z') {
                    assert(!is_upper(rest[i]));
                    return None;
                }
                let d: i64 = (c as u32 - 'A' as u32) as i64;
                let ghost t = rest.take(i + 1);
                assert(t.drop_last() =~= rest.take(i));
                assert(is_letters(t)) by {
                    assert forall|j: int| 0 <= j < t.len() implies #[trigger] is_upper(t[j]) by {
                        if j < i {
                            assert(is_upper(rest.take(i)[j]));
                        }
                    }
                }
                assert(letters_value(t) == (acc + 1) * 26 + d);
                proof {
                    lemma_letters_value_nonneg(rest.take(i));
                }
                let next = match acc.checked_add(1) {
                    None => None,
                    Some(a) => match a.checked_mul(26) {
                        None => None,
                        Some(b) => b.checked_add(d),
                    },
                };
                match next {
                    None => {
                        proof {
                            assert(is_letters(rest) ==> letters_value(rest) >= letters_value(t)) by {
                                if is_letters(rest) {
                                    lemma_letters_value_prefix(rest, i + 1);
                                }
                            }
                        }
                        return None;
                    },
                    Some(v) => {
                        proof {
                            lemma_letters_value_nonneg(t);
                        }
                        acc = v;
                    },
                }
                proof {
                    i = i + 1;
                }
                assert(it.remaining() == rest.skip(i));
            },
        }
    }
    if negative {
        Some(-acc - 1)
    } else {
        Some(acc)
    }
}

proof fn lemma_letters_of(n: nat)
    ensures
        is_letters(letters_of(n)),
        letters_value(letters_of(n)) == n,
    decreases n,
{
    let l = letters_of(n);
    if n >= 26 {
        let p = letters_of((n / 26 - 1) as nat);
        lemma_letters_of((n / 26 - 1) as nat);
        assert(l.drop_last() =~= p);
        assert forall|i: int| 0 <= i < l.len() implies #[trigger] is_upper(l[i]) by {
            if i < p.len() {
                assert(is_upper(p[i]));
            }
        }
    }
}

proof fn lemma_letters_of_value(s: Seq<char>)
    requires
        is_letters(s),
    ensures
        letters_of(letters_value(s) as nat) == s,
    decreases s.len(),
{
    lemma_letters_value_nonneg(s);
    assert(is_upper(s[s.len() - 1]));
    if s.len() > 1 {
        let p = s.drop_last();
        assert(is_letters(p)) by {
            assert forall|i: int| 0 <= i < p.len() implies #[trigger] is_upper(p[i]) by {
                assert(is_upper(s[i]));
            }
        }
        lemma_letters_value_nonneg(p);
        lemma_letters_of_value(p);
        let v = letters_value(s);
        assert(v / 26 - 1 == letters_value(p) && v % 26 == digit_value(s.last()));
        assert(letters_of(v as nat) =~= s);
    } else {
        assert(letters_of(letters_value(s) as nat) =~= s);
    }
}

/// Every index of the `i64` range has a label, and that label denotes the
/// index again: decoding the label that `column_name` gives returns the
/// original index.
pub proof fn lemma_name_round_trip(n: i64)
    ensures
        label_value(label_of(n as int)) == Some(n as int),
{
    if n >= 0 {
        lemma_letters_of(n as nat);
        assert(is_upper(label_of(n as int)[0]));
    } else {
        let m = (-(n + 1)) as nat;
        lemma_letters_of(m);
        assert(label_of(n as int).drop_first() =~= letters_of(m));
    }
}

/// Every string that denotes an index is the label of that index: the
/// encoder never has a second, longer form for an index.
pub proof fn lemma_label_round_trip(s: Seq<char>)
    requires
        label_value(s) is Some,
    ensures
        label_of(label_value(s)->0) == s,
{
    if s.len() > 0 && s[0] == 'n' {
        let rest = s.drop_first();
        lemma_letters_of_value(rest);
        lemma_letters_value_nonneg(rest);
        assert(seq!['n'] + rest =~= s);
    } else {
        lemma_letters_of_value(s);
        lemma_letters_value_nonneg(s);
    }
}

/// The label of `-(n + 1)` is `'n'` followed by the label of `n`, for every
/// non-negative `n`.
pub proof fn lemma_sign_symmetry(n: int)
    requires
        n >= 0,
    ensures
        label_of(-(n + 1)) == seq!['n'] + label_of(n),
{
}

/// Distinct indices have distinct labels.
pub proof fn lemma_label_injective(a: int, b: int)
    requires
        in_i64(a),
        in_i64(b),
        label_of(a) == label_of(b),
    ensures
        a == b,
{
    lemma_name_round_trip(a as i64);
    lemma_name_round_trip(b as i64);
}

} // verus!
