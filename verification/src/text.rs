//! Exact decimal formatting and parsing over character sequences, and
//! a few small string utilities the rest of the library builds on.

use vstd::prelude::*;
use vstd::string::StrSliceExecFns;
use vstd::string::StringExecFns;

verus! {

/// The character for one decimal digit.
pub open spec fn digit_char(d: int) -> char {
    ((0x30 + d) as u8) as char
}

/// The numeric value of one decimal digit character.
pub open spec fn digit_value(c: char) -> int {
    c as int - 0x30
}

/// Whether `c` is a decimal digit.
pub open spec fn is_digit(c: char) -> bool {
    0x30 <= c as int <= 0x39
}

/// Whether every character of `s` is a decimal digit.
pub open spec fn all_digits(s: Seq<char>) -> bool {
    forall|i: int| 0 <= i < s.len() ==> is_digit(#[trigger] s[i])
}

/// The canonical decimal rendering of `n`, most significant digit
/// first, with no leading zeros.
pub open spec fn spec_digits(n: nat) -> Seq<char>
    decreases n,
{
    if n < 10 {
        seq![digit_char(n as int)]
    } else {
        spec_digits(n / 10).push(digit_char((n % 10) as int))
    }
}

/// The numeric value of a digit string, read left to right; the empty
/// string reads as zero.
pub open spec fn dec_value(s: Seq<char>) -> nat
    decreases s.len(),
{
    if s.len() == 0 {
        0
    } else {
        dec_value(s.drop_last()) * 10 + if is_digit(s.last()) {
            digit_value(s.last()) as nat
        } else {
            0
        }
    }
}

/// Appends one character. Relies on `String::push` from std: it
/// appends exactly the given character to the end of the string.
#[verifier::external_body]
pub fn push_char(s: &mut String, c: char)
    ensures
        final(s)@ == old(s)@.push(c),
{
    s.push(c);
}

/// The character for a digit below ten.
pub fn digit_to_char(d: u64) -> (c: char)
    requires
        d < 10,
    ensures
        c == digit_char(d as int),
        is_digit(c),
{
    let b: u8 = 0x30 + (d as u8);
    b as char
}

/// Appends the canonical decimal rendering of `n` to `out`.
pub fn push_decimal(n: u64, out: &mut String)
    ensures
        final(out)@ == old(out)@ + spec_digits(n as nat),
    decreases n,
{
    if n < 10 {
        push_char(out, digit_to_char(n));
        assert(final(out)@ =~= old(out)@ + spec_digits(n as nat));
    } else {
        push_decimal(n / 10, out);
        push_char(out, digit_to_char(n % 10));
        assert(final(out)@ =~= old(out)@ + spec_digits(n as nat));
    }
}

/// The canonical decimal rendering of `n` as a fresh string.
pub fn u64_to_string(n: u64) -> (r: String)
    ensures
        r@ == spec_digits(n as nat),
{
    let mut out = String::new();
    push_decimal(n, &mut out);
    assert(out@ =~= spec_digits(n as nat));
    out
}

/// A digit's character reads back as the digit.
pub proof fn lemma_digit_char_value(d: int)
    requires
        0 <= d < 10,
    ensures
        is_digit(digit_char(d)),
        digit_value(digit_char(d)) == d,
{
    assert(((0x30 + d) as u8) as char as int == 0x30 + d);
}

/// Digit strings and their values: `spec_digits(n)` is non-empty, all
/// digits, and reads back as `n`.
pub proof fn lemma_digits_roundtrip(n: nat)
    ensures
        spec_digits(n).len() >= 1,
        all_digits(spec_digits(n)),
        dec_value(spec_digits(n)) == n,
    decreases n,
{
    if n < 10 {
        lemma_digit_char_value(n as int);
        let s = spec_digits(n);
        assert(s.len() == 1);
        assert(s.last() == digit_char(n as int));
        assert(s.drop_last() =~= Seq::<char>::empty());
        assert(dec_value(Seq::<char>::empty()) == 0);
        assert(dec_value(s) == 0 * 10 + digit_value(s.last()) as nat);
        assert(dec_value(spec_digits(n)) == n);
    } else {
        lemma_digits_roundtrip(n / 10);
        lemma_digit_char_value((n % 10) as int);
        let s = spec_digits(n);
        assert(s.drop_last() =~= spec_digits(n / 10));
        assert(dec_value(s) == (n / 10) * 10 + n % 10);
        assert((n / 10) * 10 + n % 10 == n) by (nonlinear_arith);
    }
}

/// Whether two string slices hold the same characters.
pub fn str_eq(a: &str, b: &str) -> (r: bool)
    ensures
        r == (a@ == b@),
{
    let alen = a.unicode_len();
    let blen = b.unicode_len();
    if alen != blen {
        assert(a@ != b@);
        return false;
    }
    let mut i: usize = 0;
    while i < alen
        invariant
            alen == a@.len() == b@.len(),
            0 <= i <= alen,
            forall|j: int| 0 <= j < i ==> a@[j] == b@[j],
        decreases alen - i,
    {
        if a.get_char(i) != b.get_char(i) {
            assert(a@ != b@);
            return false;
        }
        i = i + 1;
    }
    assert(a@ =~= b@);
    true
}

/// Whether `c` occurs in `s`.
pub fn str_contains_char(s: &str, c: char) -> (r: bool)
    ensures
        r == s@.contains(c),
{
    let len = s.unicode_len();
    let mut i: usize = 0;
    while i < len
        invariant
            len == s@.len(),
            0 <= i <= len,
            forall|j: int| 0 <= j < i ==> s@[j] != c,
        decreases len - i,
    {
        if s.get_char(i) == c {
            assert(s@.contains(c));
            return true;
        }
        i = i + 1;
    }
    assert(forall|j: int| 0 <= j < s@.len() ==> s@[j] != c);
    false
}

/// Parses a decimal string. Returns the value exactly when the string
/// is a non-empty run of digits whose value fits in a `u64`.
pub fn parse_u64(s: &str) -> (r: Option<u64>)
    ensures
        match r {
            Some(v) => s@.len() > 0 && all_digits(s@) && dec_value(s@) == v,
            None => s@.len() == 0 || !all_digits(s@) || dec_value(s@) > u64::MAX,
        },
{
    let len = s.unicode_len();
    if len == 0 {
        return None;
    }
    let mut acc: u64 = 0;
    let mut i: usize = 0;
    while i < len
        invariant
            len == s@.len(),
            0 <= i <= len,
            all_digits(s@.take(i as int)),
            acc == dec_value(s@.take(i as int)),
        decreases len - i,
    {
        let c = s.get_char(i);
        let code: u32 = c as u32;
        if code < 0x30 || code > 0x39 {
            assert(!is_digit(s@[i as int]));
            return None;
        }
        let d: u64 = (code - 0x30) as u64;
        proof {
            assert(s@.take(i as int + 1).drop_last() =~= s@.take(i as int));
            assert(s@.take(i as int + 1).last() == s@[i as int]);
        }
        if acc > (u64::MAX - d) / 10 {
            proof {
                assert(acc * 10 + d > u64::MAX) by (nonlinear_arith)
                    requires
                        acc > (u64::MAX - d) / 10,
                        d < 10,
                ;
                lemma_dec_value_monotone(s@, i as int + 1);
            }
            return None;
        }
        assert(acc * 10 + d <= u64::MAX) by (nonlinear_arith)
            requires
                acc <= (u64::MAX - d) / 10,
                d < 10,
        ;
        acc = acc * 10 + d;
        i = i + 1;
    }
    proof {
        assert(s@.take(len as int) =~= s@);
    }
    Some(acc)
}

/// The segments of `s` between occurrences of `sep`: always at least
/// one segment, and one more segment than separators.
pub open spec fn split_on(s: Seq<char>, sep: char) -> Seq<Seq<char>>
    decreases s.len(),
{
    if s.len() == 0 {
        seq![Seq::empty()]
    } else {
        let rest = split_on(s.drop_first(), sep);
        if s[0] == sep {
            seq![Seq::<char>::empty()] + rest
        } else {
            seq![seq![s[0]] + rest[0]] + rest.drop_first()
        }
    }
}

/// Splitting yields at least one segment.
pub proof fn lemma_split_on_len(s: Seq<char>, sep: char)
    ensures
        split_on(s, sep).len() >= 1,
    decreases s.len(),
{
    if s.len() > 0 {
        lemma_split_on_len(s.drop_first(), sep)
    }
}

/// A separator-free string is one whole segment.
pub proof fn lemma_split_on_whole(s: Seq<char>, sep: char)
    requires
        !s.contains(sep),
    ensures
        split_on(s, sep) == seq![s],
    decreases s.len(),
{
    if s.len() == 0 {
        assert(split_on(s, sep) =~~= seq![s]);
    } else {
        assert(s[0] != sep);
        assert(!s.drop_first().contains(sep)) by {
            if s.drop_first().contains(sep) {
                let i = choose|i: int|
                    0 <= i < s.drop_first().len() && s.drop_first()[i] == sep;
                assert(s[i + 1] == sep);
            }
        }
        lemma_split_on_whole(s.drop_first(), sep);
        assert(split_on(s, sep) =~~= seq![s]) by {
            assert(seq![s[0]] + s.drop_first() =~= s);
            assert(split_on(s, sep)[0] =~= s);
        }
    }
}

/// Splitting after a separator-free prefix: the prefix is the first
/// segment, and the rest splits on its own.
pub proof fn lemma_split_on_concat(a: Seq<char>, b: Seq<char>, sep: char)
    requires
        !a.contains(sep),
    ensures
        split_on(a + seq![sep] + b, sep) == seq![a] + split_on(b, sep),
    decreases a.len(),
{
    let s = a + seq![sep] + b;
    if a.len() == 0 {
        assert(s =~= seq![sep] + b);
        assert(s[0] == sep);
        assert(s.drop_first() =~= b);
        assert(split_on(s, sep) =~~= seq![a] + split_on(b, sep));
    } else {
        assert(s[0] == a[0]);
        assert(a[0] != sep);
        assert(!a.drop_first().contains(sep)) by {
            if a.drop_first().contains(sep) {
                let i = choose|i: int|
                    0 <= i < a.drop_first().len() && a.drop_first()[i] == sep;
                assert(a[i + 1] == sep);
            }
        }
        lemma_split_on_concat(a.drop_first(), b, sep);
        lemma_split_on_len(b, sep);
        assert(s.drop_first() =~= a.drop_first() + seq![sep] + b);
        let rest = split_on(s.drop_first(), sep);
        assert(rest == seq![a.drop_first()] + split_on(b, sep));
        assert(rest[0] == a.drop_first());
        assert(seq![s[0]] + rest[0] =~= a);
        assert(rest.drop_first() =~~= split_on(b, sep));
        assert(split_on(s, sep) =~~= seq![a] + split_on(b, sep));
    }
}

/// Splits a string at every occurrence of `sep`.
pub fn split_char(s: &str, sep: char) -> (parts: Vec<String>)
    ensures
        parts@.len() == split_on(s@, sep).len(),
        forall|j: int|
            0 <= j < parts@.len() ==> (#[trigger] parts@[j])@ == split_on(s@, sep)[j],
{
    let len = s.unicode_len();
    let mut done: Vec<String> = Vec::new();
    let mut cur = String::new();
    let mut i: usize = 0;
    proof {
        assert(s@.skip(0) =~= s@);
        lemma_split_on_len(s@, sep);
        let rem0 = split_on(s@, sep);
        assert(rem0 =~~= seq![rem0[0]] + rem0.drop_first());
    }
    while i < len
        invariant
            len == s@.len(),
            0 <= i <= len,
            split_on(s@, sep) =~~= Seq::new(done@.len(), |j: int| done@[j]@) + seq![
                cur@ + split_on(s@.skip(i as int), sep)[0],
            ] + split_on(s@.skip(i as int), sep).drop_first(),
        decreases len - i,
    {
        let c = s.get_char(i);
        proof {
            lemma_split_on_len(s@.skip(i as int + 1), sep);
            assert(s@.skip(i as int).drop_first() =~= s@.skip(i as int + 1));
            assert(s@.skip(i as int)[0] == s@[i as int]);
        }
        if c == sep {
            let ghost old_done = done@;
            let ghost old_cur = cur@;
            done.push(cur);
            cur = String::new();
            proof {
                let rem = split_on(s@.skip(i as int), sep);
                let rest = split_on(s@.skip(i as int + 1), sep);
                assert(rem =~~= seq![Seq::<char>::empty()] + rest);
                assert(rem[0] =~= Seq::<char>::empty());
                assert(rem.drop_first() =~~= rest);
                assert(old_cur + rem[0] =~= old_cur);
                assert(Seq::new(done@.len(), |j: int| done@[j]@) =~~= Seq::new(
                    old_done.len(),
                    |j: int| old_done[j]@,
                ).push(old_cur));
                assert(rest =~~= seq![rest[0]] + rest.drop_first());
                assert(split_on(s@, sep) =~~= Seq::new(done@.len(), |j: int| done@[j]@) + seq![
                    cur@ + rest[0],
                ] + rest.drop_first());
            }
        } else {
            let ghost old_cur = cur@;
            push_char(&mut cur, c);
            proof {
                let rem = split_on(s@.skip(i as int), sep);
                let rest = split_on(s@.skip(i as int + 1), sep);
                assert(rem =~~= seq![seq![s@[i as int]] + rest[0]] + rest.drop_first());
                assert(rem[0] =~= seq![s@[i as int]] + rest[0]);
                assert(cur@ + rest[0] =~= old_cur + rem[0]);
                assert(rem.drop_first() =~~= rest.drop_first());
                assert(split_on(s@, sep) =~~= Seq::new(done@.len(), |j: int| done@[j]@) + seq![
                    cur@ + rest[0],
                ] + rest.drop_first());
            }
        }
        i = i + 1;
    }
    proof {
        assert(s@.skip(len as int) =~= Seq::<char>::empty());
        let rem = split_on(s@.skip(len as int), sep);
        assert(rem =~~= seq![Seq::<char>::empty()]);
        assert(cur@ + rem[0] =~= cur@);
        assert(rem.drop_first() =~~= Seq::<Seq<char>>::empty());
    }
    let ghost old_done = done@;
    let ghost old_cur = cur@;
    done.push(cur);
    proof {
        assert(Seq::new(done@.len(), |j: int| done@[j]@) =~~= Seq::new(
            old_done.len(),
            |j: int| old_done[j]@,
        ).push(old_cur));
        assert(split_on(s@, sep) =~~= Seq::new(done@.len(), |j: int| done@[j]@));
        assert forall|j: int| 0 <= j < done@.len() implies (#[trigger] done@[j])@ == split_on(
            s@,
            sep,
        )[j] by {
            assert(split_on(s@, sep)[j] == Seq::new(done@.len(), |j: int| done@[j]@)[j]);
        }
    }
    done
}

/// Extending a digit string never shrinks its value: the value of the
/// whole string is at least the value of any prefix, provided the rest
/// is digits.
proof fn lemma_dec_value_monotone(s: Seq<char>, i: int)
    requires
        0 <= i <= s.len(),
    ensures
        all_digits(s) ==> dec_value(s) >= dec_value(s.take(i)),
    decreases s.len() - i,
{
    if i < s.len() {
        assert(s.take(i + 1).drop_last() =~= s.take(i));
        assert(dec_value(s.take(i + 1)) >= dec_value(s.take(i)) * 10) by (nonlinear_arith)
            requires
                dec_value(s.take(i + 1)) == dec_value(s.take(i)) * 10 + (if is_digit(s.take(
                    i + 1,
                ).last()) {
                    digit_value(s.take(i + 1).last()) as nat
                } else {
                    0
                }),
        ;
        assert(dec_value(s.take(i)) * 10 >= dec_value(s.take(i))) by (nonlinear_arith);
        lemma_dec_value_monotone(s, i + 1);
        assert(s.take(s.len() as int) =~= s);
    } else {
        assert(s.take(i) =~= s);
    }
}

} // verus!
