//! The generation directory: how generation files are named, and how a
//! directory listing becomes the sorted list of generation numbers.

use vstd::prelude::*;

verus! {

use crate::codec::hex_digit;
use crate::codec::chars_to_string;
use vstd::string::StrSliceExecFns;

/// A decimal digit.
pub open spec fn is_digit(c: char) -> bool {
    48 <= c as u32 <= 57
}

/// Its value.
pub open spec fn digit_val(c: char) -> int {
    c as u32 - 48
}

/// Every character a decimal digit.
pub open spec fn all_digits(s: Seq<char>) -> bool {
    forall|i: int| 0 <= i < s.len() ==> is_digit(s[i])
}

/// The number a digit string spells.
pub open spec fn digits_val(s: Seq<char>) -> int
    decreases s.len(),
{
    if s.len() == 0 {
        0
    } else {
        digits_val(s.drop_last()) * 10 + digit_val(s.last())
    }
}

/// The digits of `n`, most significant first; empty for zero.
pub open spec fn dec_digits(n: nat) -> Seq<char>
    decreases n,
{
    if n == 0 {
        Seq::empty()
    } else {
        dec_digits(n / 10).push(hex_digit(n as int % 10))
    }
}

/// How `n` is written: its digits, or `0`.
pub open spec fn dec_str(n: nat) -> Seq<char> {
    if n == 0 {
        seq!['0']
    } else {
        dec_digits(n)
    }
}

/// The name of generation `n`'s file.
pub open spec fn gen_filename_of(n: u64) -> Seq<char> {
    dec_str(n as nat) + seq!['.', 'd', 'b']
}

/// Which file names the directory scan accepts: `<digits>.db`, yielding the
/// number the digits spell (leading zeros included), as long as it fits a
/// u64; anything else is not a generation file.
pub open spec fn spec_parse_gen(s: Seq<char>) -> Option<u64> {
    let dlen = s.len() - 3;
    if s.len() >= 4 && s[dlen] == '.' && s[dlen + 1] == 'd' && s[dlen + 2] == 'b' && all_digits(
        s.take(dlen),
    ) && digits_val(s.take(dlen)) <= u64::MAX {
        Some(digits_val(s.take(dlen)) as u64)
    } else {
        None
    }
}

/// A digit string spells something nonnegative.
proof fn lemma_digits_val_nonneg(s: Seq<char>)
    requires
        all_digits(s),
    ensures
        digits_val(s) >= 0,
    decreases s.len(),
{
    if s.len() > 0 {
        assert(all_digits(s.drop_last()));
        lemma_digits_val_nonneg(s.drop_last());
    }
}

/// A prefix of a digit string never spells more than the whole.
proof fn lemma_digits_val_mono(s: Seq<char>, j: int)
    requires
        all_digits(s),
        0 <= j <= s.len(),
    ensures
        digits_val(s.take(j)) <= digits_val(s),
    decreases s.len(),
{
    if j == s.len() {
        assert(s.take(j) =~= s);
    } else {
        assert(all_digits(s.drop_last()));
        lemma_digits_val_mono(s.drop_last(), j);
        assert(s.take(j) =~= s.drop_last().take(j));
        lemma_digits_val_nonneg(s.drop_last());
    }
}

/// The digits of `n` are digits, and never start with a zero.
proof fn lemma_dec_digits_shape(n: nat)
    requires
        n > 0,
    ensures
        all_digits(dec_digits(n)),
        dec_digits(n).len() >= 1,
        dec_digits(n)[0] != '0',
    decreases n,
{
    if n < 10 {
        assert(n / 10 == 0);
        assert(dec_digits(0) == Seq::<char>::empty());
        assert(dec_digits(n) =~= seq![hex_digit(n as int % 10)]);
    } else {
        lemma_dec_digits_shape(n / 10);
        assert(dec_digits(n)[0] == dec_digits(n / 10)[0]);
        assert forall|i: int| 0 <= i < dec_digits(n).len() implies is_digit(
            dec_digits(n)[i],
        ) by {
            if i < dec_digits(n / 10).len() {
                assert(dec_digits(n)[i] == dec_digits(n / 10)[i]);
            } else {
                assert(dec_digits(n)[i] == hex_digit(n as int % 10));
            }
        };
    }
}

/// Reading the digits of `n` back gives `n`.
proof fn lemma_digits_val_dec(n: nat)
    ensures
        digits_val(dec_digits(n)) == n,
    decreases n,
{
    if n > 0 {
        lemma_digits_val_dec(n / 10);
        assert(dec_digits(n).drop_last() =~= dec_digits(n / 10));
        assert(dec_digits(n).last() == hex_digit(n as int % 10));
        assert(digit_val(hex_digit(n as int % 10)) == n as int % 10);
    }
}

/// Round trip of the file-name form: the name this crate writes for
/// generation `n` is accepted, and yields `n`.
pub proof fn lemma_parse_gen_filename(n: u64)
    ensures
        spec_parse_gen(gen_filename_of(n)) == Some(n),
{
    let s = gen_filename_of(n);
    let d = dec_str(n as nat);
    assert(s.take(s.len() - 3) =~= d);
    assert(s[s.len() - 3] == '.' && s[s.len() - 2] == 'd' && s[s.len() - 1] == 'b');
    if n == 0 {
        assert(d =~= seq!['0']);
        assert(digits_val(d.drop_last()) * 10 + digit_val(d.last()) == 0) by {
            assert(d.drop_last() =~= Seq::<char>::empty());
        };
    } else {
        lemma_dec_digits_shape(n as nat);
        lemma_digits_val_dec(n as nat);
        assert(s[0] == d[0]);
    }
}

/// A name the scan accepts without leading zeros is exactly how the
/// generation it yields is written.
pub proof fn lemma_parse_gen_sound(s: Seq<char>, n: u64)
    requires
        spec_parse_gen(s) == Some(n),
        s[0] != '0' || s.len() == 4,
    ensures
        s == gen_filename_of(n),
{
    let dlen = s.len() - 3;
    let d = s.take(dlen);
    assert(d[0] == s[0] && d.len() == s.len() - 3);
    lemma_digits_val_nonneg(d);
    lemma_dec_of_digits(d);
    assert(digits_val(d) == n);
    assert(s =~= d + seq!['.', 'd', 'b']);
}

/// A digit string without a leading zero is how its value is written.
proof fn lemma_dec_of_digits(s: Seq<char>)
    requires
        all_digits(s),
        s.len() >= 1,
        s[0] != '0' || s.len() == 1,
    ensures
        dec_str(digits_val(s) as nat) == s,
    decreases s.len(),
{
    lemma_digits_val_nonneg(s);
    if s.len() == 1 {
        let v = digits_val(s);
        assert(s.drop_last() =~= Seq::<char>::empty());
        assert(digits_val(Seq::<char>::empty()) == 0);
        assert(s.last() == s[0]);
        assert(v == digit_val(s[0]));
        if v == 0 {
            assert(s[0] as u32 == 48);
            vstd::utf8::char_u32_cast(s[0], 48);
            vstd::utf8::char_u32_cast('0', 48);
            assert(s[0] == '0');
            assert(dec_str(0) =~= seq!['0']);
            assert(s =~= seq!['0']);
        } else {
            assert(dec_digits(v as nat) =~= dec_digits(v as nat / 10).push(
                hex_digit(v % 10),
            ));
            assert(v / 10 == 0 && v % 10 == v);
            assert(s[0] as u32 == 48 + v);
            assert(hex_digit(v) as u32 == 48 + v);
            vstd::utf8::char_u32_cast(s[0], (48 + v) as u32);
            vstd::utf8::char_u32_cast(hex_digit(v), (48 + v) as u32);
            assert(hex_digit(v) == s[0]);
            assert(dec_digits(v as nat) =~= s);
        }
    } else {
        let s1 = s.drop_last();
        let c = s.last();
        assert(all_digits(s1));
        assert(s1[0] == s[0] && s1[0] != '0');
        lemma_dec_of_digits(s1);
        let v1 = digits_val(s1);
        let v = digits_val(s);
        assert(v == v1 * 10 + digit_val(c));
        assert(v1 >= 1) by {
            if v1 == 0 {
                assert(dec_str(0) =~= seq!['0']);
                assert(s1[0] == '0');
            }
        };
        assert(v >= 10);
        assert(v as nat / 10 == v1 && v as int % 10 == digit_val(c)) by (nonlinear_arith)
            requires
                v == v1 * 10 + digit_val(c),
                0 <= digit_val(c) < 10,
                v1 >= 1,
        ;
        assert(dec_str(v1 as nat) == dec_digits(v1 as nat));
        assert(c as u32 == 48 + digit_val(c));
        assert(hex_digit(digit_val(c)) as u32 == 48 + digit_val(c));
        vstd::utf8::char_u32_cast(c, (48 + digit_val(c)) as u32);
        vstd::utf8::char_u32_cast(hex_digit(digit_val(c)), (48 + digit_val(c)) as u32);
        assert(hex_digit(digit_val(c)) == c);
        assert(dec_digits(v as nat) =~= dec_digits(v1 as nat).push(c));
        assert(dec_digits(v as nat) =~= s);
    }
}

/// The name of generation `n`'s file: `<n>.db`.
pub fn gen_filename(n: u64) -> (r: String)
    ensures
        r@ == gen_filename_of(n),
{
    let mut digits: Vec<char> = Vec::new();
    if n == 0 {
        digits.push('0');
        proof {
            assert(digits@ =~= dec_str(0));
        }
    } else {
        let mut x = n;
        while x > 0
            invariant
                dec_digits(n as nat) == dec_digits(x as nat) + digits@,
                x == 0 ==> digits@.len() > 0,
                n > 0,
            decreases x,
        {
            let d = (x % 10) as u8;
            let c = crate::codec::hex_digit_exec(d);
            digits.insert(0, c);
            proof {
                assert(dec_digits(x as nat) =~= dec_digits((x / 10) as nat).push(
                    hex_digit(x as int % 10),
                ));
                assert(dec_digits((x / 10) as nat) + (seq![hex_digit(x as int % 10)]
                    + digits@.skip(1)) =~= (dec_digits((x / 10) as nat).push(
                    hex_digit(x as int % 10),
                )) + digits@.skip(1));
                assert(digits@ =~= seq![hex_digit(x as int % 10)] + digits@.skip(1));
            }
            x = x / 10;
        }
        proof {
            assert(dec_digits(0) =~= Seq::<char>::empty());
            assert(Seq::<char>::empty() + digits@ =~= digits@);
            assert(digits@ == dec_str(n as nat));
        }
    }
    digits.push('.');
    digits.push('d');
    digits.push('b');
    proof {
        assert(digits@ =~= gen_filename_of(n));
    }
    chars_to_string(&digits)
}

/// Reads a generation number off a file name: accepts exactly the
/// `<digits>.db` names whose number fits a u64, leading zeros included;
/// anything else is not a generation file.
pub fn parse_gen_filename(name: &str) -> (r: Option<u64>)
    ensures
        r == spec_parse_gen(name@),
{
    let len = name.unicode_len();
    if len < 4 {
        return None;
    }
    if !(name.get_char(len - 3) == '.' && name.get_char(len - 2) == 'd' && name.get_char(
        len - 1,
    ) == 'b') {
        return None;
    }
    let dlen = len - 3;
    let mut v: u64 = 0;
    let mut i: usize = 0;
    while i < dlen
        invariant
            len == name@.len(),
            dlen == len - 3,
            4 <= len,
            i <= dlen,
            all_digits(name@.take(i as int)),
            v == digits_val(name@.take(i as int)),
        decreases dlen - i,
    {
        let c = name.get_char(i);
        let cu = c as u32;
        if !(48 <= cu && cu <= 57) {
            proof {
                assert(!is_digit(name@[i as int]));
                if all_digits(name@.take(dlen as int)) {
                    assert(is_digit(name@.take(dlen as int)[i as int]));
                }
            }
            return None;
        }
        let d = (cu - 48) as u64;
        if v > (u64::MAX - d) / 10 {
            proof {
                let t = name@.take(dlen as int);
                assert(name@.take(i + 1) =~= name@.take(i as int).push(name@[i as int]));
                assert(name@.take(i + 1).drop_last() =~= name@.take(i as int));
                assert(digits_val(name@.take(i + 1)) == v * 10 + d);
                assert(v * 10 + d > u64::MAX) by (nonlinear_arith)
                    requires
                        v > (u64::MAX - d) / 10,
                        0 <= d < 10,
                        v >= 0,
                ;
                if spec_parse_gen(name@) is Some {
                    assert(name@.take(i + 1) =~= t.take(i + 1));
                    lemma_digits_val_mono(t, i + 1);
                }
            }
            return None;
        }
        proof {
            assert(name@.take(i + 1) =~= name@.take(i as int).push(name@[i as int]));
            assert(name@.take(i + 1).drop_last() =~= name@.take(i as int));
        }
        v = v * 10 + d;
        i = i + 1;
    }
    proof {
        assert(name@.take(dlen as int).len() == dlen);
        lemma_parse_gen_complete(name@, v);
    }
    Some(v)
}

/// The scan's acceptance, assembled from the checks the loop made.
proof fn lemma_parse_gen_complete(s: Seq<char>, v: u64)
    requires
        s.len() >= 4,
        s[s.len() - 3] == '.',
        s[s.len() - 2] == 'd',
        s[s.len() - 1] == 'b',
        all_digits(s.take(s.len() - 3)),
        v == digits_val(s.take(s.len() - 3)),
    ensures
        spec_parse_gen(s) == Some(v),
{
}

/// Turns a directory listing into the ascending list of generation numbers:
/// exactly the numbers some listed `<digits>.db` name spells, each once.
/// Names that are not generation files are ignored.
pub fn all_generations(names: &Vec<String>) -> (r: Vec<u64>)
    ensures
        forall|i: int, j: int| 0 <= i < j < r@.len() ==> r@[i] < r@[j],
        forall|g: u64| #[trigger]
            r@.contains(g) <==> exists|i: int|
                0 <= i < names@.len() && spec_parse_gen(names@[i]@) == Some(g),
{
    let mut r: Vec<u64> = Vec::new();
    let mut i: usize = 0;
    while i < names.len()
        invariant
            i <= names@.len(),
            forall|p: int, q: int| 0 <= p < q < r@.len() ==> r@[p] < r@[q],
            forall|g: u64| #[trigger]
                r@.contains(g) <==> exists|j: int|
                    0 <= j < i && spec_parse_gen(names@[j]@) == Some(g),
        decreases names@.len() - i,
    {
        match parse_gen_filename(names[i].as_str()) {
            Some(g) => {
                insert_sorted(&mut r, g);
                proof {
                    assert forall|h: u64| #[trigger] r@.contains(h) implies exists|j: int|
                        0 <= j < i + 1 && spec_parse_gen(names@[j]@) == Some(h) by {
                        if h == g {
                            assert(spec_parse_gen(names@[i as int]@) == Some(h));
                        } else {
                            let j = choose|j: int|
                                0 <= j < i && spec_parse_gen(names@[j]@) == Some(h);
                            assert(spec_parse_gen(names@[j]@) == Some(h));
                        }
                    };
                }
            },
            None => {},
        }
        i = i + 1;
    }
    r
}

/// Inserts `g` into an ascending list, keeping it ascending; a number
/// already present stays single.
fn insert_sorted(r: &mut Vec<u64>, g: u64)
    requires
        forall|p: int, q: int| 0 <= p < q < old(r)@.len() ==> old(r)@[p] < old(r)@[q],
    ensures
        forall|p: int, q: int| 0 <= p < q < final(r)@.len() ==> final(r)@[p] < final(r)@[q],
        forall|h: u64| #[trigger]
            final(r)@.contains(h) <==> (old(r)@.contains(h) || h == g),
{
    let mut k: usize = 0;
    let n = r.len();
    while k < n && r[k] < g
        invariant
            n == r@.len(),
            k <= n,
            *r == *old(r),
            forall|p: int| 0 <= p < k ==> r@[p] < g,
        decreases n - k,
    {
        k = k + 1;
    }
    if k < n && r[k] == g {
        proof {
            assert(r@.contains(g)) by {
                assert(r@[k as int] == g);
            };
            assert(forall|h: u64| #[trigger]
                r@.contains(h) <==> (old(r)@.contains(h) || h == g));
        }
        return;
    }
    let ghost before = r@;
    r.insert(k, g);
    proof {
        assert forall|p: int, q: int| 0 <= p < q < r@.len() implies r@[p] < r@[q] by {
            if q < k {
            } else if p < k && q == k {
            } else if p == k {
                assert(r@[q] == before[q - 1]);
                if k < before.len() {
                    assert(before[k as int] > g);
                    if q - 1 > k {
                        assert(before[k as int] < before[q - 1]);
                    }
                } else {
                    assert(false);
                }
            } else if p > k {
                assert(r@[p] == before[p - 1] && r@[q] == before[q - 1]);
            } else {
                assert(r@[p] == before[p] && r@[q] == before[q - 1]);
                if k < before.len() {
                    assert(before[p] < g || p == k);
                    assert(g < before[k as int]);
                    if q - 1 == k {
                        assert(r@[q] == before[k as int]);
                    } else {
                        assert(before[k as int] < before[q - 1]);
                    }
                } else {
                    assert(false);
                }
            }
        };
        assert forall|h: u64| #[trigger] r@.contains(h) implies (before.contains(h) || h
            == g) by {
            let p = choose|p: int| 0 <= p < r@.len() && r@[p] == h;
            if p < k {
                assert(before[p] == h);
            } else if p > k {
                assert(before[p - 1] == h);
            }
        };
        assert forall|h: u64| (before.contains(h) || h == g) implies #[trigger] r@.contains(
            h,
        ) by {
            if h == g {
                assert(r@[k as int] == g);
            } else {
                let p = choose|p: int| 0 <= p < before.len() && before[p] == h;
                if p < k {
                    assert(r@[p] == h);
                } else {
                    assert(r@[p + 1] == h);
                }
            }
        };
    }
}

} // verus!
