//! Discord ids written in a base-85 alphabet, so that lists of players fit
//! in the 100-character custom id of a button.

use vstd::prelude::*;
use vstd::string::*;
use crate::text::chars_of;

verus! {

/// The digits of the encoding, in order of value.
pub const BASE_CHARS: &'static str =
    "0123456789ABCDEFGHIJKLMNOPQRSTUVWXYZabcdefghijklmnopqrstuvwxyz<.>?;\"'[{]}!@#$%^&*()-_";

pub open spec fn alphabet() -> Seq<char> {
    BASE_CHARS@
}

pub proof fn lemma_alphabet()
    ensures
        alphabet().len() == 85,
        alphabet().no_duplicates(),
{
    reveal_strlit("0123456789ABCDEFGHIJKLMNOPQRSTUVWXYZabcdefghijklmnopqrstuvwxyz<.>?;\"'[{]}!@#$%^&*()-_");
    assert(alphabet().len() == 85);
    assert(alphabet().no_duplicates());
}

/// The base-85 digits of `n`, most significant first; zero is "0".
pub open spec fn encoding(n: nat) -> Seq<char>
    decreases n,
{
    if n < 85 {
        seq![alphabet()[n as int]]
    } else {
        encoding(n / 85).push(alphabet()[(n % 85) as int])
    }
}

/// The value of a digit, if the character is one.
pub open spec fn digit_value(c: char) -> Option<nat> {
    if alphabet().contains(c) {
        Some(alphabet().index_of(c) as nat)
    } else {
        None
    }
}

/// Reads digits left to right, multiplying by 85 and adding in `u64`; no
/// result when a character is not a digit or when the value overflows.
pub open spec fn decoding(s: Seq<char>) -> Option<u64>
    decreases s.len(),
{
    if s.len() == 0 {
        Some(0)
    } else {
        match decoding(s.drop_last()) {
            Some(acc) => match digit_value(s.last()) {
                Some(d) => if acc * 85 + d <= u64::MAX {
                    Some((acc * 85 + d) as u64)
                } else {
                    None
                },
                None => None,
            },
            None => None,
        }
    }
}

/// The character of digit `d`.
fn digit_char(d: u64) -> (r: &'static str)
    requires
        d < 85,
    ensures
        r@ == seq![alphabet()[d as int]],
{
    proof {
        lemma_alphabet();
    }
    let i = d as usize;
    let r = BASE_CHARS.substring_char(i, i + 1);
    assert(r@ =~= seq![alphabet()[d as int]]);
    r
}

/// `n` in the base-85 alphabet, most significant digit first.
pub fn encode_base(n: u64) -> (r: String)
    ensures
        r@ == encoding(n as nat),
    decreases n,
{
    if n < 85 {
        String::from_str(digit_char(n))
    } else {
        let mut r = encode_base(n / 85);
        r.append(digit_char(n % 85));
        r
    }
}

/// The value of a base-85 digit.
fn digit_of(c: char) -> (r: Option<u64>)
    ensures
        match r {
            Some(d) => digit_value(c) == Some(d as nat),
            None => digit_value(c) is None,
        },
{
    proof {
        lemma_alphabet();
    }
    let mut j: usize = 0;
    while j < 85
        invariant
            j <= 85,
            alphabet().len() == 85,
            alphabet().no_duplicates(),
            forall|q: int| 0 <= q < j ==> alphabet()[q] != c,
        decreases 85 - j,
    {
        if BASE_CHARS.get_char(j) == c {
            proof {
                assert(alphabet()[j as int] == c);
                assert(alphabet().contains(c));
                alphabet().index_of_first_ensures(c);
                assert(alphabet().index_of(c) == j) by {
                    let k = alphabet().index_of(c);
                    assert(alphabet()[k] == c);
                    assert(k >= j);
                    if k > j {
                        assert(alphabet()[k] != alphabet()[j as int]);
                    }
                }
            }
            return Some(j as u64);
        }
        j += 1;
    }
    None
}

/// The value of the base-85 digits `v[lo..hi]`; see `decoding`.
pub fn decode_range(v: &Vec<char>, lo: usize, hi: usize) -> (r: Option<u64>)
    requires
        lo <= hi <= v@.len(),
    ensures
        r == decoding(v@.subrange(lo as int, hi as int)),
{
    let ghost s = v@.subrange(lo as int, hi as int);
    let mut acc: u64 = 0;
    let mut i: usize = lo;
    proof {
        assert(s.take(0) =~= Seq::<char>::empty());
    }
    while i < hi
        invariant
            lo <= i <= hi <= v@.len(),
            s == v@.subrange(lo as int, hi as int),
            decoding(s.take(i - lo)) == Some(acc),
        decreases hi - i,
    {
        proof {
            assert(s.take(i - lo + 1).drop_last() =~= s.take(i - lo));
            assert(s.take(i - lo + 1).last() == v@[i as int]);
        }
        let c = v[i];
        let d = match digit_of(c) {
            Some(d) => d,
            None => {
                proof {
                    lemma_decoding_none_extends(s, i - lo + 1);
                }
                return None;
            },
        };
        let next = match acc.checked_mul(85) {
            Some(m) => m.checked_add(d),
            None => None,
        };
        match next {
            Some(x) => {
                acc = x;
            },
            None => {
                proof {
                    lemma_decoding_none_extends(s, i - lo + 1);
                }
                return None;
            },
        }
        i += 1;
    }
    proof {
        assert(s.take(hi - lo) =~= s);
    }
    Some(acc)
}

/// The value of a base-85 string; `None` for a character outside the
/// alphabet or a value past `u64::MAX`.
pub fn decode_base(s: &str) -> (r: Option<u64>)
    ensures
        r == decoding(s@),
{
    let v = chars_of(s);
    proof {
        assert(v@.subrange(0, v@.len() as int) =~= s@);
    }
    decode_range(&v, 0, v.len())
}

/// Once a prefix has no value, neither has the whole string.
pub proof fn lemma_decoding_none_extends(s: Seq<char>, k: int)
    requires
        0 <= k <= s.len(),
        decoding(s.take(k)) is None,
    ensures
        decoding(s) is None,
    decreases s.len() - k,
{
    if k < s.len() {
        assert(s.take(k + 1).drop_last() =~= s.take(k));
        lemma_decoding_none_extends(s, k + 1);
    } else {
        assert(s.take(k) =~= s);
    }
}

/// Reading back a written id gives the id.
pub proof fn lemma_decode_encode(n: u64)
    ensures
        decoding(encoding(n as nat)) == Some(n),
    decreases n,
{
    lemma_alphabet();
    if n < 85 {
        let s = encoding(n as nat);
        assert(s.drop_last() =~= Seq::<char>::empty());
        lemma_digit_value(n as nat);
        assert(s.last() == alphabet()[n as int]);
        assert(decoding(s.drop_last()) == Some(0u64));
        assert(digit_value(s.last()) == Some(n as nat));
    } else {
        let q = n / 85;
        lemma_decode_encode(q);
        let s = encoding(n as nat);
        assert(s.drop_last() =~= encoding(q as nat));
        lemma_digit_value((n % 85) as nat);
        assert(q * 85 + n % 85 == n);
        assert(s.last() == alphabet()[(n % 85) as int]);
        assert(decoding(s.drop_last()) == Some(q));
        assert(digit_value(s.last()) == Some((n % 85) as nat));
    }
}

proof fn lemma_digit_value(d: nat)
    requires
        d < 85,
    ensures
        digit_value(alphabet()[d as int]) == Some(d),
{
    lemma_alphabet();
    let c = alphabet()[d as int];
    assert(alphabet().contains(c));
    alphabet().index_of_first_ensures(c);
    let k = alphabet().index_of(c);
    assert(alphabet()[k] == c);
}

/// Every written id uses only digits of the alphabet, and the largest `u64`
/// takes ten of them.
pub proof fn lemma_encoding_digits(n: nat)
    ensures
        forall|i: int| 0 <= i < encoding(n).len() ==> alphabet().contains(#[trigger] encoding(n)[i]),
        1 <= encoding(n).len(),
        n <= u64::MAX ==> encoding(n).len() <= 10,
    decreases n,
{
    lemma_alphabet();
    if n < 85 {
        assert(alphabet().contains(alphabet()[n as int]));
    } else {
        lemma_encoding_digits(n / 85);
        let s = encoding(n);
        assert forall|i: int| 0 <= i < s.len() implies alphabet().contains(#[trigger] s[i]) by {
            if i < s.len() - 1 {
                assert(s[i] == encoding(n / 85)[i]);
            } else {
                assert(alphabet().contains(alphabet()[(n % 85) as int]));
            }
        }
        if n <= u64::MAX {
            lemma_encoding_short(n);
        }
    }
}

proof fn lemma_encoding_short(n: nat)
    requires
        n <= u64::MAX,
    ensures
        encoding(n).len() <= 10,
{
    reveal_with_fuel(power85, 11);
    assert(power85(10) == 19687440434072265625);
    lemma_encoding_len_bound(n, 10);
}

/// 85 to the power `k`.
pub open spec fn power85(k: nat) -> nat
    decreases k,
{
    if k == 0 {
        1
    } else {
        85 * power85((k - 1) as nat)
    }
}

/// A value below 85^k takes at most `k` digits.
proof fn lemma_encoding_len_bound(n: nat, k: nat)
    requires
        k >= 1,
        n < power85(k),
    ensures
        encoding(n).len() <= k,
    decreases k,
{
    if n >= 85 {
        if k == 1 {
            assert(power85(1) == 85 * power85(0));
        } else {
            let p = power85((k - 1) as nat);
            assert(n / 85 < p);
            lemma_encoding_len_bound(n / 85, (k - 1) as nat);
        }
    }
}

} // verus!
