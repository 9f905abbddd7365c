//! Text utilities: ASCII byte/char correspondence, decimal numerals, and
//! character-wise string comparison.
//!
//! The object formats are byte-oriented but carry short ASCII runs (kinds,
//! sizes, modes, hex names). These helpers tie the byte view and the char
//! view of such runs together.
use vstd::prelude::*;
use vstd::string::{StrSliceExecFns, StringSliceAdditionalSpecFns};
use vstd::utf8::{
    decode_utf8, encode_utf8, encode_utf8_decode_utf8, encode_utf8_valid_utf8, is_ascii_chars,
    is_ascii_chars_encode_utf8, valid_utf8,
};

use crate::errors::GitError;

verus! {

/// Every byte is ASCII.
pub open spec fn is_ascii_bytes(b: Seq<u8>) -> bool {
    forall|i: int| 0 <= i < b.len() ==> b[i] < 0x80
}

/// The bytes an ASCII char sequence spells.
pub open spec fn bytes_of_ascii(s: Seq<char>) -> Seq<u8> {
    Seq::new(s.len(), |i: int| s[i] as u8)
}

/// ASCII chars encode byte-for-char.
pub proof fn lemma_ascii_encode(s: Seq<char>)
    requires
        is_ascii_chars(s),
    ensures
        encode_utf8(s) == bytes_of_ascii(s),
        valid_utf8(bytes_of_ascii(s)),
        decode_utf8(bytes_of_ascii(s)) == s,
        is_ascii_bytes(bytes_of_ascii(s)),
{
    is_ascii_chars_encode_utf8(s);
    assert(encode_utf8(s) =~= bytes_of_ascii(s));
    assert(is_ascii_bytes(bytes_of_ascii(s)));
    encode_utf8_valid_utf8(s);
    encode_utf8_decode_utf8(s);
}

/// Decoding distributes over concatenation of well-formed UTF-8 runs.
pub proof fn lemma_decode_concat(a: Seq<u8>, b: Seq<u8>)
    requires
        valid_utf8(a),
        valid_utf8(b),
    ensures
        valid_utf8(a + b),
        decode_utf8(a + b) == decode_utf8(a) + decode_utf8(b),
    decreases a.len(),
{
    if a.len() == 0 {
        assert(a + b =~= b);
        assert(decode_utf8(a) =~= Seq::<char>::empty());
        assert(decode_utf8(a) + decode_utf8(b) =~= decode_utf8(b));
    } else {
        let c = a + b;
        assert(forall|i: int| 0 <= i < a.len() ==> #[trigger] c[i] == a[i]);
        assert(vstd::utf8::valid_leading_and_continuation_bytes_first_codepoint(c));
        assert(vstd::utf8::length_of_first_codepoint(c) == vstd::utf8::length_of_first_codepoint(
            a,
        ));
        assert(vstd::utf8::decode_first_codepoint(c) == vstd::utf8::decode_first_codepoint(a));
        assert(vstd::utf8::valid_first_scalar(c));
        assert(vstd::utf8::pop_first_scalar(c) =~= vstd::utf8::pop_first_scalar(a) + b);
        lemma_decode_concat(vstd::utf8::pop_first_scalar(a), b);
        assert(valid_utf8(c));
        assert(decode_utf8(c) =~= decode_utf8(a) + decode_utf8(b));
    }
}

/// `c` is a decimal digit.
pub open spec fn is_digit(c: char) -> bool {
    '0' <= c <= '9'
}

/// Every char is a decimal digit.
pub open spec fn all_digits(s: Seq<char>) -> bool {
    forall|i: int| 0 <= i < s.len() ==> is_digit(#[trigger] s[i])
}

/// The value of a decimal digit.
pub open spec fn digit_val(c: char) -> nat {
    (c as u32 - 48) as nat
}

/// The digit char for a value below ten.
pub open spec fn digit_char(d: nat) -> char {
    ((d + 48) as u8) as char
}

/// The value a sequence of decimal digits denotes.
pub open spec fn dec_val(s: Seq<char>) -> nat
    decreases s.len(),
{
    if s.len() == 0 {
        0
    } else {
        dec_val(s.drop_last()) * 10 + digit_val(s.last())
    }
}

/// The canonical decimal numeral of `n`: no leading zero except for `0`.
pub open spec fn dec_chars(n: nat) -> Seq<char>
    decreases n,
{
    if n < 10 {
        seq![digit_char(n)]
    } else {
        dec_chars(n / 10).push(digit_char(n % 10))
    }
}

/// The canonical numeral consists of digits, denotes its number, and is
/// never empty.
pub proof fn lemma_dec_chars_ok(n: nat)
    ensures
        all_digits(dec_chars(n)),
        dec_val(dec_chars(n)) == n,
        dec_chars(n).len() >= 1,
        is_ascii_chars(dec_chars(n)),
    decreases n,
{
    if n < 10 {
        let s = seq![digit_char(n)];
        assert(dec_chars(n) =~= s);
        assert(s.drop_last() =~= Seq::<char>::empty());
        assert(dec_val(Seq::<char>::empty()) == 0);
        assert(dec_val(s) == digit_val(digit_char(n)));
    } else {
        lemma_dec_chars_ok(n / 10);
        vstd::arithmetic::div_mod::lemma_fundamental_div_mod(n as int, 10);
        let s = dec_chars(n / 10).push(digit_char(n % 10));
        assert(s.drop_last() =~= dec_chars(n / 10));
        assert(dec_chars(n) =~= s);
        assert forall|i: int| 0 <= i < s.len() implies is_digit(#[trigger] s[i]) by {
            if i < s.len() - 1 {
                assert(s[i] == dec_chars(n / 10)[i]);
            }
        }
        assert forall|i: int| 0 <= i < s.len() implies '\0' <= #[trigger] s[i] <= '\u{7f}' by {
            if i < s.len() - 1 {
                assert(s[i] == dec_chars(n / 10)[i]);
            }
        }
    }
}

/// Growing a digit string never shrinks its value.
pub proof fn lemma_dec_val_prefix(s: Seq<char>, j: int)
    requires
        0 <= j <= s.len(),
    ensures
        dec_val(s.take(j)) <= dec_val(s),
    decreases s.len() - j,
{
    if j < s.len() {
        lemma_dec_val_prefix(s, j + 1);
        assert(s.take(j + 1).drop_last() =~= s.take(j));
        assert(dec_val(s.take(j + 1)) == dec_val(s.take(j)) * 10 + digit_val(s.take(j + 1).last()));
    } else {
        assert(s.take(j) =~= s);
    }
}

/// Parses a run of decimal digits. Succeeds exactly on a nonempty
/// all-digit string whose value fits in a `u64`.
pub fn parse_u64_chars(s: &str) -> (r: Result<u64, GitError>)
    ensures
        match r {
            Ok(v) => s@.len() > 0 && all_digits(s@) && v == dec_val(s@) && dec_val(s@)
                <= u64::MAX,
            Err(e) => {
                &&& e == GitError::Decode
                &&& s@.len() == 0 || !all_digits(s@) || dec_val(s@) > u64::MAX
            },
        },
{
    let n = s.unicode_len();
    if n == 0 {
        return Err(GitError::Decode);
    }
    let mut acc: u64 = 0;
    let mut j: usize = 0;
    while j < n
        invariant
            0 <= j <= n,
            n == s@.len(),
            all_digits(s@.take(j as int)),
            acc == dec_val(s@.take(j as int)),
        decreases n - j,
    {
        let c = s.get_char(j);
        if !('0' <= c && c <= '9') {
            return Err(GitError::Decode);
        }
        let d: u64 = (c as u32 - 48) as u64;
        proof {
            assert(s@.take(j + 1).drop_last() =~= s@.take(j as int));
        }
        if acc > u64::MAX / 10 {
            proof {
                lemma_dec_val_prefix(s@, j + 1);
            }
            return Err(GitError::Decode);
        }
        acc = acc * 10;
        if d > u64::MAX - acc {
            proof {
                lemma_dec_val_prefix(s@, j + 1);
            }
            return Err(GitError::Decode);
        }
        acc = acc + d;
        j = j + 1;
    }
    proof {
        assert(s@.take(n as int) =~= s@);
    }
    Ok(acc)
}

/// Appends the ASCII bytes of the decimal numeral of `n`.
pub fn push_dec_bytes(n: u64, out: &mut Vec<u8>)
    ensures
        final(out)@ == old(out)@ + bytes_of_ascii(dec_chars(n as nat)),
    decreases n,
{
    if n >= 10 {
        push_dec_bytes(n / 10, out);
    }
    let digit: u8 = (n % 10) as u8 + 0x30;
    out.push(digit);
    proof {
        if n >= 10 {
            assert(out@ =~= old(out)@ + bytes_of_ascii(dec_chars(n as nat)));
        } else {
            assert(out@ =~= old(out)@ + bytes_of_ascii(dec_chars(n as nat)));
        }
    }
}

/// The decimal numeral of `n`, as a string.
pub fn u64_to_string(n: u64) -> (s: String)
    ensures
        s@ == dec_chars(n as nat),
{
    let mut out: Vec<u8> = Vec::new();
    push_dec_bytes(n, &mut out);
    proof {
        lemma_dec_chars_ok(n as nat);
        lemma_ascii_encode(dec_chars(n as nat));
    }
    match core::str::from_utf8(out.as_slice()) {
        Ok(s) => {
            proof {
                encode_utf8_decode_utf8(s@);
            }
            s.to_owned()
        },
        Err(_) => {
            proof {
                assert(false);
            }
            String::new()
        },
    }
}

/// Character-wise string equality.
pub fn str_eq(a: &str, b: &str) -> (r: bool)
    ensures
        r == (a@ == b@),
{
    let la = a.unicode_len();
    let lb = b.unicode_len();
    if la != lb {
        return false;
    }
    let mut j: usize = 0;
    while j < la
        invariant
            0 <= j <= la,
            la == a@.len(),
            la == b@.len(),
            forall|i: int| 0 <= i < j ==> a@[i] == b@[i],
        decreases la - j,
    {
        if a.get_char(j) != b.get_char(j) {
            return false;
        }
        j = j + 1;
    }
    proof {
        assert(a@ =~= b@);
    }
    true
}

/// Whether `p` is a prefix of `s`, char for char.
pub fn str_is_prefix(p: &str, s: &str) -> (r: bool)
    ensures
        r == (p@.len() <= s@.len() && s@.take(p@.len() as int) == p@),
{
    let lp = p.unicode_len();
    let ls = s.unicode_len();
    if lp > ls {
        return false;
    }
    let mut j: usize = 0;
    while j < lp
        invariant
            0 <= j <= lp,
            lp == p@.len(),
            ls == s@.len(),
            lp <= ls,
            forall|i: int| 0 <= i < j ==> p@[i] == s@[i],
        decreases lp - j,
    {
        if p.get_char(j) != s.get_char(j) {
            proof {
                assert(s@.take(lp as int)[j as int] != p@[j as int]);
            }
            return false;
        }
        j = j + 1;
    }
    proof {
        assert(s@.take(lp as int) =~= p@);
    }
    true
}

} // verus!
