//! Content-addressed identifiers and shard assignment.
//!
//! A row's identifier is a fixed-length lowercase-hex prefix of the SHA-256
//! digest of its natural key. The prefix length is derived from a table's
//! expected capacity so that the birthday-collision probability stays below
//! roughly 1/500 at expected load. Rows are partitioned into shards by a
//! short prefix of the identifier.

use vstd::prelude::*;
use sha2::Digest;

verus! {

/// The SHA-256 digest of a key's UTF-8 bytes. Named but uninterpreted: the
/// digest is a pure function of the key alone, computed by the sha2 crate.
pub uninterp spec fn sha256_of(key: Seq<char>) -> Seq<u8>;

/// A lowercase hexadecimal digit.
pub open spec fn is_hex_digit(c: char) -> bool {
    ('0' <= c && c <= '9') || ('a' <= c && c <= 'f')
}

/// Every character of `s` is a lowercase hexadecimal digit.
pub open spec fn all_hex(s: Seq<char>) -> bool {
    forall|i: int| 0 <= i < s.len() ==> is_hex_digit(#[trigger] s[i])
}

/// The lowercase hex character for the digit `d`.
pub open spec fn hex_digit_char(d: nat) -> char {
    if d < 10 {
        ((d + 48) as u8) as char
    } else {
        ((d + 87) as u8) as char
    }
}

/// Bytes rendered as lowercase hex, two digits per byte.
pub open spec fn hex_of_bytes(bs: Seq<u8>) -> Seq<char>
    decreases bs.len(),
{
    if bs.len() == 0 {
        Seq::empty()
    } else {
        let last = bs.last();
        hex_of_bytes(bs.drop_last()) + seq![
            hex_digit_char((last / 16) as nat),
            hex_digit_char((last % 16) as nat),
        ]
    }
}

/// Relies on sha2's `Sha256`: the 32-byte digest of the input's UTF-8 bytes.
#[verifier::external_body]
fn sha256_bytes(raw: &str) -> (r: Vec<u8>)
    ensures
        r@ == sha256_of(raw@),
        r@.len() == 32,
{
    let mut hasher = sha2::Sha256::new();
    hasher.update(raw.as_bytes());
    hasher.finalize().to_vec()
}

/// Render the digit `d` (< 16) as a lowercase hex character.
fn hex_char_of(d: u8) -> (r: char)
    requires
        d < 16,
    ensures
        r == hex_digit_char(d as nat),
        is_hex_digit(r),
{
    if d < 10 {
        (d + 48) as char
    } else {
        (d + 87) as char
    }
}

/// The lowercase-hex rendering of a key's SHA-256 digest: 64 hex digits.
fn sha256_hex(raw: &str) -> (r: String)
    ensures
        r@ == hex_of_bytes(sha256_of(raw@)),
        r@.len() == 64,
        all_hex(r@),
{
    let bytes = sha256_bytes(raw);
    let mut r = String::new();
    let mut i: usize = 0;
    while i < bytes.len()
        invariant
            i <= bytes.len(),
            bytes@.len() == 32,
            bytes@ == sha256_of(raw@),
            r@ == hex_of_bytes(bytes@.take(i as int)),
            r@.len() == 2 * i,
            all_hex(r@),
        decreases bytes.len() - i,
    {
        let b = bytes[i];
        let hi = hex_char_of(b / 16);
        let lo = hex_char_of(b % 16);
        let ghost r0 = r@;
        crate::text::push_char(&mut r, hi);
        crate::text::push_char(&mut r, lo);
        proof {
            let t = bytes@.take(i + 1);
            assert(t.drop_last() =~= bytes@.take(i as int));
            assert(t.last() == bytes@[i as int]);
            assert(r@ =~= hex_of_bytes(t));
        }
        i = i + 1;
    }
    proof {
        assert(bytes@.take(32) =~= bytes@);
    }
    r
}

/// The identifier of a natural key at a given length: the first `id_length`
/// characters of the key's lowercase-hex SHA-256 digest.
pub open spec fn hash_id_spec(key: Seq<char>, id_length: nat) -> Seq<char> {
    hex_of_bytes(sha256_of(key)).take(id_length as int)
}

/// Hash a natural key down to an identifier of `id_length` hex characters.
///
/// Deterministic: the result is a function of `raw` and `id_length` alone,
/// so equal keys hash to equal identifiers in every run.
pub fn hash_id(raw: &str, id_length: usize) -> (r: String)
    requires
        id_length <= 64,
    ensures
        r@ == hash_id_spec(raw@, id_length as nat),
        r@.len() == id_length,
        all_hex(r@),
{
    let h = sha256_hex(raw);
    let hs = h.as_str();
    proof {
        assert(forall|i: int| 0 <= i < hs@.len() ==> '\0' <= #[trigger] hs@[i] <= '\u{7f}') by {
            assert(forall|i: int| 0 <= i < hs@.len() ==> is_hex_digit(#[trigger] hs@[i]));
        }
    }
    let p = hs.substring_ascii(0, id_length);
    let r = p.to_owned();
    proof {
        assert(r@ =~= hex_of_bytes(sha256_of(raw@)).take(id_length as int));
    }
    r
}

/// 16 to the power `n`.
pub open spec fn pow16(n: nat) -> nat
    decreases n,
{
    if n == 0 {
        1
    } else {
        16 * pow16((n - 1) as nat)
    }
}

/// One step of dividing by 16, rounding up.
pub open spec fn ceil_div16(x: nat) -> nat {
    (x + 15) / 16
}

/// The ceiling of the base-16 logarithm: the smallest `n` with
/// `pow16(n) >= x` (0 for `x <= 1`).
pub open spec fn log16_ceil(x: nat) -> nat
    decreases x,
{
    if x <= 1 {
        0
    } else {
        1 + log16_ceil(ceil_div16(x))
    }
}

/// The values of `pow16` that the capacity computation compares against.
pub proof fn lemma_pow16_values()
    ensures
        pow16(31nat) == 21_267_647_932_558_653_966_460_912_964_485_513_216nat,
        pow16(32nat) == 340_282_366_920_938_463_463_374_607_431_768_211_456nat,
        pow16(33nat) == 5_444_517_870_735_015_415_413_993_718_908_291_383_296nat,
        pow16(34nat) == 87_112_285_931_760_246_646_623_899_502_532_662_132_736nat,
        pow16(35nat) == 1_393_796_574_908_163_946_345_982_392_040_522_594_123_776nat,
{
    reveal_with_fuel(pow16, 36);
}

/// The identifier length for a table that expects `k` rows: the number of
/// hex digits needed for 16^n to reach 500 * k^2, and at least 4. Sizing
/// against 500 * k^2 keeps the probability of a birthday collision among
/// `k` rows below roughly 1/500.
pub open spec fn id_len_spec(k: nat) -> nat {
    if k <= 1 {
        4
    } else {
        let n = log16_ceil(500 * k * k);
        if n < 4 {
            4
        } else {
            n
        }
    }
}

/// `pow16(n) >= x` exactly characterizes `log16_ceil(x) <= n`.
proof fn lemma_log16_ceil_characterized(x: nat, n: nat)
    requires
        n >= 1,
        pow16((n - 1) as nat) < x,
        x <= pow16(n),
    ensures
        log16_ceil(x) == n,
    decreases n,
{
    assert(pow16((n - 1) as nat) >= 1) by {
        lemma_pow16_positive((n - 1) as nat);
    }
    assert(x >= 2);
    let y = ceil_div16(x);
    if n == 1 {
        assert(x <= 16);
        assert(y <= 1);
        assert(log16_ceil(x) == 1 + log16_ceil(y));
    } else {
        // pow16(n-2) < ceil_div16(x) <= pow16(n-1)
        let p2 = pow16((n - 2) as nat);
        let p1 = pow16((n - 1) as nat);
        assert(p1 == 16 * p2);
        assert(pow16(n) == 16 * p1);
        assert(y <= p1) by {
            assert(x + 15 <= 16 * p1 + 15);
            assert((x + 15) / 16 <= (16 * p1 + 15) / 16);
            assert((16 * p1 + 15) / 16 == p1);
        }
        assert(y > p2) by {
            assert(x >= 16 * p2 + 1);
            assert((x + 15) / 16 >= (16 * p2 + 16) / 16);
            assert((16 * p2 + 16) / 16 == p2 + 1);
        }
        lemma_log16_ceil_characterized(y, (n - 1) as nat);
        assert(log16_ceil(x) == 1 + log16_ceil(y));
    }
}

proof fn lemma_pow16_positive(n: nat)
    ensures
        pow16(n) >= 1,
    decreases n,
{
    if n > 0 {
        lemma_pow16_positive((n - 1) as nat);
    }
}

/// `log16_ceil(x) <= n` whenever `x <= pow16(n)`.
pub proof fn lemma_log16_ceil_bounded(x: nat, n: nat)
    requires
        x <= pow16(n),
    ensures
        log16_ceil(x) <= n,
    decreases n,
{
    if x <= 1 {
    } else {
        assert(n >= 1) by {
            if n == 0 {
                assert(pow16(0nat) == 1);
            }
        }
        let p1 = pow16((n - 1) as nat);
        assert(pow16(n) == 16 * p1);
        assert(ceil_div16(x) <= p1) by {
            assert(x + 15 <= 16 * p1 + 15);
            assert((x + 15) / 16 <= (16 * p1 + 15) / 16);
            assert((16 * p1 + 15) / 16 == p1);
        }
        lemma_log16_ceil_bounded(ceil_div16(x), (n - 1) as nat);
    }
}

/// `log16_ceil` is non-decreasing.
proof fn lemma_log16_ceil_monotonic(x: nat, y: nat)
    requires
        x <= y,
    ensures
        log16_ceil(x) <= log16_ceil(y),
    decreases y,
{
    if x <= 1 {
    } else {
        assert(ceil_div16(x) <= ceil_div16(y)) by {
            assert((x + 15) / 16 <= (y + 15) / 16);
        }
        assert(ceil_div16(y) < y);
        lemma_log16_ceil_monotonic(ceil_div16(x), ceil_div16(y));
    }
}

/// Identifier lengths never shrink as the expected capacity grows, and are
/// never below 4 hex digits.
pub proof fn lemma_id_length_monotonic(k1: nat, k2: nat)
    requires
        k1 <= k2,
    ensures
        id_len_spec(k1) <= id_len_spec(k2),
        4 <= id_len_spec(k1),
{
    if k1 <= 1 {
    } else {
        assert(500 * k1 * k1 <= 500 * k2 * k2) by (nonlinear_arith)
            requires 1 <= k1 <= k2;
        lemma_log16_ceil_monotonic(500 * k1 * k1, 500 * k2 * k2);
    }
}

/// The identifier length for a table expecting `expected_items` rows.
///
/// Implements the birthday-paradox sizing rule: the smallest number of hex
/// digits `n` with `16^n >= 500 * expected_items^2`, and never fewer than 4.
pub fn id_length_for_capacity(expected_items: usize) -> (r: usize)
    ensures
        r == id_len_spec(expected_items as nat),
{
    if expected_items <= 1 {
        return 4;
    }
    let k: u128 = expected_items as u128;
    if k <= 820_000_000_000_000_000u128 {
        proof {
            assert(500 * (k as nat) * (k as nat)
                <= 336_200_000_000_000_000_000_000_000_000_000_000_000nat) by (nonlinear_arith)
                requires k as nat <= 820_000_000_000_000_000nat;
        }
        let c: u128 = 500 * k * k;
        let ghost c0 = c as nat;
        let mut x: u128 = c;
        let mut n: usize = 0;
        proof {
            lemma_pow16_values();
            assert(c0 <= pow16(32nat));
            lemma_log16_ceil_bounded(c0, 32nat);
            assert(500 * (k as nat) * (k as nat) >= 2000) by (nonlinear_arith)
                requires k as nat >= 2;
        }
        while x > 1
            invariant
                log16_ceil(c0) == n + log16_ceil(x as nat),
                log16_ceil(c0) <= 32,
                n <= 32,
                x >= 1,
            decreases x,
        {
            let q = x / 16;
            let rem = x % 16;
            let next = if rem != 0 { q + 1 } else { q };
            proof {
                assert(next as nat == ceil_div16(x as nat)) by {
                    assert(x as nat == 16 * (x as nat / 16) + x as nat % 16);
                }
                assert(log16_ceil(x as nat) == 1 + log16_ceil(next as nat));
                assert(log16_ceil(next as nat) >= 0);
                assert(n < 32) by {
                    assert(log16_ceil(x as nat) >= 1);
                }
                assert(next < x);
            }
            x = next;
            n = n + 1;
        }
        proof {
            assert(log16_ceil(x as nat) == 0);
        }
        if n < 4 {
            4
        } else {
            n
        }
    } else {
        // 500 * k^2 no longer fits the machine word, so decide the length by
        // comparing k against floor(sqrt(16^n / 500)) for the few possible n.
        let r: usize = if k <= 824_963_474_247_118_971u128 {
            32
        } else if k <= 3_299_853_896_988_475_887u128 {
            33
        } else if k <= 13_199_415_587_953_903_548u128 {
            34
        } else {
            35
        };
        proof {
            let ghost kk = k as nat;
            let ghost c = 500 * kk * kk;
            lemma_pow16_values();
            assert(336_200_000_000_000_000_000_000_000_000_000_000_000nat
                < 500 * kk * kk) by (nonlinear_arith)
                requires kk > 820_000_000_000_000_000nat;
            assert(pow16(31nat) < c);
            if k <= 824_963_474_247_118_971u128 {
                assert(500 * kk * kk
                    <= 340_282_366_920_938_462_837_999_146_914_049_420_500nat) by (nonlinear_arith)
                    requires kk <= 824_963_474_247_118_971nat;
                assert(c <= pow16(32nat));
                lemma_log16_ceil_characterized(c, 32nat);
            } else if k <= 3_299_853_896_988_475_887u128 {
                assert(340_282_366_920_938_463_662_962_621_161_168_392_000nat
                    <= 500 * kk * kk) by (nonlinear_arith)
                    requires kk >= 824_963_474_247_118_972nat;
                assert(500 * kk * kk
                    <= 5_444_517_870_735_015_415_307_548_041_590_218_384_500nat) by (nonlinear_arith)
                    requires kk <= 3_299_853_896_988_475_887nat;
                assert(pow16(32nat) < c && c <= pow16(33nat));
                lemma_log16_ceil_characterized(c, 33nat);
            } else if k <= 13_199_415_587_953_903_548u128 {
                assert(5_444_517_870_735_015_418_607_401_938_578_694_272_000nat
                    <= 500 * kk * kk) by (nonlinear_arith)
                    requires kk >= 3_299_853_896_988_475_888nat;
                assert(500 * kk * kk
                    <= 87_112_285_931_760_246_644_920_768_665_443_494_152_000nat) by (nonlinear_arith)
                    requires kk <= 13_199_415_587_953_903_548nat;
                assert(pow16(33nat) < c && c <= pow16(34nat));
                lemma_log16_ceil_characterized(c, 34nat);
            } else {
                assert(87_112_285_931_760_246_658_120_184_253_397_397_700_500nat
                    <= 500 * kk * kk) by (nonlinear_arith)
                    requires kk >= 13_199_415_587_953_903_549nat;
                assert(kk <= 18_446_744_073_709_551_615nat);
                assert(500 * kk * kk
                    <= 170_141_183_460_469_231_713_240_559_642_174_554_112_500nat) by (nonlinear_arith)
                    requires kk <= 18_446_744_073_709_551_615nat;
                assert(pow16(34nat) < c && c <= pow16(35nat));
                lemma_log16_ceil_characterized(c, 35nat);
            }
        }
        r
    }
}

/// The shard key of an identifier: its first `min(shard_characters, len)`
/// characters.
pub open spec fn shard_key_spec(id: Seq<char>, shard_characters: nat) -> Seq<char> {
    if shard_characters <= id.len() {
        id.take(shard_characters as int)
    } else {
        id
    }
}

/// The shard key of an identifier. With `shard_characters == 0` every row
/// shares one shard; larger values split rows by identifier prefix.
pub fn shard_key(id: &str, shard_characters: usize) -> (r: String)
    ensures
        r@ == shard_key_spec(id@, shard_characters as nat),
{
    let len = id.unicode_len();
    let end = if shard_characters < len {
        shard_characters
    } else {
        len
    };
    let p = id.substring_char(0, end);
    let r = p.to_owned();
    proof {
        if shard_characters as nat <= id@.len() {
            assert(r@ =~= id@.take(shard_characters as int));
        } else {
            assert(r@ =~= id@);
        }
    }
    r
}

} // verus!
