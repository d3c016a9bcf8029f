//! Keyboard shorthands for feeds and posts.
//!
//! A feed's shorthand is its identifier re-encoded from hex into a small
//! home-row alphabet, shortened to the least prefix length that keeps all
//! feeds distinct. A post's shorthand encodes its position in the sorted
//! listing over a larger alphabet.

use vstd::prelude::*;

verus! {

/// The numeric value of a hex digit in either case; other characters
/// count as zero.
pub open spec fn hex_digit_val(c: char) -> nat {
    if '0' <= c && c <= '9' {
        ((c as nat) - 48) as nat
    } else if 'a' <= c && c <= 'f' {
        ((c as nat) - 87) as nat
    } else if 'A' <= c && c <= 'F' {
        ((c as nat) - 55) as nat
    } else {
        0
    }
}

/// The number a base-16 digit vector denotes, most significant first.
pub open spec fn nat_of_digits(ds: Seq<u8>) -> nat
    decreases ds.len(),
{
    if ds.len() == 0 {
        0
    } else {
        (16 * nat_of_digits(ds.drop_last()) + ds.last()) as nat
    }
}

/// The number a hex string denotes, non-hex characters counting as zero.
pub open spec fn nat_of_hex(s: Seq<char>) -> nat
    decreases s.len(),
{
    if s.len() == 0 {
        0
    } else {
        (16 * nat_of_hex(s.drop_last()) + hex_digit_val(s.last())) as nat
    }
}

/// The base-`b` digits of `n`, most significant first, no leading zeros
/// except for zero itself.
pub open spec fn to_base(n: nat, b: nat) -> Seq<nat>
    recommends
        b >= 2,
    decreases n,
    when b >= 2
    via to_base_decreases
{
    if n < b {
        seq![n]
    } else {
        to_base(n / b, b).push(n % b)
    }
}

#[via_fn]
proof fn to_base_decreases(n: nat, b: nat) {
    if b >= 2 && n >= b {
        assert(n / b < n) by (nonlinear_arith)
            requires n >= b >= 2;
    }
}

/// A digit vector denoting zero is all zeros.
proof fn lemma_nat_of_digits_zero(ds: Seq<u8>)
    requires
        nat_of_digits(ds) == 0,
    ensures
        forall|k: int| 0 <= k < ds.len() ==> (#[trigger] ds[k]) == 0,
    decreases ds.len(),
{
    if ds.len() > 0 {
        let dl = ds.drop_last();
        assert(nat_of_digits(ds) == (16 * nat_of_digits(dl) + ds.last()) as nat);
        assert(nat_of_digits(dl) == 0 && ds.last() == 0) by (nonlinear_arith)
            requires 16 * nat_of_digits(dl) + ds.last() == 0, nat_of_digits(dl) >= 0,
                ds.last() >= 0;
        lemma_nat_of_digits_zero(dl);
        assert forall|k: int| 0 <= k < ds.len() implies (#[trigger] ds[k]) == 0 by {
            if k < ds.len() - 1 {
                assert(ds[k] == dl[k]);
            }
        }
    }
}

/// Digits rendered through an alphabet.
pub open spec fn map_alphabet(ds: Seq<nat>, alphabet: Seq<char>) -> Seq<char> {
    Seq::new(ds.len(), |i: int| alphabet[ds[i] as int])
}

/// A hex string re-encoded over an alphabet: the base-`alphabet.len()`
/// digits of its value, one alphabet character per digit. The empty
/// string encodes like zero.
pub open spec fn custom_base_spec(hex: Seq<char>, alphabet: Seq<char>) -> Seq<char> {
    if hex.len() == 0 {
        seq![alphabet[0]]
    } else {
        map_alphabet(to_base(nat_of_hex(hex), alphabet.len()), alphabet)
    }
}

/// Collected division remainders, least significant first, read back as
/// digits most significant first.
spec fn rev_digits(rems: Seq<u8>) -> Seq<nat>
    decreases rems.len(),
{
    if rems.len() == 0 {
        Seq::empty()
    } else {
        seq![rems.last() as nat] + rev_digits(rems.drop_last())
    }
}

/// Leading zeros do not change a digit vector's value.
proof fn lemma_nat_of_digits_strip(ds: Seq<u8>)
    requires
        ds.len() > 0,
        ds[0] == 0,
    ensures
        nat_of_digits(ds) == nat_of_digits(ds.drop_first()),
    decreases ds.len(),
{
    if ds.len() == 1 {
        assert(ds.drop_last() =~= Seq::<u8>::empty());
        assert(ds.drop_first() =~= Seq::<u8>::empty());
        assert(ds.last() == 0);
    } else {
        let dl = ds.drop_last();
        assert(dl[0] == 0);
        lemma_nat_of_digits_strip(dl);
        assert(ds.drop_first().drop_last() =~= dl.drop_first());
        assert(ds.drop_first().last() == ds.last());
    }
}

/// A digit vector with a non-zero lead denotes a positive number.
proof fn lemma_nat_of_digits_pos(ds: Seq<u8>)
    requires
        ds.len() > 0,
        ds[0] != 0,
    ensures
        nat_of_digits(ds) >= 1,
    decreases ds.len(),
{
    if ds.len() == 1 {
        assert(ds.last() == ds[0]);
    } else {
        let dl = ds.drop_last();
        assert(dl[0] == ds[0]);
        lemma_nat_of_digits_pos(dl);
        assert(nat_of_digits(ds) == 16 * nat_of_digits(dl) + ds.last());
        assert(16 * nat_of_digits(dl) >= 16) by (nonlinear_arith)
            requires nat_of_digits(dl) >= 1;
    }
}

/// Convert a hex string into the given alphabet's base by repeated long
/// division, as the listing layer displays identifiers. Alphabets are
/// capped at 256 characters because each collected digit is held in a
/// single byte; larger alphabets would truncate digits, and no listing
/// uses more than 34 characters.
pub fn hex_to_custom_base(hex: &str, alphabet: &[char]) -> (r: String)
    requires
        2 <= alphabet@.len() <= 256,
    ensures
        r@ == custom_base_spec(hex@, alphabet@),
{
    let b16: u16 = alphabet.len() as u16;
    let ghost b = alphabet@.len();
    if hex.unicode_len() == 0 {
        let mut r = String::new();
        crate::text::push_char(&mut r, alphabet[0]);
        proof {
            assert(r@ =~= seq![alphabet@[0]]);
        }
        return r;
    }
    // Parse the hex string into base-16 digits.
    let n = hex.unicode_len();
    let mut digits: Vec<u8> = Vec::new();
    let mut i: usize = 0;
    while i < n
        invariant
            i <= n,
            n == hex@.len(),
            digits@.len() == i,
            forall|k: int| 0 <= k < i ==> (#[trigger] digits@[k]) < 16,
            nat_of_digits(digits@) == nat_of_hex(hex@.take(i as int)),
        decreases n - i,
    {
        let c = hex.get_char(i);
        let u = c as u32;
        let d: u8 = if 48 <= u && u <= 57 {
            (u - 48) as u8
        } else if 97 <= u && u <= 102 {
            (u - 87) as u8
        } else if 65 <= u && u <= 70 {
            (u - 55) as u8
        } else {
            0
        };
        proof {
            assert(d as nat == hex_digit_val(c));
        }
        let ghost before = digits@;
        digits.push(d);
        proof {
            assert(digits@.drop_last() =~= before);
            assert(hex@.take(i + 1).drop_last() =~= hex@.take(i as int));
            assert(hex@.take(i + 1).last() == hex@[i as int]);
        }
        i = i + 1;
    }
    proof {
        assert(hex@.take(n as int) =~= hex@);
    }
    let ghost v0 = nat_of_hex(hex@);
    let mut rems: Vec<u8> = Vec::new();
    loop
        invariant_except_break
            2 <= b16 <= 256,
            b == b16 as nat,
            b == alphabet@.len(),
            forall|k: int| 0 <= k < digits@.len() ==> (#[trigger] digits@[k]) < 16,
            forall|k: int| 0 <= k < rems@.len() ==> (#[trigger] rems@[k]) < b16,
            nat_of_digits(digits@) >= 1 ==> to_base(v0, b) == to_base(
                nat_of_digits(digits@),
                b,
            ) + rev_digits(rems@),
            nat_of_digits(digits@) == 0 ==> rems@.len() == 0 && v0 == 0,
        ensures
            2 <= b16 <= 256,
            b == b16 as nat,
            b == alphabet@.len(),
            forall|k: int| 0 <= k < rems@.len() ==> (#[trigger] rems@[k]) < b16,
            to_base(v0, b) == rev_digits(rems@),
        decreases nat_of_digits(digits@) + digits@.len(),
    {
        let ghost v = nat_of_digits(digits@);
        let mut rem: u16 = 0;
        let mut quotient: Vec<u8> = Vec::new();
        let mut j: usize = 0;
        proof {
            assert(digits@.take(0) =~= Seq::<u8>::empty());
            assert(nat_of_digits(Seq::<u8>::empty()) == 0);
            assert(nat_of_digits(quotient@) == 0);
            assert(nat_of_digits(quotient@) * (b16 as nat) == 0) by (nonlinear_arith)
                requires nat_of_digits(quotient@) == 0;
        }
        while j < digits.len()
            invariant
                2 <= b16 <= 256,
                j <= digits.len(),
                forall|k: int| 0 <= k < digits@.len() ==> (#[trigger] digits@[k]) < 16,
                rem < b16,
                quotient@.len() == j,
                forall|k: int| 0 <= k < j ==> (#[trigger] quotient@[k]) < 16,
                nat_of_digits(digits@.take(j as int)) == nat_of_digits(quotient@) * (
                b16 as nat) + rem,
            decreases digits.len() - j,
        {
            let d = digits[j];
            let current: u16 = rem * 16 + (d as u16);
            let qd: u8 = (current / b16) as u8;
            let nr: u16 = current % b16;
            proof {
                assert(current < 16 * b16) by (nonlinear_arith)
                    requires rem < b16, d < 16, current == rem * 16 + d, b16 >= 2;
                assert(current / b16 < 16) by (nonlinear_arith)
                    requires current < 16 * b16, b16 >= 2;
                assert(qd as nat == (current as nat) / (b16 as nat));
                assert(nr as nat == (current as nat) % (b16 as nat));
            }
            let ghost q_before = quotient@;
            quotient.push(qd);
            proof {
                let bb = b16 as nat;
                let pv = nat_of_digits(digits@.take(j as int));
                assert(digits@.take(j + 1).drop_last() =~= digits@.take(j as int));
                assert(digits@.take(j + 1).last() == digits@[j as int]);
                assert(quotient@.drop_last() =~= q_before);
                assert(quotient@.last() == qd);
                let cur = current as nat;
                assert(cur == (rem as nat) * 16 + d as nat);
                assert(cur == (cur / bb) * bb + cur % bb) by {
                    vstd::arithmetic::div_mod::lemma_fundamental_div_mod(
                        cur as int,
                        bb as int,
                    );
                }
                assert(nat_of_digits(digits@.take(j + 1)) == 16 * pv + d as nat);
                assert(16 * pv + d as nat == nat_of_digits(quotient@) * bb + nr as nat)
                    by (nonlinear_arith)
                    requires
                        pv == nat_of_digits(q_before) * bb + rem as nat,
                        nat_of_digits(quotient@) == 16 * nat_of_digits(q_before) + qd as nat,
                        cur == (rem as nat) * 16 + d as nat,
                        cur == (qd as nat) * bb + nr as nat,
                        16 * pv + d as nat >= 0;
            }
            rem = nr;
            j = j + 1;
        }
        proof {
            assert(digits@.take(digits@.len() as int) =~= digits@);
        }
        let ghost bb = b16 as nat;
        let ghost vq = nat_of_digits(quotient@);
        proof {
            assert(v == vq * bb + rem as nat);
            if v >= 1 {
                vstd::arithmetic::div_mod::lemma_fundamental_div_mod_converse(
                    v as int,
                    bb as int,
                    vq as int,
                    rem as int,
                );
                assert(vq == v / bb);
                assert(rem as nat == v % bb);
            } else {
                assert(vq == 0 && rem as nat == 0) by (nonlinear_arith)
                    requires vq * bb + rem as nat == 0, bb >= 2, vq >= 0, rem as nat >= 0;
            }
        }
        let ghost rems_before = rems@;
        rems.push(rem as u8);
        proof {
            assert((rem as u8) as nat == rem as nat);
            assert(rems@.drop_last() =~= rems_before);
            assert(rems@.last() == rem as u8);
            assert(rev_digits(rems@) == seq![rem as nat] + rev_digits(rems_before));
        }
        // Strip leading zeros from the quotient.
        let mut start: usize = 0;
        while start < quotient.len() && quotient[start] == 0
            invariant
                start <= quotient.len(),
                forall|k: int| 0 <= k < start ==> (#[trigger] quotient@[k]) == 0,
            decreases quotient.len() - start,
        {
            start = start + 1;
        }
        let mut stripped: Vec<u8> = Vec::new();
        let mut k = start;
        while k < quotient.len()
            invariant
                start <= k <= quotient.len(),
                stripped@ == quotient@.subrange(start as int, k as int),
            decreases quotient.len() - k,
        {
            stripped.push(quotient[k]);
            proof {
                assert(quotient@.subrange(start as int, k + 1) =~= quotient@.subrange(
                    start as int,
                    k as int,
                ).push(quotient@[k as int]));
            }
            k = k + 1;
        }
        proof {
            assert(stripped@ =~= quotient@.skip(start as int));
            lemma_strip_zeros(quotient@, start as int);
            assert(nat_of_digits(stripped@) == vq);
        }
        let done = stripped.len() == 0;
        proof {
            if v == 0 {
                // A zero value denotes all-zero digits; the quotient is
                // all zeros and the loop finishes with the single zero
                // remainder collected.
                lemma_nat_of_digits_zero(quotient@);
                assert(start == quotient@.len());
                assert(stripped@.len() == 0);
                assert(rems_before.len() == 0 && v0 == 0);
                assert(to_base(v0, b) == seq![0nat]);
                assert(rev_digits(rems@) =~= seq![0nat]);
            } else if v < bb {
                assert(vq == v / bb);
                assert(v / bb == 0) by (nonlinear_arith)
                    requires 0 <= v < bb, bb >= 2;
                assert(to_base(v, b) == seq![v]);
                assert(rem as nat == v % bb);
                assert(v % bb == v) by (nonlinear_arith)
                    requires 0 <= v < bb, bb >= 2;
                assert(to_base(v0, b) =~= to_base(v, b) + rev_digits(rems_before));
                assert(seq![v] + rev_digits(rems_before) =~= rev_digits(rems@));
                assert(to_base(v0, b) =~= rev_digits(rems@));
                assert(stripped@.len() == 0) by {
                    lemma_nat_of_digits_zero(quotient@);
                    assert(start == quotient@.len());
                }
            } else {
                assert(vq == v / bb);
                assert(v / bb >= 1) by (nonlinear_arith)
                    requires v >= bb, bb >= 2;
                assert(to_base(v, b) == to_base(v / bb, b).push(v % bb));
                assert(to_base(v / bb, b).push(v % bb) + rev_digits(rems_before)
                    =~= to_base(v / bb, b) + (seq![v % bb] + rev_digits(rems_before)));
                assert(rem as nat == v % bb);
                assert(to_base(v0, b) =~= to_base(vq, b) + rev_digits(rems@));
                assert(stripped@.len() > 0) by {
                    if stripped@.len() == 0 {
                        assert(nat_of_digits(stripped@) == 0);
                    }
                }
                assert(v / bb < v) by (nonlinear_arith)
                    requires v >= 1, bb >= 2;
            }
        }
        digits = stripped;
        if done {
            break;
        }
    }
    // Map the collected digits through the alphabet, most significant
    // first.
    let r = render_rev_digits(&rems, alphabet);
    proof {
        assert(r@ == custom_base_spec(hex@, alphabet@));
    }
    r
}

/// Stripping a run of leading zeros keeps the value.
proof fn lemma_strip_zeros(ds: Seq<u8>, start: int)
    requires
        0 <= start <= ds.len(),
        forall|k: int| 0 <= k < start ==> (#[trigger] ds[k]) == 0,
    ensures
        nat_of_digits(ds.skip(start)) == nat_of_digits(ds),
    decreases start,
{
    if start > 0 {
        assert(ds[0] == 0);
        assert(ds.len() > 0);
        lemma_nat_of_digits_strip(ds);
        let df = ds.drop_first();
        assert(forall|k: int| 0 <= k < start - 1 ==> (#[trigger] df[k]) == ds[k + 1]);
        lemma_strip_zeros(df, start - 1);
        assert(df.skip(start - 1) =~= ds.skip(start));
    } else {
        assert(ds.skip(0) =~= ds);
    }
}

/// Reversed remainders indexed from the most significant end.
proof fn lemma_rev_digits_index(rems: Seq<u8>)
    ensures
        rev_digits(rems).len() == rems.len(),
        forall|k: int|
            0 <= k < rems.len() ==> rev_digits(rems)[k] == (#[trigger] rems[rems.len() - 1
                - k]) as nat,
    decreases rems.len(),
{
    if rems.len() > 0 {
        let dl = rems.drop_last();
        lemma_rev_digits_index(dl);
        assert forall|k: int| 0 <= k < rems.len() implies rev_digits(rems)[k] == (
        #[trigger] rems[rems.len() - 1 - k]) as nat by {
            if k == 0 {
                assert(rev_digits(rems)[0] == rems.last() as nat);
            } else {
                assert(rev_digits(rems)[k] == rev_digits(dl)[k - 1]);
                assert(rev_digits(dl)[k - 1] == dl[dl.len() - 1 - (k - 1)] as nat);
                assert(dl[dl.len() - k] == rems[rems.len() - 1 - k]);
            }
        }
    }
}

/// The nine home-row characters feed shorthands are written in.
pub open spec fn home_row() -> Seq<char> {
    seq!['a', 's', 'd', 'f', 'g', 'h', 'j', 'k', 'l']
}

/// The thirty-four characters post shorthands are written in.
pub open spec fn post_alphabet() -> Seq<char> {
    seq![
        'a', 's', 'd', 'f', 'g', 'h', 'j', 'k', 'l', 'A', 'S', 'D', 'F', 'G', 'H', 'J', 'K',
        'L', 'q', 'w', 'e', 'r', 't', 'y', 'i', 'o', 'p', 'z', 'x', 'c', 'v', 'b', 'n', 'm',
    ]
}

/// Build the home-row alphabet.
fn home_row_chars() -> (r: Vec<char>)
    ensures
        r@ == home_row(),
{
    let mut r: Vec<char> = Vec::new();
    r.push('a');
    r.push('s');
    r.push('d');
    r.push('f');
    r.push('g');
    r.push('h');
    r.push('j');
    r.push('k');
    r.push('l');
    proof {
        assert(r@ =~= home_row());
    }
    r
}

/// Build the post alphabet.
fn post_alphabet_chars() -> (r: Vec<char>)
    ensures
        r@ == post_alphabet(),
{
    let mut r: Vec<char> = Vec::new();
    r.push('a');
    r.push('s');
    r.push('d');
    r.push('f');
    r.push('g');
    r.push('h');
    r.push('j');
    r.push('k');
    r.push('l');
    r.push('A');
    r.push('S');
    r.push('D');
    r.push('F');
    r.push('G');
    r.push('H');
    r.push('J');
    r.push('K');
    r.push('L');
    r.push('q');
    r.push('w');
    r.push('e');
    r.push('r');
    r.push('t');
    r.push('y');
    r.push('i');
    r.push('o');
    r.push('p');
    r.push('z');
    r.push('x');
    r.push('c');
    r.push('v');
    r.push('b');
    r.push('n');
    r.push('m');
    proof {
        assert(r@ =~= post_alphabet());
    }
    r
}

/// A hex identifier re-encoded over the home row.
pub open spec fn hex_to_base9_spec(hex: Seq<char>) -> Seq<char> {
    custom_base_spec(hex, home_row())
}

/// Re-encode a hex identifier over the home row, as feed shorthands are
/// shown.
pub fn hex_to_base9(hex: &str) -> (r: String)
    ensures
        r@ == hex_to_base9_spec(hex@),
{
    let alphabet = home_row_chars();
    hex_to_custom_base(hex, alphabet.as_slice())
}

/// The shorthand of the post at position `n` in the listing: the base-34
/// digits of `n` over the post alphabet.
pub open spec fn index_to_shorthand_spec(n: nat) -> Seq<char> {
    map_alphabet(to_base(n, 34), post_alphabet())
}

/// Render a post's listing position as its shorthand.
pub fn index_to_shorthand(n: usize) -> (r: String)
    ensures
        r@ == index_to_shorthand_spec(n as nat),
{
    let alphabet = post_alphabet_chars();
    let ghost n0 = n as nat;
    let mut rems: Vec<u8> = Vec::new();
    let mut m = n;
    loop
        invariant_except_break
            alphabet@ == post_alphabet(),
            forall|k: int| 0 <= k < rems@.len() ==> (#[trigger] rems@[k]) < 34,
            m as nat >= 1 ==> to_base(n0, 34) == to_base(m as nat, 34) + rev_digits(rems@),
            m as nat == 0 ==> rems@.len() == 0 && n0 == 0,
        ensures
            alphabet@ == post_alphabet(),
            forall|k: int| 0 <= k < rems@.len() ==> (#[trigger] rems@[k]) < 34,
            to_base(n0, 34) == rev_digits(rems@),
        decreases m,
    {
        let d: u8 = (m % 34) as u8;
        let next = m / 34;
        let ghost mv = m as nat;
        let ghost rems_before = rems@;
        rems.push(d);
        proof {
            assert(rems@.drop_last() =~= rems_before);
            assert(rems@.last() == d);
            assert(rev_digits(rems@) == seq![d as nat] + rev_digits(rems_before));
            assert(d as nat == mv % 34);
            assert(next as nat == mv / 34);
            if mv == 0 {
                assert(to_base(n0, 34) == seq![0nat]);
                assert(d as nat == 0);
                assert(rev_digits(rems@) =~= seq![0nat]);
            } else if mv < 34 {
                assert(to_base(mv, 34) == seq![mv]);
                assert(mv % 34 == mv) by (nonlinear_arith)
                    requires 0 <= mv < 34;
                assert(to_base(n0, 34) =~= to_base(mv, 34) + rev_digits(rems_before));
                assert(seq![mv] + rev_digits(rems_before) =~= rev_digits(rems@));
                assert(next as nat == 0) by (nonlinear_arith)
                    requires 0 <= mv < 34, next as nat == mv / 34;
            } else {
                assert(to_base(mv, 34) == to_base(mv / 34, 34).push(mv % 34));
                assert(to_base(mv / 34, 34).push(mv % 34) + rev_digits(rems_before)
                    =~= to_base(mv / 34, 34) + (seq![mv % 34] + rev_digits(rems_before)));
                assert(to_base(n0, 34) =~= to_base(next as nat, 34) + rev_digits(rems@));
                assert(next as nat >= 1) by (nonlinear_arith)
                    requires mv >= 34, next as nat == mv / 34;
                assert(next < m) by (nonlinear_arith)
                    requires m >= 34, next as nat == m as nat / 34;
            }
        }
        m = next;
        if m == 0 {
            break;
        }
    }
    render_rev_digits(&rems, alphabet.as_slice())
}

/// Render collected remainders through an alphabet, most significant
/// digit first.
fn render_rev_digits(rems: &Vec<u8>, alphabet: &[char]) -> (r: String)
    requires
        forall|k: int| 0 <= k < rems@.len() ==> (#[trigger] rems@[k]) < alphabet@.len(),
    ensures
        r@ == map_alphabet(rev_digits(rems@), alphabet@),
{
    let mut r = String::new();
    let total = rems.len();
    let mut m: usize = 0;
    proof {
        lemma_rev_digits_index(rems@);
        assert(r@ =~= map_alphabet(rev_digits(rems@), alphabet@).take(0));
    }
    while m < total
        invariant
            m <= total,
            total == rems@.len(),
            forall|k: int| 0 <= k < rems@.len() ==> (#[trigger] rems@[k]) < alphabet@.len(),
            forall|k: int|
                0 <= k < rems@.len() ==> rev_digits(rems@)[k]
                    == (#[trigger] rems@[rems@.len() - 1 - k]) as nat,
            rev_digits(rems@).len() == rems@.len(),
            r@ == map_alphabet(rev_digits(rems@), alphabet@).take(m as int),
        decreases total - m,
    {
        let d = rems[total - 1 - m];
        crate::text::push_char(&mut r, alphabet[d as usize]);
        proof {
            let full = map_alphabet(rev_digits(rems@), alphabet@);
            assert(full[m as int] == alphabet@[rev_digits(rems@)[m as int] as int]);
            assert(rev_digits(rems@)[m as int] == rems@[rems@.len() - 1 - m] as nat);
            assert(full.take(m + 1) =~= full.take(m as int).push(full[m as int]));
        }
        m = m + 1;
    }
    proof {
        let full = map_alphabet(rev_digits(rems@), alphabet@);
        assert(full.take(total as int) =~= full);
    }
    r
}

/// The prefix of a string at a cut-off length.
pub open spec fn prefix_at(s: Seq<char>, l: int) -> Seq<char> {
    if l <= s.len() {
        s.take(l)
    } else {
        s
    }
}

/// The prefixes of all strings at one cut-off length.
pub open spec fn prefixes_at(ss: Seq<Seq<char>>, l: int) -> Seq<Seq<char>> {
    ss.map_values(|s: Seq<char>| prefix_at(s, l))
}

/// No two strings are equal.
pub open spec fn all_distinct(ss: Seq<Seq<char>>) -> bool {
    forall|i: int, j: int| 0 <= i < j < ss.len() ==> (#[trigger] ss[i]) != (#[trigger] ss[j])
}

/// The base-9 renderings of a list of identifiers.
pub open spec fn base9s_of(ids: Seq<Seq<char>>) -> Seq<Seq<char>> {
    ids.map_values(|s: Seq<char>| hex_to_base9_spec(s))
}

/// The largest length among the strings.
pub open spec fn max_len(ss: Seq<Seq<char>>) -> int
    decreases ss.len(),
{
    if ss.len() == 0 {
        0
    } else {
        let rest = max_len(ss.drop_last());
        if ss.last().len() > rest {
            ss.last().len() as int
        } else {
            rest
        }
    }
}

/// The least cut-off length in `[l, maxl]` at which all prefixes are
/// distinct, or 0 when none is.
pub open spec fn first_unique_len(ss: Seq<Seq<char>>, l: int, maxl: int) -> int
    decreases maxl - l + 1 when l >= 0
{
    if l > maxl {
        0
    } else if all_distinct(prefixes_at(ss, l)) {
        l
    } else {
        first_unique_len(ss, l + 1, maxl)
    }
}

/// The shorthands of a list of feed identifiers: their base-9 renderings
/// shortened to the least prefix length that keeps them all distinct, the
/// full renderings when no length does, and a single character for a
/// single feed.
pub open spec fn compute_shorthands_spec(ids: Seq<Seq<char>>) -> Seq<Seq<char>> {
    if ids.len() == 0 {
        Seq::empty()
    } else {
        let ss = base9s_of(ids);
        if ids.len() == 1 {
            seq![seq![ss[0][0]]]
        } else {
            let l = first_unique_len(ss, 1, max_len(ss));
            if l >= 1 {
                prefixes_at(ss, l)
            } else {
                ss
            }
        }
    }
}

/// Whether all strings in the list are pairwise distinct.
fn all_distinct_exec(ss: &Vec<String>) -> (r: bool)
    ensures
        r == all_distinct(ss.deep_view()),
{
    let n = ss.len();
    let mut i: usize = 0;
    while i < n
        invariant
            i <= n,
            n == ss.len(),
            forall|a: int, b: int|
                0 <= a < b < n && a < i ==> (#[trigger] ss.deep_view()[a])
                    != (#[trigger] ss.deep_view()[b]),
        decreases n - i,
    {
        let mut j: usize = i + 1;
        while j < n
            invariant
                i < j <= n,
                n == ss.len(),
                forall|b: int|
                    i < b < j ==> (#[trigger] ss.deep_view()[b]) != ss.deep_view()[i as int],
            decreases n - j,
        {
            if crate::text::str_eq(ss[i].as_str(), ss[j].as_str()) {
                proof {
                    assert(ss.deep_view()[i as int] == ss@[i as int]@);
                    assert(ss.deep_view()[j as int] == ss@[j as int]@);
                }
                return false;
            }
            proof {
                assert(ss.deep_view()[i as int] == ss@[i as int]@);
                assert(ss.deep_view()[j as int] == ss@[j as int]@);
            }
            j = j + 1;
        }
        i = i + 1;
    }
    true
}

/// The prefixes of all strings at one cut-off length.
fn prefixes_exec(ss: &Vec<String>, l: usize) -> (r: Vec<String>)
    ensures
        r.deep_view() == prefixes_at(ss.deep_view(), l as int),
{
    let mut out: Vec<String> = Vec::new();
    let mut i: usize = 0;
    proof {
        assert(out.deep_view() =~= prefixes_at(ss.deep_view(), l as int).take(0));
    }
    while i < ss.len()
        invariant
            i <= ss.len(),
            out.deep_view() == prefixes_at(ss.deep_view(), l as int).take(i as int),
        decreases ss.len() - i,
    {
        let s = &ss[i];
        let n = s.as_str().unicode_len();
        let end = if l < n {
            l
        } else {
            n
        };
        let p = s.as_str().substring_char(0, end).to_owned();
        let ghost before = out.deep_view();
        out.push(p);
        proof {
            let full = prefixes_at(ss.deep_view(), l as int);
            assert(ss.deep_view()[i as int] == ss@[i as int]@);
            assert(full[i as int] == prefix_at(ss.deep_view()[i as int], l as int));
            assert(p@ =~= prefix_at(ss.deep_view()[i as int], l as int));
            assert(full.take(i + 1) =~= full.take(i as int).push(full[i as int]));
            assert(out.deep_view() =~= before.push(p@));
        }
        i = i + 1;
    }
    proof {
        let full = prefixes_at(ss.deep_view(), l as int);
        assert(full.take(ss@.len() as int) =~= full);
    }
    out
}

/// Shorthands for a list of feed identifiers: the shortest prefixes of
/// their base-9 renderings that name each feed unambiguously.
pub fn compute_shorthands(ids: &Vec<String>) -> (r: Vec<String>)
    ensures
        r.deep_view() == compute_shorthands_spec(ids.deep_view()),
{
    let n = ids.len();
    if n == 0 {
        let out: Vec<String> = Vec::new();
        proof {
            assert(out.deep_view() =~= compute_shorthands_spec(ids.deep_view()));
        }
        return out;
    }
    // The base-9 renderings.
    let mut base9s: Vec<String> = Vec::new();
    let mut i: usize = 0;
    proof {
        assert(base9s.deep_view() =~= base9s_of(ids.deep_view()).take(0));
    }
    while i < n
        invariant
            i <= n,
            n == ids.len(),
            base9s.deep_view() == base9s_of(ids.deep_view()).take(i as int),
            base9s@.len() == i,
        decreases n - i,
    {
        let s = hex_to_base9(ids[i].as_str());
        let ghost before = base9s.deep_view();
        base9s.push(s);
        proof {
            let full = base9s_of(ids.deep_view());
            assert(ids.deep_view()[i as int] == ids@[i as int]@);
            assert(full[i as int] == hex_to_base9_spec(ids.deep_view()[i as int]));
            assert(full.take(i + 1) =~= full.take(i as int).push(full[i as int]));
            assert(base9s.deep_view() =~= before.push(s@));
        }
        i = i + 1;
    }
    proof {
        let full = base9s_of(ids.deep_view());
        assert(full.take(n as int) =~= full);
        assert(base9s.deep_view() == base9s_of(ids.deep_view()));
    }
    let ghost ss = base9s_of(ids.deep_view());
    if n == 1 {
        proof {
            lemma_to_base_len(nat_of_hex(ids.deep_view()[0]), 9);
            assert(ss[0] == hex_to_base9_spec(ids.deep_view()[0]));
            assert(ss[0].len() >= 1);
        }
        let first = base9s[0].as_str().substring_char(0, 1).to_owned();
        let mut out: Vec<String> = Vec::new();
        out.push(first);
        proof {
            assert(out.deep_view()[0] =~= seq![ss[0][0]]);
            assert(out.deep_view() =~= compute_shorthands_spec(ids.deep_view()));
        }
        return out;
    }
    // The largest rendering length bounds the prefix search.
    let mut maxl: usize = 0;
    let mut k: usize = 0;
    while k < n
        invariant
            k <= n,
            n == base9s.len(),
            ss == base9s.deep_view(),
            maxl as int == max_len(ss.take(k as int)),
        decreases n - k,
    {
        let len_k = base9s[k].as_str().unicode_len();
        proof {
            assert(ss.take(k + 1).drop_last() =~= ss.take(k as int));
            assert(ss.take(k + 1).last() == ss[k as int]);
            assert(ss[k as int] == base9s@[k as int]@);
        }
        if len_k > maxl {
            maxl = len_k;
        }
        k = k + 1;
    }
    proof {
        assert(ss.take(n as int) =~= ss);
    }
    let mut lm1: usize = 0;
    while lm1 < maxl
        invariant
            n == base9s.len(),
            n == ids.len(),
            n >= 2,
            ss == base9s.deep_view(),
            ss == base9s_of(ids.deep_view()),
            lm1 <= maxl,
            maxl as int == max_len(ss),
            first_unique_len(ss, 1, maxl as int) == first_unique_len(
                ss,
                lm1 as int + 1,
                maxl as int,
            ),
        decreases maxl - lm1,
    {
        let l = lm1 + 1;
        let prefixes = prefixes_exec(&base9s, l);
        if all_distinct_exec(&prefixes) {
            proof {
                assert(all_distinct(prefixes_at(ss, l as int)));
                assert(first_unique_len(ss, l as int, maxl as int) == l as int);
                assert(first_unique_len(ss, 1, maxl as int) == l as int);
                assert(prefixes.deep_view() =~= compute_shorthands_spec(ids.deep_view()));
            }
            return prefixes;
        }
        proof {
            assert(!all_distinct(prefixes_at(ss, l as int)));
            assert(first_unique_len(ss, l as int, maxl as int) == first_unique_len(
                ss,
                l as int + 1,
                maxl as int,
            ));
        }
        lm1 = l;
    }
    proof {
        assert(first_unique_len(ss, maxl as int + 1, maxl as int) == 0);
        assert(first_unique_len(ss, 1, maxl as int) == 0);
        assert(base9s.deep_view() =~= compute_shorthands_spec(ids.deep_view()));
    }
    base9s
}

/// A base rendering always has at least one digit.
proof fn lemma_to_base_len(n: nat, b: nat)
    requires
        b >= 2,
    ensures
        to_base(n, b).len() >= 1,
    decreases n,
{
    if n >= b {
        assert(n / b < n) by (nonlinear_arith)
            requires n >= b >= 2;
        lemma_to_base_len(n / b, b);
    }
}

} // verus!
