//! Reserve identifiers. A freshly created record normally gets a random
//! identifier; should the draw be taken already, the store falls back to
//! a deterministic reserve identifier — a zero prefix followed by twenty
//! decimal digits. Among the reserve identifiers numbered `0..=n` at
//! least one is absent from any collection of `n` records, so creation
//! never fails.

use vstd::prelude::*;
use vstd::set_lib::{set_int_range, lemma_int_range, lemma_map_size, lemma_len_subset};
use vstd::relations::injective_on;
use crate::date::{digit_char, digit_val, is_digit, lemma_digit_char_val};
use crate::tx::{TxView, is_id_seq};
use crate::store::has_id;

verus! {

pub open spec fn pow10(w: nat) -> int
    decreases w,
{
    if w == 0 {
        1
    } else {
        10 * pow10((w - 1) as nat)
    }
}

pub proof fn lemma_pow10_pos(w: nat)
    ensures
        pow10(w) >= 1,
    decreases w,
{
    if w > 0 {
        lemma_pow10_pos((w - 1) as nat);
    }
}

/// Twenty decimal digits hold any number a collection index can reach.
pub proof fn lemma_pow10_20_large()
    ensures
        pow10(20) > 0xffff_ffff_ffff_ffff,
{
    assert(pow10(0) == 1);
    assert(pow10(1) == 10);
    assert(pow10(2) == 100);
    assert(pow10(3) == 1000);
    assert(pow10(4) == 10000);
    assert(pow10(5) == 100000);
    assert(pow10(6) == 1000000);
    assert(pow10(7) == 10000000);
    assert(pow10(8) == 100000000);
    assert(pow10(9) == 1000000000);
    assert(pow10(10) == 10000000000);
    assert(pow10(11) == 100000000000);
    assert(pow10(12) == 1000000000000);
    assert(pow10(13) == 10000000000000);
    assert(pow10(14) == 100000000000000);
    assert(pow10(15) == 1000000000000000);
    assert(pow10(16) == 10000000000000000);
    assert(pow10(17) == 100000000000000000);
    assert(pow10(18) == 1000000000000000000);
    assert(pow10(19) == 10000000000000000000);
    assert(pow10(20) == 100000000000000000000);
}

/// `k` written as exactly `w` decimal digits, most significant first.
pub open spec fn dec_fixed(k: int, w: nat) -> Seq<char>
    decreases w,
{
    if w == 0 {
        Seq::empty()
    } else {
        dec_fixed(k / 10, (w - 1) as nat).push(digit_char(k % 10))
    }
}

/// The number a digit sequence denotes.
pub open spec fn dec_val(s: Seq<char>) -> int
    decreases s.len(),
{
    if s.len() == 0 {
        0
    } else {
        dec_val(s.drop_last()) * 10 + digit_val(s.last())
    }
}

/// Fixed-width decimal writing is read back exactly.
pub proof fn lemma_dec_fixed_props(k: int, w: nat)
    requires
        0 <= k < pow10(w),
    ensures
        dec_fixed(k, w).len() == w,
        forall|i: int| 0 <= i < w ==> is_digit(#[trigger] dec_fixed(k, w)[i]),
        dec_val(dec_fixed(k, w)) == k,
    decreases w,
{
    if w > 0 {
        lemma_pow10_pos((w - 1) as nat);
        assert(k / 10 < pow10((w - 1) as nat)) by (nonlinear_arith)
            requires
                0 <= k < 10 * pow10((w - 1) as nat),
                pow10((w - 1) as nat) >= 1,
        ;
        lemma_dec_fixed_props(k / 10, (w - 1) as nat);
        lemma_digit_char_val(k % 10);
        let pre = dec_fixed(k / 10, (w - 1) as nat);
        assert(pre.push(digit_char(k % 10)).drop_last() =~= pre);
    }
}

/// The fixed fourteen leading characters of a reserve identifier.
pub open spec fn serial_prefix() -> Seq<char> {
    Seq::new(14, |i: int| if i == 8 || i == 13 { '-' } else { '0' })
}

/// The reserve identifier numbered `k`.
pub open spec fn serial_seq(k: int) -> Seq<char> {
    let d = dec_fixed(k, 20);
    serial_prefix() + d.subrange(0, 4) + seq!['-'] + d.subrange(4, 8) + seq!['-'] + d.subrange(
        8,
        20,
    )
}

/// A reserve identifier is a well-formed identifier.
pub proof fn lemma_serial_wf(k: int)
    requires
        0 <= k < pow10(20),
    ensures
        is_id_seq(serial_seq(k)),
{
    lemma_dec_fixed_props(k, 20);
    let s = serial_seq(k);
    assert(s.len() == 36);
    assert forall|i: int| 0 <= i < 36 implies (if i == 8 || i == 13 || i == 18 || i == 23 {
        s[i] == '-'
    } else {
        crate::tx::is_hex_lower(s[i])
    }) by {
        let d = dec_fixed(k, 20);
        if i < 14 {
            assert(s[i] == serial_prefix()[i]);
        } else if i < 18 {
            assert(s[i] == d[i - 14]);
            assert(is_digit(d[i - 14]));
        } else if i == 18 {
        } else if i < 23 {
            assert(s[i] == d[i - 15]);
            assert(is_digit(d[i - 15]));
        } else if i == 23 {
        } else {
            assert(s[i] == d[i - 16]);
            assert(is_digit(d[i - 16]));
        }
    }
}

/// The number a reserve identifier carries.
pub open spec fn serial_val(s: Seq<char>) -> int {
    dec_val(s.subrange(14, 18) + s.subrange(19, 23) + s.subrange(24, 36))
}

/// Distinct numbers give distinct reserve identifiers.
pub proof fn lemma_serial_val(k: int)
    requires
        0 <= k < pow10(20),
    ensures
        serial_val(serial_seq(k)) == k,
{
    lemma_dec_fixed_props(k, 20);
    let s = serial_seq(k);
    let d = dec_fixed(k, 20);
    assert(s.subrange(14, 18) + s.subrange(19, 23) + s.subrange(24, 36) =~= d);
}

/// Among the reserve identifiers numbered `0..=n`, where `n` is the
/// size of the collection, at least one is unused.
pub proof fn lemma_serial_available(s: Seq<TxView>)
    requires
        s.len() <= 0xffff_ffff_ffff_ffff,
    ensures
        exists|j: int| 0 <= j <= s.len() && !has_id(s, serial_seq(j)),
{
    let n = s.len() as int;
    if !(exists|j: int| 0 <= j <= n && !has_id(s, serial_seq(j))) {
        assert(forall|j: int| 0 <= j <= n ==> has_id(s, serial_seq(j)));
        lemma_pow10_20_large();
        lemma_int_range(0, n + 1);
        let c = set_int_range(0, n + 1);
        let f = |j: int| serial_seq(j);
        assert(injective_on(f, c)) by {
            assert forall|j1: int, j2: int|
                c.contains(j1) && c.contains(j2) && #[trigger] f(j1) == #[trigger] f(
                    j2,
                ) implies j1 == j2 by {
                lemma_serial_val(j1);
                lemma_serial_val(j2);
            }
        }
        let y = c.map(f);
        lemma_map_size(c, y, f);
        let idseq = Seq::new(s.len(), |i: int| s[i].id);
        idseq.lemma_cardinality_of_set();
        assert(y.subset_of(idseq.to_set())) by {
            assert forall|el: Seq<char>| y.contains(el) implies idseq.to_set().contains(el) by {
                let j = choose|j: int| c.contains(j) && #[trigger] f(j) == el;
                assert(has_id(s, serial_seq(j)));
                let i = choose|i: int| 0 <= i < s.len() && #[trigger] s[i].id == serial_seq(j);
                assert(idseq[i] == el);
                assert(idseq.contains(el));
            }
        }
        lemma_len_subset(y, idseq.to_set());
        assert(false);
    }
}

/// Appends `k` as exactly `w` decimal digits, most significant first.
fn push_dec_fixed(out: &mut Vec<char>, k: u128, w: usize)
    requires
        (k as int) < pow10(w as nat),
    ensures
        final(out)@ == old(out)@ + dec_fixed(k as int, w as nat),
    decreases w,
{
    if w == 0 {
        proof {
            assert(final(out)@ =~= old(out)@ + dec_fixed(k as int, 0));
        }
    } else {
        proof {
            lemma_pow10_pos((w - 1) as nat);
            assert(((k / 10) as int) < pow10((w - 1) as nat)) by (nonlinear_arith)
                requires
                    0 <= (k as int) < 10 * pow10((w - 1) as nat),
                    pow10((w - 1) as nat) >= 1,
            ;
        }
        push_dec_fixed(out, k / 10, w - 1);
        let d: u8 = (k % 10) as u8;
        out.push((48 + d) as char);
        proof {
            assert(final(out)@ =~= old(out)@ + dec_fixed(k as int, w as nat));
        }
    }
}

/// The reserve identifier numbered `k`, as a string.
pub fn serial_string(k: u64) -> (r: String)
    ensures
        r@ == serial_seq(k as int),
        is_id_seq(r@),
{
    proof {
        lemma_pow10_20_large();
        lemma_serial_wf(k as int);
    }
    let mut digs: Vec<char> = Vec::new();
    push_dec_fixed(&mut digs, k as u128, 20);
    proof {
        lemma_dec_fixed_props(k as int, 20);
        assert(digs@ =~= dec_fixed(k as int, 20));
    }
    let mut v: Vec<char> = Vec::new();
    let mut z: usize = 0;
    while z < 8
        invariant
            z <= 8,
            v@ =~= Seq::new(z as nat, |i: int| '0'),
        decreases 8 - z,
    {
        v.push('0');
        z += 1;
    }
    v.push('-');
    let mut z2: usize = 0;
    while z2 < 4
        invariant
            z2 <= 4,
            digs@ == dec_fixed(k as int, 20),
            v@ =~= Seq::new(9 + z2 as nat, |i: int| if i == 8 { '-' } else { '0' }),
        decreases 4 - z2,
    {
        v.push('0');
        z2 += 1;
    }
    v.push('-');
    proof {
        assert(v@ =~= serial_prefix());
    }
    let mut p: usize = 0;
    while p < 4
        invariant
            p <= 4,
            digs@ == dec_fixed(k as int, 20),
            digs@.len() == 20,
            v@ =~= serial_prefix() + digs@.subrange(0, p as int),
        decreases 4 - p,
    {
        v.push(digs[p]);
        p += 1;
    }
    v.push('-');
    let mut q: usize = 4;
    while q < 8
        invariant
            4 <= q <= 8,
            digs@ == dec_fixed(k as int, 20),
            digs@.len() == 20,
            v@ =~= serial_prefix() + digs@.subrange(0, 4) + seq!['-'] + digs@.subrange(
                4,
                q as int,
            ),
        decreases 8 - q,
    {
        v.push(digs[q]);
        q += 1;
    }
    v.push('-');
    let mut w: usize = 8;
    while w < 20
        invariant
            8 <= w <= 20,
            digs@ == dec_fixed(k as int, 20),
            digs@.len() == 20,
            v@ =~= serial_prefix() + digs@.subrange(0, 4) + seq!['-'] + digs@.subrange(4, 8)
                + seq!['-'] + digs@.subrange(8, w as int),
        decreases 20 - w,
    {
        v.push(digs[w]);
        w += 1;
    }
    proof {
        assert(v@ =~= serial_seq(k as int));
    }
    crate::text::string_from_chars(&v)
}

} // verus!
