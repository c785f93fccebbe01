use vstd::prelude::*;

verus! {

/// `256` raised to `n`: one more than the largest value `n` bytes can hold.
pub open spec fn pow256(n: nat) -> nat
    decreases n,
{
    if n == 0 {
        1
    } else {
        256 * pow256((n - 1) as nat)
    }
}

/// The `n` low bytes of `v`, least significant first.
pub open spec fn le_bytes(v: nat, n: nat) -> Seq<u8>
    decreases n,
{
    if n == 0 {
        seq![]
    } else {
        seq![(v % 256) as u8] + le_bytes(v / 256, (n - 1) as nat)
    }
}

/// The number whose bytes, least significant first, are `s`.
pub open spec fn le_value(s: Seq<u8>) -> nat
    decreases s.len(),
{
    if s.len() == 0 {
        0
    } else {
        s[0] as nat + 256 * le_value(s.drop_first())
    }
}

/// `n` zero bytes.
pub open spec fn zeros(n: nat) -> Seq<u8> {
    Seq::new(n, |i: int| 0u8)
}

/// The pieces of `s` laid end to end.
pub open spec fn cat(s: Seq<Seq<u8>>) -> Seq<u8>
    decreases s.len(),
{
    if s.len() == 0 {
        seq![]
    } else {
        cat(s.drop_last()) + s.last()
    }
}

pub proof fn lemma_pow256_positive(n: nat)
    ensures
        pow256(n) >= 1,
    decreases n,
{
    if n > 0 {
        lemma_pow256_positive((n - 1) as nat);
    }
}

pub proof fn lemma_pow256_monotone(a: nat, b: nat)
    requires
        a <= b,
    ensures
        pow256(a) <= pow256(b),
    decreases b,
{
    if a < b {
        lemma_pow256_monotone(a, (b - 1) as nat);
        lemma_pow256_positive((b - 1) as nat);
    }
}

pub proof fn lemma_pow256_16()
    ensures
        pow256(2) == 0x1_0000,
        pow256(4) == 0x1_0000_0000,
        pow256(8) == 0x1_0000_0000_0000_0000,
        pow256(16) == 0x1_0000_0000_0000_0000_0000_0000_0000_0000,
{
    reveal_with_fuel(pow256, 17);
}

/// Writing `n` bytes of a value below `256^n` and reading them back gives
/// the value.
pub proof fn lemma_le_round_trip(v: nat, n: nat)
    requires
        v < pow256(n),
    ensures
        le_bytes(v, n).len() == n,
        le_value(le_bytes(v, n)) == v,
    decreases n,
{
    if n > 0 {
        let p = pow256((n - 1) as nat);
        assert(v / 256 < p) by (nonlinear_arith)
            requires
                v < 256 * p,
        ;
        lemma_le_round_trip(v / 256, (n - 1) as nat);
        let s = le_bytes(v, n);
        assert(s.drop_first() =~= le_bytes(v / 256, (n - 1) as nat));
    }
}

pub proof fn lemma_le_value_bound(s: Seq<u8>)
    ensures
        le_value(s) < pow256(s.len()),
    decreases s.len(),
{
    if s.len() > 0 {
        lemma_le_value_bound(s.drop_first());
        let r = le_value(s.drop_first());
        let p = pow256((s.len() - 1) as nat);
        let b = s[0] as nat;
        assert(b + 256 * r < 256 * p) by (nonlinear_arith)
            requires
                r < p,
                b < 256,
        ;
    }
}

/// Each piece sits in the concatenation right after the pieces before it.
pub proof fn lemma_cat_prefix(s: Seq<Seq<u8>>, k: int)
    requires
        0 <= k <= s.len(),
    ensures
        cat(s.take(k)).len() <= cat(s).len(),
        cat(s).subrange(0, cat(s.take(k)).len() as int) == cat(s.take(k)),
    decreases s.len(),
{
    if k == s.len() {
        assert(s.take(k) =~= s);
        assert(cat(s).subrange(0, cat(s).len() as int) =~= cat(s));
    } else {
        lemma_cat_prefix(s.drop_last(), k);
        assert(s.drop_last().take(k) =~= s.take(k));
        let a = cat(s.drop_last());
        assert(cat(s).subrange(0, cat(s.take(k)).len() as int) =~= a.subrange(
            0,
            cat(s.take(k)).len() as int,
        ));
    }
}

pub proof fn lemma_cat_step(s: Seq<Seq<u8>>, i: int)
    requires
        0 <= i < s.len(),
    ensures
        cat(s.take(i + 1)) == cat(s.take(i)) + s[i],
{
    assert(s.take(i + 1).drop_last() =~= s.take(i));
}

/// Piece `i` is the slice of the concatenation between the lengths of the
/// first `i` and the first `i + 1` pieces.
pub proof fn lemma_cat_piece(s: Seq<Seq<u8>>, i: int)
    requires
        0 <= i < s.len(),
    ensures
        cat(s.take(i + 1)).len() == cat(s.take(i)).len() + s[i].len(),
        cat(s.take(i + 1)).len() <= cat(s).len(),
        cat(s).subrange(cat(s.take(i)).len() as int, cat(s.take(i + 1)).len() as int) == s[i],
{
    lemma_cat_step(s, i);
    lemma_cat_prefix(s, i + 1);
    let a = cat(s.take(i)).len() as int;
    let b = cat(s.take(i + 1)).len() as int;
    assert(cat(s).subrange(a, b) =~= cat(s.take(i + 1)).subrange(a, b));
    assert(cat(s.take(i + 1)).subrange(a, b) =~= s[i]);
}

/// The lengths of the first pieces grow with their number.
pub proof fn lemma_cat_len_monotone(s: Seq<Seq<u8>>, i: int, j: int)
    requires
        0 <= i <= j <= s.len(),
    ensures
        cat(s.take(i)).len() <= cat(s.take(j)).len(),
    decreases j - i,
{
    if i < j {
        lemma_cat_len_monotone(s, i, j - 1);
        lemma_cat_step(s, j - 1);
    }
}

/// Pieces of one width `w` laid end to end take `w` bytes each.
pub proof fn lemma_cat_uniform(s: Seq<Seq<u8>>, w: nat)
    requires
        forall|i: int| 0 <= i < s.len() ==> (#[trigger] s[i]).len() == w,
    ensures
        cat(s).len() == w * s.len(),
    decreases s.len(),
{
    if s.len() > 0 {
        lemma_cat_uniform(s.drop_last(), w);
        let n = s.len() as int;
        assert(w * (n - 1) + w == w * n) by (nonlinear_arith);
    }
}

/// Appends the `n` low bytes of `v` to `out`, least significant first.
pub fn push_le(out: &mut Vec<u8>, v: u128, n: usize)
    requires
        n <= 16,
        v < pow256(n as nat),
    ensures
        final(out)@ == old(out)@ + le_bytes(v as nat, n as nat),
{
    let ghost start = out@;
    let mut cur: u128 = v;
    let mut i: usize = 0;
    while i < n
        invariant
            i <= n,
            out@ + le_bytes(cur as nat, (n - i) as nat) == start + le_bytes(v as nat, n as nat),
        decreases n - i,
    {
        let ghost before = out@;
        proof {
            let k = (n - i) as nat;
            assert(le_bytes(cur as nat, k) == seq![(cur as nat % 256) as u8] + le_bytes(
                cur as nat / 256,
                (k - 1) as nat,
            ));
        }
        out.push((cur % 256) as u8);
        proof {
            let k = (n - i) as nat;
            assert(out@ + le_bytes(cur as nat / 256, (k - 1) as nat) =~= before + le_bytes(
                cur as nat,
                k,
            ));
        }
        cur = cur / 256;
        i = i + 1;
    }
    assert(out@ =~= out@ + le_bytes(cur as nat, 0));
}

/// Appends `n` zero bytes to `out`.
pub fn push_zeros(out: &mut Vec<u8>, n: usize)
    ensures
        final(out)@ == old(out)@ + zeros(n as nat),
{
    let ghost start = out@;
    let mut i: usize = 0;
    while i < n
        invariant
            i <= n,
            out@ == start + zeros(i as nat),
        decreases n - i,
    {
        out.push(0u8);
        i = i + 1;
        assert(out@ =~= start + zeros(i as nat));
    }
}

/// Reads the `n` bytes of `b` from `start` as a number, least significant
/// first.
pub fn read_le(b: &[u8], start: usize, n: usize) -> (r: u128)
    requires
        n <= 16,
        start + n <= b@.len(),
    ensures
        r as nat == le_value(b@.subrange(start as int, start + n)),
{
    let len = b.len();
    let mut acc: u128 = 0;
    let mut i: usize = n;
    while i > 0
        invariant
            i <= n <= 16,
            start + n <= b@.len(),
            len == b@.len(),
            acc as nat == le_value(b@.subrange(start + i, start + n)),
            acc < pow256((n - i) as nat),
        decreases i,
    {
        i = i - 1;
        let byte = b[start + i];
        proof {
            let s = b@.subrange(start + i, start + n);
            assert(s.drop_first() =~= b@.subrange(start + i + 1, start + n));
            let p = pow256((n - i - 1) as nat);
            assert(acc * 256 + byte < 256 * p) by (nonlinear_arith)
                requires
                    acc < p,
                    byte < 256,
            ;
            lemma_pow256_monotone((n - i) as nat, 16);
            lemma_pow256_16();
        }
        acc = byte as u128 + 256 * acc;
    }
    acc
}

} // verus!
