use vstd::prelude::*;

verus! {

/// `256` to the power `n`.
pub open spec fn pow256(n: nat) -> nat
    decreases n,
{
    if n == 0 {
        1
    } else {
        256 * pow256((n - 1) as nat)
    }
}

/// The `n` low bytes of `v`, least significant first.
pub open spec fn le_bytes(v: nat, n: nat) -> Seq<u8>
    decreases n,
{
    if n == 0 {
        seq![]
    } else {
        seq![(v % 256) as u8] + le_bytes(v / 256, (n - 1) as nat)
    }
}

/// The number whose bytes, least significant first, are `s`.
pub open spec fn le_value(s: Seq<u8>) -> nat
    decreases s.len(),
{
    if s.len() == 0 {
        0
    } else {
        s[0] as nat + 256 * le_value(s.drop_first())
    }
}

/// Whether `e` occurs in `b` at position `pos`.
pub open spec fn occurs_at(b: Seq<u8>, pos: int, e: Seq<u8>) -> bool {
    0 <= pos && pos + e.len() <= b.len() && b.subrange(pos, pos + e.len()) == e
}

pub proof fn lemma_le_bytes_len(v: nat, n: nat)
    ensures
        le_bytes(v, n).len() == n,
    decreases n,
{
    if n > 0 {
        lemma_le_bytes_len(v / 256, (n - 1) as nat);
    }
}

/// Reading back the `n` low bytes of a number below `256^n` gives it back.
pub proof fn lemma_le_round_trip(v: nat, n: nat)
    requires
        v < pow256(n),
    ensures
        le_value(le_bytes(v, n)) == v,
    decreases n,
{
    if n > 0 {
        let s = le_bytes(v, n);
        assert(s.drop_first() =~= le_bytes(v / 256, (n - 1) as nat));
        assert(v / 256 < pow256((n - 1) as nat)) by (nonlinear_arith)
            requires
                v < 256 * pow256((n - 1) as nat),
        ;
        lemma_le_round_trip(v / 256, (n - 1) as nat);
    }
}

/// Bytes read as a number and written back are the same bytes.
pub proof fn lemma_le_bytes_of_value(s: Seq<u8>)
    ensures
        le_bytes(le_value(s), s.len()) == s,
    decreases s.len(),
{
    if s.len() > 0 {
        let r = le_value(s.drop_first());
        lemma_le_bytes_of_value(s.drop_first());
        let v = le_value(s);
        assert(v % 256 == s[0] as nat && v / 256 == r) by (nonlinear_arith)
            requires
                v == s[0] as nat + 256 * r,
                s[0] < 256,
        ;
        assert(le_bytes(v, s.len()) =~= s);
    }
}

/// Two numbers below `256^n` with the same `n` low bytes are equal.
pub proof fn lemma_le_bytes_injective(v: nat, w: nat, n: nat)
    requires
        v < pow256(n),
        w < pow256(n),
        le_bytes(v, n) == le_bytes(w, n),
    ensures
        v == w,
{
    lemma_le_round_trip(v, n);
    lemma_le_round_trip(w, n);
}

pub proof fn lemma_pow256_values()
    ensures
        pow256(4) == 0x1_0000_0000,
        pow256(16) == 0x1_0000_0000_0000_0000_0000_0000_0000_0000,
{
    reveal_with_fuel(pow256, 17);
}

/// Appends the `n` low bytes of `v` to `out`, least significant first.
pub fn write_le(out: &mut Vec<u8>, v: u128, n: usize)
    requires
        n <= 16,
    ensures
        final(out)@ == old(out)@ + le_bytes(v as nat, n as nat),
{
    let ghost start = out@;
    let mut cur: u128 = v;
    let mut i: usize = 0;
    while i < n
        invariant
            i <= n,
            out@ + le_bytes(cur as nat, (n - i) as nat) == start + le_bytes(v as nat, n as nat),
        decreases n - i,
    {
        let ghost before = out@;
        out.push((cur % 256) as u8);
        assert(le_bytes(cur as nat, (n - i) as nat) == seq![(cur % 256) as u8] + le_bytes(
            (cur / 256) as nat,
            (n - i - 1) as nat,
        ));
        assert(out@ + le_bytes((cur / 256) as nat, (n - i - 1) as nat) =~= before + le_bytes(
            cur as nat,
            (n - i) as nat,
        ));
        cur = cur / 256;
        i += 1;
    }
    assert(le_bytes(cur as nat, 0) =~= Seq::<u8>::empty());
    assert(out@ =~= out@ + le_bytes(cur as nat, 0));
}

/// The number held by the `n` bytes of `b` at `pos`, least significant
/// first.
pub fn read_le(b: &Vec<u8>, pos: usize, n: usize) -> (r: u128)
    requires
        n <= 16,
        pos + n <= b@.len(),
    ensures
        r as nat == le_value(b@.subrange(pos as int, pos + n)),
        r < pow256(n as nat),
{
    let len = b.len();
    let mut acc: u128 = 0;
    let mut i: usize = n;
    proof {
        lemma_pow256_values();
    }
    while i > 0
        invariant
            i <= n <= 16,
            len == b@.len(),
            pos + n <= b@.len(),
            pow256(16) == 0x1_0000_0000_0000_0000_0000_0000_0000_0000,
            acc as nat == le_value(b@.subrange(pos + i, pos + n)),
            acc < pow256((n - i) as nat),
        decreases i,
    {
        let ghost k = (n - i) as nat;
        proof {
            lemma_pow256_monotone(k + 1, 16);
        }
        let byte = b[pos + (i - 1)];
        assert(acc * 256 + byte < pow256(k + 1)) by (nonlinear_arith)
            requires
                acc < pow256(k),
                byte < 256,
                pow256(k + 1) == 256 * pow256(k),
        ;
        let ghost tail = b@.subrange(pos + i - 1, pos + n);
        assert(tail.drop_first() =~= b@.subrange(pos + i, pos + n));
        acc = acc * 256 + byte as u128;
        i -= 1;
    }
    acc
}

proof fn lemma_pow256_monotone(a: nat, b: nat)
    requires
        a <= b,
    ensures
        pow256(a) <= pow256(b),
    decreases b,
{
    if a < b {
        lemma_pow256_monotone(a, (b - 1) as nat);
    }
}

} // verus!

verus! {

/// `a + c` occurs at `pos` exactly when `a` does and `c` follows it.
pub proof fn lemma_occurs_concat(b: Seq<u8>, pos: int, a: Seq<u8>, c: Seq<u8>)
    ensures
        occurs_at(b, pos, a + c) <==> (occurs_at(b, pos, a) && occurs_at(b, pos + a.len(), c)),
{
    if occurs_at(b, pos, a + c) {
        assert(b.subrange(pos, pos + a.len()) =~= (a + c).subrange(0, a.len() as int));
        assert(b.subrange(pos + a.len(), pos + a.len() + c.len()) =~= (a + c).subrange(
            a.len() as int,
            (a.len() + c.len()) as int,
        ));
        assert((a + c).subrange(0, a.len() as int) =~= a);
        assert((a + c).subrange(a.len() as int, (a.len() + c.len()) as int) =~= c);
    }
    if occurs_at(b, pos, a) && occurs_at(b, pos + a.len(), c) {
        assert(b.subrange(pos, pos + (a + c).len()) =~= a + c) by {
            assert forall|i: int| 0 <= i < (a + c).len() implies b.subrange(pos, pos + (a + c).len())[i] == (a + c)[i] by {
                if i < a.len() {
                    assert(b.subrange(pos, pos + a.len())[i] == a[i]);
                } else {
                    assert(b.subrange(pos + a.len(), pos + a.len() + c.len())[i - a.len()] == c[i - a.len()]);
                }
            }
        }
    }
}

/// A whole sequence occurs at 0 in itself.
pub proof fn lemma_occurs_whole(b: Seq<u8>)
    ensures
        occurs_at(b, 0, b),
{
    assert(b.subrange(0, b.len() as int) =~= b);
}

} // verus!
