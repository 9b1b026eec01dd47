use vstd::prelude::*;

verus! {

pub const BASE_A: u8 = 65;

pub const BASE_C: u8 = 67;

pub const BASE_G: u8 = 71;

pub const BASE_T: u8 = 84;

/// The byte that marks an unread base.
pub const BASE_N: u8 = 78;

/// True of the four nucleotide letters `A`, `C`, `G` and `T`.
pub open spec fn is_base(b: u8) -> bool {
    b == BASE_A || b == BASE_C || b == BASE_G || b == BASE_T
}

/// True of a byte string made of nucleotide letters only.
pub open spec fn is_dna(s: Seq<u8>) -> bool {
    forall|i: int| 0 <= i < s.len() ==> is_base(#[trigger] s[i])
}

/// The two-bit value of a nucleotide: A = 0, C = 1, G = 2, T = 3.
pub open spec fn base_value(b: u8) -> nat {
    if b == BASE_A {
        0
    } else if b == BASE_C {
        1
    } else if b == BASE_G {
        2
    } else {
        3
    }
}

/// The nucleotide whose two-bit value is `v`.
pub open spec fn value_base(v: nat) -> u8 {
    if v == 0 {
        BASE_A
    } else if v == 1 {
        BASE_C
    } else if v == 2 {
        BASE_G
    } else {
        BASE_T
    }
}

/// A nucleotide string read as a base-4 number, first base most significant.
pub open spec fn dna_code(s: Seq<u8>) -> nat
    decreases s.len(),
{
    if s.len() == 0 {
        0
    } else {
        dna_code(s.drop_last()) * 4 + base_value(s.last())
    }
}

/// The `len` nucleotides whose base-4 code is `code`.
pub open spec fn dna_decode(code: nat, len: nat) -> Seq<u8>
    decreases len,
{
    if len == 0 {
        Seq::empty()
    } else {
        dna_decode(code / 4, (len - 1) as nat).push(value_base(code % 4))
    }
}

pub open spec fn pow4(n: nat) -> nat
    decreases n,
{
    if n == 0 {
        1
    } else {
        4 * pow4((n - 1) as nat)
    }
}

proof fn lemma_pow4_split(a: nat, b: nat)
    ensures
        pow4(a + b) == pow4(a) * pow4(b),
    decreases a,
{
    if a > 0 {
        let a1 = (a - 1) as nat;
        lemma_pow4_split(a1, b);
        assert(pow4(a + b) == 4 * pow4(a1 + b));
        assert(pow4(a) == 4 * pow4(a1));
        assert(4 * (pow4(a1) * pow4(b)) == (4 * pow4(a1)) * pow4(b)) by (nonlinear_arith);
    } else {
        assert(pow4(0) == 1);
        assert(a + b == b);
    }
}

proof fn lemma_pow4_positive(n: nat)
    ensures
        pow4(n) >= 1,
    decreases n,
{
    if n > 0 {
        lemma_pow4_positive((n - 1) as nat);
    }
}

/// `pow4(n)` is at most `pow4(m)` whenever `n <= m`.
pub proof fn lemma_pow4_monotone(n: nat, m: nat)
    requires
        n <= m,
    ensures
        pow4(n) <= pow4(m),
{
    lemma_pow4_split(n, (m - n) as nat);
    lemma_pow4_positive((m - n) as nat);
    assert(pow4(n) * pow4((m - n) as nat) >= pow4(n)) by (nonlinear_arith)
        requires
            pow4((m - n) as nat) >= 1,
    ;
}

proof fn lemma_pow4_16()
    ensures
        pow4(16) == 0x1_0000_0000,
{
    reveal_with_fuel(pow4, 17);
}

pub proof fn lemma_pow4_64()
    ensures
        pow4(64) == 0x1_0000_0000_0000_0000_0000_0000_0000_0000,
{
    lemma_pow4_split(32, 32);
    lemma_pow4_split(16, 16);
    lemma_pow4_16();
    let q = pow4(16);
    assert(q * q == 0x1_0000_0000_0000_0000) by (nonlinear_arith)
        requires
            q == 0x1_0000_0000,
    ;
    assert(pow4(32) == 0x1_0000_0000_0000_0000);
    let h = pow4(32);
    assert(h * h == 0x1_0000_0000_0000_0000_0000_0000_0000_0000) by (nonlinear_arith)
        requires
            h == 0x1_0000_0000_0000_0000,
    ;
}

/// The code of `s` has fewer than `2 * |s|` bits.
pub proof fn lemma_code_bound(s: Seq<u8>)
    ensures
        dna_code(s) < pow4(s.len()),
    decreases s.len(),
{
    if s.len() > 0 {
        lemma_code_bound(s.drop_last());
        assert(dna_code(s.drop_last()) * 4 + 4 <= pow4((s.len() - 1) as nat) * 4) by (nonlinear_arith)
            requires
                dna_code(s.drop_last()) < pow4((s.len() - 1) as nat),
        ;
    }
}

/// Decoding the code of a nucleotide string with its length gives the string back.
pub proof fn lemma_dna_round_trip(s: Seq<u8>)
    requires
        is_dna(s),
    ensures
        dna_decode(dna_code(s), s.len()) == s,
    decreases s.len(),
{
    if s.len() > 0 {
        let p = s.drop_last();
        assert(is_dna(p)) by {
            assert forall|i: int| 0 <= i < p.len() implies is_base(#[trigger] p[i]) by {
                assert(p[i] == s[i]);
            }
        }
        lemma_dna_round_trip(p);
        let c = dna_code(s);
        assert(is_base(s.last()));
        assert(c / 4 == dna_code(p) && c % 4 == base_value(s.last())) by (nonlinear_arith)
            requires
                c == dna_code(p) * 4 + base_value(s.last()),
                base_value(s.last()) < 4,
        ;
        assert(dna_decode(c, s.len()) =~= s);
    }
}

/// Two nucleotide strings of one length with the same code are equal.
pub proof fn lemma_code_injective(s: Seq<u8>, t: Seq<u8>)
    requires
        is_dna(s),
        is_dna(t),
        s.len() == t.len(),
        dna_code(s) == dna_code(t),
    ensures
        s == t,
{
    lemma_dna_round_trip(s);
    lemma_dna_round_trip(t);
}

/// The two-bit value of one byte, or `None` where it is no nucleotide.
pub fn base_to_bits(b: u8) -> (r: Option<u8>)
    ensures
        r is Some <==> is_base(b),
        r matches Some(v) ==> v as nat == base_value(b) && v < 4,
{
    if b == BASE_A {
        Some(0)
    } else if b == BASE_C {
        Some(1)
    } else if b == BASE_G {
        Some(2)
    } else if b == BASE_T {
        Some(3)
    } else {
        None
    }
}

/// The nucleotide of two-bit value `v`.
pub fn bits_to_base(v: u8) -> (b: u8)
    requires
        v < 4,
    ensures
        b == value_base(v as nat),
        is_base(b),
        base_value(b) == v as nat,
{
    if v == 0 {
        BASE_A
    } else if v == 1 {
        BASE_C
    } else if v == 2 {
        BASE_G
    } else {
        BASE_T
    }
}

/// Packs the `len` bytes of `s` from `start` on, at most 64 of them, into an integer,
/// two bits per base; `None` where one of them is no nucleotide.
pub fn pack_dna(s: &[u8], start: usize, len: usize) -> (r: Option<u128>)
    requires
        start + len <= s@.len(),
        len <= 64,
    ensures
        r is Some <==> is_dna(s@.subrange(start as int, start + len)),
        r matches Some(c) ==> c as nat == dna_code(s@.subrange(start as int, start + len)),
{
    let mut code: u128 = 0;
    let mut i: usize = 0;
    let n = s.len();
    while i < len
        invariant
            i <= len <= 64,
            n == s@.len(),
            start + len <= s@.len(),
            is_dna(s@.subrange(start as int, start + i)),
            code as nat == dna_code(s@.subrange(start as int, start + i)),
        decreases len - i,
    {
        let ghost prefix = s@.subrange(start as int, start + i);
        let ghost next = s@.subrange(start as int, start + i + 1);
        assert(next.drop_last() =~= prefix);
        match base_to_bits(s[start + i]) {
            None => {
                assert(next[i as int] == s@[start + i]);
                return None;
            },
            Some(v) => {
                proof {
                    lemma_code_bound(prefix);
                    lemma_pow4_monotone(i as nat, 63);
                    lemma_pow4_split(63, 1);
                    lemma_pow4_64();
                    reveal_with_fuel(pow4, 2);
                }
                code = code * 4 + v as u128;
                assert(is_dna(next)) by {
                    assert forall|k: int| 0 <= k < next.len() implies is_base(#[trigger] next[k]) by {
                        if k < i {
                            assert(next[k] == prefix[k]);
                        }
                    }
                }
            },
        }
        i = i + 1;
    }
    Some(code)
}

} // verus!
