use vstd::prelude::*;

use crate::dna::{
    base_to_bits, dna_code, dna_decode, is_base, is_dna, lemma_code_bound,
    lemma_dna_round_trip, lemma_pow4_monotone, pow4, BASE_A, BASE_C, BASE_G, BASE_N, BASE_T,
};
use crate::config::Config;
use crate::tally::Tally;
use vstd::std_specs::hash::obeys_key_model;

verus! {

broadcast use vstd::std_specs::hash::group_hash_axioms;

/// True of the bytes a UMI position can be counted for: the nucleotides and `N`.
pub open spec fn is_read_base(b: u8) -> bool {
    is_base(b) || b == BASE_N
}

/// How often each base was seen at one UMI position.
#[derive(Debug, Clone, Copy, Default)]
pub struct BaseComposition {
    pub a: u64,
    pub c: u64,
    pub g: u64,
    pub t: u64,
    pub n: u64,
}

/// The composition after one more `base`.
pub open spec fn with_base(bc: BaseComposition, base: u8) -> BaseComposition {
    if base == BASE_A {
        BaseComposition { a: (bc.a + 1) as u64, ..bc }
    } else if base == BASE_C {
        BaseComposition { c: (bc.c + 1) as u64, ..bc }
    } else if base == BASE_G {
        BaseComposition { g: (bc.g + 1) as u64, ..bc }
    } else if base == BASE_T {
        BaseComposition { t: (bc.t + 1) as u64, ..bc }
    } else {
        BaseComposition { n: (bc.n + 1) as u64, ..bc }
    }
}

/// No count of `bc` exceeds `b`.
pub open spec fn composition_bounded(bc: BaseComposition, b: nat) -> bool {
    bc.a <= b && bc.c <= b && bc.g <= b && bc.t <= b && bc.n <= b
}

pub open spec fn zero_composition() -> BaseComposition {
    BaseComposition { a: 0, c: 0, g: 0, t: 0, n: 0 }
}

impl BaseComposition {
    /// A composition with no base seen.
    pub fn zero() -> (r: BaseComposition)
        ensures
            r == zero_composition(),
    {
        BaseComposition { a: 0, c: 0, g: 0, t: 0, n: 0 }
    }

    /// Whether no base was seen.
    pub fn empty(&self) -> (r: bool)
        ensures
            r == (self.a == 0 && self.c == 0 && self.g == 0 && self.t == 0 && self.n == 0),
    {
        self.a == 0 && self.c == 0 && self.g == 0 && self.t == 0 && self.n == 0
    }

    /// Counts one more `base`.
    pub fn add_base(&mut self, base: u8)
        requires
            is_read_base(base),
            composition_bounded(*old(self), (u64::MAX - 1) as nat),
        ensures
            *final(self) == with_base(*old(self), base),
    {
        if base == BASE_A {
            self.a = self.a + 1;
        } else if base == BASE_C {
            self.c = self.c + 1;
        } else if base == BASE_G {
            self.g = self.g + 1;
        } else if base == BASE_T {
            self.t = self.t + 1;
        } else {
            self.n = self.n + 1;
        }
    }
}

/// The base composition of each UMI position.
pub struct UMIBaseComposition {
    pub bases: Vec<BaseComposition>,
}

impl UMIBaseComposition {
    /// Compositions for `umi_len` positions, none seen yet.
    pub fn new(umi_len: usize) -> (r: Self)
        ensures
            r.bases@ == Seq::new(umi_len as nat, |i: int| zero_composition()),
    {
        let mut bases: Vec<BaseComposition> = Vec::new();
        let mut i: usize = 0;
        while i < umi_len
            invariant
                i <= umi_len,
                bases@ == Seq::new(i as nat, |l: int| zero_composition()),
            decreases umi_len - i,
        {
            bases.push(BaseComposition::zero());
            i = i + 1;
            assert(bases@ =~= Seq::new(i as nat, |l: int| zero_composition()));
        }
        UMIBaseComposition { bases }
    }

    /// No count exceeds `b`.
    pub open spec fn bounded(&self, b: nat) -> bool {
        forall|i: int| 0 <= i < self.bases@.len() ==> composition_bounded(#[trigger] self.bases@[i], b)
    }

    /// Counts the bases of `umi`, the `i`-th at position `i`.
    pub fn add(&mut self, umi: &Vec<u8>)
        requires
            umi@.len() <= old(self).bases@.len(),
            forall|i: int| 0 <= i < umi@.len() ==> is_read_base(#[trigger] umi@[i]),
            forall|i: int| 0 <= i < umi@.len() ==> composition_bounded(#[trigger] old(self).bases@[i], (u64::MAX - 1) as nat),
        ensures
            final(self).bases@.len() == old(self).bases@.len(),
            forall|i: int|
                0 <= i < final(self).bases@.len() ==> #[trigger] final(self).bases@[i] == if i < umi@.len() {
                    with_base(old(self).bases@[i], umi@[i])
                } else {
                    old(self).bases@[i]
                },
    {
        let ghost before = self.bases@;
        let mut i: usize = 0;
        while i < umi.len()
            invariant
                umi@.len() <= before.len(),
                forall|l: int| 0 <= l < umi@.len() ==> is_read_base(#[trigger] umi@[l]),
                forall|l: int| 0 <= l < umi@.len() ==> composition_bounded(#[trigger] before[l], (u64::MAX - 1) as nat),
                i <= umi@.len(),
                self.bases@.len() == before.len(),
                forall|l: int|
                    0 <= l < before.len() ==> #[trigger] self.bases@[l] == if l < i {
                        with_base(before[l], umi@[l])
                    } else {
                        before[l]
                    },
            decreases umi@.len() - i,
        {
            let mut bc = self.bases[i];
            bc.add_base(umi[i]);
            self.bases.set(i, bc);
            i = i + 1;
        }
    }
}

/// Packs a UMI of at most 16 nucleotides into 32 bits, two per base, first base highest.
pub fn umi_code(umi: &Vec<u8>) -> (r: u32)
    requires
        umi@.len() <= 16,
        is_dna(umi@),
    ensures
        r as nat == dna_code(umi@),
{
    let mut res: u32 = 0;
    let mut i: usize = 0;
    while i < umi.len()
        invariant
            i <= umi@.len() <= 16,
            is_dna(umi@),
            res as nat == dna_code(umi@.subrange(0, i as int)),
        decreases umi@.len() - i,
    {
        let ghost prefix = umi@.subrange(0, i as int);
        assert(umi@.subrange(0, i + 1).drop_last() =~= prefix);
        let v = base_to_bits(umi[i]).unwrap();
        proof {
            lemma_code_bound(prefix);
            lemma_pow4_monotone(i as nat, 15);
            reveal_with_fuel(pow4, 16);
        }
        res = res * 4 + v as u32;
        i = i + 1;
    }
    assert(umi@.subrange(0, umi@.len() as int) =~= umi@);
    res
}

/// Decoding the packed form of a UMI of at most 16 nucleotides with its length gives the
/// UMI back.
pub proof fn lemma_umi_round_trip(umi: Seq<u8>)
    requires
        umi.len() <= 16,
        is_dna(umi),
    ensures
        dna_decode(dna_code(umi), umi.len()) == umi,
{
    lemma_dna_round_trip(umi);
}

/// How often each UMI was seen, keyed by its packed form.
pub struct UmiCounter {
    map: Tally<u32>,
}

impl View for UmiCounter {
    type V = Map<u32, u64>;

    closed spec fn view(&self) -> Map<u32, u64> {
        self.map@
    }
}

impl UmiCounter {
    pub closed spec fn wf(&self) -> bool {
        self.map.wf()
    }

    /// A counter with no UMI seen.
    pub fn new() -> (r: Self)
        ensures
            r.wf(),
            r@ == Map::<u32, u64>::empty(),
    {
        UmiCounter { map: Tally::new() }
    }

    /// The packed form of a UMI of at most 16 nucleotides.
    pub fn umi2u32(umi: &Vec<u8>) -> (r: u32)
        requires
            umi@.len() <= 16,
            is_dna(umi@),
        ensures
            r as nat == dna_code(umi@),
    {
        umi_code(umi)
    }

    /// Counts one more occurrence of `umi`.
    pub fn add(&mut self, umi: &Vec<u8>)
        requires
            old(self).wf(),
            umi@.len() <= 16,
            is_dna(umi@),
            old(self)@.contains_key(dna_code(umi@) as u32) ==> old(self)@[dna_code(umi@) as u32] < u64::MAX,
        ensures
            final(self).wf(),
            final(self)@ == old(self)@.insert(
                dna_code(umi@) as u32,
                if old(self)@.contains_key(dna_code(umi@) as u32) {
                    (old(self)@[dna_code(umi@) as u32] + 1) as u64
                } else {
                    1
                },
            ),
    {
        let code = umi_code(umi);
        assert(self.map@ == self@);
        self.map.add(code);
    }

    /// The packed UMIs seen, each once, with their counts.
    pub fn entries(&self) -> (r: Vec<(u32, u64)>)
        requires
            self.wf(),
        ensures
            r@.len() == self@.dom().len(),
            forall|i: int| 0 <= i < r@.len() ==> #[trigger] self@.contains_key(r@[i].0) && self@[r@[i].0] == r@[i].1,
            forall|i: int, j: int| 0 <= i < j < r@.len() ==> r@[i].0 != r@[j].0,
    {
        let r = self.map.entries();
        proof {
            self.map.lemma_order();
            self.map.order().unique_seq_to_set();
            assert(self@.dom() =~= self.map.order().to_set());
            assert forall|i: int| 0 <= i < r@.len() implies #[trigger] self@.contains_key(r@[i].0) && self@[r@[i].0] == r@[i].1 by {
                assert(self.map.order().contains(r@[i].0));
            }
        }
        r
    }
}

/// For each barcode position, how often each whitelist index was seen there.
pub struct BarcodePartCounterMaps {
    maps: Vec<Tally<usize>>,
}

impl BarcodePartCounterMaps {
    /// The histogram of each position.
    pub closed spec fn histograms(&self) -> Seq<Map<usize, u64>> {
        self.maps@.map_values(|t: Tally<usize>| t@)
    }

    pub closed spec fn wf(&self) -> bool {
        forall|i: int| 0 <= i < self.maps@.len() ==> (#[trigger] self.maps@[i]).wf()
    }

    /// No count exceeds `b`.
    pub open spec fn bounded(&self, b: nat) -> bool {
        forall|i: int, k: usize|
            0 <= i < self.histograms().len() && #[trigger] self.histograms()[i].contains_key(k)
                ==> self.histograms()[i][k] <= b
    }

    /// Empty histograms for `barcode_count` positions.
    pub fn new(barcode_count: usize) -> (r: Self)
        ensures
            r.wf(),
            r.histograms() == Seq::new(barcode_count as nat, |i: int| Map::<usize, u64>::empty()),
    {
        let mut maps: Vec<Tally<usize>> = Vec::new();
        let mut i: usize = 0;
        while i < barcode_count
            invariant
                i <= barcode_count,
                maps@.len() == i,
                forall|l: int| 0 <= l < i ==> (#[trigger] maps@[l]).wf() && maps@[l]@ == Map::<usize, u64>::empty(),
            decreases barcode_count - i,
        {
            maps.push(Tally::new());
            i = i + 1;
        }
        let r = BarcodePartCounterMaps { maps };
        assert(r.histograms() =~= Seq::new(barcode_count as nat, |i: int| Map::<usize, u64>::empty()));
        r
    }

    /// Counts one more sighting of whitelist index `index` at barcode position `position`.
    pub fn add(&mut self, index: usize, position: usize)
        requires
            old(self).wf(),
            position < old(self).histograms().len(),
            old(self).histograms()[position as int].contains_key(index) ==> old(self).histograms()[position as int][index] < u64::MAX,
        ensures
            final(self).wf(),
            final(self).histograms() == old(self).histograms().update(
                position as int,
                old(self).histograms()[position as int].insert(
                    index,
                    if old(self).histograms()[position as int].contains_key(index) {
                        (old(self).histograms()[position as int][index] + 1) as u64
                    } else {
                        1
                    },
                ),
            ),
    {
        let ghost h = self.histograms();
        assert(h[position as int] == self.maps@[position as int]@);
        self.maps[position].add(index);
        assert(self.histograms() =~= h.update(
            position as int,
            h[position as int].insert(
                index,
                if h[position as int].contains_key(index) {
                    (h[position as int][index] + 1) as u64
                } else {
                    1
                },
            ),
        ));
    }

    /// The number of positions.
    pub fn len(&self) -> (r: usize)
        ensures
            r == self.histograms().len(),
    {
        self.maps.len()
    }

    /// The whitelist indices seen at `position`, each once, with their counts.
    pub fn entries(&self, position: usize) -> (r: Vec<(usize, u64)>)
        requires
            self.wf(),
            position < self.histograms().len(),
        ensures
            forall|i: int| 0 <= i < r@.len() ==> #[trigger] self.histograms()[position as int].contains_key(r@[i].0)
                && self.histograms()[position as int][r@[i].0] == r@[i].1,
            forall|k: usize| #[trigger] self.histograms()[position as int].contains_key(k) ==> exists|i: int|
                0 <= i < r@.len() && r@[i].0 == k,
            forall|i: int, j: int| 0 <= i < j < r@.len() ==> r@[i].0 != r@[j].0,
    {
        proof {
            self.maps@[position as int].lemma_order();
        }
        let r = self.maps[position].entries();
        assert forall|k: usize| #[trigger] self.histograms()[position as int].contains_key(k) implies exists|i: int|
            0 <= i < r@.len() && r@[i].0 == k by {
            assert(self.maps@[position as int].order().contains(k));
            let i = choose|i: int| 0 <= i < self.maps@[position as int].order().len() && self.maps@[position as int].order()[i] == k;
            assert(r@[i].0 == k);
        }
        assert forall|i: int| 0 <= i < r@.len() implies #[trigger] self.histograms()[position as int].contains_key(r@[i].0)
            && self.histograms()[position as int][r@[i].0] == r@[i].1 by {
            assert(self.maps@[position as int].order().contains(r@[i].0));
        }
        r
    }
}

proof fn lemma_digit_unique(x1: int, d1: int, x2: int, d2: int, p: int)
    requires
        0 <= x1 < p,
        0 <= x2 < p,
        0 <= d1,
        0 <= d2,
        x1 + d1 * p == x2 + d2 * p,
    ensures
        d1 == d2,
        x1 == x2,
{
    if d1 < d2 {
        assert(d1 * p + p <= d2 * p) by (nonlinear_arith)
            requires
                d1 < d2,
                p > 0,
        ;
    } else if d2 < d1 {
        assert(d2 * p + p <= d1 * p) by (nonlinear_arith)
            requires
                d2 < d1,
                p > 0,
        ;
    }
}

pub const EDGE_SHIFT: u128 = 0x1_0000_0000_0000_0000;

/// The key of the edge that leaves node `n` along index `i`.
pub open spec fn edge_key(n: int, i: int) -> int {
    n * EDGE_SHIFT + i
}

/// Edge keys tell their node and index apart.
proof fn lemma_edge_key_unique(n1: int, i1: int, n2: int, i2: int)
    requires
        0 <= n1,
        0 <= n2,
        0 <= i1 <= usize::MAX,
        0 <= i2 <= usize::MAX,
        edge_key(n1, i1) == edge_key(n2, i2),
    ensures
        n1 == n2,
        i1 == i2,
{
    lemma_digit_unique(i1, n1, i2, n2, EDGE_SHIFT as int);
}

/// The packed UMIs seen with each index tuple. Tuples are kept in a trie: node 0 stands
/// for the empty tuple, and the edge from a node along an index leads to the node of the
/// tuple one index longer; the counter of a node holds the UMIs of its tuple.
pub struct BarcodeUmiCounter {
    edges: std::collections::HashMap<u128, usize>,
    paths: Vec<Vec<usize>>,
    counters: Vec<UmiCounter>,
    ended: Vec<bool>,
    order: Vec<usize>,
    nodes: Ghost<Map<Seq<usize>, usize>>,
}

impl View for BarcodeUmiCounter {
    type V = Map<Seq<usize>, Map<u32, u64>>;

    closed spec fn view(&self) -> Map<Seq<usize>, Map<u32, u64>> {
        Map::new(
            |key: Seq<usize>| self.nodes@.contains_key(key) && self.ended@[self.nodes@[key] as int],
            |key: Seq<usize>| self.counters@[self.nodes@[key] as int]@,
        )
    }
}

impl BarcodeUmiCounter {
    closed spec fn nodes_ok(&self) -> bool {
        let n = self.paths@.len();
        &&& n >= 1
        &&& self.counters@.len() == n
        &&& self.ended@.len() == n
        &&& self.nodes@.contains_key(Seq::empty())
        &&& self.nodes@[Seq::empty()] == 0
        &&& forall|m: int|
            0 <= m < n ==> #[trigger] self.nodes@.contains_key(self.paths@[m]@) && self.nodes@[self.paths@[m]@] == m
                && self.counters@[m].wf() && (!self.ended@[m] ==> self.counters@[m]@ == Map::<u32, u64>::empty())
        &&& forall|key: Seq<usize>| #[trigger]
            self.nodes@.contains_key(key) ==> self.nodes@[key] < n && self.paths@[self.nodes@[key] as int]@ == key
        &&& forall|key: Seq<usize>| #[trigger]
            self.nodes@.contains_key(key) && key.len() > 0 ==> self.nodes@.contains_key(key.drop_last())
    }

    closed spec fn edges_ok(&self) -> bool {
        let n = self.paths@.len();
        &&& n <= usize::MAX + 1
        &&& forall|c: u128| #[trigger] self.edges@.contains_key(c) ==> (c as int) < edge_key(n as int, 0)
        &&& forall|m: int, i: usize|
            #![trigger self.edges@.contains_key(edge_key(m, i as int) as u128)]
            #![trigger self.nodes@.contains_key(self.paths@[m]@.push(i))]
            0 <= m < n ==> (self.edges@.contains_key(edge_key(m, i as int) as u128) <==> self.nodes@.contains_key(
                self.paths@[m]@.push(i),
            )) && (self.edges@.contains_key(edge_key(m, i as int) as u128) ==> self.edges@[edge_key(
                m,
                i as int,
            ) as u128] == self.nodes@[self.paths@[m]@.push(i)])
    }

    closed spec fn order_ok(&self) -> bool {
        &&& forall|t: int|
            0 <= t < self.order@.len() ==> #[trigger] self.order@[t] < self.paths@.len() && self.ended@[self.order@[t] as int]
        &&& forall|t1: int, t2: int| 0 <= t1 < t2 < self.order@.len() ==> self.order@[t1] != self.order@[t2]
        &&& forall|m: int|
            0 <= m < self.paths@.len() && #[trigger] self.ended@[m] ==> exists|t: int| 0 <= t < self.order@.len() && self.order@[t] == m
    }

    pub closed spec fn wf(&self) -> bool {
        &&& obeys_key_model::<u128>()
        &&& self.nodes_ok()
        &&& self.edges_ok()
        &&& self.order_ok()
    }

    /// No UMI was seen more than `b` times with any one index tuple.
    pub open spec fn bounded(&self, b: nat) -> bool {
        forall|key: Seq<usize>, u: u32|
            #[trigger] self@.contains_key(key) && #[trigger] self@[key].contains_key(u) ==> self@[key][u] <= b
    }

    /// A counter with no tuple seen.
    pub fn new() -> (r: Self)
        ensures
            r.wf(),
            r@ == Map::<Seq<usize>, Map<u32, u64>>::empty(),
    {
        let mut paths: Vec<Vec<usize>> = Vec::new();
        paths.push(Vec::new());
        let mut counters: Vec<UmiCounter> = Vec::new();
        counters.push(UmiCounter::new());
        let mut ended: Vec<bool> = Vec::new();
        ended.push(false);
        let r = BarcodeUmiCounter {
            edges: std::collections::HashMap::new(),
            paths,
            counters,
            ended,
            order: Vec::new(),
            nodes: Ghost(Map::empty().insert(Seq::empty(), 0usize)),
        };
        proof {
            assert(r.paths@[0]@ =~= Seq::<usize>::empty());
            assert forall|m: int, i: usize|
                #![trigger r.edges@.contains_key(edge_key(m, i as int) as u128)]
                #![trigger r.nodes@.contains_key(r.paths@[m]@.push(i))]
                0 <= m < 1 implies !r.nodes@.contains_key(r.paths@[m]@.push(i)) by {
                assert(r.paths@[m]@.push(i).len() == 1);
            }
            assert(r@ =~= Map::<Seq<usize>, Map<u32, u64>>::empty());
        }
        r
    }

    /// The first four indices of a tuple, one byte each, the first highest; missing
    /// indices count as 0 and each index is cut to its lowest eight bits.
    pub fn barcodes2u32(indices: &Vec<usize>) -> (r: u32)
        requires
            indices@.len() >= 1,
        ensures
            r as nat == packed_indices(indices@),
    {
        let mut res: u32 = 0;
        let mut i: usize = 0;
        while i < 4
            invariant
                i <= 4,
                res as nat == packed_prefix(indices@, i as int),
            decreases 4 - i,
        {
            let b: u32 = if i < indices.len() {
                (indices[i] % 256) as u32
            } else {
                0
            };
            assert(res * 256 + b <= u32::MAX) by {
                lemma_packed_prefix_bound(indices@, i as int);
                assert(packed_prefix(indices@, i as int) < pow256(i as nat));
                lemma_pow256_le(i as nat);
            }
            res = res * 256 + b;
            i = i + 1;
        }
        res
    }

    /// Counts one more sighting of `umi` with the index tuple `barcode_indices`.
    pub fn add(&mut self, barcode_indices: &[usize], umi: &Vec<u8>)
        requires
            old(self).wf(),
            umi@.len() <= 16,
            is_dna(umi@),
            (old(self)@.contains_key(barcode_indices@) && old(self)@[barcode_indices@].contains_key(dna_code(umi@) as u32))
                ==> old(self)@[barcode_indices@][dna_code(umi@) as u32] < u64::MAX,
        ensures
            final(self).wf(),
            ({
                let key = barcode_indices@;
                let u = dna_code(umi@) as u32;
                let h = if old(self)@.contains_key(key) {
                    old(self)@[key]
                } else {
                    Map::empty()
                };
                final(self)@ == old(self)@.insert(
                    key,
                    h.insert(
                        u,
                        if h.contains_key(u) {
                            (h[u] + 1) as u64
                        } else {
                            1
                        },
                    ),
                )
            }),
    {
        let ghost before = self@;
        let ghost key = barcode_indices@;
        let mut cur: usize = 0;
        let mut i: usize = 0;
        proof {
            assert(key.subrange(0, 0) =~= Seq::<usize>::empty());
            assert(self.paths@[self.nodes@[Seq::empty()] as int]@ == Seq::<usize>::empty());
        }
        while i < barcode_indices.len()
            invariant
                self.wf(),
                self@ == before,
                key == barcode_indices@,
                i <= key.len(),
                cur < self.paths@.len(),
                self.paths@[cur as int]@ == key.subrange(0, i as int),
                self.nodes@.contains_key(key.subrange(0, i as int)),
                self.nodes@[key.subrange(0, i as int)] == cur,
            decreases key.len() - i,
        {
            let idx = barcode_indices[i];
            let ghost next = key.subrange(0, i + 1);
            assert(next =~= self.paths@[cur as int]@.push(idx));
            assert((cur as int) * (EDGE_SHIFT as int) + idx <= u128::MAX) by (nonlinear_arith)
                requires
                    cur <= usize::MAX,
                    idx <= usize::MAX,
                    usize::MAX <= 0xffff_ffff_ffff_ffffu64,
            ;
            let c: u128 = (cur as u128) * EDGE_SHIFT + idx as u128;
            assert(c as int == edge_key(cur as int, idx as int));
            match self.edges.get(&c) {
                Some(m) => {
                    cur = *m;
                },
                None => {
                    let n = self.paths.len();
                    let mut path = copy_indices(&self.paths[cur]);
                    path.push(idx);
                    assert(path@ == next);
                    let ghost old_self_nodes = self.nodes@;
                    let ghost old_paths = self.paths@;
                    let ghost old_edges = self.edges@;
                    let ghost old_ended = self.ended@;
                    assert(!old_self_nodes.contains_key(next));
                    self.paths.push(path);
                    self.counters.push(UmiCounter::new());
                    self.ended.push(false);
                    self.edges.insert(c, n);
                    self.nodes = Ghost(self.nodes@.insert(next, n));
                    proof {
                        assert(n <= usize::MAX);
                        // the new node
                        assert forall|m: int|
                            0 <= m < n + 1 implies #[trigger] self.nodes@.contains_key(self.paths@[m]@)
                                && self.nodes@[self.paths@[m]@] == m && self.counters@[m].wf() && (!self.ended@[m]
                                ==> self.counters@[m]@ == Map::<u32, u64>::empty()) by {
                            if m < n {
                                assert(old_self_nodes.contains_key(old_paths[m]@));
                                assert(old_paths[m]@ != next);
                            }
                        }
                        assert forall|key2: Seq<usize>| #[trigger] self.nodes@.contains_key(key2) && key2.len() > 0
                            implies self.nodes@.contains_key(key2.drop_last()) by {
                            if key2 == next {
                                assert(next.drop_last() =~= key.subrange(0, i as int));
                            }
                        }
                        assert forall|c2: u128| #[trigger] self.edges@.contains_key(c2) implies (c2 as int)
                            < edge_key((n + 1) as int, 0) by {
                            if c2 != c {
                                assert(old_edges.contains_key(c2));
                            }
                            assert(edge_key(n as int, 0) <= edge_key((n + 1) as int, 0));
                            assert(edge_key(cur as int, idx as int) < edge_key((cur + 1) as int, 0));
                            assert(edge_key((cur + 1) as int, 0) <= edge_key(n as int, 0)) by (nonlinear_arith)
                                requires
                                    cur + 1 <= n,
                            ;
                        }
                        assert forall|m: int, i2: usize|
                            #![trigger self.edges@.contains_key(edge_key(m, i2 as int) as u128)]
                            #![trigger self.nodes@.contains_key(self.paths@[m]@.push(i2))]
                            0 <= m < n + 1 implies (self.edges@.contains_key(edge_key(m, i2 as int) as u128)
                                <==> self.nodes@.contains_key(self.paths@[m]@.push(i2))) && (self.edges@.contains_key(
                                edge_key(m, i2 as int) as u128,
                            ) ==> self.edges@[edge_key(m, i2 as int) as u128] == self.nodes@[self.paths@[m]@.push(
                                i2,
                            )]) by {
                            let k2 = edge_key(m, i2 as int);
                            assert(0 <= k2 <= u128::MAX) by (nonlinear_arith)
                                requires
                                    0 <= m <= usize::MAX,
                                    i2 <= usize::MAX,
                                    usize::MAX <= 0xffff_ffff_ffff_ffffu64,
                                    k2 == m * EDGE_SHIFT + i2,
                            ;
                            if m == n {
                                assert(edge_key(n as int, 0) <= k2) by (nonlinear_arith)
                                    requires
                                        k2 == n * EDGE_SHIFT + i2,
                                        i2 >= 0,
                                ;
                                assert(!old_edges.contains_key(k2 as u128));
                                assert(k2 != c) by {
                                    if k2 == c as int {
                                        lemma_edge_key_unique(m, i2 as int, cur as int, idx as int);
                                    }
                                }
                                let p2 = self.paths@[m]@.push(i2);
                                assert(p2 != next);
                                if old_self_nodes.contains_key(p2) {
                                    assert(old_self_nodes.contains_key(p2.drop_last()));
                                    assert(p2.drop_last() =~= next);
                                }
                            } else {
                                assert(self.paths@[m] == old_paths[m]);
                                let p2 = old_paths[m]@.push(i2);
                                assert(old_edges.contains_key(k2 as u128) == old_self_nodes.contains_key(p2));
                                assert(old_edges.contains_key(k2 as u128) ==> old_edges[k2 as u128] == old_self_nodes[p2]);
                                assert(old_self_nodes.contains_key(old_paths[m]@));
                                if k2 == c as int {
                                    lemma_edge_key_unique(m, i2 as int, cur as int, idx as int);
                                    assert(p2 =~= next);
                                } else {
                                    if p2 == next {
                                        assert(p2.drop_last() =~= old_paths[m]@);
                                        assert(next.drop_last() =~= key.subrange(0, i as int));
                                        assert(old_self_nodes[old_paths[m]@] == m);
                                        assert(p2.last() == i2 && next.last() == idx);
                                        assert(k2 == c as int);
                                    }
                                }
                            }
                        }
                        assert forall|t: int| 0 <= t < self.order@.len() implies #[trigger] self.order@[t] < self.paths@.len()
                            && self.ended@[self.order@[t] as int] by {}
                        assert forall|m: int| 0 <= m < self.paths@.len() && #[trigger] self.ended@[m] implies exists|t: int|
                            0 <= t < self.order@.len() && self.order@[t] == m by {
                            assert(self.ended@[m] == old_ended.push(false)[m]);
                            assert(m < n);
                            assert(old_ended[m]);
                            let t = choose|t: int| 0 <= t < self.order@.len() && self.order@[t] == m;
                        }
                        assert(self@ =~= before);
                    }
                    cur = n;
                },
            }
            i = i + 1;
        }
        assert(key.subrange(0, key.len() as int) =~= key);
        let ghost h0 = self.counters@[cur as int]@;
        proof {
            if h0.contains_key(dna_code(umi@) as u32) {
                assert(self.ended@[cur as int]);
                assert(before.contains_key(key));
            }
        }
        let ghost counters_before = self.counters@;
        let ghost ended_before = self.ended@;
        let ghost order_before = self.order@;
        self.counters[cur].add(umi);
        let ghost was_ended = self.ended@[cur as int];
        if !self.ended[cur] {
            self.ended.set(cur, true);
            self.order.push(cur);
        }
        proof {
            assert forall|t: int| 0 <= t < self.order@.len() implies #[trigger] self.order@[t] < self.paths@.len()
                && self.ended@[self.order@[t] as int] by {}
            assert forall|t1: int, t2: int| 0 <= t1 < t2 < self.order@.len() implies self.order@[t1] != self.order@[t2] by {
                if !was_ended && t2 == self.order@.len() - 1 {
                    assert(self.ended@[self.order@[t1] as int]);
                }
            }
            assert forall|m: int| 0 <= m < self.paths@.len() && #[trigger] self.ended@[m] implies exists|t: int|
                0 <= t < self.order@.len() && self.order@[t] == m by {
                if m == cur && !was_ended {
                    assert(self.order@[self.order@.len() - 1] == m);
                } else {
                    assert(ended_before[m]);
                    let t = choose|t: int| 0 <= t < order_before.len() && order_before[t] == m;
                    assert(self.order@[t] == m);
                }
            }
            assert forall|m: int|
                0 <= m < self.paths@.len() implies #[trigger] self.nodes@.contains_key(self.paths@[m]@)
                    && self.nodes@[self.paths@[m]@] == m && self.counters@[m].wf() && (!self.ended@[m]
                    ==> self.counters@[m]@ == Map::<u32, u64>::empty()) by {
                if m != cur {
                    assert(self.counters@[m] == counters_before[m]);
                    assert(self.ended@[m] == ended_before[m]);
                }
            }
            let u = dna_code(umi@) as u32;
            let h = if before.contains_key(key) { before[key] } else { Map::empty() };
            assert(h == h0);
            assert forall|key2: Seq<usize>| #[trigger] self@.contains_key(key2) == before.insert(key, h.insert(u, if h.contains_key(u) { (h[u] + 1) as u64 } else { 1 })).contains_key(key2)
                && (self@.contains_key(key2) ==> self@[key2] == before.insert(key, h.insert(u, if h.contains_key(u) { (h[u] + 1) as u64 } else { 1 }))[key2]) by {
                if key2 != key && self.nodes@.contains_key(key2) {
                    assert(self.nodes@[key2] != cur);
                }
            }
            assert(self@ =~= before.insert(key, h.insert(u, if h.contains_key(u) { (h[u] + 1) as u64 } else { 1 })));
        }
    }

    /// The index tuples seen, each once, with the packed UMIs seen with it and their
    /// counts.
    pub fn entries(&self) -> (r: Vec<(Vec<usize>, Vec<(u32, u64)>)>)
        requires
            self.wf(),
        ensures
            forall|i: int| 0 <= i < r@.len() ==> #[trigger] self@.contains_key(r@[i].0@) && lists_histogram(
                self@[r@[i].0@],
                r@[i].1@,
            ),
            forall|key: Seq<usize>| #[trigger] self@.contains_key(key) ==> exists|i: int| 0 <= i < r@.len() && r@[i].0@ == key,
            forall|i: int, j: int| 0 <= i < j < r@.len() ==> r@[i].0@ != r@[j].0@,
    {
        let mut out: Vec<(Vec<usize>, Vec<(u32, u64)>)> = Vec::new();
        let mut t: usize = 0;
        while t < self.order.len()
            invariant
                self.wf(),
                t <= self.order@.len(),
                out@.len() == t,
                forall|l: int| 0 <= l < t ==> #[trigger] out@[l].0@ == self.paths@[self.order@[l] as int]@ && lists_histogram(
                    self.counters@[self.order@[l] as int]@,
                    out@[l].1@,
                ),
            decreases self.order@.len() - t,
        {
            let n = self.order[t];
            assert(n < self.paths@.len());
            assert(self.nodes@.contains_key(self.paths@[n as int]@));
            let key = copy_indices(&self.paths[n]);
            let umis = self.counters[n].entries();
            let ghost prev = out@;
            out.push((key, umis));
            assert forall|l: int| 0 <= l < t + 1 implies #[trigger] out@[l].0@ == self.paths@[self.order@[l] as int]@
                && lists_histogram(self.counters@[self.order@[l] as int]@, out@[l].1@) by {
                if l < t {
                    assert(out@[l] == prev[l]);
                }
            }
            t = t + 1;
        }
        assert forall|l: int| 0 <= l < out@.len() implies #[trigger] self@.contains_key(out@[l].0@) && lists_histogram(
            self@[out@[l].0@],
            out@[l].1@,
        ) by {
            let n = self.order@[l] as int;
            assert(self.nodes@.contains_key(self.paths@[n]@));
        }
        assert forall|key: Seq<usize>| #[trigger] self@.contains_key(key) implies exists|i: int| 0 <= i < out@.len() && out@[i].0@ == key by {
            let m = self.nodes@[key] as int;
            assert(self.ended@[m]);
            let t2 = choose|t2: int| 0 <= t2 < self.order@.len() && self.order@[t2] == m;
            assert(out@[t2].0@ == key);
        }
        assert forall|i: int, j: int| 0 <= i < j < out@.len() implies out@[i].0@ != out@[j].0@ by {
            let a = self.order@[i] as int;
            let b = self.order@[j] as int;
            assert(self.nodes@.contains_key(self.paths@[a]@));
            assert(self.nodes@.contains_key(self.paths@[b]@));
        }
        out
    }
}

/// `e` lists the packed UMIs of histogram `m` with their counts, each once.
pub open spec fn lists_histogram(m: Map<u32, u64>, e: Seq<(u32, u64)>) -> bool {
    &&& m.dom().len() == e.len()
    &&& forall|j: int| 0 <= j < e.len() ==> #[trigger] m.contains_key(e[j].0) && m[e[j].0] == e[j].1
    &&& forall|i: int, j: int| 0 <= i < j < e.len() ==> e[i].0 != e[j].0
}

fn copy_indices(v: &Vec<usize>) -> (r: Vec<usize>)
    ensures
        r@ == v@,
{
    let mut out: Vec<usize> = Vec::new();
    let mut i: usize = 0;
    while i < v.len()
        invariant
            i <= v@.len(),
            out@ == v@.subrange(0, i as int),
        decreases v@.len() - i,
    {
        out.push(v[i]);
        i = i + 1;
    }
    assert(v@.subrange(0, v@.len() as int) =~= v@);
    out
}

pub open spec fn pow256(n: nat) -> nat
    decreases n,
{
    if n == 0 {
        1
    } else {
        256 * pow256((n - 1) as nat)
    }
}

/// The byte that stands for index `i` of a tuple in its packed form: 0 past the end.
pub open spec fn index_byte(indices: Seq<usize>, i: int) -> nat {
    if i < indices.len() {
        (indices[i] % 256) as nat
    } else {
        0
    }
}

/// The first `n` bytes of the packed form, as a number.
pub open spec fn packed_prefix(indices: Seq<usize>, n: int) -> nat
    decreases n,
{
    if n <= 0 {
        0
    } else {
        packed_prefix(indices, n - 1) * 256 + index_byte(indices, n - 1)
    }
}

/// The first four indices of a tuple packed one byte each, the first highest.
pub open spec fn packed_indices(indices: Seq<usize>) -> nat {
    packed_prefix(indices, 4)
}

proof fn lemma_packed_prefix_bound(indices: Seq<usize>, n: int)
    requires
        0 <= n,
    ensures
        packed_prefix(indices, n) < pow256(n as nat),
    decreases n,
{
    if n > 0 {
        lemma_packed_prefix_bound(indices, n - 1);
        let x = packed_prefix(indices, n - 1);
        let p = pow256((n - 1) as nat);
        let b = index_byte(indices, n - 1);
        assert(x * 256 + b < 256 * p) by (nonlinear_arith)
            requires
                x < p,
                b < 256,
        ;
    }
}

proof fn lemma_pow256_le(n: nat)
    requires
        n <= 3,
    ensures
        pow256(n) * 256 <= 0x1_0000_0000,
{
    reveal_with_fuel(pow256, 4);
}

/// The distinct canonical constructs emitted, kept in a hash set of the `hashbrown` crate.
#[verifier::external_body]
pub struct Whitelist {
    set: hashbrown::HashSet<Vec<u8>>,
}

/// The byte strings that a whitelist set holds.
pub uninterp spec fn whitelist_contents(w: Whitelist) -> Set<Seq<u8>>;

impl Whitelist {
    /// Relies on `hashbrown::HashSet::new`: the set starts empty.
    #[verifier::external_body]
    pub fn new() -> (r: Whitelist)
        ensures
            whitelist_contents(r) == Set::<Seq<u8>>::empty(),
    {
        Whitelist { set: hashbrown::HashSet::new() }
    }

    /// Relies on `hashbrown::HashSet::insert`: afterwards the set holds `v` besides what
    /// it held.
    #[verifier::external_body]
    pub fn insert(&mut self, v: Vec<u8>)
        ensures
            whitelist_contents(*final(self)) == whitelist_contents(*old(self)).insert(v@),
    {
        self.set.insert(v);
    }

    /// Relies on `hashbrown::HashSet::len`: the number of elements of the set.
    #[verifier::external_body]
    pub fn len(&self) -> (r: usize)
        ensures
            r == whitelist_contents(*self).len(),
    {
        self.set.len()
    }

    /// Relies on `hashbrown::HashSet::iter`: each element of the set once, in an order
    /// that the set picks.
    #[verifier::external_body]
    pub fn to_vec(&self) -> (r: Vec<Vec<u8>>)
        ensures
            forall|i: int| 0 <= i < r@.len() ==> whitelist_contents(*self).contains(#[trigger] r@[i]@),
            forall|s: Seq<u8>| #[trigger] whitelist_contents(*self).contains(s) ==> exists|i: int|
                0 <= i < r@.len() && r@[i]@ == s,
            forall|i: int, j: int| 0 <= i < j < r@.len() ==> r@[i]@ != r@[j]@,
    {
        self.set.iter().cloned().collect()
    }
}

/// The sum of the counts.
pub open spec fn total_of(s: Seq<usize>) -> int
    decreases s.len(),
{
    if s.len() == 0 {
        0
    } else {
        total_of(s.drop_last()) + s.last()
    }
}

pub proof fn lemma_total_update(s: Seq<usize>, i: int, v: usize)
    requires
        0 <= i < s.len(),
    ensures
        total_of(s.update(i, v)) == total_of(s) - s[i] + v,
    decreases s.len(),
{
    if i < s.len() - 1 {
        assert(s.update(i, v).drop_last() =~= s.drop_last().update(i, v));
        lemma_total_update(s.drop_last(), i, v);
    } else {
        assert(s.update(i, v).drop_last() =~= s.drop_last());
    }
}

pub proof fn lemma_total_ge(s: Seq<usize>, i: int)
    requires
        0 <= i < s.len(),
    ensures
        total_of(s) >= s[i],
        total_of(s) >= 0,
    decreases s.len(),
{
    lemma_total_nonneg(s.drop_last());
    if i < s.len() - 1 {
        lemma_total_ge(s.drop_last(), i);
    }
}

proof fn lemma_total_nonneg(s: Seq<usize>)
    ensures
        total_of(s) >= 0,
    decreases s.len(),
{
    if s.len() > 0 {
        lemma_total_nonneg(s.drop_last());
    }
}

proof fn lemma_total_zero(n: nat)
    ensures
        total_of(Seq::new(n, |i: int| 0usize)) == 0,
    decreases n,
{
    if n > 0 {
        assert(Seq::new(n, |i: int| 0usize).drop_last() =~= Seq::new((n - 1) as nat, |i: int| 0usize));
        lemma_total_zero((n - 1) as nat);
    }
}

/// The UMI positions whose base composition is kept.
pub const UMI_POSITIONS: usize = 16;

/// The statistics of a run.
pub struct Statistics {
    pub total_reads: usize,
    pub passing_reads: usize,
    pub whitelist_size: usize,
    pub num_filtered: Vec<usize>,
    pub num_filtered_umi: usize,
    pub whitelist: Whitelist,
    pub counter_maps: BarcodePartCounterMaps,
    pub barcode_umi_counter: BarcodeUmiCounter,
    pub umi_base_composition: UMIBaseComposition,
}

impl Statistics {
    /// The statistics fit the construct of `config`, and no count exceeds the passing reads.
    pub open spec fn wf_for(&self, config: &Config) -> bool {
        let k = config.segments().len();
        &&& self.num_filtered@.len() == k
        &&& self.counter_maps.wf()
        &&& self.counter_maps.histograms().len() == k
        &&& self.barcode_umi_counter.wf()
        &&& self.umi_base_composition.bases@.len() == UMI_POSITIONS
        &&& self.counter_maps.bounded(self.passing_reads as nat)
        &&& self.barcode_umi_counter.bounded(self.passing_reads as nat)
        &&& self.umi_base_composition.bounded(self.passing_reads as nat)
    }

    /// Every read counted is passing or was filtered at exactly one place.
    pub open spec fn balanced(&self) -> bool {
        self.passing_reads + total_of(self.num_filtered@) + self.num_filtered_umi == self.total_reads
    }

    /// Statistics with nothing counted, for a construct of `barcode_count` positions.
    pub fn new(barcode_count: usize) -> (r: Self)
        ensures
            forall|config: &Config| #[trigger] config.segments().len() == barcode_count ==> r.wf_for(config),
            r.balanced(),
            r.total_reads == 0,
            r.passing_reads == 0,
            r.num_filtered_umi == 0,
            r.whitelist_size == 0,
            r.num_filtered@ == Seq::new(barcode_count as nat, |i: int| 0usize),
            whitelist_contents(r.whitelist) == Set::<Seq<u8>>::empty(),
            r.counter_maps.histograms() == Seq::new(barcode_count as nat, |i: int| Map::<usize, u64>::empty()),
            r.barcode_umi_counter@ == Map::<Seq<usize>, Map<u32, u64>>::empty(),
            r.umi_base_composition.bases@ == Seq::new(UMI_POSITIONS as nat, |i: int| zero_composition()),
    {
        let k = barcode_count;
        let mut num_filtered: Vec<usize> = Vec::new();
        let mut i: usize = 0;
        while i < k
            invariant
                i <= k,
                num_filtered@ == Seq::new(i as nat, |l: int| 0usize),
            decreases k - i,
        {
            num_filtered.push(0);
            i = i + 1;
            assert(num_filtered@ =~= Seq::new(i as nat, |l: int| 0usize));
        }
        proof {
            lemma_total_zero(k as nat);
        }
        let r = Statistics {
            total_reads: 0,
            passing_reads: 0,
            whitelist_size: 0,
            num_filtered,
            num_filtered_umi: 0,
            whitelist: Whitelist::new(),
            counter_maps: BarcodePartCounterMaps::new(k),
            barcode_umi_counter: BarcodeUmiCounter::new(),
            umi_base_composition: UMIBaseComposition::new(UMI_POSITIONS),
        };
        r
    }

    /// Sets the number of distinct constructs emitted.
    pub fn calculate_metrics(&mut self)
        ensures
            final(self).whitelist_size == whitelist_contents(old(self).whitelist).len(),
            final(self).total_reads == old(self).total_reads,
            final(self).passing_reads == old(self).passing_reads,
            final(self).num_filtered == old(self).num_filtered,
            final(self).num_filtered_umi == old(self).num_filtered_umi,
            final(self).whitelist == old(self).whitelist,
            final(self).counter_maps == old(self).counter_maps,
            final(self).barcode_umi_counter == old(self).barcode_umi_counter,
            final(self).umi_base_composition == old(self).umi_base_composition,
    {
        self.whitelist_size = self.whitelist.len();
    }
}


/// The counts are in ascending order.
pub open spec fn ascending(s: Seq<u64>) -> bool {
    forall|i: int, j: int| 0 <= i <= j < s.len() ==> s[i] <= s[j]
}

/// The sum of the counts.
pub open spec fn count_sum(s: Seq<u64>) -> int
    decreases s.len(),
{
    if s.len() == 0 {
        0
    } else {
        count_sum(s.drop_last()) + s.last()
    }
}

/// Relies on `slice::sort_unstable`: afterwards the counts stand in ascending order, each
/// value as many times as before.
#[verifier::external_body]
fn sort_counts(v: &mut Vec<u64>)
    ensures
        final(v)@.to_multiset() == old(v)@.to_multiset(),
        ascending(final(v)@),
{
    v.sort_unstable();
}

/// The summary of the UMI counts of one index tuple.
#[derive(Debug, Clone, Copy, PartialEq, Eq)]
pub struct UmiSummary {
    /// All sightings.
    pub total: u128,
    /// Distinct UMIs.
    pub unique: usize,
    /// The count at rank `n / 2` in ascending order.
    pub median: u64,
    /// The count at rank `n / 4`.
    pub q25: u64,
    /// The count at rank `3 * n / 4`.
    pub q75: u64,
}

/// Sums, counts and ranks the UMI counts of one index tuple; `None` for no count.
pub fn summarize_counts(counts: Vec<u64>) -> (r: Option<UmiSummary>)
    ensures
        counts@.len() == 0 <==> r is None,
        r matches Some(m) ==> {
            &&& m.total == count_sum(counts@)
            &&& m.unique == counts@.len()
            &&& exists|s: Seq<u64>|
                {
                    &&& ascending(s)
                    &&& s.to_multiset() == counts@.to_multiset()
                    &&& s.len() == counts@.len()
                    &&& m.median == s[(s.len() / 2) as int]
                    &&& m.q25 == s[(s.len() / 4) as int]
                    &&& m.q75 == s[((3 * s.len()) / 4) as int]
                }
        },
{
    let n = counts.len();
    if n == 0 {
        return None;
    }
    let mut total: u128 = 0;
    let mut i: usize = 0;
    while i < n
        invariant
            n == counts@.len(),
            i <= n,
            total == count_sum(counts@.subrange(0, i as int)),
            total <= i * 0xffff_ffff_ffff_ffffu128,
        decreases n - i,
    {
        assert(counts@.subrange(0, i + 1).drop_last() =~= counts@.subrange(0, i as int));
        assert((i + 1) * 0xffff_ffff_ffff_ffffu128 <= 0xffff_ffff_ffff_ffff_ffff_ffff_ffff_ffffu128) by (nonlinear_arith)
            requires
                i < n,
                n <= usize::MAX,
                usize::MAX <= 0xffff_ffff_ffff_ffffu64,
        ;
        assert(total + counts@[i as int] <= (i + 1) * 0xffff_ffff_ffff_ffffu128) by (nonlinear_arith)
            requires
                total <= i * 0xffff_ffff_ffff_ffffu128,
                counts@[i as int] <= 0xffff_ffff_ffff_ffffu64,
        ;
        total = total + counts[i] as u128;
        i = i + 1;
    }
    assert(counts@.subrange(0, n as int) =~= counts@);
    let ghost unsorted = counts@;
    let mut sorted = counts;
    sort_counts(&mut sorted);
    assert(sorted@.len() == n) by {
        vstd::seq_lib::to_multiset_len(sorted@);
        vstd::seq_lib::to_multiset_len(unsorted);
    }
    let q75_rank = n / 4 * 3 + (n % 4) * 3 / 4;
    proof {
        let q = (n / 4) as int;
        let rem = (n % 4) as int;
        let c = (rem * 3) / 4;
        assert(n == 4 * q + rem);
        assert(0 <= rem * 3 - 4 * c < 4);
        vstd::arithmetic::div_mod::lemma_fundamental_div_mod_converse(
            3 * n as int,
            4,
            3 * q + c,
            rem * 3 - 4 * c,
        );
    }
    assert(q75_rank == (3 * n) / 4);
    Some(UmiSummary {
        total,
        unique: n,
        median: sorted[n / 2],
        q25: sorted[n / 4],
        q75: sorted[q75_rank],
    })
}

} // verus!
