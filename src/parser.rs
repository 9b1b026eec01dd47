use vstd::prelude::*;

use crate::barcodes::{
    first_match, hits, lemma_first_match_bounds, lemma_hit_resolves, spacer_mismatches, Barcodes,
};
use crate::config::{
    construct_bytes, lemma_construct_len, lemma_construct_piece, segment_offset, valid_indices, Config,
};
use crate::dna::{base_to_bits, dna_code, is_base, is_dna};
use crate::stats::{
    composition_bounded, is_read_base, lemma_total_ge, lemma_total_update, total_of,
    whitelist_contents, with_base, BaseComposition, Statistics,
};

verus! {

/// How far past the end of the previous barcode a later barcode may start.
pub const SEARCH_TOLERANCE: usize = 2;

/// The match chain over the first `n` barcode positions of a read: position 0 is searched
/// from 0 to `offset`, each later one from the end of the previous match to
/// `SEARCH_TOLERANCE` past it. The result is the end of the last match and the indices
/// found, or the first position that missed.
pub open spec fn chain_spec(segs: Seq<Barcodes>, seq: Seq<u8>, offset: int, n: int) -> Result<
    (int, Seq<usize>),
    int,
>
    decreases n,
{
    if n <= 0 {
        Ok((0, Seq::empty()))
    } else {
        match chain_spec(segs, seq, offset, n - 1) {
            Err(i) => Err(i),
            Ok((pos, idx)) => {
                let span = if n == 1 {
                    offset
                } else {
                    SEARCH_TOLERANCE as int
                };
                match segs[n - 1].first_match_spec(seq, pos, pos + span) {
                    Some((e, j)) => Ok((e, idx.push(j as usize))),
                    None => Err(n - 1),
                }
            },
        }
    }
}

/// The UMI at `pos`: `umi_len` bytes, all nucleotides; `None` where the read ends first or
/// one of them is not a nucleotide.
pub open spec fn umi_spec(seq: Seq<u8>, pos: int, umi_len: int) -> Option<Seq<u8>> {
    if pos > seq.len() || seq.len() - pos < umi_len || !is_dna(seq.subrange(pos, pos + umi_len)) {
        None
    } else {
        Some(seq.subrange(pos, pos + umi_len))
    }
}

/// What is emitted for a read: the canonical construct and the quality bytes of the same
/// length that end with the UMI's last base; `None` where the read is filtered.
pub open spec fn emitted(
    segs: Seq<Barcodes>,
    linkers: bool,
    seq: Seq<u8>,
    qual: Seq<u8>,
    offset: int,
    umi_len: int,
) -> Option<(Seq<u8>, Seq<u8>)> {
    match chain_spec(segs, seq, offset, segs.len() as int) {
        Err(_) => None,
        Ok((pos, idx)) => match umi_spec(seq, pos, umi_len) {
            None => None,
            Some(umi) => {
                let c = construct_bytes(segs, idx, linkers) + umi;
                Some((c, qual.subrange(pos + umi_len - c.len(), pos + umi_len)))
            },
        },
    }
}

/// `m` with one more count of `k`.
pub open spec fn bump<K>(m: Map<K, u64>, k: K) -> Map<K, u64> {
    m.insert(
        k,
        if m.contains_key(k) {
            (m[k] + 1) as u64
        } else {
            1
        },
    )
}

/// The histograms of the positions with one more count of each index of `idx` at its
/// position.
pub open spec fn histograms_after(h: Seq<Map<usize, u64>>, idx: Seq<usize>) -> Seq<Map<usize, u64>> {
    Seq::new(h.len(), |i: int| if i < idx.len() { bump(h[i], idx[i]) } else { h[i] })
}

/// The UMI histograms by index tuple with one more sighting of `umi` with `key`.
pub open spec fn umi_histograms_after(
    m: Map<Seq<usize>, Map<u32, u64>>,
    key: Seq<usize>,
    umi: Seq<u8>,
) -> Map<Seq<usize>, Map<u32, u64>> {
    let h = if m.contains_key(key) {
        m[key]
    } else {
        Map::empty()
    };
    m.insert(key, bump(h, dna_code(umi) as u32))
}

/// The base compositions of the UMI positions with the bases of `umi` counted.
pub open spec fn composition_after(b: Seq<BaseComposition>, umi: Seq<u8>) -> Seq<BaseComposition> {
    Seq::new(b.len(), |i: int| if i < umi.len() { with_base(b[i], umi[i]) } else { b[i] })
}

/// Two statistics that agree on everything but the per-position filter counts.
pub open spec fn same_but_filtered(a: &Statistics, b: &Statistics) -> bool {
    &&& a.total_reads == b.total_reads
    &&& a.passing_reads == b.passing_reads
    &&& a.whitelist_size == b.whitelist_size
    &&& a.num_filtered_umi == b.num_filtered_umi
    &&& a.whitelist == b.whitelist
    &&& a.counter_maps == b.counter_maps
    &&& a.barcode_umi_counter == b.barcode_umi_counter
    &&& a.umi_base_composition == b.umi_base_composition
}

proof fn lemma_chain_error_stays(segs: Seq<Barcodes>, seq: Seq<u8>, offset: int, i: int, n: int)
    requires
        0 <= i < n,
        chain_spec(segs, seq, offset, i + 1) == Err::<(int, Seq<usize>), int>(i),
    ensures
        chain_spec(segs, seq, offset, n) == Err::<(int, Seq<usize>), int>(i),
    decreases n - i,
{
    if n > i + 1 {
        lemma_chain_error_stays(segs, seq, offset, i, n - 1);
    }
}

/// A chain that succeeds ends inside the read, past a full window of each position, on
/// indices into each whitelist.
pub proof fn lemma_chain_bounds(segs: Seq<Barcodes>, seq: Seq<u8>, offset: int, n: int)
    requires
        0 <= n <= segs.len(),
    ensures
        chain_spec(segs, seq, offset, n) matches Ok((pos, idx)) ==> {
            &&& crate::config::segment_offset(segs, n, true) <= pos <= seq.len()
            &&& idx.len() == n
            &&& forall|i: int| 0 <= i < n ==> (#[trigger] idx[i]) < segs[i].whitelist().len()
        },
    decreases n,
{
    if n > 0 {
        lemma_chain_bounds(segs, seq, offset, n - 1);
        if let Ok((pos, idx)) = chain_spec(segs, seq, offset, n - 1) {
            let span = if n == 1 {
                offset
            } else {
                SEARCH_TOLERANCE as int
            };
            let s = segs[n - 1];
            lemma_first_match_bounds(
                s.whitelist(),
                s.word_length(),
                s.spacer_seq(),
                s.is_exact(),
                seq,
                pos,
                pos + span,
            );
        }
    }
}

/// Runs the match chain over all barcode positions of a read. On a miss at position `i`,
/// counts the read as filtered there.
pub fn match_records(seq: &[u8], offset: usize, config: &Config, statistics: &mut Statistics) -> (r: Option<
    (usize, Vec<usize>),
>)
    requires
        config.wf(),
        old(statistics).wf_for(config),
        forall|i: int| 0 <= i < old(statistics).num_filtered@.len() ==> #[trigger] old(statistics).num_filtered@[i] < usize::MAX,
    ensures
        final(statistics).wf_for(config),
        same_but_filtered(final(statistics), old(statistics)),
        match chain_spec(config.segments(), seq@, offset as int, config.segments().len() as int) {
            Ok((pos, idx)) => {
                &&& r matches Some((p, v)) && p == pos && v@ == idx
                &&& final(statistics).num_filtered == old(statistics).num_filtered
            },
            Err(i) => {
                &&& r is None
                &&& final(statistics).num_filtered@ == old(statistics).num_filtered@.update(
                    i,
                    (old(statistics).num_filtered@[i] + 1) as usize,
                )
            },
        },
{
    let ghost segs = config.segments();
    let k = config.barcode_count();
    let mut pos: usize = 0;
    let mut barcode_indices: Vec<usize> = Vec::new();
    let mut i: usize = 0;
    while i < k
        invariant
            config.wf(),
            segs == config.segments(),
            k == segs.len(),
            i <= k,
            chain_spec(segs, seq@, offset as int, i as int) == Ok::<(int, Seq<usize>), int>(
                (pos as int, barcode_indices@),
            ),
            *statistics == *old(statistics),
            old(statistics).wf_for(config),
            forall|l: int| 0 <= l < old(statistics).num_filtered@.len() ==> #[trigger] old(statistics).num_filtered@[l] < usize::MAX,
        decreases k - i,
    {
        let span = if i == 0 {
            Some(offset)
        } else {
            Some(SEARCH_TOLERANCE)
        };
        match config.match_subsequence(seq, i, pos, span) {
            Some((new_pos, bc_idx)) => {
                pos = new_pos;
                barcode_indices.push(bc_idx);
            },
            None => {
                let c = statistics.num_filtered[i];
                statistics.num_filtered.set(i, c + 1);
                proof {
                    lemma_chain_error_stays(segs, seq@, offset as int, i as int, k as int);
                }
                return None;
            },
        }
        i = i + 1;
    }
    Some((pos, barcode_indices))
}

/// Takes the UMI of `umi_len` bytes at `pos`; where the read ends first or a UMI byte is
/// not a nucleotide, counts the read as filtered for its UMI.
pub fn match_umi(seq: &[u8], pos: usize, umi_len: usize, statistics: &mut Statistics) -> (r: Option<
    (usize, Vec<u8>),
>)
    requires
        old(statistics).num_filtered_umi < usize::MAX,
    ensures
        match umi_spec(seq@, pos as int, umi_len as int) {
            Some(umi) => {
                &&& r matches Some((p, v)) && p == pos + umi_len && v@ == umi
                &&& *final(statistics) == *old(statistics)
            },
            None => {
                &&& r is None
                &&& final(statistics).num_filtered_umi == old(statistics).num_filtered_umi + 1
                &&& final(statistics).total_reads == old(statistics).total_reads
                &&& final(statistics).passing_reads == old(statistics).passing_reads
                &&& final(statistics).whitelist_size == old(statistics).whitelist_size
                &&& final(statistics).num_filtered == old(statistics).num_filtered
                &&& final(statistics).whitelist == old(statistics).whitelist
                &&& final(statistics).counter_maps == old(statistics).counter_maps
                &&& final(statistics).barcode_umi_counter == old(statistics).barcode_umi_counter
                &&& final(statistics).umi_base_composition == old(statistics).umi_base_composition
            },
        },
{
    let n = seq.len();
    if pos > n || n - pos < umi_len {
        statistics.num_filtered_umi = statistics.num_filtered_umi + 1;
        return None;
    }
    let mut umi: Vec<u8> = Vec::new();
    let mut i: usize = 0;
    while i < umi_len
        invariant
            n == seq@.len(),
            pos + umi_len <= n,
            i <= umi_len,
            umi@ == seq@.subrange(pos as int, pos + i),
            is_dna(umi@),
            *statistics == *old(statistics),
            old(statistics).num_filtered_umi < usize::MAX,
        decreases umi_len - i,
    {
        let b = seq[pos + i];
        if base_to_bits(b).is_none() {
            statistics.num_filtered_umi = statistics.num_filtered_umi + 1;
            assert(seq@.subrange(pos as int, pos + umi_len)[i as int] == b);
            return None;
        }
        umi.push(b);
        i = i + 1;
        assert(umi@ =~= seq@.subrange(pos as int, pos + i));
    }
    Some((pos + umi_len, umi))
}

/// Records a passing read with index tuple `barcode_indices` and UMI `umi`, and returns
/// its canonical construct with the quality bytes of the same length that end at `pos`.
pub fn construct_match(
    qual: &[u8],
    pos: usize,
    barcode_indices: &[usize],
    umi: &Vec<u8>,
    config: &Config,
    statistics: &mut Statistics,
) -> (r: (Vec<u8>, Vec<u8>))
    requires
        config.wf(),
        old(statistics).wf_for(config),
        old(statistics).passing_reads < usize::MAX,
        barcode_indices@.len() == config.segments().len(),
        valid_indices(config.segments(), barcode_indices@),
        umi@.len() <= 16,
        is_dna(umi@),
        construct_bytes(config.segments(), barcode_indices@, config.emits_linkers()).len() + umi@.len() <= pos
            <= qual@.len(),
    ensures
        ({
            let c = construct_bytes(config.segments(), barcode_indices@, config.emits_linkers()) + umi@;
            &&& r.0@ == c
            &&& r.1@ == qual@.subrange(pos - c.len(), pos as int)
        }),
        final(statistics).wf_for(config),
        final(statistics).passing_reads == old(statistics).passing_reads + 1,
        final(statistics).total_reads == old(statistics).total_reads,
        final(statistics).num_filtered == old(statistics).num_filtered,
        final(statistics).num_filtered_umi == old(statistics).num_filtered_umi,
        final(statistics).whitelist_size == old(statistics).whitelist_size,
        final(statistics).whitelist == old(statistics).whitelist,
        final(statistics).counter_maps.histograms() == histograms_after(
            old(statistics).counter_maps.histograms(),
            barcode_indices@,
        ),
        final(statistics).barcode_umi_counter@ == umi_histograms_after(
            old(statistics).barcode_umi_counter@,
            barcode_indices@,
            umi@,
        ),
        final(statistics).umi_base_composition.bases@ == Seq::new(
            old(statistics).umi_base_composition.bases@.len(),
            |i: int|
                if i < umi@.len() {
                    with_base(old(statistics).umi_base_composition.bases@[i], umi@[i])
                } else {
                    old(statistics).umi_base_composition.bases@[i]
                },
        ),
{
    let ghost segs = config.segments();
    let ghost old_h = statistics.counter_maps.histograms();
    let ghost passing = statistics.passing_reads as nat;
    let mut construct_seq = config.build_barcode(barcode_indices);
    let k = barcode_indices.len();
    let mut i: usize = 0;
    while i < k
        invariant
            k == barcode_indices@.len() == segs.len(),
            i <= k,
            statistics.counter_maps.wf(),
            statistics.counter_maps.histograms().len() == k,
            old_h.len() == k,
            forall|p: int, key: usize|
                0 <= p < k && #[trigger] old_h[p].contains_key(key) ==> old_h[p][key] <= passing,
            passing < usize::MAX,
            passing == old(statistics).passing_reads,
            old(statistics).wf_for(config),
            statistics.passing_reads == old(statistics).passing_reads,
            statistics.total_reads == old(statistics).total_reads,
            statistics.num_filtered == old(statistics).num_filtered,
            statistics.num_filtered_umi == old(statistics).num_filtered_umi,
            statistics.whitelist_size == old(statistics).whitelist_size,
            statistics.whitelist == old(statistics).whitelist,
            statistics.barcode_umi_counter == old(statistics).barcode_umi_counter,
            statistics.umi_base_composition == old(statistics).umi_base_composition,
            old_h == old(statistics).counter_maps.histograms(),
            statistics.counter_maps.histograms() == Seq::new(
                k as nat,
                |p: int| if p < i { bump(old_h[p], barcode_indices@[p]) } else { old_h[p] },
            ),
        decreases k - i,
    {
        let idx = barcode_indices[i];
        let ghost before = statistics.counter_maps.histograms();
        assert(before[i as int] == old_h[i as int]);
        statistics.counter_maps.add(idx, i);
        assert(statistics.counter_maps.histograms() =~= Seq::new(
            k as nat,
            |p: int| if p < i + 1 { bump(old_h[p], barcode_indices@[p]) } else { old_h[p] },
        ));
        i = i + 1;
    }
    proof {
        let u = dna_code(umi@) as u32;
        let m = statistics.barcode_umi_counter@;
        if m.contains_key(barcode_indices@) && m[barcode_indices@].contains_key(u) {
            assert(m[barcode_indices@][u] <= passing);
        }
        assert forall|p: int| 0 <= p < umi@.len() implies composition_bounded(
            #[trigger] statistics.umi_base_composition.bases@[p],
            (u64::MAX - 1) as nat,
        ) by {
            assert(composition_bounded(statistics.umi_base_composition.bases@[p], passing));
        }
        assert forall|p: int| 0 <= p < umi@.len() implies is_read_base(#[trigger] umi@[p]) by {
            assert(is_base(umi@[p]));
        }
    }
    statistics.barcode_umi_counter.add(barcode_indices, umi);
    statistics.umi_base_composition.add(umi);
    statistics.passing_reads = statistics.passing_reads + 1;
    let mut u: usize = 0;
    while u < umi.len()
        invariant
            u <= umi@.len(),
            construct_seq@ == construct_bytes(segs, barcode_indices@, config.emits_linkers())
                + umi@.subrange(0, u as int),
        decreases umi@.len() - u,
    {
        construct_seq.push(umi[u]);
        u = u + 1;
        assert(construct_seq@ =~= construct_bytes(segs, barcode_indices@, config.emits_linkers())
            + umi@.subrange(0, u as int));
    }
    assert(umi@.subrange(0, umi@.len() as int) =~= umi@);
    let construct_qual = copy_window(qual, pos - construct_seq.len(), pos);
    proof {
        let np = statistics.passing_reads as nat;
        let h = statistics.counter_maps.histograms();
        assert forall|p: int, key: usize|
            0 <= p < h.len() && #[trigger] h[p].contains_key(key) implies h[p][key] <= np by {
            if p < k && key == barcode_indices@[p] {
            } else {
                assert(h[p] == if p < k { bump(old_h[p], barcode_indices@[p]) } else { old_h[p] });
            }
        }
        assert(statistics.counter_maps.histograms() =~= histograms_after(old_h, barcode_indices@));
        let m = statistics.barcode_umi_counter@;
        assert forall|key: Seq<usize>, uu: u32| #[trigger] m.contains_key(key) && #[trigger] m[key].contains_key(uu)
            implies m[key][uu] <= np by {}
        assert forall|p: int| 0 <= p < statistics.umi_base_composition.bases@.len() implies composition_bounded(
            #[trigger] statistics.umi_base_composition.bases@[p],
            np,
        ) by {}
    }
    (construct_seq, construct_qual)
}

/// A copy of `s[lo..hi]`.
fn copy_window(s: &[u8], lo: usize, hi: usize) -> (r: Vec<u8>)
    requires
        lo <= hi <= s@.len(),
    ensures
        r@ == s@.subrange(lo as int, hi as int),
{
    let mut out: Vec<u8> = Vec::new();
    let mut i: usize = lo;
    while i < hi
        invariant
            lo <= i <= hi <= s@.len(),
            out@ == s@.subrange(lo as int, i as int),
        decreases hi - i,
    {
        out.push(s[i]);
        i = i + 1;
        assert(out@ =~= s@.subrange(lo as int, i as int));
    }
    out
}

proof fn lemma_offset_without_linkers(segs: Seq<Barcodes>, n: int)
    ensures
        segment_offset(segs, n, false) <= segment_offset(segs, n, true),
    decreases n,
{
    if n > 0 {
        lemma_offset_without_linkers(segs, n - 1);
    }
}

/// Processes the forward read of one pair: counts it, runs the match chain and the UMI
/// policy, records a passing read, and returns the canonical construct and its quality
/// bytes, to be emitted in place of the read; `None` where the read is filtered.
pub fn process_pair(
    seq: &[u8],
    qual: &[u8],
    offset: usize,
    umi_len: usize,
    config: &Config,
    statistics: &mut Statistics,
) -> (r: Option<(Vec<u8>, Vec<u8>)>)
    requires
        config.wf(),
        old(statistics).wf_for(config),
        old(statistics).balanced(),
        old(statistics).total_reads < usize::MAX,
        umi_len <= 16,
        qual@.len() == seq@.len(),
    ensures
        final(statistics).wf_for(config),
        final(statistics).balanced(),
        final(statistics).total_reads == old(statistics).total_reads + 1,
        final(statistics).whitelist_size == old(statistics).whitelist_size,
        match r {
            Some((s, q)) => emitted(
                config.segments(),
                config.emits_linkers(),
                seq@,
                qual@,
                offset as int,
                umi_len as int,
            ) == Some((s@, q@)),
            None => emitted(
                config.segments(),
                config.emits_linkers(),
                seq@,
                qual@,
                offset as int,
                umi_len as int,
            ) is None,
        },
        match chain_spec(config.segments(), seq@, offset as int, config.segments().len() as int) {
            Err(i) => {
                &&& final(statistics).num_filtered@ == old(statistics).num_filtered@.update(
                    i,
                    (old(statistics).num_filtered@[i] + 1) as usize,
                )
                &&& final(statistics).passing_reads == old(statistics).passing_reads
                &&& final(statistics).num_filtered_umi == old(statistics).num_filtered_umi
                &&& final(statistics).whitelist == old(statistics).whitelist
                &&& final(statistics).counter_maps == old(statistics).counter_maps
                &&& final(statistics).barcode_umi_counter == old(statistics).barcode_umi_counter
                &&& final(statistics).umi_base_composition == old(statistics).umi_base_composition
            },
            Ok((pos, idx)) => match umi_spec(seq@, pos, umi_len as int) {
                None => {
                    &&& final(statistics).num_filtered_umi == old(statistics).num_filtered_umi + 1
                    &&& final(statistics).passing_reads == old(statistics).passing_reads
                    &&& final(statistics).num_filtered == old(statistics).num_filtered
                    &&& final(statistics).whitelist == old(statistics).whitelist
                    &&& final(statistics).counter_maps == old(statistics).counter_maps
                    &&& final(statistics).barcode_umi_counter == old(statistics).barcode_umi_counter
                    &&& final(statistics).umi_base_composition == old(statistics).umi_base_composition
                },
                Some(umi) => {
                    &&& final(statistics).passing_reads == old(statistics).passing_reads + 1
                    &&& final(statistics).num_filtered == old(statistics).num_filtered
                    &&& final(statistics).num_filtered_umi == old(statistics).num_filtered_umi
                    &&& whitelist_contents(final(statistics).whitelist) == whitelist_contents(
                        old(statistics).whitelist,
                    ).insert(construct_bytes(config.segments(), idx, config.emits_linkers()) + umi)
                    &&& final(statistics).counter_maps.histograms() == histograms_after(
                        old(statistics).counter_maps.histograms(),
                        idx,
                    )
                    &&& final(statistics).barcode_umi_counter@ == umi_histograms_after(
                        old(statistics).barcode_umi_counter@,
                        idx,
                        umi,
                    )
                    &&& final(statistics).umi_base_composition.bases@ == composition_after(
                        old(statistics).umi_base_composition.bases@,
                        umi,
                    )
                },
            },
        },
{
    let ghost segs = config.segments();
    let ghost k = segs.len() as int;
    proof {
        lemma_total_nonneg_all(statistics.num_filtered@);
        assert forall|i: int| 0 <= i < statistics.num_filtered@.len() implies #[trigger] statistics.num_filtered@[i]
            < usize::MAX by {
            lemma_total_ge(statistics.num_filtered@, i);
        }
    }
    statistics.total_reads = statistics.total_reads + 1;
    let ghost mid = *statistics;
    let matched = match_records(seq, offset, config, statistics);
    let (pos, barcode_indices) = match matched {
        None => {
            proof {
                if let Err(i) = chain_spec(segs, seq@, offset as int, k) {
                    lemma_chain_bounds_err(segs, seq@, offset as int, k);
                    lemma_total_update(mid.num_filtered@, i, (mid.num_filtered@[i] + 1) as usize);
                }
            }
            return None;
        },
        Some(m) => m,
    };
    proof {
        lemma_chain_bounds(segs, seq@, offset as int, k);
        lemma_total_nonneg_all(statistics.num_filtered@);
    }
    let (end, umi) = match match_umi(seq, pos, umi_len, statistics) {
        None => {
            return None;
        },
        Some(m) => m,
    };
    proof {
        config.lemma_wf();
        lemma_construct_len(segs, barcode_indices@, config.emits_linkers());
        lemma_offset_without_linkers(segs, k);
    }
    let (c_seq, c_qual) = construct_match(qual, end, barcode_indices.as_slice(), &umi, config, statistics);
    let copy = copy_window(c_seq.as_slice(), 0, c_seq.len());
    assert(c_seq@.subrange(0, c_seq@.len() as int) =~= c_seq@);
    statistics.whitelist.insert(copy);
    Some((c_seq, c_qual))
}

/// The index tuple and UMI of a read that passes the match chain and the UMI policy.
pub open spec fn passing_read(segs: Seq<Barcodes>, seq: Seq<u8>, offset: int, umi_len: int) -> Option<
    (Seq<usize>, Seq<u8>),
> {
    match chain_spec(segs, seq, offset, segs.len() as int) {
        Err(_) => None,
        Ok((pos, idx)) => match umi_spec(seq, pos, umi_len) {
            None => None,
            Some(umi) => Some((idx, umi)),
        },
    }
}

/// How many of the first `n` reads miss the match chain first at position `i`.
pub open spec fn misses_at(segs: Seq<Barcodes>, reads: Seq<(Vec<u8>, Vec<u8>)>, offset: int, i: int, n: int) -> nat
    decreases n,
{
    if n <= 0 {
        0
    } else {
        misses_at(segs, reads, offset, i, n - 1) + if chain_spec(segs, reads[n - 1].0@, offset, segs.len() as int)
            == Err::<(int, Seq<usize>), int>(i) {
            1nat
        } else {
            0nat
        }
    }
}

/// How many of the first `n` reads pass the match chain and fail the UMI policy.
pub open spec fn umi_rejections(
    segs: Seq<Barcodes>,
    reads: Seq<(Vec<u8>, Vec<u8>)>,
    offset: int,
    umi_len: int,
    n: int,
) -> nat
    decreases n,
{
    if n <= 0 {
        0
    } else {
        umi_rejections(segs, reads, offset, umi_len, n - 1) + if chain_spec(
            segs,
            reads[n - 1].0@,
            offset,
            segs.len() as int,
        ) is Ok && passing_read(segs, reads[n - 1].0@, offset, umi_len) is None {
            1nat
        } else {
            0nat
        }
    }
}

/// How many of the first `n` reads pass.
pub open spec fn passes(segs: Seq<Barcodes>, reads: Seq<(Vec<u8>, Vec<u8>)>, offset: int, umi_len: int, n: int) -> nat
    decreases n,
{
    if n <= 0 {
        0
    } else {
        passes(segs, reads, offset, umi_len, n - 1) + if passing_read(segs, reads[n - 1].0@, offset, umi_len) is Some {
            1nat
        } else {
            0nat
        }
    }
}

/// The canonical constructs emitted for the first `n` reads.
pub open spec fn emitted_constructs(
    segs: Seq<Barcodes>,
    linkers: bool,
    reads: Seq<(Vec<u8>, Vec<u8>)>,
    offset: int,
    umi_len: int,
    n: int,
) -> Set<Seq<u8>>
    decreases n,
{
    if n <= 0 {
        Set::empty()
    } else {
        let prev = emitted_constructs(segs, linkers, reads, offset, umi_len, n - 1);
        match passing_read(segs, reads[n - 1].0@, offset, umi_len) {
            Some((idx, umi)) => prev.insert(construct_bytes(segs, idx, linkers) + umi),
            None => prev,
        }
    }
}

/// The per-position histograms after the first `n` reads, counted in order.
pub open spec fn histograms_fold(
    h: Seq<Map<usize, u64>>,
    segs: Seq<Barcodes>,
    reads: Seq<(Vec<u8>, Vec<u8>)>,
    offset: int,
    umi_len: int,
    n: int,
) -> Seq<Map<usize, u64>>
    decreases n,
{
    if n <= 0 {
        h
    } else {
        let prev = histograms_fold(h, segs, reads, offset, umi_len, n - 1);
        match passing_read(segs, reads[n - 1].0@, offset, umi_len) {
            Some((idx, umi)) => histograms_after(prev, idx),
            None => prev,
        }
    }
}

/// The UMI histograms by index tuple after the first `n` reads, counted in order.
pub open spec fn umi_histograms_fold(
    m: Map<Seq<usize>, Map<u32, u64>>,
    segs: Seq<Barcodes>,
    reads: Seq<(Vec<u8>, Vec<u8>)>,
    offset: int,
    umi_len: int,
    n: int,
) -> Map<Seq<usize>, Map<u32, u64>>
    decreases n,
{
    if n <= 0 {
        m
    } else {
        let prev = umi_histograms_fold(m, segs, reads, offset, umi_len, n - 1);
        match passing_read(segs, reads[n - 1].0@, offset, umi_len) {
            Some((idx, umi)) => umi_histograms_after(prev, idx, umi),
            None => prev,
        }
    }
}

/// The UMI base compositions after the first `n` reads, counted in order.
pub open spec fn composition_fold(
    b: Seq<BaseComposition>,
    segs: Seq<Barcodes>,
    reads: Seq<(Vec<u8>, Vec<u8>)>,
    offset: int,
    umi_len: int,
    n: int,
) -> Seq<BaseComposition>
    decreases n,
{
    if n <= 0 {
        b
    } else {
        let prev = composition_fold(b, segs, reads, offset, umi_len, n - 1);
        match passing_read(segs, reads[n - 1].0@, offset, umi_len) {
            Some((idx, umi)) => composition_after(prev, umi),
            None => prev,
        }
    }
}

/// What is emitted for each forward read of a batch, each from its own bases and qualities.
pub open spec fn emitted_all(
    segs: Seq<Barcodes>,
    linkers: bool,
    reads: Seq<(Vec<u8>, Vec<u8>)>,
    offset: int,
    umi_len: int,
) -> Seq<Option<(Seq<u8>, Seq<u8>)>> {
    Seq::new(reads.len(), |i: int| emitted(segs, linkers, reads[i].0@, reads[i].1@, offset, umi_len))
}

/// The view of an emitted record.
pub open spec fn record_view(r: Option<(Vec<u8>, Vec<u8>)>) -> Option<(Seq<u8>, Seq<u8>)> {
    match r {
        Some((s, q)) => Some((s@, q@)),
        None => None,
    }
}

/// Processes the forward reads of a batch of pairs, each as bases and qualities, in
/// order. Every read is counted once: as passing, as missed at the first barcode position
/// where its match chain fails, or as rejected for its UMI. The whitelist gains the
/// constructs emitted, and the histograms count the passing reads in order. What is
/// emitted for each read, and how the statistics change, depend on the reads, the
/// construct and the parameters alone.
pub fn process_records(
    reads: &Vec<(Vec<u8>, Vec<u8>)>,
    offset: usize,
    umi_len: usize,
    config: &Config,
    statistics: &mut Statistics,
) -> (r: Vec<Option<(Vec<u8>, Vec<u8>)>>)
    requires
        config.wf(),
        old(statistics).wf_for(config),
        old(statistics).balanced(),
        old(statistics).total_reads + reads@.len() < usize::MAX,
        umi_len <= 16,
        forall|i: int| 0 <= i < reads@.len() ==> (#[trigger] reads@[i]).1@.len() == reads@[i].0@.len(),
    ensures
        final(statistics).wf_for(config),
        final(statistics).balanced(),
        final(statistics).total_reads == old(statistics).total_reads + reads@.len(),
        final(statistics).whitelist_size == old(statistics).whitelist_size,
        ({
            let segs = config.segments();
            let o = offset as int;
            let u = umi_len as int;
            let n = reads@.len() as int;
            &&& final(statistics).passing_reads == old(statistics).passing_reads + passes(segs, reads@, o, u, n)
            &&& final(statistics).num_filtered@.len() == old(statistics).num_filtered@.len()
            &&& forall|i: int|
                0 <= i < final(statistics).num_filtered@.len() ==> #[trigger] final(statistics).num_filtered@[i]
                    == old(statistics).num_filtered@[i] + misses_at(segs, reads@, o, i, n)
            &&& final(statistics).num_filtered_umi == old(statistics).num_filtered_umi + umi_rejections(
                segs,
                reads@,
                o,
                u,
                n,
            )
            &&& whitelist_contents(final(statistics).whitelist) == whitelist_contents(old(statistics).whitelist).union(
                emitted_constructs(segs, config.emits_linkers(), reads@, o, u, n),
            )
            &&& final(statistics).counter_maps.histograms() == histograms_fold(
                old(statistics).counter_maps.histograms(),
                segs,
                reads@,
                o,
                u,
                n,
            )
            &&& final(statistics).barcode_umi_counter@ == umi_histograms_fold(
                old(statistics).barcode_umi_counter@,
                segs,
                reads@,
                o,
                u,
                n,
            )
            &&& final(statistics).umi_base_composition.bases@ == composition_fold(
                old(statistics).umi_base_composition.bases@,
                segs,
                reads@,
                o,
                u,
                n,
            )
        }),
        r@.map_values(|o: Option<(Vec<u8>, Vec<u8>)>| record_view(o)) == emitted_all(
            config.segments(),
            config.emits_linkers(),
            reads@,
            offset as int,
            umi_len as int,
        ),
{
    let mut out: Vec<Option<(Vec<u8>, Vec<u8>)>> = Vec::new();
    let mut i: usize = 0;
    while i < reads.len()
        invariant
            config.wf(),
            statistics.wf_for(config),
            statistics.balanced(),
            i <= reads@.len(),
            statistics.total_reads == old(statistics).total_reads + i,
            statistics.whitelist_size == old(statistics).whitelist_size,
            statistics.passing_reads == old(statistics).passing_reads + passes(config.segments(), reads@, offset as int, umi_len as int, i as int),
            statistics.num_filtered@.len() == old(statistics).num_filtered@.len(),
            forall|j: int|
                0 <= j < statistics.num_filtered@.len() ==> #[trigger] statistics.num_filtered@[j]
                    == old(statistics).num_filtered@[j] + misses_at(config.segments(), reads@, offset as int, j, i as int),
            statistics.num_filtered_umi == old(statistics).num_filtered_umi + umi_rejections(config.segments(), reads@, offset as int, umi_len as int, i as int),
            whitelist_contents(statistics.whitelist) == whitelist_contents(old(statistics).whitelist).union(
                emitted_constructs(config.segments(), config.emits_linkers(), reads@, offset as int, umi_len as int, i as int),
            ),
            statistics.counter_maps.histograms() == histograms_fold(old(statistics).counter_maps.histograms(), config.segments(), reads@, offset as int, umi_len as int, i as int),
            statistics.barcode_umi_counter@ == umi_histograms_fold(old(statistics).barcode_umi_counter@, config.segments(), reads@, offset as int, umi_len as int, i as int),
            statistics.umi_base_composition.bases@ == composition_fold(old(statistics).umi_base_composition.bases@, config.segments(), reads@, offset as int, umi_len as int, i as int),
            old(statistics).total_reads + reads@.len() < usize::MAX,
            umi_len <= 16,
            forall|k: int| 0 <= k < reads@.len() ==> (#[trigger] reads@[k]).1@.len() == reads@[k].0@.len(),
            out@.len() == i,
            forall|k: int| 0 <= k < i ==> record_view(#[trigger] out@[k]) == emitted(
                config.segments(),
                config.emits_linkers(),
                reads@[k].0@,
                reads@[k].1@,
                offset as int,
                umi_len as int,
            ),
        decreases reads@.len() - i,
    {
        let pair = &reads[i];
        assert(pair.1@.len() == pair.0@.len());
        let ghost before = *statistics;
        let res = process_pair(pair.0.as_slice(), pair.1.as_slice(), offset, umi_len, config, statistics);
        proof {
            let segs = config.segments();
            let o = offset as int;
            let u = umi_len as int;
            let n = i as int;
            let seq = reads@[n].0@;
            let k = segs.len() as int;
            lemma_chain_bounds_err(segs, seq, o, k);
            let e1 = emitted_constructs(segs, config.emits_linkers(), reads@, o, u, n);
            let e2 = emitted_constructs(segs, config.emits_linkers(), reads@, o, u, n + 1);
            let w0 = whitelist_contents(old(statistics).whitelist);
            match chain_spec(segs, seq, o, k) {
                Err(e) => {
                    lemma_total_ge(before.num_filtered@, e);
                    lemma_total_nonneg_all(before.num_filtered@);
                    assert(before.num_filtered@[e] < usize::MAX);
                    assert forall|j: int| 0 <= j < statistics.num_filtered@.len() implies #[trigger] statistics.num_filtered@[j]
                        == old(statistics).num_filtered@[j] + misses_at(segs, reads@, o, j, n + 1) by {
                        assert(before.num_filtered@[j] == old(statistics).num_filtered@[j] + misses_at(segs, reads@, o, j, n));
                        if j == e {
                            assert(chain_spec(segs, reads@[n].0@, o, k) == Err::<(int, Seq<usize>), int>(j));
                            assert(statistics.num_filtered@[j] == before.num_filtered@[j] + 1);
                        } else {
                            assert(chain_spec(segs, reads@[n].0@, o, k) != Err::<(int, Seq<usize>), int>(j));
                            assert(statistics.num_filtered@[j] == before.num_filtered@[j]);
                        }
                    }
                    assert(e2 == e1);
                },
                Ok((pos, idx)) => {
                    assert forall|j: int| 0 <= j < statistics.num_filtered@.len() implies #[trigger] statistics.num_filtered@[j]
                        == old(statistics).num_filtered@[j] + misses_at(segs, reads@, o, j, n + 1) by {
                        assert(before.num_filtered@[j] == old(statistics).num_filtered@[j] + misses_at(segs, reads@, o, j, n));
                    }
                    match umi_spec(seq, pos, u) {
                        None => {
                            assert(e2 == e1);
                        },
                        Some(umi) => {
                            assert(e2 == e1.insert(construct_bytes(segs, idx, config.emits_linkers()) + umi));
                            assert(w0.union(e2) =~= w0.union(e1).insert(construct_bytes(segs, idx, config.emits_linkers()) + umi));
                        },
                    }
                },
            }
        }
        out.push(res);
        i = i + 1;
    }
    assert(out@.map_values(|o: Option<(Vec<u8>, Vec<u8>)>| record_view(o)) =~= emitted_all(
        config.segments(),
        config.emits_linkers(),
        reads@,
        offset as int,
        umi_len as int,
    ));
    out
}

proof fn lemma_total_nonneg_all(s: Seq<usize>)
    ensures
        total_of(s) >= 0,
    decreases s.len(),
{
    if s.len() > 0 {
        lemma_total_nonneg_all(s.drop_last());
    }
}

proof fn lemma_chain_bounds_err(segs: Seq<Barcodes>, seq: Seq<u8>, offset: int, n: int)
    requires
        0 <= n,
    ensures
        chain_spec(segs, seq, offset, n) matches Err(i) ==> 0 <= i < n,
    decreases n,
{
    if n > 0 {
        lemma_chain_bounds_err(segs, seq, offset, n - 1);
    }
}

/// A spacer of nucleotides reproduces itself.
proof fn lemma_spacer_self(sp: Seq<u8>)
    ensures
        spacer_mismatches(sp, sp) == 0,
    decreases sp.len(),
{
    if sp.len() > 0 {
        lemma_spacer_self(sp.drop_last());
    }
}

/// With spacers kept and no wildcard in any spacer, a canonical construct followed by a
/// UMI, fed back as the start of a read, matches every barcode position right where the
/// construct placed it, with the same indices, and yields the same UMI.
pub proof fn lemma_construct_refeeds(config: &Config, idx: Seq<usize>, umi: Seq<u8>, tail: Seq<u8>, offset: int)
    requires
        config.wf(),
        config.emits_linkers(),
        forall|i: int| 0 <= i < config.segments().len() ==> is_dna(#[trigger] config.segments()[i].spacer_seq()),
        idx.len() == config.segments().len(),
        valid_indices(config.segments(), idx),
        is_dna(umi),
        offset >= 0,
    ensures
        ({
            let segs = config.segments();
            let c = construct_bytes(segs, idx, true);
            let seq = c + umi + tail;
            &&& c.len() == segment_offset(segs, segs.len() as int, true)
            &&& chain_spec(segs, seq, offset, segs.len() as int) == Ok::<(int, Seq<usize>), int>((c.len() as int, idx))
            &&& umi_spec(seq, c.len() as int, umi.len() as int) == Some(umi)
        }),
{
    let segs = config.segments();
    let c = construct_bytes(segs, idx, true);
    let seq = c + umi + tail;
    config.lemma_wf();
    lemma_construct_len(segs, idx, true);
    lemma_refeed_prefix(config, idx, umi, tail, offset, segs.len() as int);
    assert(idx.subrange(0, segs.len() as int) =~= idx);
    assert(seq.subrange(c.len() as int, (c.len() + umi.len()) as int) =~= umi);
}

proof fn lemma_refeed_prefix(config: &Config, idx: Seq<usize>, umi: Seq<u8>, tail: Seq<u8>, offset: int, n: int)
    requires
        config.wf(),
        forall|i: int| 0 <= i < config.segments().len() ==> is_dna(#[trigger] config.segments()[i].spacer_seq()),
        idx.len() == config.segments().len(),
        valid_indices(config.segments(), idx),
        offset >= 0,
        0 <= n <= idx.len(),
    ensures
        ({
            let segs = config.segments();
            let seq = construct_bytes(segs, idx, true) + umi + tail;
            chain_spec(segs, seq, offset, n) == Ok::<(int, Seq<usize>), int>(
                (segment_offset(segs, n, true) as int, idx.subrange(0, n)),
            )
        }),
    decreases n,
{
    let segs = config.segments();
    let c = construct_bytes(segs, idx, true);
    let seq = c + umi + tail;
    config.lemma_wf();
    if n == 0 {
        assert(idx.subrange(0, 0) =~= Seq::<usize>::empty());
    } else {
        lemma_refeed_prefix(config, idx, umi, tail, offset, n - 1);
        let m = n - 1;
        let s = segs[m];
        s.lemma_wf();
        let pos = segment_offset(segs, m, true) as int;
        lemma_construct_piece(segs, idx, true, m);
        lemma_construct_len(segs, idx, true);
        let j = idx[m] as int;
        let piece = s.canonical(j, true);
        let w = s.eff_len() as int;
        let l = s.word_length() as int;
        assert(s.whitelist()[j].len() == l);
        assert(piece.len() == w);
        let x = seq.subrange(pos, pos + w);
        assert(x =~= piece);
        assert(x.subrange(0, l) =~= s.whitelist()[j]);
        assert(x.subrange(l, x.len() as int) =~= s.spacer_seq());
        lemma_spacer_self(s.spacer_seq());
        assert(is_dna(x)) by {
            assert forall|q: int| 0 <= q < x.len() implies is_base(#[trigger] x[q]) by {
                if q < l {
                    assert(x[q] == s.whitelist()[j][q]);
                } else {
                    assert(x[q] == s.spacer_seq()[q - l]);
                }
            }
        }
        assert(hits(s.whitelist(), s.word_length(), s.spacer_seq(), x, j));
        lemma_hit_resolves(s.whitelist(), s.word_length(), s.spacer_seq(), s.is_exact(), x, j);
        let span = if n == 1 {
            offset
        } else {
            SEARCH_TOLERANCE as int
        };
        assert(first_match(s.whitelist(), s.word_length(), s.spacer_seq(), s.is_exact(), seq, pos, pos + span)
            == Some((pos + w, j)));
        assert(idx.subrange(0, m).push(idx[m]) =~= idx.subrange(0, n));
    }
}

/// Appends the FASTQ record of `id`, `seq` and `qual` to `out`.
pub fn write_to_fastq(out: &mut Vec<u8>, id: &[u8], seq: &[u8], qual: &[u8])
    ensures
        final(out)@ == old(out)@ + seq![AT_SIGN] + id@ + seq![crate::config::NEWLINE] + seq@ + seq![
            crate::config::NEWLINE,
            PLUS_SIGN,
            crate::config::NEWLINE,
        ] + qual@ + seq![crate::config::NEWLINE],
{
    out.push(AT_SIGN);
    append_bytes(out, id);
    out.push(crate::config::NEWLINE);
    append_bytes(out, seq);
    out.push(crate::config::NEWLINE);
    out.push(PLUS_SIGN);
    out.push(crate::config::NEWLINE);
    append_bytes(out, qual);
    out.push(crate::config::NEWLINE);
    assert(out@ =~= old(out)@ + seq![AT_SIGN] + id@ + seq![crate::config::NEWLINE] + seq@ + seq![
        crate::config::NEWLINE,
        PLUS_SIGN,
        crate::config::NEWLINE,
    ] + qual@ + seq![crate::config::NEWLINE]);
}

pub const AT_SIGN: u8 = 64;

pub const PLUS_SIGN: u8 = 43;

fn append_bytes(out: &mut Vec<u8>, b: &[u8])
    ensures
        final(out)@ == old(out)@ + b@,
{
    let mut i: usize = 0;
    while i < b.len()
        invariant
            i <= b@.len(),
            out@ == old(out)@ + b@.subrange(0, i as int),
        decreases b@.len() - i,
    {
        out.push(b[i]);
        i = i + 1;
        assert(out@ =~= old(out)@ + b@.subrange(0, i as int));
    }
    assert(b@.subrange(0, b@.len() as int) =~= b@);
}

/// The compression threads for the two output files: half each, the second taking the
/// odd one; one each for a single thread.
pub open spec fn thread_split(n: nat) -> (usize, usize) {
    if n <= 1 {
        (1, 1)
    } else {
        ((n / 2) as usize, (n - n / 2) as usize)
    }
}

/// Relies on `num_cpus::get`: the number of logical cores, at least 1.
#[verifier::external_body]
fn available_cpus() -> (r: usize)
    ensures
        r >= 1,
{
    num_cpus::get()
}

/// Splits `num_threads` compression threads between the two output files; 0 stands for
/// all the logical cores of the machine.
pub fn set_threads(num_threads: usize) -> (r: (usize, usize))
    ensures
        num_threads > 0 ==> r == thread_split(num_threads as nat),
        num_threads == 0 ==> exists|c: nat| c >= 1 && r == thread_split(c),
{
    let n = if num_threads == 0 {
        available_cpus()
    } else {
        num_threads
    };
    let r = if n == 1 {
        (1, 1)
    } else if n % 2 == 0 {
        (n / 2, n / 2)
    } else {
        (n / 2, n / 2 + 1)
    };
    assert(r == thread_split(n as nat));
    r
}

} // verus!
