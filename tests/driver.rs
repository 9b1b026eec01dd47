use pipspeak::config::{Config, ConfigYaml};
use pipspeak::parser::{construct_match, match_records, match_umi, process_pair, process_records};
use pipspeak::stats::Statistics;

/// A whitelist of 96 words of length `len`: the given words at the given indices, and
/// filler words that start with `CC` elsewhere.
fn whitelist(len: usize, fixed: &[(usize, &str)]) -> String {
    let letters = ['A', 'C', 'G', 'T'];
    let mut lines = Vec::new();
    for i in 0..96usize {
        if let Some((_, w)) = fixed.iter().find(|(j, _)| *j == i) {
            lines.push(w.to_string());
            continue;
        }
        let mut word = String::from("CC");
        let mut digits = Vec::new();
        let mut v = i;
        for _ in 0..(len - 2) {
            digits.push(letters[v % 4]);
            v /= 4;
        }
        digits.reverse();
        word.extend(digits);
        lines.push(word);
    }
    lines.join("\n") + "\n"
}

fn v3_config(exact: bool, linkers: bool) -> Config {
    let whitelists = vec![
        whitelist(8, &[(0, "AGAAACCA"), (41, "TACTGAAT"), (95, "TCTTTGAC")]),
        whitelist(6, &[(0, "TCTGTG"), (95, "GTAATC")]),
        whitelist(6, &[(0, "AAAGTG"), (70, "ATCTGA"), (95, "CTGAAG")]),
        whitelist(8, &[(0, "CTGGGTAT"), (18, "GAAAGACA"), (95, "AAACTACA")]),
    ];
    let yaml = ConfigYaml {
        barcodes: vec![
            "bc1.txt".to_string(),
            "bc2.txt".to_string(),
            "bc3.txt".to_string(),
            "bc4.txt".to_string(),
        ],
        spacers: vec!["ATG".to_string(), "GAG".to_string(), "TCGAG".to_string()],
        parameters: None,
    };
    match Config::from_yaml(yaml, &whitelists, exact, linkers) {
        Ok(c) => c,
        Err(e) => panic!("config: {:?}", e),
    }
}

const CLEAN: &str = "AGAAACCAATGTCTGTGGAGAAAGTGTCGAGCTGGGTATAAAAAAAAAAAACCGT";

fn run(seq: &str, config: &Config, stats: &mut Statistics) -> Option<(Vec<u8>, Vec<u8>)> {
    let qual = vec![b'I'; seq.len()];
    process_pair(seq.as_bytes(), &qual, 5, 12, config, stats)
}

#[test]
fn parse_v3() {
    let config = v3_config(false, false);
    let mut statistics = Statistics::new(config.barcode_count());
    let seq = b"NATACTGAATATGGTAATCGAGATCTGATCGAGGAAAGACAGTACACTTCGAGTGTGATATCTGTCTCTCTC".to_vec();
    let qual = b"1".repeat(72).to_vec();
    let result_record = match_records(&seq, 5, &config, &mut statistics);
    assert_eq!(result_record, Some((41, vec![41, 95, 70, 18])));
    let result_umi = match_umi(&seq, 41, 12, &mut statistics);
    assert_eq!(result_umi, Some((53, b"GTACACTTCGAG".to_vec())));
    assert_eq!(statistics.num_filtered_umi, 0);
    let result_seq = b"TACTGAATGTAATCATCTGAGAAAGACAGTACACTTCGAG".to_vec();
    let (seq, qual) = construct_match(&qual, 55, &result_record.unwrap().1, &result_umi.unwrap().1, &config, &mut statistics);
    assert_eq!(statistics.passing_reads, 1);
    assert_eq!(seq, result_seq);
    assert_eq!(qual, b"1".repeat(40).to_vec())
}

#[test]
fn clean_exact_hit() {
    let config = v3_config(true, false);
    let mut stats = Statistics::new(config.barcode_count());
    assert_eq!(match_records(CLEAN.as_bytes(), 5, &config, &mut stats), Some((39, vec![0, 0, 0, 0])));
    let out = run(CLEAN, &config, &mut stats).expect("emitted");
    assert_eq!(out.0, b"AGAAACCATCTGTGAAAGTGCTGGGTATAAAAAAAAAAAA".to_vec());
    assert_eq!(out.1.len(), out.0.len());
    assert_eq!(stats.passing_reads, 1);
    assert_eq!(stats.total_reads, 1);
}

#[test]
fn clean_exact_hit_with_linkers() {
    let config = v3_config(true, true);
    let mut stats = Statistics::new(config.barcode_count());
    let out = run(CLEAN, &config, &mut stats).expect("emitted");
    assert_eq!(out.0, b"AGAAACCAATGTCTGTGGAGAAAGTGTCGAGCTGGGTATAAAAAAAAAAAA".to_vec());
}

#[test]
fn single_mismatch_tolerated() {
    // segment 2's word AAAGTG becomes AAGGTG
    let seq = "AGAAACCAATGTCTGTGGAGAAGGTGTCGAGCTGGGTATAAAAAAAAAAAACCGT";
    let tolerant = v3_config(false, false);
    let mut stats = Statistics::new(tolerant.barcode_count());
    assert_eq!(match_records(seq.as_bytes(), 5, &tolerant, &mut stats), Some((39, vec![0, 0, 0, 0])));
    let exact = v3_config(true, false);
    let mut stats = Statistics::new(exact.barcode_count());
    assert!(run(seq, &exact, &mut stats).is_none());
    assert_eq!(stats.num_filtered, vec![0, 0, 1, 0]);
    assert_eq!(stats.passing_reads, 0);
}

#[test]
fn leading_slack() {
    let seq = format!("N{}", CLEAN);
    let config = v3_config(true, false);
    let mut stats = Statistics::new(config.barcode_count());
    assert_eq!(match_records(seq.as_bytes(), 5, &config, &mut stats), Some((40, vec![0, 0, 0, 0])));
    assert!(run(&seq, &config, &mut stats).is_some());
    assert_eq!(stats.passing_reads, 1);
}

#[test]
fn umi_with_n() {
    let seq = "AGAAACCAATGTCTGTGGAGAAAGTGTCGAGCTGGGTATAAAAANAAAAAACCGT";
    let config = v3_config(true, false);
    let mut stats = Statistics::new(config.barcode_count());
    assert!(run(seq, &config, &mut stats).is_none());
    assert_eq!(stats.num_filtered_umi, 1);
    assert_eq!(stats.passing_reads, 0);
    stats.calculate_metrics();
    assert_eq!(stats.whitelist_size, 0);
}

#[test]
fn truncated_r1() {
    let seq = "AGAAACCAATGTCTGTGGAGAAAGTGTCGAGCTGGGTATAAAAAAAAAAA";
    let config = v3_config(true, false);
    let mut stats = Statistics::new(config.barcode_count());
    assert!(run(seq, &config, &mut stats).is_none());
    assert_eq!(stats.num_filtered_umi, 1);
    assert_eq!(stats.num_filtered, vec![0, 0, 0, 0]);
}

#[test]
fn second_barcode_miss() {
    // segment 1's word TCTGTG becomes TAAGTG
    let seq = "AGAAACCAATGTAAGTGGAGAAAGTGTCGAGCTGGGTATAAAAAAAAAAAACCGT";
    let config = v3_config(false, false);
    let mut stats = Statistics::new(config.barcode_count());
    assert!(run(seq, &config, &mut stats).is_none());
    assert_eq!(stats.num_filtered, vec![0, 1, 0, 0]);
    assert_eq!(stats.num_filtered_umi, 0);
    assert_eq!(stats.passing_reads, 0);
    assert_eq!(stats.total_reads, 1);
}

#[test]
fn counts_balance_over_a_run() {
    let config = v3_config(false, false);
    let mut stats = Statistics::new(config.barcode_count());
    let reads = [
        CLEAN.to_string(),
        format!("N{}", CLEAN),
        "AGAAACCAATGTAAGTGGAGAAAGTGTCGAGCTGGGTATAAAAAAAAAAAACCGT".to_string(),
        "AGAAACCAATGTCTGTGGAGAAAGTGTCGAGCTGGGTATAAAAANAAAAAACCGT".to_string(),
        "TTTTTTTTTTTTTTTTTTTTTTTT".to_string(),
        String::new(),
    ];
    for r in reads.iter() {
        run(r, &config, &mut stats);
    }
    let filtered: usize = stats.num_filtered.iter().sum();
    assert_eq!(stats.total_reads, 6);
    assert_eq!(stats.passing_reads + filtered + stats.num_filtered_umi, stats.total_reads);
    assert_eq!(stats.passing_reads, 2);
    assert_eq!(stats.num_filtered, vec![2, 1, 0, 0]);
    assert_eq!(stats.num_filtered_umi, 1);
    stats.calculate_metrics();
    assert_eq!(stats.whitelist_size, 1);
}

#[test]
fn emitted_construct_refeeds() {
    let config = v3_config(true, true);
    let mut stats = Statistics::new(config.barcode_count());
    let indices = vec![41usize, 95, 70, 18];
    let mut seq = config.build_barcode(&indices);
    seq.extend_from_slice(b"GTACACTTCGAG");
    seq.extend_from_slice(b"ACGTACGT");
    assert_eq!(match_records(&seq, 5, &config, &mut stats), Some((39, indices.clone())));
    let out = process_pair(&seq, &vec![b'#'; seq.len()], 5, 12, &config, &mut stats).expect("emitted");
    assert_eq!(out.0, seq[..51].to_vec());
}

#[test]
fn identical_runs_give_identical_outputs() {
    let config = v3_config(false, false);
    let reads = [CLEAN.to_string(), format!("N{}", CLEAN), "ACGT".to_string()];
    let mut outputs = Vec::new();
    let mut counts = Vec::new();
    for _ in 0..2 {
        let mut stats = Statistics::new(config.barcode_count());
        let mut out = Vec::new();
        for r in reads.iter() {
            out.push(run(r, &config, &mut stats));
        }
        outputs.push(out);
        counts.push((stats.total_reads, stats.passing_reads, stats.num_filtered.clone(), stats.num_filtered_umi));
    }
    assert_eq!(outputs[0], outputs[1]);
    assert_eq!(counts[0], counts[1]);
}

#[test]
fn histograms_after_a_pass() {
    let config = v3_config(true, false);
    let mut stats = Statistics::new(config.barcode_count());
    run(CLEAN, &config, &mut stats);
    run(CLEAN, &config, &mut stats);
    assert_eq!(stats.counter_maps.entries(0), vec![(0usize, 2u64)]);
    let entries = stats.barcode_umi_counter.entries();
    assert_eq!(entries.len(), 1);
    assert_eq!(entries[0].0, vec![0, 0, 0, 0]);
    assert_eq!(entries[0].1, vec![(0u32, 2u64)]);
    assert_eq!(stats.umi_base_composition.bases[0].a, 2);
    assert!(stats.umi_base_composition.bases[12].empty());
}

#[test]
fn batch_matches_read_by_read() {
    let config = v3_config(false, true);
    let reads: Vec<(Vec<u8>, Vec<u8>)> = [CLEAN.to_string(), "ACGT".to_string(), format!("N{}", CLEAN)]
        .iter()
        .map(|r| (r.as_bytes().to_vec(), vec![b'#'; r.len()]))
        .collect();
    let mut batch_stats = Statistics::new(config.barcode_count());
    let batch = process_records(&reads, 5, 12, &config, &mut batch_stats);
    let mut single_stats = Statistics::new(config.barcode_count());
    let single: Vec<_> = reads.iter().map(|(s, q)| process_pair(s, q, 5, 12, &config, &mut single_stats)).collect();
    assert_eq!(batch, single);
    assert_eq!(batch_stats.total_reads, 3);
    assert_eq!(batch_stats.passing_reads, 2);
    assert_eq!(batch_stats.num_filtered, vec![1, 0, 0, 0]);
    assert_eq!(batch_stats.num_filtered_umi, 0);
    assert!(batch[1].is_none());
    batch_stats.calculate_metrics();
    assert_eq!(batch_stats.whitelist_size, 1);
    assert_eq!(batch_stats.whitelist.to_vec(), vec![batch[0].clone().unwrap().0]);
    assert_eq!(batch_stats.counter_maps.entries(0), vec![(0usize, 2u64)]);
}
