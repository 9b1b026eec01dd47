use pipspeak::barcodes::{BarcodeError, Barcodes, Spacer};
use pipspeak::config::{parse_whitelist, Config, ConfigError, ConfigParameters, ConfigYaml, ConfigYamlRead};

fn words(ws: &[&str]) -> Vec<Vec<u8>> {
    ws.iter().map(|w| w.as_bytes().to_vec()).collect()
}

#[test]
fn one_mismatch_lookup_resolves_unique_neighbours() {
    let s = Barcodes::new(words(&["ACGT", "ACGA", "TTTT"]), None, false).unwrap();
    // exact readings win
    assert_eq!(s.lookup_at(b"ACGA", 0), Some(1));
    assert_eq!(s.lookup_at(b"ACGT", 0), Some(0));
    // one substitution from ACGT only
    assert_eq!(s.lookup_at(b"TCGT", 0), Some(0));
    // one substitution from both ACGT and ACGA
    assert_eq!(s.lookup_at(b"ACGC", 0), None);
    // one substitution from TTTT
    assert_eq!(s.lookup_at(b"TTGT", 0), Some(2));
    // two substitutions away from everything
    assert_eq!(s.lookup_at(b"GGGG", 0), None);
    // no nucleotide
    assert_eq!(s.lookup_at(b"ACGN", 0), None);
}

#[test]
fn exact_lookup_takes_no_mismatch() {
    let s = Barcodes::new(words(&["ACGT", "TTTT"]), None, true).unwrap();
    assert_eq!(s.lookup_at(b"ACGT", 0), Some(0));
    assert_eq!(s.lookup_at(b"TCGT", 0), None);
}

#[test]
fn spacer_wildcards_and_literals() {
    let sp = Spacer::from_str("GNA");
    let s = Barcodes::new(words(&["AC", "TT"]), Some(&sp), false).unwrap();
    assert_eq!(s.len(), 5);
    assert_eq!(s.lookup_at(b"ACGTA", 0), Some(0));
    assert_eq!(s.lookup_at(b"ACGCA", 0), Some(0));
    // one literal of the spacer wrong: still entry 0 in one-mismatch mode
    assert_eq!(s.lookup_at(b"ACCTA", 0), Some(0));
    // a wrong literal and a wrong word base
    assert_eq!(s.lookup_at(b"AGCTA", 0), None);
    let e = Barcodes::new(words(&["AC", "TT"]), Some(&sp), true).unwrap();
    assert_eq!(e.lookup_at(b"ACCTA", 0), None);
    assert_eq!(e.lookup_at(b"TTGGA", 0), Some(1));
    assert_eq!(s.get_barcode(1, true), Some(b"TTGNA".to_vec()));
    assert_eq!(s.get_barcode(1, false), Some(b"TT".to_vec()));
    assert_eq!(s.get_barcode(2, false), None);
}

#[test]
fn sliding_match_finds_first_hit() {
    let s = Barcodes::new(words(&["GATTACA"]), None, true).unwrap();
    assert_eq!(s.match_subsequence(b"NNGATTACAGG", 0, 5), Some((9, 0)));
    assert_eq!(s.match_subsequence(b"NNGATTACAGG", 0, 1), None);
    assert_eq!(s.match_subsequence(b"NNGATTACAGG", 2, 0), Some((9, 0)));
    assert_eq!(s.match_subsequence(b"GATT", 0, 5), None);
}

#[test]
fn malformed_whitelists_are_refused() {
    assert_eq!(Barcodes::new(words(&["ACGT", "ACG"]), None, false).err(), Some(BarcodeError::MalformedWhitelist));
    assert_eq!(Barcodes::new(words(&["ACGT", "ACGN"]), None, false).err(), Some(BarcodeError::MalformedWhitelist));
    let sp = Spacer::from_str("AXA");
    assert_eq!(Barcodes::new(words(&["ACGT"]), Some(&sp), false).err(), Some(BarcodeError::MalformedWhitelist));
    let long = "A".repeat(65);
    let long_bad = format!("{}N", "A".repeat(64));
    assert_eq!(Barcodes::new(words(&[long.as_str(), long_bad.as_str()]), None, false).err(), Some(BarcodeError::MalformedWhitelist));
}

#[test]
fn duplicate_words_are_ambiguous() {
    assert_eq!(Barcodes::new(words(&["ACGT", "TTTT", "ACGT"]), None, true).err(), Some(BarcodeError::AmbiguousWhitelist));
}

#[test]
fn whitelist_text_is_split_into_words() {
    assert_eq!(parse_whitelist("AAA\r\nCCC\n\nGGG"), words(&["AAA", "CCC", "GGG"]));
    assert_eq!(parse_whitelist(""), Vec::<Vec<u8>>::new());
    let b = Config::load_barcode("AC\nGT\n", None, true).unwrap();
    assert_eq!(b.size(), 2);
    assert_eq!(Config::load_barcode("AC\nGTA\n", None, true).err(), Some(BarcodeError::MalformedWhitelist));
}

fn yaml(n: usize, spacers: &[&str]) -> ConfigYaml {
    ConfigYaml {
        barcodes: (0..n).map(|i| format!("bc{}.txt", i + 1)).collect(),
        spacers: spacers.iter().map(|s| s.to_string()).collect(),
        parameters: Some(ConfigParameters { umi_len: 8 }),
    }
}

#[test]
fn config_reads_parameters_and_spacers() {
    let wl = vec!["AAAA\nCCCC\n".to_string(), "GG\nTT\n".to_string()];
    let c = Config::from_yaml(yaml(2, &["GA"]), &wl, false, true).unwrap();
    assert_eq!(c.barcode_count(), 2);
    assert_eq!(c.umi_len(), 8);
    // the second position has no spacer: the spacer list is shorter
    assert_eq!(c.get_barcode(0, 1), Some(b"CCCCGA".to_vec()));
    assert_eq!(c.get_barcode(1, 1), Some(b"TT".to_vec()));
    assert_eq!(c.get_barcode(1, 2), None);
    assert_eq!(c.get_barcode(2, 0), None);
    assert_eq!(c.build_barcode(&[1, 0]), b"CCCCGAGG".to_vec());
    assert_eq!(c.match_subsequence(b"NCCCCGAGG", 0, 0, Some(1)), Some((7, 1)));
    assert_eq!(c.match_subsequence(b"NCCCCGAGG", 0, 0, None), None);
}

#[test]
fn linker_toggle_keeps_each_word() {
    let wl = vec!["AAAA\nCCCC\n".to_string(), "GG\nTT\n".to_string()];
    let with = Config::from_yaml(yaml(2, &["GA", "CAT"]), &wl, false, true).unwrap();
    let without = Config::from_yaml(yaml(2, &["GA", "CAT"]), &wl, false, false).unwrap();
    let a = with.build_barcode(&[1, 1]);
    let b = without.build_barcode(&[1, 1]);
    assert_eq!(a, b"CCCCGATTCAT".to_vec());
    assert_eq!(b, b"CCCCTT".to_vec());
    assert_eq!(a[0..4], b[0..4]);
    assert_eq!(a[6..8], b[4..6]);
}

#[test]
fn config_errors() {
    assert_eq!(Config::from_yaml(yaml(0, &[]), &Vec::new(), false, false).err(), Some(ConfigError::NoBarcodes));
    let wl = vec!["AAAA\n".to_string(), "GG\nGG\n".to_string()];
    assert_eq!(
        Config::from_yaml(yaml(2, &[]), &wl, false, false).err(),
        Some(ConfigError::Whitelist(1, BarcodeError::AmbiguousWhitelist))
    );
    let wl = vec!["AAAA\nAC\n".to_string(), "GG\nGG\n".to_string()];
    assert_eq!(
        Config::from_yaml(yaml(2, &[]), &wl, false, false).err(),
        Some(ConfigError::Whitelist(0, BarcodeError::MalformedWhitelist))
    );
    // no limit on the number of barcode combinations
    let wl: Vec<String> = (0..200).map(|_| "A\nC\n".to_string()).collect();
    assert!(Config::from_yaml(yaml(200, &[]), &wl, false, false).is_ok());
}

#[test]
fn keyed_document_keeps_entry_order() {
    let read = ConfigYamlRead {
        barcodes: vec![("bc1".to_string(), "one.txt".to_string()), ("bc2".to_string(), "two.txt".to_string())],
        spacers: vec![("bc1".to_string(), "ATG".to_string())],
        parameters: None,
    };
    let y = read.into_yaml();
    assert_eq!(y.barcodes, vec!["one.txt".to_string(), "two.txt".to_string()]);
    assert_eq!(y.spacers, vec!["ATG".to_string()]);
    assert!(y.parameters.is_none());
}

#[test]
fn longest_words_are_accepted() {
    let w = "ACGT".repeat(16);
    let s = Barcodes::new(words(&[w.as_str()]), None, false).unwrap();
    assert_eq!(s.len(), 64);
    assert_eq!(s.lookup_at(w.as_bytes(), 0), Some(0));
    let mut one_off = w.clone().into_bytes();
    one_off[63] = b'A';
    assert_eq!(s.lookup_at(&one_off, 0), Some(0));
}

#[test]
fn canonical_construct_keeps_spacer_wildcards() {
    let wl = vec!["AAAA\nCCCC\n".to_string()];
    let c = Config::from_yaml(yaml(1, &["GNA"]), &wl, false, true).unwrap();
    assert_eq!(c.build_barcode(&[0]), b"AAAAGNA".to_vec());
}

#[test]
fn empty_whitelist_never_matches() {
    let s = Barcodes::new(Vec::new(), None, false).unwrap();
    assert_eq!(s.size(), 0);
    assert_eq!(s.lookup_at(b"", 0), None);
    assert_eq!(s.match_subsequence(b"ACGT", 0, 3), None);
    let wl = vec!["".to_string()];
    let c = Config::from_yaml(yaml(1, &[]), &wl, false, false).unwrap();
    assert_eq!(c.match_subsequence(b"ACGT", 0, 0, Some(3)), None);
}

#[test]
fn words_longer_than_64_bases() {
    let a = "ACGT".repeat(20);
    let mut b = a.clone().into_bytes();
    b[10] = b'A';
    b[50] = b'A';
    let b = String::from_utf8(b).unwrap();
    let sp = Spacer::from_str("GNA");
    let s = Barcodes::new(words(&[a.as_str(), b.as_str()]), Some(&sp), false).unwrap();
    assert_eq!(s.len(), 83);
    let window = |w: &str, spacer: &str| format!("{}{}", w, spacer).into_bytes();
    assert_eq!(s.lookup_at(&window(&a, "GCA"), 0), Some(0));
    assert_eq!(s.lookup_at(&window(&b, "GTA"), 0), Some(1));
    // one substitution from a only
    let mut a1 = a.clone().into_bytes();
    a1[70] = b'A';
    assert_eq!(s.lookup_at(&window(&String::from_utf8(a1).unwrap(), "GCA"), 0), Some(0));
    // one literal of the spacer wrong
    assert_eq!(s.lookup_at(&window(&a, "TCA"), 0), Some(0));
    // one substitution from both a and b
    let mut ab = a.clone().into_bytes();
    ab[10] = b'A';
    let ab = String::from_utf8(ab).unwrap();
    assert_eq!(s.lookup_at(&window(&ab, "GCA"), 0), None);
    // not a nucleotide
    assert_eq!(s.lookup_at(&window(&a, "GNA"), 0), None);
    let e = Barcodes::new(words(&[a.as_str(), b.as_str()]), Some(&sp), true).unwrap();
    assert_eq!(e.lookup_at(&window(&a, "TCA"), 0), None);
    assert_eq!(e.lookup_at(&window(&b, "GGA"), 0), Some(1));
    let mut seq = b"NN".to_vec();
    seq.extend(window(&b, "GGA"));
    assert_eq!(e.match_subsequence(&seq, 0, 5), Some((85, 1)));
    assert_eq!(Barcodes::new(words(&[a.as_str(), b.as_str(), a.as_str()]), None, false).err(), Some(BarcodeError::AmbiguousWhitelist));
}
