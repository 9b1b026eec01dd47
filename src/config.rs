use vstd::prelude::*;
use vstd::string::StringSliceAdditionalSpecFns;

use crate::barcodes::{
    distinct_words, segment_buildable, spacer_of, words_view, BarcodeError, Barcodes, Spacer,
};

verus! {

pub const NEWLINE: u8 = 10;

pub const CARRIAGE_RETURN: u8 = 13;

/// The lines of `b`, split at each newline byte; the last line is what follows the last
/// newline, empty when `b` ends with one.
pub open spec fn split_lines(b: Seq<u8>) -> Seq<Seq<u8>>
    decreases b.len(),
{
    if b.len() == 0 {
        seq![Seq::empty()]
    } else {
        let rest = split_lines(b.drop_last());
        if b.last() == NEWLINE {
            rest.push(Seq::empty())
        } else {
            rest.update(rest.len() - 1, rest.last().push(b.last()))
        }
    }
}

/// A line without its trailing carriage return, if it has one; `None` when nothing is left.
pub open spec fn whitelist_entry(line: Seq<u8>) -> Option<Seq<u8>> {
    let t = if line.len() > 0 && line.last() == CARRIAGE_RETURN {
        line.drop_last()
    } else {
        line
    };
    if t.len() > 0 {
        Some(t)
    } else {
        None
    }
}

/// The words of a whitelist file: one per line, blank lines skipped, line ends in the
/// `\n` or `\r\n` style.
pub open spec fn whitelist_words(text: Seq<u8>) -> Seq<Seq<u8>> {
    split_lines(text).filter_map(|l: Seq<u8>| whitelist_entry(l))
}

proof fn lemma_split_lines_nonempty(b: Seq<u8>)
    ensures
        split_lines(b).len() >= 1,
    decreases b.len(),
{
    if b.len() > 0 {
        lemma_split_lines_nonempty(b.drop_last());
    }
}

/// The words of a whitelist file, in file order.
pub fn parse_whitelist(text: &str) -> (r: Vec<Vec<u8>>)
    ensures
        words_view(r@) == whitelist_words(text.spec_bytes()),
{
    let b = text.as_bytes();
    let ghost f = |l: Seq<u8>| whitelist_entry(l);
    let mut lines: Vec<Vec<u8>> = Vec::new();
    let mut cur: Vec<u8> = Vec::new();
    let mut i: usize = 0;
    proof {
        lemma_split_lines_nonempty(b@.subrange(0, 0));
        assert(b@.subrange(0, 0) =~= Seq::<u8>::empty());
    }
    while i < b.len()
        invariant
            i <= b@.len(),
            f == (|l: Seq<u8>| whitelist_entry(l)),
            split_lines(b@.subrange(0, i as int)).len() >= 1,
            words_view(lines@) == split_lines(b@.subrange(0, i as int)).drop_last().filter_map(f),
            cur@ == split_lines(b@.subrange(0, i as int)).last(),
        decreases b@.len() - i,
    {
        let ghost sl = split_lines(b@.subrange(0, i as int));
        let c = b[i];
        let ghost next = b@.subrange(0, i + 1);
        assert(next.drop_last() =~= b@.subrange(0, i as int));
        if c == NEWLINE {
            let line = strip_carriage_return(cur);
            if line.len() > 0 {
                lines.push(line);
            }
            cur = Vec::new();
            proof {
                let sl2 = split_lines(next);
                assert(sl2 == sl.push(Seq::<u8>::empty()));
                assert(sl2.drop_last() =~= sl);
                assert(sl == sl.drop_last().push(sl.last()));
                assert(words_view(lines@) =~= sl.filter_map(f));
            }
        } else {
            cur.push(c);
            proof {
                let sl2 = split_lines(next);
                assert(sl2.drop_last() =~= sl.drop_last());
            }
        }
        i = i + 1;
    }
    let ghost sl = split_lines(b@.subrange(0, i as int));
    let line = strip_carriage_return(cur);
    if line.len() > 0 {
        lines.push(line);
    }
    proof {
        assert(sl == sl.drop_last().push(sl.last()));
        assert(words_view(lines@) =~= sl.filter_map(f));
        assert(b@.subrange(0, i as int) =~= b@);
    }
    lines
}

/// `line` without its trailing carriage return, if it has one.
fn strip_carriage_return(line: Vec<u8>) -> (r: Vec<u8>)
    ensures
        r@.len() > 0 ==> whitelist_entry(line@) == Some(r@),
        r@.len() == 0 ==> whitelist_entry(line@) is None,
{
    let mut line = line;
    if line.len() > 0 && line[line.len() - 1] == CARRIAGE_RETURN {
        line.pop();
    }
    line
}

/// The bytes of a text, UTF-8 encoded.
pub open spec fn text_bytes(s: Seq<char>) -> Seq<u8> {
    vstd::utf8::encode_utf8(s)
}

/// The parameters section of a configuration document.
pub struct ConfigParameters {
    pub umi_len: usize,
}

/// A configuration document with its segments in order: the whitelist file of each
/// barcode position, and the spacers, the `i`-th following the `i`-th barcode.
pub struct ConfigYaml {
    pub barcodes: Vec<String>,
    pub spacers: Vec<String>,
    pub parameters: Option<ConfigParameters>,
}

/// A configuration document as keyed entries, in key order.
pub struct ConfigYamlRead {
    pub barcodes: Vec<(String, String)>,
    pub spacers: Vec<(String, String)>,
    pub parameters: Option<ConfigParameters>,
}

fn entry_values(entries: &Vec<(String, String)>) -> (r: Vec<String>)
    ensures
        r@.len() == entries@.len(),
        forall|i: int| 0 <= i < r@.len() ==> #[trigger] r@[i]@ == entries@[i].1@,
{
    let mut out: Vec<String> = Vec::new();
    let mut i: usize = 0;
    while i < entries.len()
        invariant
            i <= entries@.len(),
            out@.len() == i,
            forall|l: int| 0 <= l < i ==> #[trigger] out@[l]@ == entries@[l].1@,
        decreases entries@.len() - i,
    {
        out.push(entries[i].1.clone());
        i = i + 1;
    }
    out
}

impl ConfigYamlRead {
    /// The document with its keys dropped; the entries keep their order.
    pub fn into_yaml(self) -> (r: ConfigYaml)
        ensures
            r.barcodes@.len() == self.barcodes@.len(),
            forall|i: int| 0 <= i < r.barcodes@.len() ==> #[trigger] r.barcodes@[i]@ == self.barcodes@[i].1@,
            r.spacers@.len() == self.spacers@.len(),
            forall|i: int| 0 <= i < r.spacers@.len() ==> #[trigger] r.spacers@[i]@ == self.spacers@[i].1@,
            r.parameters == self.parameters,
    {
        let barcodes = entry_values(&self.barcodes);
        let spacers = entry_values(&self.spacers);
        ConfigYaml { barcodes, spacers, parameters: self.parameters }
    }
}

/// Why a configuration could not be assembled.
#[derive(Debug, Clone, Copy, PartialEq, Eq)]
pub enum ConfigError {
    /// The document names no barcode position.
    NoBarcodes,
    /// The whitelist of the barcode position given could not be built.
    Whitelist(usize, BarcodeError),
}

/// The construct bytes of the first `idx.len()` segments for the index tuple `idx`.
pub open spec fn construct_bytes(segs: Seq<Barcodes>, idx: Seq<usize>, linkers: bool) -> Seq<u8>
    decreases idx.len(),
{
    if idx.len() == 0 {
        Seq::empty()
    } else {
        construct_bytes(segs, idx.drop_last(), linkers) + segs[idx.len() - 1].canonical(
            idx.last() as int,
            linkers,
        )
    }
}

/// `idx` holds, for each of its positions, an index into that segment's whitelist.
pub open spec fn valid_indices(segs: Seq<Barcodes>, idx: Seq<usize>) -> bool {
    &&& idx.len() <= segs.len()
    &&& forall|i: int| 0 <= i < idx.len() ==> (#[trigger] idx[i]) < segs[i].whitelist().len()
}

/// The whitelist words that the `i`-th whitelist text holds.
pub open spec fn input_words(whitelists: Seq<String>, i: int) -> Seq<Seq<u8>> {
    whitelist_words(text_bytes(whitelists[i]@))
}

/// The spacer of the `i`-th barcode position: none past the end of the spacer list.
pub open spec fn input_spacer(yaml: ConfigYaml, i: int) -> Seq<u8> {
    if i < yaml.spacers@.len() {
        text_bytes(yaml.spacers@[i]@)
    } else {
        Seq::empty()
    }
}

/// The `i`-th barcode position can be built.
pub open spec fn segment_ok(yaml: ConfigYaml, whitelists: Seq<String>, i: int) -> bool {
    &&& segment_buildable(input_words(whitelists, i), input_spacer(yaml, i))
    &&& distinct_words(input_words(whitelists, i))
}

/// The construct: its barcode positions in order, the UMI length, and whether the
/// canonical construct keeps the spacers.
pub struct Config {
    barcodes: Vec<Barcodes>,
    linkers: bool,
    umi_len: usize,
}

impl Config {
    pub closed spec fn segments(&self) -> Seq<Barcodes> {
        self.barcodes@
    }

    pub closed spec fn emits_linkers(&self) -> bool {
        self.linkers
    }

    pub closed spec fn umi_length(&self) -> nat {
        self.umi_len as nat
    }

    pub closed spec fn wf(&self) -> bool {
        &&& self.barcodes@.len() >= 1
        &&& forall|i: int| 0 <= i < self.barcodes@.len() ==> (#[trigger] self.barcodes@[i]).wf()
    }

    /// What a well-formed configuration guarantees.
    pub proof fn lemma_wf(&self)
        requires
            self.wf(),
        ensures
            self.segments().len() >= 1,
            forall|i: int| 0 <= i < self.segments().len() ==> (#[trigger] self.segments()[i]).wf(),
    {
    }

    /// The number of barcode positions.
    pub fn barcode_count(&self) -> (r: usize)
        ensures
            r == self.segments().len(),
    {
        self.barcodes.len()
    }

    /// The UMI length the document sets; 0 where it sets none.
    pub fn umi_len(&self) -> (r: usize)
        ensures
            r == self.umi_length(),
    {
        self.umi_len
    }

    /// Whether the canonical construct keeps the spacers.
    pub fn linkers(&self) -> (r: bool)
        ensures
            r == self.emits_linkers(),
    {
        self.linkers
    }

    /// The canonical bytes of entry `position` of barcode position `b_index`; `None` where
    /// either is out of range.
    pub fn get_barcode(&self, b_index: usize, position: usize) -> (r: Option<Vec<u8>>)
        ensures
            (b_index < self.segments().len() && position < self.segments()[b_index as int].whitelist().len())
                ==> (r matches Some(v) && v@ == self.segments()[b_index as int].canonical(
                position as int,
                self.emits_linkers(),
            )),
            !(b_index < self.segments().len() && position < self.segments()[b_index as int].whitelist().len())
                ==> r is None,
    {
        if b_index >= self.barcodes.len() {
            return None;
        }
        self.barcodes[b_index].get_barcode(position, self.linkers)
    }

    /// The canonical barcode bytes of an index tuple: for each position in order, the
    /// entry's word, followed by its spacer when the configuration keeps spacers.
    pub fn build_barcode(&self, indices: &[usize]) -> (r: Vec<u8>)
        requires
            valid_indices(self.segments(), indices@),
        ensures
            r@ == construct_bytes(self.segments(), indices@, self.emits_linkers()),
    {
        let mut bc: Vec<u8> = Vec::new();
        let mut i: usize = 0;
        while i < indices.len()
            invariant
                i <= indices@.len(),
                valid_indices(self.segments(), indices@),
                bc@ == construct_bytes(self.segments(), indices@.subrange(0, i as int), self.linkers),
            decreases indices@.len() - i,
        {
            let ghost pre = indices@.subrange(0, i as int);
            let ghost next = indices@.subrange(0, i + 1);
            assert(next.drop_last() =~= pre);
            let mut part = self.barcodes[i].get_barcode(indices[i], self.linkers).unwrap();
            bc.append(&mut part);
            i = i + 1;
        }
        assert(indices@.subrange(0, indices@.len() as int) =~= indices@);
        bc
    }

    /// Matches barcode position `set_idx` in `seq`, trying the windows that start in
    /// `pos ..= pos + offset` (only `pos` when `offset` is `None`), and returns the
    /// position just past the first matching window and the entry's index.
    pub fn match_subsequence(&self, seq: &[u8], set_idx: usize, pos: usize, offset: Option<usize>) -> (r:
        Option<(usize, usize)>)
        requires
            self.wf(),
            set_idx < self.segments().len(),
        ensures
            ({
                let span = match offset {
                    Some(o) => o as int,
                    None => 0,
                };
                let m = self.segments()[set_idx as int].first_match_spec(seq@, pos as int, pos + span);
                match r {
                    Some((e, j)) => m == Some((e as int, j as int)),
                    None => m is None,
                }
            }),
    {
        let span = match offset {
            Some(o) => o,
            None => 0,
        };
        self.barcodes[set_idx].match_subsequence(seq, pos, span)
    }
}

impl Config {
    /// Builds one barcode position from its whitelist text and optional spacer.
    pub fn load_barcode(text: &str, spacer: Option<&Spacer>, exact: bool) -> (r: Result<Barcodes, BarcodeError>)
        ensures
            ({
                let ws = whitelist_words(text.spec_bytes());
                &&& (r is Ok) <==> segment_buildable(ws, spacer_of(spacer)) && distinct_words(ws)
                &&& (r matches Err(BarcodeError::MalformedWhitelist)) <==> !segment_buildable(ws, spacer_of(spacer))
                &&& r matches Ok(b) ==> {
                    &&& b.wf()
                    &&& b.whitelist() == ws
                    &&& b.spacer_seq() == spacer_of(spacer)
                    &&& b.word_length() == crate::barcodes::first_len(ws)
                    &&& b.is_exact() == exact
                }
            }),
    {
        let words = parse_whitelist(text);
        Barcodes::new(words, spacer, exact)
    }

    /// Assembles the construct from a configuration document and the text of each
    /// whitelist file it names, in the same order. The UMI length is the document's,
    /// or 0 where it sets none.
    pub fn from_yaml(yaml: ConfigYaml, whitelists: &Vec<String>, exact: bool, linkers: bool) -> (r: Result<
        Config,
        ConfigError,
    >)
        requires
            whitelists@.len() == yaml.barcodes@.len(),
        ensures
            ({
                let n = yaml.barcodes@.len() as int;
                &&& (r matches Err(ConfigError::NoBarcodes)) <==> n == 0
                &&& r matches Err(ConfigError::Whitelist(i, e)) ==> {
                    &&& i < n
                    &&& forall|l: int| 0 <= l < i ==> segment_ok(yaml, whitelists@, l)
                    &&& !segment_ok(yaml, whitelists@, i as int)
                    &&& (e == BarcodeError::MalformedWhitelist <==> !segment_buildable(
                        input_words(whitelists@, i as int),
                        input_spacer(yaml, i as int),
                    ))
                }
                &&& (n >= 1 && exists|i: int| 0 <= i < n && !segment_ok(yaml, whitelists@, i))
                    ==> (r matches Err(ConfigError::Whitelist(_, _)))
                &&& (r is Ok) <==> (n >= 1 && forall|i: int| 0 <= i < n ==> segment_ok(yaml, whitelists@, i))
                &&& r matches Ok(c) ==> {
                    &&& c.wf()
                    &&& c.segments().len() == n
                    &&& c.emits_linkers() == linkers
                    &&& c.umi_length() == match yaml.parameters {
                        Some(p) => p.umi_len as nat,
                        None => 0,
                    }
                    &&& forall|i: int| 0 <= i < n ==> {
                        &&& (#[trigger] c.segments()[i]).whitelist() == input_words(whitelists@, i)
                        &&& c.segments()[i].spacer_seq() == input_spacer(yaml, i)
                        &&& c.segments()[i].word_length() == crate::barcodes::first_len(input_words(whitelists@, i))
                        &&& c.segments()[i].is_exact() == exact
                    }
                }
            }),
    {
        let n = yaml.barcodes.len();
        if n == 0 {
            return Err(ConfigError::NoBarcodes);
        }
        let mut barcodes: Vec<Barcodes> = Vec::new();
        let mut i: usize = 0;
        while i < n
            invariant
                n == yaml.barcodes@.len() == whitelists@.len(),
                i <= n,
                barcodes@.len() == i,
                forall|l: int| 0 <= l < i ==> segment_ok(yaml, whitelists@, l),
                forall|l: int| 0 <= l < i ==> {
                    &&& (#[trigger] barcodes@[l]).wf()
                    &&& barcodes@[l].whitelist() == input_words(whitelists@, l)
                    &&& barcodes@[l].spacer_seq() == input_spacer(yaml, l)
                    &&& barcodes@[l].word_length() == crate::barcodes::first_len(input_words(whitelists@, l))
                    &&& barcodes@[l].is_exact() == exact
                },
            decreases n - i,
        {
            let text = whitelists[i].as_str();
            assert(text.spec_bytes() == text_bytes(whitelists@[i as int]@));
            let built = if i < yaml.spacers.len() {
                let sp_text = yaml.spacers[i].as_str();
                let sp = Spacer::from_str(sp_text);
                assert(sp@ == input_spacer(yaml, i as int));
                Config::load_barcode(text, Some(&sp), exact)
            } else {
                Config::load_barcode(text, None, exact)
            };
            match built {
                Ok(b) => {
                    barcodes.push(b);
                },
                Err(e) => {
                    return Err(ConfigError::Whitelist(i, e));
                },
            }
            i = i + 1;
        }
        let umi_len = match yaml.parameters {
            Some(p) => p.umi_len,
            None => 0,
        };
        Ok(Config { barcodes, linkers, umi_len })
    }
}

/// Where segment `n` starts in a construct: the canonical lengths of the segments before it.
pub open spec fn segment_offset(segs: Seq<Barcodes>, n: int, linkers: bool) -> nat
    decreases n,
{
    if n <= 0 {
        0
    } else {
        segment_offset(segs, n - 1, linkers) + if linkers {
            segs[n - 1].eff_len()
        } else {
            segs[n - 1].word_length()
        }
    }
}

pub proof fn lemma_construct_len(segs: Seq<Barcodes>, idx: Seq<usize>, linkers: bool)
    requires
        forall|i: int| 0 <= i < segs.len() ==> (#[trigger] segs[i]).wf(),
        valid_indices(segs, idx),
    ensures
        construct_bytes(segs, idx, linkers).len() == segment_offset(segs, idx.len() as int, linkers),
    decreases idx.len(),
{
    if idx.len() > 0 {
        let pre = idx.drop_last();
        assert(valid_indices(segs, pre)) by {
            assert forall|i: int| 0 <= i < pre.len() implies (#[trigger] pre[i]) < segs[i].whitelist().len() by {
                assert(pre[i] == idx[i]);
            }
        }
        lemma_construct_len(segs, pre, linkers);
        let n = idx.len() - 1;
        segs[n].lemma_wf();
        assert(idx[n] < segs[n].whitelist().len());
        assert(segs[n].whitelist()[idx[n] as int].len() == segs[n].word_length());
    }
}

pub proof fn lemma_construct_piece(segs: Seq<Barcodes>, idx: Seq<usize>, linkers: bool, n: int)
    requires
        forall|i: int| 0 <= i < segs.len() ==> (#[trigger] segs[i]).wf(),
        valid_indices(segs, idx),
        0 <= n < idx.len(),
    ensures
        ({
            let off = segment_offset(segs, n, linkers) as int;
            let piece = segs[n].canonical(idx[n] as int, linkers);
            &&& off + piece.len() <= construct_bytes(segs, idx, linkers).len()
            &&& construct_bytes(segs, idx, linkers).subrange(off, off + piece.len()) == piece
        }),
    decreases idx.len(),
{
    let pre = idx.drop_last();
    assert(valid_indices(segs, pre)) by {
        assert forall|i: int| 0 <= i < pre.len() implies (#[trigger] pre[i]) < segs[i].whitelist().len() by {
            assert(pre[i] == idx[i]);
        }
    }
    let whole = construct_bytes(segs, idx, linkers);
    let head = construct_bytes(segs, pre, linkers);
    let off = segment_offset(segs, n, linkers) as int;
    let piece = segs[n].canonical(idx[n] as int, linkers);
    if n == idx.len() - 1 {
        lemma_construct_len(segs, pre, linkers);
        assert(whole.subrange(off, off + piece.len()) =~= piece);
    } else {
        lemma_construct_piece(segs, pre, linkers, n);
        assert(pre[n] == idx[n]);
        assert(whole.subrange(off, off + piece.len()) =~= head.subrange(off, off + piece.len()));
    }
}

/// The construct without spacers keeps the word of each segment: the bytes at the start
/// of segment `n` in the construct with spacers, as many as the segment's word length,
/// are those at its start in the construct without spacers, the entry's word.
pub proof fn lemma_linker_toggle(segs: Seq<Barcodes>, idx: Seq<usize>, n: int)
    requires
        forall|i: int| 0 <= i < segs.len() ==> (#[trigger] segs[i]).wf(),
        valid_indices(segs, idx),
        0 <= n < idx.len(),
    ensures
        ({
            let with = construct_bytes(segs, idx, true);
            let without = construct_bytes(segs, idx, false);
            let a = segment_offset(segs, n, true) as int;
            let b = segment_offset(segs, n, false) as int;
            let l = segs[n].word_length() as int;
            &&& with.len() == segment_offset(segs, idx.len() as int, true)
            &&& without.len() == segment_offset(segs, idx.len() as int, false)
            &&& with.subrange(a, a + l) == without.subrange(b, b + l)
            &&& without.subrange(b, b + l) == segs[n].whitelist()[idx[n] as int]
        }),
{
    lemma_construct_len(segs, idx, true);
    lemma_construct_len(segs, idx, false);
    lemma_construct_piece(segs, idx, true, n);
    lemma_construct_piece(segs, idx, false, n);
    segs[n].lemma_wf();
    let w = segs[n].whitelist()[idx[n] as int];
    let with = construct_bytes(segs, idx, true);
    let a = segment_offset(segs, n, true) as int;
    let l = segs[n].word_length() as int;
    assert(w.len() == l);
    let p = segs[n].canonical(idx[n] as int, true);
    assert(with.subrange(a, a + l) =~= p.subrange(0, l));
    assert(p.subrange(0, l) =~= w);
}

/// Segment lists that agree on every whitelist and spacer.
pub open spec fn same_segments(a: Seq<Barcodes>, b: Seq<Barcodes>) -> bool {
    &&& a.len() == b.len()
    &&& forall|i: int|
        0 <= i < a.len() ==> (#[trigger] a[i]).whitelist() == b[i].whitelist() && a[i].spacer_seq()
            == b[i].spacer_seq() && a[i].word_length() == b[i].word_length()
}

proof fn lemma_same_segments_agree(a: Seq<Barcodes>, b: Seq<Barcodes>, idx: Seq<usize>, linkers: bool, n: int)
    requires
        same_segments(a, b),
        idx.len() <= a.len(),
        0 <= n <= a.len(),
    ensures
        construct_bytes(a, idx, linkers) == construct_bytes(b, idx, linkers),
        segment_offset(a, n, linkers) == segment_offset(b, n, linkers),
    decreases idx.len() + n,
{
    if idx.len() > 0 {
        lemma_same_segments_agree(a, b, idx.drop_last(), linkers, 0);
        let k = idx.len() - 1;
        assert(a[k].whitelist() == b[k].whitelist());
    }
    if n > 0 {
        lemma_same_segments_agree(a, b, Seq::empty(), linkers, n - 1);
        assert(a[n - 1].whitelist() == b[n - 1].whitelist());
    }
}

/// Two configurations built from one document, one keeping the spacers and one not: at
/// the start of segment `n`, the construct with spacers holds, for as many bytes as the
/// segment's word length, what the construct without spacers holds at its start.
pub proof fn lemma_linker_toggle_configs(cf: &Config, ct: &Config, idx: Seq<usize>, n: int)
    requires
        cf.wf(),
        ct.wf(),
        !cf.emits_linkers(),
        ct.emits_linkers(),
        same_segments(cf.segments(), ct.segments()),
        valid_indices(ct.segments(), idx),
        0 <= n < idx.len(),
    ensures
        ({
            let with = construct_bytes(ct.segments(), idx, ct.emits_linkers());
            let without = construct_bytes(cf.segments(), idx, cf.emits_linkers());
            let a = segment_offset(ct.segments(), n, true) as int;
            let b = segment_offset(cf.segments(), n, false) as int;
            let l = ct.segments()[n].word_length() as int;
            &&& with.subrange(a, a + l) == without.subrange(b, b + l)
            &&& without.subrange(b, b + l) == ct.segments()[n].whitelist()[idx[n] as int]
        }),
{
    ct.lemma_wf();
    lemma_same_segments_agree(cf.segments(), ct.segments(), idx, false, n);
    lemma_linker_toggle(ct.segments(), idx, n);
}

} // verus!
