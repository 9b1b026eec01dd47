use std::collections::HashMap;
use vstd::prelude::*;
use vstd::string::StringSliceAdditionalSpecFns;

use crate::dna::{
    base_to_bits, bits_to_base, dna_code, is_base, is_dna, lemma_code_injective, pack_dna, value_base,
    base_value, BASE_A, BASE_C, BASE_G, BASE_N, BASE_T,
};

verus! {

broadcast use vstd::std_specs::hash::group_hash_axioms;

/// True of the bytes a spacer may hold: the four nucleotides and the wildcard `N`.
pub open spec fn is_spacer_byte(b: u8) -> bool {
    is_base(b) || b == BASE_N
}

/// `a` and `b` have one length and differ in exactly one position.
pub open spec fn one_off(a: Seq<u8>, b: Seq<u8>) -> bool {
    &&& a.len() == b.len()
    &&& exists|p: int| 0 <= p < a.len() && a[p] != b[p] && a == #[trigger] b.update(p, a[p])
}

/// The number of literal spacer positions that `z` does not reproduce; a wildcard
/// position of `sp` takes any byte.
pub open spec fn spacer_mismatches(z: Seq<u8>, sp: Seq<u8>) -> nat
    decreases sp.len(),
{
    if sp.len() == 0 || z.len() == 0 {
        0
    } else {
        spacer_mismatches(z.drop_last(), sp.drop_last()) + if sp.last() != BASE_N && z.last()
            != sp.last() {
            1nat
        } else {
            0nat
        }
    }
}

/// Words of one length `len`, of nucleotides only, and a spacer over `ACGTN`.
pub open spec fn valid_segment_input(words: Seq<Seq<u8>>, len: nat, sp: Seq<u8>) -> bool {
    &&& forall|j: int| 0 <= j < words.len() ==> (#[trigger] words[j]).len() == len && is_dna(words[j])
    &&& forall|k: int| 0 <= k < sp.len() ==> is_spacer_byte(#[trigger] sp[k])
}

/// No word stands twice in the whitelist.
pub open spec fn distinct_words(words: Seq<Seq<u8>>) -> bool {
    forall|i: int, j: int| 0 <= i < j < words.len() ==> words[i] != words[j]
}

/// Window `x` reproduces entry `j` exactly: its word, then every literal of the spacer.
pub open spec fn hits(words: Seq<Seq<u8>>, len: nat, sp: Seq<u8>, x: Seq<u8>, j: int) -> bool {
    &&& 0 <= j < words.len()
    &&& words[j] == x.subrange(0, len as int)
    &&& spacer_mismatches(x.subrange(len as int, x.len() as int), sp) == 0
}

/// Window `x` lies one substitution away from a reading of entry `j`.
pub open spec fn near(words: Seq<Seq<u8>>, len: nat, sp: Seq<u8>, x: Seq<u8>, j: int) -> bool {
    let y = x.subrange(0, len as int);
    let m = spacer_mismatches(x.subrange(len as int, x.len() as int), sp);
    &&& 0 <= j < words.len()
    &&& ((words[j] == y && m == 1) || (one_off(words[j], y) && m == 0))
}

/// The whitelist index a window of a segment resolves to. Windows of the wrong length or
/// holding a byte outside `ACGT` resolve to nothing. An exact reading wins; in one-mismatch
/// mode a window one substitution away from exactly one entry resolves to that entry, and
/// one that is near two or more entries resolves to nothing.
pub open spec fn resolve(words: Seq<Seq<u8>>, len: nat, sp: Seq<u8>, exact: bool, x: Seq<u8>) -> Option<int> {
    if x.len() != len + sp.len() || !is_dna(x) {
        None
    } else if exists|j: int| hits(words, len, sp, x, j) {
        Some(choose|j: int| hits(words, len, sp, x, j))
    } else if !exact && exists|j: int|
        near(words, len, sp, x, j) && forall|k: int| near(words, len, sp, x, k) ==> k == j {
        Some(choose|j: int| near(words, len, sp, x, j) && forall|k: int| near(words, len, sp, x, k) ==> k == j)
    } else {
        None
    }
}

/// The number of positions at which `a` and `b` differ.
pub open spec fn hamming(a: Seq<u8>, b: Seq<u8>) -> nat
    decreases a.len(),
{
    if a.len() == 0 || b.len() == 0 {
        0
    } else {
        hamming(a.drop_last(), b.drop_last()) + if a.last() != b.last() {
            1nat
        } else {
            0nat
        }
    }
}

/// Two strings of one length are equal exactly when they differ nowhere, and one
/// substitution apart exactly when they differ at one position.
pub proof fn lemma_hamming(a: Seq<u8>, b: Seq<u8>)
    requires
        a.len() == b.len(),
    ensures
        hamming(a, b) == 0 <==> a == b,
        hamming(a, b) == 1 <==> one_off(a, b),
    decreases a.len(),
{
    if a.len() == 0 {
        assert(a =~= b);
        if one_off(a, b) {
            let p = choose|p: int| 0 <= p < a.len() && a[p] != b[p] && a == #[trigger] b.update(p, a[p]);
        }
    } else {
        let a1 = a.drop_last();
        let b1 = b.drop_last();
        let l = a.len() - 1;
        lemma_hamming(a1, b1);
        if a1 == b1 && a.last() == b.last() {
            assert forall|i: int| 0 <= i < a.len() implies a[i] == b[i] by {
                if i < l {
                    assert(a[i] == a1[i] && b[i] == b1[i]);
                }
            }
            assert(a =~= b);
        }
        if a == b {
            assert(a1 =~= b1);
        }
        if one_off(a, b) {
            let p = choose|p: int| 0 <= p < a.len() && a[p] != b[p] && a == #[trigger] b.update(p, a[p]);
            if p == l {
                assert(a1 =~= b1);
            } else {
                assert(a1 =~= b1.update(p, a1[p]));
                assert(one_off(a1, b1));
                assert(a.last() == b.last());
            }
        }
        if hamming(a, b) == 1 {
            if a.last() != b.last() {
                assert(a1 == b1);
                assert forall|i: int| 0 <= i < a.len() implies a[i] == b.update(l, a[l])[i] by {
                    if i < l {
                        assert(a[i] == a1[i] && b[i] == b1[i]);
                    }
                }
                assert(a =~= b.update(l, a[l]));
            } else {
                let p = choose|p: int| 0 <= p < a1.len() && a1[p] != b1[p] && a1 == #[trigger] b1.update(p, a1[p]);
                assert forall|i: int| 0 <= i < a.len() implies a[i] == b.update(p, a[p])[i] by {
                    if i < l {
                        assert(a[i] == a1[i] && b[i] == b1[i]);
                        assert(a1[i] == b1.update(p, a1[p])[i]);
                    }
                }
                assert(a =~= b.update(p, a[p]));
            }
        }
    }
}

/// The number of positions at which `w` and the `w.len()` bytes of `seq` from `start` on
/// differ.
fn count_differences(w: &Vec<u8>, seq: &[u8], start: usize) -> (r: usize)
    requires
        start + w@.len() <= seq@.len(),
    ensures
        r == hamming(w@, seq@.subrange(start as int, start + w@.len())),
{
    let n = w.len();
    let sn = seq.len();
    let mut d: usize = 0;
    let mut q: usize = 0;
    while q < n
        invariant
            n == w@.len(),
            sn == seq@.len(),
            start + n <= sn,
            q <= n,
            d <= q,
            d == hamming(w@.subrange(0, q as int), seq@.subrange(start as int, start + q)),
        decreases n - q,
    {
        assert(w@.subrange(0, q + 1).drop_last() =~= w@.subrange(0, q as int));
        assert(seq@.subrange(start as int, start + q + 1).drop_last() =~= seq@.subrange(start as int, start + q));
        if w[q] != seq[start + q] {
            d = d + 1;
        }
        q = q + 1;
    }
    assert(w@.subrange(0, n as int) =~= w@);
    d
}

/// Whether the `len` bytes of `seq` from `start` on are all nucleotides.
fn all_bases(seq: &[u8], start: usize, len: usize) -> (r: bool)
    requires
        start + len <= seq@.len(),
    ensures
        r == is_dna(seq@.subrange(start as int, start + len)),
{
    let sn = seq.len();
    let mut q: usize = 0;
    while q < len
        invariant
            sn == seq@.len(),
            start + len <= sn,
            q <= len,
            forall|i: int| 0 <= i < q ==> is_base(#[trigger] seq@[start + i]),
        decreases len - q,
    {
        if base_to_bits(seq[start + q]).is_none() {
            assert(seq@.subrange(start as int, start + len)[q as int] == seq@[start + q]);
            return false;
        }
        q = q + 1;
    }
    assert forall|i: int| 0 <= i < len implies is_base(#[trigger] seq@.subrange(start as int, start + len)[i]) by {
        assert(seq@.subrange(start as int, start + len)[i] == seq@[start + i]);
    }
    true
}

/// Whether no word stands twice in the whitelist.
fn words_distinct(words: &Vec<Vec<u8>>) -> (r: bool)
    ensures
        r == distinct_words(words_view(words@)),
{
    let ghost ws = words_view(words@);
    let n = words.len();
    let mut i: usize = 0;
    while i < n
        invariant
            n == words@.len() == ws.len(),
            ws == words_view(words@),
            i <= n,
            forall|a: int, b: int| 0 <= a < b < n && a < i ==> ws[a] != ws[b],
        decreases n - i,
    {
        let mut j: usize = i + 1;
        while j < n
            invariant
                n == words@.len() == ws.len(),
                ws == words_view(words@),
                i < n,
                i < j <= n,
                forall|a: int, b: int| 0 <= a < b < n && a < i ==> ws[a] != ws[b],
                forall|b: int| i < b < j ==> ws[i as int] != ws[b],
            decreases n - j,
        {
            let same = if words[i].len() == words[j].len() {
                let d = count_differences(&words[i], words[j].as_slice(), 0);
                proof {
                    assert(words@[j as int]@.subrange(0, words@[i as int]@.len() as int) =~= words@[j as int]@);
                    lemma_hamming(words@[i as int]@, words@[j as int]@);
                }
                d == 0
            } else {
                false
            };
            assert(ws[i as int] == words@[i as int]@ && ws[j as int] == words@[j as int]@);
            if same {
                return false;
            }
            j = j + 1;
        }
        i = i + 1;
    }
    true
}

/// Word `k` matches the word part `y` of a window whose spacer misses `m` literals: with
/// `d == 0`, exactly; with `d == 1`, up to one substitution in word and spacer together.
spec fn word_close(words: Seq<Seq<u8>>, y: Seq<u8>, m: usize, k: int, d: nat) -> bool {
    &&& 0 <= k < words.len()
    &&& if d == 0 {
        words[k] == y && m == 0
    } else {
        (words[k] == y && m == 1) || (one_off(words[k], y) && m == 0)
    }
}

/// An index as a mathematical integer.
pub open spec fn as_index(r: Option<usize>) -> Option<int> {
    match r {
        Some(j) => Some(j as int),
        None => None,
    }
}

/// A spacer: a short literal that follows a barcode word, where `N` stands for any nucleotide.
pub struct Spacer {
    seq: Vec<u8>,
}

impl View for Spacer {
    type V = Seq<u8>;

    closed spec fn view(&self) -> Seq<u8> {
        self.seq@
    }
}

impl Spacer {
    /// The spacer spelled by `s`.
    pub fn from_str(s: &str) -> (r: Spacer)
        ensures
            r@ == s.spec_bytes(),
    {
        let b = s.as_bytes();
        let mut seq: Vec<u8> = Vec::new();
        let mut i: usize = 0;
        while i < b.len()
            invariant
                i <= b@.len(),
                seq@ == b@.subrange(0, i as int),
            decreases b@.len() - i,
        {
            seq.push(b[i]);
            i = i + 1;
        }
        assert(b@.subrange(0, b@.len() as int) =~= b@);
        Spacer { seq }
    }

    pub fn len(&self) -> (r: usize)
        ensures
            r == self@.len(),
    {
        self.seq.len()
    }
}

/// Why a segment could not be built.
#[derive(Debug, Clone, Copy, PartialEq, Eq)]
pub enum BarcodeError {
    /// Words of unequal length or holding a byte outside `ACGT`; or a spacer holding a
    /// byte outside `ACGTN`.
    MalformedWhitelist,
    /// A word stands twice in the whitelist, so two entries read alike.
    AmbiguousWhitelist,
}

/// One barcode position of the construct: a whitelist of equal-length words, an optional
/// spacer after the word, and the matching policy. Words of up to 64 bases are kept in a
/// table keyed by their two-bit packing; in one-mismatch mode a second table maps each
/// single substitution of a word that no other entry yields, and that is no word itself,
/// to its entry. Longer words are compared with the window one by one.
pub struct Barcodes {
    words: Vec<Vec<u8>>,
    spacer: Vec<u8>,
    word_len: usize,
    exact: bool,
    index: HashMap<u128, usize>,
    neighbours: HashMap<u128, usize>,
}

impl Barcodes {
    /// The whitelist, in order: position `j` holds the word of index `j`.
    pub closed spec fn whitelist(&self) -> Seq<Seq<u8>> {
        self.words@.map_values(|w: Vec<u8>| w@)
    }

    pub closed spec fn spacer_seq(&self) -> Seq<u8> {
        self.spacer@
    }

    pub closed spec fn word_length(&self) -> nat {
        self.word_len as nat
    }

    pub closed spec fn is_exact(&self) -> bool {
        self.exact
    }

    /// The length of a window: word and spacer.
    pub open spec fn eff_len(&self) -> nat {
        self.word_length() + self.spacer_seq().len()
    }

    /// What a window resolves to in this segment.
    pub open spec fn lookup_spec(&self, x: Seq<u8>) -> Option<int> {
        resolve(self.whitelist(), self.word_length(), self.spacer_seq(), self.is_exact(), x)
    }

    /// The canonical bytes of entry `j`: its word, followed by the spacer as written when
    /// `linkers` holds.
    pub open spec fn canonical(&self, j: int, linkers: bool) -> Seq<u8> {
        if linkers {
            self.whitelist()[j] + self.spacer_seq()
        } else {
            self.whitelist()[j]
        }
    }

    closed spec fn index_ok(&self) -> bool {
        &&& forall|j: int|
            0 <= j < self.words@.len() ==> #[trigger] self.index@.contains_key(
                dna_code(self.words@[j]@) as u128,
            ) && self.index@[dna_code(self.words@[j]@) as u128] == j
        &&& forall|c: u128| #[trigger]
            self.index@.contains_key(c) ==> self.index@[c] < self.words@.len() && c as nat
                == dna_code(self.words@[self.index@[c] as int]@)
    }

    closed spec fn neighbours_ok(&self) -> bool {
        forall|y: Seq<u8>|
            is_dna(y) && y.len() == self.word_len ==> #[trigger] neighbour_lookup(
                self.whitelist(),
                self.neighbours@,
                y,
                self.exact,
            )
    }

    pub closed spec fn wf(&self) -> bool {
        &&& valid_segment_input(self.whitelist(), self.word_length(), self.spacer_seq())
        &&& distinct_words(self.whitelist())
        &&& (self.word_len <= 64 ==> self.index_ok() && self.neighbours_ok())
        &&& self.word_len + self.spacer@.len() <= usize::MAX
    }

    /// What a well-formed segment guarantees of its whitelist and spacer.
    pub proof fn lemma_wf(&self)
        requires
            self.wf(),
        ensures
            valid_segment_input(self.whitelist(), self.word_length(), self.spacer_seq()),
            distinct_words(self.whitelist()),
            self.eff_len() <= usize::MAX,
    {
    }
}

/// The spacer a segment is built with: none reads as the empty spacer.
pub open spec fn spacer_of(spacer: Option<&Spacer>) -> Seq<u8> {
    match spacer {
        Some(s) => s@,
        None => Seq::empty(),
    }
}

/// The words of a whitelist as byte strings.
pub open spec fn words_view(words: Seq<Vec<u8>>) -> Seq<Seq<u8>> {
    words.map_values(|w: Vec<u8>| w@)
}

/// The length that a whitelist's words share: that of its first word, 0 when it is empty.
pub open spec fn first_len(words: Seq<Seq<u8>>) -> nat {
    if words.len() > 0 {
        words[0].len()
    } else {
        0
    }
}

/// The input a segment can be built from: valid words and spacer, and a window length
/// that fits in memory.
pub open spec fn segment_buildable(words: Seq<Seq<u8>>, sp: Seq<u8>) -> bool {
    &&& valid_segment_input(words, first_len(words), sp)
    &&& first_len(words) + sp.len() <= usize::MAX
}

fn copy_bytes(b: &[u8]) -> (r: Vec<u8>)
    ensures
        r@ == b@,
{
    let mut out: Vec<u8> = Vec::new();
    let mut i: usize = 0;
    while i < b.len()
        invariant
            i <= b@.len(),
            out@ == b@.subrange(0, i as int),
        decreases b@.len() - i,
    {
        out.push(b[i]);
        i = i + 1;
    }
    assert(b@.subrange(0, b@.len() as int) =~= b@);
    out
}

impl Barcodes {
    /// Builds a segment whose words are longer than 64 bases: no packed tables.
    fn new_scanned(words: Vec<Vec<u8>>, sp: Vec<u8>, len: usize, exact: bool) -> (r: Result<
        Barcodes,
        BarcodeError,
    >)
        requires
            len > 64,
            words@.len() > 0,
            len == words@[0]@.len(),
            len + sp@.len() <= usize::MAX,
            forall|q: int| 0 <= q < sp@.len() ==> is_spacer_byte(#[trigger] sp@[q]),
        ensures
            r is Ok <==> segment_buildable(words_view(words@), sp@) && distinct_words(words_view(words@)),
            r matches Err(BarcodeError::MalformedWhitelist) <==> !segment_buildable(words_view(words@), sp@),
            r matches Ok(b) ==> {
                &&& b.wf()
                &&& b.whitelist() == words_view(words@)
                &&& b.spacer_seq() == sp@
                &&& b.word_length() == first_len(words_view(words@))
                &&& b.is_exact() == exact
            },
    {
        let ghost ws = words_view(words@);
        let n = words.len();
        let mut j: usize = 0;
        while j < n
            invariant
                n == words@.len() == ws.len(),
                ws == words_view(words@),
                len > 64,
                len == ws[0].len(),
                len + sp@.len() <= usize::MAX,
                forall|q: int| 0 <= q < sp@.len() ==> is_spacer_byte(#[trigger] sp@[q]),
                j <= n,
                forall|i: int| 0 <= i < j ==> (#[trigger] ws[i]).len() == len && is_dna(ws[i]),
            decreases n - j,
        {
            assert(ws[j as int] == words@[j as int]@);
            if words[j].len() != len {
                assert(!valid_segment_input(ws, len as nat, sp@));
                return Err(BarcodeError::MalformedWhitelist);
            }
            let ok = all_bases(words[j].as_slice(), 0, len);
            assert(words@[j as int]@.subrange(0, len as int) =~= ws[j as int]);
            if !ok {
                assert(!valid_segment_input(ws, len as nat, sp@));
                return Err(BarcodeError::MalformedWhitelist);
            }
            j = j + 1;
        }
        assert(segment_buildable(ws, sp@));
        if !words_distinct(&words) {
            return Err(BarcodeError::AmbiguousWhitelist);
        }
        let b = Barcodes {
            words,
            spacer: sp,
            word_len: len,
            exact,
            index: HashMap::new(),
            neighbours: HashMap::new(),
        };
        assert(b.whitelist() == ws);
        Ok(b)
    }

    /// Builds a segment from its whitelist, in index order, and an optional spacer.
    pub fn new(words: Vec<Vec<u8>>, spacer: Option<&Spacer>, exact: bool) -> (r: Result<
        Barcodes,
        BarcodeError,
    >)
        ensures
            r is Ok <==> segment_buildable(words_view(words@), spacer_of(spacer)) && distinct_words(
                words_view(words@),
            ),
            r matches Err(BarcodeError::MalformedWhitelist) <==> !segment_buildable(
                words_view(words@),
                spacer_of(spacer),
            ),
            r matches Ok(b) ==> {
                &&& b.wf()
                &&& b.whitelist() == words_view(words@)
                &&& b.spacer_seq() == spacer_of(spacer)
                &&& b.word_length() == first_len(words_view(words@))
                &&& b.is_exact() == exact
            },
    {
        let ghost ws = words_view(words@);
        let ghost sp0 = spacer_of(spacer);
        let n = words.len();
        let len: usize = if n > 0 {
            words[0].len()
        } else {
            0
        };
        assert(len == first_len(ws));
        let sp: Vec<u8> = match spacer {
            Some(s) => copy_bytes(s.seq.as_slice()),
            None => Vec::new(),
        };
        assert(sp@ == sp0);
        if sp.len() > usize::MAX - len {
            assert(!segment_buildable(ws, sp0));
            return Err(BarcodeError::MalformedWhitelist);
        }
        let mut k: usize = 0;
        while k < sp.len()
            invariant
                k <= sp@.len(),
                sp@ == sp0,
                ws == words_view(words@),
                sp0 == spacer_of(spacer),
                forall|q: int| 0 <= q < k ==> is_spacer_byte(#[trigger] sp@[q]),
            decreases sp@.len() - k,
        {
            let b = sp[k];
            if !(b == BASE_A || b == BASE_C || b == BASE_G || b == BASE_T || b == BASE_N) {
                assert(!is_spacer_byte(sp@[k as int]));
                return Err(BarcodeError::MalformedWhitelist);
            }
            k = k + 1;
        }
        if len > 64 {
            return Barcodes::new_scanned(words, sp, len, exact);
        }
        let mut codes: Vec<u128> = Vec::new();
        let mut j: usize = 0;
        while j < n
            invariant
                j <= n == words@.len(),
                len <= 64,
                len == first_len(ws),
                len + sp0.len() <= usize::MAX,
                forall|q: int| 0 <= q < sp0.len() ==> is_spacer_byte(#[trigger] sp0[q]),
                ws == words_view(words@),
                sp0 == spacer_of(spacer),
                codes@.len() == j,
                forall|i: int| 0 <= i < j ==> (#[trigger] ws[i]).len() == len && is_dna(ws[i]),
                forall|i: int| 0 <= i < j ==> #[trigger] codes@[i] as nat == dna_code(ws[i]),
            decreases n - j,
        {
            assert(ws[j as int] == words@[j as int]@);
            if words[j].len() != len {
                assert(ws[j as int].len() != len);
                assert(!valid_segment_input(ws, len as nat, sp0));
                return Err(BarcodeError::MalformedWhitelist);
            }
            match pack_dna(words[j].as_slice(), 0, len) {
                None => {
                    assert(words@[j as int]@.subrange(0, len as int) =~= ws[j as int]);
                    return Err(BarcodeError::MalformedWhitelist);
                },
                Some(c) => {
                    assert(words@[j as int]@.subrange(0, len as int) =~= ws[j as int]);
                    codes.push(c);
                },
            }
            j = j + 1;
        }
        assert(segment_buildable(ws, sp0));
        let mut index: HashMap<u128, usize> = HashMap::new();
        let mut j: usize = 0;
        while j < n
            invariant
                j <= n == words@.len(),
                ws == words_view(words@),
                sp0 == spacer_of(spacer),
                codes@.len() == n,
                segment_buildable(ws, sp0),
                len == first_len(ws),
                forall|i: int| 0 <= i < n ==> #[trigger] codes@[i] as nat == dna_code(ws[i]),
                forall|i: int, l: int| 0 <= i < l < j ==> ws[i] != ws[l],
                forall|i: int|
                    0 <= i < j ==> #[trigger] index@.contains_key(codes@[i]) && index@[codes@[i]]
                        == i,
                forall|c: u128| #[trigger]
                    index@.contains_key(c) ==> index@[c] < j && c == codes@[index@[c] as int],
            decreases n - j,
        {
            let c = codes[j];
            let ghost before = index@;
            match index.insert(c, j) {
                Some(prev) => {
                    proof {
                        let i = prev as int;
                        assert(dna_code(ws[i]) == dna_code(ws[j as int]));
                        assert(ws[i].len() == len && ws[j as int].len() == len);
                        lemma_code_injective(ws[i], ws[j as int]);
                        assert(!distinct_words(ws));
                    }
                    return Err(BarcodeError::AmbiguousWhitelist);
                },
                None => {
                    proof {
                        assert forall|i: int, l: int| 0 <= i < l < j + 1 implies ws[i] != ws[l] by {
                            if l == j && ws[i] == ws[l] {
                                assert(codes@[i] == codes@[l]);
                                assert(before.contains_key(codes@[i]));
                            }
                        }
                    }
                },
            }
            j = j + 1;
        }
        proof {
            assert forall|k: int| 0 <= k < words@.len() implies (#[trigger] words@[k]@).len() == len && is_dna(words@[k]@) by {
                assert(ws[k] == words@[k]@);
            }
            assert forall|i: int| 0 <= i < words@.len() implies #[trigger] codes@[i] as nat == dna_code(words@[i]@) by {
                assert(ws[i] == words@[i]@);
            }
        }
        let neighbours = build_neighbours(&words, &codes, &index, len, exact);
        let b = Barcodes { words, spacer: sp, word_len: len, exact, index, neighbours };
        proof {
            assert(b.whitelist() == ws);
            assert forall|j: int| 0 <= j < b.words@.len() implies #[trigger] b.index@.contains_key(
                dna_code(b.words@[j]@) as u128,
            ) && b.index@[dna_code(b.words@[j]@) as u128] == j by {
                assert(ws[j] == b.words@[j]@);
                assert(codes@[j] as nat == dna_code(ws[j]));
            }
            assert forall|c: u128| #[trigger] b.index@.contains_key(c) implies b.index@[c]
                < b.words@.len() && c as nat == dna_code(b.words@[b.index@[c] as int]@) by {
                let i = b.index@[c] as int;
                assert(ws[i] == b.words@[i]@);
            }
        }
        Ok(b)
    }
}

/// Word `w` turns into `y` by one substitution at a position before `q`, or at `q` with a
/// base whose two-bit value is below `t`.
spec fn substituted_before(w: Seq<u8>, y: Seq<u8>, q: int, t: int) -> bool {
    exists|q2: int|
        0 <= q2 < w.len() && (q2 < q || (q2 == q && base_value(y[q2]) < t)) && w[q2] != y[q2] && w
            == #[trigger] y.update(q2, w[q2])
}

/// Entry `k` is one substitution away from `y`, and the table build has reached that
/// substitution: all of entries before `j`, and of entry `j` those before `(q, t)`.
spec fn contributes(words: Seq<Seq<u8>>, y: Seq<u8>, k: int, j: int, q: int, t: int) -> bool {
    &&& 0 <= k < words.len()
    &&& one_off(words[k], y)
    &&& (k < j || (k == j && substituted_before(words[k], y, q, t)))
}

/// `y` is a whitelist word.
pub open spec fn is_word(words: Seq<Seq<u8>>, y: Seq<u8>) -> bool {
    exists|k: int| 0 <= k < words.len() && words[k] == y
}

/// What the neighbour table and the set of ambiguous neighbours say of `y`, against the
/// substitutions made so far: no word is a neighbour; a neighbour that one entry yields
/// maps to it; one that two entries yield is ambiguous.
spec fn neighbour_entry(
    words: Seq<Seq<u8>>,
    nb: Map<u128, usize>,
    amb: Set<u128>,
    y: Seq<u8>,
    j: int,
    q: int,
    t: int,
) -> bool {
    let c = dna_code(y) as u128;
    &&& is_word(words, y) ==> !nb.contains_key(c) && !amb.contains(c)
    &&& !is_word(words, y) ==> {
        &&& nb.contains_key(c) ==> contributes(words, y, nb[c] as int, j, q, t) && !amb.contains(c) && forall|k: int|
            contributes(words, y, k, j, q, t) ==> k == nb[c]
        &&& amb.contains(c) ==> exists|k1: int, k2: int|
            k1 != k2 && contributes(words, y, k1, j, q, t) && contributes(words, y, k2, j, q, t)
        &&& (exists|k: int| contributes(words, y, k, j, q, t)) ==> nb.contains_key(c) || amb.contains(c)
    }
}

spec fn neighbour_state(
    words: Seq<Seq<u8>>,
    len: nat,
    nb: Map<u128, usize>,
    amb: Set<u128>,
    j: int,
    q: int,
    t: int,
) -> bool {
    forall|y: Seq<u8>| is_dna(y) && y.len() == len ==> #[trigger] neighbour_entry(words, nb, amb, y, j, q, t)
}

proof fn lemma_code_fits(y: Seq<u8>)
    requires
        y.len() <= 64,
    ensures
        dna_code(y) < 0x1_0000_0000_0000_0000_0000_0000_0000_0000,
{
    crate::dna::lemma_code_bound(y);
    crate::dna::lemma_pow4_monotone(y.len(), 64);
    crate::dna::lemma_pow4_64();
}

/// Two nucleotide strings of one length, at most 64, have one packed key only if equal.
proof fn lemma_key_differs(y: Seq<u8>, z: Seq<u8>)
    requires
        is_dna(y),
        is_dna(z),
        y.len() == z.len() <= 64,
        y != z,
    ensures
        dna_code(y) as u128 != dna_code(z) as u128,
{
    lemma_code_fits(y);
    lemma_code_fits(z);
    if dna_code(y) == dna_code(z) {
        lemma_code_injective(y, z);
    }
}

/// One step of the neighbour table build: substitution `(q, t)` of entry `j`, which
/// yields `y0`, updates the table and the ambiguous set.
proof fn lemma_neighbour_step(
    words: Seq<Seq<u8>>,
    len: nat,
    nb: Map<u128, usize>,
    amb: Set<u128>,
    nb2: Map<u128, usize>,
    amb2: Set<u128>,
    j: int,
    q: int,
    t: int,
)
    requires
        len <= 64,
        forall|k: int| 0 <= k < words.len() ==> (#[trigger] words[k]).len() == len && is_dna(words[k]),
        0 <= j < words.len() <= usize::MAX,
        0 <= q < len,
        0 <= t < 4,
        neighbour_state(words, len, nb, amb, j, q, t),
        ({
            let w = words[j];
            let b = value_base(t as nat);
            let y0 = w.update(q, b);
            let c0 = dna_code(y0) as u128;
            if b == w[q] || is_word(words, y0) || amb.contains(c0) {
                nb2 == nb && amb2 == amb
            } else if nb.contains_key(c0) {
                nb2 == nb.remove(c0) && amb2 == amb.insert(c0)
            } else {
                nb2 == nb.insert(c0, j as usize) && amb2 == amb
            }
        }),
    ensures
        neighbour_state(words, len, nb2, amb2, j, q, t + 1),
{
    let w = words[j];
    let b = value_base(t as nat);
    let y0 = w.update(q, b);
    let c0 = dna_code(y0) as u128;
    assert(w.len() == len && is_dna(w));
    assert forall|y: Seq<u8>| is_dna(y) && y.len() == len implies #[trigger] neighbour_entry(
        words,
        nb2,
        amb2,
        y,
        j,
        q,
        t + 1,
    ) by {
        assert(neighbour_entry(words, nb, amb, y, j, q, t));
        let c = dna_code(y) as u128;
        // a substitution newly reached yields `y0` only
        assert forall|k: int| #[trigger] contributes(words, y, k, j, q, t + 1) && !contributes(words, y, k, j, q, t)
            implies k == j && y == y0 && b != w[q] by {
            let q2 = choose|q2: int|
                0 <= q2 < words[k].len() && (q2 < q || (q2 == q && base_value(y[q2]) < t + 1))
                    && words[k][q2] != y[q2] && words[k] == #[trigger] y.update(q2, words[k][q2]);
            assert(q2 == q && base_value(y[q]) == t);
            assert(is_base(y[q]));
            assert(y[q] == b);
            assert(y =~= w.update(q, b));
        }
        assert forall|k: int| #[trigger] contributes(words, y, k, j, q, t) implies contributes(words, y, k, j, q, t + 1) by {
            if k == j {
                let q2 = choose|q2: int|
                    0 <= q2 < words[k].len() && (q2 < q || (q2 == q && base_value(y[q2]) < t))
                        && words[k][q2] != y[q2] && words[k] == #[trigger] y.update(q2, words[k][q2]);
                assert(substituted_before(words[k], y, q, t + 1));
            }
        }
        if y != y0 {
            assert(is_dna(y0)) by {
                assert forall|i: int| 0 <= i < y0.len() implies is_base(#[trigger] y0[i]) by {
                    if i != q {
                        assert(y0[i] == w[i]);
                    }
                }
            }
            lemma_key_differs(y, y0);
            assert forall|k: int| #[trigger] contributes(words, y, k, j, q, t + 1) == contributes(words, y, k, j, q, t) by {}
            lemma_entry_carries(words, nb, amb, nb2, amb2, y, j, q, t, j, q, t + 1);
        } else if b != w[q] {
            // `y0` is one substitution away from entry `j`, reached now and not before
            assert(w =~= y0.update(q, w[q]));
            assert(one_off(w, y0));
            assert(substituted_before(w, y0, q, t + 1));
            assert(contributes(words, y0, j, j, q, t + 1));
            assert(!contributes(words, y0, j, j, q, t)) by {
                if substituted_before(w, y0, q, t) {
                    let q2 = choose|q2: int|
                        0 <= q2 < w.len() && (q2 < q || (q2 == q && base_value(y0[q2]) < t))
                            && w[q2] != y0[q2] && w == #[trigger] y0.update(q2, w[q2]);
                    if q2 != q {
                        assert(w[q2] == y0[q2]);
                    } else {
                        assert(base_value(y0[q]) == t);
                    }
                }
            }
            if is_word(words, y0) {
            } else if amb.contains(c0) {
                let pair = choose|k1: int, k2: int|
                    k1 != k2 && contributes(words, y0, k1, j, q, t) && contributes(words, y0, k2, j, q, t);
                assert(contributes(words, y0, pair.0, j, q, t + 1));
                assert(contributes(words, y0, pair.1, j, q, t + 1));
                assert(!nb2.contains_key(c0));
            } else if nb.contains_key(c0) {
                let o = nb[c0] as int;
                assert(contributes(words, y0, o, j, q, t));
                assert(o != j);
                assert(contributes(words, y0, o, j, q, t + 1));
                assert(amb2.contains(c0));
                assert(!nb2.contains_key(c0));
            } else {
                assert(!(exists|k: int| contributes(words, y0, k, j, q, t)));
                assert forall|k: int| #[trigger] contributes(words, y0, k, j, q, t + 1) implies k == j by {
                    if k != j {
                        assert(contributes(words, y0, k, j, q, t));
                    }
                }
                assert(nb2.contains_key(c0) && nb2[c0] == j);
                assert(!amb2.contains(c0));
            }
        } else {
            assert(y0 =~= w);
            assert(is_word(words, y0));
        }
    }
}

/// Where nothing changes for `y`, neither what the substitutions yield nor the table at its
/// key, its entry stays right.
proof fn lemma_entry_carries(
    words: Seq<Seq<u8>>,
    nb: Map<u128, usize>,
    amb: Set<u128>,
    nb2: Map<u128, usize>,
    amb2: Set<u128>,
    y: Seq<u8>,
    j: int,
    q: int,
    t: int,
    j2: int,
    q2: int,
    t2: int,
)
    requires
        neighbour_entry(words, nb, amb, y, j, q, t),
        forall|k: int| #[trigger] contributes(words, y, k, j2, q2, t2) == contributes(words, y, k, j, q, t),
        nb2.contains_key(dna_code(y) as u128) == nb.contains_key(dna_code(y) as u128),
        nb.contains_key(dna_code(y) as u128) ==> nb2[dna_code(y) as u128] == nb[dna_code(y) as u128],
        amb2.contains(dna_code(y) as u128) == amb.contains(dna_code(y) as u128),
    ensures
        neighbour_entry(words, nb2, amb2, y, j2, q2, t2),
{
    let c = dna_code(y) as u128;
    if !is_word(words, y) {
        if amb2.contains(c) {
            let pair = choose|k1: int, k2: int|
                k1 != k2 && contributes(words, y, k1, j, q, t) && contributes(words, y, k2, j, q, t);
            assert(contributes(words, y, pair.0, j2, q2, t2));
            assert(contributes(words, y, pair.1, j2, q2, t2));
        }
        if exists|k: int| #[trigger] contributes(words, y, k, j2, q2, t2) {
            let k = choose|k: int| #[trigger] contributes(words, y, k, j2, q2, t2);
            assert(contributes(words, y, k, j, q, t));
        }
    }
}

/// The table state carries over where the substitutions reached stay the same.
proof fn lemma_state_carries(
    words: Seq<Seq<u8>>,
    len: nat,
    nb: Map<u128, usize>,
    amb: Set<u128>,
    j: int,
    q: int,
    t: int,
    j2: int,
    q2: int,
    t2: int,
)
    requires
        neighbour_state(words, len, nb, amb, j, q, t),
        forall|y: Seq<u8>, k: int| #[trigger] contributes(words, y, k, j2, q2, t2) == contributes(words, y, k, j, q, t),
    ensures
        neighbour_state(words, len, nb, amb, j2, q2, t2),
{
    assert forall|y: Seq<u8>| is_dna(y) && y.len() == len implies #[trigger] neighbour_entry(words, nb, amb, y, j2, q2, t2) by {
        assert(neighbour_entry(words, nb, amb, y, j, q, t));
        lemma_entry_carries(words, nb, amb, nb, amb, y, j, q, t, j2, q2, t2);
    }
}

/// After the last base value at position `q` comes position `q + 1`.
proof fn lemma_next_position(words: Seq<Seq<u8>>, len: nat, nb: Map<u128, usize>, amb: Set<u128>, j: int, q: int)
    requires
        neighbour_state(words, len, nb, amb, j, q, 4),
    ensures
        neighbour_state(words, len, nb, amb, j, q + 1, 0),
{
    assert forall|y: Seq<u8>, k: int| #[trigger] contributes(words, y, k, j, q + 1, 0) == contributes(words, y, k, j, q, 4) by {
        if k == j && 0 <= k < words.len() {
            if substituted_before(words[k], y, q, 4) {
                let p = choose|p: int|
                    0 <= p < words[k].len() && (p < q || (p == q && base_value(y[p]) < 4)) && words[k][p]
                        != y[p] && words[k] == #[trigger] y.update(p, words[k][p]);
                assert(substituted_before(words[k], y, q + 1, 0));
            }
            if substituted_before(words[k], y, q + 1, 0) {
                let p = choose|p: int|
                    0 <= p < words[k].len() && (p < q + 1 || (p == q + 1 && base_value(y[p]) < 0))
                        && words[k][p] != y[p] && words[k] == #[trigger] y.update(p, words[k][p]);
                assert(base_value(y[p]) < 4);
                assert(substituted_before(words[k], y, q, 4));
            }
        }
    }
    lemma_state_carries(words, len, nb, amb, j, q, 4, j, q + 1, 0);
}

/// After the last position of entry `j` comes entry `j + 1`.
proof fn lemma_next_word(words: Seq<Seq<u8>>, len: nat, nb: Map<u128, usize>, amb: Set<u128>, j: int)
    requires
        neighbour_state(words, len, nb, amb, j, len as int, 0),
        0 <= j < words.len(),
        forall|k: int| 0 <= k < words.len() ==> (#[trigger] words[k]).len() == len,
    ensures
        neighbour_state(words, len, nb, amb, j + 1, 0, 0),
{
    assert forall|y: Seq<u8>, k: int| #[trigger] contributes(words, y, k, j + 1, 0, 0) == contributes(words, y, k, j, len as int, 0) by {
        if k == j && 0 <= k < words.len() && one_off(words[k], y) {
            let p = choose|p: int| 0 <= p < words[k].len() && words[k][p] != y[p] && words[k] == #[trigger] y.update(p, words[k][p]);
            assert(substituted_before(words[k], y, len as int, 0));
        }
        if k == j + 1 && substituted_before(words[k], y, 0, 0) {
            let p = choose|p: int|
                0 <= p < words[k].len() && (p < 0 || (p == 0 && base_value(y[p]) < 0)) && words[k][p]
                    != y[p] && words[k] == #[trigger] y.update(p, words[k][p]);
        }
    }
    lemma_state_carries(words, len, nb, amb, j, len as int, 0, j + 1, 0, 0);
}

/// Before any substitution the table is empty and right.
proof fn lemma_state_start(words: Seq<Seq<u8>>, len: nat)
    ensures
        neighbour_state(words, len, Map::empty(), Set::empty(), 0, 0, 0),
{
    assert forall|y: Seq<u8>| is_dna(y) && y.len() == len implies #[trigger] neighbour_entry(
        words,
        Map::<u128, usize>::empty(),
        Set::<u128>::empty(),
        y,
        0,
        0,
        0,
    ) by {
        assert forall|k: int| !#[trigger] contributes(words, y, k, 0, 0, 0) by {
            if 0 <= k < words.len() && k == 0 && substituted_before(words[k], y, 0, 0) {
                let p = choose|p: int|
                    0 <= p < words[k].len() && (p < 0 || (p == 0 && base_value(y[p]) < 0)) && words[k][p]
                        != y[p] && words[k] == #[trigger] y.update(p, words[k][p]);
            }
        }
    }
}

/// What the neighbour table says of a nucleotide string `y` of word length: a key maps to
/// the one entry one substitution away, where `y` is no word and no other entry is one
/// substitution away; a string that is no word and has no key is one substitution away
/// from no entry or from two.
pub open spec fn neighbour_lookup(words: Seq<Seq<u8>>, nb: Map<u128, usize>, y: Seq<u8>, exact: bool) -> bool {
    let c = dna_code(y) as u128;
    &&& nb.contains_key(c) ==> {
        &&& !exact
        &&& !is_word(words, y)
        &&& 0 <= nb[c] < words.len()
        &&& one_off(words[nb[c] as int], y)
        &&& forall|k: int| 0 <= k < words.len() && one_off(words[k], y) ==> k == nb[c]
    }
    &&& (!nb.contains_key(c) && !exact && !is_word(words, y)) ==> forall|k: int|
        0 <= k < words.len() && #[trigger] one_off(words[k], y) ==> exists|k2: int|
            0 <= k2 < words.len() && k2 != k && one_off(words[k2], y)
}

/// The packed key of a nucleotide string of word length is in the word table exactly when
/// the string is a word.
proof fn lemma_word_key(words: Seq<Seq<u8>>, len: nat, codes: Seq<u128>, index: Map<u128, usize>, y: Seq<u8>)
    requires
        len <= 64,
        codes.len() == words.len(),
        forall|k: int| 0 <= k < words.len() ==> (#[trigger] words[k]).len() == len && is_dna(words[k]),
        forall|i: int| 0 <= i < words.len() ==> #[trigger] codes[i] as nat == dna_code(words[i]),
        forall|i: int| 0 <= i < words.len() ==> #[trigger] index.contains_key(codes[i]) && index[codes[i]] == i,
        forall|c: u128| #[trigger] index.contains_key(c) ==> index[c] < words.len() && c == codes[index[c] as int],
        is_dna(y),
        y.len() == len,
    ensures
        index.contains_key(dna_code(y) as u128) == is_word(words, y),
{
    lemma_code_fits(y);
    let c = dna_code(y) as u128;
    if index.contains_key(c) {
        let i = index[c] as int;
        assert(codes[i] as nat == dna_code(words[i]));
        lemma_code_injective(words[i], y);
    }
    if is_word(words, y) {
        let k = choose|k: int| 0 <= k < words.len() && words[k] == y;
        assert(index.contains_key(codes[k]));
    }
}

/// Once every substitution of every entry is made, the table says what `neighbour_lookup`
/// asks.
proof fn lemma_state_final(words: Seq<Seq<u8>>, len: nat, nb: Map<u128, usize>, amb: Set<u128>, y: Seq<u8>)
    requires
        neighbour_state(words, len, nb, amb, words.len() as int, 0, 0),
        is_dna(y),
        y.len() == len,
    ensures
        neighbour_lookup(words, nb, y, false),
{
    let n = words.len() as int;
    assert(neighbour_entry(words, nb, amb, y, n, 0, 0));
    assert forall|k: int| #[trigger] contributes(words, y, k, n, 0, 0) == (0 <= k < n && one_off(words[k], y)) by {}
    let c = dna_code(y) as u128;
    if !nb.contains_key(c) && !is_word(words, y) {
        assert forall|k: int| 0 <= k < words.len() && #[trigger] one_off(words[k], y) implies exists|k2: int|
            0 <= k2 < words.len() && k2 != k && one_off(words[k2], y) by {
            assert(contributes(words, y, k, n, 0, 0));
            let pair = choose|k1: int, k2: int|
                k1 != k2 && contributes(words, y, k1, n, 0, 0) && contributes(words, y, k2, n, 0, 0);
            if pair.0 != k {
                assert(contributes(words, y, pair.0, n, 0, 0));
            } else {
                assert(contributes(words, y, pair.1, n, 0, 0));
            }
        }
    }
    if nb.contains_key(c) {
        assert(contributes(words, y, nb[c] as int, n, 0, 0));
        assert forall|k: int| 0 <= k < words.len() && one_off(words[k], y) implies k == nb[c] by {
            assert(contributes(words, y, k, n, 0, 0));
        }
    }
}

/// The table of single substitutions of the words that one entry alone yields and that
/// are no words themselves; empty in exact mode.
fn build_neighbours(
    words: &Vec<Vec<u8>>,
    codes: &Vec<u128>,
    index: &HashMap<u128, usize>,
    len: usize,
    exact: bool,
) -> (r: HashMap<u128, usize>)
    requires
        len <= 64,
        codes@.len() == words@.len(),
        forall|k: int| 0 <= k < words@.len() ==> (#[trigger] words@[k]@).len() == len && is_dna(words@[k]@),
        forall|i: int| 0 <= i < words@.len() ==> #[trigger] codes@[i] as nat == dna_code(words@[i]@),
        forall|i: int| 0 <= i < words@.len() ==> #[trigger] index@.contains_key(codes@[i]) && index@[codes@[i]] == i,
        forall|c: u128| #[trigger] index@.contains_key(c) ==> index@[c] < words@.len() && c == codes@[index@[c] as int],
    ensures
        forall|y: Seq<u8>| is_dna(y) && y.len() == len ==> #[trigger] neighbour_lookup(words_view(words@), r@, y, exact),
{
    let ghost ws = words_view(words@);
    let mut neighbours: HashMap<u128, usize> = HashMap::new();
    if exact {
        assert forall|y: Seq<u8>| is_dna(y) && y.len() == len implies #[trigger] neighbour_lookup(ws, neighbours@, y, exact) by {}
        return neighbours;
    }
    assert forall|k: int| 0 <= k < ws.len() implies (#[trigger] ws[k]).len() == len && is_dna(ws[k]) by {
        assert(ws[k] == words@[k]@);
    }
    assert forall|i: int| 0 <= i < ws.len() implies #[trigger] codes@[i] as nat == dna_code(ws[i]) by {
        assert(ws[i] == words@[i]@);
    }
    let mut ambiguous: std::collections::HashSet<u128> = std::collections::HashSet::new();
    proof {
        lemma_state_start(ws, len as nat);
    }
    let n = words.len();
    let mut j: usize = 0;
    while j < n
        invariant
            n == words@.len() == ws.len() == codes@.len(),
            len <= 64,
            ws == words_view(words@),
            forall|k: int| 0 <= k < ws.len() ==> (#[trigger] ws[k]).len() == len && is_dna(ws[k]),
            forall|i: int| 0 <= i < ws.len() ==> #[trigger] codes@[i] as nat == dna_code(ws[i]),
            forall|i: int| 0 <= i < ws.len() ==> #[trigger] index@.contains_key(codes@[i]) && index@[codes@[i]] == i,
            forall|c: u128| #[trigger] index@.contains_key(c) ==> index@[c] < ws.len() && c == codes@[index@[c] as int],
            j <= n,
            neighbour_state(ws, len as nat, neighbours@, ambiguous@, j as int, 0, 0),
        decreases n - j,
    {
        assert(ws[j as int] == words@[j as int]@);
        let mut y = copy_bytes(words[j].as_slice());
        let mut q: usize = 0;
        while q < len
            invariant
                n == words@.len() == ws.len() == codes@.len(),
                len <= 64,
                forall|k: int| 0 <= k < ws.len() ==> (#[trigger] ws[k]).len() == len && is_dna(ws[k]),
                forall|i: int| 0 <= i < ws.len() ==> #[trigger] codes@[i] as nat == dna_code(ws[i]),
                forall|i: int| 0 <= i < ws.len() ==> #[trigger] index@.contains_key(codes@[i]) && index@[codes@[i]] == i,
                forall|c: u128| #[trigger] index@.contains_key(c) ==> index@[c] < ws.len() && c == codes@[index@[c] as int],
                j < n,
                y@ == ws[j as int],
                q <= len,
                neighbour_state(ws, len as nat, neighbours@, ambiguous@, j as int, q as int, 0),
            decreases len - q,
        {
            let orig = y[q];
            let mut t: u8 = 0;
            while t < 4
                invariant
                    n == words@.len() == ws.len() == codes@.len(),
                    len <= 64,
                    forall|k: int| 0 <= k < ws.len() ==> (#[trigger] ws[k]).len() == len && is_dna(ws[k]),
                    forall|i: int| 0 <= i < ws.len() ==> #[trigger] codes@[i] as nat == dna_code(ws[i]),
                    forall|i: int| 0 <= i < ws.len() ==> #[trigger] index@.contains_key(codes@[i]) && index@[codes@[i]] == i,
                    forall|c: u128| #[trigger] index@.contains_key(c) ==> index@[c] < ws.len() && c == codes@[index@[c] as int],
                    j < n,
                    q < len,
                    y@ == ws[j as int],
                    orig == ws[j as int][q as int],
                    t <= 4,
                    neighbour_state(ws, len as nat, neighbours@, ambiguous@, j as int, q as int, t as int),
                decreases 4 - t,
            {
                let b = bits_to_base(t);
                let ghost nb0 = neighbours@;
                let ghost amb0 = ambiguous@;
                let ghost y0 = ws[j as int].update(q as int, b);
                if b != orig {
                    y.set(q, b);
                    assert(y@ == y0);
                    assert(is_dna(y0)) by {
                        assert forall|i: int| 0 <= i < y0.len() implies is_base(#[trigger] y0[i]) by {
                            if i != q {
                                assert(y0[i] == ws[j as int][i]);
                            }
                        }
                    }
                    let packed = pack_dna(y.as_slice(), 0, len);
                    assert(y@.subrange(0, len as int) =~= y0);
                    let c = packed.unwrap();
                    proof {
                        lemma_word_key(ws, len as nat, codes@, index@, y0);
                    }
                    if index.contains_key(&c) {
                    } else if ambiguous.contains(&c) {
                    } else if neighbours.contains_key(&c) {
                        neighbours.remove(&c);
                        ambiguous.insert(c);
                    } else {
                        neighbours.insert(c, j);
                    }
                    y.set(q, orig);
                    assert(y@ =~= ws[j as int]);
                }
                proof {
                    lemma_neighbour_step(
                        ws,
                        len as nat,
                        nb0,
                        amb0,
                        neighbours@,
                        ambiguous@,
                        j as int,
                        q as int,
                        t as int,
                    );
                }
                t = t + 1;
            }
            proof {
                lemma_next_position(ws, len as nat, neighbours@, ambiguous@, j as int, q as int);
            }
            q = q + 1;
        }
        proof {
            lemma_next_word(ws, len as nat, neighbours@, ambiguous@, j as int);
        }
        j = j + 1;
    }
    assert forall|y: Seq<u8>| is_dna(y) && y.len() == len implies #[trigger] neighbour_lookup(ws, neighbours@, y, exact) by {
        lemma_state_final(ws, len as nat, neighbours@, ambiguous@, y);
    }
    neighbours
}

impl Barcodes {
    proof fn lemma_index_lookup(&self, y: Seq<u8>)
        requires
            self.wf(),
            self.word_length() <= 64,
            is_dna(y),
            y.len() == self.word_length(),
        ensures
            dna_code(y) < 0x1_0000_0000_0000_0000_0000_0000_0000_0000,
            self.index@.contains_key(dna_code(y) as u128) ==> {
                let j = self.index@[dna_code(y) as u128] as int;
                0 <= j < self.whitelist().len() && self.whitelist()[j] == y
            },
            !self.index@.contains_key(dna_code(y) as u128) ==> forall|j: int|
                0 <= j < self.whitelist().len() ==> self.whitelist()[j] != y,
    {
        let ws = self.whitelist();
        crate::dna::lemma_code_bound(y);
        crate::dna::lemma_pow4_monotone(y.len(), 64);
        crate::dna::lemma_pow4_64();
        let c = dna_code(y) as u128;
        if self.index@.contains_key(c) {
            let j = self.index@[c] as int;
            assert(ws[j] == self.words@[j]@);
            lemma_code_injective(ws[j], y);
        } else {
            assert forall|j: int| 0 <= j < ws.len() implies ws[j] != y by {
                assert(ws[j] == self.words@[j]@);
                assert(self.index@.contains_key(dna_code(self.words@[j]@) as u128));
            }
        }
    }

}

/// The first window of `seq` starting in `lo ..= hi` that resolves to an entry, as the
/// position just past that window and the entry's index.
pub open spec fn first_match(
    words: Seq<Seq<u8>>,
    len: nat,
    sp: Seq<u8>,
    exact: bool,
    seq: Seq<u8>,
    lo: int,
    hi: int,
) -> Option<(int, int)>
    decreases hi - lo + 1,
{
    let w = len + sp.len();
    if lo > hi || lo < 0 || lo + w > seq.len() {
        None
    } else {
        match resolve(words, len, sp, exact, seq.subrange(lo, lo + w)) {
            Some(j) => Some((lo + w, j)),
            None => first_match(words, len, sp, exact, seq, lo + 1, hi),
        }
    }
}

/// How a window splits into word and spacer, and what `near` means on each side.
proof fn lemma_window_parts(words: Seq<Seq<u8>>, len: nat, sp: Seq<u8>, x: Seq<u8>)
    requires
        x.len() == len + sp.len(),
        valid_segment_input(words, len, sp),
    ensures
        forall|j: int| #[trigger] near(words, len, sp, x, j) <==> (0 <= j < words.len() && (
            (words[j] == x.subrange(0, len as int) && spacer_mismatches(x.subrange(len as int, x.len() as int), sp) == 1)
            || (one_off(words[j], x.subrange(0, len as int)) && spacer_mismatches(x.subrange(len as int, x.len() as int), sp) == 0))),
{
}

pub proof fn lemma_hit_resolves(words: Seq<Seq<u8>>, len: nat, sp: Seq<u8>, exact: bool, x: Seq<u8>, j: int)
    requires
        x.len() == len + sp.len(),
        is_dna(x),
        distinct_words(words),
        hits(words, len, sp, x, j),
    ensures
        resolve(words, len, sp, exact, x) == Some(j),
{
    assert forall|i: int| hits(words, len, sp, x, i) implies i == j by {
        if i < j {
            assert(words[i] != words[j]);
        } else if j < i {
            assert(words[j] != words[i]);
        }
    }
}

proof fn lemma_near_resolves(words: Seq<Seq<u8>>, len: nat, sp: Seq<u8>, exact: bool, x: Seq<u8>, j: int)
    requires
        x.len() == len + sp.len(),
        is_dna(x),
        distinct_words(words),
        !exact,
        forall|i: int| !hits(words, len, sp, x, i),
        near(words, len, sp, x, j),
        forall|k: int| near(words, len, sp, x, k) ==> k == j,
    ensures
        resolve(words, len, sp, exact, x) == Some(j),
{
}

proof fn lemma_nothing_resolves(words: Seq<Seq<u8>>, len: nat, sp: Seq<u8>, exact: bool, x: Seq<u8>)
    requires
        forall|i: int| !hits(words, len, sp, x, i),
        exact || forall|j: int| near(words, len, sp, x, j) ==> exists|k: int| k != j && near(words, len, sp, x, k),
    ensures
        resolve(words, len, sp, exact, x) is None,
{
}

impl Barcodes {
    /// The first match of this segment in `seq` starting in `lo ..= hi`.
    pub open spec fn first_match_spec(&self, seq: Seq<u8>, lo: int, hi: int) -> Option<(int, int)> {
        first_match(self.whitelist(), self.word_length(), self.spacer_seq(), self.is_exact(), seq, lo, hi)
    }

    /// The length of a window: the word length plus the spacer length.
    pub fn len(&self) -> (r: usize)
        requires
            self.wf(),
        ensures
            r == self.eff_len(),
    {
        self.word_len + self.spacer.len()
    }

    /// The number of entries in the whitelist.
    pub fn size(&self) -> (r: usize)
        ensures
            r == self.whitelist().len(),
    {
        self.words.len()
    }

    /// The canonical bytes of entry `j`: the word, and the spacer as written (wildcards
    /// kept) when `linkers` holds; `None` for an index outside the whitelist.
    pub fn get_barcode(&self, j: usize, linkers: bool) -> (r: Option<Vec<u8>>)
        ensures
            j < self.whitelist().len() ==> (r matches Some(v) && v@ == self.canonical(j as int, linkers)),
            j >= self.whitelist().len() ==> r is None,
    {
        if j >= self.words.len() {
            return None;
        }
        let mut out = copy_bytes(self.words[j].as_slice());
        if linkers {
            let mut k: usize = 0;
            let ghost w = out@;
            while k < self.spacer.len()
                invariant
                    k <= self.spacer@.len(),
                    out@ == w + self.spacer@.subrange(0, k as int),
                decreases self.spacer@.len() - k,
            {
                out.push(self.spacer[k]);
                k = k + 1;
                assert(out@ =~= w + self.spacer@.subrange(0, k as int));
            }
            assert(self.spacer@.subrange(0, self.spacer@.len() as int) =~= self.spacer@);
        }
        assert(self.whitelist()[j as int] == self.words@[j as int]@);
        Some(out)
    }

    /// Counts the literal spacer positions that the bytes of `seq` from `start` on do not
    /// reproduce; `None` where one of those bytes is no nucleotide.
    fn spacer_check(&self, seq: &[u8], start: usize) -> (r: Option<usize>)
        requires
            self.wf(),
            start + self.spacer_seq().len() <= seq@.len(),
        ensures
            r is Some <==> is_dna(seq@.subrange(start as int, start + self.spacer_seq().len())),
            r matches Some(m) ==> m == spacer_mismatches(
                seq@.subrange(start as int, start + self.spacer_seq().len()),
                self.spacer_seq(),
            ),
    {
        let ghost sp = self.spacer_seq();
        let sl = self.spacer.len();
        let sn = seq.len();
        let ghost z = seq@.subrange(start as int, start + sl);
        let mut m: usize = 0;
        let mut k: usize = 0;
        while k < sl
            invariant
                sp == self.spacer_seq(),
                sl == sp.len(),
                sn == seq@.len(),
                start + sl <= sn,
                z == seq@.subrange(start as int, start + sl),
                k <= sl,
                m <= k,
                m == spacer_mismatches(z.subrange(0, k as int), sp.subrange(0, k as int)),
                is_dna(z.subrange(0, k as int)),
            decreases sl - k,
        {
            let b = seq[start + k];
            assert(z[k as int] == b);
            if base_to_bits(b).is_none() {
                return None;
            }
            let s = self.spacer[k];
            if s != BASE_N && b != s {
                m = m + 1;
            }
            proof {
                let z1 = z.subrange(0, k + 1);
                let s1 = sp.subrange(0, k + 1);
                assert(z1.drop_last() =~= z.subrange(0, k as int));
                assert(s1.drop_last() =~= sp.subrange(0, k as int));
                assert(is_dna(z1)) by {
                    assert forall|i: int| 0 <= i < z1.len() implies is_base(#[trigger] z1[i]) by {
                        if i < k {
                            assert(z1[i] == z.subrange(0, k as int)[i]);
                        }
                    }
                }
            }
            k = k + 1;
        }
        assert(z.subrange(0, sl as int) =~= z);
        assert(sp.subrange(0, sl as int) =~= sp);
        Some(m)
    }

    /// What the window of `seq` at `p` resolves to, found by comparing the window with each
    /// word; `m` is the number of spacer literals the window misses.
    fn scan_lookup(&self, seq: &[u8], p: usize, m: usize) -> (r: Option<usize>)
        requires
            self.wf(),
            p + self.eff_len() <= seq@.len(),
            is_dna(seq@.subrange(p + self.word_length(), p + self.eff_len())),
            m == spacer_mismatches(seq@.subrange(p + self.word_length(), p + self.eff_len()), self.spacer_seq()),
        ensures
            as_index(r) == self.lookup_spec(seq@.subrange(p as int, p + self.eff_len())),
    {
        let ghost ws = self.whitelist();
        let ghost sp = self.spacer_seq();
        let len = self.word_len;
        let ghost x = seq@.subrange(p as int, p + self.eff_len());
        let ghost y = x.subrange(0, len as int);
        let ghost z = x.subrange(len as int, x.len() as int);
        assert(y =~= seq@.subrange(p as int, p + len));
        assert(z =~= seq@.subrange(p + len, p + self.eff_len()));
        if !all_bases(seq, p, len) {
            assert(!is_dna(x)) by {
                let i = choose|i: int| 0 <= i < y.len() && !is_base(#[trigger] y[i]);
                assert(x[i] == y[i]);
            }
            return None;
        }
        assert(is_dna(x)) by {
            assert forall|i: int| 0 <= i < x.len() implies is_base(#[trigger] x[i]) by {
                if i < len {
                    assert(x[i] == y[i]);
                } else {
                    assert(x[i] == z[i - len]);
                }
            }
        }
        let n = self.words.len();
        let exact = self.exact;
        let mut owner: Option<usize> = None;
        let mut clash = false;
        let mut j: usize = 0;
        while j < n
            invariant
                n == ws.len() == self.words@.len(),
                ws == self.whitelist(),
                len == self.word_length(),
                exact == self.is_exact(),
                y == seq@.subrange(p as int, p + len),
                p + len <= seq@.len(),
                self.wf(),
                sp == self.spacer_seq(),
                x == seq@.subrange(p as int, p + self.eff_len()),
                x.len() == len + sp.len(),
                y == x.subrange(0, len as int),
                m == spacer_mismatches(x.subrange(len as int, x.len() as int), sp),
                is_dna(x),
                forall|k: int| 0 <= k < n ==> (#[trigger] ws[k]).len() == len,
                j <= n,
                forall|k: int| 0 <= k < j ==> !(#[trigger] word_close(ws, y, m, k, 0)),
                owner is None ==> !clash,
                exact ==> owner is None,
                !exact && owner is None ==> forall|k: int| 0 <= k < j ==> !#[trigger] word_close(ws, y, m, k, 1),
                owner matches Some(o) ==> o < j && word_close(ws, y, m, o as int, 1),
                owner matches Some(o) ==> clash || forall|k: int|
                    0 <= k < j && #[trigger] word_close(ws, y, m, k, 1) ==> k == o,
                owner matches Some(o) ==> !clash || exists|k: int|
                    0 <= k < j && k != o && #[trigger] word_close(ws, y, m, k, 1),
            decreases n - j,
        {
            assert(ws[j as int] == self.words@[j as int]@);
            let d = count_differences(&self.words[j], seq, p);
            proof {
                lemma_hamming(ws[j as int], y);
            }
            if d == 0 && m == 0 {
                proof {
                    lemma_window_parts(ws, len as nat, sp, x);
                    assert(hits(ws, len as nat, sp, x, j as int));
                    lemma_hit_resolves(ws, len as nat, sp, exact, x, j as int);
                }
                return Some(j);
            }
            let is_near = (d == 0 && m == 1) || (d == 1 && m == 0);
            assert(is_near == word_close(ws, y, m, j as int, 1));
            assert(!word_close(ws, y, m, j as int, 0));
            if !exact && is_near {
                match owner {
                    None => {
                        owner = Some(j);
                    },
                    Some(o) => {
                        clash = true;
                    },
                }
            }
            j = j + 1;
        }
        proof {
            lemma_window_parts(ws, len as nat, sp, x);
            assert forall|k: int| #[trigger] near(ws, len as nat, sp, x, k) == word_close(ws, y, m, k, 1) by {}
            assert forall|k: int| !#[trigger] hits(ws, len as nat, sp, x, k) by {
                if hits(ws, len as nat, sp, x, k) {
                    assert(word_close(ws, y, m, k, 0));
                }
            }
        }
        if !exact && !clash && owner.is_some() {
            let o = owner.unwrap();
            proof {
                lemma_near_resolves(ws, len as nat, sp, exact, x, o as int);
            }
            Some(o)
        } else {
            proof {
                if clash {
                    let o = owner->0 as int;
                    let w = choose|k: int| 0 <= k < n && k != o && #[trigger] word_close(ws, y, m, k, 1);
                    assert forall|k: int| near(ws, len as nat, sp, x, k) implies exists|k2: int|
                        k2 != k && near(ws, len as nat, sp, x, k2) by {
                        if k == o {
                            assert(near(ws, len as nat, sp, x, w));
                        } else {
                            assert(near(ws, len as nat, sp, x, o));
                        }
                    }
                }
                lemma_nothing_resolves(ws, len as nat, sp, exact, x);
            }
            None
        }
    }

    /// The whitelist index that the window of `seq` at `p` resolves to.
    pub fn lookup_at(&self, seq: &[u8], p: usize) -> (r: Option<usize>)
        requires
            self.wf(),
            p + self.eff_len() <= seq@.len(),
        ensures
            as_index(r) == self.lookup_spec(seq@.subrange(p as int, p + self.eff_len())),
    {
        let ghost ws = self.whitelist();
        let ghost sp = self.spacer_seq();
        let len = self.word_len;
        let sl = self.spacer.len();
        let sn = seq.len();
        let ghost x = seq@.subrange(p as int, p + self.eff_len());
        let ghost y = x.subrange(0, len as int);
        let ghost z = x.subrange(len as int, x.len() as int);
        assert(z =~= seq@.subrange(p + len, p + len + sl));
        let m = match self.spacer_check(seq, p + len) {
            None => {
                assert forall|i: int| 0 <= i < z.len() implies z[i] == x[len + i] by {}
                return None;
            },
            Some(m) => m,
        };
        if len > 64 {
            return self.scan_lookup(seq, p, m);
        }
        let code = match pack_dna(seq, p, len) {
            None => {
                assert(seq@.subrange(p as int, p + len) =~= y);
                return None;
            },
            Some(c) => c,
        };
        assert(seq@.subrange(p as int, p + len) =~= y);
        assert(is_dna(x)) by {
            assert forall|i: int| 0 <= i < x.len() implies is_base(#[trigger] x[i]) by {
                if i < len {
                    assert(x[i] == y[i]);
                } else {
                    assert(x[i] == z[i - len]);
                }
            }
        }
        proof {
            self.lemma_index_lookup(y);
            lemma_window_parts(ws, len as nat, sp, x);
        }
        let found = self.index.get(&code);
        if m == 0 {
            match found {
                Some(j) => {
                    proof {
                        lemma_hit_resolves(ws, len as nat, sp, self.exact, x, *j as int);
                    }
                    Some(*j)
                },
                None => {
                    if self.exact {
                        proof {
                            lemma_nothing_resolves(ws, len as nat, sp, self.exact, x);
                        }
                        None
                    } else {
                        proof {
                            assert(neighbour_lookup(ws, self.neighbours@, y, self.exact));
                            assert(!is_word(ws, y));
                            assert(code == dna_code(y) as u128);
                        }
                        match self.neighbours.get(&code) {
                            Some(j) => {
                                proof {
                                    lemma_near_resolves(ws, len as nat, sp, self.exact, x, *j as int);
                                }
                                Some(*j)
                            },
                            None => {
                                proof {
                                    assert forall|k: int| near(ws, len as nat, sp, x, k) implies exists|k2: int|
                                        k2 != k && near(ws, len as nat, sp, x, k2) by {
                                        assert(one_off(ws[k], y));
                                        let k2 = choose|k2: int| 0 <= k2 < ws.len() && k2 != k && one_off(ws[k2], y);
                                        assert(near(ws, len as nat, sp, x, k2));
                                    }
                                    lemma_nothing_resolves(ws, len as nat, sp, self.exact, x);
                                }
                                None
                            },
                        }
                    }
                },
            }
        } else if m == 1 && !self.exact {
            match found {
                Some(j) => {
                    proof {
                        lemma_near_resolves(ws, len as nat, sp, self.exact, x, *j as int);
                    }
                    Some(*j)
                },
                None => {
                    proof {
                        lemma_nothing_resolves(ws, len as nat, sp, self.exact, x);
                    }
                    None
                },
            }
        } else {
            proof {
                lemma_nothing_resolves(ws, len as nat, sp, self.exact, x);
            }
            None
        }
    }

    /// Slides a window over `seq` from `lo` to `lo + span` and returns, for the first window
    /// that resolves, the position just past it and the entry's index.
    pub fn match_subsequence(&self, seq: &[u8], lo: usize, span: usize) -> (r: Option<(usize, usize)>)
        requires
            self.wf(),
        ensures
            match r {
                Some((e, j)) => self.first_match_spec(seq@, lo as int, lo + span) == Some((e as int, j as int)),
                None => self.first_match_spec(seq@, lo as int, lo + span) is None,
            },
    {
        let w = self.len();
        let n = seq.len();
        if w > n {
            assert(self.first_match_spec(seq@, lo as int, lo + span) is None);
            return None;
        }
        let mut p = lo;
        if p > n - w {
            assert(self.first_match_spec(seq@, lo as int, lo + span) is None);
            return None;
        }
        loop
            invariant
                self.wf(),
                w == self.eff_len(),
                n == seq@.len(),
                w <= n,
                lo <= p <= n - w,
                self.first_match_spec(seq@, lo as int, lo + span) == self.first_match_spec(seq@, p as int, lo + span),
            decreases n - p,
        {
            if p - lo > span {
                assert(self.first_match_spec(seq@, p as int, lo + span) is None);
                return None;
            }
            match self.lookup_at(seq, p) {
                Some(j) => {
                    return Some((p + w, j));
                },
                None => {},
            }
            if p == n - w {
                assert(self.first_match_spec(seq@, p + 1, lo + span) is None);
                return None;
            }
            p = p + 1;
        }
    }
}

/// In one-mismatch mode, take the word of entry `j`, substitute one of its bases, and read
/// it with a spacer reading that reproduces every literal. The window resolves to `j` when
/// the new word is neither a whitelist word nor one substitution away from another entry;
/// to nothing when it is one substitution away from another entry as well; and to entry
/// `k` when it is the word of `k`, since an exact reading wins.
pub proof fn lemma_one_mismatch_lookup(s: &Barcodes, j: int, p: int, b: u8, z: Seq<u8>)
    requires
        s.wf(),
        !s.is_exact(),
        0 <= j < s.whitelist().len(),
        0 <= p < s.word_length(),
        is_base(b),
        b != s.whitelist()[j][p],
        z.len() == s.spacer_seq().len(),
        is_dna(z),
        spacer_mismatches(z, s.spacer_seq()) == 0,
    ensures
        ({
            let ws = s.whitelist();
            let w2 = ws[j].update(p, b);
            &&& (forall|k: int| 0 <= k < ws.len() && k != j ==> ws[k] != w2 && !one_off(ws[k], w2))
                ==> s.lookup_spec(w2 + z) == Some(j)
            &&& ((forall|k: int| 0 <= k < ws.len() ==> ws[k] != w2) && (exists|k: int|
                0 <= k < ws.len() && k != j && one_off(ws[k], w2))) ==> s.lookup_spec(w2 + z) is None
            &&& forall|k: int| 0 <= k < ws.len() && ws[k] == w2 ==> s.lookup_spec(w2 + z) == Some(k)
        }),
{
    let ws = s.whitelist();
    let len = s.word_length();
    let sp = s.spacer_seq();
    let w2 = ws[j].update(p, b);
    let x = w2 + z;
    assert(x.subrange(0, len as int) =~= w2);
    assert(x.subrange(len as int, x.len() as int) =~= z);
    assert(is_dna(ws[j]));
    assert(is_dna(x)) by {
        assert forall|i: int| 0 <= i < x.len() implies is_base(#[trigger] x[i]) by {
            if i < len {
                if i != p {
                    assert(x[i] == ws[j][i]);
                }
            } else {
                assert(x[i] == z[i - len]);
            }
        }
    }
    assert(ws[j] =~= w2.update(p, ws[j][p]));
    assert(one_off(ws[j], w2));
    lemma_window_parts(ws, len, sp, x);
    assert(near(ws, len, sp, x, j));
    if forall|k: int| 0 <= k < ws.len() && k != j ==> ws[k] != w2 && !one_off(ws[k], w2) {
        assert(ws[j] != w2);
        assert(forall|i: int| !hits(ws, len, sp, x, i));
        lemma_near_resolves(ws, len, sp, false, x, j);
    }
    if (forall|k: int| 0 <= k < ws.len() ==> ws[k] != w2) && (exists|k: int|
        0 <= k < ws.len() && k != j && one_off(ws[k], w2)) {
        let k = choose|k: int| 0 <= k < ws.len() && k != j && one_off(ws[k], w2);
        assert(near(ws, len, sp, x, k));
        assert forall|i: int| near(ws, len, sp, x, i) implies exists|l: int| l != i && near(ws, len, sp, x, l) by {
            if i == j {
                assert(near(ws, len, sp, x, k));
            } else {
                assert(near(ws, len, sp, x, j));
            }
        }
        lemma_nothing_resolves(ws, len, sp, false, x);
    }
    assert forall|k: int| 0 <= k < ws.len() && ws[k] == w2 implies s.lookup_spec(w2 + z) == Some(k) by {
        assert(hits(ws, len, sp, x, k));
        lemma_hit_resolves(ws, len, sp, false, x, k);
    }
}

/// A spacer literal that `v` misses counts one.
pub open spec fn literal_miss(v: u8, s: u8) -> nat {
    if s != BASE_N && v != s {
        1
    } else {
        0
    }
}

/// Changing one byte of a spacer reading changes its count of missed literals at that
/// position only.
proof fn lemma_spacer_update(z: Seq<u8>, sp: Seq<u8>, q: int, b: u8)
    requires
        z.len() == sp.len(),
        0 <= q < z.len(),
    ensures
        spacer_mismatches(z.update(q, b), sp) + literal_miss(z[q], sp[q]) == spacer_mismatches(z, sp)
            + literal_miss(b, sp[q]),
    decreases z.len(),
{
    let z2 = z.update(q, b);
    if q == z.len() - 1 {
        assert(z2.drop_last() =~= z.drop_last());
    } else {
        assert(z2.drop_last() =~= z.drop_last().update(q, b));
        lemma_spacer_update(z.drop_last(), sp.drop_last(), q, b);
    }
}

proof fn lemma_spacer_counts_each(z: Seq<u8>, sp: Seq<u8>, q: int)
    requires
        z.len() == sp.len(),
        0 <= q < z.len(),
    ensures
        spacer_mismatches(z, sp) >= literal_miss(z[q], sp[q]),
    decreases z.len(),
{
    if q < z.len() - 1 {
        lemma_spacer_counts_each(z.drop_last(), sp.drop_last(), q);
    }
}

/// In one-mismatch mode, the word of entry `j` followed by a spacer reading with one
/// literal position substituted resolves to `j`.
pub proof fn lemma_spacer_mismatch_lookup(s: &Barcodes, j: int, r: Seq<u8>, q: int, b: u8)
    requires
        s.wf(),
        !s.is_exact(),
        0 <= j < s.whitelist().len(),
        r.len() == s.spacer_seq().len(),
        is_dna(r),
        spacer_mismatches(r, s.spacer_seq()) == 0,
        0 <= q < r.len(),
        s.spacer_seq()[q] != BASE_N,
        is_base(b),
        b != r[q],
    ensures
        s.lookup_spec(s.whitelist()[j] + r.update(q, b)) == Some(j),
{
    let ws = s.whitelist();
    let len = s.word_length();
    let sp = s.spacer_seq();
    let r2 = r.update(q, b);
    let x = ws[j] + r2;
    assert(ws[j].len() == len && is_dna(ws[j]));
    assert(x.subrange(0, len as int) =~= ws[j]);
    assert(x.subrange(len as int, x.len() as int) =~= r2);
    lemma_spacer_update(r, sp, q, b);
    lemma_spacer_counts_each(r, sp, q);
    assert(is_dna(x)) by {
        assert forall|i: int| 0 <= i < x.len() implies is_base(#[trigger] x[i]) by {
            if i < len {
                assert(x[i] == ws[j][i]);
            } else if i - len != q {
                assert(x[i] == r[i - len]);
            }
        }
    }
    lemma_window_parts(ws, len, sp, x);
    assert forall|i: int| !hits(ws, len, sp, x, i) by {}
    assert forall|k: int| near(ws, len, sp, x, k) implies k == j by {
        if k < j {
            assert(ws[k] != ws[j]);
        } else if j < k {
            assert(ws[j] != ws[k]);
        }
    }
    lemma_near_resolves(ws, len, sp, false, x, j);
}

/// Searching one window exactly where it starts finds what the window resolves to.
pub proof fn lemma_single_window(s: &Barcodes, x: Seq<u8>)
    requires
        x.len() == s.eff_len(),
    ensures
        s.first_match_spec(x, 0, 0) == match s.lookup_spec(x) {
            Some(j) => Some((x.len() as int, j)),
            None => None::<(int, int)>,
        },
{
    assert(x.subrange(0, x.len() as int) =~= x);
    reveal_with_fuel(first_match, 2);
}

/// A window that resolves names a whitelist entry.
pub proof fn lemma_resolve_in_range(words: Seq<Seq<u8>>, len: nat, sp: Seq<u8>, exact: bool, x: Seq<u8>)
    ensures
        resolve(words, len, sp, exact, x) matches Some(j) ==> 0 <= j < words.len(),
{
    if exists|j: int| hits(words, len, sp, x, j) {
        let j = choose|j: int| hits(words, len, sp, x, j);
    }
}

/// A match ends a full window past its start, inside the sequence, on a whitelist entry.
pub proof fn lemma_first_match_bounds(
    words: Seq<Seq<u8>>,
    len: nat,
    sp: Seq<u8>,
    exact: bool,
    seq: Seq<u8>,
    lo: int,
    hi: int,
)
    requires
        0 <= lo,
    ensures
        first_match(words, len, sp, exact, seq, lo, hi) matches Some((e, j)) ==> lo + len + sp.len() <= e
            <= seq.len() && 0 <= j < words.len(),
    decreases hi - lo + 1,
{
    let w = len + sp.len();
    if !(lo > hi || lo + w > seq.len()) {
        lemma_resolve_in_range(words, len, sp, exact, seq.subrange(lo, lo + w));
        lemma_first_match_bounds(words, len, sp, exact, seq, lo + 1, hi);
    }
}

} // verus!
