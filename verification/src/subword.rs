//! FastText-style character n-grams of word surfaces, hashed to buckets for
//! subword embeddings (Bojanowski et al. 2017).

use vstd::prelude::*;
use vstd::utf8::encode_utf8;
use crate::text::{chars_of, string_of_range, join3, usize_text};
use crate::error::Word2VecError;
use crate::lsp_text::{has_prefix, starts_with};
use crate::scan::{parse_unsigned, parse_unsigned_at, word_bounds, words};
use crate::output_format::decimal;
use vstd::string::StringExecFns;

verus! {

/// FNV-1a offset basis.
pub const FNV_OFFSET_BASIS: u64 = 14_695_981_039_346_656_037;
/// FNV-1a prime.
pub const FNV_PRIME: u64 = 1_099_511_628_211;

/// The 64-bit FNV-1a hash of a byte string.
pub open spec fn fnv1a(bytes: Seq<u8>) -> u64
    decreases bytes.len(),
{
    if bytes.len() == 0 {
        FNV_OFFSET_BASIS
    } else {
        (fnv1a(bytes.drop_last()) ^ (bytes.last() as u64)).wrapping_mul(FNV_PRIME)
    }
}

/// The bucket of an n-gram: the FNV-1a hash of its UTF-8 bytes modulo the
/// bucket count.
pub open spec fn ngram_bucket(ngram: Seq<char>, bucket_count: int) -> u32 {
    (fnv1a(encode_utf8(ngram)) as int % bucket_count) as u32
}

/// Whether `id` is the bucket of an n-gram of `bounded` whose length lies in
/// `min_n..=max_n`.
pub open spec fn is_ngram_bucket(bounded: Seq<char>, min_n: int, max_n: int, bucket_count: int, id: u32) -> bool {
    exists|s: int, l: int| 0 <= s && min_n <= l <= max_n && s + l <= bounded.len()
        && #[trigger] ngram_bucket(bounded.subrange(s, s + l), bucket_count) == id
}

/// The surface between the boundary markers `<` and `>`.
pub open spec fn bounded_surface(surface: Seq<char>) -> Seq<char> {
    seq!['<'] + surface + seq!['>']
}

/// Extracts character n-grams from word surfaces and hashes them to bucket IDs.
pub struct CharNgramExtractor {
    min_n: usize,
    max_n: usize,
    bucket_count: usize,
}

impl CharNgramExtractor {
    /// Shortest n-gram length.
    pub closed spec fn min_len(&self) -> nat {
        self.min_n as nat
    }

    /// Longest n-gram length.
    pub closed spec fn max_len(&self) -> nat {
        self.max_n as nat
    }

    /// Number of hash buckets.
    pub closed spec fn buckets(&self) -> nat {
        self.bucket_count as nat
    }

    /// Create a new extractor with given n-gram length range and bucket count.
    pub fn new(min_n: usize, max_n: usize, bucket_count: usize) -> (r: Self)
        ensures
            r.min_len() == min_n,
            r.max_len() == max_n,
            r.buckets() == bucket_count,
    {
        CharNgramExtractor { min_n, max_n, bucket_count }
    }

    /// FNV-1a hash of an n-gram, reduced to `[0, bucket_count)`.
    pub fn hash_ngram(&self, ngram: &str) -> (r: u32)
        requires
            self.buckets() > 0,
        ensures
            r == ngram_bucket(ngram@, self.buckets() as int),
    {
        let bytes = ngram.as_bytes();
        let mut hash: u64 = FNV_OFFSET_BASIS;
        let mut i: usize = 0;
        proof {
            assert(bytes@.take(0) =~= Seq::<u8>::empty());
        }
        while i < bytes.len()
            invariant
                i <= bytes@.len(),
                bytes@ == encode_utf8(ngram@),
                hash == fnv1a(bytes@.take(i as int)),
            decreases bytes@.len() - i,
        {
            proof {
                assert(bytes@.take(i + 1).drop_last() =~= bytes@.take(i as int));
            }
            hash = (hash ^ (bytes[i] as u64)).wrapping_mul(FNV_PRIME);
            i += 1;
        }
        proof {
            assert(bytes@.take(i as int) =~= bytes@);
        }
        (hash % (self.bucket_count as u64)) as u32
    }

    /// Extract all n-gram bucket IDs of a surface form: the surface is wrapped
    /// in `<` and `>` and every n-gram of length `min_n..=max_n` is hashed.
    /// The result is strictly increasing (sorted, without duplicates); it is
    /// empty for an empty surface, `min_n == 0` or no buckets.
    pub fn extract_bucket_ids(&self, surface: &str) -> (r: Vec<u32>)
        ensures
            forall|a: int, b: int| 0 <= a < b < r@.len() ==> r@[a] < r@[b],
            surface@.len() == 0 || self.min_len() == 0 || self.buckets() == 0 ==> r@.len() == 0,
            surface@.len() > 0 && self.min_len() > 0 && self.buckets() > 0 ==> forall|id: u32|
                r@.contains(id) <==> is_ngram_bucket(bounded_surface(surface@), self.min_len() as int, self.max_len() as int,
                    self.buckets() as int, id),
    {
        let cs = chars_of(surface);
        if cs.len() == 0 || self.min_n == 0 || self.bucket_count == 0 {
            return Vec::new();
        }
        let mut bounded: Vec<char> = Vec::new();
        bounded.push('<');
        let mut k: usize = 0;
        while k < cs.len()
            invariant
                k <= cs@.len(),
                bounded@ == seq!['<'] + cs@.take(k as int),
            decreases cs@.len() - k,
        {
            bounded.push(cs[k]);
            k += 1;
            assert(bounded@ =~= seq!['<'] + cs@.take(k as int));
        }
        bounded.push('>');
        let ghost b = bounded_surface(surface@);
        let ghost lo = self.min_len() as int;
        let ghost hi = self.max_len() as int;
        let ghost bc = self.buckets() as int;
        proof {
            assert(cs@.take(k as int) =~= cs@);
            assert(bounded@ =~= b);
        }
        let n = bounded.len();
        let mut ids: Vec<u32> = Vec::new();
        let mut start: usize = 0;
        proof {
            assert forall|id: u32| ids@.contains(id) <==> starts_below(b, lo, hi, bc, 0, id) by {
                reveal(starts_below);
            }
        }
        while start < n
            invariant
                start <= n,
                n == bounded@.len(),
                bounded@ == b,
                lo == self.min_len(),
                hi == self.max_len(),
                bc == self.buckets(),
                bc > 0,
                lo >= 1,
                forall|x: int, y: int| 0 <= x < y < ids@.len() ==> ids@[x] < ids@[y],
                forall|id: u32| ids@.contains(id) <==> starts_below(b, lo, hi, bc, start as int, id),
            decreases n - start,
        {
            let ghost ids0 = ids@;
            self.add_start_ids(&bounded, start, &mut ids, Ghost(b));
            proof {
                assert forall|x: u32| ids@.contains(x) <==> starts_below(b, lo, hi, bc, start + 1, x) by {
                    lemma_starts_below_step(b, lo, hi, bc, start as int, x);
                }
            }
            start += 1;
        }
        proof {
            assert forall|id: u32| ids@.contains(id) <==> is_ngram_bucket(b, lo, hi, bc, id) by {
                lemma_starts_below_all(b, lo, hi, bc, id);
            }
        }
        ids
    }
}

impl CharNgramExtractor {
    /// Add the buckets of the n-grams starting at `start` to the sorted `ids`.
    fn add_start_ids(&self, bounded: &Vec<char>, start: usize, ids: &mut Vec<u32>, Ghost(b): Ghost<Seq<char>>)
        requires
            start < bounded@.len(),
            bounded@ == b,
            self.buckets() > 0,
            self.min_len() >= 1,
            forall|x: int, y: int| 0 <= x < y < old(ids)@.len() ==> old(ids)@[x] < old(ids)@[y],
        ensures
            forall|x: int, y: int| 0 <= x < y < final(ids)@.len() ==> final(ids)@[x] < final(ids)@[y],
            forall|id: u32| final(ids)@.contains(id) <==> (old(ids)@.contains(id) || exists|l: int| self.min_len() <= l <= self.max_len()
                && start + l <= b.len() && #[trigger] ngram_bucket(b.subrange(start as int, start + l), self.buckets() as int) == id),
    {
        let ghost lo = self.min_len() as int;
        let ghost hi = self.max_len() as int;
        let ghost bc = self.buckets() as int;
        let n = bounded.len();
        let mut length: usize = self.min_n;
        let mut done = false;
        proof {
            assert forall|id: u32| ids@.contains(id) <==> (old(ids)@.contains(id) || lengths_below(b, lo, hi, bc, start as int, length as int, id)) by {
                reveal(lengths_below);
            }
        }
        while !done && length <= self.max_n && length <= n - start
            invariant
                start < n,
                n == bounded@.len(),
                bounded@ == b,
                lo == self.min_len(),
                hi == self.max_len(),
                bc == self.buckets(),
                bc > 0,
                lo <= length,
                done ==> length == usize::MAX && length <= hi,
                forall|x: int, y: int| 0 <= x < y < ids@.len() ==> ids@[x] < ids@[y],
                forall|id: u32| ids@.contains(id) <==> (old(ids)@.contains(id) || lengths_below(b, lo, hi, bc, start as int, length as int + if done { 1int } else { 0int }, id)),
            decreases n + 1 - length, if done { 0int } else { 1int },
        {
            let ngram = string_of_range(bounded.as_slice(), start, start + length);
            let id = self.hash_ngram(ngram.as_str());
            insert_sorted(ids, id);
            proof {
                assert forall|x: u32| lengths_below(b, lo, hi, bc, start as int, length + 1, x)
                    <==> (lengths_below(b, lo, hi, bc, start as int, length as int, x) || x == id) by {
                    lemma_lengths_below_step(b, lo, hi, bc, start as int, length as int, x);
                }
            }
            if length == usize::MAX {
                done = true;
            } else {
                length += 1;
            }
        }
        proof {
            assert forall|x: u32| final(ids)@.contains(x) <==> (old(ids)@.contains(x) || exists|l: int| lo <= l <= hi
                && start + l <= b.len() && #[trigger] ngram_bucket(b.subrange(start as int, start + l), bc) == x) by {
                lemma_lengths_below_done(b, lo, hi, bc, start as int, length as int + if done { 1int } else { 0int }, x);
            }
        }
    }
}

/// Some n-gram starting before `start` has bucket `id`.
#[verifier::opaque]
pub open spec fn starts_below(b: Seq<char>, lo: int, hi: int, bc: int, start: int, id: u32) -> bool {
    exists|s: int, l: int| 0 <= s < start && lo <= l <= hi && s + l <= b.len()
        && #[trigger] ngram_bucket(b.subrange(s, s + l), bc) == id
}

/// Some n-gram at `start`, shorter than `len`, has bucket `id`.
#[verifier::opaque]
pub open spec fn lengths_below(b: Seq<char>, lo: int, hi: int, bc: int, start: int, len: int, id: u32) -> bool {
    exists|l: int| lo <= l < len && l <= hi && start + l <= b.len()
        && #[trigger] ngram_bucket(b.subrange(start, start + l), bc) == id
}

proof fn lemma_lengths_below_step(b: Seq<char>, lo: int, hi: int, bc: int, start: int, len: int, x: u32)
    requires
        lo <= len <= hi,
        start + len <= b.len(),
    ensures
        lengths_below(b, lo, hi, bc, start, len + 1, x)
            <==> (lengths_below(b, lo, hi, bc, start, len, x) || x == ngram_bucket(b.subrange(start, start + len), bc)),
{
    reveal(lengths_below);
    if lengths_below(b, lo, hi, bc, start, len + 1, x) {
        let l = choose|l: int| lo <= l < len + 1 && l <= hi && start + l <= b.len()
            && #[trigger] ngram_bucket(b.subrange(start, start + l), bc) == x;
        if l < len {
            assert(lengths_below(b, lo, hi, bc, start, len, x));
        }
    }
    if lengths_below(b, lo, hi, bc, start, len, x) {
        let l = choose|l: int| lo <= l < len && l <= hi && start + l <= b.len()
            && #[trigger] ngram_bucket(b.subrange(start, start + l), bc) == x;
        assert(lengths_below(b, lo, hi, bc, start, len + 1, x));
    }
    if x == ngram_bucket(b.subrange(start, start + len), bc) {
        assert(lengths_below(b, lo, hi, bc, start, len + 1, x));
    }
}

proof fn lemma_lengths_below_done(b: Seq<char>, lo: int, hi: int, bc: int, start: int, len: int, x: u32)
    requires
        lo <= len,
        len > hi || start + len > b.len(),
    ensures
        lengths_below(b, lo, hi, bc, start, len, x)
            <==> exists|l: int| lo <= l <= hi && start + l <= b.len() && #[trigger] ngram_bucket(b.subrange(start, start + l), bc) == x,
{
    reveal(lengths_below);
    if exists|l: int| lo <= l <= hi && start + l <= b.len() && #[trigger] ngram_bucket(b.subrange(start, start + l), bc) == x {
        let l = choose|l: int| lo <= l <= hi && start + l <= b.len() && #[trigger] ngram_bucket(b.subrange(start, start + l), bc) == x;
        assert(lengths_below(b, lo, hi, bc, start, len, x));
    }
}

proof fn lemma_starts_below_step(b: Seq<char>, lo: int, hi: int, bc: int, start: int, x: u32)
    requires
        0 <= start,
    ensures
        starts_below(b, lo, hi, bc, start + 1, x) <==> (starts_below(b, lo, hi, bc, start, x)
            || exists|l: int| lo <= l <= hi && start + l <= b.len() && #[trigger] ngram_bucket(b.subrange(start, start + l), bc) == x),
{
    reveal(starts_below);
    if starts_below(b, lo, hi, bc, start + 1, x) {
        let (s, l) = choose|s: int, l: int| 0 <= s < start + 1 && lo <= l <= hi && s + l <= b.len()
            && #[trigger] ngram_bucket(b.subrange(s, s + l), bc) == x;
        if s < start {
            assert(starts_below(b, lo, hi, bc, start, x));
        } else {
            assert(ngram_bucket(b.subrange(start, start + l), bc) == x);
        }
    }
    if starts_below(b, lo, hi, bc, start, x) {
        let (s, l) = choose|s: int, l: int| 0 <= s < start && lo <= l <= hi && s + l <= b.len()
            && #[trigger] ngram_bucket(b.subrange(s, s + l), bc) == x;
        assert(starts_below(b, lo, hi, bc, start + 1, x));
    }
    if exists|l: int| lo <= l <= hi && start + l <= b.len() && #[trigger] ngram_bucket(b.subrange(start, start + l), bc) == x {
        let l = choose|l: int| lo <= l <= hi && start + l <= b.len() && #[trigger] ngram_bucket(b.subrange(start, start + l), bc) == x;
        assert(ngram_bucket(b.subrange(start, start + l), bc) == x);
        assert(starts_below(b, lo, hi, bc, start + 1, x));
    }
}

proof fn lemma_starts_below_all(b: Seq<char>, lo: int, hi: int, bc: int, x: u32)
    requires
        lo >= 1,
    ensures
        starts_below(b, lo, hi, bc, b.len() as int, x) <==> is_ngram_bucket(b, lo, hi, bc, x),
{
    reveal(starts_below);
    if is_ngram_bucket(b, lo, hi, bc, x) {
        let (s, l) = choose|s: int, l: int| 0 <= s && lo <= l <= hi && s + l <= b.len()
            && #[trigger] ngram_bucket(b.subrange(s, s + l), bc) == x;
        assert(starts_below(b, lo, hi, bc, b.len() as int, x));
    }
}

/// Insert `x` into a strictly increasing vector, unless present.
fn insert_sorted(v: &mut Vec<u32>, x: u32)
    requires
        forall|a: int, b: int| 0 <= a < b < old(v)@.len() ==> old(v)@[a] < old(v)@[b],
    ensures
        forall|a: int, b: int| 0 <= a < b < final(v)@.len() ==> final(v)@[a] < final(v)@[b],
        forall|y: u32| final(v)@.contains(y) <==> (old(v)@.contains(y) || y == x),
{
    let mut i: usize = 0;
    while i < v.len() && v[i] < x
        invariant
            i <= v@.len(),
            v@ == old(v)@,
            forall|j: int| 0 <= j < i ==> v@[j] < x,
        decreases v@.len() - i,
    {
        i += 1;
    }
    if i < v.len() && v[i] == x {
        proof {
            assert(v@[i as int] == x);
        }
        return;
    }
    assert(i < v@.len() ==> x < v@[i as int]);
    let ghost before = v@;
    v.insert(i, x);
    proof {
        before.insert_ensures(i as int, x);
        assert forall|y: u32| v@.contains(y) <==> (before.contains(y) || y == x) by {
            if v@.contains(y) {
                let j = choose|j: int| 0 <= j < v@.len() && v@[j] == y;
                if j < i {
                    assert(before[j] == y);
                } else if j > i {
                    assert(v@[(j - 1) + 1] == before[j - 1]);
                }
            }
            if before.contains(y) {
                let j = choose|j: int| 0 <= j < before.len() && before[j] == y;
                if j < i {
                    assert(v@[j] == y);
                } else {
                    assert(v@[j + 1] == y);
                }
            }
            if y == x {
                assert(v@[i as int] == x);
            }
        }
        assert forall|a: int, c: int| 0 <= a < c < v@.len() implies v@[a] < v@[c] by {
            if c < i {
            } else if a < i && c == i {
            } else if a < i && c > i {
                assert(v@[(c - 1) + 1] == before[c - 1]);
                assert(before[a] < x);
                if i < before.len() {
                    assert(x < before[i as int]);
                }
            } else if a == i {
                assert(v@[(c - 1) + 1] == before[c - 1]);
                assert(x < before[i as int]);
            } else {
                assert(v@[(a - 1) + 1] == before[a - 1]);
                assert(v@[(c - 1) + 1] == before[c - 1]);
            }
        }
    }
}

/// Configuration for FastText-style subword embeddings.
#[derive(Debug, Clone)]
pub struct SubwordConfig {
    /// Minimum character n-gram length (default: 3)
    pub min_n: usize,
    /// Maximum character n-gram length (default: 6)
    pub max_n: usize,
    /// Number of hash buckets for n-gram table (default: 2_000_000)
    pub bucket_count: usize,
}

impl Default for SubwordConfig {
    fn default() -> (r: Self)
        ensures
            r.min_n == 3,
            r.max_n == 6,
            r.bucket_count == 2_000_000,
    {
        SubwordConfig { min_n: 3, max_n: 6, bucket_count: 2_000_000 }
    }
}

/// Training objective of the embedding model.
#[derive(Debug, Clone, Copy, PartialEq, Eq, Default)]
pub enum TrainingObjective {
    /// Skip-gram: predict context from center word (default, better for rare words).
    #[default]
    SkipGram,
    /// CBOW: predict center word from context (faster training, better for frequent words).
    Cbow,
}

/// The header keys of a sparse subword file, by slot.
pub open spec fn header_key_name(k: int) -> Seq<char> {
    if k == 0 {
        "min_n"@
    } else if k == 1 {
        "max_n"@
    } else if k == 2 {
        "bucket_count"@
    } else {
        "vector_size"@
    }
}

/// The `key=` prefix of each slot.
pub open spec fn header_key_prefix(k: int) -> Seq<char> {
    if k == 0 {
        "min_n="@
    } else if k == 1 {
        "max_n="@
    } else if k == 2 {
        "bucket_count="@
    } else {
        "vector_size="@
    }
}

/// The slot a header token sets: the first key it starts with, as `key=`.
pub open spec fn header_slot(t: Seq<char>) -> Option<int> {
    if has_prefix(t, header_key_prefix(0)) {
        Some(0)
    } else if has_prefix(t, header_key_prefix(1)) {
        Some(1)
    } else if has_prefix(t, header_key_prefix(2)) {
        Some(2)
    } else if has_prefix(t, header_key_prefix(3)) {
        Some(3)
    } else {
        None
    }
}

/// The four header values the tokens `ws` set (a later token overrides an
/// earlier one; other tokens are ignored), or the error of the first token
/// whose value is not a `usize`.
pub open spec fn header_values(ws: Seq<Seq<char>>) -> Result<Seq<Option<int>>, Seq<char>>
    decreases ws.len(),
{
    if ws.len() == 0 {
        Ok(seq![None, None, None, None])
    } else {
        match header_values(ws.drop_last()) {
            Err(m) => Err(m),
            Ok(f) => {
                let t = ws.last();
                match header_slot(t) {
                    None => Ok(f),
                    Some(k) => match parse_unsigned(t.skip(header_key_prefix(k).len() as int), 10, usize::MAX as int) {
                        Some(v) => Ok(f.update(k, Some(v))),
                        None => Err("cannot parse "@ + header_key_name(k) + " from '"@ + t + "'"@),
                    },
                }
            },
        }
    }
}

/// What the header line of a sparse subword file gives, followed (when
/// `has_count_line`) by its count comment line: `(min_n, max_n,
/// bucket_count, vector_size)`, or the error message. Keys are checked in
/// that order; the table `bucket_count * vector_size` must fit `usize`.
pub open spec fn subword_header(header: Seq<char>, has_count_line: bool) -> Result<(int, int, int, int), Seq<char>> {
    match header_values(words(header)) {
        Err(m) => Err(m),
        Ok(f) => if f[0] is None {
            Err("header missing min_n"@)
        } else if f[1] is None {
            Err("header missing max_n"@)
        } else if f[2] is None {
            Err("header missing bucket_count"@)
        } else if f[3] is None {
            Err("header missing vector_size"@)
        } else if !has_count_line {
            Err("subword file missing count comment line"@)
        } else if f[2]->0 * f[3]->0 > usize::MAX {
            Err("bucket_count ("@ + decimal(f[2]->0 as nat) + ") * vector_size ("@ + decimal(f[3]->0 as nat)
                + ") overflows usize"@)
        } else {
            Ok((f[0]->0, f[1]->0, f[2]->0, f[3]->0))
        },
    }
}

/// When `tok` starts with `prefix`: the `usize` after it, if it parses.
fn keyed_value(tok: &[char], prefix: &str) -> (r: Option<Option<usize>>)
    ensures
        !has_prefix(tok@, prefix@) ==> r is None,
        has_prefix(tok@, prefix@) ==> (r matches Some(o) && match parse_unsigned(tok@.skip(prefix@.len() as int), 10, usize::MAX as int) {
            Some(v) => o == Some(v as usize),
            None => o is None,
        }),
        has_prefix(tok@, prefix@) ==> (parse_unsigned(tok@.skip(prefix@.len() as int), 10, usize::MAX as int) matches Some(v)
            ==> 0 <= v <= usize::MAX),
{
    proof {
        if tok@.len() >= prefix@.len() {
            let s = tok@.skip(prefix@.len() as int);
            assert(s =~= tok@.subrange(prefix@.len() as int, tok@.len() as int));
        }
    }
    if !starts_with(tok, prefix) {
        return None;
    }
    let plen = chars_of(prefix).len();
    proof {
        assert(tok@.subrange(plen as int, tok@.len() as int) =~= tok@.skip(plen as int));
    }
    match parse_unsigned_at(tok, plen, tok.len(), 10, usize::MAX as u64) {
        Some(v) => Some(Some(v as usize)),
        None => Some(None),
    }
}

/// The slot the header token `tok` sets (4 for none) and its value, if it
/// parses (see [`header_slot`]).
fn token_slot(tok: &[char]) -> (r: (usize, Option<usize>))
    ensures
        r.0 <= 4,
        r.0 == 4 <==> header_slot(tok@) is None,
        r.0 < 4 ==> header_slot(tok@) == Some(r.0 as int) && match parse_unsigned(
            tok@.skip(header_key_prefix(r.0 as int).len() as int),
            10,
            usize::MAX as int,
        ) {
            Some(v) => r.1 == Some(v as usize) && 0 <= v <= usize::MAX,
            None => r.1 is None,
        },
{
    proof {
        reveal_strlit("min_n=");
        reveal_strlit("max_n=");
        reveal_strlit("bucket_count=");
        reveal_strlit("vector_size=");
    }
    match keyed_value(tok, "min_n=") {
        Some(o) => return (0, o),
        None => {},
    }
    match keyed_value(tok, "max_n=") {
        Some(o) => return (1, o),
        None => {},
    }
    match keyed_value(tok, "bucket_count=") {
        Some(o) => return (2, o),
        None => {},
    }
    match keyed_value(tok, "vector_size=") {
        Some(o) => (3, o),
        None => (4, None),
    }
}

/// Parse the header of a sparse subword file (see [`subword_header`]):
/// the n-gram configuration, the vector size, and the table length
/// `bucket_count * vector_size`.
pub fn parse_subword_header(header: &str, has_count_line: bool) -> (r: Result<(SubwordConfig, usize, usize), Word2VecError>)
    ensures
        match subword_header(header@, has_count_line) {
            Ok((a, b, c, d)) => r matches Ok((cfg, vs, total)) && cfg.min_n == a && cfg.max_n == b && cfg.bucket_count == c
                && vs == d && total == c * d,
            Err(m) => r matches Err(Word2VecError::InvalidParameter(e)) && e@ == m,
        },
{
    let cs = chars_of(header);
    let wb = word_bounds(cs.as_slice(), 0, cs.len());
    let ghost ws = words(cs@.subrange(0, cs@.len() as int));
    proof {
        assert(cs@.subrange(0, cs@.len() as int) =~= header@);
    }
    let mut vals: Vec<Option<usize>> = vec![None, None, None, None];
    let mut k: usize = 0;
    while k < wb.len()
        invariant
            k <= wb@.len(),
            ws == words(header@),
            wb@.len() == ws.len(),
            forall|j: int| 0 <= j < wb@.len() ==> 0 <= (#[trigger] wb@[j]).0 <= wb@[j].1 <= cs@.len()
                && cs@.subrange(wb@[j].0 as int, wb@[j].1 as int) == ws[j],
            vals@.len() == 4,
            header_values(ws.take(k as int)) matches Ok(f) && f.len() == 4 && forall|i: int| 0 <= i < 4 ==> #[trigger] f[i] == match vals@[i] {
                Some(v) => Some(v as int),
                None => None::<int>,
            },
        decreases wb@.len() - k,
    {
        let (lo, hi) = wb[k];
        let tok_s = string_of_range(cs.as_slice(), lo, hi);
        let tok = chars_of(tok_s.as_str());
        proof {
            assert(ws.take(k + 1).drop_last() =~= ws.take(k as int));
            assert(ws.take(k + 1).last() == tok@);
        }
        let (slot, got) = token_slot(tok.as_slice());
        let ghost fprev = match header_values(ws.take(k as int)) {
            Ok(f) => f,
            Err(_) => Seq::empty(),
        };
        let ghost vprev = vals@;
        if slot < 4 {
            match got {
                Some(v) => {
                    vals.set(slot, Some(v));
                    proof {
                        assert(parse_unsigned(tok@.skip(header_key_prefix(slot as int).len() as int), 10, usize::MAX as int)
                            == Some(v as int));
                        let fnew = fprev.update(slot as int, Some(v as int));
                        assert(header_values(ws.take(k + 1)) == Ok::<Seq<Option<int>>, Seq<char>>(fnew));
                        assert forall|i: int| 0 <= i < 4 implies #[trigger] fnew[i] == match vals@[i] {
                            Some(v) => Some(v as int),
                            None => None::<int>,
                        } by {
                            if i != slot {
                                assert(vals@[i] == vprev[i]);
                                assert(fnew[i] == fprev[i]);
                            }
                        }
                    }
                },
                None => {
                    let name = if slot == 0 {
                        "min_n"
                    } else if slot == 1 {
                        "max_n"
                    } else if slot == 2 {
                        "bucket_count"
                    } else {
                        "vector_size"
                    };
                    let head = join3("cannot parse ", name, " from '");
                    let m = join3(head.as_str(), tok_s.as_str(), "'");
                    proof {
                        lemma_header_error_persists(ws, k as int + 1);
                    }
                    return Err(Word2VecError::InvalidParameter(m));
                },
            }
        }
        k = k + 1;
    }
    proof {
        assert(ws.take(wb@.len() as int) =~= ws);
    }
    let min_n = match vals[0] {
        Some(v) => v,
        None => return Err(Word2VecError::InvalidParameter(String::from_str("header missing min_n"))),
    };
    let max_n = match vals[1] {
        Some(v) => v,
        None => return Err(Word2VecError::InvalidParameter(String::from_str("header missing max_n"))),
    };
    let bucket_count = match vals[2] {
        Some(v) => v,
        None => return Err(Word2VecError::InvalidParameter(String::from_str("header missing bucket_count"))),
    };
    let vector_size = match vals[3] {
        Some(v) => v,
        None => return Err(Word2VecError::InvalidParameter(String::from_str("header missing vector_size"))),
    };
    if !has_count_line {
        return Err(Word2VecError::InvalidParameter(String::from_str("subword file missing count comment line")));
    }
    match bucket_count.checked_mul(vector_size) {
        Some(total) => Ok((SubwordConfig { min_n, max_n, bucket_count }, vector_size, total)),
        None => {
            let head = join3("bucket_count (", usize_text(bucket_count).as_str(), ") * vector_size (");
            let m = join3(head.as_str(), usize_text(vector_size).as_str(), ") overflows usize");
            Err(Word2VecError::InvalidParameter(m))
        },
    }
}

/// Once a prefix of the tokens fails, every longer prefix fails the same way.
proof fn lemma_header_error_persists(ws: Seq<Seq<char>>, n: int)
    requires
        0 <= n <= ws.len(),
        header_values(ws.take(n)) is Err,
    ensures
        header_values(ws) == header_values(ws.take(n)),
    decreases ws.len() - n,
{
    if n < ws.len() {
        assert(ws.take(n + 1).drop_last() =~= ws.take(n));
        lemma_header_error_persists(ws, n + 1);
    } else {
        assert(ws.take(n) =~= ws);
    }
}

} // verus!
