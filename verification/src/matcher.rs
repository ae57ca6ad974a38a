//! Token matcher: a fixed pattern set over raw bytes, scan-local
//! deduplication, title extraction, and fragment scoring.
//!
//! The pattern set is the library's own grammar: each pattern is an
//! anchor byte string followed by an eleven-character identifier that
//! must end at a non-identifier byte or at the end of the data.
//! Priorities range 5 to 10; a token's confidence is its pattern's
//! priority scaled to milli.

use vstd::prelude::*;
use vstd::string::StringSliceAdditionalSpecFns;
use sha2::Digest;
use vstd::multiset::Multiset;
use crate::types::{is_id_byte, valid_token_id, EnrichedLink, FragmentScore, ValidationResult};
use crate::simd_search::pattern_at;
use crate::validator::{
    is_probably_json, is_valid_json, is_probably_youtube_url, spec_probably_json,
    spec_probably_youtube, json_accepted, spec_trimmed, spec_json_start, bytes_as_str,
    trim_ascii, spec_contains,
};
use crate::entropy::{calculate_shannon_entropy, all_bytes_equal};

verus! {

/// Number of patterns in the set.
pub const PATTERN_COUNT: usize = 7;

/// The anchor byte string of pattern `k`.
pub open spec fn spec_pattern_needle(k: int) -> Seq<u8> {
    if k == 0 {
        // watch?v=
        seq![119u8, 97u8, 116u8, 99u8, 104u8, 63u8, 118u8, 61u8]
    } else if k == 1 {
        // youtu.be/
        seq![121u8, 111u8, 117u8, 116u8, 117u8, 46u8, 98u8, 101u8, 47u8]
    } else if k == 2 {
        // shorts/
        seq![115u8, 104u8, 111u8, 114u8, 116u8, 115u8, 47u8]
    } else if k == 3 {
        // embed/
        seq![101u8, 109u8, 98u8, 101u8, 100u8, 47u8]
    } else if k == 4 {
        // /v/
        seq![47u8, 118u8, 47u8]
    } else if k == 5 {
        // v=
        seq![118u8, 61u8]
    } else {
        // "video_id":"
        seq![34u8, 118u8, 105u8, 100u8, 101u8, 111u8, 95u8, 105u8, 100u8, 34u8, 58u8, 34u8]
    }
}

/// The priority of pattern `k`, 5 to 10.
pub open spec fn spec_pattern_priority(k: int) -> u32 {
    if k == 0 {
        10
    } else if k == 1 {
        10
    } else if k == 2 {
        10
    } else if k == 3 {
        9
    } else if k == 4 {
        8
    } else if k == 5 {
        6
    } else {
        5
    }
}

/// Pattern `k` matches at `p`: its anchor, an eleven-byte identifier,
/// and no identifier byte right after.
pub open spec fn token_match_at(data: Seq<u8>, k: int, p: int) -> bool {
    let nd = spec_pattern_needle(k);
    &&& pattern_at(data, nd, p)
    &&& p + nd.len() + 11 <= data.len()
    &&& valid_token_id(data.subrange(p + nd.len(), p + nd.len() + 11))
    &&& (p + nd.len() + 11 == data.len() || !is_id_byte(data[p + nd.len() + 11]))
}

/// A byte that can belong to a URL: printable ASCII except space,
/// quotes and angle brackets.
pub open spec fn is_url_byte(b: u8) -> bool {
    33 <= b <= 126 && b != 34 && b != 39 && b != 60 && b != 62
}

/// The token `link` is sound for `data` scanned at `base`: some pattern
/// matches at some position, the identifier and confidence come from
/// that match, and the URL is the run of URL bytes leading into it.
pub open spec fn spec_token_sound(link: EnrichedLink, data: Seq<u8>, base: int) -> bool {
    exists|k: int, p: int|
        {
            let nd = spec_pattern_needle(k);
            &&& 0 <= k < 7
            &&& #[trigger] token_match_at(data, k, p)
            &&& link.video_id@ =~= data.subrange(p + nd.len(), p + nd.len() + 11)
            &&& link.confidence == spec_pattern_priority(k) * 100
            &&& (exists|u: int|
                0 <= u <= p && link.offset == base + u && (forall|q: int|
                    u <= q < p ==> is_url_byte(#[trigger] data[q])) && link.url@ =~= #[trigger] data.subrange(
                    u,
                    p + nd.len() + 11,
                ))
        }
}

/// The first pattern of the set matching at `p`, or 7 when none does.
pub open spec fn spec_first_pattern(data: Seq<u8>, p: int) -> int {
    if token_match_at(data, 0, p) {
        0
    } else if token_match_at(data, 1, p) {
        1
    } else if token_match_at(data, 2, p) {
        2
    } else if token_match_at(data, 3, p) {
        3
    } else if token_match_at(data, 4, p) {
        4
    } else if token_match_at(data, 5, p) {
        5
    } else if token_match_at(data, 6, p) {
        6
    } else {
        7
    }
}

/// The identifier of the first pattern match at `p`.
pub open spec fn spec_id_at(data: Seq<u8>, p: int) -> Seq<u8> {
    let nd = spec_pattern_needle(spec_first_pattern(data, p));
    data.subrange(p + nd.len(), p + nd.len() + 11)
}

/// Some token of the list carries this identifier.
pub open spec fn spec_id_in(links: Seq<EnrichedLink>, id: Seq<u8>) -> bool {
    exists|j: int| 0 <= j < links.len() && (#[trigger] links[j]).video_id@ == id
}

/// Some byte string of the set equals this identifier.
pub open spec fn spec_id_in_set(ids: Seq<Vec<u8>>, id: Seq<u8>) -> bool {
    exists|j: int| 0 <= j < ids.len() && (#[trigger] ids[j])@ == id
}

/// Pairwise distinct token identifiers.
pub open spec fn distinct_ids(s: Seq<EnrichedLink>) -> bool {
    forall|a: int, b: int|
        0 <= a < b < s.len() ==> (#[trigger] s[a]).video_id@ != (#[trigger] s[b]).video_id@
}

/// Offsets never decrease.
pub open spec fn sorted_by_offset(s: Seq<EnrichedLink>) -> bool {
    forall|a: int, b: int| 0 <= a < b < s.len() ==> (#[trigger] s[a]).offset <= (#[trigger] s[b]).offset
}

/// Build the anchor bytes of pattern `k`.
fn pattern_needle(k: usize) -> (r: Vec<u8>)
    requires
        k < 7,
    ensures
        r@ == spec_pattern_needle(k as int),
        1 <= r@.len() <= 12,
{
    let mut v: Vec<u8> = Vec::new();
    if k == 0 {
        v.push(119);
        v.push(97);
        v.push(116);
        v.push(99);
        v.push(104);
        v.push(63);
        v.push(118);
        v.push(61);
    } else if k == 1 {
        v.push(121);
        v.push(111);
        v.push(117);
        v.push(116);
        v.push(117);
        v.push(46);
        v.push(98);
        v.push(101);
        v.push(47);
    } else if k == 2 {
        v.push(115);
        v.push(104);
        v.push(111);
        v.push(114);
        v.push(116);
        v.push(115);
        v.push(47);
    } else if k == 3 {
        v.push(101);
        v.push(109);
        v.push(98);
        v.push(101);
        v.push(100);
        v.push(47);
    } else if k == 4 {
        v.push(47);
        v.push(118);
        v.push(47);
    } else if k == 5 {
        v.push(118);
        v.push(61);
    } else {
        v.push(34);
        v.push(118);
        v.push(105);
        v.push(100);
        v.push(101);
        v.push(111);
        v.push(95);
        v.push(105);
        v.push(100);
        v.push(34);
        v.push(58);
        v.push(34);
    }
    proof {
        assert(v@ =~= spec_pattern_needle(k as int));
    }
    v
}

/// The priority of pattern `k`.
fn pattern_priority(k: usize) -> (r: u32)
    requires
        k < 7,
    ensures
        r == spec_pattern_priority(k as int),
        5 <= r <= 10,
{
    if k == 0 {
        10
    } else if k == 1 {
        10
    } else if k == 2 {
        10
    } else if k == 3 {
        9
    } else if k == 4 {
        8
    } else if k == 5 {
        6
    } else {
        5
    }
}

/// The stable name of pattern `k`.
fn pattern_name(k: usize) -> (r: &'static str)
    requires
        k < 7,
{
    if k == 0 {
        "watch"
    } else if k == 1 {
        "short"
    } else if k == 2 {
        "shorts"
    } else if k == 3 {
        "embed"
    } else if k == 4 {
        "v_path"
    } else if k == 5 {
        "v_param"
    } else {
        "video_id_json"
    }
}

/// Bytes equal, element for element.
pub fn eq_bytes(a: &[u8], b: &[u8]) -> (r: bool)
    ensures
        r == (a@ =~= b@),
{
    if a.len() != b.len() {
        return false;
    }
    let mut i: usize = 0;
    while i < a.len()
        invariant
            a@.len() == b@.len(),
            i <= a@.len(),
            forall|j: int| 0 <= j < i ==> a@[j] == #[trigger] b@[j],
        decreases a@.len() - i,
    {
        if a[i] != b[i] {
            return false;
        }
        i = i + 1;
    }
    true
}

/// Does pattern `k` match at position `p`?
fn match_pattern_at(data: &[u8], p: usize, k: usize) -> (r: bool)
    requires
        k < 7,
        p <= data@.len(),
        data@.len() <= usize::MAX,
    ensures
        r == token_match_at(data@, k as int, p as int),
{
    let nd: Vec<u8> = pattern_needle(k);
    if data.len() - p < nd.len() {
        return false;
    }
    if data.len() - p - nd.len() < 11 {
        return false;
    }
    let anchor: &[u8] = vstd::slice::slice_subrange(data, p, p + nd.len());
    if !eq_bytes(anchor, nd.as_slice()) {
        proof {
            if pattern_at(data@, spec_pattern_needle(k as int), p as int) {
                assert(forall|j: int|
                    0 <= j < nd@.len() ==> anchor@[j] == data@[p + j]);
                assert(anchor@ =~= nd@);
            }
        }
        return false;
    }
    proof {
        assert(forall|j: int| 0 <= j < nd@.len() ==> data@[p + j] == anchor@[j]);
        assert(pattern_at(data@, spec_pattern_needle(k as int), p as int));
    }
    let id_start: usize = p + nd.len();
    let id: &[u8] = vstd::slice::slice_subrange(data, id_start, id_start + 11);
    proof {
        assert(id@ =~= data@.subrange(id_start as int, id_start + 11));
    }
    if !crate::validator::is_valid_video_id(id) {
        return false;
    }
    if id_start + 11 < data.len() {
        let after: u8 = data[id_start + 11];
        if (65 <= after && after <= 90) || (97 <= after && after <= 122) || (48 <= after
            && after <= 57) || after == 45 || after == 95 {
            return false;
        }
    }
    true
}

/// Relies on `html_escape::decode_html_entities`: the result depends on
/// the text alone.
pub uninterp spec fn html_decoded(s: Seq<u8>) -> Seq<u8>;

#[verifier::external_body]
fn decode_entities(s: &str) -> (r: String)
    ensures
        vstd::utf8::encode_utf8(r@) == html_decoded(s.spec_bytes()),
{
    html_escape::decode_html_entities(s).into_owned()
}

/// Relies on `sha2::Sha256`: a 32-byte digest determined by the input
/// bytes alone.
pub uninterp spec fn sha256_of(b: Seq<u8>) -> Seq<u8>;

#[verifier::external_body]
pub fn sha256_digest(data: &[u8]) -> (r: Vec<u8>)
    ensures
        r@ == sha256_of(data@),
        r@.len() == 32,
{
    let mut hasher = sha2::Sha256::new();
    sha2::Digest::update(&mut hasher, data);
    hasher.finalize().to_vec()
}

/// The lower-case hex character of a nibble.
pub open spec fn spec_nibble_char(n: u8) -> char {
    if n == 0 {
        '0'
    } else if n == 1 {
        '1'
    } else if n == 2 {
        '2'
    } else if n == 3 {
        '3'
    } else if n == 4 {
        '4'
    } else if n == 5 {
        '5'
    } else if n == 6 {
        '6'
    } else if n == 7 {
        '7'
    } else if n == 8 {
        '8'
    } else if n == 9 {
        '9'
    } else if n == 10 {
        'a'
    } else if n == 11 {
        'b'
    } else if n == 12 {
        'c'
    } else if n == 13 {
        'd'
    } else if n == 14 {
        'e'
    } else {
        'f'
    }
}

/// Lower-case hex of a byte string, two characters per byte.
pub open spec fn spec_hex_chars(b: Seq<u8>) -> Seq<char>
    decreases b.len(),
{
    if b.len() == 0 {
        Seq::empty()
    } else {
        seq![
            spec_nibble_char((b[0] / 16) as u8),
            spec_nibble_char((b[0] % 16) as u8),
        ] + spec_hex_chars(b.drop_first())
    }
}

/// One hex character as a string.
fn nibble_str(n: u8) -> (r: &'static str)
    requires
        n < 16,
    ensures
        r@ =~= seq![spec_nibble_char(n)],
{
    let r: &'static str = match n {
        0u8 => "0",
        1u8 => "1",
        2u8 => "2",
        3u8 => "3",
        4u8 => "4",
        5u8 => "5",
        6u8 => "6",
        7u8 => "7",
        8u8 => "8",
        9u8 => "9",
        10u8 => "a",
        11u8 => "b",
        12u8 => "c",
        13u8 => "d",
        14u8 => "e",
        _ => "f",
    };
    proof {
        reveal_strlit("0");
        reveal_strlit("1");
        reveal_strlit("2");
        reveal_strlit("3");
        reveal_strlit("4");
        reveal_strlit("5");
        reveal_strlit("6");
        reveal_strlit("7");
        reveal_strlit("8");
        reveal_strlit("9");
        reveal_strlit("a");
        reveal_strlit("b");
        reveal_strlit("c");
        reveal_strlit("d");
        reveal_strlit("e");
        reveal_strlit("f");
    }
    r
}

/// Lower-case hex rendering of a byte string.
pub fn to_hex_string(bytes: &[u8]) -> (r: String)
    ensures
        r@ == spec_hex_chars(bytes@),
        r@.len() == 2 * bytes@.len(),
{
    let mut out = String::new();
    let mut i: usize = 0;
    proof {
        lemma_hex_chars_len(bytes@);
        assert(bytes@.take(0) =~= Seq::<u8>::empty());
    }
    while i < bytes.len()
        invariant
            i <= bytes@.len(),
            out@ == spec_hex_chars(bytes@.take(i as int)),
            out@.len() == 2 * i,
        decreases bytes@.len() - i,
    {
        let b: u8 = bytes[i];
        proof {
            lemma_hex_chars_snoc(bytes@.take(i as int), b);
            assert(bytes@.take(i + 1) =~= bytes@.take(i as int).push(b));
        }
        out.append(nibble_str(b / 16));
        out.append(nibble_str(b % 16));
        i = i + 1;
    }
    proof {
        assert(bytes@.take(bytes@.len() as int) =~= bytes@);
        lemma_hex_chars_len(bytes@);
    }
    out
}

/// Hex doubles the length.
proof fn lemma_hex_chars_len(b: Seq<u8>)
    ensures
        spec_hex_chars(b).len() == 2 * b.len(),
    decreases b.len(),
{
    if b.len() > 0 {
        lemma_hex_chars_len(b.drop_first());
    }
}

/// Appending one byte appends its two hex characters.
proof fn lemma_hex_chars_snoc(b: Seq<u8>, x: u8)
    ensures
        spec_hex_chars(b.push(x)) == spec_hex_chars(b) + seq![
            spec_nibble_char((x / 16) as u8),
            spec_nibble_char((x % 16) as u8),
        ],
    decreases b.len(),
{
    let pair = seq![spec_nibble_char((x / 16) as u8), spec_nibble_char((x % 16) as u8)];
    if b.len() == 0 {
        assert(b.push(x).drop_first() =~= Seq::<u8>::empty());
        assert(b.push(x)[0] == x);
        assert(spec_hex_chars(Seq::<u8>::empty()) == Seq::<char>::empty());
        assert(spec_hex_chars(b.push(x)) =~= pair);
        assert(spec_hex_chars(b) + pair =~= pair);
    } else {
        assert(b.push(x).drop_first() =~= b.drop_first().push(x));
        assert(b.push(x)[0] == b[0]);
        lemma_hex_chars_snoc(b.drop_first(), x);
        let head = seq![
            spec_nibble_char((b[0] / 16) as u8),
            spec_nibble_char((b[0] % 16) as u8),
        ];
        assert(spec_hex_chars(b.push(x)) == head + (spec_hex_chars(b.drop_first()) + pair));
        assert(head + (spec_hex_chars(b.drop_first()) + pair) =~= (head + spec_hex_chars(
            b.drop_first(),
        )) + pair);
    }
}

/// Compute the SHA-256 of `data`, in lower-case hex.
pub fn sha256_hash(data: &[u8]) -> (r: String)
    ensures
        r@ == spec_hex_chars(sha256_of(data@)),
        r@.len() == 64,
{
    let digest: Vec<u8> = sha256_digest(data);
    let r: String = to_hex_string(digest.as_slice());
    r
}

/// Case-insensitive (ASCII) substring test; the needle must be given in
/// lower case.
pub open spec fn lower_byte(b: u8) -> u8 {
    if 65 <= b <= 90 {
        (b + 32) as u8
    } else {
        b
    }
}

pub open spec fn ci_pattern_at(s: Seq<u8>, needle: Seq<u8>, i: int) -> bool {
    &&& 0 <= i
    &&& i + needle.len() <= s.len()
    &&& forall|j: int| 0 <= j < needle.len() ==> lower_byte(s[i + j]) == #[trigger] needle[j]
}

pub open spec fn spec_ci_contains(s: Seq<u8>, needle: Seq<u8>) -> bool {
    exists|i: int| ci_pattern_at(s, needle, i)
}

/// ASCII-case-insensitive match of a lower-case needle at one position.
fn ci_match_at(haystack: &[u8], i: usize, needle: &[u8]) -> (r: bool)
    requires
        i + needle@.len() <= haystack@.len(),
        haystack@.len() <= usize::MAX,
    ensures
        r == ci_pattern_at(haystack@, needle@, i as int),
{
    let mut j: usize = 0;
    while j < needle.len()
        invariant
            i + needle@.len() <= haystack@.len(),
            haystack@.len() <= usize::MAX,
            j <= needle@.len(),
            forall|q: int| 0 <= q < j ==> lower_byte(haystack@[i + q]) == #[trigger] needle@[q],
        decreases needle@.len() - j,
    {
        let b: u8 = haystack[i + j];
        let lb: u8 = if 65 <= b && b <= 90 {
            b + 32
        } else {
            b
        };
        if lb != needle[j] {
            proof {
                assert(lower_byte(haystack@[i + j]) != needle@[j as int]);
            }
            return false;
        }
        j = j + 1;
    }
    true
}

/// ASCII-case-insensitive search for a lower-case needle.
pub fn ci_contains(haystack: &[u8], needle: &[u8]) -> (r: bool)
    requires
        needle@.len() >= 1,
        haystack@.len() <= usize::MAX,
    ensures
        r == spec_ci_contains(haystack@, needle@),
{
    if haystack.len() < needle.len() {
        proof {
            assert(forall|i: int| !ci_pattern_at(haystack@, needle@, i));
        }
        return false;
    }
    let mut i: usize = 0;
    let last: usize = haystack.len() - needle.len();
    while i <= last
        invariant
            haystack@.len() >= needle@.len() >= 1,
            haystack@.len() <= usize::MAX,
            last == haystack@.len() - needle@.len(),
            forall|k: int| 0 <= k < i ==> !ci_pattern_at(haystack@, needle@, k),
        decreases last + 1 - i,
    {
        if ci_match_at(haystack, i, needle) {
            return true;
        }
        i = i + 1;
    }
    proof {
        assert(forall|k: int|
            i <= k ==> k + needle@.len() > haystack@.len() || !(0 <= k) || !ci_pattern_at(
                haystack@,
                needle@,
                k,
            ));
    }
    false
}

/// The lower-case needle `youtube`.
fn youtube_lower_needle() -> (r: Vec<u8>)
    ensures
        r@ =~= seq![121u8, 111u8, 117u8, 116u8, 117u8, 98u8, 101u8],
        r@.len() == 7,
{
    let mut v: Vec<u8> = Vec::new();
    v.push(121);
    v.push(111);
    v.push(117);
    v.push(116);
    v.push(117);
    v.push(98);
    v.push(101);
    v
}

/// Optimised pattern matcher with a scan-local deduplication set.
///
/// The pattern set lives in code rather than in a compiled table, so a
/// fresh clone shares nothing and costs nothing.
#[derive(Debug)]
pub struct EnhancedMatcher {
    /// Identifiers already emitted in this scan context.
    pub seen_ids: Vec<Vec<u8>>,
}

impl EnhancedMatcher {
    /// A matcher with an empty deduplication set.
    pub fn new() -> (r: Self)
        ensures
            r.seen_ids@.len() == 0,
    {
        EnhancedMatcher { seen_ids: Vec::new() }
    }

    /// A fresh matcher sharing the pattern set, with an empty
    /// deduplication set.
    pub fn clone_fresh(&self) -> (r: Self)
        ensures
            r.seen_ids@.len() == 0,
    {
        EnhancedMatcher { seen_ids: Vec::new() }
    }

    /// Forget every identifier seen so far.
    pub fn clear_cache(&mut self)
        ensures
            final(self).seen_ids@.len() == 0,
    {
        self.seen_ids = Vec::new();
    }

    /// Is `id` in the deduplication set?
    fn has_seen(&self, id: &[u8]) -> (r: bool)
        ensures
            r == exists|j: int|
                0 <= j < self.seen_ids@.len() && (#[trigger] self.seen_ids@[j])@ =~= id@,
    {
        let mut j: usize = 0;
        while j < self.seen_ids.len()
            invariant
                j <= self.seen_ids@.len(),
                forall|q: int| 0 <= q < j ==> !((#[trigger] self.seen_ids@[q])@ =~= id@),
            decreases self.seen_ids@.len() - j,
        {
            if eq_bytes(self.seen_ids[j].as_slice(), id) {
                return true;
            }
            j = j + 1;
        }
        false
    }

    /// Scan a chunk for tokens.
    ///
    /// Every returned token comes from a pattern match inside the chunk
    /// (see [`spec_token_sound`]); tokens come back ordered by offset,
    /// and with `deduplicate` no identifier repeats. Deduplication also
    /// consults and extends the matcher's scan-local set, so an
    /// identifier seen in an earlier chunk is dropped here.
    pub fn scan_chunk(&mut self, data: &[u8], base_offset: usize, deduplicate: bool) -> (r: Vec<
        EnrichedLink,
    >)
        requires
            base_offset + data@.len() <= u64::MAX,
        ensures
            forall|l: EnrichedLink|
                #[trigger] r@.contains(l) ==> spec_token_sound(l, data@, base_offset as int)
                    && l.wf(),
            sorted_by_offset(r@),
            deduplicate ==> distinct_ids(r@),
            // Completeness: wherever a pattern matches, the identifier
            // of the first matching pattern survives into the result -
            // unless deduplication drops it for having been seen in an
            // earlier chunk of this scan context.
            forall|p: int|
                0 <= p < data@.len() && #[trigger] spec_first_pattern(data@, p) < 7 ==> (
                spec_id_in(r@, spec_id_at(data@, p)) || (deduplicate && spec_id_in_set(
                    old(self).seen_ids@,
                    spec_id_at(data@, p),
                ))),
            // Under deduplication, every returned identifier is new to
            // this matcher, and its seen set afterwards carries it.
            deduplicate ==> (forall|l: EnrichedLink|
                #[trigger] r@.contains(l) ==> !spec_id_in_set(old(self).seen_ids@, l.video_id@)
                    && spec_id_in_set(final(self).seen_ids@, l.video_id@)),
            // A title on a returned token names a candidate in the
            // chunk.
            forall|l: EnrichedLink|
                #[trigger] r@.contains(l) ==> (l.title is Some ==> spec_title_candidate(data@)),
    {
        let ghost old_seen: Seq<Vec<u8>> = self.seen_ids@;
        let mut found: Vec<EnrichedLink> = Vec::new();
        let n: usize = data.len();
        let mut p: usize = 0;
        while p < data.len()
            invariant
                base_offset + data@.len() <= u64::MAX,
                data@.len() <= usize::MAX,
                p <= data@.len(),
                forall|l: EnrichedLink|
                    #[trigger] found@.contains(l) ==> spec_token_sound(
                        l,
                        data@,
                        base_offset as int,
                    ) && l.wf(),
                deduplicate ==> (forall|q: int|
                    0 <= q < self.seen_ids@.len() ==> spec_id_in_set(
                        old_seen,
                        (#[trigger] self.seen_ids@[q])@,
                    ) || spec_id_in(found@, self.seen_ids@[q]@)),
                !deduplicate ==> self.seen_ids@ == old_seen,
                forall|q: int|
                    0 <= q < p && #[trigger] spec_first_pattern(data@, q) < 7 ==> (spec_id_in(
                        found@,
                        spec_id_at(data@, q),
                    ) || (deduplicate && spec_id_in_set(old_seen, spec_id_at(data@, q)))),
                old_seen.len() <= self.seen_ids@.len(),
                forall|q: int| 0 <= q < old_seen.len() ==> #[trigger] self.seen_ids@[q]
                    == old_seen[q],
                deduplicate ==> (forall|l: EnrichedLink|
                    #[trigger] found@.contains(l) ==> !spec_id_in_set(old_seen, l.video_id@)
                        && spec_id_in_set(self.seen_ids@, l.video_id@)),
                forall|l: EnrichedLink|
                    #[trigger] found@.contains(l) ==> (l.title is Some ==> spec_title_candidate(
                        data@,
                    )),
            decreases data@.len() - p,
        {
            let ghost found_at_p: Seq<EnrichedLink> = found@;
            let ghost seen_at_p: Seq<Vec<u8>> = self.seen_ids@;
            // Pre-screen: every pattern anchor starts with one of a
            // handful of bytes, so most positions never reach the
            // pattern loop.
            let b0: u8 = data[p];
            if !(b0 == 119 || b0 == 121 || b0 == 115 || b0 == 101 || b0 == 47 || b0 == 118
                || b0 == 34) {
                proof {
                    assert forall|kk: int, pp: int|
                        0 <= kk < 7 && pp == p as int implies !token_match_at(data@, kk, pp) by {
                        if token_match_at(data@, kk, pp) {
                            assert(data@[pp] == spec_pattern_needle(kk)[0]);
                        }
                    }
                    assert(spec_first_pattern(data@, p as int) == 7);
                }
                p = p + 1;
                continue;
            }
            let mut k: usize = 0;
            let mut matched: bool = false;
            while k < PATTERN_COUNT && !matched
                invariant
                    k <= 7,
                    base_offset + data@.len() <= u64::MAX,
                    data@.len() <= usize::MAX,
                    p < data@.len(),
                    forall|l: EnrichedLink|
                        #[trigger] found@.contains(l) ==> spec_token_sound(
                            l,
                            data@,
                            base_offset as int,
                        ) && l.wf(),
                    !matched ==> forall|kk: int|
                        0 <= kk < k ==> !(#[trigger] token_match_at(data@, kk, p as int)),
                    deduplicate ==> (forall|q: int|
                        0 <= q < self.seen_ids@.len() ==> spec_id_in_set(
                            old_seen,
                            (#[trigger] self.seen_ids@[q])@,
                        ) || spec_id_in(found@, self.seen_ids@[q]@)),
                    !deduplicate ==> self.seen_ids@ == old_seen,
                    matched ==> spec_first_pattern(data@, p as int) < 7 && (spec_id_in(
                        found@,
                        spec_id_at(data@, p as int),
                    ) || (deduplicate && spec_id_in_set(old_seen, spec_id_at(data@, p as int)))),
                    old_seen.len() <= self.seen_ids@.len(),
                    forall|q: int| 0 <= q < old_seen.len() ==> #[trigger] self.seen_ids@[q]
                        == old_seen[q],
                    deduplicate ==> (forall|l: EnrichedLink|
                        #[trigger] found@.contains(l) ==> !spec_id_in_set(
                            old_seen,
                            l.video_id@,
                        ) && spec_id_in_set(self.seen_ids@, l.video_id@)),
                    forall|l: EnrichedLink|
                        #[trigger] found@.contains(l) ==> (l.title is Some
                            ==> spec_title_candidate(data@)),
                    found_at_p.len() <= found@.len(),
                    forall|q: int| 0 <= q < found_at_p.len() ==> #[trigger] found@[q]
                        == found_at_p[q],
                decreases 7 - k,
            {
                if match_pattern_at(data, p, k) {
                    matched = true;
                    proof {
                        assert(token_match_at(data@, k as int, p as int));
                        assert(spec_first_pattern(data@, p as int) == k);
                        assert(p + spec_pattern_needle(k as int).len() + 11 <= data@.len());
                    }
                    let nd_len: usize = pattern_needle(k).len();
                    let id_start: usize = p + nd_len;
                    // Extend the URL backwards over URL bytes, at most
                    // 100 of them.
                    let mut u: usize = p;
                    while u > 0 && p - u < 100 && 33 <= data[u - 1] && data[u - 1] <= 126
                        && data[u - 1] != 34 && data[u - 1] != 39 && data[u - 1] != 60
                        && data[u - 1] != 62
                        invariant
                            u <= p,
                            p - u <= 100,
                            p < data@.len(),
                            forall|q: int| u <= q < p ==> is_url_byte(#[trigger] data@[q]),
                        decreases u,
                    {
                        u = u - 1;
                    }
                    let url: Vec<u8> = vstd::slice::slice_to_vec(
                        vstd::slice::slice_subrange(data, u, id_start + 11),
                    );
                    let id: Vec<u8> = vstd::slice::slice_to_vec(
                        vstd::slice::slice_subrange(data, id_start, id_start + 11),
                    );
                    proof {
                        assert(id@ =~= data@.subrange(id_start as int, id_start + 11));
                        assert(url@ =~= data@.subrange(u as int, id_start + 11));
                    }
                    proof {
                        assert(id@ == spec_id_at(data@, p as int));
                    }
                    let ghost seen_pre: Seq<Vec<u8>> = self.seen_ids@;
                    let keep: bool = if deduplicate {
                        !self.has_seen(id.as_slice())
                    } else {
                        true
                    };
                    proof {
                        if deduplicate && !keep {
                            // A known identifier: it came from an
                            // earlier chunk or from this one.
                            let q = choose|q: int|
                                0 <= q < self.seen_ids@.len() && (#[trigger] self.seen_ids@[
                                q])@ =~= id@;
                            assert(spec_id_in_set(old_seen, id@) || spec_id_in(found@, id@));
                        }
                    }
                    if keep {
                        if deduplicate {
                            let mut copy: Vec<u8> = Vec::new();
                            let mut ci: usize = 0;
                            while ci < id.len()
                                invariant
                                    ci <= id@.len(),
                                    copy@ == id@.take(ci as int),
                                decreases id@.len() - ci,
                            {
                                copy.push(id[ci]);
                                proof {
                                    assert(copy@ =~= id@.take(ci + 1));
                                }
                                ci = ci + 1;
                            }
                            proof {
                                assert(copy@ =~= id@);
                            }
                            self.seen_ids.push(copy);
                        }
                        let priority: u32 = pattern_priority(k);
                        let name: &'static str = pattern_name(k);
                        let title: Option<String> = extract_title_from_context(data, p);
                        let mut link = EnrichedLink::new(
                            url,
                            id,
                            (base_offset as u64) + (u as u64),
                            name,
                            priority * 100,
                        );
                        link.title = title;
                        proof {
                            let kk: int = k as int;
                            let pp: int = p as int;
                            let uu: int = u as int;
                            assert(token_match_at(data@, kk, pp));
                            assert(link.url@ =~= data@.subrange(
                                uu,
                                pp + spec_pattern_needle(kk).len() + 11,
                            ));
                            assert(link.video_id@ =~= data@.subrange(
                                pp + spec_pattern_needle(kk).len(),
                                pp + spec_pattern_needle(kk).len() + 11,
                            ));
                            assert(spec_token_sound(link, data@, base_offset as int));
                            assert(valid_token_id(link.video_id@));
                        }
                        let ghost found_before: Seq<EnrichedLink> = found@;
                        found.push(link);
                        proof {
                            assert forall|l: EnrichedLink| #[trigger] found@.contains(
                                l,
                            ) implies spec_token_sound(l, data@, base_offset as int) && l.wf() by {
                                let ix = choose|ix: int|
                                    0 <= ix < found@.len() && found@[ix] == l;
                                if ix < found@.len() - 1 {
                                    assert(found_before.contains(l));
                                } else {
                                    assert(l == link);
                                }
                            }
                            assert(found@[found@.len() - 1].video_id@ == spec_id_at(
                                data@,
                                p as int,
                            ));
                            assert(spec_id_in(found@, spec_id_at(data@, p as int)));
                            // Earlier identifiers keep their places.
                            assert forall|q: int|
                                0 <= q < found_before.len() implies #[trigger] found@[q]
                                == found_before[q] by {
                            }
                            if deduplicate {
                                assert forall|q: int|
                                    0 <= q < self.seen_ids@.len() implies spec_id_in_set(
                                    old_seen,
                                    (#[trigger] self.seen_ids@[q])@,
                                ) || spec_id_in(found@, self.seen_ids@[q]@) by {
                                    if q == self.seen_ids@.len() - 1 {
                                        assert(self.seen_ids@[q]@ == link.video_id@);
                                        assert(found@[found@.len() - 1].video_id@
                                            == link.video_id@);
                                    } else {
                                        if spec_id_in(found_before, self.seen_ids@[q]@) {
                                            let jj = choose|jj: int|
                                                0 <= jj < found_before.len() && (
                                                #[trigger] found_before[jj]).video_id@
                                                    == self.seen_ids@[q]@;
                                            assert(found@[jj].video_id@ == self.seen_ids@[q]@);
                                        }
                                    }
                                }
                            }
                            // The title clause and the new-identifier
                            // clauses carry over the push.
                            assert forall|l: EnrichedLink| #[trigger] found@.contains(
                                l,
                            ) implies (l.title is Some ==> spec_title_candidate(data@)) by {
                                let ix = choose|ix: int|
                                    0 <= ix < found@.len() && found@[ix] == l;
                                if ix < found@.len() - 1 {
                                    assert(found_before.contains(l));
                                } else {
                                    assert(l == link);
                                }
                            }
                            if deduplicate {
                                assert forall|l: EnrichedLink| #[trigger] found@.contains(
                                    l,
                                ) implies (!spec_id_in_set(old_seen, l.video_id@)
                                    && spec_id_in_set(self.seen_ids@, l.video_id@)) by {
                                    let ix = choose|ix: int|
                                        0 <= ix < found@.len() && found@[ix] == l;
                                    if ix < found@.len() - 1 {
                                        assert(found_before.contains(l));
                                        let w = choose|w: int|
                                            0 <= w < seen_pre.len() && (#[trigger] seen_pre[
                                            w])@ == l.video_id@;
                                        assert(self.seen_ids@[w]@ == l.video_id@);
                                    } else {
                                        assert(l == link);
                                        if spec_id_in_set(old_seen, link.video_id@) {
                                            let w = choose|w: int|
                                                0 <= w < old_seen.len() && (#[trigger] old_seen[
                                                w])@ == link.video_id@;
                                            assert(seen_pre[w]@ == link.video_id@);
                                            assert(false);
                                        }
                                        assert(self.seen_ids@[self.seen_ids@.len() - 1]@
                                            == link.video_id@);
                                    }
                                }
                            }
                        }
                    }
                }
                k = k + 1;
            }
            proof {
                if !matched {
                    assert(spec_first_pattern(data@, p as int) == 7);
                }
                // Earlier positions keep their witnesses: the token
                // list only grew.
                assert forall|q: int|
                    0 <= q < p + 1 && #[trigger] spec_first_pattern(data@, q) < 7 implies (
                spec_id_in(found@, spec_id_at(data@, q)) || (deduplicate && spec_id_in_set(
                    old_seen,
                    spec_id_at(data@, q),
                ))) by {
                    if q < p {
                        if spec_id_in(found_at_p, spec_id_at(data@, q)) {
                            let jj = choose|jj: int|
                                0 <= jj < found_at_p.len() && (#[trigger] found_at_p[
                                jj]).video_id@ == spec_id_at(data@, q);
                            assert(found@[jj].video_id@ == spec_id_at(data@, q));
                        }
                    }
                }
            }
            p = p + 1;
        }
        let sorted: Vec<EnrichedLink> = sort_links_by_offset(found);
        proof {
            broadcast use vstd::seq_lib::group_to_multiset_ensures;

            assert forall|l: EnrichedLink| #[trigger] sorted@.contains(l) implies found@.contains(
                l,
            ) by {
                assert(sorted@.to_multiset().count(l) > 0);
                assert(found@.to_multiset().count(l) > 0);
            }
            assert forall|l: EnrichedLink| #[trigger] found@.contains(l) implies sorted@.contains(
                l,
            ) by {
                assert(found@.to_multiset().count(l) > 0);
                assert(sorted@.to_multiset().count(l) > 0);
            }
            assert forall|p: int|
                0 <= p < data@.len() && #[trigger] spec_first_pattern(data@, p) < 7 implies (
                spec_id_in(sorted@, spec_id_at(data@, p)) || (deduplicate && spec_id_in_set(
                    old_seen,
                    spec_id_at(data@, p),
                ))) by {
                if spec_id_in(found@, spec_id_at(data@, p)) {
                    let j = choose|j: int|
                        0 <= j < found@.len() && (#[trigger] found@[j]).video_id@ == spec_id_at(
                            data@,
                            p,
                        );
                    assert(found@.contains(found@[j]));
                    assert(sorted@.contains(found@[j]));
                }
            }
        }
        let r: Vec<EnrichedLink> = if deduplicate {
            filter_first_per_id(sorted)
        } else {
            sorted
        };
        proof {
            if deduplicate {
                assert forall|p: int|
                    0 <= p < data@.len() && #[trigger] spec_first_pattern(data@, p) < 7 implies (
                    spec_id_in(r@, spec_id_at(data@, p)) || spec_id_in_set(
                        old_seen,
                        spec_id_at(data@, p),
                    )) by {
                    if spec_id_in(sorted@, spec_id_at(data@, p)) {
                        let j = choose|j: int|
                            0 <= j < sorted@.len() && (#[trigger] sorted@[j]).video_id@
                                == spec_id_at(data@, p);
                        let j2 = choose|j2: int|
                            0 <= j2 < r@.len() && (#[trigger] r@[j2]).video_id@ == sorted@[
                            j].video_id@;
                        assert(r@[j2].video_id@ == spec_id_at(data@, p));
                    }
                }
            }
        }
        r
    }
}

/// Extract a title from the bytes around a match: an HTML `title`
/// element or a JSON `"title"` field within 1000 bytes either side,
/// entity-decoded and trimmed, kept when 4 to 199 bytes long and not
/// naming the platform.
pub fn extract_title_from_context(data: &[u8], match_pos: usize) -> (r: Option<String>)
    requires
        match_pos <= data@.len(),
    ensures
        // A returned title is 4 to 199 bytes, trimmed of the ASCII
        // whitespace its candidate carried, and never names the
        // platform.
        r is Some ==> 4 <= vstd::utf8::encode_utf8(r->0@).len() <= 199,
        r is Some ==> !spec_ci_contains(
            vstd::utf8::encode_utf8(r->0@),
            seq![121u8, 111u8, 117u8, 116u8, 117u8, 98u8, 101u8],
        ),
        r is Some ==> (exists|d: Seq<char>|
            vstd::utf8::encode_utf8(r->0@) == spec_trimmed(
                #[trigger] vstd::utf8::encode_utf8(d),
            )),
        // A title comes only out of a candidate near the match.
        r is Some ==> spec_title_candidate(data@),
        // Completeness on the element path: a first title pair whose
        // decoded body trims to an acceptable name always yields a
        // title.
        ({
            let cs: int = if match_pos >= 1000 {
                match_pos - 1000
            } else {
                0int
            };
            let ce: int = if data@.len() - match_pos >= 1000 {
                match_pos + 1000
            } else {
                data@.len() as int
            };
            let ctx = data@.subrange(cs, ce);
            let ot = seq![60u8, 116u8, 105u8, 116u8, 108u8, 101u8, 62u8];
            let ct = seq![60u8, 47u8, 116u8, 105u8, 116u8, 108u8, 101u8, 62u8];
            let st = spec_find_at(ctx, ot, 0);
            let en = if st >= 0 {
                spec_find_at(ctx.skip(st + 7), ct, 0)
            } else {
                -1int
            };
            let cand = ctx.subrange(st + 7, st + 7 + en);
            let b = spec_trimmed(html_decoded(cand));
            (st >= 0 && en >= 0 && vstd::utf8::valid_utf8(cand) && vstd::utf8::valid_utf8(b)
                && 4 <= b.len() <= 199 && !spec_ci_contains(
                b,
                seq![121u8, 111u8, 117u8, 116u8, 117u8, 98u8, 101u8],
            )) ==> r is Some
        }),
{
    let ctx_start: usize = if match_pos >= 1000 {
        match_pos - 1000
    } else {
        0
    };
    let ctx_end: usize = if data.len() - match_pos >= 1000 {
        match_pos + 1000
    } else {
        data.len()
    };
    let context: &[u8] = vstd::slice::slice_subrange(data, ctx_start, ctx_end);
    let ghost ctx: Seq<u8> = context@;
    let ghost ot: Seq<u8> = seq![60u8, 116u8, 105u8, 116u8, 108u8, 101u8, 62u8];
    let ghost ct: Seq<u8> = seq![60u8, 47u8, 116u8, 105u8, 116u8, 108u8, 101u8, 62u8];
    let ghost st: int = spec_find_at(ctx, ot, 0);
    let ghost en: int = if st >= 0 {
        spec_find_at(ctx.skip(st + 7), ct, 0)
    } else {
        -1int
    };
    let ghost cand: Seq<u8> = ctx.subrange(st + 7, st + 7 + en);
    let raw: Option<&[u8]> = find_raw_title(context);
    proof {
        if st >= 0 && en >= 0 {
            assert(raw is Some && raw->0@ =~= cand);
        }
        if raw is Some {
            let otn = seq![60u8, 116u8, 105u8, 116u8, 108u8, 101u8, 62u8];
            let jkn = seq![34u8, 116u8, 105u8, 116u8, 108u8, 101u8, 34u8, 58u8, 34u8];
            assert(ctx == data@.subrange(ctx_start as int, ctx_end as int));
            if exists|i: int| pattern_at(ctx, otn, i) {
                let i = choose|i: int| pattern_at(ctx, otn, i);
                lemma_pattern_in_window(data@, ctx_start as int, ctx_end as int, otn, i);
            } else {
                let i = choose|i: int| pattern_at(ctx, jkn, i);
                lemma_pattern_in_window(data@, ctx_start as int, ctx_end as int, jkn, i);
            }
        }
    }
    match raw {
        Some(bytes) => {
            let text: &str = match bytes_as_str(bytes) {
                Some(s) => s,
                None => {
                    return None;
                },
            };
            let decoded: String = decode_entities(text);
            let trimmed: &[u8] = trim_ascii(decoded.as_str().as_bytes());
            proof {
                if st >= 0 && en >= 0 {
                    assert(text.spec_bytes() == cand);
                    assert(trimmed@ == spec_trimmed(html_decoded(cand)));
                }
            }
            if trimmed.len() <= 3 || trimmed.len() >= 200 {
                return None;
            }
            let yt: Vec<u8> = youtube_lower_needle();
            if ci_contains(trimmed, yt.as_slice()) {
                return None;
            }
            match bytes_as_str(trimmed) {
                Some(s) => {
                    let owned: String = s.to_owned();
                    proof {
                        assert(vstd::utf8::encode_utf8(owned@) == trimmed@);
                        assert(trimmed@ == spec_trimmed(
                            vstd::utf8::encode_utf8(decoded@),
                        ));
                    }
                    Some(owned)
                },
                None => None,
            }
        },
        None => None,
    }
}

/// The context holds a title candidate: an HTML `title` element open
/// tag, or a JSON `title` key.
pub open spec fn spec_title_candidate(d: Seq<u8>) -> bool {
    ||| exists|i: int|
        pattern_at(d, seq![60u8, 116u8, 105u8, 116u8, 108u8, 101u8, 62u8], i)
    ||| exists|i: int|
        pattern_at(d, seq![34u8, 116u8, 105u8, 116u8, 108u8, 101u8, 34u8, 58u8, 34u8], i)
}

/// A pattern found inside a window of the image occurs in the image.
proof fn lemma_pattern_in_window(data: Seq<u8>, cs: int, ce: int, nd: Seq<u8>, i: int)
    requires
        0 <= cs <= ce <= data.len(),
        pattern_at(data.subrange(cs, ce), nd, i),
    ensures
        pattern_at(data, nd, cs + i),
{
    assert forall|q: int| 0 <= q < nd.len() implies data[cs + i + q] == nd[q] by {
        assert(data.subrange(cs, ce)[i + q] == data[cs + i + q]);
    }
}

/// First position at or after `i` where `nd` occurs in `h`, else -1.
pub open spec fn spec_find_at(h: Seq<u8>, nd: Seq<u8>, i: int) -> int
    decreases h.len() - i,
{
    if i < 0 || i + nd.len() > h.len() {
        -1
    } else if pattern_at(h, nd, i) {
        i
    } else {
        spec_find_at(h, nd, i + 1)
    }
}

/// A first occurrence pins the search result.
proof fn lemma_find_at_from(h: Seq<u8>, nd: Seq<u8>, lo: int, k: int)
    requires
        0 <= lo <= k,
        pattern_at(h, nd, k),
        forall|q: int| lo <= q < k ==> !pattern_at(h, nd, q),
    ensures
        spec_find_at(h, nd, lo) == k,
    decreases k - lo,
{
    if lo < k {
        lemma_find_at_from(h, nd, lo + 1, k);
    }
}

/// No occurrence anywhere makes the search miss.
proof fn lemma_find_at_none(h: Seq<u8>, nd: Seq<u8>, lo: int)
    requires
        0 <= lo,
        forall|q: int| !pattern_at(h, nd, q),
    ensures
        spec_find_at(h, nd, lo) == -1,
    decreases h.len() - lo + 1,
{
    if lo + nd.len() <= h.len() {
        lemma_find_at_none(h, nd, lo + 1);
    }
}

/// The raw bytes of a title candidate inside `context`: between
/// `<title>` and `</title>`, else between `"title":"` and the next
/// quote.
fn find_raw_title(context: &[u8]) -> (r: Option<&[u8]>)
    ensures
        // A candidate comes only out of a title element or a JSON
        // title key in the context.
        r is Some ==> spec_title_candidate(context@),
        // Completeness on the element path: an opening tag with a
        // closing tag after it always yields the bytes between the
        // first such pair.
        ({
            let ot = seq![60u8, 116u8, 105u8, 116u8, 108u8, 101u8, 62u8];
            let ct = seq![60u8, 47u8, 116u8, 105u8, 116u8, 108u8, 101u8, 62u8];
            let st = spec_find_at(context@, ot, 0);
            let en = if st >= 0 {
                spec_find_at(context@.skip(st + 7), ct, 0)
            } else {
                -1int
            };
            (st >= 0 && en >= 0) ==> (r is Some && r->0@ =~= context@.subrange(
                st + 7,
                st + 7 + en,
            ))
        }),
        // Completeness on the key path: with no title element, a JSON
        // title key with a quote after it yields the bytes between
        // the first such pair.
        ({
            let ot = seq![60u8, 116u8, 105u8, 116u8, 108u8, 101u8, 62u8];
            let jk = seq![34u8, 116u8, 105u8, 116u8, 108u8, 101u8, 34u8, 58u8, 34u8];
            let js = spec_find_at(context@, jk, 0);
            let je = if js >= 0 {
                spec_find_at(context@.skip(js + 9), seq![34u8], 0)
            } else {
                -1int
            };
            (spec_find_at(context@, ot, 0) < 0 && js >= 0 && je >= 0) ==> (r is Some && r->0@
                =~= context@.subrange(js + 9, js + 9 + je))
        }),
{
    let n: usize = context.len();
    proof {
        assert(context@.len() <= usize::MAX);
    }
    let ghost ot: Seq<u8> = seq![60u8, 116u8, 105u8, 116u8, 108u8, 101u8, 62u8];
    let ghost ct: Seq<u8> = seq![60u8, 47u8, 116u8, 105u8, 116u8, 108u8, 101u8, 62u8];
    let open_tag: Vec<u8> = make_title_open();
    let close_tag: Vec<u8> = make_title_close();
    if let Some(start) = crate::simd_search::find_pattern_scalar(context, open_tag.as_slice()) {
        proof {
            assert(start + open_tag@.len() <= context@.len());
            lemma_find_at_from(context@, ot, 0, start as int);
        }
        let body_start: usize = start + open_tag.len();
        let rest: &[u8] = vstd::slice::slice_subrange(context, body_start, context.len());
        if let Some(end) = crate::simd_search::find_pattern_scalar(rest, close_tag.as_slice()) {
            proof {
                lemma_find_at_from(rest@, ct, 0, end as int);
            }
            return Some(vstd::slice::slice_subrange(rest, 0, end));
        }
        proof {
            lemma_find_at_none(rest@, ct, 0);
        }
        return None;
    }
    proof {
        lemma_find_at_none(context@, ot, 0);
    }
    let ghost jk: Seq<u8> = seq![34u8, 116u8, 105u8, 116u8, 108u8, 101u8, 34u8, 58u8, 34u8];
    let json_key: Vec<u8> = make_json_title_key();
    if let Some(start) = crate::simd_search::find_pattern_scalar(context, json_key.as_slice()) {
        proof {
            assert(start + json_key@.len() <= context@.len());
            lemma_find_at_from(context@, jk, 0, start as int);
        }
        let body_start: usize = start + json_key.len();
        let rest: &[u8] = vstd::slice::slice_subrange(context, body_start, context.len());
        let quote: Vec<u8> = make_quote();
        if let Some(end) = crate::simd_search::find_pattern_scalar(rest, quote.as_slice()) {
            proof {
                lemma_find_at_from(rest@, seq![34u8], 0, end as int);
            }
            return Some(vstd::slice::slice_subrange(rest, 0, end));
        }
        proof {
            lemma_find_at_none(rest@, seq![34u8], 0);
        }
        return None;
    }
    proof {
        lemma_find_at_none(context@, jk, 0);
    }
    None
}

fn make_title_open() -> (r: Vec<u8>)
    ensures
        r@ =~= seq![60u8, 116u8, 105u8, 116u8, 108u8, 101u8, 62u8],
        r@.len() == 7,
{
    let mut v: Vec<u8> = Vec::new();
    v.push(60);
    v.push(116);
    v.push(105);
    v.push(116);
    v.push(108);
    v.push(101);
    v.push(62);
    v
}

fn make_title_close() -> (r: Vec<u8>)
    ensures
        r@ =~= seq![60u8, 47u8, 116u8, 105u8, 116u8, 108u8, 101u8, 62u8],
        r@.len() == 8,
{
    let mut v: Vec<u8> = Vec::new();
    v.push(60);
    v.push(47);
    v.push(116);
    v.push(105);
    v.push(116);
    v.push(108);
    v.push(101);
    v.push(62);
    v
}

fn make_json_title_key() -> (r: Vec<u8>)
    ensures
        r@ =~= seq![34u8, 116u8, 105u8, 116u8, 108u8, 101u8, 34u8, 58u8, 34u8],
        r@.len() == 9,
{
    let mut v: Vec<u8> = Vec::new();
    v.push(34);
    v.push(116);
    v.push(105);
    v.push(116);
    v.push(108);
    v.push(101);
    v.push(34);
    v.push(58);
    v.push(34);
    v
}

fn make_quote() -> (r: Vec<u8>)
    ensures
        r@ =~= seq![34u8],
        r@.len() == 1,
{
    let mut v: Vec<u8> = Vec::new();
    v.push(34);
    v
}

/// Sort tokens by offset, ascending; the result is a permutation of the
/// input.
pub fn sort_links_by_offset(links: Vec<EnrichedLink>) -> (r: Vec<EnrichedLink>)
    ensures
        sorted_by_offset(r@),
        r@.to_multiset() == links@.to_multiset(),
        r@.len() == links@.len(),
{
    broadcast use vstd::seq_lib::group_to_multiset_ensures;

    let mut src: Vec<EnrichedLink> = links;
    let mut out: Vec<EnrichedLink> = Vec::new();
    let ghost orig: Seq<EnrichedLink> = src@;
    while src.len() > 0
        invariant
            out@.to_multiset().add(src@.to_multiset()) == orig.to_multiset(),
            out@.len() + src@.len() == orig.len(),
            sorted_by_offset(out@),
            forall|a: int, b: int|
                0 <= a < out@.len() && 0 <= b < src@.len() ==> (#[trigger] out@[a]).offset <= (
                #[trigger] src@[b]).offset,
        decreases src@.len(),
    {
        // Index of the smallest offset still in `src`.
        let mut m: usize = 0;
        let mut j: usize = 1;
        while j < src.len()
            invariant
                1 <= j <= src@.len() || src@.len() == 0,
                m < j || (m == 0 && j <= 1),
                m < src@.len(),
                src@.len() > 0,
                forall|q: int| 0 <= q < j ==> (#[trigger] src@[q]).offset >= src@[m as int].offset,
            decreases src@.len() - j,
        {
            if src[j].offset < src[m].offset {
                m = j;
            }
            j = j + 1;
        }
        let ghost src_before: Seq<EnrichedLink> = src@;
        let picked: EnrichedLink = src.remove(m);
        out.push(picked);
        proof {
            broadcast use vstd::seq_lib::group_to_multiset_ensures;

            assert(src_before.contains(src_before[m as int]));
            assert(src_before.to_multiset().count(picked) > 0);
            assert(src@.to_multiset() =~= src_before.to_multiset().remove(picked));
            assert(out@.to_multiset().add(src@.to_multiset()) =~= orig.to_multiset());
        }
    }
    proof {
        broadcast use vstd::seq_lib::group_to_multiset_ensures;

        assert(src@.to_multiset() =~= Multiset::<EnrichedLink>::empty());
        assert(out@.to_multiset().add(Multiset::<EnrichedLink>::empty()) =~= out@.to_multiset());
    }
    out
}

/// Keep the first token of each identifier, preserving order.
#[verifier::rlimit(60)]
fn filter_first_per_id(links: Vec<EnrichedLink>) -> (r: Vec<EnrichedLink>)
    ensures
        distinct_ids(r@),
        forall|l: EnrichedLink| #[trigger] r@.contains(l) ==> links@.contains(l),
        sorted_by_offset(links@) ==> sorted_by_offset(r@),
        forall|i: int|
            0 <= i < links@.len() ==> (exists|j: int|
                0 <= j < r@.len() && (#[trigger] links@[i]).video_id@ == r@[j].video_id@),
{
    let ghost orig: Seq<EnrichedLink> = links@;
    let mut src: Vec<EnrichedLink> = links;
    let mut out: Vec<EnrichedLink> = Vec::new();
    let mut seen: Vec<Vec<u8>> = Vec::new();
    while src.len() > 0
        invariant
            forall|l: EnrichedLink| #[trigger] out@.contains(l) ==> orig.contains(l),
            distinct_ids(out@),
            sorted_by_offset(orig) ==> sorted_by_offset(out@),
            sorted_by_offset(orig) ==> sorted_by_offset(src@),
            sorted_by_offset(orig) ==> (forall|a: int, b: int|
                0 <= a < out@.len() && 0 <= b < src@.len() ==> (#[trigger] out@[a]).offset <= (
                #[trigger] src@[b]).offset),
            forall|l: EnrichedLink| #[trigger] src@.contains(l) ==> orig.contains(l),
            src@.len() <= orig.len(),
            forall|q: int| 0 <= q < src@.len() ==> #[trigger] src@[q] == orig[orig.len()
                - src@.len() + q],
            forall|i: int|
                0 <= i < orig.len() - src@.len() ==> (exists|j: int|
                    0 <= j < out@.len() && (#[trigger] orig[i]).video_id@ == out@[j].video_id@),
            // `seen` holds exactly the identifiers of `out`.
            forall|a: int|
                0 <= a < out@.len() ==> (exists|q: int|
                    0 <= q < seen@.len() && (#[trigger] out@[a]).video_id@ =~= seen@[q]@),
            forall|q: int|
                0 <= q < seen@.len() ==> (exists|a: int|
                    0 <= a < out@.len() && (#[trigger] seen@[q])@ =~= out@[a].video_id@),
        decreases src@.len(),
    {
        let ghost src0: Seq<EnrichedLink> = src@;
        let l: EnrichedLink = src.remove(0);
        proof {
            assert(src0.contains(src0[0]));
            assert forall|x: EnrichedLink| #[trigger] src@.contains(x) implies orig.contains(
                x,
            ) by {
                let ix = choose|ix: int| 0 <= ix < src@.len() && src@[ix] == x;
                assert(src0[ix + 1] == x);
                assert(src0.contains(x));
            }
        }
        let mut dup: bool = false;
        let mut si: usize = 0;
        while si < seen.len() && !dup
            invariant
                si <= seen@.len(),
                dup ==> exists|q: int|
                    0 <= q < seen@.len() && (#[trigger] seen@[q])@ =~= l.video_id@,
                !dup ==> forall|q: int|
                    0 <= q < si ==> !((#[trigger] seen@[q])@ =~= l.video_id@),
            decreases seen@.len() - si,
        {
            if eq_bytes(seen[si].as_slice(), l.video_id.as_slice()) {
                dup = true;
            }
            si = si + 1;
        }
        proof {
            if dup {
                // The newcomer's identifier already has a keeper.
                let q = choose|q: int|
                    0 <= q < seen@.len() && (#[trigger] seen@[q])@ =~= l.video_id@;
                let aa = choose|a: int|
                    0 <= a < out@.len() && (#[trigger] seen@[q])@ =~= out@[a].video_id@;
                assert(orig[orig.len() - src@.len() - 1].video_id@ == out@[aa].video_id@);
            }
        }
        if !dup {
            let mut idc: Vec<u8> = Vec::new();
            let mut ci: usize = 0;
            while ci < l.video_id.len()
                invariant
                    ci <= l.video_id@.len(),
                    idc@ == l.video_id@.take(ci as int),
                decreases l.video_id@.len() - ci,
            {
                idc.push(l.video_id[ci]);
                proof {
                    assert(idc@ =~= l.video_id@.take(ci + 1));
                }
                ci = ci + 1;
            }
            proof {
                assert(idc@ =~= l.video_id@);
                // The new identifier differs from every identifier in
                // `out`, because `seen` mirrors `out`.
                assert forall|a: int| 0 <= a < out@.len() implies (#[trigger] out@[a]).video_id@
                    != l.video_id@ by {
                    let q = choose|q: int|
                        0 <= q < seen@.len() && (#[trigger] out@[a]).video_id@ =~= seen@[q]@;
                    assert(!(seen@[q]@ =~= l.video_id@));
                }
            }
            let ghost out_before: Seq<EnrichedLink> = out@;
            let ghost seen_before: Seq<Vec<u8>> = seen@;
            out.push(l);
            seen.push(idc);
            proof {
                assert forall|i: int| 0 <= i < orig.len() - src@.len() implies (exists|j: int|
                    0 <= j < out@.len() && (#[trigger] orig[i]).video_id@ == out@[j].video_id@)
                    by {
                    if i < orig.len() - src@.len() - 1 {
                        let j = choose|j: int|
                            0 <= j < out_before.len() && orig[i].video_id@ == out_before[
                            j].video_id@;
                        assert(out@[j] == out_before[j]);
                    } else {
                        assert(orig[i].video_id@ == out@[out@.len() - 1].video_id@);
                    }
                }
                assert forall|x: EnrichedLink| #[trigger] out@.contains(x) implies orig.contains(
                    x,
                ) by {
                    let ix = choose|ix: int| 0 <= ix < out@.len() && out@[ix] == x;
                    if ix < out@.len() - 1 {
                        assert(out_before.contains(x));
                    } else {
                        assert(x == l);
                    }
                }
                assert forall|a: int| 0 <= a < out@.len() implies (exists|q: int|
                    0 <= q < seen@.len() && (#[trigger] out@[a]).video_id@ =~= seen@[q]@) by {
                    if a < out@.len() - 1 {
                        let q = choose|q: int|
                            0 <= q < seen_before.len() && (out_before[a]).video_id@
                                =~= seen_before[q]@;
                        assert(seen@[q] == seen_before[q]);
                        assert(out@[a].video_id@ =~= seen@[q]@);
                    } else {
                        assert(out@[a].video_id@ =~= seen@[seen@.len() - 1]@);
                    }
                }
                assert forall|q: int| 0 <= q < seen@.len() implies (exists|a: int|
                    0 <= a < out@.len() && (#[trigger] seen@[q])@ =~= out@[a].video_id@) by {
                    if q < seen@.len() - 1 {
                        let a = choose|a: int|
                            0 <= a < out_before.len() && (seen_before[q])@
                                =~= out_before[a].video_id@;
                        assert(out@[a] == out_before[a]);
                        assert(seen@[q]@ =~= out@[a].video_id@);
                    } else {
                        assert(seen@[q]@ =~= out@[out@.len() - 1].video_id@);
                    }
                }
            }
        }
    }
    out
}

/// Copy a `String`.
fn clone_string(s: &String) -> (r: String)
    ensures
        r@ == s@,
{
    String::from_str(s.as_str())
}

/// A byte opening or closing a JSON container: `{ } [ ]`.
pub open spec fn is_json_marker(b: u8) -> bool {
    b == 123 || b == 125 || b == 91 || b == 93
}

/// Number of JSON structural bytes in a prefix.
pub open spec fn spec_json_markers(data: Seq<u8>, n: int) -> nat
    decreases n,
{
    if n <= 0 {
        0
    } else {
        spec_json_markers(data, n - 1) + if is_json_marker(data[n - 1]) {
            1nat
        } else {
            0nat
        }
    }
}

/// A lead byte of a two-byte UTF-8 Cyrillic sequence.
pub open spec fn is_cyrillic_lead(b: u8) -> bool {
    b == 0xD0 || b == 0xD1
}

/// Does the chunk hold any Cyrillic lead byte?
pub fn detect_cyrillic(data: &[u8]) -> (r: bool)
    ensures
        r == exists|i: int| 0 <= i < data@.len() && is_cyrillic_lead(#[trigger] data@[i]),
{
    let mut i: usize = 0;
    while i < data.len()
        invariant
            i <= data@.len(),
            forall|k: int| 0 <= k < i ==> !is_cyrillic_lead(#[trigger] data@[k]),
        decreases data@.len() - i,
    {
        let b: u8 = data[i];
        if b == 0xD0 || b == 0xD1 {
            return true;
        }
        i = i + 1;
    }
    false
}

/// Count the JSON structural bytes `{ } [ ]`.
pub fn count_json_markers_fast(data: &[u8]) -> (r: usize)
    ensures
        r == spec_json_markers(data@, data@.len() as int),
{
    let mut count: usize = 0;
    let mut i: usize = 0;
    proof {
        lemma_json_markers_bound(data@, 0);
    }
    while i < data.len()
        invariant
            i <= data@.len(),
            count == spec_json_markers(data@, i as int),
            count <= i,
        decreases data@.len() - i,
    {
        let b: u8 = data[i];
        proof {
            lemma_json_markers_bound(data@, i + 1);
        }
        if b == 123 || b == 125 || b == 91 || b == 93 {
            count = count + 1;
        }
        i = i + 1;
    }
    count
}

proof fn lemma_json_markers_bound(data: Seq<u8>, n: int)
    ensures
        spec_json_markers(data, n) <= if n >= 0 {
            n
        } else {
            0int
        },
    decreases n,
{
    if n > 0 {
        lemma_json_markers_bound(data, n - 1);
    }
}

/// Number of two-byte Cyrillic pairs, walking left to right and
/// skipping both bytes of a recognised pair.
pub open spec fn spec_cyr_pairs(data: Seq<u8>, i: int) -> nat
    decreases data.len() - i,
{
    if i < 0 || i >= data.len() - 1 {
        0
    } else if is_cyrillic_lead(data[i]) && 0x80 <= data[i + 1] <= 0xBF {
        1 + spec_cyr_pairs(data, i + 2)
    } else {
        spec_cyr_pairs(data, i + 1)
    }
}

proof fn lemma_cyr_pairs_bound(data: Seq<u8>, i: int)
    requires
        i >= 0,
    ensures
        2 * spec_cyr_pairs(data, i) <= if data.len() - i >= 0 {
            data.len() - i
        } else {
            0int
        },
    decreases data.len() - i,
{
    if i < data.len() - 1 {
        if is_cyrillic_lead(data[i]) && 0x80 <= data[i + 1] <= 0xBF {
            lemma_cyr_pairs_bound(data, i + 2);
        } else {
            lemma_cyr_pairs_bound(data, i + 1);
        }
    }
}

/// Cyrillic density in milli: UTF-8 Cyrillic pairs over half the
/// length.
pub open spec fn spec_cyr_milli(data: Seq<u8>) -> int {
    if data.len() == 0 {
        0
    } else {
        1000 * (spec_cyr_pairs(data, 0) as int) / (if data.len() as int / 2 >= 1 {
            data.len() as int / 2
        } else {
            1int
        })
    }
}

/// Cyrillic character density in milli: pairs over half the length.
pub fn cyrillic_density(data: &[u8]) -> (r: u32)
    requires
        data@.len() <= 0x1_0000_0000_0000,
    ensures
        r <= 2000,
        data@.len() == 0 ==> r == 0,
        r == spec_cyr_milli(data@),
{
    if data.len() == 0 {
        return 0;
    }
    let mut pairs: u64 = 0;
    let mut i: usize = 0;
    // Track the spec value of the remaining suffix while walking.
    while i < data.len() - 1
        invariant
            1 <= data@.len(),
            i <= data@.len(),
            data@.len() <= 0x1_0000_0000_0000,
            2 * pairs <= i,
            pairs + spec_cyr_pairs(data@, i as int) == spec_cyr_pairs(data@, 0),
        decreases data@.len() - i,
    {
        let b: u8 = data[i];
        let nx: u8 = data[i + 1];
        if (b == 0xD0 || b == 0xD1) && 0x80 <= nx && nx <= 0xBF {
            pairs = pairs + 1;
            i = i + 2;
        } else {
            i = i + 1;
        }
    }
    let half: u64 = if data.len() / 2 >= 1 {
        (data.len() / 2) as u64
    } else {
        1
    };
    proof {
        lemma_cyr_pairs_bound(data@, 0);
        assert(spec_cyr_pairs(data@, i as int) == 0);
    }
    let scaled: u64 = pairs * 1000 / half;
    proof {
        assert(2 * pairs <= data@.len());
        if half >= 1 {
            vstd::arithmetic::div_mod::lemma_div_is_ordered(
                pairs as int * 1000,
                2 * (half as int) * 1000,
                half as int,
            );
            assert(pairs * 1000 <= 2 * (half as int) * 1000) by (nonlinear_arith)
                requires
                    pairs <= 2 * half,
            ;
            assert(2 * (half as int) * 1000 / (half as int) == 2000) by (nonlinear_arith)
                requires
                    half >= 1,
            ;
        }
    }
    scaled as u32
}

/// Token density in milli-points per MiB, capped at 100 (100000 milli).
pub fn calculate_link_density(youtube_count: usize, data_size: usize) -> (r: u64)
    ensures
        r <= 100000,
        data_size == 0 ==> r == 0,
        r == if data_size == 0 {
            0int
        } else if (youtube_count as int) * 1048576000 / (data_size as int) < 100000 {
            (youtube_count as int) * 1048576000 / (data_size as int)
        } else {
            100000int
        },
{
    if data_size == 0 {
        return 0;
    }
    let wide: u128 = (youtube_count as u128) * 1048576000 / (data_size as u128);
    if wide < 100000 {
        wide as u64
    } else {
        100000
    }
}

/// The base target score in milli-points: weighted token density,
/// Cyrillic density, JSON markers, and the size band.
pub open spec fn spec_target_score(
    link_density: int,
    cyr_density: int,
    has_json_markers: bool,
    size: int,
) -> int {
    let base = link_density * 4 / 10 + cyr_density * 30 + if has_json_markers {
        15000int
    } else {
        0int
    };
    if 15360 <= size && size <= 358400 {
        base + 15000
    } else if size > 409600 || size < 5120 {
        base / 2
    } else {
        base
    }
}

/// Compute the base target score in milli-points.
pub fn calculate_target_score(
    youtube_count: usize,
    cyr_density: u32,
    has_json_markers: bool,
    size: usize,
) -> (r: i64)
    requires
        cyr_density <= 2000,
    ensures
        ({
            let ld = if size == 0 {
                0int
            } else if (youtube_count as int) * 1048576000 / (size as int) < 100000 {
                (youtube_count as int) * 1048576000 / (size as int)
            } else {
                100000int
            };
            r == spec_target_score(ld, cyr_density as int, has_json_markers, size as int)
        }),
        0 <= r <= 130000,
{
    let ld: u64 = calculate_link_density(youtube_count, size);
    let base: i64 = (ld as i64) * 4 / 10 + (cyr_density as i64) * 30 + if has_json_markers {
        15000
    } else {
        0
    };
    if 15360 <= size && size <= 358400 {
        base + 15000
    } else if size > 409600 || size < 5120 {
        base / 2
    } else {
        base
    }
}

/// Validate a chunk with the quick heuristics and the strict checks.
///
/// Confidences are in milli: 1000 for a strict hit, 600 and 500 for the
/// heuristics alone.
pub fn validate_data_chunk(data: &[u8]) -> (r: ValidationResult)
    ensures
        r.is_probably_json == (data@.len() > 0 && spec_probably_json(data@)),
        r.is_valid_json ==> r.is_probably_json,
        (data@.len() > 0 && spec_probably_json(data@) && json_accepted(data@))
            ==> r.is_valid_json,
        r.is_valid_json ==> json_accepted(data@) || json_accepted(
            spec_trimmed(data@).skip(spec_json_start(spec_trimmed(data@))),
        ),
        r.is_probably_youtube == (data@.len() > 0 && spec_probably_youtube(data@)),
        r.is_valid_json == crate::validator::spec_json_verdict(data@),
        r.is_valid_youtube_url == spec_url_verdict(data@),
        r.json_confidence == if r.is_probably_json {
            if r.is_valid_json {
                1000int
            } else {
                600int
            }
        } else {
            0int
        },
        r.url_confidence == if r.is_probably_youtube {
            if r.is_valid_youtube_url {
                1000int
            } else {
                500int
            }
        } else {
            0int
        },
{
    let mut result = ValidationResult::default();
    if data.len() == 0 {
        return result;
    }
    result.is_probably_json = is_probably_json(data);
    result.is_valid_json = is_valid_json(data);
    if result.is_probably_json {
        result.json_confidence = if result.is_valid_json {
            1000
        } else {
            600
        };
    }
    result.is_probably_youtube = is_probably_youtube_url(data);
    result.is_valid_youtube_url = is_valid_youtube_url(data);
    if result.is_probably_youtube {
        result.url_confidence = if result.is_valid_youtube_url {
            1000
        } else {
            500
        };
    }
    result
}

/// Does any pattern of the set match anywhere in the data?
pub fn matches_any_pattern(data: &[u8]) -> (r: bool)
    ensures
        r == exists|k: int, p: int| 0 <= k < 7 && #[trigger] token_match_at(data@, k, p),
{
    let n: usize = data.len();
    let mut p: usize = 0;
    while p < n
        invariant
            n == data@.len() <= usize::MAX,
            p <= n,
            forall|k: int, q: int|
                0 <= k < 7 && 0 <= q < p ==> !(#[trigger] token_match_at(data@, k, q)),
        decreases n - p,
    {
        let mut k: usize = 0;
        while k < PATTERN_COUNT
            invariant
                k <= 7,
                p < n == data@.len() <= usize::MAX,
                forall|q: int| 0 <= q < k ==> !(#[trigger] token_match_at(data@, q, p as int)),
            decreases 7 - k,
        {
            if match_pattern_at(data, p, k) {
                return true;
            }
            k = k + 1;
        }
        proof {
            assert(forall|k: int|
                0 <= k < 7 ==> !(#[trigger] token_match_at(data@, k, p as int)));
        }
        p = p + 1;
    }
    proof {
        assert forall|k: int, q: int| 0 <= k < 7 && q >= p implies !(#[trigger] token_match_at(
            data@,
            k,
            q,
        )) by {
            if token_match_at(data@, k, q) {
                assert(q + spec_pattern_needle(k).len() + 11 <= data@.len());
            }
        }
    }
    false
}

/// Strict URL validity as a predicate: the heuristic holds and a
/// pattern of the set matches somewhere in the text.
pub open spec fn spec_url_verdict(data: Seq<u8>) -> bool {
    &&& data.len() > 0
    &&& spec_probably_youtube(data)
    &&& (exists|k: int, p: int| 0 <= k < 7 && #[trigger] token_match_at(data, k, p))
}

/// Strict URL validity: the heuristic, then a pattern of the set.
pub fn is_valid_youtube_url(data: &[u8]) -> (r: bool)
    ensures
        r == (spec_probably_youtube(data@) && (exists|k: int, p: int|
            0 <= k < 7 && #[trigger] token_match_at(data@, k, p))),
{
    if !is_probably_youtube_url(data) {
        return false;
    }
    matches_any_pattern(data)
}

/// Structural HTML check: angle brackets plus one recognised tag name.
pub open spec fn spec_valid_html(data: Seq<u8>) -> bool {
    let t = spec_trimmed(data);
    &&& vstd::utf8::valid_utf8(data)
    &&& spec_contains(t, seq![60u8])
    &&& spec_contains(t, seq![62u8])
    &&& (spec_ci_contains(t, seq![60u8, 104u8, 116u8, 109u8, 108u8]) || spec_ci_contains(
        t,
        seq![60u8, 98u8, 111u8, 100u8, 121u8],
    ) || spec_ci_contains(t, seq![60u8, 100u8, 105u8, 118u8]) || spec_ci_contains(
        t,
        seq![60u8, 112u8],
    ))
}

/// Quick HTML validation.
pub fn is_valid_html(data: &[u8]) -> (r: bool)
    ensures
        r == spec_valid_html(data@),
{
    if bytes_as_str(data).is_none() {
        return false;
    }
    let t: &[u8] = trim_ascii(data);
    let mut lt: Vec<u8> = Vec::new();
    lt.push(60);
    let mut gt: Vec<u8> = Vec::new();
    gt.push(62);
    proof {
        assert(lt@ =~= seq![60u8]);
        assert(gt@ =~= seq![62u8]);
    }
    if !crate::validator::contains_needle(t, lt.as_slice()) {
        return false;
    }
    if !crate::validator::contains_needle(t, gt.as_slice()) {
        return false;
    }
    let mut html_tag: Vec<u8> = Vec::new();
    html_tag.push(60);
    html_tag.push(104);
    html_tag.push(116);
    html_tag.push(109);
    html_tag.push(108);
    let mut body_tag: Vec<u8> = Vec::new();
    body_tag.push(60);
    body_tag.push(98);
    body_tag.push(111);
    body_tag.push(100);
    body_tag.push(121);
    let mut div_tag: Vec<u8> = Vec::new();
    div_tag.push(60);
    div_tag.push(100);
    div_tag.push(105);
    div_tag.push(118);
    let mut p_tag: Vec<u8> = Vec::new();
    p_tag.push(60);
    p_tag.push(112);
    proof {
        assert(html_tag@ =~= seq![60u8, 104u8, 116u8, 109u8, 108u8]);
        assert(body_tag@ =~= seq![60u8, 98u8, 111u8, 100u8, 121u8]);
        assert(div_tag@ =~= seq![60u8, 100u8, 105u8, 118u8]);
        assert(p_tag@ =~= seq![60u8, 112u8]);
    }
    let n: usize = t.len();
    ci_contains(t, html_tag.as_slice()) || ci_contains(t, body_tag.as_slice()) || ci_contains(
        t,
        div_tag.as_slice(),
    ) || ci_contains(t, p_tag.as_slice())
}

/// Index of the first newline of `t` at or after `j`, or the length.
pub open spec fn spec_nl_at(t: Seq<u8>, j: int) -> int
    decreases t.len() - j,
{
    if j < 0 || j >= t.len() {
        t.len() as int
    } else if t[j] == 10 {
        j
    } else {
        spec_nl_at(t, j + 1)
    }
}

/// Number of commas among the first `i` bytes of `t`.
pub open spec fn spec_commas_before(t: Seq<u8>, i: int) -> int
    decreases i,
{
    if i <= 0 {
        0
    } else {
        spec_commas_before(t, i - 1) + if t[i - 1] == 44 {
            1int
        } else {
            0int
        }
    }
}

/// Line statistics after the first `j` bytes of `t`: finished lines,
/// finished lines with at least `fc / 2` commas, and commas on the
/// open line (a comma in the first byte is never counted).
pub open spec fn spec_csv_state(t: Seq<u8>, fc: int, j: int) -> (int, int, int)
    decreases j,
{
    if j <= 0 {
        (0int, 0int, 0int)
    } else {
        let prev = spec_csv_state(t, fc, j - 1);
        let b = t[j - 1];
        if b == 10 {
            (
                prev.0 + 1,
                prev.1 + if prev.2 >= fc / 2 {
                    1int
                } else {
                    0int
                },
                0int,
            )
        } else if b == 44 {
            (
                prev.0,
                prev.1,
                if prev.2 < j - 1 {
                    prev.2 + 1
                } else {
                    prev.2
                },
            )
        } else {
            prev
        }
    }
}

/// CSV shape check: valid UTF-8 with a comma in its opening row, two
/// or more rows, and most rows holding a comparable comma count.
pub open spec fn spec_valid_csv(data: Seq<u8>) -> bool {
    let t = spec_trimmed(data);
    let fc = spec_commas_before(t, spec_nl_at(t, 0));
    let st = spec_csv_state(t, fc, t.len() as int);
    let total_lines = st.0 + 1;
    let total_consistent = st.1 + if st.2 >= fc / 2 {
        1int
    } else {
        0int
    };
    &&& vstd::utf8::valid_utf8(data)
    &&& t.len() > 0
    &&& fc >= 1
    &&& total_lines >= 2
    &&& total_consistent * 5 >= total_lines * 3
}

/// Unfolding `spec_nl_at` from `j` to the stop index `i`.
proof fn lemma_nl_at_shift(t: Seq<u8>, j: int, i: int)
    requires
        0 <= j <= i <= t.len(),
        forall|q: int| j <= q < i ==> t[q] != 10,
        i < t.len() ==> t[i] == 10,
    ensures
        spec_nl_at(t, j) == i,
    decreases i - j,
{
    if j < i {
        lemma_nl_at_shift(t, j + 1, i);
    }
}

/// Quick CSV validation: at least two lines, a comma in the first, and
/// at least 60% of lines with at least half the first line's commas.
///
/// A hit implies the text was valid UTF-8 and non-empty after a trim.
pub fn is_valid_csv(data: &[u8]) -> (r: bool)
    ensures
        r == spec_valid_csv(data@),
        r ==> vstd::utf8::valid_utf8(data@) && spec_trimmed(data@).len() > 0,
{
    if bytes_as_str(data).is_none() {
        return false;
    }
    let t: &[u8] = trim_ascii(data);
    if t.len() == 0 {
        return false;
    }
    // Count lines, commas in the first line, and consistent lines.
    let mut first_commas: usize = 0;
    let mut i: usize = 0;
    while i < t.len() && t[i] != 10
        invariant
            i <= t@.len(),
            first_commas <= i,
            first_commas == spec_commas_before(t@, i as int),
            forall|q: int| 0 <= q < i ==> t@[q] != 10,
        decreases t@.len() - i,
    {
        if t[i] == 44 {
            first_commas = first_commas + 1;
        }
        i = i + 1;
    }
    proof {
        lemma_nl_at_shift(t@, 0, i as int);
        assert(first_commas == spec_commas_before(t@, spec_nl_at(t@, 0)));
    }
    if first_commas < 1 {
        return false;
    }
    let mut lines: usize = 0;
    let mut consistent: usize = 0;
    let mut commas: usize = 0;
    let mut started: bool = false;
    let mut j: usize = 0;
    while j < t.len()
        invariant
            j <= t@.len(),
            commas <= j,
            lines <= j,
            consistent <= lines,
            first_commas == spec_commas_before(t@, spec_nl_at(t@, 0)),
            (lines as int, consistent as int, commas as int) == spec_csv_state(
                t@,
                first_commas as int,
                j as int,
            ),
        decreases t@.len() - j,
    {
        let b: u8 = t[j];
        if b == 10 {
            lines = lines + 1;
            if commas >= first_commas / 2 {
                consistent = consistent + 1;
            }
            commas = 0;
        } else if b == 44 {
            if commas < j {
                commas = commas + 1;
            }
        }
        started = true;
        j = j + 1;
    }
    // The final line has no trailing newline after the trim.
    let total_lines: u128 = lines as u128 + 1;
    let last_consistent: u128 = if commas >= first_commas / 2 {
        1
    } else {
        0
    };
    let total_consistent: u128 = consistent as u128 + last_consistent;
    if total_lines < 2 {
        return false;
    }
    // consistent / lines >= 0.6, in exact integers.
    let verdict: bool = total_consistent * 5 >= total_lines * 3;
    proof {
        assert((lines as int, consistent as int, commas as int) == spec_csv_state(
            t@,
            first_commas as int,
            t@.len() as int,
        ));
    }
    verdict
}

/// The link density a chunk of `size` bytes earns from `youtube_count`
/// tokens, in milli per megabyte, capped at 100 points.
pub open spec fn spec_link_density(youtube_count: int, size: int) -> int {
    if size == 0 {
        0
    } else if youtube_count * 1048576000 / size < 100000 {
        youtube_count * 1048576000 / size
    } else {
        100000
    }
}

/// The fragment score: 60% of the base target score, the entropy band
/// bonuses, the validation bonuses, the size band, clamped at zero.
/// The two strict verdicts enter as arguments: they rest on the JSON
/// and URL checks of the validator.
#[verifier::opaque]
pub open spec fn spec_fragment_score_value(
    data: Seq<u8>,
    youtube_count: int,
    cyr_density: int,
    has_json: bool,
    valid_json: bool,
    valid_url: bool,
) -> int {
    let ent = crate::entropy::spec_entropy_q16(data);
    let base = spec_target_score(
        spec_link_density(youtube_count, data.len() as int),
        cyr_density,
        has_json,
        data.len() as int,
    ) * 6 / 10;
    let ebonus = if ent > 7 * 65536 + 32768 {
        -25000int
    } else {
        (if 3 * 65536 <= ent && ent <= 6 * 65536 {
            20000int
        } else {
            0int
        }) + (if 229376 <= ent && ent <= 425984 {
            10000int
        } else {
            0int
        })
    };
    let jbonus = if valid_json {
        30000int
    } else if data.len() > 0 && spec_probably_json(data) {
        15000int
    } else {
        0int
    };
    let ubonus = if valid_url {
        25000int
    } else if data.len() > 0 && spec_probably_youtube(data) {
        10000int
    } else {
        0int
    };
    let hbonus = if spec_valid_html(data) {
        20000int
    } else {
        0int
    };
    let cbonus = if spec_valid_csv(data) {
        15000int
    } else {
        0int
    };
    let sbonus = if 15360 <= data.len() <= 358400 {
        10000int
    } else {
        0int
    };
    let tot = base + ebonus + jbonus + ubonus + hbonus + cbonus + sbonus;
    if tot < 0 {
        0
    } else {
        tot
    }
}

/// The composed score never falls when more tokens are counted: the
/// link density, the base score, and the weighted sum are all monotone
/// in the token count.
pub proof fn lemma_fragment_score_monotone(
    data: Seq<u8>,
    yc1: int,
    yc2: int,
    cd: int,
    jm: bool,
    vj: bool,
    vu: bool,
)
    requires
        0 <= yc1 <= yc2,
        0 <= cd,
    ensures
        spec_fragment_score_value(data, yc1, cd, jm, vj, vu) <= spec_fragment_score_value(
            data,
            yc2,
            cd,
            jm,
            vj,
            vu,
        ),
{
    reveal(spec_fragment_score_value);
    let size = data.len() as int;
    let ld1 = spec_link_density(yc1, size);
    let ld2 = spec_link_density(yc2, size);
    assert(0 <= ld1 <= ld2) by {
        if size > 0 {
            assert(0 <= yc1 * 1048576000 <= yc2 * 1048576000) by (nonlinear_arith)
                requires
                    0 <= yc1 <= yc2,
            ;
            vstd::arithmetic::div_mod::lemma_div_is_ordered(0, yc1 * 1048576000, size);
            vstd::arithmetic::div_mod::lemma_div_is_ordered(
                yc1 * 1048576000,
                yc2 * 1048576000,
                size,
            );
        }
    }
    let ts1 = spec_target_score(ld1, cd, jm, size);
    let ts2 = spec_target_score(ld2, cd, jm, size);
    assert(0 <= ts1 <= ts2) by {
        let b1 = ld1 * 4 / 10 + cd * 30 + if jm {
            15000int
        } else {
            0int
        };
        let b2 = ld2 * 4 / 10 + cd * 30 + if jm {
            15000int
        } else {
            0int
        };
        vstd::arithmetic::div_mod::lemma_div_is_ordered(0, ld1 * 4, 10);
        vstd::arithmetic::div_mod::lemma_div_is_ordered(ld1 * 4, ld2 * 4, 10);
        assert(0 <= b1 <= b2);
        vstd::arithmetic::div_mod::lemma_div_is_ordered(0, b1, 2);
        vstd::arithmetic::div_mod::lemma_div_is_ordered(b1, b2, 2);
    }
    vstd::arithmetic::div_mod::lemma_div_is_ordered(0, ts1 * 6, 10);
    vstd::arithmetic::div_mod::lemma_div_is_ordered(ts1 * 6, ts2 * 6, 10);
}

/// Fold the verdicts into the milli-point score and its reason list:
/// 60% of the base, the entropy bands, the validation and size
/// bonuses, clamped at zero.
#[verifier::rlimit(60)]
fn compose_fragment_score(
    base: i64,
    entropy: u64,
    vj: bool,
    pj: bool,
    vu: bool,
    pu: bool,
    html_ok: bool,
    csv_ok: bool,
    size: usize,
) -> (r: (i64, Vec<&'static str>))
    requires
        0 <= base <= 130000,
        entropy <= 8 * 65536,
    ensures
        ({
            let eb: int = if entropy > 7 * 65536 + 32768 {
                -25000int
            } else {
                (if 3 * 65536 <= entropy && entropy <= 6 * 65536 {
                    20000int
                } else {
                    0int
                }) + (if 229376 <= entropy && entropy <= 425984 {
                    10000int
                } else {
                    0int
                })
            };
            let jb: int = if vj {
                30000int
            } else if pj {
                15000int
            } else {
                0int
            };
            let ub: int = if vu {
                25000int
            } else if pu {
                10000int
            } else {
                0int
            };
            let hb: int = if html_ok {
                20000int
            } else {
                0int
            };
            let cb: int = if csv_ok {
                15000int
            } else {
                0int
            };
            let sb: int = if 15360 <= size <= 358400 {
                10000int
            } else {
                0int
            };
            let tot = (base as int) * 6 / 10 + eb + jb + ub + hb + cb + sb;
            r.0 == if tot < 0 {
                0int
            } else {
                tot
            }
        }),
        0 <= r.0 <= 0x10000000000,
{
    let mut score: i64 = base * 6 / 10;
    let mut reasons: Vec<&'static str> = Vec::new();
    if !(entropy > 7 * 65536 + 32768) {
        if 3 * 65536 <= entropy && entropy <= 6 * 65536 {
            score = score + 20000;
            reasons.push("structured_text");
        }
        if 229376 <= entropy && entropy <= 425984 {
            // Between 3.5 and 6.5 bits.
            score = score + 10000;
            reasons.push("optimal_entropy");
        }
    } else {
        score = score - 25000;
        reasons.push("high_entropy_compressed");
    }
    if vj {
        score = score + 30000;
        reasons.push("valid_json");
    } else if pj {
        score = score + 15000;
        reasons.push("probably_json");
    }
    if vu {
        score = score + 25000;
        reasons.push("valid_youtube_url");
    } else if pu {
        score = score + 10000;
        reasons.push("probably_youtube");
    }
    if html_ok {
        score = score + 20000;
        reasons.push("valid_html");
    }
    if csv_ok {
        score = score + 15000;
        reasons.push("valid_csv");
    }
    if 15360 <= size && size <= 358400 {
        score = score + 10000;
        reasons.push("target_size");
    }
    if score < 0 {
        score = 0;
    }
    (score, reasons)
}

/// Compose the fragment score: the weighted base, entropy band bonuses,
/// validation bonuses, and the size band, clamped at zero.
///
/// The verdict flags are exact; the score is their fixed-point weighted
/// sum in milli-points.
#[verifier::rlimit(100)]
pub fn calculate_fragment_score(
    data: &[u8],
    youtube_count: usize,
    cyr_density: u32,
    json_markers: usize,
) -> (r: FragmentScore)
    requires
        cyr_density <= 2000,
        data@.len() <= 0x1_0000_0000_0000,
    ensures
        r.wf(),
        r.is_valid_json == crate::validator::spec_json_verdict(data@),
        r.is_valid_youtube_url == spec_url_verdict(data@),
        r.is_valid_html == spec_valid_html(data@),
        r.is_valid_csv == spec_valid_csv(data@),
        r.has_structured_text == (3 * 65536 <= crate::entropy::spec_entropy_q16(data@)
            && crate::entropy::spec_entropy_q16(data@) <= 6 * 65536),
        r.is_compressed == (crate::entropy::spec_entropy_q16(data@) > 7 * 65536 + 32768),
        data@.len() == 0 ==> !r.has_structured_text && !r.is_compressed,
        all_bytes_equal(data@) ==> !r.has_structured_text && !r.is_compressed,
        r.overall_score >= 0,
        // The score is the exact weighted sum of the verdicts, clamped
        // at zero.
        r.overall_score == spec_fragment_score_value(
            data@,
            youtube_count as int,
            cyr_density as int,
            json_markers > 0,
            r.is_valid_json,
            r.is_valid_youtube_url,
        ),
{
    let base: i64 = calculate_target_score(
        youtube_count,
        cyr_density,
        json_markers > 0,
        data.len(),
    );
    let entropy: u64 = calculate_shannon_entropy(data);
    let validation: ValidationResult = validate_data_chunk(data);
    let html_ok: bool = is_valid_html(data);
    let csv_ok: bool = is_valid_csv(data);
    let is_compressed: bool = entropy > 7 * 65536 + 32768;
    let is_text_structured: bool = 3 * 65536 <= entropy && entropy <= 6 * 65536;
    let (score, reasons): (i64, Vec<&'static str>) = compose_fragment_score(
        base,
        entropy,
        validation.is_valid_json,
        validation.is_probably_json,
        validation.is_valid_youtube_url,
        validation.is_probably_youtube,
        html_ok,
        csv_ok,
        data.len(),
    );
    proof {
        reveal(spec_fragment_score_value);
    }
    FragmentScore {
        overall_score: score,
        is_valid_json: validation.is_valid_json,
        is_valid_html: html_ok,
        is_valid_csv: csv_ok,
        is_valid_youtube_url: validation.is_valid_youtube_url,
        has_structured_text: is_text_structured,
        is_compressed,
        reasons,
    }
}

} // verus!
