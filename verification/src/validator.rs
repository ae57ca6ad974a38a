//! Content validators: token identifiers, JSON, and URL heuristics.
//!
//! The quick JSON screen is a byte-level state machine; the strict
//! check hands the candidate to an outside JSON parser behind a trusted
//! wrapper.

use vstd::prelude::*;
use vstd::string::StringSliceAdditionalSpecFns;
use crate::types::{is_id_byte, valid_token_id};
use crate::simd_search::pattern_at;

verus! {

/// Exactly eleven bytes, each an ASCII alphanumeric, `-` or `_`.
pub fn is_valid_video_id(id: &[u8]) -> (r: bool)
    ensures
        r == valid_token_id(id@),
{
    if id.len() != 11 {
        return false;
    }
    let mut i: usize = 0;
    while i < 11
        invariant
            id@.len() == 11,
            i <= 11,
            forall|k: int| 0 <= k < i ==> is_id_byte(#[trigger] id@[k]),
        decreases 11 - i,
    {
        let b: u8 = id[i];
        if !((65 <= b && b <= 90) || (97 <= b && b <= 122) || (48 <= b && b <= 57) || b == 45
            || b == 95) {
            return false;
        }
        i = i + 1;
    }
    true
}

/// An ASCII whitespace byte: space, tab, line feed, form feed, carriage
/// return.
pub open spec fn is_ws(b: u8) -> bool {
    b == 32 || b == 9 || b == 10 || b == 12 || b == 13
}

/// First index of `data` that is not ASCII whitespace.
pub open spec fn spec_trim_start(data: Seq<u8>, from: int) -> int
    decreases data.len() - from,
{
    if from < 0 || from >= data.len() {
        data.len() as int
    } else if is_ws(data[from]) {
        spec_trim_start(data, from + 1)
    } else {
        from
    }
}

/// One past the last index of `data` that is not ASCII whitespace.
pub open spec fn spec_trim_end(data: Seq<u8>, to: int) -> int
    decreases to,
{
    if to <= 0 || to > data.len() {
        0
    } else if is_ws(data[to - 1]) {
        spec_trim_end(data, to - 1)
    } else {
        to
    }
}

/// The start scan stops on a non-whitespace byte.
proof fn lemma_trim_start_stop(data: Seq<u8>, from: int)
    requires
        0 <= from,
    ensures
        spec_trim_start(data, from) < data.len() ==> !is_ws(
            data[spec_trim_start(data, from)],
        ),
    decreases data.len() - from,
{
    if from < data.len() && is_ws(data[from]) {
        lemma_trim_start_stop(data, from + 1);
    }
}

/// The end scan stops after a non-whitespace byte.
proof fn lemma_trim_end_stop(data: Seq<u8>, to: int)
    requires
        to <= data.len(),
    ensures
        spec_trim_end(data, to) > 0 ==> !is_ws(data[spec_trim_end(data, to) - 1]),
    decreases to,
{
    if 0 < to && to <= data.len() && is_ws(data[to - 1]) {
        lemma_trim_end_stop(data, to - 1);
    }
}

/// A non-empty trimmed string neither begins nor ends in whitespace.
pub proof fn lemma_trimmed_ends(data: Seq<u8>)
    ensures
        spec_trimmed(data).len() > 0 ==> !is_ws(spec_trimmed(data)[0]) && !is_ws(
            spec_trimmed(data)[spec_trimmed(data).len() - 1],
        ),
{
    lemma_trim_start_stop(data, 0);
    lemma_trim_end_stop(data, data.len() as int);
    lemma_trim_bounds(data);
    lemma_trimmed_within(data);
    let s = spec_trim_start(data, 0);
    let e = spec_trim_end(data, data.len() as int);
    if spec_trimmed(data).len() > 0 {
        assert(s < e);
        assert(spec_trimmed(data)[0] == data[s + 0]);
        assert(spec_trimmed(data)[spec_trimmed(data).len() - 1] == data[s + (spec_trimmed(
            data,
        ).len() - 1)]);
        assert(spec_trimmed(data) == data.subrange(s, e));
        assert(s + spec_trimmed(data).len() == e);
        assert(s < data.len());
        assert(e > 0);
    }
}

/// `data` with ASCII whitespace removed from both ends.
pub open spec fn spec_trimmed(data: Seq<u8>) -> Seq<u8> {
    let s = spec_trim_start(data, 0);
    let e = spec_trim_end(data, data.len() as int);
    if s < e {
        data.subrange(s, e)
    } else {
        Seq::empty()
    }
}

/// Trim ASCII whitespace from both ends.
pub fn trim_ascii(data: &[u8]) -> (r: &[u8])
    ensures
        r@ == spec_trimmed(data@),
{
    let mut s: usize = 0;
    while s < data.len() && (data[s] == 32 || data[s] == 9 || data[s] == 10 || data[s] == 12
        || data[s] == 13)
        invariant
            s <= data@.len(),
            spec_trim_start(data@, 0) == spec_trim_start(data@, s as int),
        decreases data@.len() - s,
    {
        s = s + 1;
    }
    proof {
        if s < data@.len() {
            assert(spec_trim_start(data@, s as int) == s);
        }
        assert(spec_trim_start(data@, 0) == s);
    }
    let mut e: usize = data.len();
    while e > s && (data[e - 1] == 32 || data[e - 1] == 9 || data[e - 1] == 10 || data[e - 1]
        == 12 || data[e - 1] == 13)
        invariant
            s <= e <= data@.len(),
            spec_trim_end(data@, data@.len() as int) == spec_trim_end(data@, e as int),
        decreases e,
    {
        e = e - 1;
    }
    proof {
        lemma_trim_end_bounds(data@, e as int);
        if e > s {
            assert(spec_trim_end(data@, e as int) == e);
        }
    }
    let r: &[u8] = vstd::slice::slice_subrange(data, s, e);
    proof {
        if e > s {
            assert(r@ =~= spec_trimmed(data@));
        } else {
            assert(spec_trim_end(data@, data@.len() as int) <= s);
            assert(r@ =~= Seq::<u8>::empty());
            assert(spec_trimmed(data@) =~= Seq::<u8>::empty());
        }
    }
    r
}

/// The trimmed text is an infix of the original: index `q` of the
/// trimmed text is index `start + q` of the original.
pub proof fn lemma_trimmed_within(data: Seq<u8>)
    ensures
        0 <= spec_trim_start(data, 0),
        spec_trim_start(data, 0) + spec_trimmed(data).len() <= data.len(),
        forall|q: int|
            0 <= q < spec_trimmed(data).len() ==> #[trigger] spec_trimmed(data)[q] == data[
                spec_trim_start(data, 0) + q],
{
    lemma_trim_bounds(data);
    let st = spec_trim_start(data, 0);
    let en = spec_trim_end(data, data.len() as int);
    if st < en {
        assert(spec_trimmed(data) =~= data.subrange(st, en));
    }
}

/// Trim indices stay within the sequence.
proof fn lemma_trim_bounds(data: Seq<u8>)
    ensures
        0 <= spec_trim_start(data, 0) <= data.len(),
        0 <= spec_trim_end(data, data.len() as int) <= data.len(),
{
    lemma_trim_start_bounds(data, 0);
    lemma_trim_end_bounds(data, data.len() as int);
}

proof fn lemma_trim_start_bounds(data: Seq<u8>, from: int)
    requires
        0 <= from <= data.len(),
    ensures
        from <= spec_trim_start(data, from) <= data.len(),
    decreases data.len() - from,
{
    if from < data.len() && is_ws(data[from]) {
        lemma_trim_start_bounds(data, from + 1);
    }
}

proof fn lemma_trim_end_bounds(data: Seq<u8>, to: int)
    requires
        0 <= to <= data.len(),
    ensures
        0 <= spec_trim_end(data, to) <= to,
    decreases to,
{
    if to > 0 && is_ws(data[to - 1]) {
        lemma_trim_end_bounds(data, to - 1);
    }
}

/// Brace/bracket balance state over a byte prefix: open braces, open
/// brackets, inside-string flag, escape flag. Counts saturate at zero
/// as the scanner does.
pub open spec fn spec_balance(s: Seq<u8>, n: int) -> (int, int, bool, bool)
    decreases n,
{
    if n <= 0 {
        (0, 0, false, false)
    } else {
        let (br, bk, ins, esc) = spec_balance(s, n - 1);
        let b = s[n - 1];
        if esc {
            (br, bk, ins, false)
        } else if b == 92 {
            (br, bk, ins, true)
        } else if b == 34 {
            (br, bk, !ins, false)
        } else if ins {
            (br, bk, ins, false)
        } else if b == 123 {
            (br + 1, bk, ins, false)
        } else if b == 125 {
            (if br > 0 {
                br - 1
            } else {
                0
            }, bk, ins, false)
        } else if b == 91 {
            (br, bk + 1, ins, false)
        } else if b == 93 {
            (br, if bk > 0 {
                bk - 1
            } else {
                0
            }, ins, false)
        } else {
            (br, bk, ins, false)
        }
    }
}

/// The quick JSON screen: after trimming, the text starts with a brace
/// or bracket, braces and brackets balance out, and more than ten bytes
/// remain.
pub open spec fn spec_probably_json(data: Seq<u8>) -> bool {
    let t = spec_trimmed(data);
    &&& vstd::utf8::valid_utf8(data)
    &&& t.len() > 10
    &&& (t[0] == 123 || t[0] == 91)
    &&& ({
        let (br, bk, _ins, _esc) = spec_balance(t, t.len() as int);
        br == 0 && bk == 0
    })
}

/// Relies on `str::from_utf8`: it accepts exactly the valid UTF-8 byte
/// strings, and the accepted view is the input bytes.
#[verifier::external_body]
pub fn bytes_as_str(v: &[u8]) -> (r: Option<&str>)
    ensures
        r is Some <==> vstd::utf8::valid_utf8(v@),
        r is Some ==> r->0.spec_bytes() == v@,
{
    core::str::from_utf8(v).ok()
}

/// Relies on `String::from_utf8`: it accepts exactly the valid UTF-8
/// byte strings and keeps the bytes, which are the UTF-8 form of the
/// resulting characters.
#[verifier::external_body]
pub fn bytes_to_string(v: Vec<u8>) -> (r: Option<String>)
    ensures
        r is Some <==> vstd::utf8::valid_utf8(v@),
        r is Some ==> vstd::utf8::encode_utf8(r->0@) == v@,
{
    String::from_utf8(v).ok()
}

/// Whether the outside JSON parser accepts a text, as a function of its
/// bytes.
pub uninterp spec fn json_accepted(s: Seq<u8>) -> bool;

/// Relies on `serde_json::from_str::<Value>`: acceptance depends on the
/// text alone.
#[verifier::external_body]
fn json_parses(text: &str) -> (r: bool)
    ensures
        r == json_accepted(text.spec_bytes()),
{
    serde_json::from_str::<serde_json::Value>(text).is_ok()
}

/// Fast heuristic: the bytes look like a JSON document.
pub fn is_probably_json(data: &[u8]) -> (r: bool)
    ensures
        r == (data@.len() > 0 && spec_probably_json(data@)),
{
    if data.len() == 0 {
        return false;
    }
    if bytes_as_str(data).is_none() {
        return false;
    }
    let t: &[u8] = trim_ascii(data);
    if t.len() <= 10 {
        return false;
    }
    if !(t[0] == 123 || t[0] == 91) {
        return false;
    }
    let mut br: u64 = 0;
    let mut bk: u64 = 0;
    let mut ins: bool = false;
    let mut esc: bool = false;
    let mut i: usize = 0;
    while i < t.len()
        invariant
            i <= t@.len(),
            t@.len() <= usize::MAX,
            br <= i,
            bk <= i,
            (br as int, bk as int, ins, esc) == spec_balance(t@, i as int),
        decreases t@.len() - i,
    {
        let b: u8 = t[i];
        if esc {
            esc = false;
        } else if b == 92 {
            esc = true;
        } else if b == 34 {
            ins = !ins;
        } else if !ins {
            if b == 123 {
                br = br + 1;
            } else if b == 125 {
                if br > 0 {
                    br = br - 1;
                }
            } else if b == 91 {
                bk = bk + 1;
            } else if b == 93 {
                if bk > 0 {
                    bk = bk - 1;
                }
            }
        }
        i = i + 1;
    }
    br == 0 && bk == 0
}

/// Where the embedded JSON candidate starts: the first brace or
/// bracket.
pub open spec fn spec_json_start(t: Seq<u8>) -> int
    decreases t.len(),
{
    spec_json_start_from(t, 0)
}

pub open spec fn spec_json_start_from(t: Seq<u8>, from: int) -> int
    decreases t.len() - from,
{
    if from < 0 || from >= t.len() {
        t.len() as int
    } else if t[from] == 123 || t[from] == 91 {
        from
    } else {
        spec_json_start_from(t, from + 1)
    }
}

/// Strict JSON validity as a predicate: the quick screen holds and
/// the outside parser accepts the text, or its embedded part from the
/// first brace or bracket when that part is itself valid UTF-8.
pub open spec fn spec_json_verdict(data: Seq<u8>) -> bool {
    &&& data.len() > 0
    &&& spec_probably_json(data)
    &&& (json_accepted(data) || ({
        let part = spec_trimmed(data).skip(spec_json_start(spec_trimmed(data)));
        vstd::utf8::valid_utf8(part) && json_accepted(part)
    }))
}

/// Strict JSON validity: the quick screen, then the outside parser on
/// the text, falling back to the part from the first brace or bracket.
///
/// Success is owed whenever the screen passes and the parser accepts
/// the whole text; a hit always means the parser accepted the text or
/// its embedded part.
pub fn is_valid_json(data: &[u8]) -> (r: bool)
    ensures
        r == spec_json_verdict(data@),
        r ==> data@.len() > 0 && spec_probably_json(data@),
        (data@.len() > 0 && spec_probably_json(data@) && json_accepted(data@)) ==> r,
        r ==> json_accepted(data@) || json_accepted(
            spec_trimmed(data@).skip(spec_json_start(spec_trimmed(data@))),
        ),
{
    if !is_probably_json(data) {
        return false;
    }
    let full: bool = match bytes_as_str(data) {
        Some(s) => json_parses(s),
        None => {
            // The screen established valid UTF-8.
            proof {
                assert(false);
            }
            false
        },
    };
    if full {
        return true;
    }
    let t: &[u8] = trim_ascii(data);
    // Try the embedded part from the first brace or bracket.
    let mut start: usize = 0;
    while start < t.len() && !(t[start] == 123 || t[start] == 91)
        invariant
            start <= t@.len(),
            spec_json_start(t@) == spec_json_start_from(t@, start as int),
        decreases t@.len() - start,
    {
        start = start + 1;
    }
    proof {
        assert(spec_json_start(t@) == start);
    }
    let part: &[u8] = vstd::slice::slice_subrange(t, start, t.len());
    proof {
        assert(part@ =~= t@.skip(start as int));
    }
    match bytes_as_str(part) {
        Some(s) => json_parses(s),
        None => false,
    }
}

/// The URL heuristic: printable ASCII form starting with `http`, length
/// 15 to 200, naming the platform's host.
pub open spec fn spec_probably_youtube(data: Seq<u8>) -> bool {
    let t = spec_trimmed(data);
    &&& vstd::utf8::valid_utf8(data)
    &&& pattern_at(t, spec_http_bytes(), 0)
    &&& 15 <= t.len() <= 200
    &&& (spec_contains(t, spec_youtube_bytes()) || spec_contains(t, spec_youtu_be_bytes()))
}

pub open spec fn spec_http_bytes() -> Seq<u8> {
    seq![104u8, 116u8, 116u8, 112u8]
}

pub open spec fn spec_youtube_bytes() -> Seq<u8> {
    seq![121u8, 111u8, 117u8, 116u8, 117u8, 98u8, 101u8]
}

pub open spec fn spec_youtu_be_bytes() -> Seq<u8> {
    seq![121u8, 111u8, 117u8, 116u8, 117u8, 46u8, 98u8, 101u8]
}

/// `needle` occurs somewhere in `s`.
pub open spec fn spec_contains(s: Seq<u8>, needle: Seq<u8>) -> bool {
    exists|i: int| pattern_at(s, needle, i)
}

/// Fast heuristic: the bytes look like a URL of the platform.
pub fn is_probably_youtube_url(data: &[u8]) -> (r: bool)
    ensures
        r == spec_probably_youtube(data@),
{
    if bytes_as_str(data).is_none() {
        return false;
    }
    let t: &[u8] = trim_ascii(data);
    if t.len() < 15 || t.len() > 200 {
        return false;
    }
    let http: [u8; 4] = [104, 116, 116, 112];
    let starts: bool = t.len() >= 4 && t[0] == 104 && t[1] == 116 && t[2] == 116 && t[3] == 112;
    proof {
        if starts {
            assert(pattern_at(t@, spec_http_bytes(), 0)) by {
                assert(forall|j: int|
                    0 <= j < 4 ==> t@[0 + j] == #[trigger] spec_http_bytes()[j]);
            }
        } else {
            if pattern_at(t@, spec_http_bytes(), 0) {
                assert(t@[0] == spec_http_bytes()[0]);
                assert(t@[1] == spec_http_bytes()[1]);
                assert(t@[2] == spec_http_bytes()[2]);
                assert(t@[3] == spec_http_bytes()[3]);
            }
        }
    }
    if !starts {
        return false;
    }
    let yt: Vec<u8> = make_youtube_needle();
    let ytbe: Vec<u8> = make_youtu_be_needle();
    let has_yt: bool = contains_needle(t, yt.as_slice());
    let has_ytbe: bool = contains_needle(t, ytbe.as_slice());
    has_yt || has_ytbe
}

/// The byte needle `youtube`.
fn make_youtube_needle() -> (r: Vec<u8>)
    ensures
        r@ == spec_youtube_bytes(),
{
    let mut v: Vec<u8> = Vec::new();
    v.push(121);
    v.push(111);
    v.push(117);
    v.push(116);
    v.push(117);
    v.push(98);
    v.push(101);
    proof {
        assert(v@ =~= spec_youtube_bytes());
    }
    v
}

/// The byte needle `youtu.be`.
fn make_youtu_be_needle() -> (r: Vec<u8>)
    ensures
        r@ == spec_youtu_be_bytes(),
{
    let mut v: Vec<u8> = Vec::new();
    v.push(121);
    v.push(111);
    v.push(117);
    v.push(116);
    v.push(117);
    v.push(46);
    v.push(98);
    v.push(101);
    proof {
        assert(v@ =~= spec_youtu_be_bytes());
    }
    v
}

/// Substring search specialised to a boolean answer.
pub fn contains_needle(haystack: &[u8], needle: &[u8]) -> (r: bool)
    requires
        needle@.len() >= 1,
    ensures
        r == spec_contains(haystack@, needle@),
{
    match crate::simd_search::find_pattern_scalar(haystack, needle) {
        Some(i) => {
            proof {
                assert(pattern_at(haystack@, needle@, i as int));
            }
            true
        },
        None => false,
    }
}

} // verus!
