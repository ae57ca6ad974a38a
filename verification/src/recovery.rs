//! Post-recovery content cleaning and title extraction.

use vstd::prelude::*;
use crate::types::FileType;
use crate::validator::trim_ascii;

verus! {

/// A byte the cleaner keeps as it is: anything but NUL and the control
/// characters other than line feed, carriage return and tab.
pub open spec fn is_clean_byte(b: u8) -> bool {
    b >= 32 || b == 10 || b == 13 || b == 9
}

/// The cleaned form of text content: NUL bytes dropped, other control
/// characters turned into spaces.
pub open spec fn spec_cleaned(data: Seq<u8>) -> Seq<u8>
    decreases data.len(),
{
    if data.len() == 0 {
        Seq::empty()
    } else {
        let rest = spec_cleaned(data.drop_first());
        if data[0] == 0 {
            rest
        } else if is_clean_byte(data[0]) {
            seq![data[0]] + rest
        } else {
            seq![32u8] + rest
        }
    }
}

/// Clean recovered content: textual types are scrubbed of NUL and
/// control bytes, others pass through unchanged.
pub fn clean_file_content(data: &[u8], file_type: FileType) -> (r: Vec<u8>)
    ensures
        file_type == FileType::Json || file_type == FileType::Html || file_type == FileType::Txt
            ==> r@ == spec_cleaned(data@),
        file_type == FileType::Unknown ==> r@ == data@,
{
    match file_type {
        FileType::Json | FileType::Html | FileType::Txt => clean_text_content(data),
        FileType::Unknown => {
            let mut out: Vec<u8> = Vec::new();
            let mut i: usize = 0;
            while i < data.len()
                invariant
                    i <= data@.len(),
                    out@ == data@.take(i as int),
                decreases data@.len() - i,
            {
                out.push(data[i]);
                proof {
                    assert(out@ =~= data@.take(i + 1));
                }
                i = i + 1;
            }
            proof {
                assert(data@.take(data@.len() as int) =~= data@);
            }
            out
        },
    }
}

/// Scrub text: drop NUL bytes and replace other control characters
/// (except line feed, carriage return, tab) with spaces.
pub fn clean_text_content(data: &[u8]) -> (r: Vec<u8>)
    ensures
        r@ == spec_cleaned(data@),
{
    let mut out: Vec<u8> = Vec::new();
    let mut i: usize = data.len();
    // Build from the back so the recursive specification unfolds
    // head-first over the remaining suffix.
    let mut front: Vec<u8> = Vec::new();
    let mut j: usize = 0;
    while j < data.len()
        invariant
            j <= data@.len(),
            front@ == spec_cleaned_prefix(data@, j as int),
        decreases data@.len() - j,
    {
        let b: u8 = data[j];
        proof {
            lemma_cleaned_prefix_step(data@, j as int);
        }
        if b == 0 {
        } else if b >= 32 || b == 10 || b == 13 || b == 9 {
            front.push(b);
        } else {
            front.push(32);
        }
        j = j + 1;
    }
    proof {
        lemma_cleaned_prefix_full(data@, data@.len() as int);
    }
    front
}

/// The cleaned form of the first `n` bytes.
pub open spec fn spec_cleaned_prefix(data: Seq<u8>, n: int) -> Seq<u8> {
    spec_cleaned(data.take(n))
}

/// Cleaning one more byte appends its image.
proof fn lemma_cleaned_prefix_step(data: Seq<u8>, j: int)
    requires
        0 <= j < data.len(),
    ensures
        spec_cleaned(data.take(j + 1)) == spec_cleaned(data.take(j)) + (if data[j] == 0 {
            Seq::<u8>::empty()
        } else if is_clean_byte(data[j]) {
            seq![data[j]]
        } else {
            seq![32u8]
        }),
{
    lemma_cleaned_snoc(data.take(j), data[j]);
    assert(data.take(j + 1) =~= data.take(j).push(data[j]));
}

proof fn lemma_cleaned_snoc(s: Seq<u8>, b: u8)
    ensures
        spec_cleaned(s.push(b)) == spec_cleaned(s) + (if b == 0 {
            Seq::<u8>::empty()
        } else if is_clean_byte(b) {
            seq![b]
        } else {
            seq![32u8]
        }),
    decreases s.len(),
{
    let tail = if b == 0 {
        Seq::<u8>::empty()
    } else if is_clean_byte(b) {
        seq![b]
    } else {
        seq![32u8]
    };
    if s.len() == 0 {
        assert(s.push(b).drop_first() =~= Seq::<u8>::empty());
        assert(s.push(b)[0] == b);
        assert(spec_cleaned(Seq::<u8>::empty()) == Seq::<u8>::empty());
        assert(spec_cleaned(s.push(b)) =~= tail);
        assert(spec_cleaned(s) + tail =~= tail);
    } else {
        assert(s.push(b).drop_first() =~= s.drop_first().push(b));
        assert(s.push(b)[0] == s[0]);
        lemma_cleaned_snoc(s.drop_first(), b);
        let head = if s[0] == 0 {
            Seq::<u8>::empty()
        } else if is_clean_byte(s[0]) {
            seq![s[0]]
        } else {
            seq![32u8]
        };
        assert(spec_cleaned(s.push(b)) == head + (spec_cleaned(s.drop_first()) + tail));
        assert(head + (spec_cleaned(s.drop_first()) + tail) =~= (head + spec_cleaned(
            s.drop_first(),
        )) + tail);
    }
}

proof fn lemma_cleaned_prefix_full(data: Seq<u8>, n: int)
    requires
        n == data.len(),
    ensures
        spec_cleaned(data.take(n)) == spec_cleaned(data),
{
    assert(data.take(n) =~= data);
}

/// A character the file-name sanitiser keeps: ASCII alphanumerics,
/// space, dash and underscore.
pub open spec fn is_name_byte(b: u8) -> bool {
    (65 <= b <= 90) || (97 <= b <= 122) || (48 <= b <= 57) || b == 32 || b == 45 || b == 95
}

/// Keep only file-name-safe characters, trim, and cap at fifty bytes.
pub fn sanitize_filename(name: &[u8]) -> (r: Vec<u8>)
    ensures
        r@.len() <= 53,
        // Dots appear only as the trailing truncation marker.
        forall|i: int|
            0 <= i < r@.len() ==> (is_name_byte(#[trigger] r@[i]) || (r@[i] == 46 && r@.len()
                - 3 <= i)),
        // The name is trimmed: no space at either end.
        r@.len() > 0 ==> r@[0] != 32 && r@[r@.len() - 1] != 32,
{
    let mut kept: Vec<u8> = Vec::new();
    let mut i: usize = 0;
    while i < name.len()
        invariant
            i <= name@.len(),
            kept@.len() <= i,
            forall|k: int| 0 <= k < kept@.len() ==> is_name_byte(#[trigger] kept@[k]),
        decreases name@.len() - i,
    {
        let b: u8 = name[i];
        if (65 <= b && b <= 90) || (97 <= b && b <= 122) || (48 <= b && b <= 57) || b == 32
            || b == 45 || b == 95 {
            kept.push(b);
        }
        i = i + 1;
    }
    let trimmed: &[u8] = trim_ascii(kept.as_slice());
    proof {
        crate::validator::lemma_trimmed_within(kept@);
    }
    if trimmed.len() > 50 {
        let mut out: Vec<u8> = Vec::new();
        let mut k: usize = 0;
        while k < 47
            invariant
                k <= 47,
                out@.len() == k,
                trimmed@.len() > 50,
                forall|q: int| 0 <= q < out@.len() ==> out@[q] == trimmed@[q],
            decreases 47 - k,
        {
            out.push(trimmed[k]);
            k = k + 1;
        }
        out.push(46);
        out.push(46);
        out.push(46);
        proof {
            assert forall|q: int| 0 <= q < out@.len() implies (is_name_byte(#[trigger] out@[q])
                || (out@[q] == 46 && out@.len() - 3 <= q)) by {
                if q < 47 {
                    assert(out@[q] == trimmed@[q]);
                    assert(trimmed@[q] == kept@[crate::validator::spec_trim_start(kept@, 0) + q]);
                }
            }
            crate::validator::lemma_trimmed_ends(kept@);
            assert(out@[0] == trimmed@[0]);
            assert(!crate::validator::is_ws(trimmed@[0]));
        }
        out
    } else {
        let mut out: Vec<u8> = Vec::new();
        let mut k: usize = 0;
        while k < trimmed.len()
            invariant
                k <= trimmed@.len() <= 53,
                out@.len() == k,
                forall|q: int| 0 <= q < out@.len() ==> out@[q] == trimmed@[q],
                trimmed@.len() <= 50,
            decreases trimmed@.len() - k,
        {
            out.push(trimmed[k]);
            k = k + 1;
        }
        proof {
            assert forall|q: int| 0 <= q < out@.len() implies is_name_byte(#[trigger] out@[q])
                || out@[q] == 46 by {
                assert(out@[q] == trimmed@[q]);
                assert(trimmed@[q] == kept@[crate::validator::spec_trim_start(kept@, 0) + q]);
            }
            crate::validator::lemma_trimmed_ends(kept@);
            if out@.len() > 0 {
                assert(out@[0] == trimmed@[0]);
                assert(!crate::validator::is_ws(trimmed@[0]));
                assert(out@[out@.len() - 1] == trimmed@[out@.len() - 1]);
                assert(!crate::validator::is_ws(trimmed@[trimmed@.len() - 1]));
            }
        }
        out
    }
}

/// First non-empty line of a text, sanitised for use as a file name.
pub fn extract_first_line(content: &[u8]) -> (r: Option<Vec<u8>>)
    ensures
        r is Some ==> r->0@.len() <= 53,
        r is Some ==> forall|i: int|
            0 <= i < r->0@.len() ==> (is_name_byte(#[trigger] r->0@[i]) || (r->0@[i] == 46
                && r->0@.len() - 3 <= i)),
        r is Some && r->0@.len() > 0 ==> r->0@[0] != 32 && r->0@[r->0@.len() - 1] != 32,
{
    let n: usize = content.len();
    let mut i: usize = 0;
    while i < n
        invariant
            i <= n,
            n == content@.len(),
        decreases n - i,
    {
        let mut line_end: usize = i;
        while line_end < n && content[line_end] != 10
            invariant
                i <= line_end <= n,
                n == content@.len(),
            decreases n - line_end,
        {
            line_end = line_end + 1;
        }
        let line: &[u8] = vstd::slice::slice_subrange(content, i, line_end);
        let t: &[u8] = trim_ascii(line);
        if t.len() > 0 {
            return Some(sanitize_filename(line));
        }
        if line_end >= n {
            return None;
        }
        i = line_end + 1;
    }
    None
}

/// Extract a usable title from recovered content, by type: the HTML
/// `title` element, a JSON `"title"` or `"name"` field, or the first
/// non-empty line of plain text.
pub fn extract_title(data: &[u8], file_type: FileType) -> (r: Option<Vec<u8>>)
    ensures
        r is Some ==> r->0@.len() <= 53,
        r is Some ==> forall|i: int|
            0 <= i < r->0@.len() ==> (is_name_byte(#[trigger] r->0@[i]) || (r->0@[i] == 46
                && r->0@.len() - 3 <= i)),
        r is Some && r->0@.len() > 0 ==> r->0@[0] != 32 && r->0@[r->0@.len() - 1] != 32,
        file_type == FileType::Unknown ==> r is None,
        file_type == FileType::Json && data@.len() > 10240 ==> r is None,
{
    match file_type {
        FileType::Html => extract_delimited_title(data),
        FileType::Json => {
            if data.len() > 10240 {
                // Too large to search as a title candidate.
                return None;
            }
            extract_json_name(data)
        },
        FileType::Txt => extract_first_line(data),
        FileType::Unknown => None,
    }
}

/// The bytes between `<title>` and `</title>`, sanitised.
fn extract_delimited_title(data: &[u8]) -> (r: Option<Vec<u8>>)
    ensures
        r is Some ==> r->0@.len() <= 53,
        r is Some ==> forall|i: int|
            0 <= i < r->0@.len() ==> (is_name_byte(#[trigger] r->0@[i]) || (r->0@[i] == 46
                && r->0@.len() - 3 <= i)),
        r is Some && r->0@.len() > 0 ==> r->0@[0] != 32 && r->0@[r->0@.len() - 1] != 32,
{
    let mut open_tag: Vec<u8> = Vec::new();
    open_tag.push(60);
    open_tag.push(116);
    open_tag.push(105);
    open_tag.push(116);
    open_tag.push(108);
    open_tag.push(101);
    open_tag.push(62);
    let mut close_tag: Vec<u8> = Vec::new();
    close_tag.push(60);
    close_tag.push(47);
    close_tag.push(116);
    close_tag.push(105);
    close_tag.push(116);
    close_tag.push(108);
    close_tag.push(101);
    close_tag.push(62);
    let n: usize = data.len();
    if let Some(start) = crate::simd_search::find_pattern_scalar(data, open_tag.as_slice()) {
        proof {
            assert(start + open_tag@.len() <= data@.len());
            assert(data@.len() == n <= usize::MAX);
        }
        let body_start: usize = start + open_tag.len();
        let rest: &[u8] = vstd::slice::slice_subrange(data, body_start, data.len());
        if let Some(end) = crate::simd_search::find_pattern_scalar(rest, close_tag.as_slice()) {
            let raw: &[u8] = vstd::slice::slice_subrange(rest, 0, end);
            return Some(sanitize_filename(raw));
        }
    }
    None
}

/// The value of a JSON `"title"` or `"name"` field, sanitised.
fn extract_json_name(data: &[u8]) -> (r: Option<Vec<u8>>)
    ensures
        r is Some ==> r->0@.len() <= 53,
        r is Some ==> forall|i: int|
            0 <= i < r->0@.len() ==> (is_name_byte(#[trigger] r->0@[i]) || (r->0@[i] == 46
                && r->0@.len() - 3 <= i)),
        r is Some && r->0@.len() > 0 ==> r->0@[0] != 32 && r->0@[r->0@.len() - 1] != 32,
{
    let mut title_key: Vec<u8> = Vec::new();
    title_key.push(34);
    title_key.push(116);
    title_key.push(105);
    title_key.push(116);
    title_key.push(108);
    title_key.push(101);
    title_key.push(34);
    title_key.push(58);
    title_key.push(34);
    match extract_after_key(data, &title_key) {
        Some(v) => Some(v),
        None => {
            let mut name_key: Vec<u8> = Vec::new();
            name_key.push(34);
            name_key.push(110);
            name_key.push(97);
            name_key.push(109);
            name_key.push(101);
            name_key.push(34);
            name_key.push(58);
            name_key.push(34);
            extract_after_key(data, &name_key)
        },
    }
}

/// The bytes between a key and the next quote, sanitised.
fn extract_after_key(data: &[u8], key: &Vec<u8>) -> (r: Option<Vec<u8>>)
    ensures
        r is Some ==> r->0@.len() <= 53,
        r is Some ==> forall|i: int|
            0 <= i < r->0@.len() ==> (is_name_byte(#[trigger] r->0@[i]) || (r->0@[i] == 46
                && r->0@.len() - 3 <= i)),
        r is Some && r->0@.len() > 0 ==> r->0@[0] != 32 && r->0@[r->0@.len() - 1] != 32,
{
    let n: usize = data.len();
    if let Some(start) = crate::simd_search::find_pattern_scalar(data, key.as_slice()) {
        proof {
            assert(start + key@.len() <= data@.len());
            assert(data@.len() == n <= usize::MAX);
        }
        let body_start: usize = start + key.len();
        let rest: &[u8] = vstd::slice::slice_subrange(data, body_start, data.len());
        let mut quote: Vec<u8> = Vec::new();
        quote.push(34);
        if let Some(end) = crate::simd_search::find_pattern_scalar(rest, quote.as_slice()) {
            let raw: &[u8] = vstd::slice::slice_subrange(rest, 0, end);
            return Some(sanitize_filename(raw));
        }
    }
    None
}

} // verus!
