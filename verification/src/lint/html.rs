use vstd::prelude::*;

use crate::diagnostic::Range;
use crate::lint::source::{range_in_bytes, span_range};
use crate::parser::Point;
use crate::text::string_from_utf8;
use vstd::string::StringSliceAdditionalSpecFns;
use vstd::utf8::{encode_utf8, is_ascii_chars};

verus! {

broadcast use vstd::utf8::is_ascii_chars_encode_utf8;

// ---------------------------------------------------------------------------
// Byte classes
// ---------------------------------------------------------------------------

/// `A`..`Z` or `a`..`z`.
pub open spec fn is_ascii_letter(b: u8) -> bool {
    (65 <= b <= 90) || (97 <= b <= 122)
}

/// A byte that may continue a tag name: letters, digits, `-`, `:` and `_`.
pub open spec fn is_name_byte(b: u8) -> bool {
    is_ascii_letter(b) || (48 <= b <= 57) || b == 45 || b == 58 || b == 95
}

/// Space, tab, line feed or carriage return.
pub open spec fn is_tag_space(b: u8) -> bool {
    b == 32 || b == 9 || b == 10 || b == 13
}

/// ASCII lower-casing of one byte; other bytes are unchanged.
pub open spec fn ascii_lower(b: u8) -> u8 {
    if 65 <= b <= 90 {
        (b + 32) as u8
    } else {
        b
    }
}

/// The byte at `i`, if there is one.
pub open spec fn byte_at(bytes: Seq<u8>, i: int) -> Option<u8> {
    if 0 <= i < bytes.len() {
        Some(bytes[i])
    } else {
        None
    }
}

/// An index as an optional mathematical integer.
pub open spec fn opt_int(o: Option<usize>) -> Option<int> {
    match o {
        Some(v) => Some(v as int),
        None => None,
    }
}

fn is_ascii_letter_exec(b: u8) -> (res: bool)
    ensures
        res == is_ascii_letter(b),
{
    (65 <= b && b <= 90) || (97 <= b && b <= 122)
}

fn is_name_byte_exec(b: u8) -> (res: bool)
    ensures
        res == is_name_byte(b),
{
    is_ascii_letter_exec(b) || (48 <= b && b <= 57) || b == 45 || b == 58 || b == 95
}

fn ascii_lower_exec(b: u8) -> (res: u8)
    ensures
        res == ascii_lower(b),
{
    if 65 <= b && b <= 90 {
        b + 32
    } else {
        b
    }
}

/// Whether a byte after a tag name ends the name: anything but a name byte, or the end of text.
pub open spec fn tag_name_boundary(byte: Option<u8>) -> bool {
    match byte {
        Some(b) => !is_name_byte(b),
        None => true,
    }
}

/// Whether `byte` (absent at the end of the text) ends a tag name.
pub fn is_tag_name_boundary(byte: Option<u8>) -> (res: bool)
    ensures
        res == tag_name_boundary(byte),
{
    match byte {
        Some(b) => !is_name_byte_exec(b),
        None => true,
    }
}

// ---------------------------------------------------------------------------
// Pattern search
// ---------------------------------------------------------------------------

/// `pattern` occurs at `pos` of `bytes`, compared ASCII case-insensitively when `fold`.
pub open spec fn matches_at(bytes: Seq<u8>, pos: int, pattern: Seq<u8>, fold: bool) -> bool {
    &&& 0 <= pos
    &&& pos + pattern.len() <= bytes.len()
    &&& forall|k: int|
        0 <= k < pattern.len() ==> if fold {
            ascii_lower(#[trigger] bytes[pos + k]) == ascii_lower(pattern[k])
        } else {
            bytes[pos + k] == pattern[k]
        }
}

/// The first position at or after `from` where `pattern` occurs.
pub open spec fn find_from(bytes: Seq<u8>, from: int, pattern: Seq<u8>, fold: bool) -> Option<int>
    decreases bytes.len() - from,
{
    if from < 0 || from + pattern.len() > bytes.len() {
        None
    } else if matches_at(bytes, from, pattern, fold) {
        Some(from)
    } else {
        find_from(bytes, from + 1, pattern, fold)
    }
}

pub proof fn lemma_find_from(bytes: Seq<u8>, from: int, pattern: Seq<u8>, fold: bool)
    requires
        0 <= from,
    ensures
        find_from(bytes, from, pattern, fold) matches Some(p) ==> {
            &&& from <= p
            &&& p + pattern.len() <= bytes.len()
            &&& matches_at(bytes, p, pattern, fold)
            &&& forall|q: int| from <= q < p ==> !matches_at(bytes, q, pattern, fold)
        },
        find_from(bytes, from, pattern, fold) is None ==> forall|q: int|
            from <= q ==> !matches_at(bytes, q, pattern, fold),
    decreases bytes.len() - from,
{
    if from < 0 || from + pattern.len() > bytes.len() {
    } else if matches_at(bytes, from, pattern, fold) {
    } else {
        lemma_find_from(bytes, from + 1, pattern, fold);
    }
}

fn matches_at_exec(bytes: &[u8], pos: usize, pattern: &[u8], fold: bool) -> (res: bool)
    ensures
        res == matches_at(bytes@, pos as int, pattern@, fold),
{
    if pattern.len() > bytes.len() || pos > bytes.len() - pattern.len() {
        return false;
    }
    let mut k: usize = 0;
    while k < pattern.len()
        invariant
            pos + pattern.len() <= bytes.len(),
            k <= pattern@.len(),
            forall|j: int|
                0 <= j < k ==> if fold {
                    ascii_lower(#[trigger] bytes@[pos + j]) == ascii_lower(pattern@[j])
                } else {
                    bytes@[pos + j] == pattern@[j]
                },
        decreases pattern.len() - k,
    {
        let same = if fold {
            ascii_lower_exec(bytes[pos + k]) == ascii_lower_exec(pattern[k])
        } else {
            bytes[pos + k] == pattern[k]
        };
        if !same {
            return false;
        }
        k = k + 1;
    }
    true
}

fn find_bytes(bytes: &[u8], from: usize, pattern: &[u8], fold: bool) -> (res: Option<usize>)
    ensures
        opt_int(res) == find_from(bytes@, from as int, pattern@, fold),
{
    if pattern.len() > bytes.len() {
        return None;
    }
    let last = bytes.len() - pattern.len();
    let mut p = from;
    while p <= last
        invariant
            last + pattern@.len() == bytes@.len(),
            from <= p,
            find_from(bytes@, from as int, pattern@, fold) == find_from(bytes@, p as int, pattern@, fold),
        decreases last + 1 - p,
    {
        if matches_at_exec(bytes, p, pattern, fold) {
            return Some(p);
        }
        if p == last {
            assert(find_from(bytes@, p + 1, pattern@, fold) is None);
            return None;
        }
        p = p + 1;
    }
    None
}

/// The first position at or after `from` where `needle` occurs, compared ASCII
/// case-insensitively.
pub fn find_case_insensitive(bytes: &[u8], from: usize, needle: &[u8]) -> (res: Option<usize>)
    ensures
        opt_int(res) == find_from(bytes@, from as int, needle@, true),
{
    find_bytes(bytes, from, needle, true)
}

// ---------------------------------------------------------------------------
// End of a tag
// ---------------------------------------------------------------------------

/// The first `>` at or after `i` that is not inside a quoted attribute value,
/// where `quote` is the quote that is open when the scan reaches `i`.
pub open spec fn tag_end_from(bytes: Seq<u8>, i: int, quote: Option<u8>) -> Option<int>
    decreases bytes.len() - i,
{
    if i < 0 || i >= bytes.len() {
        None
    } else {
        let b = bytes[i];
        match quote {
            None => if b == 34 || b == 39 {
                tag_end_from(bytes, i + 1, Some(b))
            } else if b == 62 {
                Some(i)
            } else {
                tag_end_from(bytes, i + 1, None)
            },
            Some(q) => if b == q {
                tag_end_from(bytes, i + 1, None)
            } else {
                tag_end_from(bytes, i + 1, Some(q))
            },
        }
    }
}

pub proof fn lemma_tag_end(bytes: Seq<u8>, i: int, quote: Option<u8>)
    ensures
        tag_end_from(bytes, i, quote) matches Some(e) ==> i <= e < bytes.len() && bytes[e] == 62,
    decreases bytes.len() - i,
{
    if i < 0 || i >= bytes.len() {
    } else {
        let b = bytes[i];
        match quote {
            None => if b == 34 || b == 39 {
                lemma_tag_end(bytes, i + 1, Some(b));
            } else if b == 62 {
            } else {
                lemma_tag_end(bytes, i + 1, None);
            },
            Some(q) => if b == q {
                lemma_tag_end(bytes, i + 1, None);
            } else {
                lemma_tag_end(bytes, i + 1, Some(q));
            },
        }
    }
}

/// The index of the `>` that ends the tag whose text continues at `start`.
pub fn find_tag_end(bytes: &[u8], start: usize) -> (res: Option<usize>)
    ensures
        opt_int(res) == tag_end_from(bytes@, start as int, None),
{
    let mut quote: Option<u8> = None;
    let mut index = start;
    while index < bytes.len()
        invariant
            start <= index,
            tag_end_from(bytes@, start as int, None) == tag_end_from(bytes@, index as int, quote),
        decreases bytes.len() - index,
    {
        let b = bytes[index];
        match quote {
            None => {
                if b == 34 || b == 39 {
                    quote = Some(b);
                } else if b == 62 {
                    return Some(index);
                }
            },
            Some(q) => {
                if b == q {
                    quote = None;
                }
            },
        }
        index = index + 1;
    }
    None
}

// ---------------------------------------------------------------------------
// Tag names
// ---------------------------------------------------------------------------

/// The first index at or after `i` that does not hold tag white space.
pub open spec fn skip_spaces(bytes: Seq<u8>, i: int) -> int
    decreases bytes.len() - i,
{
    if 0 <= i < bytes.len() && is_tag_space(bytes[i]) {
        skip_spaces(bytes, i + 1)
    } else {
        i
    }
}

/// The first index at or after `i` that does not hold a name byte.
pub open spec fn name_end(bytes: Seq<u8>, i: int) -> int
    decreases bytes.len() - i,
{
    if 0 <= i < bytes.len() && is_name_byte(bytes[i]) {
        name_end(bytes, i + 1)
    } else {
        i
    }
}

pub proof fn lemma_name_end(bytes: Seq<u8>, i: int)
    ensures
        i <= name_end(bytes, i),
        0 <= i <= bytes.len() ==> name_end(bytes, i) <= bytes.len(),
        forall|k: int| i <= k < name_end(bytes, i) ==> is_name_byte(#[trigger] bytes[k]),
        0 <= name_end(bytes, i) < bytes.len() ==> !is_name_byte(bytes[name_end(bytes, i)]),
    decreases bytes.len() - i,
{
    if 0 <= i < bytes.len() && is_name_byte(bytes[i]) {
        lemma_name_end(bytes, i + 1);
    }
}

/// Characters of the ASCII lower-cased bytes.
pub open spec fn lower_chars(bytes: Seq<u8>) -> Seq<char> {
    bytes.map_values(|b: u8| ascii_lower(b) as char)
}

/// The lower-cased tag name that starts at `start` after optional white space,
/// with the byte offsets where the name begins and ends.
pub open spec fn tag_name_at(bytes: Seq<u8>, start: int) -> Option<(Seq<char>, int, int)> {
    let s = skip_spaces(bytes, start);
    if 0 <= s < bytes.len() && is_ascii_letter(bytes[s]) {
        let e = name_end(bytes, s);
        Some((lower_chars(bytes.subrange(s, e)), s, e))
    } else {
        None
    }
}

proof fn lemma_skip_spaces(bytes: Seq<u8>, i: int)
    ensures
        i <= skip_spaces(bytes, i),
        0 <= i <= bytes.len() ==> skip_spaces(bytes, i) <= bytes.len(),
        forall|k: int| i <= k < skip_spaces(bytes, i) ==> is_tag_space(#[trigger] bytes[k]),
        0 <= skip_spaces(bytes, i) < bytes.len() ==> !is_tag_space(bytes[skip_spaces(bytes, i)]),
    decreases bytes.len() - i,
{
    if 0 <= i < bytes.len() && is_tag_space(bytes[i]) {
        lemma_skip_spaces(bytes, i + 1);
    }
}

/// A tag name found at `start` follows white space only, begins with an ASCII
/// letter, runs over name bytes as far as they go, and is given lower-cased;
/// there is none when the first byte after the white space is not a letter.
pub proof fn lemma_tag_name_at(bytes: Seq<u8>, start: int)
    requires
        0 <= start <= bytes.len(),
    ensures
        match tag_name_at(bytes, start) {
            Some((name, s, e)) => {
                &&& start <= s < e <= bytes.len()
                &&& forall|k: int| start <= k < s ==> is_tag_space(#[trigger] bytes[k])
                &&& is_ascii_letter(bytes[s])
                &&& forall|k: int| s <= k < e ==> is_name_byte(#[trigger] bytes[k])
                &&& (e == bytes.len() || !is_name_byte(bytes[e]))
                &&& name == lower_chars(bytes.subrange(s, e))
            },
            None => {
                let s = skip_spaces(bytes, start);
                &&& forall|k: int| start <= k < s ==> is_tag_space(#[trigger] bytes[k])
                &&& (s == bytes.len() || !is_ascii_letter(bytes[s]))
            },
        },
{
    let s = skip_spaces(bytes, start);
    lemma_skip_spaces(bytes, start);
    if 0 <= s < bytes.len() && is_ascii_letter(bytes[s]) {
        lemma_name_end(bytes, s);
        lemma_name_end(bytes, s + 1);
        assert(is_name_byte(bytes[s]));
    }
}

/// A string of the ASCII lower-cased name bytes `bytes[start..end]`.
fn lowered_name(bytes: &[u8], start: usize, end: usize) -> (name: String)
    requires
        start <= end <= bytes@.len(),
        forall|k: int| start <= k < end ==> is_name_byte(#[trigger] bytes@[k]),
    ensures
        name@ == lower_chars(bytes@.subrange(start as int, end as int)),
{
    let mut lowered: Vec<u8> = Vec::new();
    let mut k = start;
    while k < end
        invariant
            start <= k <= end <= bytes@.len(),
            forall|j: int| start <= j < end ==> is_name_byte(#[trigger] bytes@[j]),
            lowered@.len() == k - start,
            forall|j: int|
                0 <= j < lowered@.len() ==> #[trigger] lowered@[j] == ascii_lower(
                    bytes@[start + j],
                ),
        decreases end - k,
    {
        lowered.push(ascii_lower_exec(bytes[k]));
        k = k + 1;
    }
    let ghost chars = lower_chars(bytes@.subrange(start as int, end as int));
    proof {
        assert forall|j: int| 0 <= j < chars.len() implies '\0' <= #[trigger] chars[j] <= '\u{7f}' by {
            assert(is_name_byte(bytes@[start + j]));
        }
        assert(is_ascii_chars(chars));
        assert(encode_utf8(chars) =~= lowered@);
        vstd::utf8::encode_utf8_valid_utf8(chars);
        vstd::utf8::encode_utf8_decode_utf8(chars);
    }
    match string_from_utf8(lowered) {
        Some(s) => s,
        None => {
            proof {
                assert(false);
            }
            String::new()
        },
    }
}

/// Reads a tag name at `start` (after optional white space): the lower-cased
/// name and the byte offsets where it begins and ends.
pub fn read_tag_name(bytes: &[u8], start: usize) -> (res: Option<(String, usize, usize)>)
    ensures
        match res {
            Some((name, s, e)) => tag_name_at(bytes@, start as int) == Some(
                (name@, s as int, e as int),
            ),
            None => tag_name_at(bytes@, start as int) is None,
        },
{
    let mut index = start;
    while index < bytes.len() && (bytes[index] == 32 || bytes[index] == 9 || bytes[index] == 10
        || bytes[index] == 13)
        invariant
            start <= index,
            skip_spaces(bytes@, start as int) == skip_spaces(bytes@, index as int),
        decreases bytes.len() - index,
    {
        index = index + 1;
    }
    let name_start = index;
    if !(index < bytes.len() && is_ascii_letter_exec(bytes[index])) {
        return None;
    }
    while index < bytes.len() && is_name_byte_exec(bytes[index])
        invariant
            name_start <= index <= bytes@.len(),
            name_end(bytes@, name_start as int) == name_end(bytes@, index as int),
        decreases bytes.len() - index,
    {
        index = index + 1;
    }
    proof {
        lemma_name_end(bytes@, name_start as int);
    }
    let name = lowered_name(bytes, name_start, index);
    Some((name, name_start, index))
}


// ---------------------------------------------------------------------------
// Self-closing tags
// ---------------------------------------------------------------------------

/// A three-byte UTF-8 encoding of a Unicode white-space character
/// (U+1680, U+2000..U+200A, U+2028, U+2029, U+202F, U+205F, U+3000).
pub open spec fn is_wide_space(a: u8, b: u8, c: u8) -> bool {
    ||| a == 0xE1 && b == 0x9A && c == 0x80
    ||| a == 0xE2 && b == 0x80 && ((0x80 <= c <= 0x8A) || c == 0xA8 || c == 0xA9 || c == 0xAF)
    ||| a == 0xE2 && b == 0x81 && c == 0x9F
    ||| a == 0xE3 && b == 0x80 && c == 0x80
}

/// The number of bytes of the white-space character that ends `bytes`, or 0:
/// U+0009..U+000D and U+0020 (one byte), U+0085 and U+00A0 (two bytes), or a
/// three-byte white-space character.
pub open spec fn trailing_space_width(bytes: Seq<u8>) -> int {
    let n = bytes.len() as int;
    if n >= 1 && ((9 <= bytes[n - 1] <= 13) || bytes[n - 1] == 32) {
        1
    } else if n >= 2 && bytes[n - 2] == 0xC2 && (bytes[n - 1] == 0x85 || bytes[n - 1] == 0xA0) {
        2
    } else if n >= 3 && is_wide_space(bytes[n - 3], bytes[n - 2], bytes[n - 1]) {
        3
    } else {
        0
    }
}

/// `bytes` without its trailing white space.
pub open spec fn trim_trailing_space(bytes: Seq<u8>) -> Seq<u8>
    decreases bytes.len(),
{
    let w = trailing_space_width(bytes);
    if w > 0 {
        trim_trailing_space(bytes.take(bytes.len() - w))
    } else {
        bytes
    }
}

/// The tag text ends in `/` once trailing white space is dropped.
pub open spec fn self_closing(bytes: Seq<u8>) -> bool {
    let t = trim_trailing_space(bytes);
    t.len() > 0 && t.last() == 47
}

fn trailing_space_width_at(bytes: &[u8], start: usize, stop: usize) -> (w: usize)
    requires
        start <= stop <= bytes@.len(),
    ensures
        w == trailing_space_width(bytes@.subrange(start as int, stop as int)),
{
    let ghost t = bytes@.subrange(start as int, stop as int);
    let n = stop - start;
    if n >= 1 && ((9 <= bytes[stop - 1] && bytes[stop - 1] <= 13) || bytes[stop - 1] == 32) {
        assert(t[n - 1] == bytes@[stop - 1]);
        1
    } else if n >= 2 && bytes[stop - 2] == 0xC2 && (bytes[stop - 1] == 0x85 || bytes[stop - 1]
        == 0xA0) {
        assert(t[n - 1] == bytes@[stop - 1] && t[n - 2] == bytes@[stop - 2]);
        2
    } else if n >= 3 && is_wide_space_exec(bytes[stop - 3], bytes[stop - 2], bytes[stop - 1]) {
        assert(t[n - 1] == bytes@[stop - 1] && t[n - 2] == bytes@[stop - 2] && t[n - 3]
            == bytes@[stop - 3]);
        3
    } else {
        proof {
            if n >= 1 {
                assert(t[n - 1] == bytes@[stop - 1]);
            }
            if n >= 2 {
                assert(t[n - 2] == bytes@[stop - 2]);
            }
            if n >= 3 {
                assert(t[n - 3] == bytes@[stop - 3]);
            }
        }
        0
    }
}

fn is_wide_space_exec(a: u8, b: u8, c: u8) -> (res: bool)
    ensures
        res == is_wide_space(a, b, c),
{
    (a == 0xE1 && b == 0x9A && c == 0x80) || (a == 0xE2 && b == 0x80 && ((0x80 <= c && c <= 0x8A)
        || c == 0xA8 || c == 0xA9 || c == 0xAF)) || (a == 0xE2 && b == 0x81 && c == 0x9F) || (a
        == 0xE3 && b == 0x80 && c == 0x80)
}

/// Whether the tag text `bytes[start..end]` (from `<` up to, not including, `>`)
/// closes itself.
pub fn is_self_closing_source(bytes: &[u8], start: usize, end: usize) -> (res: bool)
    requires
        start <= end <= bytes@.len(),
    ensures
        res == self_closing(bytes@.subrange(start as int, end as int)),
{
    let mut stop = end;
    loop
        invariant
            start <= stop <= end <= bytes@.len(),
            trim_trailing_space(bytes@.subrange(start as int, end as int)) == trim_trailing_space(
                bytes@.subrange(start as int, stop as int),
            ),
        ensures
            start <= stop <= end,
            trim_trailing_space(bytes@.subrange(start as int, end as int)) == bytes@.subrange(
                start as int,
                stop as int,
            ),
        decreases stop - start,
    {
        let w = trailing_space_width_at(bytes, start, stop);
        if w == 0 {
            assert(trim_trailing_space(bytes@.subrange(start as int, stop as int))
                == bytes@.subrange(start as int, stop as int));
            break;
        }
        proof {
            let t = bytes@.subrange(start as int, stop as int);
            assert(t.take(t.len() - w) =~= bytes@.subrange(start as int, stop - w));
        }
        stop = stop - w;
    }
    let ghost t = bytes@.subrange(start as int, stop as int);
    if stop > start {
        assert(t.last() == bytes@[stop - 1]);
        bytes[stop - 1] == 47
    } else {
        false
    }
}

// ---------------------------------------------------------------------------
// Script bodies
// ---------------------------------------------------------------------------

/// The byte range of the body of one `<script>` element.
#[derive(Debug, Clone, Copy, PartialEq, Eq, Structural)]
pub struct ScriptBodyRange {
    pub start_byte: usize,
    pub end_byte: usize,
}

/// `<script`
pub open spec fn script_open() -> Seq<u8> {
    seq![60u8, 115u8, 99u8, 114u8, 105u8, 112u8, 116u8]
}

/// `</script`
pub open spec fn script_close() -> Seq<u8> {
    seq![60u8, 47u8, 115u8, 99u8, 114u8, 105u8, 112u8, 116u8]
}

fn script_open_bytes() -> (v: Vec<u8>)
    ensures
        v@ == script_open(),
{
    let mut v = Vec::new();
    v.push(60);
    v.push(115);
    v.push(99);
    v.push(114);
    v.push(105);
    v.push(112);
    v.push(116);
    assert(v@ =~= script_open());
    v
}

fn script_close_bytes() -> (v: Vec<u8>)
    ensures
        v@ == script_close(),
{
    let mut v = Vec::new();
    v.push(60);
    v.push(47);
    v.push(115);
    v.push(99);
    v.push(114);
    v.push(105);
    v.push(112);
    v.push(116);
    assert(v@ =~= script_close());
    v
}

/// The script bodies found by scanning `bytes` from `i`: an opening tag named
/// `script` (any case), up to its `>`, then everything up to the next `</script`
/// (any case); scanning goes on after that `</script`.
pub open spec fn script_ranges_from(bytes: Seq<u8>, i: int) -> Seq<ScriptBodyRange>
    decreases bytes.len() - i,
{
    if i < 0 || i >= bytes.len() {
        seq![]
    } else {
        let found = find_from(bytes, i, script_open(), true);
        proof {
            lemma_find_from(bytes, i, script_open(), true);
        }
        if found is None {
            seq![]
        } else {
            let open_start = found->0;
            if !tag_name_boundary(byte_at(bytes, open_start + 7)) {
                script_ranges_from(bytes, open_start + 1)
            } else {
                let open_end = tag_end_from(bytes, open_start + 1, None);
                proof {
                    lemma_tag_end(bytes, open_start + 1, None);
                }
                if open_end is None {
                    seq![]
                } else {
                    let body_start = open_end->0 + 1;
                    let close = find_from(bytes, body_start, script_close(), true);
                    proof {
                        lemma_find_from(bytes, body_start, script_close(), true);
                    }
                    if close is None {
                        seq![]
                    } else {
                        let close_start = close->0;
                        seq![
                            ScriptBodyRange {
                                start_byte: body_start as usize,
                                end_byte: close_start as usize,
                            },
                        ] + script_ranges_from(bytes, close_start + 8)
                    }
                }
            }
        }
    }
}

/// The byte ranges of the bodies of `<script>` elements in `source`, in order.
pub fn script_body_ranges(source: &str) -> (ranges: Vec<ScriptBodyRange>)
    ensures
        ranges@ == script_ranges_from(source.spec_bytes(), 0),
{
    script_body_ranges_in(source.as_bytes())
}

/// [`script_body_ranges`] on the bytes of the text.
pub fn script_body_ranges_in(bytes: &[u8]) -> (ranges: Vec<ScriptBodyRange>)
    ensures
        ranges@ == script_ranges_from(bytes@, 0),
{
    let open = script_open_bytes();
    let close = script_close_bytes();
    let mut ranges: Vec<ScriptBodyRange> = Vec::new();
    let mut index: usize = 0;
    while index < bytes.len()
        invariant
            open@ == script_open(),
            close@ == script_close(),
            ranges@ + script_ranges_from(bytes@, index as int) == script_ranges_from(bytes@, 0),
        decreases bytes.len() - index,
    {
        let found = find_case_insensitive(bytes, index, open.as_slice());
        proof {
            lemma_find_from(bytes@, index as int, script_open(), true);
        }
        let open_start = match found {
            Some(p) => p,
            None => {
                assert(ranges@ + seq![] =~= ranges@);
                return ranges;
            },
        };
        let after = if open_start + 7 < bytes.len() {
            Some(bytes[open_start + 7])
        } else {
            None
        };
        assert(after == byte_at(bytes@, open_start + 7));
        if !is_tag_name_boundary(after) {
            index = open_start + 1;
            continue;
        }
        proof {
            lemma_tag_end(bytes@, open_start + 1, None);
        }
        let open_end = match find_tag_end(bytes, open_start + 1) {
            Some(e) => e,
            None => {
                assert(ranges@ + seq![] =~= ranges@);
                return ranges;
            },
        };
        let body_start = open_end + 1;
        proof {
            lemma_find_from(bytes@, body_start as int, script_close(), true);
        }
        let close_start = match find_case_insensitive(bytes, body_start, close.as_slice()) {
            Some(c) => c,
            None => {
                assert(ranges@ + seq![] =~= ranges@);
                return ranges;
            },
        };
        let ghost before = ranges@;
        ranges.push(ScriptBodyRange { start_byte: body_start, end_byte: close_start });
        proof {
            assert(before + script_ranges_from(bytes@, index as int) =~= ranges@
                + script_ranges_from(bytes@, close_start + 8));
        }
        index = close_start + 8;
    }
    assert(ranges@ + seq![] =~= ranges@);
    ranges
}


// ---------------------------------------------------------------------------
// Tag events
// ---------------------------------------------------------------------------

/// One HTML tag found in a fragment, with its lower-cased name and its range.
#[derive(Debug, Clone, PartialEq, Eq)]
pub enum TagEvent {
    Open { name: String, range: Range },
    Close { name: String, range: Range },
    SelfClosing { name: String, range: Range },
}

/// The mathematical value of a [`TagEvent`].
pub enum TagEventModel {
    Open { name: Seq<char>, range: Range },
    Close { name: Seq<char>, range: Range },
    SelfClosing { name: Seq<char>, range: Range },
}

impl View for TagEvent {
    type V = TagEventModel;

    open spec fn view(&self) -> TagEventModel {
        match self {
            TagEvent::Open { name, range } => TagEventModel::Open { name: name@, range: *range },
            TagEvent::Close { name, range } => TagEventModel::Close { name: name@, range: *range },
            TagEvent::SelfClosing { name, range } => TagEventModel::SelfClosing {
                name: name@,
                range: *range,
            },
        }
    }
}

impl DeepView for TagEvent {
    type V = TagEventModel;

    open spec fn deep_view(&self) -> TagEventModel {
        self@
    }
}

/// `<!--`
pub open spec fn comment_open() -> Seq<u8> {
    seq![60u8, 33u8, 45u8, 45u8]
}

/// `-->`
pub open spec fn comment_close() -> Seq<u8> {
    seq![45u8, 45u8, 62u8]
}

fn comment_open_bytes() -> (v: Vec<u8>)
    ensures
        v@ == comment_open(),
{
    let mut v = Vec::new();
    v.push(60);
    v.push(33);
    v.push(45);
    v.push(45);
    assert(v@ =~= comment_open());
    v
}

fn comment_close_bytes() -> (v: Vec<u8>)
    ensures
        v@ == comment_close(),
{
    let mut v = Vec::new();
    v.push(45);
    v.push(45);
    v.push(62);
    assert(v@ =~= comment_close());
    v
}

/// Where scanning resumes after a comment that opens at `i`: after the first
/// `-->` at or after `i`, or at the end of the text.
pub open spec fn after_comment(bytes: Seq<u8>, i: int) -> int {
    match find_from(bytes, i, comment_close(), false) {
        Some(p) => p + 3,
        None => bytes.len() as int,
    }
}

/// The tags found by scanning `bytes` from `i`. Comments are skipped, so are
/// `<!...>` and `<?...>` declarations; a `<` that starts no tag name is text.
/// A tag without its `>` ends the scan. Ranges are shifted by `base_byte` and
/// `base_position`.
pub open spec fn events_from(bytes: Seq<u8>, i: int, base_byte: usize, base_position: Point) -> Seq<
    TagEventModel,
>
    decreases bytes.len() - i,
{
    if i < 0 || i >= bytes.len() {
        seq![]
    } else if bytes[i] != 60 {
        events_from(bytes, i + 1, base_byte, base_position)
    } else if matches_at(bytes, i, comment_open(), false) {
        proof {
            lemma_find_from(bytes, i, comment_close(), false);
        }
        events_from(bytes, after_comment(bytes, i), base_byte, base_position)
    } else if byte_at(bytes, i + 1) == Some(47u8) {
        let end = tag_end_from(bytes, i + 1, None);
        proof {
            lemma_tag_end(bytes, i + 1, None);
        }
        if end is None {
            seq![]
        } else {
            let e = end->0;
            let rest = events_from(bytes, e + 1, base_byte, base_position);
            match tag_name_at(bytes, i + 2) {
                Some((name, _s, _e)) => seq![
                    TagEventModel::Close {
                        name,
                        range: span_range(bytes, base_byte, base_position, i as usize, (e + 1) as usize),
                    },
                ] + rest,
                None => rest,
            }
        }
    } else if byte_at(bytes, i + 1) == Some(33u8) || byte_at(bytes, i + 1) == Some(63u8) {
        let end = tag_end_from(bytes, i + 1, None);
        proof {
            lemma_tag_end(bytes, i + 1, None);
        }
        if end is None {
            seq![]
        } else {
            events_from(bytes, end->0 + 1, base_byte, base_position)
        }
    } else {
        match tag_name_at(bytes, i + 1) {
            Some((name, _s, _e)) => {
                let end = tag_end_from(bytes, i + 1, None);
                proof {
                    lemma_tag_end(bytes, i + 1, None);
                }
                if end is None {
                    seq![]
                } else {
                    let e = end->0;
                    let range = span_range(bytes, base_byte, base_position, i as usize, (e + 1) as usize);
                    let event = if self_closing(bytes.subrange(i, e)) {
                        TagEventModel::SelfClosing { name, range }
                    } else {
                        TagEventModel::Open { name, range }
                    };
                    seq![event] + events_from(bytes, e + 1, base_byte, base_position)
                }
            },
            None => events_from(bytes, i + 1, base_byte, base_position),
        }
    }
}

/// All ranges of a fragment of `len` bytes fit in `usize` when it starts at
/// `base_byte` and `base_position`.
pub open spec fn fragment_fits(len: nat, base_byte: usize, base_position: Point) -> bool {
    &&& base_byte + len <= usize::MAX
    &&& base_position.row + len <= usize::MAX
    &&& base_position.column + len <= usize::MAX
}

/// The HTML tags of `source`, a fragment that starts at byte `base_byte` and
/// position `base_position` of a larger text, in order.
pub fn tag_events_from_fragment(source: &str, base_byte: usize, base_position: Point) -> (events:
    Vec<TagEvent>)
    requires
        fragment_fits(source.spec_bytes().len(), base_byte, base_position),
    ensures
        events.deep_view() == events_from(source.spec_bytes(), 0, base_byte, base_position),
{
    tag_events_in(source.as_bytes(), base_byte, base_position)
}

/// [`tag_events_from_fragment`] on the bytes of the fragment.
pub fn tag_events_in(bytes: &[u8], base_byte: usize, base_position: Point) -> (events: Vec<TagEvent>)
    requires
        fragment_fits(bytes@.len(), base_byte, base_position),
    ensures
        events.deep_view() == events_from(bytes@, 0, base_byte, base_position),
{
    let comment_start = comment_open_bytes();
    let comment_end = comment_close_bytes();
    let mut events: Vec<TagEvent> = Vec::new();
    let mut index: usize = 0;
    let ghost all = events_from(bytes@, 0, base_byte, base_position);
    while index < bytes.len()
        invariant
            comment_start@ == comment_open(),
            comment_end@ == comment_close(),
            fragment_fits(bytes@.len(), base_byte, base_position),
            index <= bytes@.len(),
            events.deep_view() + events_from(bytes@, index as int, base_byte, base_position) == all,
        ensures
            events.deep_view() == all,
        decreases bytes.len() - index,
    {
        let ghost before = events.deep_view();
        if bytes[index] != 60 {
            index = index + 1;
            continue;
        }
        if matches_at_exec(bytes, index, comment_start.as_slice(), false) {
            proof {
                lemma_find_from(bytes@, index as int, comment_close(), false);
            }
            index = match find_bytes(bytes, index, comment_end.as_slice(), false) {
                Some(p) => p + 3,
                None => bytes.len(),
            };
            continue;
        }
        proof {
            lemma_tag_end(bytes@, index + 1, None);
        }
        if index + 1 < bytes.len() && bytes[index + 1] == 47 {
            assert(byte_at(bytes@, index + 1) == Some(47u8));
            let tag_end = match find_tag_end(bytes, index + 1) {
                Some(e) => e,
                None => {
                    assert(events.deep_view() + seq![] =~= events.deep_view());
                    break;
                },
            };
            match read_tag_name(bytes, index + 2) {
                Some((name, _s, _e)) => {
                    let range = range_in_bytes(bytes, base_byte, base_position, index, tag_end + 1);
                    events.push(TagEvent::Close { name, range });
                    proof {
                        assert(events.deep_view() =~= before.push(events@.last().deep_view()));
                        assert(before + events_from(bytes@, index as int, base_byte, base_position)
                            =~= events.deep_view() + events_from(
                            bytes@,
                            tag_end + 1,
                            base_byte,
                            base_position,
                        ));
                    }
                },
                None => {},
            }
            index = tag_end + 1;
        } else if index + 1 < bytes.len() && (bytes[index + 1] == 33 || bytes[index + 1] == 63) {
            assert(byte_at(bytes@, index + 1) == Some(bytes@[index + 1]));
            let tag_end = match find_tag_end(bytes, index + 1) {
                Some(e) => e,
                None => {
                    assert(events.deep_view() + seq![] =~= events.deep_view());
                    break;
                },
            };
            index = tag_end + 1;
        } else {
            assert(byte_at(bytes@, index + 1) != Some(47u8));
            assert(byte_at(bytes@, index + 1) != Some(33u8));
            assert(byte_at(bytes@, index + 1) != Some(63u8));
            match read_tag_name(bytes, index + 1) {
                Some((name, _s, _e)) => {
                    let tag_end = match find_tag_end(bytes, index + 1) {
                        Some(e) => e,
                        None => {
                            assert(events.deep_view() + seq![] =~= events.deep_view());
                            break;
                        },
                    };
                    let range = range_in_bytes(bytes, base_byte, base_position, index, tag_end + 1);
                    if is_self_closing_source(bytes, index, tag_end) {
                        events.push(TagEvent::SelfClosing { name, range });
                    } else {
                        events.push(TagEvent::Open { name, range });
                    }
                    proof {
                        assert(events.deep_view() =~= before.push(events@.last().deep_view()));
                        assert(before + events_from(bytes@, index as int, base_byte, base_position)
                            =~= events.deep_view() + events_from(
                            bytes@,
                            tag_end + 1,
                            base_byte,
                            base_position,
                        ));
                    }
                    index = tag_end + 1;
                },
                None => {
                    index = index + 1;
                },
            }
        }
    }
    assert(events.deep_view() + seq![] =~= events.deep_view());
    events
}


// ---------------------------------------------------------------------------
// Where script bodies and tags lie
// ---------------------------------------------------------------------------

/// A script body found while scanning from `i` lies after `i`, starts right after
/// a `>` and ends where a `</script` (any case) begins.
pub open spec fn script_range_placed(bytes: Seq<u8>, i: int, r: ScriptBodyRange) -> bool {
    &&& i < r.start_byte <= r.end_byte
    &&& r.end_byte + 8 <= bytes.len()
    &&& bytes[r.start_byte - 1] == 62
    &&& matches_at(bytes, r.end_byte as int, script_close(), true)
}

/// Script bodies are in order, each one well after the `</script` of the one before.
pub open spec fn script_ranges_ordered(ranges: Seq<ScriptBodyRange>) -> bool {
    forall|k: int|
        0 <= k < ranges.len() - 1 ==> #[trigger] ranges[k].end_byte + 8 <= ranges[k + 1].start_byte
}

/// Script bodies found from `i` on are in order and apart, each one starts
/// right after a `>` and ends where a `</script` (any case) begins.
pub proof fn lemma_script_ranges_placed(bytes: Seq<u8>, i: int)
    requires
        0 <= i,
        bytes.len() <= usize::MAX,
    ensures
        forall|k: int|
            0 <= k < script_ranges_from(bytes, i).len() ==> script_range_placed(
                bytes,
                i,
                #[trigger] script_ranges_from(bytes, i)[k],
            ),
        script_ranges_ordered(script_ranges_from(bytes, i)),
    decreases bytes.len() - i,
{
    let all = script_ranges_from(bytes, i);
    if i >= bytes.len() {
    } else {
        lemma_find_from(bytes, i, script_open(), true);
        let found = find_from(bytes, i, script_open(), true);
        if found is Some {
            let open_start = found->0;
            if !tag_name_boundary(byte_at(bytes, open_start + 7)) {
                lemma_script_ranges_placed(bytes, open_start + 1);
                assert(all == script_ranges_from(bytes, open_start + 1));
                assert forall|k: int| 0 <= k < all.len() implies script_range_placed(
                    bytes,
                    i,
                    #[trigger] all[k],
                ) by {
                    assert(script_range_placed(bytes, open_start + 1, all[k]));
                }
            } else {
                lemma_tag_end(bytes, open_start + 1, None);
                let open_end = tag_end_from(bytes, open_start + 1, None);
                if open_end is Some {
                    let body_start = open_end->0 + 1;
                    lemma_find_from(bytes, body_start, script_close(), true);
                    let close = find_from(bytes, body_start, script_close(), true);
                    if close is Some {
                        let close_start = close->0;
                        lemma_script_ranges_placed(bytes, close_start + 8);
                        let rest = script_ranges_from(bytes, close_start + 8);
                        let first = ScriptBodyRange {
                            start_byte: body_start as usize,
                            end_byte: close_start as usize,
                        };
                        assert(all == seq![first] + rest);
                        assert(script_close().len() == 8);
                        assert forall|k: int| 0 <= k < all.len() implies script_range_placed(
                            bytes,
                            i,
                            #[trigger] all[k],
                        ) by {
                            if k > 0 {
                                assert(all[k] == rest[k - 1]);
                                assert(script_range_placed(bytes, close_start + 8, rest[k - 1]));
                            }
                        }
                        assert forall|k: int| 0 <= k < all.len() - 1 implies #[trigger] all[k].end_byte
                            + 8 <= all[k + 1].start_byte by {
                            if k > 0 {
                                assert(all[k] == rest[k - 1]);
                                assert(all[k + 1] == rest[k]);
                            } else {
                                assert(all[1] == rest[0]);
                                assert(script_range_placed(bytes, close_start + 8, rest[0]));
                            }
                        }
                    }
                }
            }
        }
    }
}

/// The letters of `<script` are neither quotes nor `>`, so the end of a tag
/// opened by `<script` is found from the byte after the name on.
proof fn lemma_script_open_tag_end(bytes: Seq<u8>, o: int)
    requires
        matches_at(bytes, o, script_open(), true),
    ensures
        tag_end_from(bytes, o + 1, None) == tag_end_from(bytes, o + 7, None),
{
    assert forall|k: int| 1 <= k < 7 implies {
        let b = #[trigger] bytes[o + k];
        b != 34 && b != 39 && b != 62
    } by {
        assert(ascii_lower(bytes[o + k]) == ascii_lower(script_open()[k]));
    }
    let b1 = bytes[o + 1];
    let b2 = bytes[o + 2];
    let b3 = bytes[o + 3];
    let b4 = bytes[o + 4];
    let b5 = bytes[o + 5];
    let b6 = bytes[o + 6];
    assert(tag_end_from(bytes, o + 6, None) == tag_end_from(bytes, o + 7, None));
    assert(tag_end_from(bytes, o + 5, None) == tag_end_from(bytes, o + 6, None));
    assert(tag_end_from(bytes, o + 4, None) == tag_end_from(bytes, o + 5, None));
    assert(tag_end_from(bytes, o + 3, None) == tag_end_from(bytes, o + 4, None));
    assert(tag_end_from(bytes, o + 2, None) == tag_end_from(bytes, o + 3, None));
    assert(tag_end_from(bytes, o + 1, None) == tag_end_from(bytes, o + 2, None));
}

/// A script body found while scanning from `i` holds no `</script` (any case),
/// and its opening tag, at or after `i`, is `<script` (any case) followed by a
/// byte that ends a tag name, up to the `>` just before the body.
pub open spec fn script_range_shaped(bytes: Seq<u8>, i: int, r: ScriptBodyRange) -> bool {
    &&& forall|q: int|
        r.start_byte <= q < r.end_byte ==> !#[trigger] matches_at(bytes, q, script_close(), true)
    &&& exists|o: int|
        #![trigger matches_at(bytes, o, script_open(), true)]
        i <= o && o + 8 <= r.start_byte && matches_at(bytes, o, script_open(), true)
            && tag_name_boundary(byte_at(bytes, o + 7)) && tag_end_from(bytes, o + 1, None) == Some(
            r.start_byte - 1,
        )
}

/// Script bodies found from `i` hold no `</script` and follow a `<script`
/// opening tag; each one with its tags takes at least 16 bytes, so there are at
/// most a sixteenth as many as bytes after `i`.
pub proof fn lemma_script_ranges_shaped(bytes: Seq<u8>, i: int)
    requires
        0 <= i <= bytes.len(),
        bytes.len() <= usize::MAX,
    ensures
        forall|k: int|
            0 <= k < script_ranges_from(bytes, i).len() ==> script_range_shaped(
                bytes,
                i,
                #[trigger] script_ranges_from(bytes, i)[k],
            ),
        16 * script_ranges_from(bytes, i).len() <= bytes.len() - i,
    decreases bytes.len() - i,
{
    let all = script_ranges_from(bytes, i);
    if i < bytes.len() {
        lemma_find_from(bytes, i, script_open(), true);
        let found = find_from(bytes, i, script_open(), true);
        if found is Some {
            let open_start = found->0;
            if !tag_name_boundary(byte_at(bytes, open_start + 7)) {
                lemma_script_ranges_shaped(bytes, open_start + 1);
                assert(all == script_ranges_from(bytes, open_start + 1));
                assert forall|k: int| 0 <= k < all.len() implies script_range_shaped(
                    bytes,
                    i,
                    #[trigger] all[k],
                ) by {
                    assert(script_range_shaped(bytes, open_start + 1, all[k]));
                }
            } else {
                lemma_tag_end(bytes, open_start + 1, None);
                lemma_script_open_tag_end(bytes, open_start);
                lemma_tag_end(bytes, open_start + 7, None);
                let open_end = tag_end_from(bytes, open_start + 1, None);
                if open_end is Some {
                    let body_start = open_end->0 + 1;
                    lemma_find_from(bytes, body_start, script_close(), true);
                    let close = find_from(bytes, body_start, script_close(), true);
                    if close is Some {
                        let close_start = close->0;
                        assert(script_close().len() == 8);
                        lemma_script_ranges_shaped(bytes, close_start + 8);
                        let rest = script_ranges_from(bytes, close_start + 8);
                        let first = ScriptBodyRange {
                            start_byte: body_start as usize,
                            end_byte: close_start as usize,
                        };
                        assert(all == seq![first] + rest);
                        assert forall|k: int| 0 <= k < all.len() implies script_range_shaped(
                            bytes,
                            i,
                            #[trigger] all[k],
                        ) by {
                            if k > 0 {
                                assert(all[k] == rest[k - 1]);
                                assert(script_range_shaped(bytes, close_start + 8, rest[k - 1]));
                            } else {
                                assert(matches_at(bytes, open_start, script_open(), true));
                            }
                        }
                    }
                }
            }
        }
    }
}

/// The range of a tag.
pub open spec fn event_range(event: TagEventModel) -> Range {
    match event {
        TagEventModel::Open { range, .. } => range,
        TagEventModel::Close { range, .. } => range,
        TagEventModel::SelfClosing { range, .. } => range,
    }
}

/// The bytes at `q` are `-->`.
pub open spec fn comment_end_at(bytes: Seq<u8>, q: int) -> bool {
    0 <= q && q + 3 <= bytes.len() && bytes[q] == 45 && bytes[q + 1] == 45 && bytes[q + 2] == 62
}

proof fn lemma_comment_close_matches(bytes: Seq<u8>, q: int)
    ensures
        matches_at(bytes, q, comment_close(), false) <==> comment_end_at(bytes, q),
{
    if comment_end_at(bytes, q) {
        assert forall|k: int| 0 <= k < comment_close().len() implies bytes[q + k]
            == comment_close()[k] by {}
    }
    if matches_at(bytes, q, comment_close(), false) {
        assert(bytes[q + 0] == comment_close()[0]);
        assert(bytes[q + 1] == comment_close()[1]);
        assert(bytes[q + 2] == comment_close()[2]);
    }
}

/// A comment `<!--` at `i` runs to the first `-->` at or after `i`: scanning
/// from `i` finds the tags that scanning from just after that `-->` finds, so
/// no tag starts inside the comment; with no `-->` after `i`, nothing is found.
pub proof fn lemma_comments_hide_tags(
    bytes: Seq<u8>,
    i: int,
    p: int,
    base_byte: usize,
    base_position: Point,
)
    requires
        0 <= i,
        i + 4 <= bytes.len(),
        bytes[i] == 60 && bytes[i + 1] == 33 && bytes[i + 2] == 45 && bytes[i + 3] == 45,
    ensures
        i <= p && comment_end_at(bytes, p) && (forall|q: int|
            i <= q < p ==> !#[trigger] comment_end_at(bytes, q)) ==> events_from(
            bytes,
            i,
            base_byte,
            base_position,
        ) == events_from(bytes, p + 3, base_byte, base_position),
        (forall|q: int| i <= q ==> !#[trigger] comment_end_at(bytes, q)) ==> events_from(
            bytes,
            i,
            base_byte,
            base_position,
        ) == Seq::<TagEventModel>::empty(),
{
    assert forall|k: int| 0 <= k < comment_open().len() implies bytes[i + k] == comment_open()[k] by {}
    assert(matches_at(bytes, i, comment_open(), false));
    lemma_find_from(bytes, i, comment_close(), false);
    let found = find_from(bytes, i, comment_close(), false);
    if i <= p && comment_end_at(bytes, p) && (forall|q: int|
        i <= q < p ==> !#[trigger] comment_end_at(bytes, q)) {
        lemma_comment_close_matches(bytes, p);
        match found {
            Some(f) => {
                lemma_comment_close_matches(bytes, f);
                if f < p {
                    assert(!comment_end_at(bytes, f));
                }
                if p < f {
                    assert(!matches_at(bytes, p, comment_close(), false));
                }
            },
            None => {
                assert(!matches_at(bytes, p, comment_close(), false));
            },
        }
        assert(after_comment(bytes, i) == p + 3);
    }
    if forall|q: int| i <= q ==> !#[trigger] comment_end_at(bytes, q) {
        match found {
            Some(f) => {
                lemma_comment_close_matches(bytes, f);
                assert(!comment_end_at(bytes, f));
            },
            None => {},
        }
        assert(after_comment(bytes, i) == bytes.len());
        assert(events_from(bytes, bytes.len() as int, base_byte, base_position) =~= Seq::<
            TagEventModel,
        >::empty());
    }
}

/// What a tag's text says of it, where the text starts at byte `s` of the
/// fragment and its `>` is at `e - 1`: a closing tag starts with `</`, a
/// self-closing one does not and ends in `/` before its `>` (trailing white
/// space aside), and the name is the lower-cased name that follows `<` or `</`.
/// The range's positions are those of bytes `s` and `e` counted from the base.
pub open spec fn event_matches_text(
    bytes: Seq<u8>,
    base_byte: usize,
    base_position: Point,
    event: TagEventModel,
) -> bool {
    let r = event_range(event);
    let s = r.start_byte - base_byte;
    let e = r.end_byte - base_byte;
    &&& r == span_range(bytes, base_byte, base_position, s as usize, e as usize)
    &&& match event {
        TagEventModel::Close { name, .. } => {
            &&& byte_at(bytes, s + 1) == Some(47u8)
            &&& tag_name_at(bytes, s + 2) matches Some((n, _a, _b)) && n == name
        },
        TagEventModel::Open { name, .. } => {
            &&& byte_at(bytes, s + 1) != Some(47u8)
            &&& !self_closing(bytes.subrange(s, e - 1))
            &&& tag_name_at(bytes, s + 1) matches Some((n, _a, _b)) && n == name
        },
        TagEventModel::SelfClosing { name, .. } => {
            &&& byte_at(bytes, s + 1) != Some(47u8)
            &&& self_closing(bytes.subrange(s, e - 1))
            &&& tag_name_at(bytes, s + 1) matches Some((n, _a, _b)) && n == name
        },
    }
}

/// Every tag found from `i` on is a closing tag exactly when its text starts
/// with `</`, self-closing exactly when it does not and ends in `/`, and carries
/// the lower-cased name written after `<` or `</`.
pub proof fn lemma_events_match_text(bytes: Seq<u8>, i: int, base_byte: usize, base_position: Point)
    requires
        0 <= i,
        base_byte + bytes.len() <= usize::MAX,
    ensures
        forall|k: int|
            0 <= k < events_from(bytes, i, base_byte, base_position).len() ==> event_matches_text(
                bytes,
                base_byte,
                base_position,
                #[trigger] events_from(bytes, i, base_byte, base_position)[k],
            ),
    decreases bytes.len() - i,
{
    let all = events_from(bytes, i, base_byte, base_position);
    if i >= bytes.len() {
    } else if bytes[i] != 60 {
        lemma_events_match_text(bytes, i + 1, base_byte, base_position);
        assert(all == events_from(bytes, i + 1, base_byte, base_position));
    } else if matches_at(bytes, i, comment_open(), false) {
        lemma_find_from(bytes, i, comment_close(), false);
        lemma_events_match_text(bytes, after_comment(bytes, i), base_byte, base_position);
        assert(all == events_from(bytes, after_comment(bytes, i), base_byte, base_position));
    } else {
        lemma_tag_end(bytes, i + 1, None);
        let end = tag_end_from(bytes, i + 1, None);
        if end is Some {
            let e = end->0;
            lemma_events_match_text(bytes, e + 1, base_byte, base_position);
            let rest = events_from(bytes, e + 1, base_byte, base_position);
            let r = span_range(bytes, base_byte, base_position, i as usize, (e + 1) as usize);
            assert(r.start_byte == base_byte + i && r.end_byte == base_byte + e + 1);
            let has_event = (byte_at(bytes, i + 1) == Some(47u8) && tag_name_at(bytes, i + 2) is Some)
                || (byte_at(bytes, i + 1) != Some(47u8) && byte_at(bytes, i + 1) != Some(33u8)
                && byte_at(bytes, i + 1) != Some(63u8) && tag_name_at(bytes, i + 1) is Some);
            if has_event {
                assert(all.len() == rest.len() + 1);
                assert(event_range(all[0]) == r);
                assert(event_matches_text(bytes, base_byte, base_position, all[0]));
                assert forall|k: int| 0 <= k < all.len() implies event_matches_text(
                    bytes,
                    base_byte,
                    base_position,
                    #[trigger] all[k],
                ) by {
                    if k > 0 {
                        assert(all[k] == rest[k - 1]);
                    }
                }
            } else if byte_at(bytes, i + 1) == Some(47u8) || byte_at(bytes, i + 1) == Some(33u8)
                || byte_at(bytes, i + 1) == Some(63u8) {
                assert(all == rest);
            }
        }
        if byte_at(bytes, i + 1) != Some(47u8) && byte_at(bytes, i + 1) != Some(33u8)
            && byte_at(bytes, i + 1) != Some(63u8) && tag_name_at(bytes, i + 1) is None {
            lemma_events_match_text(bytes, i + 1, base_byte, base_position);
            assert(all == events_from(bytes, i + 1, base_byte, base_position));
        }
    }
}

/// A tag found while scanning from `i` lies in the fragment after `i` and spans
/// text from a `<` to a `>`.
pub open spec fn event_placed(bytes: Seq<u8>, i: int, base_byte: usize, event: TagEventModel) -> bool {
    let r = event_range(event);
    &&& base_byte + i <= r.start_byte < r.end_byte <= base_byte + bytes.len()
    &&& bytes[r.start_byte - base_byte] == 60
    &&& bytes[r.end_byte - base_byte - 1] == 62
}

/// Tags are in order and do not overlap.
pub open spec fn events_ordered(events: Seq<TagEventModel>) -> bool {
    forall|k: int|
        0 <= k < events.len() - 1 ==> event_range(#[trigger] events[k]).end_byte <= event_range(
            events[k + 1],
        ).start_byte
}

/// Tags found from `i` on lie in the fragment in order without overlapping,
/// and each one spans text from a `<` to a `>`.
pub proof fn lemma_events_placed(bytes: Seq<u8>, i: int, base_byte: usize, base_position: Point)
    requires
        0 <= i,
        base_byte + bytes.len() <= usize::MAX,
    ensures
        forall|k: int|
            0 <= k < events_from(bytes, i, base_byte, base_position).len() ==> event_placed(
                bytes,
                i,
                base_byte,
                #[trigger] events_from(bytes, i, base_byte, base_position)[k],
            ),
        events_ordered(events_from(bytes, i, base_byte, base_position)),
    decreases bytes.len() - i,
{
    let all = events_from(bytes, i, base_byte, base_position);
    if i >= bytes.len() {
    } else if bytes[i] != 60 {
        lemma_events_placed(bytes, i + 1, base_byte, base_position);
        assert(all == events_from(bytes, i + 1, base_byte, base_position));
        assert forall|k: int| 0 <= k < all.len() implies event_placed(
            bytes,
            i,
            base_byte,
            #[trigger] all[k],
        ) by {
            assert(event_placed(bytes, i + 1, base_byte, all[k]));
        }
    } else if matches_at(bytes, i, comment_open(), false) {
        lemma_find_from(bytes, i, comment_close(), false);
        let next = after_comment(bytes, i);
        lemma_events_placed(bytes, next, base_byte, base_position);
        assert(all == events_from(bytes, next, base_byte, base_position));
        assert forall|k: int| 0 <= k < all.len() implies event_placed(
            bytes,
            i,
            base_byte,
            #[trigger] all[k],
        ) by {
            assert(event_placed(bytes, next, base_byte, all[k]));
        }
    } else {
        lemma_tag_end(bytes, i + 1, None);
        let end = tag_end_from(bytes, i + 1, None);
        if end is Some {
            let e = end->0;
            lemma_events_placed(bytes, e + 1, base_byte, base_position);
            let rest = events_from(bytes, e + 1, base_byte, base_position);
            let r = span_range(bytes, base_byte, base_position, i as usize, (e + 1) as usize);
            assert(r.start_byte == base_byte + i && r.end_byte == base_byte + e + 1);
            if byte_at(bytes, i + 1) == Some(33u8) || byte_at(bytes, i + 1) == Some(63u8) || (
            byte_at(bytes, i + 1) != Some(47u8) && tag_name_at(bytes, i + 1) is None) || (byte_at(
                bytes,
                i + 1,
            ) == Some(47u8) && tag_name_at(bytes, i + 2) is None) {
                if byte_at(bytes, i + 1) != Some(47u8) && byte_at(bytes, i + 1) != Some(33u8)
                    && byte_at(bytes, i + 1) != Some(63u8) && tag_name_at(bytes, i + 1) is None {
                    lemma_events_placed(bytes, i + 1, base_byte, base_position);
                    assert(all == events_from(bytes, i + 1, base_byte, base_position));
                    assert forall|k: int| 0 <= k < all.len() implies event_placed(
                        bytes,
                        i,
                        base_byte,
                        #[trigger] all[k],
                    ) by {
                        assert(event_placed(bytes, i + 1, base_byte, all[k]));
                    }
                } else {
                    assert(all == rest);
                    assert forall|k: int| 0 <= k < all.len() implies event_placed(
                        bytes,
                        i,
                        base_byte,
                        #[trigger] all[k],
                    ) by {
                        assert(event_placed(bytes, e + 1, base_byte, all[k]));
                    }
                }
            } else {
                assert(all.len() == rest.len() + 1);
                assert(event_range(all[0]) == r);
                assert forall|k: int| 1 <= k < all.len() implies #[trigger] all[k] == rest[k - 1] by {}
                assert forall|k: int| 0 <= k < all.len() implies event_placed(
                    bytes,
                    i,
                    base_byte,
                    #[trigger] all[k],
                ) by {
                    if k > 0 {
                        assert(event_placed(bytes, e + 1, base_byte, rest[k - 1]));
                    }
                }
                assert forall|k: int| 0 <= k < all.len() - 1 implies event_range(
                    #[trigger] all[k],
                ).end_byte <= event_range(all[k + 1]).start_byte by {
                    if k > 0 {
                        assert(all[k + 1] == rest[k]);
                    } else {
                        assert(all[1] == rest[0]);
                        assert(event_placed(bytes, e + 1, base_byte, rest[0]));
                    }
                }
            }
        } else if byte_at(bytes, i + 1) != Some(47u8) && byte_at(bytes, i + 1) != Some(33u8)
            && byte_at(bytes, i + 1) != Some(63u8) && tag_name_at(bytes, i + 1) is None {
            lemma_events_placed(bytes, i + 1, base_byte, base_position);
            assert(all == events_from(bytes, i + 1, base_byte, base_position));
            assert forall|k: int| 0 <= k < all.len() implies event_placed(
                bytes,
                i,
                base_byte,
                #[trigger] all[k],
            ) by {
                assert(event_placed(bytes, i + 1, base_byte, all[k]));
            }
        }
    }
}

} // verus!
