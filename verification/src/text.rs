//! Character-level text utilities: scanning, trimming and splitting strings
//! by their view as a sequence of `char`s, and the few std text conversions
//! (lower-casing, lossy UTF-8 decoding, the whitespace property) that the
//! rest of the library builds on.
use vstd::prelude::*;

verus! {

// ---------------------------------------------------------------------------
// The std text conversions the library builds on.
// ---------------------------------------------------------------------------

/// Whether `c` has the Unicode `White_Space` property: the 25 code points
/// that the Unicode Character Database (`PropList.txt`) lists for it.
pub open spec fn unicode_whitespace(c: char) -> bool {
    let u: u32 = c as u32;
    ||| 0x09 <= u <= 0x0d
    ||| u == 0x20
    ||| u == 0x85
    ||| u == 0xa0
    ||| u == 0x1680
    ||| 0x2000 <= u <= 0x200a
    ||| u == 0x2028
    ||| u == 0x2029
    ||| u == 0x202f
    ||| u == 0x205f
    ||| u == 0x3000
}

/// The Unicode lower-case mapping of a whole string.
pub uninterp spec fn lowercase_text(s: Seq<char>) -> Seq<char>;

/// The text obtained by decoding `bytes` as UTF-8, with every invalid
/// sequence replaced by U+FFFD.
pub uninterp spec fn lossy_utf8_text(bytes: Seq<u8>) -> Seq<char>;

/// Calls `char::is_whitespace`: true exactly when `c` has the Unicode
/// `White_Space` property, whose code points `unicode_whitespace` lists.
#[verifier::external_body]
pub(crate) fn is_whitespace(c: char) -> (b: bool)
    ensures
        b == unicode_whitespace(c),
{
    c.is_whitespace()
}

/// Calls `str::to_lowercase`: the result is the Unicode lower-case mapping
/// of the whole string, named `lowercase_text` here. As documented, every
/// character lower-cases to one or more characters, so the result is empty
/// exactly when the input is.
#[verifier::external_body]
pub(crate) fn to_lowercase(s: &str) -> (r: String)
    ensures
        r@ == lowercase_text(s@),
        r@.len() == 0 <==> s@.len() == 0,
{
    s.to_lowercase()
}

/// Calls `String::from_utf8_lossy` and takes the owned text. The result is
/// named `lossy_utf8_text`; as the documentation states, bytes that are
/// valid UTF-8 are decoded unchanged.
#[verifier::external_body]
pub(crate) fn utf8_lossy(bytes: &[u8]) -> (r: String)
    ensures
        r@ == lossy_utf8_text(bytes@),
        vstd::utf8::valid_utf8(bytes@) ==> r@ == vstd::utf8::decode_utf8(bytes@),
{
    String::from_utf8_lossy(bytes).into_owned()
}

/// Reads `std::path::MAIN_SEPARATOR`, the path separator of the platform the
/// program was built for. It differs between platforms, so nothing is
/// promised of its value.
#[verifier::external_body]
pub(crate) fn main_separator() -> (c: char) {
    std::path::MAIN_SEPARATOR
}

// ---------------------------------------------------------------------------
// Specifications
// ---------------------------------------------------------------------------

/// `i` is the position of the first occurrence of `c` in `s`.
pub open spec fn is_first_index(s: Seq<char>, c: char, i: int) -> bool {
    &&& 0 <= i < s.len()
    &&& s[i] == c
    &&& forall|j: int| 0 <= j < i ==> s[j] != c
}

/// `i` is the position of the last occurrence of `c` in `s`.
pub open spec fn is_last_index(s: Seq<char>, c: char, i: int) -> bool {
    &&& 0 <= i < s.len()
    &&& s[i] == c
    &&& forall|j: int| i < j < s.len() ==> s[j] != c
}

/// Position of the first occurrence of `c` in `s`, if `c` occurs.
pub open spec fn first_index_of(s: Seq<char>, c: char) -> Option<int> {
    if s.contains(c) {
        Some(choose|i: int| is_first_index(s, c, i))
    } else {
        None
    }
}

/// Position of the last occurrence of `c` in `s`, if `c` occurs.
pub open spec fn last_index_of(s: Seq<char>, c: char) -> Option<int> {
    if s.contains(c) {
        Some(choose|i: int| is_last_index(s, c, i))
    } else {
        None
    }
}

/// `n` is the number of leading whitespace characters of `s`.
pub open spec fn is_trim_start(s: Seq<char>, n: int) -> bool {
    &&& 0 <= n <= s.len()
    &&& forall|i: int| 0 <= i < n ==> unicode_whitespace(#[trigger] s[i])
    &&& n < s.len() ==> !unicode_whitespace(s[n])
}

/// `m` is where the trailing whitespace of `s` begins, given that the
/// leading whitespace ends at `start`.
pub open spec fn is_trim_end(s: Seq<char>, start: int, m: int) -> bool {
    &&& start <= m <= s.len()
    &&& forall|i: int| m <= i < s.len() ==> unicode_whitespace(#[trigger] s[i])
    &&& m > start ==> !unicode_whitespace(s[m - 1])
}

pub open spec fn trim_start(s: Seq<char>) -> int {
    choose|n: int| is_trim_start(s, n)
}

pub open spec fn trim_end(s: Seq<char>) -> int {
    choose|m: int| is_trim_end(s, trim_start(s), m)
}

/// `s` without its leading and trailing whitespace (what `str::trim` gives).
pub open spec fn trim_text(s: Seq<char>) -> Seq<char> {
    s.subrange(trim_start(s), trim_end(s))
}

/// Every character of `s` is whitespace (so `trim` leaves nothing).
pub open spec fn is_blank(s: Seq<char>) -> bool {
    forall|i: int| 0 <= i < s.len() ==> unicode_whitespace(#[trigger] s[i])
}

/// `needle` occurs in `hay` starting at position `i`.
pub open spec fn occurs_at(hay: Seq<char>, needle: Seq<char>, i: int) -> bool {
    &&& 0 <= i
    &&& i + needle.len() <= hay.len()
    &&& hay.subrange(i, i + needle.len()) == needle
}

/// `needle` occurs somewhere in `hay` (what `str::contains` tests).
pub open spec fn contains_text(hay: Seq<char>, needle: Seq<char>) -> bool {
    exists|i: int| occurs_at(hay, needle, i)
}

/// What `str::rsplit_once(c)` gives: the text before and after the last `c`.
pub open spec fn rsplit_once(s: Seq<char>, c: char) -> Option<(Seq<char>, Seq<char>)> {
    match last_index_of(s, c) {
        Some(i) => Some((s.take(i), s.skip(i + 1))),
        None => None,
    }
}

/// What `str::split_once(c)` gives: the text before and after the first `c`.
pub open spec fn split_once(s: Seq<char>, c: char) -> Option<(Seq<char>, Seq<char>)> {
    match first_index_of(s, c) {
        Some(i) => Some((s.take(i), s.skip(i + 1))),
        None => None,
    }
}

/// The text held by an optional string.
pub open spec fn opt_text(o: Option<String>) -> Option<Seq<char>> {
    match o {
        Some(s) => Some(s@),
        None => None,
    }
}

// ---------------------------------------------------------------------------
// Lemmas about the specifications
// ---------------------------------------------------------------------------

/// A first occurrence, once found, is the one `first_index_of` names.
pub proof fn lemma_first_index_unique(s: Seq<char>, c: char, i: int)
    requires
        is_first_index(s, c, i),
    ensures
        first_index_of(s, c) == Some(i),
{
    assert(s.contains(c)) by {
        assert(s[i] == c);
    }
    let k: int = choose|k: int| is_first_index(s, c, k);
    assert(is_first_index(s, c, k));
    if k < i {
        assert(s[k] != c);
    } else if k > i {
        assert(s[i] != c);
    }
}

/// A last occurrence, once found, is the one `last_index_of` names.
pub proof fn lemma_last_index_unique(s: Seq<char>, c: char, i: int)
    requires
        is_last_index(s, c, i),
    ensures
        last_index_of(s, c) == Some(i),
{
    assert(s.contains(c)) by {
        assert(s[i] == c);
    }
    let k: int = choose|k: int| is_last_index(s, c, k);
    assert(is_last_index(s, c, k));
    if k < i {
        assert(s[i] != c);
    } else if k > i {
        assert(s[k] != c);
    }
}

/// The leading-whitespace count is the unique `n` with `is_trim_start`.
proof fn lemma_trim_start_unique(s: Seq<char>, n: int)
    requires
        is_trim_start(s, n),
    ensures
        trim_start(s) == n,
{
    let k: int = trim_start(s);
    assert(is_trim_start(s, k));
    if k < n {
        assert(unicode_whitespace(s[k]));
    } else if k > n {
        assert(unicode_whitespace(s[n]));
    }
}

/// The end of the trimmed text is the unique `m` with `is_trim_end`.
proof fn lemma_trim_end_unique(s: Seq<char>, m: int)
    requires
        is_trim_end(s, trim_start(s), m),
    ensures
        trim_end(s) == m,
{
    let k: int = trim_end(s);
    assert(is_trim_end(s, trim_start(s), k));
    if k < m {
        assert(unicode_whitespace(s[m - 1]));
    } else if k > m {
        assert(unicode_whitespace(s[k - 1]));
    }
}

proof fn lemma_trim_start_exists(s: Seq<char>, k: int)
    requires
        0 <= k <= s.len(),
        forall|i: int| 0 <= i < k ==> unicode_whitespace(#[trigger] s[i]),
    ensures
        exists|n: int| is_trim_start(s, n),
    decreases s.len() - k,
{
    if k == s.len() || !unicode_whitespace(s[k]) {
        assert(is_trim_start(s, k));
    } else {
        lemma_trim_start_exists(s, k + 1);
    }
}

proof fn lemma_trim_end_exists(s: Seq<char>, start: int, k: int)
    requires
        start <= k <= s.len(),
        forall|i: int| k <= i < s.len() ==> unicode_whitespace(#[trigger] s[i]),
    ensures
        exists|m: int| is_trim_end(s, start, m),
    decreases k - start,
{
    if k == start || !unicode_whitespace(s[k - 1]) {
        assert(is_trim_end(s, start, k));
    } else {
        lemma_trim_end_exists(s, start, k - 1);
    }
}

/// Every text has a well-defined leading and trailing whitespace.
pub proof fn lemma_trim_bounds(s: Seq<char>)
    ensures
        is_trim_start(s, trim_start(s)),
        is_trim_end(s, trim_start(s), trim_end(s)),
{
    lemma_trim_start_exists(s, 0);
    let a: int = trim_start(s);
    assert(is_trim_start(s, a));
    lemma_trim_end_exists(s, a, s.len() as int);
}

/// The trimmed text is empty exactly when every character is whitespace.
pub proof fn lemma_trim_empty_iff_blank(s: Seq<char>)
    ensures
        trim_text(s).len() == 0 <==> is_blank(s),
{
    lemma_trim_bounds(s);
    let a: int = trim_start(s);
    let b: int = trim_end(s);
    if is_blank(s) {
        if a < s.len() {
            assert(unicode_whitespace(s[a]));
        }
    } else {
        let i: int = choose|i: int| 0 <= i < s.len() && !unicode_whitespace(s[i]);
        if a == b {
            if i < a {
                assert(unicode_whitespace(s[i]));
            } else {
                assert(unicode_whitespace(s[i]));
            }
        }
    }
}

// ---------------------------------------------------------------------------
// Executable functions
// ---------------------------------------------------------------------------

/// The characters of `s`, collected into a vector.
pub fn char_vec(s: &str) -> (v: Vec<char>)
    ensures
        v@ == s@,
{
    let mut v: Vec<char> = Vec::new();
    for c in it: s.chars()
        invariant
            v@ == it.seq().take(it.index() as int),
            it.seq() == s@,
    {
        v.push(c);
    }
    v
}

/// Position of the first occurrence of `c` in `chars`.
pub fn find_first(chars: &Vec<char>, c: char) -> (r: Option<usize>)
    ensures
        match r {
            Some(i) => first_index_of(chars@, c) == Some(i as int) && is_first_index(
                chars@,
                c,
                i as int,
            ),
            None => first_index_of(chars@, c) is None,
        },
{
    let n: usize = chars.len();
    let mut i: usize = 0;
    while i < n
        invariant
            n == chars@.len(),
            0 <= i <= n,
            forall|j: int| 0 <= j < i ==> chars@[j] != c,
        decreases n - i,
    {
        if chars[i] == c {
            proof {
                lemma_first_index_unique(chars@, c, i as int);
            }
            return Some(i);
        }
        i = i + 1;
    }
    assert(!chars@.contains(c));
    None
}

/// Position of the last occurrence of `c` in `chars`.
pub fn find_last(chars: &Vec<char>, c: char) -> (r: Option<usize>)
    ensures
        match r {
            Some(i) => last_index_of(chars@, c) == Some(i as int) && is_last_index(
                chars@,
                c,
                i as int,
            ),
            None => last_index_of(chars@, c) is None,
        },
{
    let n: usize = chars.len();
    let mut j: usize = n;
    while j > 0
        invariant
            n == chars@.len(),
            0 <= j <= n,
            forall|k: int| j <= k < n ==> chars@[k] != c,
        decreases j,
    {
        if chars[j - 1] == c {
            proof {
                lemma_last_index_unique(chars@, c, j - 1);
            }
            return Some(j - 1);
        }
        j = j - 1;
    }
    assert(!chars@.contains(c));
    None
}

/// `str::rsplit_once` for a single character.
pub fn rsplit_once_char(s: &str, c: char) -> (r: Option<(&str, &str)>)
    ensures
        match r {
            Some((a, b)) => rsplit_once(s@, c) == Some((a@, b@)),
            None => rsplit_once(s@, c) is None,
        },
{
    let chars = char_vec(s);
    match find_last(&chars, c) {
        Some(i) => {
            assert(is_last_index(chars@, c, i as int));
            assert(i < chars.len());
            let a = s.substring_char(0, i);
            let b = s.substring_char(i + 1, chars.len());
            assert(a@ == s@.take(i as int));
            assert(b@ == s@.skip(i + 1));
            Some((a, b))
        },
        None => None,
    }
}

/// `str::split_once` for a single character.
pub fn split_once_char(s: &str, c: char) -> (r: Option<(&str, &str)>)
    ensures
        match r {
            Some((a, b)) => split_once(s@, c) == Some((a@, b@)),
            None => split_once(s@, c) is None,
        },
{
    let chars = char_vec(s);
    match find_first(&chars, c) {
        Some(i) => {
            assert(is_first_index(chars@, c, i as int));
            assert(i < chars.len());
            let a = s.substring_char(0, i);
            let b = s.substring_char(i + 1, chars.len());
            assert(a@ == s@.take(i as int));
            assert(b@ == s@.skip(i + 1));
            Some((a, b))
        },
        None => None,
    }
}

/// `str::trim`: `s` without its leading and trailing whitespace.
pub fn trim(s: &str) -> (r: &str)
    ensures
        r@ == trim_text(s@),
        r@.len() == 0 <==> is_blank(s@),
{
    let chars = char_vec(s);
    let n: usize = chars.len();
    let mut i: usize = 0;
    while i < n && is_whitespace(chars[i])
        invariant
            n == chars@.len(),
            chars@ == s@,
            0 <= i <= n,
            forall|k: int| 0 <= k < i ==> unicode_whitespace(#[trigger] chars@[k]),
        decreases n - i,
    {
        i = i + 1;
    }
    proof {
        lemma_trim_start_unique(s@, i as int);
    }
    let mut j: usize = n;
    while j > i && is_whitespace(chars[j - 1])
        invariant
            n == chars@.len(),
            chars@ == s@,
            0 <= i <= j <= n,
            forall|k: int| j <= k < n ==> unicode_whitespace(#[trigger] chars@[k]),
        decreases j,
    {
        j = j - 1;
    }
    proof {
        assert(is_trim_end(s@, trim_start(s@), j as int));
        lemma_trim_end_unique(s@, j as int);
        lemma_trim_empty_iff_blank(s@);
    }
    s.substring_char(i, j)
}

/// `str::contains` for a text needle, over character vectors.
pub fn contains_chars(hay: &Vec<char>, needle: &Vec<char>) -> (b: bool)
    ensures
        b == contains_text(hay@, needle@),
{
    let n: usize = hay.len();
    let m: usize = needle.len();
    if m > n {
        assert forall|i: int| !occurs_at(hay@, needle@, i) by {}
        return false;
    }
    let mut i: usize = 0;
    while i <= n - m
        invariant
            n == hay@.len(),
            m == needle@.len(),
            m <= n,
            0 <= i <= n - m + 1,
            forall|k: int| 0 <= k < i ==> !occurs_at(hay@, needle@, k),
        decreases n - m + 1 - i,
    {
        let mut j: usize = 0;
        while j < m && hay[i + j] == needle[j]
            invariant
                n == hay@.len(),
                m == needle@.len(),
                i + m <= n,
                0 <= j <= m,
                forall|k: int| 0 <= k < j ==> hay@[i + k] == needle@[k],
            decreases m - j,
        {
            j = j + 1;
        }
        if j == m {
            assert(hay@.subrange(i as int, i + m) =~= needle@);
            assert(occurs_at(hay@, needle@, i as int));
            return true;
        }
        assert(!occurs_at(hay@, needle@, i as int)) by {
            if hay@.subrange(i as int, i + m) == needle@ {
                assert(hay@.subrange(i as int, i + m)[j as int] == hay@[i + j]);
            }
        }
        i = i + 1;
    }
    assert forall|k: int| !occurs_at(hay@, needle@, k) by {
        if 0 <= k < i {
        }
    }
    false
}

} // verus!
