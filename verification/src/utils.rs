//! String and path-name utilities.
//!
//! Paths are handled as plain strings throughout the library; the helpers
//! here model the usual last-component / stem / extension decomposition of a
//! `/`-separated path name, and the slug transformation that turns titles
//! and file names into URL-safe identifiers.

use vstd::prelude::*;

verus! {

// ---------------------------------------------------------------------------
// Trusted character classification
// ---------------------------------------------------------------------------

/// The set of characters `char::is_numeric` accepts (Unicode `Nd`/`Nl`/`No`
/// with a decimal or digit numeric type); far too large to spell out here.
pub uninterp spec fn is_numeric_char(c: char) -> bool;

/// The set of characters `char::is_whitespace` accepts (the Unicode
/// `White_Space` property).
pub uninterp spec fn is_whitespace_char(c: char) -> bool;

/// Relies on `char::is_numeric`: a pure character-class test whose result
/// depends on the character alone.
#[verifier::external_body]
pub fn char_is_numeric(c: char) -> (r: bool)
    ensures
        r == is_numeric_char(c),
{
    c.is_numeric()
}

/// Relies on `char::is_whitespace`: a pure character-class test whose result
/// depends on the character alone.
#[verifier::external_body]
pub fn char_is_whitespace(c: char) -> (r: bool)
    ensures
        r == is_whitespace_char(c),
{
    c.is_whitespace()
}

/// ASCII lowercasing of one character, as `char::to_ascii_lowercase`
/// documents it: `'A'..='Z'` shift down by 32 code points, all else is kept.
pub open spec fn ascii_lower_char(c: char) -> char {
    if 'A' <= c && c <= 'Z' {
        ((c as u32) + 32) as char
    } else {
        c
    }
}

/// Relies on `char::to_ascii_lowercase`: maps `'A'..='Z'` to the lowercase
/// letter 32 code points above, and returns every other character unchanged.
#[verifier::external_body]
pub fn char_ascii_lower(c: char) -> (r: char)
    ensures
        r == ascii_lower_char(c),
{
    c.to_ascii_lowercase()
}

// ---------------------------------------------------------------------------
// Trusted string construction / decomposition
// ---------------------------------------------------------------------------

/// Relies on `String: FromIterator<char>`: collects exactly the given
/// characters into an owned string.
#[verifier::external_body]
pub fn chars_to_string(v: &Vec<char>) -> (r: String)
    ensures
        r@ == v@,
{
    v.iter().collect()
}

/// The characters of a string slice, as a vector.
pub fn str_chars(s: &str) -> (v: Vec<char>)
    ensures
        v@ == s@,
{
    let n = s.unicode_len();
    let mut v: Vec<char> = Vec::new();
    let mut i: usize = 0;
    while i < n
        invariant
            i <= n,
            n == s@.len(),
            v@ == s@.take(i as int),
        decreases n - i,
    {
        v.push(s.get_char(i));
        proof {
            assert(v@ =~= s@.take(i + 1 as int));
        }
        i = i + 1;
    }
    proof {
        assert(v@ =~= s@);
    }
    v
}

// ---------------------------------------------------------------------------
// Slugs
// ---------------------------------------------------------------------------

/// One character of a slug: whitespace and URL-reserved punctuation become
/// `'-'`, everything else is preserved.
pub open spec fn map_slug_char(c: char) -> char {
    if is_whitespace_char(c) || c == '?' || c == '&' || c == '=' || c == '\\' || c == '/' || c
        == '"' {
        '-'
    } else {
        c
    }
}

/// True when `i` is the position of the first `'-'` in `s` and everything
/// before it is numeric: the `NN-` ordering prefix that slugs drop.
pub open spec fn is_numeric_dash_prefix(s: Seq<char>, i: int) -> bool {
    &&& 0 <= i < s.len()
    &&& s[i] == '-'
    &&& forall|j: int| 0 <= j < i ==> s[j] != '-'
    &&& forall|j: int| 0 <= j < i ==> is_numeric_char(s[j])
}

/// The part of the input that the slug is built from: the whole string, or
/// the suffix after a leading numeric `NN-` prefix.
pub open spec fn slug_source(s: Seq<char>) -> Seq<char> {
    if exists|i: int| is_numeric_dash_prefix(s, i) {
        s.skip((choose|i: int| is_numeric_dash_prefix(s, i)) + 1)
    } else {
        s
    }
}

/// The slug of a string: the numeric ordering prefix dropped, and every
/// whitespace or URL-reserved character mapped to `'-'`.
pub open spec fn slug_of(s: Seq<char>) -> Seq<char> {
    slug_source(s).map_values(|c: char| map_slug_char(c))
}

proof fn lemma_numeric_dash_prefix_unique(s: Seq<char>, i: int, j: int)
    requires
        is_numeric_dash_prefix(s, i),
        is_numeric_dash_prefix(s, j),
    ensures
        i == j,
{
    if i < j {
        assert(s[i] == '-');
        assert(s[i] != '-');
    } else if j < i {
        assert(s[j] == '-');
        assert(s[j] != '-');
    }
}

/// Convert a string of arbitrary characters to a form suitable for use as an
/// HTML identifier or file name.
pub fn slugify(input: &str) -> (r: String)
    ensures
        r@ == slug_of(input@),
{
    let cs = str_chars(input);
    let n = cs.len();

    // Skip the leading run of numeric characters; if it ends at a dash, the
    // string has an `NN-` ordering prefix and the slug starts after it.
    let mut i: usize = 0;
    while i < n && cs[i] != '-' && char_is_numeric(cs[i])
        invariant
            i <= n,
            n == cs.len(),
            cs@ == input@,
            forall|j: int| 0 <= j < i ==> input@[j] != '-',
            forall|j: int| 0 <= j < i ==> is_numeric_char(input@[j]),
        decreases n - i,
    {
        i = i + 1;
    }

    let start: usize = if i < n && cs[i] == '-' {
        proof {
            assert(is_numeric_dash_prefix(input@, i as int));
            let w = choose|k: int| is_numeric_dash_prefix(input@, k);
            lemma_numeric_dash_prefix_unique(input@, i as int, w);
        }
        i + 1
    } else {
        proof {
            if exists|k: int| is_numeric_dash_prefix(input@, k) {
                let w = choose|k: int| is_numeric_dash_prefix(input@, k);
                if w < i {
                    assert(input@[w] == '-');
                } else if w > i {
                    assert(is_numeric_char(input@[i as int]));
                }
                assert(false);
            }
        }
        0
    };

    // Map the remaining characters.
    let mut out: Vec<char> = Vec::new();
    let mut k: usize = start;
    while k < n
        invariant
            start <= k <= n,
            n == cs.len(),
            cs@ == input@,
            out@ == input@.skip(start as int).take(k - start).map_values(
                |c: char| map_slug_char(c),
            ),
        decreases n - k,
    {
        let c = cs[k];
        if char_is_whitespace(c) || c == '?' || c == '&' || c == '=' || c == '\\' || c == '/' || c
            == '"' {
            out.push('-');
        } else {
            out.push(c);
        }
        proof {
            assert(out@ =~= input@.skip(start as int).take(k + 1 - start).map_values(
                |c: char| map_slug_char(c),
            ));
        }
        k = k + 1;
    }
    proof {
        assert(input@.skip(start as int).take(n - start) =~= input@.skip(start as int));
        assert(out@ =~= slug_of(input@));
    }
    chars_to_string(&out)
}

// ---------------------------------------------------------------------------
// Path names
// ---------------------------------------------------------------------------

/// Folds one finished path segment into the "last component seen so far":
/// empty segments and the `.` segment do not count as components.
pub open spec fn seg_update(last: Option<Seq<char>>, seg: Seq<char>) -> Option<Seq<char>> {
    if seg.len() > 0 && seg != seq!['.'] {
        Some(seg)
    } else {
        last
    }
}

/// Scans `s` from position `i` (the current segment starting at `start`)
/// for the last path component, `/` being the separator.
pub open spec fn scan_last_seg(
    s: Seq<char>,
    i: int,
    start: int,
    last: Option<Seq<char>>,
) -> Option<Seq<char>>
    decreases s.len() - i,
{
    if i < 0 || i >= s.len() || start < 0 || start > i {
        seg_update(last, s.subrange(if 0 <= start <= i <= s.len() { start } else { 0 }, if 0
            <= start <= i <= s.len() {
            i
        } else {
            0
        }))
    } else if s[i] == '/' {
        scan_last_seg(s, i + 1, i + 1, seg_update(last, s.subrange(start, i)))
    } else {
        scan_last_seg(s, i + 1, start, last)
    }
}

/// The last component of a `/`-separated path name: empty and `.` segments
/// are skipped, and a path ending in `..` has no component of its own.
pub open spec fn file_name_of(s: Seq<char>) -> Option<Seq<char>> {
    match scan_last_seg(s, 0, 0, None) {
        Some(n) => if n == seq!['.', '.'] {
            None
        } else {
            Some(n)
        },
        None => None,
    }
}

/// The position of the last `'.'` in `name`, if any.
pub open spec fn last_dot(name: Seq<char>) -> Option<int>
    decreases name.len(),
{
    if name.len() == 0 {
        None
    } else if name[name.len() - 1] == '.' {
        Some(name.len() - 1)
    } else {
        last_dot(name.drop_last())
    }
}

/// The stem of a file name: the part before the last dot, except that a name
/// whose only dot is the leading one is its own stem.
pub open spec fn stem_of_name(name: Seq<char>) -> Seq<char> {
    match last_dot(name) {
        Some(i) => if i == 0 {
            name
        } else {
            name.take(i)
        },
        None => name,
    }
}

/// The extension of a file name: the part after the last dot, except that a
/// leading dot marks a hidden file, not an extension.
pub open spec fn extension_of_name(name: Seq<char>) -> Option<Seq<char>> {
    match last_dot(name) {
        Some(i) => if i == 0 {
            None
        } else {
            Some(name.skip(i + 1))
        },
        None => None,
    }
}

/// The stem of a path: the stem of its last component, or of the whole
/// string when it has no last component.
pub open spec fn stem_of_path(s: Seq<char>) -> Seq<char> {
    match file_name_of(s) {
        Some(name) => stem_of_name(name),
        None => s,
    }
}

/// ASCII-lowercases a character sequence.
pub open spec fn ascii_lower(s: Seq<char>) -> Seq<char> {
    s.map_values(|c: char| ascii_lower_char(c))
}

/// The last component of a path, as an owned vector of characters.
fn file_name_chars(cs: &Vec<char>) -> (r: Option<Vec<char>>)
    ensures
        match r {
            Some(name) => scan_last_seg(cs@, 0, 0, None) == Some(name@),
            None => scan_last_seg(cs@, 0, 0, None) is None,
        },
{
    let n = cs.len();
    let mut i: usize = 0;
    let mut start: usize = 0;
    let mut last: Option<Vec<char>> = None;
    while i < n
        invariant
            start <= i <= n,
            n == cs.len(),
            scan_last_seg(cs@, 0, 0, None) == scan_last_seg(
                cs@,
                i as int,
                start as int,
                match last {
                    Some(v) => Some(v@),
                    None => None,
                },
            ),
        decreases n - i,
    {
        if cs[i] == '/' {
            let mut seg: Vec<char> = Vec::new();
            let mut k: usize = start;
            while k < i
                invariant
                    start <= k <= i <= n,
                    n == cs.len(),
                    seg@ == cs@.subrange(start as int, k as int),
                decreases i - k,
            {
                seg.push(cs[k]);
                proof {
                    assert(seg@ =~= cs@.subrange(start as int, k + 1));
                }
                k = k + 1;
            }
            if seg.len() > 0 && !(seg.len() == 1 && seg[0] == '.') {
                proof {
                    if seg@ == seq!['.'] {
                        assert(seg@.len() == 1 && seg@[0] == '.');
                    }
                }
                last = Some(seg);
            } else {
                proof {
                    if seg@.len() == 1 && seg@[0] == '.' {
                        assert(seg@ =~= seq!['.']);
                    }
                }
            }
            start = i + 1;
        }
        i = i + 1;
    }
    // Final segment.
    let mut seg: Vec<char> = Vec::new();
    let mut k: usize = start;
    while k < n
        invariant
            start <= k <= n,
            n == cs.len(),
            seg@ == cs@.subrange(start as int, k as int),
        decreases n - k,
    {
        seg.push(cs[k]);
        proof {
            assert(seg@ =~= cs@.subrange(start as int, k + 1));
        }
        k = k + 1;
    }
    if seg.len() > 0 && !(seg.len() == 1 && seg[0] == '.') {
        proof {
            if seg@ == seq!['.'] {
                assert(seg@.len() == 1 && seg@[0] == '.');
            }
        }
        Some(seg)
    } else {
        proof {
            if seg@.len() == 1 && seg@[0] == '.' {
                assert(seg@ =~= seq!['.']);
            }
        }
        last
    }
}

/// True when `v` holds exactly the two characters `..`.
fn is_dot_dot(v: &Vec<char>) -> (r: bool)
    ensures
        r == (v@ == seq!['.', '.']),
{
    let r = v.len() == 2 && v[0] == '.' && v[1] == '.';
    proof {
        if r {
            assert(v@ =~= seq!['.', '.']);
        } else if v@ == seq!['.', '.'] {
            assert(v@.len() == 2 && v@[0] == '.' && v@[1] == '.');
        }
    }
    r
}

/// The last component of a path string, per [`file_name_of`].
pub fn file_name(path: &str) -> (r: Option<Vec<char>>)
    ensures
        match r {
            Some(name) => file_name_of(path@) == Some(name@),
            None => file_name_of(path@) is None,
        },
{
    let cs = str_chars(path);
    match file_name_chars(&cs) {
        Some(name) => {
            if is_dot_dot(&name) {
                None
            } else {
                Some(name)
            }
        },
        None => None,
    }
}

/// Index of the last `'.'` in `name`, if any.
fn find_last_dot(name: &Vec<char>) -> (r: Option<usize>)
    ensures
        match r {
            Some(i) => last_dot(name@) == Some(i as int),
            None => last_dot(name@) is None,
        },
{
    let n = name.len();
    proof {
        assert(name@.take(name@.len() as int) =~= name@);
    }
    let mut i: usize = n;
    while i > 0
        invariant
            i <= n,
            n == name.len(),
            last_dot(name@) == last_dot(name@.take(i as int)),
        decreases i,
    {
        proof {
            assert(name@.take(i as int).drop_last() =~= name@.take(i - 1));
        }
        if name[i - 1] == '.' {
            proof {
                assert(name@.take(i as int)[i - 1] == '.');
            }
            return Some(i - 1);
        }
        i = i - 1;
    }
    proof {
        assert(name@.take(0) =~= Seq::<char>::empty());
    }
    None
}

/// Get a normalised file extension, if available: the extension of the
/// path's last component, ASCII-lowercased; `None` when the path has no
/// component or the component has no extension.
pub fn normalised_path_ext(path: &str) -> (r: Option<String>)
    ensures
        match (r, file_name_of(path@)) {
            (Some(e), Some(name)) => extension_of_name(name) matches Some(ext) && e@ == ascii_lower(
                ext,
            ),
            (None, Some(name)) => extension_of_name(name) is None,
            (None, None) => true,
            (Some(_), None) => false,
        },
{
    match file_name(path) {
        Some(name) => {
            match find_last_dot(&name) {
                Some(i) => {
                    if i == 0 {
                        None
                    } else {
                        proof {
                            lemma_last_dot_bounds(name@);
                        }
                        let n = name.len();
                        let mut out: Vec<char> = Vec::new();
                        let mut k: usize = i + 1;
                        let ghost ext = name@.skip(i + 1);
                        while k < name.len()
                            invariant
                                i + 1 <= k <= name@.len(),
                                ext == name@.skip(i + 1),
                                out@ == ext.take(k - i - 1).map_values(
                                    |c: char| ascii_lower_char(c),
                                ),
                        decreases name@.len() - k,
                        {
                            out.push(char_ascii_lower(name[k]));
                            proof {
                                assert(out@ =~= ext.take(k - i).map_values(
                                    |c: char| ascii_lower_char(c),
                                ));
                            }
                            k = k + 1;
                        }
                        proof {
                            assert(ext.take(name@.len() - i - 1) =~= ext);
                        }
                        Some(chars_to_string(&out))
                    }
                },
                None => None,
            }
        },
        None => None,
    }
}

/// Lowercase a character vector (ASCII case folding).
fn lower_chars(v: &Vec<char>) -> (r: Vec<char>)
    ensures
        r@ == ascii_lower(v@),
{
    let mut out: Vec<char> = Vec::new();
    let mut k: usize = 0;
    while k < v.len()
        invariant
            k <= v@.len(),
            out@ == v@.take(k as int).map_values(|c: char| ascii_lower_char(c)),
        decreases v@.len() - k,
    {
        out.push(char_ascii_lower(v[k]));
        proof {
            assert(out@ =~= v@.take(k + 1).map_values(|c: char| ascii_lower_char(c)));
        }
        k = k + 1;
    }
    proof {
        assert(v@.take(v@.len() as int) =~= v@);
    }
    out
}

/// The stem (part before the extension) of a file name, as characters.
pub fn stem_chars(name: &Vec<char>) -> (r: Vec<char>)
    ensures
        r@ == stem_of_name(name@),
{
    match find_last_dot(name) {
        Some(i) => {
            if i == 0 {
                let mut out: Vec<char> = Vec::new();
                let mut k: usize = 0;
                while k < name.len()
                    invariant
                        k <= name@.len(),
                        out@ == name@.take(k as int),
                    decreases name@.len() - k,
                {
                    out.push(name[k]);
                    proof {
                        assert(out@ =~= name@.take(k + 1));
                    }
                    k = k + 1;
                }
                proof {
                    assert(name@.take(name@.len() as int) =~= name@);
                }
                out
            } else {
                proof {
                    lemma_last_dot_bounds(name@);
                }
                let mut out: Vec<char> = Vec::new();
                let mut k: usize = 0;
                while k < i
                    invariant
                        k <= i <= name@.len(),
                        last_dot(name@) == Some(i as int),
                        out@ == name@.take(k as int),
                    decreases i - k,
                {
                    out.push(name[k]);
                    proof {
                        assert(out@ =~= name@.take(k + 1));
                    }
                    k = k + 1;
                }
                out
            }
        },
        None => {
            let mut out: Vec<char> = Vec::new();
            let mut k: usize = 0;
            while k < name.len()
                invariant
                    k <= name@.len(),
                    out@ == name@.take(k as int),
                decreases name@.len() - k,
            {
                out.push(name[k]);
                proof {
                    assert(out@ =~= name@.take(k + 1));
                }
                k = k + 1;
            }
            proof {
                assert(name@.take(name@.len() as int) =~= name@);
            }
            out
        },
    }
}

/// Get the normalised file stem from the path: the part of the last
/// component before the extension, ASCII-lowercased.
pub fn normalised_stem(path: &str) -> (r: Option<String>)
    ensures
        match (r, file_name_of(path@)) {
            (Some(s), Some(name)) => s@ == ascii_lower(stem_of_name(name)),
            (None, None) => true,
            (Some(_), None) => false,
            (None, Some(_)) => false,
        },
{
    match file_name(path) {
        Some(name) => {
            let stem = stem_chars(&name);
            let low = lower_chars(&stem);
            Some(chars_to_string(&low))
        },
        None => None,
    }
}

/// Slugify a path: the slug of its last component's stem, or of the whole
/// path when it has no last component.
pub fn slugify_path(input: &str) -> (r: String)
    ensures
        r@ == slug_of(stem_of_path(input@)),
{
    match file_name(input) {
        Some(name) => {
            let stem = stem_chars(&name);
            let s = chars_to_string(&stem);
            slugify(s.as_str())
        },
        None => slugify(input),
    }
}

/// Try to convert an optional command line argument to a path, falling back
/// to the given default.
pub fn path_or_default(maybe_path: Option<String>, default: &str) -> (r: String)
    ensures
        match maybe_path {
            Some(p) => r == p,
            None => r@ == default@,
        },
{
    match maybe_path {
        Some(p) => p,
        None => default.to_owned(),
    }
}

/// A prettified directory name: the last path component with leading numeric
/// characters, then leading `-`/`_` separators, then surrounding whitespace
/// trimmed away.
pub open spec fn prettified_name(name: Seq<char>) -> Seq<char> {
    let a = name.skip(leading_run_len(name, |c: char| is_numeric_char(c)));
    let b = a.skip(leading_run_len(a, |c: char| c == '-' || c == '_'));
    let c = b.skip(leading_run_len(b, |c: char| is_whitespace_char(c)));
    c.take(c.len() - trailing_run_len(c, |ch: char| is_whitespace_char(ch)))
}

/// Length of the longest prefix of `s` whose characters satisfy `p`.
pub open spec fn leading_run_len(s: Seq<char>, p: spec_fn(char) -> bool) -> int
    decreases s.len(),
{
    if s.len() > 0 && p(s[0]) {
        1 + leading_run_len(s.drop_first(), p)
    } else {
        0
    }
}

/// Length of the longest suffix of `s` whose characters satisfy `p`.
pub open spec fn trailing_run_len(s: Seq<char>, p: spec_fn(char) -> bool) -> int
    decreases s.len(),
{
    if s.len() > 0 && p(s[s.len() - 1]) {
        1 + trailing_run_len(s.drop_last(), p)
    } else {
        0
    }
}

proof fn lemma_leading_run_le_len(s: Seq<char>, p: spec_fn(char) -> bool)
    ensures
        0 <= leading_run_len(s, p) <= s.len(),
        forall|j: int| 0 <= j < leading_run_len(s, p) ==> p(s[j]),
        leading_run_len(s, p) < s.len() ==> !p(s[leading_run_len(s, p)]),
    decreases s.len(),
{
    if s.len() > 0 && p(s[0]) {
        lemma_leading_run_le_len(s.drop_first(), p);
        assert forall|j: int| 0 <= j < leading_run_len(s, p) implies p(s[j]) by {
            if j > 0 {
                assert(s.drop_first()[j - 1] == s[j]);
            }
        }
        if leading_run_len(s, p) < s.len() {
            assert(s.drop_first()[leading_run_len(s, p) - 1] == s[leading_run_len(s, p)]);
        }
    }
}

proof fn lemma_trailing_run_le_len(s: Seq<char>, p: spec_fn(char) -> bool)
    ensures
        0 <= trailing_run_len(s, p) <= s.len(),
        forall|j: int| s.len() - trailing_run_len(s, p) <= j < s.len() ==> p(s[j]),
        trailing_run_len(s, p) < s.len() ==> !p(s[s.len() - trailing_run_len(s, p) - 1]),
    decreases s.len(),
{
    if s.len() > 0 && p(s[s.len() - 1]) {
        lemma_trailing_run_le_len(s.drop_last(), p);
        assert forall|j: int| s.len() - trailing_run_len(s, p) <= j < s.len() implies p(s[j]) by {
            if j < s.len() - 1 {
                assert(s.drop_last()[j] == s[j]);
            }
        }
        if trailing_run_len(s, p) < s.len() {
            let t = trailing_run_len(s, p);
            assert(trailing_run_len(s.drop_last(), p) == t - 1);
            assert(s.drop_last()[s.len() - t - 1] == s[s.len() - t - 1]);
        }
    }
}

/// A last-dot position is a dot strictly inside the name.
proof fn lemma_last_dot_bounds(s: Seq<char>)
    ensures
        match last_dot(s) {
            Some(i) => 0 <= i < s.len() && s[i] == '.',
            None => true,
        },
    decreases s.len(),
{
    if s.len() > 0 && s[s.len() - 1] != '.' {
        lemma_last_dot_bounds(s.drop_last());
        if last_dot(s.drop_last()) is Some {
            let i = last_dot(s.drop_last())->0;
            assert(s.drop_last()[i] == s[i]);
        }
    }
}

/// Advances `k` past the leading run of characters accepted by the exec test
/// `numeric` (mirrors of each other is required by the caller).
pub fn skip_leading(v: &Vec<char>, from: usize, kind: u8) -> (r: usize)
    requires
        from <= v@.len(),
        kind <= 4,
    ensures
        from <= r <= v@.len(),
        r - from == leading_run_len(v@.skip(from as int), run_pred(kind)),
{
    let ghost p = run_pred(kind);
    let mut k = from;
    while k < v.len() && run_test(v[k], kind)
        invariant
            from <= k <= v@.len(),
            p == run_pred(kind),
            kind <= 4,
            forall|j: int| from <= j < k ==> p(v@[j]),
            leading_run_len(v@.skip(from as int), p) == leading_run_len(v@.skip(k as int), p) + (k
                - from),
        decreases v@.len() - k,
    {
        proof {
            assert(v@.skip(k as int)[0] == v@[k as int]);
            assert(v@.skip(k as int).drop_first() =~= v@.skip(k + 1));
        }
        k = k + 1;
    }
    proof {
        if k < v@.len() {
            assert(v@.skip(k as int)[0] == v@[k as int]);
            assert(leading_run_len(v@.skip(k as int), p) == 0);
        } else {
            assert(v@.skip(k as int) =~= Seq::<char>::empty());
        }
    }
    k
}

/// The character classes whose leading runs the library skips over.
pub open spec fn run_pred(kind: u8) -> spec_fn(char) -> bool {
    if kind == 0 {
        |c: char| is_numeric_char(c)
    } else if kind == 1 {
        |c: char| c == '-' || c == '_'
    } else if kind == 2 {
        |c: char| is_whitespace_char(c)
    } else if kind == 3 {
        |c: char| '0' <= c && c <= '9'
    } else {
        |c: char| c == '0'
    }
}

/// Exec mirror of [`run_pred`].
fn run_test(c: char, kind: u8) -> (r: bool)
    requires
        kind <= 4,
    ensures
        r == run_pred(kind)(c),
{
    if kind == 0 {
        char_is_numeric(c)
    } else if kind == 1 {
        c == '-' || c == '_'
    } else if kind == 2 {
        char_is_whitespace(c)
    } else if kind == 3 {
        '0' <= c && c <= '9'
    } else {
        c == '0'
    }
}

/// The index just past the content of `v`, once the trailing run of
/// whitespace after `from` is dropped.
fn trim_trailing_ws(v: &Vec<char>, from: usize) -> (end: usize)
    requires
        from <= v@.len(),
    ensures
        from <= end <= v@.len(),
        v@.len() - end == trailing_run_len(v@.skip(from as int), run_pred(2)),
{
    let ghost tail = v@.skip(from as int);
    proof {
        assert(tail.take(v@.len() - from) =~= tail);
    }
    let mut end = v.len();
    while end > from && char_is_whitespace(v[end - 1])
        invariant
            from <= end <= v@.len(),
            tail == v@.skip(from as int),
            trailing_run_len(tail, run_pred(2)) == trailing_run_len(
                tail.take(end - from),
                run_pred(2),
            ) + (v@.len() - end),
        decreases end,
    {
        proof {
            let cur = tail.take(end - from);
            assert(cur[cur.len() - 1] == v@[end - 1]);
            assert(cur.drop_last() =~= tail.take(end - 1 - from));
        }
        end = end - 1;
    }
    proof {
        let cur = tail.take(end - from);
        if end > from {
            assert(cur[cur.len() - 1] == v@[end - 1]);
            assert(trailing_run_len(cur, run_pred(2)) == 0);
        } else {
            assert(cur =~= Seq::<char>::empty());
        }
    }
    end
}

/// The characters `v[from..to]`, as an owned vector.
pub fn copy_range(v: &Vec<char>, from: usize, to: usize) -> (r: Vec<char>)
    requires
        from <= to <= v@.len(),
    ensures
        r@ == v@.subrange(from as int, to as int),
{
    let mut out: Vec<char> = Vec::new();
    let mut k: usize = from;
    while k < to
        invariant
            from <= k <= to <= v@.len(),
            out@ == v@.subrange(from as int, k as int),
        decreases to - k,
    {
        out.push(v[k]);
        proof {
            assert(out@ =~= v@.subrange(from as int, k + 1));
        }
        k = k + 1;
    }
    out
}

/// Prettify a directory name: trims the leading ordering prefix and
/// surrounding whitespace of the path's last component.
pub fn prettify_dir(path: &str) -> (r: Option<String>)
    ensures
        match (r, file_name_of(path@)) {
            (Some(t), Some(name)) => t@ == prettified_name(name),
            (None, None) => true,
            (Some(_), None) => false,
            (None, Some(_)) => false,
        },
{
    match file_name(path) {
        Some(name) => {
            let a = skip_leading(&name, 0, 0);
            let b = skip_leading(&name, a, 1);
            let c = skip_leading(&name, b, 2);
            proof {
                assert(name@.skip(0) =~= name@);
                assert(name@.skip(a as int).skip(b - a) =~= name@.skip(b as int));
                assert(name@.skip(b as int).skip(c - b) =~= name@.skip(c as int));
            }
            let end = trim_trailing_ws(&name, c);
            let out = copy_range(&name, c, end);
            proof {
                let tail = name@.skip(c as int);
                assert(tail.take(tail.len() - trailing_run_len(tail, run_pred(2))) =~= name@
                    .subrange(c as int, end as int));
                assert(out@ =~= prettified_name(name@));
            }
            Some(chars_to_string(&out))
        },
        None => None,
    }
}

} // verus!
