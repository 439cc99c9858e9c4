//! The text rules of the blog: titles, slugs, and title lookup.  Reading
//! source files, compiling them, and watching for changes belong to the
//! caller; what it hands in here is plain text.

use vstd::prelude::*;

use crate::numfmt::{ascii_chars, ascii_only, ascii_string};

verus! {

/// One compiled post, as the caller indexes it.
#[derive(Debug)]
pub struct BlogPost {
    pub title: String,
    pub slug: String,
    /// When the post was created, epoch milliseconds.
    pub created_ms: i64,
    pub html_path: String,
    pub text_content: String,
}

/// The ASCII lower-case form of a character.
pub open spec fn spec_ascii_lower(c: char) -> char {
    if c == 'A' {
        'a'
    } else if c == 'B' {
        'b'
    } else if c == 'C' {
        'c'
    } else if c == 'D' {
        'd'
    } else if c == 'E' {
        'e'
    } else if c == 'F' {
        'f'
    } else if c == 'G' {
        'g'
    } else if c == 'H' {
        'h'
    } else if c == 'I' {
        'i'
    } else if c == 'J' {
        'j'
    } else if c == 'K' {
        'k'
    } else if c == 'L' {
        'l'
    } else if c == 'M' {
        'm'
    } else if c == 'N' {
        'n'
    } else if c == 'O' {
        'o'
    } else if c == 'P' {
        'p'
    } else if c == 'Q' {
        'q'
    } else if c == 'R' {
        'r'
    } else if c == 'S' {
        's'
    } else if c == 'T' {
        't'
    } else if c == 'U' {
        'u'
    } else if c == 'V' {
        'v'
    } else if c == 'W' {
        'w'
    } else if c == 'X' {
        'x'
    } else if c == 'Y' {
        'y'
    } else if c == 'Z' {
        'z'
    } else {
        c
    }
}

/// The ASCII lower-case form of a character.
fn ascii_lower(c: char) -> (r: char)
    ensures
        r == spec_ascii_lower(c),
{
    if c == 'A' {
        'a'
    } else if c == 'B' {
        'b'
    } else if c == 'C' {
        'c'
    } else if c == 'D' {
        'd'
    } else if c == 'E' {
        'e'
    } else if c == 'F' {
        'f'
    } else if c == 'G' {
        'g'
    } else if c == 'H' {
        'h'
    } else if c == 'I' {
        'i'
    } else if c == 'J' {
        'j'
    } else if c == 'K' {
        'k'
    } else if c == 'L' {
        'l'
    } else if c == 'M' {
        'm'
    } else if c == 'N' {
        'n'
    } else if c == 'O' {
        'o'
    } else if c == 'P' {
        'p'
    } else if c == 'Q' {
        'q'
    } else if c == 'R' {
        'r'
    } else if c == 'S' {
        's'
    } else if c == 'T' {
        't'
    } else if c == 'U' {
        'u'
    } else if c == 'V' {
        'v'
    } else if c == 'W' {
        'w'
    } else if c == 'X' {
        'x'
    } else if c == 'Y' {
        'y'
    } else if c == 'Z' {
        'z'
    } else {
        c
    }
}

/// The file name with every trailing source suffix stripped.
pub open spec fn spec_stem(name: Seq<char>) -> Seq<char>
    decreases name.len(),
{
    if name.len() >= 4 && name.skip(name.len() - 4) == ".typ"@ {
        spec_stem(name.take(name.len() - 4))
    } else {
        name
    }
}

/// A file name's URL slug, as bytes: the stem, lower-cased, spaces turned
/// into dashes; a character outside ASCII stands in as `'?'`.
pub open spec fn spec_slug(name: Seq<char>) -> Seq<u8> {
    spec_stem(name).map_values(
        |c: char|
            {
                let m = if c == ' ' {
                    '-'
                } else {
                    spec_ascii_lower(c)
                };
                if (m as u32) < 128 {
                    (m as u32) as u8
                } else {
                    63u8
                }
            },
    )
}

/// Converts a source file name to its URL slug: every trailing `.typ`
/// suffix dropped, ASCII letters lower-cased, spaces turned into dashes.
/// Letters beyond ASCII keep their case.
pub fn to_slug(filename: &str) -> (r: String)
    ensures
        r@ == ascii_chars(spec_slug(filename@)),
{
    let chars = collect_chars(filename);
    let n = chars.len();
    let mut stem_len: usize = n;
    proof {
        assert(chars@.take(n as int) =~= chars@);
    }
    while has_typ_suffix(&chars, stem_len)
        invariant
            stem_len <= n == chars@.len(),
            chars@ == filename@,
            spec_stem(filename@) == spec_stem(chars@.take(stem_len as int)),
        decreases stem_len,
    {
        proof {
            let cur = chars@.take(stem_len as int);
            assert(cur.take(stem_len as int - 4) =~= chars@.take(stem_len as int - 4));
        }
        stem_len = stem_len - 4;
    }
    proof {
        assert(spec_stem(chars@.take(stem_len as int)) == chars@.take(stem_len as int));
        assert(spec_stem(filename@) == chars@.take(stem_len as int));
    }
    let mut out: Vec<u8> = Vec::new();
    let mut i: usize = 0;
    while i < stem_len
        invariant
            i <= stem_len <= chars@.len(),
            chars@ == filename@,
            out@ == spec_slug(filename@).take(i as int),
            ascii_only(out@),
            spec_stem(filename@) == chars@.take(stem_len as int),
        decreases stem_len - i,
    {
        let c = chars[i];
        let mapped = if c == ' ' {
            '-'
        } else {
            ascii_lower(c)
        };
        let u = mapped as u32;
        if u < 128 {
            out.push(u as u8);
        } else {
            out.push(63);
        }
        i = i + 1;
        proof {
            assert(spec_stem(filename@)[i - 1] == chars@[i - 1]);
            assert(out@ =~= spec_slug(filename@).take(i as int));
        }
    }
    proof {
        assert(spec_slug(filename@).take(stem_len as int) =~= spec_slug(filename@));
    }
    ascii_string(&out)
}

/// Whether the first `len` characters end in the source suffix.
fn has_typ_suffix(chars: &Vec<char>, len: usize) -> (r: bool)
    requires
        len <= chars@.len(),
    ensures
        r <==> (len >= 4 && chars@.take(len as int).skip(len as int - 4) == ".typ"@),
{
    proof {
        reveal_strlit(".typ");
    }
    if len < 4 {
        return false;
    }
    let r = chars[len - 4] == '.' && chars[len - 3] == 't' && chars[len - 2] == 'y' && chars[len
        - 1] == 'p';
    proof {
        let tl = chars@.take(len as int).skip(len as int - 4);
        assert(tl.len() == 4);
        assert(tl[0] == chars@[len - 4]);
        assert(tl[1] == chars@[len - 3]);
        assert(tl[2] == chars@[len - 2]);
        assert(tl[3] == chars@[len - 1]);
        if r {
            assert(tl =~= ".typ"@);
        } else {
            if tl == ".typ"@ {
                assert(chars@[len - 4] == '.' && chars@[len - 3] == 't' && chars@[len - 2] == 'y'
                    && chars@[len - 1] == 'p');
            }
        }
    }
    r
}

/// The characters of a piece of text.
pub fn collect_chars(s: &str) -> (r: Vec<char>)
    ensures
        r@ == s@,
{
    let mut out: Vec<char> = Vec::new();
    for c in it: s.chars()
        invariant
            it.seq() == s@,
            out@ == it.seq().take(it.index() as int),
    {
        out.push(c);
    }
    proof {
        assert(s@.take(s@.len() as int) =~= s@);
    }
    out
}

/// Looks a post's title up by slug among the compiled posts: the first
/// matching post supplies the title.
pub fn get_post_title(posts: &Vec<BlogPost>, slug: &str) -> (r: Option<String>)
    ensures
        match r {
            Some(t) => exists|j: int|
                0 <= j < posts@.len() && (#[trigger] posts@[j]).slug@ == slug@ && t@
                    == posts@[j].title@ && (forall|q: int|
                    0 <= q < j ==> (#[trigger] posts@[q]).slug@ != slug@),
            None => forall|j: int| 0 <= j < posts@.len() ==> (#[trigger] posts@[j]).slug@ != slug@,
        },
{
    let n = posts.len();
    let mut i: usize = 0;
    while i < n
        invariant
            i <= n,
            n == posts@.len(),
            forall|j: int| 0 <= j < i ==> (#[trigger] posts@[j]).slug@ != slug@,
        decreases n - i,
    {
        let p = &posts[i];
        if str_eq(p.slug.as_str(), slug) {
            return Some(p.title.clone());
        }
        i = i + 1;
    }
    None
}

/// Whether two pieces of text are equal, character by character.
pub fn str_eq(a: &str, b: &str) -> (r: bool)
    ensures
        r <==> a@ == b@,
{
    let ca = collect_chars(a);
    let cb = collect_chars(b);
    if ca.len() != cb.len() {
        return false;
    }
    let n = ca.len();
    let mut i: usize = 0;
    while i < n
        invariant
            i <= n,
            n == ca@.len() == cb@.len(),
            ca@ == a@,
            cb@ == b@,
            forall|j: int| 0 <= j < i ==> a@[j] == b@[j],
        decreases n - i,
    {
        if ca[i] != cb[i] {
            return false;
        }
        i = i + 1;
    }
    proof {
        assert(a@ =~= b@);
    }
    true
}


/// A whitespace character of a source line: space, tab, or a carriage
/// return left by foreign line endings.
pub open spec fn is_ws(c: char) -> bool {
    c == ' ' || c == '\t' || c == '\r'
}

/// How many characters the first line of `s` holds.
pub open spec fn line_len(s: Seq<char>) -> nat
    decreases s.len(),
{
    if s.len() == 0 || s.first() == '\n' {
        0
    } else {
        (1 + line_len(s.drop_first())) as nat
    }
}

/// The run with leading whitespace dropped.
pub open spec fn trim_start(s: Seq<char>) -> Seq<char>
    decreases s.len(),
{
    if s.len() > 0 && is_ws(s.first()) {
        trim_start(s.drop_first())
    } else {
        s
    }
}

/// The run with trailing whitespace dropped.
pub open spec fn trim_end(s: Seq<char>) -> Seq<char>
    decreases s.len(),
{
    if s.len() > 0 && is_ws(s.last()) {
        trim_end(s.drop_last())
    } else {
        s
    }
}

/// The run with leading heading markers dropped.
pub open spec fn strip_eq(s: Seq<char>) -> Seq<char>
    decreases s.len(),
{
    if s.len() > 0 && s.first() == '=' {
        strip_eq(s.drop_first())
    } else {
        s
    }
}

/// The title the content's first top-level heading gives, if any: a line
/// whose trimmed text starts with a single `=`.
pub open spec fn spec_heading_title(s: Seq<char>) -> Option<Seq<char>>
    decreases s.len(),
{
    if s.len() == 0 {
        None
    } else {
        let ll = line_len(s);
        let t = trim_end(trim_start(s.take(ll as int)));
        if t.len() >= 1 && t.first() == '=' && !(t.len() >= 2 && t[1] == '=') {
            Some(trim_start(strip_eq(t)))
        } else if ll >= s.len() {
            None
        } else {
            spec_heading_title(s.skip(ll as int + 1))
        }
    }
}

/// A scan that found no whitespace up to `a` and whitespace-or-end at `a`
/// has found where the trimmed run starts.
proof fn lemma_trim_start_at(s: Seq<char>, a: int)
    requires
        0 <= a <= s.len(),
        forall|q: int| 0 <= q < a ==> is_ws(#[trigger] s[q]),
        a == s.len() || !is_ws(s[a]),
    ensures
        trim_start(s) == s.skip(a),
    decreases a,
{
    if a == 0 {
        assert(s.skip(0) =~= s);
    } else {
        assert(forall|q: int| 0 <= q < a - 1 ==> is_ws(#[trigger] s.drop_first()[q]));
        lemma_trim_start_at(s.drop_first(), a - 1);
        assert(s.drop_first().skip(a - 1) =~= s.skip(a));
    }
}

/// The matching fact for the end of the run.
proof fn lemma_trim_end_at(s: Seq<char>, b: int)
    requires
        0 <= b <= s.len(),
        forall|q: int| b <= q < s.len() ==> is_ws(#[trigger] s[q]),
        b == 0 || !is_ws(s[b - 1]),
    ensures
        trim_end(s) == s.take(b),
    decreases s.len() - b,
{
    if b == s.len() {
        assert(s.take(b) =~= s);
    } else {
        assert(forall|q: int| b <= q < s.drop_last().len() ==> is_ws(#[trigger] s.drop_last()[q]));
        lemma_trim_end_at(s.drop_last(), b);
        assert(s.drop_last().take(b) =~= s.take(b));
    }
}

/// The matching fact for leading heading markers.
proof fn lemma_strip_eq_at(s: Seq<char>, a: int)
    requires
        0 <= a <= s.len(),
        forall|q: int| 0 <= q < a ==> #[trigger] s[q] == '=',
        a == s.len() || s[a] != '=',
    ensures
        strip_eq(s) == s.skip(a),
    decreases a,
{
    if a == 0 {
        assert(s.skip(0) =~= s);
    } else {
        assert(forall|q: int| 0 <= q < a - 1 ==> #[trigger] s.drop_first()[q] == '=');
        lemma_strip_eq_at(s.drop_first(), a - 1);
        assert(s.drop_first().skip(a - 1) =~= s.skip(a));
    }
}

/// A scan that found no line break up to `e` and a break-or-end at `e` has
/// found the first line's length.
proof fn lemma_line_len_at(s: Seq<char>, e: int)
    requires
        0 <= e <= s.len(),
        forall|q: int| 0 <= q < e ==> #[trigger] s[q] != '\n',
        e == s.len() || s[e] == '\n',
    ensures
        line_len(s) == e,
    decreases e,
{
    if e > 0 {
        assert(forall|q: int| 0 <= q < e - 1 ==> #[trigger] s.drop_first()[q] != '\n');
        lemma_line_len_at(s.drop_first(), e - 1);
    }
}

/// Whether the character at a position is whitespace.
fn ws_at(chars: &Vec<char>, q: usize) -> (r: bool)
    requires
        q < chars@.len(),
    ensures
        r == is_ws(chars@[q as int]),
{
    let c = chars[q];
    c == ' ' || c == '\t' || c == '\r'
}

/// The position right after the line that starts at `ls`.
fn find_line_end(chars: &Vec<char>, ls: usize) -> (le: usize)
    requires
        ls <= chars@.len(),
    ensures
        ls <= le <= chars@.len(),
        line_len(chars@.skip(ls as int)) == le - ls,
        le < chars@.len() ==> chars@[le as int] == '\n',
{
    let n = chars.len();
    let mut le: usize = ls;
    while le < n && chars[le] != '\n'
        invariant
            ls <= le <= n == chars@.len(),
            forall|q: int| ls <= q < le ==> #[trigger] chars@[q] != '\n',
        decreases n - le,
    {
        le = le + 1;
    }
    proof {
        let rest = chars@.skip(ls as int);
        assert(forall|q: int| 0 <= q < le - ls ==> #[trigger] rest[q] != '\n');
        if le < n {
            assert(rest[le - ls] == '\n');
        }
        lemma_line_len_at(rest, le - ls);
    }
    le
}

/// The first non-whitespace position at or after `a`, up to `b`.
fn skip_ws(chars: &Vec<char>, a: usize, b: usize) -> (r: usize)
    requires
        a <= b <= chars@.len(),
    ensures
        a <= r <= b,
        forall|q: int| a <= q < r ==> is_ws(#[trigger] chars@[q]),
        r < b ==> !is_ws(chars@[r as int]),
{
    let mut r: usize = a;
    while r < b && ws_at(chars, r)
        invariant
            a <= r <= b <= chars@.len(),
            forall|q: int| a <= q < r ==> is_ws(#[trigger] chars@[q]),
        decreases b - r,
    {
        r = r + 1;
    }
    r
}

/// The position right after the last non-whitespace character in `[a, b)`.
fn rskip_ws(chars: &Vec<char>, a: usize, b: usize) -> (r: usize)
    requires
        a <= b <= chars@.len(),
    ensures
        a <= r <= b,
        forall|q: int| r <= q < b ==> is_ws(#[trigger] chars@[q]),
        r > a ==> !is_ws(chars@[r - 1]),
{
    let mut r: usize = b;
    while r > a && ws_at(chars, r - 1)
        invariant
            a <= r <= b <= chars@.len(),
            forall|q: int| r <= q < b ==> is_ws(#[trigger] chars@[q]),
        decreases r,
    {
        r = r - 1;
    }
    r
}

/// The first position at or after `a` that holds no heading marker, up to
/// `b`.
fn skip_eq(chars: &Vec<char>, a: usize, b: usize) -> (r: usize)
    requires
        a <= b <= chars@.len(),
    ensures
        a <= r <= b,
        forall|q: int| a <= q < r ==> #[trigger] chars@[q] == '=',
        r < b ==> chars@[r as int] != '=',
{
    let mut r: usize = a;
    while r < b && chars[r] == '='
        invariant
            a <= r <= b <= chars@.len(),
            forall|q: int| a <= q < r ==> #[trigger] chars@[q] == '=',
        decreases b - r,
    {
        r = r + 1;
    }
    r
}

/// Extracts a post's title from its source: the first top-level heading
/// (a line reading `= Title`), or, when there is none, the file name with
/// suffixes dropped, underscores as spaces, and each word's first ASCII
/// letter upper-cased.
#[verifier::rlimit(100)]
pub fn extract_title(content: &str, filename: &str) -> (r: String)
    ensures
        match spec_heading_title(content@) {
            Some(t) => r@ == t,
            None => r@ == spec_fallback_title(filename@),
        },
{
    let chars = collect_chars(content);
    let n = chars.len();
    let mut ls: usize = 0;
    proof {
        assert(content@.skip(0) =~= content@);
    }
    while ls < n
        invariant
            ls <= n == chars@.len(),
            chars@ == content@,
            spec_heading_title(content@) == spec_heading_title(content@.skip(ls as int)),
        decreases n - ls,
    {
        let ghost rest = content@.skip(ls as int);
        let le = find_line_end(&chars, ls);
        proof {
            assert(rest.take(le - ls) =~= content@.subrange(ls as int, le as int));
        }
        let a = skip_ws(&chars, ls, le);
        let bnd = rskip_ws(&chars, a, le);
        let ghost line = content@.subrange(ls as int, le as int);
        proof {
            assert(forall|q: int| 0 <= q < a - ls ==> is_ws(#[trigger] line[q]));
            if a < le {
                assert(!is_ws(line[a - ls]));
            }
            lemma_trim_start_at(line, a - ls);
            assert(line.skip(a - ls) =~= content@.subrange(a as int, le as int));
            let ts = content@.subrange(a as int, le as int);
            assert(forall|q: int| bnd - a <= q < ts.len() ==> is_ws(#[trigger] ts[q]));
            if bnd > a {
                assert(!is_ws(ts[bnd - a - 1]));
            }
            lemma_trim_end_at(ts, bnd - a);
            assert(ts.take(bnd - a) =~= content@.subrange(a as int, bnd as int));
        }
        let ghost t = content@.subrange(a as int, bnd as int);
        if a < bnd && chars[a] == '=' && !(a + 1 < bnd && chars[a + 1] == '=') {
            // a top-level heading: its text, markers and padding dropped
            let c0 = skip_eq(&chars, a, bnd);
            let a2 = skip_ws(&chars, c0, bnd);
            proof {
                assert(forall|q: int| 0 <= q < c0 - a ==> #[trigger] t[q] == '=');
                if c0 < bnd {
                    assert(t[c0 - a] != '=');
                }
                lemma_strip_eq_at(t, c0 - a);
                assert(t.skip(c0 - a) =~= content@.subrange(c0 as int, bnd as int));
                let st = content@.subrange(c0 as int, bnd as int);
                assert(forall|q: int| 0 <= q < a2 - c0 ==> is_ws(#[trigger] st[q]));
                if a2 < bnd {
                    assert(!is_ws(st[a2 - c0]));
                }
                lemma_trim_start_at(st, a2 - c0);
                assert(st.skip(a2 - c0) =~= content@.subrange(a2 as int, bnd as int));
            }
            let piece = content.substring_char(a2, bnd);
            return piece.to_owned();
        }
        if le == n {
            return fallback_title(filename);
        }
        ls = le + 1;
        proof {
            assert(rest.skip(line_len(rest) as int + 1) =~= content@.skip(ls as int));
        }
    }
    fallback_title(filename)
}

/// The title derived from a file name when its source has no heading.
pub open spec fn spec_fallback_title(name: Seq<char>) -> Seq<char> {
    words_title(
        spec_stem(name).map_values(
            |c: char|
                if c == '_' {
                    ' '
                } else {
                    c
                },
        ),
    )
}

/// The words of a run, each with its first ASCII letter upper-cased, joined
/// by single spaces.
pub open spec fn words_title(s: Seq<char>) -> Seq<char>
    decreases s.len(), 1int,
{
    if s.len() == 0 {
        Seq::empty()
    } else if is_ws(s.first()) {
        words_title(s.drop_first())
    } else {
        seq![crate::auth::spec_ascii_upper(s.first())] + word_rest(s.drop_first())
    }
}

/// The rest of a word, then the remaining words behind one space.
pub open spec fn word_rest(s: Seq<char>) -> Seq<char>
    decreases s.len(), 0int,
{
    if s.len() == 0 {
        Seq::empty()
    } else if !is_ws(s.first()) {
        seq![s.first()] + word_rest(s.drop_first())
    } else {
        let more = words_title(s.drop_first());
        if more.len() > 0 {
            seq![' '] + more
        } else {
            Seq::empty()
        }
    }
}

/// The words still owed, behind one space when they follow earlier text.
pub open spec fn words_more(s: Seq<char>, sep: bool) -> Seq<char> {
    if words_title(s).len() == 0 {
        Seq::empty()
    } else if sep {
        seq![' '] + words_title(s)
    } else {
        words_title(s)
    }
}

/// A word splits off the front of `word_rest` character by character.
proof fn lemma_word_rest_split(s: Seq<char>, e: int)
    requires
        0 <= e <= s.len(),
        forall|q: int| 0 <= q < e ==> !is_ws(#[trigger] s[q]),
    ensures
        word_rest(s) == s.take(e) + word_rest(s.skip(e)),
    decreases e,
{
    if e == 0 {
        assert(s.take(0) =~= Seq::<char>::empty());
        assert(s.skip(0) =~= s);
        assert(s.take(0) + word_rest(s) =~= word_rest(s));
    } else {
        assert(forall|q: int| 0 <= q < e - 1 ==> !is_ws(#[trigger] s.drop_first()[q]));
        lemma_word_rest_split(s.drop_first(), e - 1);
        assert(s.drop_first().take(e - 1) =~= s.take(e).drop_first());
        assert(s.drop_first().skip(e - 1) =~= s.skip(e));
        assert(seq![s.first()] + (s.take(e).drop_first() + word_rest(s.skip(e))) =~= s.take(e)
            + word_rest(s.skip(e)));
    }
}

/// Skipping one whitespace character leaves the words unchanged.
proof fn lemma_words_skip_ws(s: Seq<char>)
    requires
        s.len() > 0,
        is_ws(s.first()),
    ensures
        words_title(s) == words_title(s.drop_first()),
{
}

/// Builds the fallback title from the file name.
fn fallback_title(filename: &str) -> (r: String)
    ensures
        r@ == spec_fallback_title(filename@),
{
    let raw = collect_chars(filename);
    let n0 = raw.len();
    let mut stem_len: usize = n0;
    proof {
        assert(raw@.take(n0 as int) =~= raw@);
    }
    while has_typ_suffix(&raw, stem_len)
        invariant
            stem_len <= n0 == raw@.len(),
            raw@ == filename@,
            spec_stem(filename@) == spec_stem(raw@.take(stem_len as int)),
        decreases stem_len,
    {
        proof {
            let cur = raw@.take(stem_len as int);
            assert(cur.take(stem_len as int - 4) =~= raw@.take(stem_len as int - 4));
        }
        stem_len = stem_len - 4;
    }
    proof {
        assert(spec_stem(raw@.take(stem_len as int)) == raw@.take(stem_len as int));
    }
    // underscores become spaces before the words are gathered
    let ghost mapped = spec_stem(filename@).map_values(
        |c: char|
            if c == '_' {
                ' '
            } else {
                c
            },
    );
    let mut chars: Vec<char> = Vec::new();
    let mut q: usize = 0;
    while q < stem_len
        invariant
            q <= stem_len <= raw@.len(),
            raw@ == filename@,
            spec_stem(filename@) == raw@.take(stem_len as int),
            mapped == spec_stem(filename@).map_values(
                |c: char|
                    if c == '_' {
                        ' '
                    } else {
                        c
                    },
            ),
            chars@ == mapped.take(q as int),
        decreases stem_len - q,
    {
        let c = raw[q];
        chars.push(
            if c == '_' {
                ' '
            } else {
                c
            },
        );
        q = q + 1;
        proof {
            assert(chars@ =~= mapped.take(q as int));
        }
    }
    proof {
        assert(chars@ =~= mapped);
    }
    let n = chars.len();
    let mut out: String = String::new();
    let mut i: usize = 0;
    proof {
        assert(mapped.skip(0) =~= mapped);
        assert(out@ + words_more(mapped, false) =~= words_title(mapped));
    }
    while i < n
        invariant
            i <= n == chars@.len(),
            chars@ == mapped,
            words_title(mapped) == out@ + words_more(mapped.skip(i as int), out@.len() > 0),
        decreases n - i,
    {
        let ghost before = out@;
        let c = chars[i];
        if c == ' ' || c == '\t' || c == '\r' {
            i = i + 1;
            proof {
                lemma_words_skip_ws(mapped.skip(i - 1));
                assert(mapped.skip(i - 1).drop_first() =~= mapped.skip(i as int));
            }
        } else {
            // a word: find its end, then append its capitalized text
            let ws = i;
            let mut we: usize = i + 1;
            while we < n && !ws_at(&chars, we)
                invariant
                    ws < we <= n == chars@.len(),
                    chars@ == mapped,
                    forall|q2: int| ws < q2 < we ==> !is_ws(#[trigger] mapped[q2]),
                decreases n - we,
            {
                we = we + 1;
            }
            proof {
                reveal_strlit(" ");
            }
            if !out.as_str().is_empty() {
                out.append(" ");
            }
            let up = crate::auth::ascii_upper(c);
            append_char(&mut out, up);
            let rest_piece = substring_of(&chars, ws + 1, we);
            out.append(rest_piece.as_str());
            proof {
                let w = mapped.skip(ws as int);
                assert(!is_ws(w.first()));
                assert(words_title(w) == seq![crate::auth::spec_ascii_upper(mapped[ws as int])]
                    + word_rest(w.drop_first()));
                let body = w.drop_first();
                assert(body =~= mapped.skip(ws as int + 1));
                assert(forall|q2: int| 0 <= q2 < we - ws - 1 ==> !is_ws(#[trigger] body[q2]));
                lemma_word_rest_split(body, we - ws - 1);
                assert(body.take(we - ws - 1) =~= mapped.subrange(ws as int + 1, we as int));
                assert(body.skip(we - ws - 1) =~= mapped.skip(we as int));
                // the remainder behind the word lines up with the owed words
                if we < n {
                    assert(is_ws(mapped[we as int]));
                    assert(word_rest(mapped.skip(we as int)) =~= words_more(
                        mapped.skip(we as int),
                        true,
                    )) by {
                        lemma_words_skip_ws(mapped.skip(we as int));
                        assert(mapped.skip(we as int).drop_first() =~= mapped.skip(we as int + 1));
                    }
                } else {
                    assert(mapped.skip(we as int) =~= Seq::<char>::empty());
                }
                assert(out@ =~= before + (if before.len() > 0 {
                    seq![' ']
                } else {
                    Seq::<char>::empty()
                }) + seq![crate::auth::spec_ascii_upper(mapped[ws as int])] + mapped.subrange(
                    ws as int + 1,
                    we as int,
                ));
                assert(words_title(mapped) =~= out@ + words_more(
                    mapped.skip(we as int),
                    out@.len() > 0,
                ));
            }
            i = we;
        }
    }
    proof {
        assert(mapped.skip(n as int) =~= Seq::<char>::empty());
        assert(words_title(mapped) =~= out@);
    }
    out
}

/// Appends one character.
fn append_char(out: &mut String, c: char)
    ensures
        final(out)@ == old(out)@ + seq![c],
{
    let u = c as u32;
    if u < 128 {
        let mut bytes: Vec<u8> = Vec::new();
        bytes.push(u as u8);
        proof {
            assert(bytes@ =~= seq![(c as u32) as u8]);
            assert(ascii_only(bytes@));
        }
        let piece = ascii_string(&bytes);
        proof {
            assert(piece@ =~= seq![c]) by {
                assert(piece@[0] == ((c as u32) as u8) as char);
            }
        }
        out.append(piece.as_str());
    } else {
        let piece = one_char_string(c);
        out.append(piece.as_str());
    }
}

/// Relies on `String::push`: the string grows by exactly the one character.
#[verifier::external_body]
fn one_char_string(c: char) -> (r: String)
    ensures
        r@ == seq![c],
{
    let mut s = String::new();
    s.push(c);
    s
}

/// A stretch of the gathered characters, taken back out as text.
fn substring_of(chars: &Vec<char>, from: usize, to: usize) -> (r: String)
    requires
        from <= to <= chars@.len(),
    ensures
        r@ == chars@.subrange(from as int, to as int),
{
    let mut out: String = String::new();
    let mut q = from;
    proof {
        assert(out@ =~= chars@.subrange(from as int, from as int));
    }
    while q < to
        invariant
            from <= q <= to <= chars@.len(),
            out@ == chars@.subrange(from as int, q as int),
        decreases to - q,
    {
        let c = chars[q];
        append_char(&mut out, c);
        q = q + 1;
        proof {
            assert(out@ =~= chars@.subrange(from as int, q as int));
        }
    }
    out
}

} // verus!
