//! Character-level text utilities with specifications: Unicode white space,
//! splitting into words and lines, trimming, substring search, and conversions
//! between `&str`, `String` and character vectors.

use std::str::Chars;
use vstd::prelude::*;
use vstd::std_specs::iter::IteratorSpec;
use vstd::string::StrSliceExecFns;
use vstd::string::StringExecFns;

verus! {

broadcast use vstd::string::group_string_axioms;

/// The Unicode `White_Space` property (PropList.txt), which is what
/// `char::is_whitespace`, `str::trim` and `str::split_whitespace` use.
pub open spec fn is_white(c: char) -> bool {
    let u = c as u32;
    ||| (0x9 <= u && u <= 0xd)
    ||| u == 0x20
    ||| u == 0x85
    ||| u == 0xa0
    ||| u == 0x1680
    ||| (0x2000 <= u && u <= 0x200a)
    ||| u == 0x2028
    ||| u == 0x2029
    ||| u == 0x202f
    ||| u == 0x205f
    ||| u == 0x3000
}

/// Decides `is_white`.
pub fn is_white_char(c: char) -> (b: bool)
    ensures
        b == is_white(c),
{
    let u = c as u32;
    (0x9 <= u && u <= 0xd) || u == 0x20 || u == 0x85 || u == 0xa0 || u == 0x1680 || (0x2000 <= u
        && u <= 0x200a) || u == 0x2028 || u == 0x2029 || u == 0x202f || u == 0x205f || u == 0x3000
}

/// The characters of `s`, in order.
pub fn chars_of(s: &str) -> (v: Vec<char>)
    ensures
        v@ == s@,
{
    let mut it: Chars = s.chars();
    let mut v: Vec<char> = Vec::new();
    loop
        invariant
            it.obeys_prophetic_iter_laws(),
            it.decrease() is Some,
            s@ == v@ + it.remaining(),
        ensures
            v@ == s@,
        decreases it.decrease()->0,
    {
        match it.next() {
            Some(c) => {
                v.push(c);
            },
            None => {
                assert(v@ + it.remaining() =~= v@);
                break ;
            },
        }
    }
    v
}

/// `String::from_iter` over characters: the string made of `chars`, in order.
#[verifier::external_body]
pub(crate) fn string_from_chars(chars: &[char]) -> (s: String)
    ensures
        s@ == chars@,
{
    String::from_iter(chars.iter())
}

/// The concatenation of two strings, as a new `String`.
pub fn concat(a: &str, b: &str) -> (s: String)
    ensures
        s@ == a@ + b@,
{
    let mut s = String::from_str(a);
    s.append(b);
    s
}

/// The views of a sequence of string slices.
pub open spec fn views(v: Seq<&str>) -> Seq<Seq<char>> {
    v.map_values(|p: &str| p@)
}

/// The views of a sequence of strings.
pub open spec fn string_views(v: Seq<String>) -> Seq<Seq<char>> {
    v.map_values(|p: String| p@)
}

// ---------------------------------------------------------------------------
// Substring search
/// `needle` occurs in `hay` starting at character index `i`.
pub open spec fn occurs_at(hay: Seq<char>, needle: Seq<char>, i: int) -> bool {
    0 <= i && i + needle.len() <= hay.len() && hay.subrange(i, i + needle.len()) == needle
}

/// `needle` occurs somewhere in `hay` (what `str::contains` tests).
pub open spec fn contains_seq(hay: Seq<char>, needle: Seq<char>) -> bool {
    exists|i: int| occurs_at(hay, needle, i)
}

/// Decides whether `needle` occurs in `hay` at index `i`.
pub fn occurs_at_exec(hay: &[char], needle: &[char], i: usize) -> (b: bool)
    ensures
        b == occurs_at(hay@, needle@, i as int),
{
    if i > hay.len() || needle.len() > hay.len() - i {
        return false;
    }
    let mut k: usize = 0;
    while k < needle.len()
        invariant
            k <= needle.len(),
            i + needle.len() <= hay.len(),
            forall|j: int| 0 <= j < k ==> hay@[i + j] == needle@[j],
        decreases needle.len() - k,
    {
        if hay[i + k] != needle[k] {
            assert(hay@.subrange(i as int, i + needle.len())[k as int] != needle@[k as int]);
            return false;
        }
        k = k + 1;
    }
    assert(hay@.subrange(i as int, i + needle.len()) =~= needle@);
    true
}

/// Decides whether `needle` occurs anywhere in `hay`.
pub fn contains_chars(hay: &[char], needle: &[char]) -> (b: bool)
    ensures
        b == contains_seq(hay@, needle@),
{
    if needle.len() > hay.len() {
        return false;
    }
    let last = hay.len() - needle.len();
    let mut i: usize = 0;
    while i < last
        invariant
            last == hay.len() - needle.len(),
            i <= last,
            forall|j: int| 0 <= j < i ==> !occurs_at(hay@, needle@, j),
        decreases last - i,
    {
        if occurs_at_exec(hay, needle, i) {
            return true;
        }
        i = i + 1;
    }
    if occurs_at_exec(hay, needle, last) {
        return true;
    }
    assert forall|j: int| !occurs_at(hay@, needle@, j) by {
        if 0 <= j < i {
        }
    }
    false
}

/// Decides whether two character slices are equal.
pub fn chars_eq(a: &[char], b: &[char]) -> (r: bool)
    ensures
        r == (a@ == b@),
{
    if a.len() != b.len() {
        return false;
    }
    assert(a@.subrange(0, b@.len() as int) =~= a@);
    occurs_at_exec(a, b, 0)
}

/// Decides whether `p` is a prefix of `s`.
pub fn starts_with_chars(s: &[char], p: &[char]) -> (r: bool)
    ensures
        r == p@.is_prefix_of(s@),
{
    occurs_at_exec(s, p, 0)
}

/// Decides whether `p` is a suffix of `s`.
pub fn ends_with_chars(s: &[char], p: &[char]) -> (r: bool)
    ensures
        r == p@.is_suffix_of(s@),
{
    if p.len() > s.len() {
        return false;
    }
    occurs_at_exec(s, p, s.len() - p.len())
}

// ---------------------------------------------------------------------------
// Trimming
/// Which characters a trim removes: white space (`str::trim`) or one given
/// character (`str::trim_matches(c)`).
pub enum CharClass {
    White,
    Only(char),
}

impl CharClass {
    pub open spec fn holds(self, c: char) -> bool {
        match self {
            CharClass::White => is_white(c),
            CharClass::Only(x) => c == x,
        }
    }

    pub fn test(&self, c: char) -> (b: bool)
        ensures
            b == self.holds(c),
    {
        match self {
            CharClass::White => is_white_char(c),
            CharClass::Only(x) => c == *x,
        }
    }
}

/// `s` without its leading characters of class `k`.
pub open spec fn trim_start(s: Seq<char>, k: CharClass) -> Seq<char>
    decreases s.len(),
{
    if s.len() > 0 && k.holds(s[0]) {
        trim_start(s.drop_first(), k)
    } else {
        s
    }
}

/// `s` without its trailing characters of class `k`.
pub open spec fn trim_end(s: Seq<char>, k: CharClass) -> Seq<char>
    decreases s.len(),
{
    if s.len() > 0 && k.holds(s.last()) {
        trim_end(s.drop_last(), k)
    } else {
        s
    }
}

/// `s` without leading and trailing characters of class `k`.
pub open spec fn trim_class(s: Seq<char>, k: CharClass) -> Seq<char> {
    trim_end(trim_start(s, k), k)
}

/// `s` without leading and trailing white space (`str::trim`).
pub open spec fn trim(s: Seq<char>) -> Seq<char> {
    trim_class(s, CharClass::White)
}

/// The bounds of what remains of `cs` once the characters of class `k` are
/// trimmed from both ends.
pub fn trim_bounds(cs: &[char], k: &CharClass) -> (r: (usize, usize))
    ensures
        r.0 <= r.1 <= cs@.len(),
        cs@.subrange(r.0 as int, r.1 as int) == trim_class(cs@, *k),
{
    let n = cs.len();
    let mut lo: usize = 0;
    assert(cs@.skip(0) =~= cs@);
    while lo < n && k.test(cs[lo])
        invariant
            lo <= n,
            n == cs@.len(),
            trim_start(cs@, *k) == trim_start(cs@.skip(lo as int), *k),
        decreases n - lo,
    {
        assert(cs@.skip(lo as int).drop_first() =~= cs@.skip(lo + 1));
        lo = lo + 1;
    }
    assert(trim_start(cs@.skip(lo as int), *k) == cs@.skip(lo as int));
    let mut hi: usize = n;
    assert(cs@.subrange(lo as int, n as int) =~= cs@.skip(lo as int));
    while hi > lo && k.test(cs[hi - 1])
        invariant
            lo <= hi <= n,
            n == cs@.len(),
            trim_class(cs@, *k) == trim_end(cs@.subrange(lo as int, hi as int), *k),
        decreases hi,
    {
        assert(cs@.subrange(lo as int, hi as int).drop_last() =~= cs@.subrange(
            lo as int,
            hi - 1,
        ));
        hi = hi - 1;
    }
    (lo, hi)
}

/// `s` with the characters of class `k` trimmed from both ends.
pub fn trim_str<'a>(s: &'a str, k: &CharClass) -> (r: &'a str)
    ensures
        r@ == trim_class(s@, *k),
{
    let cs = chars_of(s);
    let (lo, hi) = trim_bounds(cs.as_slice(), k);
    s.substring_char(lo, hi)
}

// ---------------------------------------------------------------------------
// Words and lines
/// The pending word `cur`, as a sequence of zero or one words.
pub open spec fn flush(cur: Seq<char>) -> Seq<Seq<char>> {
    if cur.len() > 0 {
        seq![cur]
    } else {
        seq![]
    }
}

/// The words of `s`, given that `cur` is the word in progress before `s`.
pub open spec fn words_acc(s: Seq<char>, cur: Seq<char>) -> Seq<Seq<char>>
    decreases s.len(),
{
    if s.len() == 0 {
        flush(cur)
    } else if is_white(s[0]) {
        flush(cur) + words_acc(s.drop_first(), seq![])
    } else {
        words_acc(s.drop_first(), cur.push(s[0]))
    }
}

/// The maximal runs of non-white-space characters of `s`, in order
/// (`str::split_whitespace`).
pub open spec fn words(s: Seq<char>) -> Seq<Seq<char>> {
    words_acc(s, seq![])
}

/// The words of `s` (`str::split_whitespace`), as slices of `s`.
pub fn split_whitespace<'a>(s: &'a str) -> (parts: Vec<&'a str>)
    ensures
        views(parts@) == words(s@),
{
    let cs = chars_of(s);
    let n = cs.len();
    let mut parts: Vec<&'a str> = Vec::new();
    let mut start: usize = 0;
    let mut i: usize = 0;
    assert(cs@.skip(0) =~= cs@);
    assert(cs@.subrange(0, 0) =~= Seq::<char>::empty());
    while i < n
        invariant
            start <= i <= n,
            n == cs@.len(),
            cs@ == s@,
            words(s@) == views(parts@) + words_acc(
                cs@.skip(i as int),
                cs@.subrange(start as int, i as int),
            ),
        decreases n - i,
    {
        let ghost cur = cs@.subrange(start as int, i as int);
        let ghost old_parts = parts@;
        assert(cs@.skip(i as int).drop_first() =~= cs@.skip(i + 1));
        assert(cs@.skip(i as int)[0] == cs@[i as int]);
        if is_white_char(cs[i]) {
            if start < i {
                let w = s.substring_char(start, i);
                parts.push(w);
                assert(views(parts@) =~= views(old_parts) + flush(cur));
            } else {
                assert(views(old_parts) + flush(cur) =~= views(old_parts));
            }
            start = i + 1;
            assert(cs@.subrange(start as int, (i + 1) as int) =~= Seq::<char>::empty());
            assert(views(parts@) + words_acc(cs@.skip(i + 1), seq![]) =~= views(old_parts) + (
            flush(cur) + words_acc(cs@.skip(i + 1), seq![])));
        } else {
            assert(cur.push(cs@[i as int]) =~= cs@.subrange(start as int, i + 1));
        }
        i = i + 1;
    }
    let ghost cur = cs@.subrange(start as int, n as int);
    let ghost old_parts = parts@;
    assert(cs@.skip(n as int) =~= Seq::<char>::empty());
    if start < n {
        let w = s.substring_char(start, n);
        parts.push(w);
        assert(views(parts@) =~= views(old_parts) + flush(cur));
    } else {
        assert(views(old_parts) + flush(cur) =~= views(old_parts));
    }
    parts
}

/// A line without the carriage return of a `\r\n` ending.
pub open spec fn strip_cr(line: Seq<char>) -> Seq<char> {
    if line.len() > 0 && line.last() == '\r' {
        line.drop_last()
    } else {
        line
    }
}

/// The lines of `s`, given that `cur` is the line in progress before `s`.
pub open spec fn lines_acc(s: Seq<char>, cur: Seq<char>) -> Seq<Seq<char>>
    decreases s.len(),
{
    if s.len() == 0 {
        flush(cur)
    } else if s[0] == '\n' {
        seq![strip_cr(cur)] + lines_acc(s.drop_first(), seq![])
    } else {
        lines_acc(s.drop_first(), cur.push(s[0]))
    }
}

/// The lines of `s` (`str::lines`): split at `\n`, a `\r` right before the
/// `\n` dropped, and no empty last line after a final `\n`.
pub open spec fn lines(s: Seq<char>) -> Seq<Seq<char>> {
    lines_acc(s, seq![])
}

/// The lines of `s` (`str::lines`), as slices of `s`.
pub fn split_lines<'a>(s: &'a str) -> (parts: Vec<&'a str>)
    ensures
        views(parts@) == lines(s@),
{
    let cs = chars_of(s);
    let n = cs.len();
    let mut parts: Vec<&'a str> = Vec::new();
    let mut start: usize = 0;
    let mut i: usize = 0;
    assert(cs@.skip(0) =~= cs@);
    assert(cs@.subrange(0, 0) =~= Seq::<char>::empty());
    while i < n
        invariant
            start <= i <= n,
            n == cs@.len(),
            cs@ == s@,
            lines(s@) == views(parts@) + lines_acc(
                cs@.skip(i as int),
                cs@.subrange(start as int, i as int),
            ),
        decreases n - i,
    {
        let ghost cur = cs@.subrange(start as int, i as int);
        let ghost old_parts = parts@;
        assert(cs@.skip(i as int).drop_first() =~= cs@.skip(i + 1));
        assert(cs@.skip(i as int)[0] == cs@[i as int]);
        if cs[i] == '\n' {
            let end = if start < i && cs[i - 1] == '\r' {
                i - 1
            } else {
                i
            };
            assert(cs@.subrange(start as int, end as int) =~= strip_cr(cur));
            let w = s.substring_char(start, end);
            parts.push(w);
            assert(views(parts@) =~= views(old_parts) + seq![strip_cr(cur)]);
            start = i + 1;
            assert(cs@.subrange(start as int, (i + 1) as int) =~= Seq::<char>::empty());
            assert(views(parts@) + lines_acc(cs@.skip(i + 1), seq![]) =~= views(old_parts) + (seq![
                strip_cr(cur),
            ] + lines_acc(cs@.skip(i + 1), seq![])));
        } else {
            assert(cur.push(cs@[i as int]) =~= cs@.subrange(start as int, i + 1));
        }
        i = i + 1;
    }
    let ghost cur = cs@.subrange(start as int, n as int);
    let ghost old_parts = parts@;
    assert(cs@.skip(n as int) =~= Seq::<char>::empty());
    if start < n {
        let w = s.substring_char(start, n);
        parts.push(w);
        assert(views(parts@) =~= views(old_parts) + flush(cur));
    } else {
        assert(views(old_parts) + flush(cur) =~= views(old_parts));
    }
    parts
}

// ---------------------------------------------------------------------------
// Splitting at a separator
/// The pieces of `s` separated by `sep`, given that `cur` is the piece read so
/// far; empty pieces are kept (`str::split(sep)`).
pub open spec fn split_acc(s: Seq<char>, sep: char, cur: Seq<char>) -> Seq<Seq<char>>
    decreases s.len(),
{
    if s.len() == 0 {
        seq![cur]
    } else if s[0] == sep {
        seq![cur] + split_acc(s.drop_first(), sep, seq![])
    } else {
        split_acc(s.drop_first(), sep, cur.push(s[0]))
    }
}

/// The pieces of `s` separated by `sep` (`str::split(sep)`).
pub open spec fn split_on(s: Seq<char>, sep: char) -> Seq<Seq<char>> {
    split_acc(s, sep, seq![])
}

/// The bounds of the pieces of `cs` separated by `sep`.
pub fn split_bounds(cs: &[char], sep: char) -> (b: Vec<(usize, usize)>)
    ensures
        b@.len() == split_on(cs@, sep).len(),
        forall|k: int|
            0 <= k < b@.len() ==> b@[k].0 <= b@[k].1 <= cs@.len() && #[trigger] split_on(cs@, sep)[k]
                == cs@.subrange(b@[k].0 as int, b@[k].1 as int),
{
    let n = cs.len();
    let mut b: Vec<(usize, usize)> = Vec::new();
    let mut start: usize = 0;
    let mut i: usize = 0;
    assert(cs@.skip(0) =~= cs@);
    assert(cs@.subrange(0, 0) =~= Seq::<char>::empty());
    while i < n
        invariant
            start <= i <= n,
            n == cs@.len(),
            split_on(cs@, sep) =~= b@.map_values(|p: (usize, usize)| cs@.subrange(p.0 as int, p.1 as int))
                + split_acc(cs@.skip(i as int), sep, cs@.subrange(start as int, i as int)),
            forall|k: int| 0 <= k < b@.len() ==> (#[trigger] b@[k]).0 <= b@[k].1 <= cs@.len(),
        decreases n - i,
    {
        let ghost cur = cs@.subrange(start as int, i as int);
        let ghost before = b@.map_values(|p: (usize, usize)| cs@.subrange(p.0 as int, p.1 as int));
        assert(cs@.skip(i as int).drop_first() =~= cs@.skip(i + 1));
        assert(cs@.skip(i as int)[0] == cs@[i as int]);
        if cs[i] == sep {
            b.push((start, i));
            assert(b@.map_values(|p: (usize, usize)| cs@.subrange(p.0 as int, p.1 as int)) =~= before
                + seq![cur]);
            start = i + 1;
            assert(cs@.subrange(start as int, (i + 1) as int) =~= Seq::<char>::empty());
        } else {
            assert(cur.push(cs@[i as int]) =~= cs@.subrange(start as int, i + 1));
        }
        i = i + 1;
    }
    let ghost before = b@.map_values(|p: (usize, usize)| cs@.subrange(p.0 as int, p.1 as int));
    assert(cs@.skip(n as int) =~= Seq::<char>::empty());
    b.push((start, n));
    assert(b@.map_values(|p: (usize, usize)| cs@.subrange(p.0 as int, p.1 as int)) =~= before + seq![
        cs@.subrange(start as int, n as int),
    ]);
    assert forall|k: int| 0 <= k < b@.len() implies #[trigger] split_on(cs@, sep)[k]
        == cs@.subrange(b@[k].0 as int, b@[k].1 as int) by {
        assert(b@.map_values(|p: (usize, usize)| cs@.subrange(p.0 as int, p.1 as int))[k]
            == cs@.subrange(b@[k].0 as int, b@[k].1 as int));
    }
    b
}

/// Splitting a text with no separator in it, after a piece in progress.
pub proof fn lemma_split_no_sep(a: Seq<char>, sep: char, cur: Seq<char>)
    requires
        !a.contains(sep),
    ensures
        split_acc(a, sep, cur) == seq![cur + a],
    decreases a.len(),
{
    if a.len() == 0 {
        assert(cur + a =~= cur);
    } else {
        assert(a[0] != sep);
        assert(!a.drop_first().contains(sep)) by {
            if a.drop_first().contains(sep) {
                let i = choose|i: int| 0 <= i < a.drop_first().len() && a.drop_first()[i] == sep;
                assert(a[i + 1] == sep);
            }
        }
        lemma_split_no_sep(a.drop_first(), sep, cur.push(a[0]));
        assert(cur.push(a[0]) + a.drop_first() =~= cur + a);
    }
}

/// Splitting `a`, a separator, then `b`, where `a` holds no separator.
pub proof fn lemma_split_piece(a: Seq<char>, sep: char, b: Seq<char>, cur: Seq<char>)
    requires
        !a.contains(sep),
    ensures
        split_acc(a + seq![sep] + b, sep, cur) == seq![cur + a] + split_acc(b, sep, seq![]),
    decreases a.len(),
{
    let s = a + seq![sep] + b;
    if a.len() == 0 {
        assert(s[0] == sep);
        assert(s.drop_first() =~= b);
        assert(cur + a =~= cur);
    } else {
        assert(a[0] != sep);
        assert(s[0] == a[0]);
        assert(s.drop_first() =~= a.drop_first() + seq![sep] + b);
        assert(!a.drop_first().contains(sep)) by {
            if a.drop_first().contains(sep) {
                let i = choose|i: int| 0 <= i < a.drop_first().len() && a.drop_first()[i] == sep;
                assert(a[i + 1] == sep);
            }
        }
        lemma_split_piece(a.drop_first(), sep, b, cur.push(a[0]));
        assert(cur.push(a[0]) + a.drop_first() =~= cur + a);
    }
}

} // verus!
