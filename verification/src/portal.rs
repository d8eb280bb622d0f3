//! Scanning a router's web portal: the URL of a port, the patterns that find
//! a client-side redirect, script tags, script sources and endpoint paths in
//! page text, and the decisions taken between the HTTP requests.

use crate::decimal::i32_to_string;
use crate::decimal::signed_decimal;
use crate::text::chars_of;
use crate::text::concat;
use crate::text::ends_with_chars;
use crate::text::is_white;
use crate::text::is_white_char;
use crate::text::occurs_at;
use crate::text::occurs_at_exec;
use crate::text::starts_with_chars;
use crate::text::string_views;
use base64::prelude::Engine;
use base64::prelude::BASE64_STANDARD;
use vstd::prelude::*;
use vstd::string::StrSliceExecFns;
use vstd::string::StringExecFns;

verus! {

broadcast use vstd::string::group_string_axioms;

// ---------------------------------------------------------------------------
// Shared pieces of the patterns
/// The end of the run of white space in `s` that starts at `i` (`\s*`).
pub open spec fn skip_white(s: Seq<char>, i: int) -> int
    decreases s.len() - i,
{
    if 0 <= i < s.len() && is_white(s[i]) {
        skip_white(s, i + 1)
    } else {
        i
    }
}

/// The first index at or after `from` that holds `c`.
pub open spec fn next_index_of(s: Seq<char>, from: int, c: char) -> Option<int>
    decreases s.len() - from,
{
    if from < 0 || from >= s.len() {
        None
    } else if s[from] == c {
        Some(from)
    } else {
        next_index_of(s, from + 1, c)
    }
}

/// The last index in `[lo, hi)` that holds `c`.
pub open spec fn last_index_in(s: Seq<char>, lo: int, hi: int, c: char) -> Option<int>
    decreases hi - lo,
{
    if hi <= lo {
        None
    } else if s[hi - 1] == c {
        Some(hi - 1)
    } else {
        last_index_in(s, lo, hi - 1, c)
    }
}

/// The end of the run of characters other than `c` that starts at `k`.
pub open spec fn run_end_without(s: Seq<char>, k: int, c: char) -> int
    decreases s.len() - k,
{
    if 0 <= k < s.len() && s[k] != c {
        run_end_without(s, k + 1, c)
    } else {
        k
    }
}

fn skip_white_exec(cs: &[char], i: usize) -> (j: usize)
    requires
        i <= cs@.len(),
    ensures
        j as int == skip_white(cs@, i as int),
        i <= j <= cs@.len(),
{
    let mut j = i;
    while j < cs.len() && is_white_char(cs[j])
        invariant
            i <= j <= cs@.len(),
            skip_white(cs@, i as int) == skip_white(cs@, j as int),
        decreases cs.len() - j,
    {
        j = j + 1;
    }
    j
}

fn next_index_exec(cs: &[char], from: usize, c: char) -> (r: Option<usize>)
    ensures
        match r {
            Some(k) => next_index_of(cs@, from as int, c) == Some(k as int),
            None => next_index_of(cs@, from as int, c) is None,
        },
{
    let mut k = from;
    while k < cs.len() && cs[k] != c
        invariant
            from <= k,
            next_index_of(cs@, from as int, c) == next_index_of(cs@, k as int, c),
        decreases cs.len() - k,
    {
        k = k + 1;
    }
    if k < cs.len() {
        Some(k)
    } else {
        None
    }
}

fn last_index_exec(cs: &[char], lo: usize, hi: usize, c: char) -> (r: Option<usize>)
    requires
        hi <= cs@.len(),
    ensures
        match r {
            Some(q) => last_index_in(cs@, lo as int, hi as int, c) == Some(q as int),
            None => last_index_in(cs@, lo as int, hi as int, c) is None,
        },
{
    let mut h = hi;
    while h > lo && cs[h - 1] != c
        invariant
            h <= hi <= cs@.len(),
            last_index_in(cs@, lo as int, hi as int, c) == last_index_in(cs@, lo as int, h as int, c),
        decreases h,
    {
        h = h - 1;
    }
    if h > lo {
        Some(h - 1)
    } else {
        None
    }
}

fn run_end_without_exec(cs: &[char], k: usize, c: char) -> (r: usize)
    requires
        k <= cs@.len(),
    ensures
        r as int == run_end_without(cs@, k as int, c),
        k <= r <= cs@.len(),
{
    let mut j = k;
    while j < cs.len() && cs[j] != c
        invariant
            k <= j <= cs@.len(),
            run_end_without(cs@, k as int, c) == run_end_without(cs@, j as int, c),
        decreases cs.len() - j,
    {
        j = j + 1;
    }
    j
}

// ---------------------------------------------------------------------------
// url\s*=\s*'([^']+)'
pub open spec fn url_word() -> Seq<char> {
    seq!['u', 'r', 'l']
}

/// Where `url\s*=\s*'([^']+)'` matches at `i`, the bounds of its group.
pub open spec fn url_match_at(s: Seq<char>, i: int) -> Option<(int, int)> {
    if occurs_at(s, url_word(), i) {
        let j = skip_white(s, i + 3);
        if j < s.len() && s[j] == '=' {
            let k = skip_white(s, j + 1);
            if k < s.len() && s[k] == '\'' {
                if let Some(m) = next_index_of(s, k + 1, '\'') {
                    if m > k + 1 {
                        Some((k + 1, m))
                    } else {
                        None
                    }
                } else {
                    None
                }
            } else {
                None
            }
        } else {
            None
        }
    } else {
        None
    }
}

/// The group of the leftmost match of `url\s*=\s*'([^']+)'` at or after `from`.
pub open spec fn first_url_match(s: Seq<char>, from: int) -> Option<(int, int)>
    decreases s.len() - from,
{
    if from < 0 || from >= s.len() {
        None
    } else if let Some(r) = url_match_at(s, from) {
        Some(r)
    } else {
        first_url_match(s, from + 1)
    }
}

/// The URL that a client-side redirect script assigns, as the pattern
/// `url\s*=\s*'([^']+)'` captures it.
pub open spec fn redirect_url(s: Seq<char>) -> Option<Seq<char>> {
    match first_url_match(s, 0) {
        Some((a, b)) => Some(s.subrange(a, b)),
        None => None,
    }
}

fn url_match_at_exec(cs: &[char], i: usize) -> (r: Option<(usize, usize)>)
    requires
        i < cs@.len(),
    ensures
        match r {
            Some((a, b)) => url_match_at(cs@, i as int) == Some((a as int, b as int)) && a <= b
                <= cs@.len(),
            None => url_match_at(cs@, i as int) is None,
        },
{
    let n = cs.len();
    let word = vec!['u', 'r', 'l'];
    assert(word@ == url_word());
    if !occurs_at_exec(cs, word.as_slice(), i) {
        return None;
    }
    assert(i + 3 <= cs@.len());
    let j = skip_white_exec(cs, i + 3);
    if !(j < cs.len() && cs[j] == '=') {
        return None;
    }
    let k = skip_white_exec(cs, j + 1);
    if !(k < cs.len() && cs[k] == '\'') {
        return None;
    }
    match next_index_exec(cs, k + 1, '\'') {
        Some(m) => {
            if m > k + 1 {
                proof {
                    lemma_next_index_in_range(cs@, (k + 1) as int, '\'');
                }
                Some((k + 1, m))
            } else {
                None
            }
        },
        None => None,
    }
}

proof fn lemma_next_index_in_range(s: Seq<char>, from: int, c: char)
    ensures
        next_index_of(s, from, c) matches Some(k) ==> from <= k < s.len() && s[k] == c,
    decreases s.len() - from,
{
    if 0 <= from < s.len() && s[from] != c {
        lemma_next_index_in_range(s, from + 1, c);
    }
}

/// The URL assigned in a client-side redirect script (`url = '...'`).
pub fn capture_url_from_redirect_script(redirect_script: &str) -> (url: Option<String>)
    ensures
        match url {
            Some(u) => redirect_url(redirect_script@) == Some(u@),
            None => redirect_url(redirect_script@) is None,
        },
{
    let cs = chars_of(redirect_script);
    let mut i: usize = 0;
    while i < cs.len()
        invariant
            cs@ == redirect_script@,
            first_url_match(cs@, 0) == first_url_match(cs@, i as int),
        decreases cs.len() - i,
    {
        match url_match_at_exec(cs.as_slice(), i) {
            Some((a, b)) => {
                let piece = redirect_script.substring_char(a, b);
                return Some(String::from_str(piece));
            },
            None => {
            },
        }
        i = i + 1;
    }
    None
}

// ---------------------------------------------------------------------------
// <script (.*?)></script>
pub open spec fn script_open() -> Seq<char> {
    seq!['<', 's', 'c', 'r', 'i', 'p', 't', ' ']
}

pub open spec fn script_close() -> Seq<char> {
    seq!['>', '<', '/', 's', 'c', 'r', 'i', 'p', 't', '>']
}

/// Where the lazy `.*?` that starts at `k` stops: the first position at or
/// after `k` where `></script>` begins, with no line break in between.
pub open spec fn lazy_close_from(s: Seq<char>, k: int) -> Option<int>
    decreases s.len() - k,
{
    if k < 0 || k > s.len() {
        None
    } else if occurs_at(s, script_close(), k) {
        Some(k)
    } else if k < s.len() && s[k] != '\n' {
        lazy_close_from(s, k + 1)
    } else {
        None
    }
}

/// Where `<script (.*?)></script>` matches at `i`, the bounds of its group.
pub open spec fn script_match_at(s: Seq<char>, i: int) -> Option<(int, int)> {
    if occurs_at(s, script_open(), i) {
        match lazy_close_from(s, i + 8) {
            Some(k) => Some((i + 8, k)),
            None => None,
        }
    } else {
        None
    }
}

/// The group of the leftmost match of `<script (.*?)></script>` at or after `from`.
pub open spec fn first_script_match(s: Seq<char>, from: int) -> Option<(int, int)>
    decreases s.len() - from,
{
    if from < 0 || from >= s.len() {
        None
    } else if let Some(r) = script_match_at(s, from) {
        Some(r)
    } else {
        first_script_match(s, from + 1)
    }
}

pub proof fn lemma_lazy_close_bounds(s: Seq<char>, k: int)
    ensures
        lazy_close_from(s, k) matches Some(e) ==> k <= e && e + 10 <= s.len(),
    decreases s.len() - k,
{
    if 0 <= k <= s.len() && !occurs_at(s, script_close(), k) && k < s.len() && s[k] != '\n' {
        lemma_lazy_close_bounds(s, k + 1);
    }
}

pub proof fn lemma_first_script_bounds(s: Seq<char>, from: int)
    ensures
        first_script_match(s, from) matches Some((a, b)) ==> from + 8 <= a <= b && b + 10 <= s.len(),
    decreases s.len() - from,
{
    if 0 <= from < s.len() {
        lemma_lazy_close_bounds(s, from + 8);
        if script_match_at(s, from) is None {
            lemma_first_script_bounds(s, from + 1);
        }
    }
}

/// The groups of the successive non-overlapping matches of
/// `<script (.*?)></script>` from `from` on (what `captures_iter` yields).
pub open spec fn script_tags_from(s: Seq<char>, from: int) -> Seq<Seq<char>>
    decreases s.len() - from,
{
    if from < 0 || from >= s.len() {
        seq![]
    } else {
        match first_script_match(s, from) {
            Some((a, b)) => {
                proof {
                    lemma_first_script_bounds(s, from);
                }
                seq![s.subrange(a, b)] + script_tags_from(s, b + 10)
            },
            None => seq![],
        }
    }
}

fn lazy_close_exec(cs: &[char], k: usize) -> (r: Option<usize>)
    requires
        k <= cs@.len(),
    ensures
        match r {
            Some(e) => lazy_close_from(cs@, k as int) == Some(e as int),
            None => lazy_close_from(cs@, k as int) is None,
        },
{
    let close = vec!['>', '<', '/', 's', 'c', 'r', 'i', 'p', 't', '>'];
    assert(close@ == script_close());
    let mut j = k;
    loop
        invariant
            k <= j <= cs@.len(),
            close@ == script_close(),
            lazy_close_from(cs@, k as int) == lazy_close_from(cs@, j as int),
        decreases cs@.len() - j,
    {
        if occurs_at_exec(cs, close.as_slice(), j) {
            return Some(j);
        }
        if j < cs.len() && cs[j] != '\n' {
            j = j + 1;
        } else {
            return None;
        }
    }
}

fn script_match_at_exec(cs: &[char], i: usize) -> (r: Option<(usize, usize)>)
    requires
        i < cs@.len(),
    ensures
        match r {
            Some((a, b)) => script_match_at(cs@, i as int) == Some((a as int, b as int)),
            None => script_match_at(cs@, i as int) is None,
        },
{
    let n = cs.len();
    let open = vec!['<', 's', 'c', 'r', 'i', 'p', 't', ' '];
    assert(open@ == script_open());
    if !occurs_at_exec(cs, open.as_slice(), i) {
        return None;
    }
    assert(i + 8 <= n);
    match lazy_close_exec(cs, i + 8) {
        Some(k) => Some((i + 8, k)),
        None => None,
    }
}

/// The contents of the script tags of an HTML page, as the pattern
/// `<script (.*?)></script>` captures them, match after match.
pub fn find_script_tags(http: &str) -> (tags: Vec<String>)
    ensures
        string_views(tags@) == script_tags_from(http@, 0),
{
    let cs = chars_of(http);
    let n = cs.len();
    let mut tags: Vec<String> = Vec::new();
    let mut pos: usize = 0;
    while pos < n
        invariant
            pos <= n,
            n == cs@.len(),
            cs@ == http@,
            script_tags_from(http@, 0) == string_views(tags@) + script_tags_from(http@, pos as int),
        decreases n - pos,
    {
        let mut i = pos;
        let mut found: Option<(usize, usize)> = None;
        while i < n
            invariant_except_break
                found is None,
                first_script_match(cs@, pos as int) == first_script_match(cs@, i as int),
            invariant
                pos <= i <= n,
                n == cs@.len(),
            ensures
                match found {
                    Some((a, b)) => first_script_match(cs@, pos as int) == Some((a as int, b as int)),
                    None => first_script_match(cs@, pos as int) is None,
                },
            decreases n - i,
        {
            match script_match_at_exec(cs.as_slice(), i) {
                Some(r) => {
                    found = Some(r);
                    break ;
                },
                None => {
                },
            }
            i = i + 1;
        }
        match found {
            Some((a, b)) => {
                proof {
                    lemma_first_script_bounds(cs@, pos as int);
                }
                let ghost before = tags@;
                let piece = http.substring_char(a, b);
                tags.push(String::from_str(piece));
                assert(string_views(tags@) =~= string_views(before) + seq![cs@.subrange(a as int, b as int)]);
                pos = b + 10;
            },
            None => {
                assert(script_tags_from(http@, pos as int) =~= Seq::<Seq<char>>::empty());
                assert(string_views(tags@) + script_tags_from(http@, pos as int) =~= string_views(tags@));
                return tags;
            },
        }
    }
    assert(string_views(tags@) + script_tags_from(http@, pos as int) =~= string_views(tags@));
    tags
}

// ---------------------------------------------------------------------------
// src\s*=\s*"([^']+)"
pub open spec fn src_word() -> Seq<char> {
    seq!['s', 'r', 'c']
}

/// Where `src\s*=\s*"([^']+)"` matches at `i`, the bounds of its group: the
/// greedy `[^']+` runs to the last `"` before the next `'`.
pub open spec fn src_match_at(s: Seq<char>, i: int) -> Option<(int, int)> {
    if occurs_at(s, src_word(), i) {
        let j = skip_white(s, i + 3);
        if j < s.len() && s[j] == '=' {
            let k = skip_white(s, j + 1);
            if k < s.len() && s[k] == '"' {
                let r = run_end_without(s, k + 1, '\'');
                match last_index_in(s, k + 2, r, '"') {
                    Some(q) => Some((k + 1, q)),
                    None => None,
                }
            } else {
                None
            }
        } else {
            None
        }
    } else {
        None
    }
}

/// The group of the leftmost match of `src\s*=\s*"([^']+)"` at or after `from`.
pub open spec fn first_src_match(s: Seq<char>, from: int) -> Option<(int, int)>
    decreases s.len() - from,
{
    if from < 0 || from >= s.len() {
        None
    } else if let Some(r) = src_match_at(s, from) {
        Some(r)
    } else {
        first_src_match(s, from + 1)
    }
}

/// The `src` attribute of a script tag's contents, as the pattern
/// `src\s*=\s*"([^']+)"` captures it.
pub open spec fn script_src(s: Seq<char>) -> Option<Seq<char>> {
    match first_src_match(s, 0) {
        Some((a, b)) => Some(s.subrange(a, b)),
        None => None,
    }
}

proof fn lemma_last_index_in_range(s: Seq<char>, lo: int, hi: int, c: char)
    ensures
        last_index_in(s, lo, hi, c) matches Some(q) ==> lo <= q < hi,
    decreases hi - lo,
{
    if hi > lo && s[hi - 1] != c {
        lemma_last_index_in_range(s, lo, hi - 1, c);
    }
}

fn src_match_at_exec(cs: &[char], i: usize) -> (r: Option<(usize, usize)>)
    requires
        i < cs@.len(),
    ensures
        match r {
            Some((a, b)) => src_match_at(cs@, i as int) == Some((a as int, b as int)) && a <= b
                <= cs@.len(),
            None => src_match_at(cs@, i as int) is None,
        },
{
    let n = cs.len();
    let word = vec!['s', 'r', 'c'];
    assert(word@ == src_word());
    if !occurs_at_exec(cs, word.as_slice(), i) {
        return None;
    }
    assert(i + 3 <= n);
    let j = skip_white_exec(cs, i + 3);
    if !(j < n && cs[j] == '=') {
        return None;
    }
    let k = skip_white_exec(cs, j + 1);
    if !(k < n && cs[k] == '"') {
        return None;
    }
    let r = run_end_without_exec(cs, k + 1, '\'');
    if r == k + 1 {
        return None;
    }
    match last_index_exec(cs, k + 2, r, '"') {
        Some(q) => {
            proof {
                lemma_last_index_in_range(cs@, (k + 2) as int, r as int, '"');
            }
            Some((k + 1, q))
        },
        None => None,
    }
}

/// The `src` attribute in the contents of a script tag.
pub fn find_script_src(script: &str) -> (src: Option<String>)
    ensures
        match src {
            Some(v) => script_src(script@) == Some(v@),
            None => script_src(script@) is None,
        },
{
    let cs = chars_of(script);
    let mut i: usize = 0;
    while i < cs.len()
        invariant
            cs@ == script@,
            first_src_match(cs@, 0) == first_src_match(cs@, i as int),
        decreases cs.len() - i,
    {
        match src_match_at_exec(cs.as_slice(), i) {
            Some((a, b)) => {
                let piece = script.substring_char(a, b);
                return Some(String::from_str(piece));
            },
            None => {
            },
        }
        i = i + 1;
    }
    None
}

// ---------------------------------------------------------------------------
// "(/[a-zA-Z0-9\/]+)"
/// A character of the class `[a-zA-Z0-9/]`.
pub open spec fn is_path_char(c: char) -> bool {
    ('a' <= c && c <= 'z') || ('A' <= c && c <= 'Z') || ('0' <= c && c <= '9') || c == '/'
}

/// The end of the run of path characters that starts at `k`.
pub open spec fn path_run_end(s: Seq<char>, k: int) -> int
    decreases s.len() - k,
{
    if 0 <= k < s.len() && is_path_char(s[k]) {
        path_run_end(s, k + 1)
    } else {
        k
    }
}

/// Where `"(/[a-zA-Z0-9\/]+)"` matches at `i`, the bounds of its group (the
/// closing quote is at the upper bound).
pub open spec fn endpoint_match_at(s: Seq<char>, i: int) -> Option<(int, int)> {
    if 0 <= i && i + 1 < s.len() && s[i] == '"' && s[i + 1] == '/' {
        let r = path_run_end(s, i + 2);
        if r > i + 2 && r < s.len() && s[r] == '"' {
            Some((i + 1, r))
        } else {
            None
        }
    } else {
        None
    }
}

/// The group of the leftmost match of `"(/[a-zA-Z0-9\/]+)"` at or after `from`.
pub open spec fn first_endpoint_match(s: Seq<char>, from: int) -> Option<(int, int)>
    decreases s.len() - from,
{
    if from < 0 || from >= s.len() {
        None
    } else if let Some(r) = endpoint_match_at(s, from) {
        Some(r)
    } else {
        first_endpoint_match(s, from + 1)
    }
}

pub proof fn lemma_path_run_bounds(s: Seq<char>, k: int)
    ensures
        k <= path_run_end(s, k),
        0 <= k <= s.len() ==> path_run_end(s, k) <= s.len(),
        forall|j: int| k <= j < path_run_end(s, k) ==> is_path_char(#[trigger] s[j]),
    decreases s.len() - k,
{
    if 0 <= k < s.len() && is_path_char(s[k]) {
        lemma_path_run_bounds(s, k + 1);
    }
}

pub proof fn lemma_first_endpoint_bounds(s: Seq<char>, from: int)
    ensures
        first_endpoint_match(s, from) matches Some((a, b)) ==> from + 1 <= a && a + 1 < b && b
            < s.len() && s[b] == '"',
    decreases s.len() - from,
{
    if 0 <= from < s.len() {
        if endpoint_match_at(s, from) is None {
            lemma_first_endpoint_bounds(s, from + 1);
        }
    }
}

/// The groups of the successive non-overlapping matches of
/// `"(/[a-zA-Z0-9\/]+)"` from `from` on.
pub open spec fn endpoints_from(s: Seq<char>, from: int) -> Seq<Seq<char>>
    decreases s.len() - from,
{
    if from < 0 || from >= s.len() {
        seq![]
    } else {
        match first_endpoint_match(s, from) {
            Some((a, b)) => {
                proof {
                    lemma_first_endpoint_bounds(s, from);
                }
                seq![s.subrange(a, b)] + endpoints_from(s, b + 1)
            },
            None => seq![],
        }
    }
}

fn is_path_char_exec(c: char) -> (b: bool)
    ensures
        b == is_path_char(c),
{
    ('a' <= c && c <= 'z') || ('A' <= c && c <= 'Z') || ('0' <= c && c <= '9') || c == '/'
}

fn endpoint_match_at_exec(cs: &[char], i: usize) -> (r: Option<(usize, usize)>)
    requires
        i < cs@.len(),
    ensures
        match r {
            Some((a, b)) => endpoint_match_at(cs@, i as int) == Some((a as int, b as int)),
            None => endpoint_match_at(cs@, i as int) is None,
        },
{
    let n = cs.len();
    if !(i + 1 < n && cs[i] == '"' && cs[i + 1] == '/') {
        return None;
    }
    let mut r = i + 2;
    while r < n && is_path_char_exec(cs[r])
        invariant
            i + 2 <= r <= n,
            n == cs@.len(),
            path_run_end(cs@, (i + 2) as int) == path_run_end(cs@, r as int),
        decreases n - r,
    {
        r = r + 1;
    }
    if r > i + 2 && r < n && cs[r] == '"' {
        Some((i + 1, r))
    } else {
        None
    }
}

/// The endpoint paths quoted in JavaScript code, as the pattern
/// `"(/[a-zA-Z0-9\/]+)"` captures them, match after match.
pub fn find_endpoints_from_code(code: &str) -> (paths: Vec<String>)
    ensures
        string_views(paths@) == endpoints_from(code@, 0),
{
    let cs = chars_of(code);
    let n = cs.len();
    let mut paths: Vec<String> = Vec::new();
    let mut pos: usize = 0;
    while pos < n
        invariant
            pos <= n,
            n == cs@.len(),
            cs@ == code@,
            endpoints_from(code@, 0) == string_views(paths@) + endpoints_from(code@, pos as int),
        decreases n - pos,
    {
        let mut i = pos;
        let mut found: Option<(usize, usize)> = None;
        while i < n
            invariant_except_break
                found is None,
                first_endpoint_match(cs@, pos as int) == first_endpoint_match(cs@, i as int),
            invariant
                pos <= i <= n,
                n == cs@.len(),
            ensures
                match found {
                    Some((a, b)) => first_endpoint_match(cs@, pos as int) == Some(
                        (a as int, b as int),
                    ),
                    None => first_endpoint_match(cs@, pos as int) is None,
                },
            decreases n - i,
        {
            match endpoint_match_at_exec(cs.as_slice(), i) {
                Some(r) => {
                    found = Some(r);
                    break ;
                },
                None => {
                },
            }
            i = i + 1;
        }
        match found {
            Some((a, b)) => {
                proof {
                    lemma_first_endpoint_bounds(cs@, pos as int);
                }
                let ghost before = paths@;
                let piece = code.substring_char(a, b);
                paths.push(String::from_str(piece));
                assert(string_views(paths@) =~= string_views(before) + seq![
                    cs@.subrange(a as int, b as int),
                ]);
                pos = b + 1;
            },
            None => {
                assert(endpoints_from(code@, pos as int) =~= Seq::<Seq<char>>::empty());
                assert(string_views(paths@) + endpoints_from(code@, pos as int) =~= string_views(
                    paths@,
                ));
                return paths;
            },
        }
    }
    assert(string_views(paths@) + endpoints_from(code@, pos as int) =~= string_views(paths@));
    paths
}

proof fn lemma_first_endpoint_is_match(s: Seq<char>, from: int)
    ensures
        first_endpoint_match(s, from) matches Some((a, b)) ==> endpoint_match_at(s, a - 1) == Some(
            (a, b),
        ),
    decreases s.len() - from,
{
    if 0 <= from < s.len() {
        if endpoint_match_at(s, from) is None {
            lemma_first_endpoint_is_match(s, from + 1);
        }
    }
}

/// Every endpoint the scan finds is a path: `/` and at least one more
/// character, all of them letters, digits or `/`.
pub proof fn lemma_endpoints_are_paths(s: Seq<char>, from: int, k: int)
    requires
        0 <= k < endpoints_from(s, from).len(),
    ensures
        endpoints_from(s, from)[k].len() >= 2,
        endpoints_from(s, from)[k][0] == '/',
        forall|j: int|
            0 <= j < endpoints_from(s, from)[k].len() ==> is_path_char(
                #[trigger] endpoints_from(s, from)[k][j],
            ),
    decreases s.len() - from,
{
    if 0 <= from < s.len() {
        if let Some((a, b)) = first_endpoint_match(s, from) {
            lemma_first_endpoint_bounds(s, from);
            if k == 0 {
                lemma_first_endpoint_is_match(s, from);
                lemma_path_run_bounds(s, a + 1);
                let e = s.subrange(a, b);
                assert(endpoints_from(s, from)[0] == e);
                assert forall|j: int| 0 <= j < e.len() implies is_path_char(#[trigger] e[j]) by {
                    assert(e[j] == s[a + j]);
                }
            } else {
                lemma_endpoints_are_paths(s, b + 1, k - 1);
                assert(endpoints_from(s, from)[k] == endpoints_from(s, b + 1)[k - 1]);
            }
        }
    }
}

proof fn lemma_path_run_to(s: Seq<char>, k: int, m: int)
    requires
        0 <= k <= m < s.len(),
        forall|j: int| k <= j < m ==> is_path_char(#[trigger] s[j]),
        !is_path_char(s[m]),
    ensures
        path_run_end(s, k) == m,
    decreases m - k,
{
    if k < m {
        lemma_path_run_to(s, k + 1, m);
    }
}

/// A path quoted on its own is found, whole: a `/` followed by one or more
/// ASCII letters of either case, digits or `/`, between double quotes, is
/// the one endpoint of that text.
pub proof fn lemma_quoted_path_found(p: Seq<char>)
    requires
        p.len() >= 2,
        p[0] == '/',
        forall|j: int|
            0 <= j < p.len() ==> ('a' <= #[trigger] p[j] && p[j] <= 'z') || ('A' <= p[j] && p[j]
                <= 'Z') || ('0' <= p[j] && p[j] <= '9') || p[j] == '/',
    ensures
        endpoints_from(seq!['"'] + p + seq!['"'], 0) == seq![p],
{
    let s = seq!['"'] + p + seq!['"'];
    let n = p.len() as int;
    assert(s.len() == n + 2);
    assert(forall|j: int| 2 <= j < n + 1 ==> #[trigger] s[j] == p[j - 1]);
    assert(s[n + 1] == '"');
    assert forall|j: int| 2 <= j < n + 1 implies is_path_char(#[trigger] s[j]) by {
        assert(s[j] == p[j - 1]);
    }
    lemma_path_run_to(s, 2, n + 1);
    assert(s[1] == p[0]);
    assert(endpoint_match_at(s, 0) == Some((1int, n + 1)));
    assert(first_endpoint_match(s, 0) == Some((1int, n + 1)));
    assert(s.subrange(1, n + 1) =~= p);
    assert(endpoints_from(s, n + 2) =~= Seq::<Seq<char>>::empty());
    assert(endpoints_from(s, 0) =~= seq![p]);
}

// ---------------------------------------------------------------------------
// URLs of a port
pub open spec fn https_prefix() -> Seq<char> {
    seq!['h', 't', 't', 'p', 's', ':', '/', '/']
}

pub open spec fn http_prefix() -> Seq<char> {
    seq!['h', 't', 't', 'p', ':', '/', '/']
}

/// The URL of the web server on `host:port`: `https://` for port 443,
/// `http://` for any other.
pub open spec fn address_url(host: Seq<char>, port: int) -> Seq<char> {
    (if port == 443 {
        https_prefix()
    } else {
        http_prefix()
    }) + host + seq![':'] + signed_decimal(port)
}

/// The base URL of the web server on `host:port`.
pub fn create_address_url(host: &str, port: i32) -> (url: String)
    ensures
        url@ == address_url(host@, port as int),
{
    proof {
        reveal_strlit("https://");
        reveal_strlit("http://");
        reveal_strlit(":");
    }
    let mut url = if port == 443 {
        String::from_str("https://")
    } else {
        String::from_str("http://")
    };
    url.append(host);
    url.append(":");
    let digits = i32_to_string(port);
    url.append(digits.as_str());
    url
}

/// The URL of `path` on the web server on `host:port`.
pub fn url_for_path(host: &str, port: i32, path: &str) -> (url: String)
    ensures
        url@ == address_url(host@, port as int) + path@,
{
    let base = create_address_url(host, port);
    concat(base.as_str(), path)
}

// ---------------------------------------------------------------------------
// Redirects
pub open spec fn script_start_tag() -> Seq<char> {
    seq!['<', 's', 'c', 'r', 'i', 'p', 't', '>']
}

pub open spec fn script_end_tag() -> Seq<char> {
    seq!['<', '/', 's', 'c', 'r', 'i', 'p', 't', '>']
}

/// A page that is nothing but a script is taken for a client-side redirect.
pub fn got_redirect_response(text: &str) -> (b: bool)
    ensures
        b == (script_start_tag().is_prefix_of(text@) && script_end_tag().is_suffix_of(text@)),
{
    let cs = chars_of(text);
    let start = vec!['<', 's', 'c', 'r', 'i', 'p', 't', '>'];
    let end = vec!['<', '/', 's', 'c', 'r', 'i', 'p', 't', '>'];
    assert(start@ == script_start_tag());
    assert(end@ == script_end_tag());
    starts_with_chars(cs.as_slice(), start.as_slice()) && ends_with_chars(
        cs.as_slice(),
        end.as_slice(),
    )
}

/// Where a redirect script sends the browser: the captured URL appended to
/// the server's address, or the error the portal scan reports.
pub fn redirect_target(redirect_script: &str, address: &str) -> (r: Result<String, String>)
    ensures
        match redirect_url(redirect_script@) {
            Some(u) => r matches Ok(t) && t@ == address@ + u,
            None => r matches Err(e) && e@ == "No redirect found"@,
        },
{
    match capture_url_from_redirect_script(redirect_script) {
        Some(t) => Ok(concat(address, t.as_str())),
        None => Err(String::from_str("No redirect found")),
    }
}

// ---------------------------------------------------------------------------
// Endpoints
/// The `src` attributes found in a sequence of script-tag contents, in order,
/// skipping the tags that have none.
pub open spec fn sources_of(tags: Seq<Seq<char>>) -> Seq<Seq<char>>
    decreases tags.len(),
{
    if tags.len() == 0 {
        seq![]
    } else {
        match script_src(tags.last()) {
            Some(src) => sources_of(tags.drop_last()).push(src),
            None => sources_of(tags.drop_last()),
        }
    }
}

/// The script sources of a page: the `src` of each script tag that has one,
/// in page order.
pub fn script_sources(page: &str) -> (srcs: Vec<String>)
    ensures
        string_views(srcs@) == sources_of(script_tags_from(page@, 0)),
{
    let tags = find_script_tags(page);
    let mut srcs: Vec<String> = Vec::new();
    let mut i: usize = 0;
    assert(string_views(tags@).subrange(0, 0) =~= Seq::<Seq<char>>::empty());
    while i < tags.len()
        invariant
            i <= tags@.len(),
            string_views(srcs@) == sources_of(string_views(tags@).subrange(0, i as int)),
        decreases tags.len() - i,
    {
        let ghost before = srcs@;
        let ghost prefix = string_views(tags@).subrange(0, i + 1);
        assert(prefix.drop_last() =~= string_views(tags@).subrange(0, i as int));
        assert(prefix.last() == tags@[i as int]@);
        match find_script_src(tags[i].as_str()) {
            Some(src) => {
                srcs.push(src);
                assert(string_views(srcs@) =~= string_views(before).push(srcs@.last()@));
            },
            None => {
            },
        }
        i = i + 1;
    }
    assert(string_views(tags@).subrange(0, tags@.len() as int) =~= string_views(tags@));
    srcs
}

/// The endpoints without repetitions: each distinct path once, none lost.
pub fn unique_endpoints(endpoints: Vec<String>) -> (uniques: Vec<String>)
    ensures
        string_views(uniques@).no_duplicates(),
        string_views(uniques@).to_set() == string_views(endpoints@).to_set(),
{
    let mut uniques: Vec<String> = Vec::new();
    let mut i: usize = 0;
    while i < endpoints.len()
        invariant
            i <= endpoints@.len(),
            string_views(uniques@).no_duplicates(),
            string_views(uniques@).to_set() == string_views(endpoints@).subrange(
                0,
                i as int,
            ).to_set(),
        decreases endpoints.len() - i,
    {
        let ghost before = string_views(uniques@);
        let mut seen = false;
        let mut j: usize = 0;
        while j < uniques.len()
            invariant
                j <= uniques@.len(),
                i < endpoints@.len(),
                seen <==> exists|k: int| 0 <= k < j && uniques@[k]@ == endpoints@[i as int]@,
            decreases uniques.len() - j,
        {
            if uniques[j] == endpoints[i] {
                seen = true;
            }
            j = j + 1;
        }
        let ghost next = string_views(endpoints@).subrange(0, i + 1);
        assert(next =~= string_views(endpoints@).subrange(0, i as int).push(endpoints@[i as int]@));
        proof {
            lemma_push_to_set(string_views(endpoints@).subrange(0, i as int), endpoints@[i as int]@);
        }
        if !seen {
            uniques.push(endpoints[i].clone());
            assert(string_views(uniques@) =~= before.push(endpoints@[i as int]@));
            proof {
                lemma_push_to_set(before, endpoints@[i as int]@);
            }
        } else {
            proof {
                let k = choose|k: int|
                    0 <= k < uniques@.len() && uniques@[k]@ == endpoints@[i as int]@;
                assert(before[k] == endpoints@[i as int]@);
                assert(before.to_set().contains(endpoints@[i as int]@));
                assert(before.to_set() =~= next.to_set());
            }
        }
        i = i + 1;
    }
    assert(string_views(endpoints@).subrange(0, endpoints@.len() as int) =~= string_views(
        endpoints@,
    ));
    uniques
}

proof fn lemma_push_to_set<A>(s: Seq<A>, x: A)
    ensures
        s.push(x).to_set() == s.to_set().insert(x),
{
    assert forall|a: A| s.push(x).contains(a) implies s.contains(a) || a == x by {
        let i = choose|i: int| 0 <= i < s.push(x).len() && s.push(x)[i] == a;
        if i < s.len() {
            assert(s[i] == a);
        }
    }
    assert forall|a: A| s.contains(a) implies s.push(x).contains(a) by {
        let i = choose|i: int| 0 <= i < s.len() && s[i] == a;
        assert(s.push(x)[i] == a);
    }
    assert(s.push(x)[s.len() as int] == x);
    assert(s.push(x).to_set() =~= s.to_set().insert(x));
}

/// An endpoint that answers 401 asks for credentials.
pub fn is_unauthorized(status: Option<u16>) -> (b: bool)
    ensures
        b == (status == Some(401u16)),
{
    match status {
        Some(s) => s == 401,
        None => false,
    }
}

/// The page to try credentials on: the first endpoint that answered 401,
/// under the server's address; an error when there is none.
pub fn first_protected_url(address: &str, unauthorized: &Vec<String>) -> (r: Result<String, String>)
    ensures
        unauthorized@.len() == 0 ==> (r matches Err(e) && e@ == "No unauthorized endpoints found"@),
        unauthorized@.len() > 0 ==> (r matches Ok(u) && u@ == address@ + unauthorized@[0]@),
{
    if unauthorized.len() == 0 {
        Err(String::from_str("No unauthorized endpoints found"))
    } else {
        Ok(concat(address, unauthorized[0].as_str()))
    }
}

// ---------------------------------------------------------------------------
// Credentials
/// Base64 digit `v` of the standard alphabet (RFC 4648, table 1).
pub open spec fn b64_digit(v: int) -> char {
    if v < 26 {
        (65 + v) as char
    } else if v < 52 {
        (97 + v - 26) as char
    } else if v < 62 {
        (48 + v - 52) as char
    } else if v == 62 {
        '+'
    } else {
        '/'
    }
}

/// Standard base64 with `=` padding (RFC 4648, section 4): each group of
/// three bytes becomes four digits; a last group of one or two bytes becomes
/// two or three digits and the padding.
pub open spec fn base64_standard(b: Seq<u8>) -> Seq<char>
    decreases b.len(),
{
    if b.len() == 0 {
        seq![]
    } else {
        let b0 = b[0] as int;
        let b1 = if b.len() > 1 { b[1] as int } else { 0 };
        let b2 = if b.len() > 2 { b[2] as int } else { 0 };
        let d0 = b64_digit(b0 / 4);
        let d1 = b64_digit((b0 % 4) * 16 + b1 / 16);
        let d2 = b64_digit((b1 % 16) * 4 + b2 / 64);
        let d3 = b64_digit(b2 % 64);
        if b.len() == 1 {
            seq![d0, d1, '=', '=']
        } else if b.len() == 2 {
            seq![d0, d1, d2, '=']
        } else {
            seq![d0, d1, d2, d3] + base64_standard(b.skip(3))
        }
    }
}

/// `Engine::encode` of base64's `BASE64_STANDARD` engine: the standard
/// alphabet with padding.
#[verifier::external_body]
fn base64_standard_encode(input: &[u8]) -> (s: String)
    requires
        input@.len() <= usize::MAX / 2,
    ensures
        s@ == base64_standard(input@),
{
    BASE64_STANDARD.encode(input)
}

/// The credentials tried on a protected page, in order.
pub open spec fn default_credentials() -> Seq<Seq<char>> {
    seq!["admin:admin"@, "admin:password"@, "admin:Administrator"@]
}

/// The `Authorization` header value for HTTP basic authentication with
/// `user:password` credentials.
pub open spec fn basic_auth(credential: Seq<char>) -> Seq<char> {
    "Basic "@ + base64_standard(vstd::utf8::encode_utf8(credential))
}

/// The `Authorization` header for `credential` (`user:password`).
pub fn basic_auth_header(credential: &str) -> (header: String)
    requires
        credential@.len() <= usize::MAX / 8,
    ensures
        header@ == basic_auth(credential@),
{
    proof {
        lemma_utf8_len_bound(credential@);
    }
    let encoded = base64_standard_encode(credential.as_bytes());
    concat("Basic ", encoded.as_str())
}

proof fn lemma_utf8_len_bound(s: Seq<char>)
    ensures
        vstd::utf8::encode_utf8(s).len() <= 4 * s.len(),
    decreases s.len(),
{
    if s.len() > 0 {
        lemma_utf8_len_bound(s.drop_first());
    }
}

/// One step of the search: the credential at `index` was answered `status`.
/// Anything but 401 means it was accepted (and the search stays on it); a 401
/// moves on to the next credential.
pub open spec fn search_step(index: nat, status: u16) -> (Option<nat>, nat) {
    if status != 401 {
        (Some(index), index)
    } else {
        (None, index + 1)
    }
}

/// The search for working default credentials: which one is tried next.
pub struct CredentialSearch {
    next: usize,
}

impl CredentialSearch {
    /// The index of the credential tried next; past the list when done.
    pub closed spec fn index(&self) -> nat {
        self.next as nat
    }

    /// A search that starts with the first credential.
    pub fn new() -> (s: Self)
        ensures
            s.index() == 0,
    {
        CredentialSearch { next: 0 }
    }

    /// The next credential to try and its `Authorization` header, or `None`
    /// once all have been tried.
    pub fn next_attempt(&self) -> (r: Option<(String, String)>)
        ensures
            self.index() < 3 ==> (r matches Some((c, h)) && c@ == default_credentials()[self.index() as int]
                && h@ == basic_auth(c@)),
            self.index() >= 3 ==> r is None,
    {
        proof {
            reveal_strlit("admin:admin");
            reveal_strlit("admin:password");
            reveal_strlit("admin:Administrator");
        }
        let c = if self.next == 0 {
            "admin:admin"
        } else if self.next == 1 {
            "admin:password"
        } else if self.next == 2 {
            "admin:Administrator"
        } else {
            return None;
        };
        Some((String::from_str(c), basic_auth_header(c)))
    }

    /// Records the status answered to the current credential: anything but
    /// 401 means it was accepted, and it is returned; a 401 moves on to the
    /// next one.
    pub fn record_status(&mut self, status: u16) -> (accepted: Option<String>)
        requires
            old(self).index() < 3,
        ensures
            accepted is Some == search_step(old(self).index(), status).0 is Some,
            final(self).index() == search_step(old(self).index(), status).1,
            accepted matches Some(c) ==> c@ == default_credentials()[old(self).index() as int],
    {
        proof {
            reveal_strlit("admin:admin");
            reveal_strlit("admin:password");
            reveal_strlit("admin:Administrator");
        }
        if status != 401 {
            let c = if self.next == 0 {
                "admin:admin"
            } else if self.next == 1 {
                "admin:password"
            } else {
                "admin:Administrator"
            };
            Some(String::from_str(c))
        } else {
            self.next = self.next + 1;
            None
        }
    }
}

/// What the search finds when the credentials from `index` on are answered
/// with `statuses`, in order, one step after the other.
pub open spec fn search_outcome(index: nat, statuses: Seq<u16>) -> Option<nat>
    decreases statuses.len(),
{
    if index >= 3 || statuses.len() == 0 {
        None
    } else {
        let (found, next) = search_step(index, statuses[0]);
        if found is Some {
            found
        } else {
            search_outcome(next, statuses.drop_first())
        }
    }
}

/// The credential search reports the first credential whose request was not
/// refused with 401, and none when every credential tried was refused.
pub proof fn lemma_search_finds_first_accepted(statuses: Seq<u16>)
    ensures
        search_outcome(0, statuses) matches Some(k) ==> k < 3 && k < statuses.len() && statuses[k
            as int] != 401 && forall|j: int| 0 <= j < k ==> statuses[j] == 401,
        search_outcome(0, statuses) is None ==> forall|j: int|
            0 <= j < statuses.len() && j < 3 ==> statuses[j] == 401,
{
    lemma_search_outcome(0, statuses);
}

proof fn lemma_search_outcome(index: nat, statuses: Seq<u16>)
    ensures
        search_outcome(index, statuses) matches Some(k) ==> index <= k < 3 && k - index
            < statuses.len() && statuses[k - index] != 401 && forall|j: int|
            0 <= j < k - index ==> statuses[j] == 401,
        search_outcome(index, statuses) is None ==> forall|j: int|
            0 <= j < statuses.len() && index + j < 3 ==> statuses[j] == 401,
    decreases statuses.len(),
{
    if index < 3 && statuses.len() > 0 && statuses[0] == 401 {
        let rest = statuses.drop_first();
        lemma_search_outcome(index + 1, rest);
        assert forall|j: int| 1 <= j < statuses.len() implies statuses[j] == rest[j - 1] by {}
    }
}

/// The outcome of the whole scan once the credential search has ended.
pub fn credentials_outcome(found: Option<String>) -> (r: Result<String, String>)
    ensures
        match found {
            Some(c) => r matches Ok(v) && v@ == c@,
            None => r matches Err(e) && e@ == "No credentials found"@,
        },
{
    match found {
        Some(c) => Ok(c),
        None => Err(String::from_str("No credentials found")),
    }
}

/// The `host:port` text that the port scanner resolves and connects to.
pub fn socket_address(host: &str, port: i32) -> (a: String)
    ensures
        a@ == host@ + seq![':'] + signed_decimal(port as int),
{
    proof {
        reveal_strlit(":");
    }
    let mut a = concat(host, ":");
    let digits = i32_to_string(port);
    a.append(digits.as_str());
    a
}

} // verus!
