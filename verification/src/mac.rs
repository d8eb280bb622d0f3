//! MAC addresses as the `arp` tool prints them: normalising them to two
//! characters per colon-separated group, and taking their OUI (vendor prefix).

use crate::text::chars_of;
use crate::text::string_from_chars;
use crate::text::lemma_split_no_sep;
use crate::text::lemma_split_piece;
use crate::text::split_acc;
use crate::text::split_on;
use vstd::prelude::*;
use vstd::string::StrSliceExecFns;
use vstd::string::StringExecFns;
use vstd::utf8::*;

verus! {

broadcast use vstd::string::group_string_axioms;

/// A group of a MAC address as the database stores it: left alone when its
/// UTF-8 encoding is two bytes long, else with a `0` in front.
pub open spec fn pad_group(group: Seq<char>) -> Seq<char> {
    if encode_utf8(group).len() == 2 {
        group
    } else {
        seq!['0'] + group
    }
}

/// The cleaned form of `s`, given that `group` is the group read so far:
/// each `:`-separated group padded by `pad_group`, joined again by `:`.
pub open spec fn clean_acc(s: Seq<char>, group: Seq<char>) -> Seq<char>
    decreases s.len(),
{
    if s.len() == 0 {
        pad_group(group)
    } else if s[0] == ':' {
        pad_group(group) + seq![':'] + clean_acc(s.drop_first(), seq![])
    } else {
        clean_acc(s.drop_first(), group.push(s[0]))
    }
}

/// The cleaned form of a MAC address: every group that is not two bytes long
/// gets a leading `0` (so `a:b:c` becomes `0a:0b:0c`).
pub open spec fn clean_mac(s: Seq<char>) -> Seq<char> {
    clean_acc(s, seq![])
}

proof fn lemma_utf8_len_at_least(s: Seq<char>)
    ensures
        encode_utf8(s).len() >= s.len(),
    decreases s.len(),
{
    if s.len() > 0 {
        lemma_utf8_len_at_least(s.drop_first());
    }
}

proof fn lemma_two_byte_group(g: Seq<char>)
    ensures
        (encode_utf8(g).len() == 2) <==> ((g.len() == 1 && has_width_2_encoding(g[0] as u32)) || (
        g.len() == 2 && has_width_1_encoding(g[0] as u32) && has_width_1_encoding(g[1] as u32))),
{
    lemma_utf8_len_at_least(g);
    if g.len() == 1 {
        assert(g.drop_first() =~= Seq::<char>::empty());
        assert(encode_utf8(g) == encode_scalar(g[0] as u32) + encode_utf8(g.drop_first()));
        assert(encode_utf8(g) =~= encode_scalar(g[0] as u32));
    } else if g.len() == 2 {
        let t = g.drop_first();
        assert(t.drop_first() =~= Seq::<char>::empty());
        assert(t[0] == g[1]);
        assert(encode_utf8(g) == encode_scalar(g[0] as u32) + encode_utf8(t));
        assert(encode_utf8(t) == encode_scalar(t[0] as u32) + encode_utf8(t.drop_first()));
        assert(encode_utf8(t.drop_first()).len() == 0);
    }
}

/// Decides whether the group `cs[lo..hi]` is two bytes long in UTF-8.
fn is_two_byte_group(cs: &[char], lo: usize, hi: usize) -> (b: bool)
    requires
        lo <= hi <= cs@.len(),
    ensures
        b == (encode_utf8(cs@.subrange(lo as int, hi as int)).len() == 2),
{
    proof {
        lemma_two_byte_group(cs@.subrange(lo as int, hi as int));
    }
    if hi - lo == 1 {
        let u = cs[lo] as u32;
        0x80 <= u && u <= 0x7ff
    } else if hi - lo == 2 {
        (cs[lo] as u32) <= 0x7f && (cs[lo + 1] as u32) <= 0x7f
    } else {
        false
    }
}

/// Normalises a MAC address so that every `:`-separated group is two bytes
/// long, by putting a `0` in front of each group that is not.
pub fn clean_mac_address(dirty_mac: &str) -> (cleaned: String)
    ensures
        cleaned@ == clean_mac(dirty_mac@),
{
    let cs = chars_of(dirty_mac);
    let n = cs.len();
    let mut out = String::new();
    let mut start: usize = 0;
    let mut i: usize = 0;
    proof {
        reveal_strlit("0");
        reveal_strlit(":");
    }
    assert(cs@.skip(0) =~= cs@);
    assert(cs@.subrange(0, 0) =~= Seq::<char>::empty());
    while i < n
        invariant
            start <= i <= n,
            n == cs@.len(),
            cs@ == dirty_mac@,
            "0"@ == seq!['0'],
            ":"@ == seq![':'],
            clean_mac(dirty_mac@) == out@ + clean_acc(
                cs@.skip(i as int),
                cs@.subrange(start as int, i as int),
            ),
        decreases n - i,
    {
        let ghost group = cs@.subrange(start as int, i as int);
        let ghost before = out@;
        assert(cs@.skip(i as int).drop_first() =~= cs@.skip(i + 1));
        assert(cs@.skip(i as int)[0] == cs@[i as int]);
        if cs[i] == ':' {
            let two = is_two_byte_group(cs.as_slice(), start, i);
            if !two {
                out.append("0");
            }
            out.append(dirty_mac.substring_char(start, i));
            out.append(":");
            assert(out@ =~= before + pad_group(group) + seq![':']);
            start = i + 1;
            assert(cs@.subrange(start as int, (i + 1) as int) =~= Seq::<char>::empty());
            assert(out@ + clean_acc(cs@.skip(i + 1), seq![]) =~= before + (pad_group(group) + seq![
                ':',
            ] + clean_acc(cs@.skip(i + 1), seq![])));
        } else {
            assert(group.push(cs@[i as int]) =~= cs@.subrange(start as int, i + 1));
        }
        i = i + 1;
    }
    let ghost group = cs@.subrange(start as int, n as int);
    let ghost before = out@;
    assert(cs@.skip(n as int) =~= Seq::<char>::empty());
    let two = is_two_byte_group(cs.as_slice(), start, n);
    if !two {
        out.append("0");
    }
    out.append(dirty_mac.substring_char(start, n));
    assert(out@ =~= before + pad_group(group));
    out
}

/// `s` with every `:` removed (`str::replace(":", "")`).
pub open spec fn drop_colons(s: Seq<char>) -> Seq<char>
    decreases s.len(),
{
    if s.len() == 0 {
        s
    } else if s.last() == ':' {
        drop_colons(s.drop_last())
    } else {
        drop_colons(s.drop_last()).push(s.last())
    }
}

/// What `str::to_lowercase` returns for a string with these characters.
pub uninterp spec fn unicode_lowercase(s: Seq<char>) -> Seq<char>;

/// What `str::to_uppercase` returns for a string with these characters.
pub uninterp spec fn unicode_uppercase(s: Seq<char>) -> Seq<char>;

/// `c` with an ASCII capital letter taken to its small letter.
pub open spec fn ascii_lower_char(c: char) -> char {
    if 'A' <= c && c <= 'Z' {
        ((c as u32) + 32) as char
    } else {
        c
    }
}

/// `c` with an ASCII small letter taken to its capital letter.
pub open spec fn ascii_upper_char(c: char) -> char {
    if 'a' <= c && c <= 'z' {
        ((c as u32) - 32) as char
    } else {
        c
    }
}

/// Every ASCII capital letter of `s` made small; nothing else changes.
pub open spec fn ascii_lower(s: Seq<char>) -> Seq<char> {
    s.map_values(|c: char| ascii_lower_char(c))
}

/// Every ASCII small letter of `s` made capital; nothing else changes.
pub open spec fn ascii_upper(s: Seq<char>) -> Seq<char> {
    s.map_values(|c: char| ascii_upper_char(c))
}

/// `str::to_lowercase`: the result is named by `unicode_lowercase` of the
/// argument's characters. On ASCII text the Unicode mapping takes `A`..`Z`
/// to `a`..`z` and leaves every other character as it is; beyond ASCII the
/// mapping is not stated.
#[verifier::external_body]
fn str_to_lowercase(s: &str) -> (r: String)
    ensures
        r@ == unicode_lowercase(s@),
        is_ascii_chars(s@) ==> r@ == ascii_lower(s@),
{
    s.to_lowercase()
}

/// `str::to_uppercase`: the result is named by `unicode_uppercase` of the
/// argument's characters. On ASCII text the Unicode mapping takes `a`..`z`
/// to `A`..`Z` and leaves every other character as it is; beyond ASCII the
/// mapping is not stated.
#[verifier::external_body]
fn str_to_uppercase(s: &str) -> (r: String)
    ensures
        r@ == unicode_uppercase(s@),
        is_ascii_chars(s@) ==> r@ == ascii_upper(s@),
{
    s.to_uppercase()
}

/// Byte index `n` of the UTF-8 encoding of `s` is a character boundary
/// (so `&s[..n]` does not panic).
pub open spec fn has_byte_prefix(s: Seq<char>, n: int) -> bool {
    is_char_boundary(encode_utf8(s), n)
}

/// The characters whose UTF-8 encoding is the first `n` bytes of that of `s`.
pub open spec fn byte_prefix(s: Seq<char>, n: int) -> Seq<char> {
    decode_utf8(encode_utf8(s).subrange(0, n))
}

/// A MAC address cleaned, without colons, lower-cased.
pub open spec fn mac_lowercase_hex(mac: Seq<char>) -> Seq<char> {
    unicode_lowercase(drop_colons(clean_mac(mac)))
}

/// The OUI of a MAC address as the manufacturer table keys it: the first six
/// bytes of its cleaned, colon-free, lower-cased form, upper-cased; none when
/// byte six is no character boundary of that form.
pub open spec fn spec_mac_oui(mac: Seq<char>) -> Option<Seq<char>> {
    let lower = mac_lowercase_hex(mac);
    if has_byte_prefix(lower, 6) {
        Some(unicode_uppercase(byte_prefix(lower, 6)))
    } else {
        None
    }
}

/// `s` without its colons.
pub fn remove_colons(s: &str) -> (r: String)
    ensures
        r@ == drop_colons(s@),
{
    let cs = chars_of(s);
    let mut kept: Vec<char> = Vec::new();
    let mut i: usize = 0;
    assert(cs@.subrange(0, 0) =~= Seq::<char>::empty());
    while i < cs.len()
        invariant
            i <= cs@.len(),
            kept@ == drop_colons(cs@.subrange(0, i as int)),
        decreases cs.len() - i,
    {
        assert(cs@.subrange(0, i + 1).drop_last() =~= cs@.subrange(0, i as int));
        if cs[i] != ':' {
            kept.push(cs[i]);
        }
        i = i + 1;
    }
    assert(cs@.subrange(0, cs@.len() as int) =~= cs@);
    string_from_chars(kept.as_slice())
}

/// The upper-cased first six bytes of an already lower-cased, colon-free MAC.
pub fn oui_of_lowercase(lowered: &str) -> (oui: String)
    requires
        has_byte_prefix(lowered@, 6),
    ensures
        oui@ == unicode_uppercase(byte_prefix(lowered@, 6)),
        is_ascii_chars(lowered@) ==> lowered@.len() >= 6 && oui@ == ascii_upper(
            lowered@.subrange(0, 6),
        ),
{
    let (head, _rest) = lowered.split_at(6);
    proof {
        encode_utf8_decode_utf8(head@);
        if is_ascii_chars(lowered@) {
            is_ascii_chars_encode_utf8(lowered@);
            encode_utf8_valid_utf8(lowered@);
            reveal_with_fuel(is_char_boundary, 1);
            assert(lowered@.len() >= 6);
            lemma_ascii_byte_prefix(lowered@, 6);
            assert(is_ascii_chars(head@));
        }
    }
    str_to_uppercase(head)
}

/// The OUI (vendor prefix) under which the manufacturer table is looked up
/// for `mac_address`; `None` where taking its first six bytes would panic.
/// For an ASCII address this is `ascii_mac_oui`.
pub fn mac_oui(mac_address: &str) -> (oui: Option<String>)
    ensures
        match oui {
            Some(o) => spec_mac_oui(mac_address@) == Some(o@),
            None => spec_mac_oui(mac_address@) is None,
        },
        is_ascii_chars(mac_address@) ==> match oui {
            Some(o) => ascii_mac_oui(mac_address@) == Some(o@),
            None => ascii_mac_oui(mac_address@) is None,
        },
{
    let cleaned = clean_mac_address(mac_address);
    let bare = remove_colons(cleaned.as_str());
    let lower = str_to_lowercase(bare.as_str());
    proof {
        if is_ascii_chars(mac_address@) {
            lemma_ascii_clean_acc(mac_address@, seq![]);
            lemma_ascii_drop_colons(cleaned@);
            assert(is_ascii_chars(lower@));
            if lower@.len() >= 6 {
                lemma_ascii_byte_prefix(lower@, 6);
                assert forall|k: int| 0 <= k < 6 implies #[trigger] ascii_upper(
                    lower@.subrange(0, 6),
                )[k] == ascii_upper(bare@.subrange(0, 6))[k] by {
                    assert(lower@[k] == ascii_lower_char(bare@[k]));
                }
                assert(ascii_upper(lower@.subrange(0, 6)) =~= ascii_upper(bare@.subrange(0, 6)));
            } else {
                is_ascii_chars_encode_utf8(lower@);
                encode_utf8_valid_utf8(lower@);
                reveal_with_fuel(is_char_boundary, 1);
                assert(!is_char_boundary(encode_utf8(lower@), 6));
            }
        }
    }
    if lower.as_str().is_char_boundary(6) {
        Some(oui_of_lowercase(lower.as_str()))
    } else {
        None
    }
}

/// In ASCII text every byte index up to the end is a character boundary, and
/// the first `n` bytes are the first `n` characters.
proof fn lemma_ascii_byte_prefix(s: Seq<char>, n: int)
    requires
        is_ascii_chars(s),
        0 <= n <= s.len(),
    ensures
        has_byte_prefix(s, n),
        byte_prefix(s, n) == s.subrange(0, n),
{
    let bytes = encode_utf8(s);
    let head = s.subrange(0, n);
    is_ascii_chars_encode_utf8(s);
    assert(is_ascii_chars(head));
    is_ascii_chars_encode_utf8(head);
    encode_utf8_valid_utf8(s);
    if n == s.len() {
        is_char_boundary_start_end_of_seq(bytes);
    } else {
        assert(bytes[n] == s[n] as u8);
        is_char_boundary_iff_not_is_continuation_byte(bytes, n);
    }
    assert(encode_utf8(head) =~= bytes.subrange(0, n));
    encode_utf8_decode_utf8(head);
}

// ---------------------------------------------------------------------------
// Cleaning twice
/// The groups joined by `:`.
pub open spec fn join_groups(gs: Seq<Seq<char>>) -> Seq<char>
    decreases gs.len(),
{
    if gs.len() <= 1 {
        if gs.len() == 1 {
            gs[0]
        } else {
            seq![]
        }
    } else {
        gs[0] + seq![':'] + join_groups(gs.drop_first())
    }
}

/// Every `:`-separated group of `s` is one or two bytes long, as in a MAC
/// address that `arp` printed.
pub open spec fn short_groups(s: Seq<char>) -> bool {
    forall|k: int|
        0 <= k < split_on(s, ':').len() ==> 1 <= encode_utf8(#[trigger] split_on(s, ':')[k]).len()
            <= 2
}

proof fn lemma_clean_is_padded_groups(s: Seq<char>, g: Seq<char>)
    ensures
        clean_acc(s, g) == join_groups(split_acc(s, ':', g).map_values(|x: Seq<char>| pad_group(x))),
        split_acc(s, ':', g).len() >= 1,
    decreases s.len(),
{
    let f = |x: Seq<char>| pad_group(x);
    if s.len() == 0 {
        assert(split_acc(s, ':', g).map_values(f) =~= seq![pad_group(g)]);
    } else if s[0] == ':' {
        lemma_clean_is_padded_groups(s.drop_first(), seq![]);
        let rest = split_acc(s.drop_first(), ':', seq![]);
        let whole = split_acc(s, ':', g).map_values(f);
        assert(whole =~= seq![pad_group(g)] + rest.map_values(f));
        assert(whole.drop_first() =~= rest.map_values(f));
    } else {
        lemma_clean_is_padded_groups(s.drop_first(), g.push(s[0]));
    }
}

proof fn lemma_split_groups_have_no_colon(s: Seq<char>, g: Seq<char>, k: int)
    requires
        !g.contains(':'),
        0 <= k < split_acc(s, ':', g).len(),
    ensures
        !split_acc(s, ':', g)[k].contains(':'),
    decreases s.len(),
{
    if s.len() == 0 {
    } else if s[0] == ':' {
        if k > 0 {
            lemma_split_groups_have_no_colon(s.drop_first(), seq![], k - 1);
        }
    } else {
        assert(!g.push(s[0]).contains(':')) by {
            if g.push(s[0]).contains(':') {
                let i = choose|i: int| 0 <= i < g.push(s[0]).len() && g.push(s[0])[i] == ':';
                if i < g.len() {
                    assert(g[i] == ':');
                }
            }
        }
        lemma_split_groups_have_no_colon(s.drop_first(), g.push(s[0]), k);
    }
}

proof fn lemma_split_join(gs: Seq<Seq<char>>)
    requires
        gs.len() >= 1,
        forall|k: int| 0 <= k < gs.len() ==> !(#[trigger] gs[k]).contains(':'),
    ensures
        split_on(join_groups(gs), ':') == gs,
    decreases gs.len(),
{
    let e: Seq<char> = seq![];
    if gs.len() == 1 {
        lemma_split_no_sep(gs[0], ':', e);
        assert(e + gs[0] =~= gs[0]);
        assert(seq![gs[0]] =~= gs);
    } else {
        let rest = gs.drop_first();
        assert forall|k: int| 0 <= k < rest.len() implies !(#[trigger] rest[k]).contains(':') by {
            assert(rest[k] == gs[k + 1]);
        }
        lemma_split_join(rest);
        lemma_split_piece(gs[0], ':', join_groups(rest), e);
        assert(e + gs[0] =~= gs[0]);
        assert(seq![gs[0]] + rest =~= gs);
    }
}

proof fn lemma_pad_group_shape(g: Seq<char>)
    requires
        1 <= encode_utf8(g).len() <= 2,
        !g.contains(':'),
    ensures
        encode_utf8(pad_group(g)).len() == 2,
        !pad_group(g).contains(':'),
        pad_group(pad_group(g)) == pad_group(g),
{
    let z = seq!['0'] + g;
    assert(z[0] == '0');
    assert(z.drop_first() =~= g);
    assert(encode_utf8(z) == encode_scalar('0' as u32) + encode_utf8(g));
    if z.contains(':') {
        let i = choose|i: int| 0 <= i < z.len() && z[i] == ':';
        assert(i > 0);
        assert(g[i - 1] == ':');
    }
}

/// Cleaning a MAC address whose groups are one or two bytes long gives one
/// that cleaning leaves as it is, so looking a cleaned key up again finds it.
pub proof fn lemma_clean_mac_idempotent(s: Seq<char>)
    requires
        short_groups(s),
    ensures
        clean_mac(clean_mac(s)) == clean_mac(s),
{
    let f = |x: Seq<char>| pad_group(x);
    let gs = split_on(s, ':');
    lemma_clean_is_padded_groups(s, seq![]);
    let padded = gs.map_values(f);
    assert forall|k: int| 0 <= k < padded.len() implies !(#[trigger] padded[k]).contains(':')
        && encode_utf8(padded[k]).len() == 2 && pad_group(padded[k]) == padded[k] by {
        lemma_split_groups_have_no_colon(s, seq![], k);
        assert(1 <= encode_utf8(gs[k]).len() <= 2);
        lemma_pad_group_shape(gs[k]);
    }
    lemma_split_join(padded);
    lemma_clean_is_padded_groups(clean_mac(s), seq![]);
    assert(split_on(clean_mac(s), ':').map_values(f) =~= padded);
}

/// The OUI of a MAC address with one- or two-byte groups is the same whether
/// it is given as `arp` printed it or as the database stores it.
pub proof fn lemma_oui_of_stored_form(s: Seq<char>)
    requires
        short_groups(s),
    ensures
        spec_mac_oui(clean_mac(s)) == spec_mac_oui(s),
{
    lemma_clean_mac_idempotent(s);
}

/// Every `:`-separated group of `s` is exactly two bytes long, the form the
/// database keeps MAC addresses in.
pub open spec fn two_byte_groups(s: Seq<char>) -> bool {
    forall|k: int|
        0 <= k < split_on(s, ':').len() ==> encode_utf8(#[trigger] split_on(s, ':')[k]).len() == 2
}

/// Cleaning a MAC address with one- or two-byte groups makes every group two
/// bytes long.
pub proof fn lemma_clean_mac_two_byte_groups(s: Seq<char>)
    requires
        short_groups(s),
    ensures
        two_byte_groups(clean_mac(s)),
{
    let f = |x: Seq<char>| pad_group(x);
    let gs = split_on(s, ':');
    lemma_clean_is_padded_groups(s, seq![]);
    let padded = gs.map_values(f);
    assert forall|k: int| 0 <= k < padded.len() implies !(#[trigger] padded[k]).contains(':')
        && encode_utf8(padded[k]).len() == 2 by {
        lemma_split_groups_have_no_colon(s, seq![], k);
        assert(1 <= encode_utf8(gs[k]).len() <= 2);
        lemma_pad_group_shape(gs[k]);
    }
    lemma_split_join(padded);
}

proof fn lemma_join_split(s: Seq<char>, g: Seq<char>)
    ensures
        join_groups(split_acc(s, ':', g)) == g + s,
        split_acc(s, ':', g).len() >= 1,
    decreases s.len(),
{
    if s.len() == 0 {
        assert(g + s =~= g);
    } else if s[0] == ':' {
        lemma_join_split(s.drop_first(), seq![]);
        let rest = split_acc(s.drop_first(), ':', seq![]);
        let whole = split_acc(s, ':', g);
        assert(whole =~= seq![g] + rest);
        assert(whole.drop_first() =~= rest);
        assert(seq![] + s.drop_first() =~= s.drop_first());
        assert(g + seq![':'] + s.drop_first() =~= g + s);
    } else {
        lemma_join_split(s.drop_first(), g.push(s[0]));
        assert(g.push(s[0]) + s.drop_first() =~= g + s);
    }
}

/// A MAC address whose groups are all two bytes long is already clean:
/// cleaning leaves it unchanged.
pub proof fn lemma_clean_mac_keeps_clean(s: Seq<char>)
    requires
        two_byte_groups(s),
    ensures
        clean_mac(s) == s,
{
    let f = |x: Seq<char>| pad_group(x);
    let gs = split_on(s, ':');
    lemma_clean_is_padded_groups(s, seq![]);
    assert(gs.map_values(f) =~= gs) by {
        assert forall|k: int| 0 <= k < gs.len() implies #[trigger] gs.map_values(f)[k] == gs[k] by {
            assert(encode_utf8(gs[k]).len() == 2);
        }
    }
    lemma_join_split(s, seq![]);
    assert(seq![] + s =~= s);
}

// ---------------------------------------------------------------------------
// Letter case
/// The OUI of an ASCII MAC address: the first six characters of its cleaned,
/// colon-free form, with its small letters made capital; none when that form
/// is shorter than six characters.
pub open spec fn ascii_mac_oui(mac: Seq<char>) -> Option<Seq<char>> {
    let bare = drop_colons(clean_mac(mac));
    if bare.len() >= 6 {
        Some(ascii_upper(bare.subrange(0, 6)))
    } else {
        None
    }
}

proof fn lemma_ascii_lower_concat(a: Seq<char>, b: Seq<char>)
    ensures
        ascii_lower(a + b) == ascii_lower(a) + ascii_lower(b),
{
    assert(ascii_lower(a + b) =~= ascii_lower(a) + ascii_lower(b));
}

proof fn lemma_ascii_pad_group(g: Seq<char>)
    requires
        is_ascii_chars(g),
    ensures
        is_ascii_chars(pad_group(g)),
        pad_group(ascii_lower(g)) == ascii_lower(pad_group(g)),
{
    let lg = ascii_lower(g);
    assert(is_ascii_chars(lg));
    is_ascii_chars_encode_utf8(g);
    is_ascii_chars_encode_utf8(lg);
    if encode_utf8(g).len() != 2 {
        lemma_ascii_lower_concat(seq!['0'], g);
        assert(ascii_lower(seq!['0']) =~= seq!['0']);
        assert(is_ascii_chars(seq!['0'] + g));
    }
}

proof fn lemma_ascii_clean_acc(s: Seq<char>, g: Seq<char>)
    requires
        is_ascii_chars(s),
        is_ascii_chars(g),
    ensures
        is_ascii_chars(clean_acc(s, g)),
        clean_acc(ascii_lower(s), ascii_lower(g)) == ascii_lower(clean_acc(s, g)),
    decreases s.len(),
{
    let ls = ascii_lower(s);
    if s.len() == 0 {
        lemma_ascii_pad_group(g);
    } else {
        assert(ls.drop_first() =~= ascii_lower(s.drop_first()));
        assert(ls[0] == ascii_lower_char(s[0]));
        assert(is_ascii_chars(s.drop_first()));
        if s[0] == ':' {
            lemma_ascii_pad_group(g);
            lemma_ascii_clean_acc(s.drop_first(), seq![]);
            assert(ascii_lower(Seq::<char>::empty()) =~= Seq::<char>::empty());
            let p = pad_group(g);
            let rest = clean_acc(s.drop_first(), seq![]);
            lemma_ascii_lower_concat(p + seq![':'], rest);
            lemma_ascii_lower_concat(p, seq![':']);
            assert(ascii_lower(seq![':']) =~= seq![':']);
            assert(is_ascii_chars(p + seq![':']));
            assert(is_ascii_chars(p + seq![':'] + rest));
        } else {
            assert(ls[0] != ':');
            assert(is_ascii_chars(g.push(s[0])));
            lemma_ascii_clean_acc(s.drop_first(), g.push(s[0]));
            assert(ascii_lower(g).push(ls[0]) =~= ascii_lower(g.push(s[0])));
        }
    }
}

proof fn lemma_ascii_drop_colons(s: Seq<char>)
    requires
        is_ascii_chars(s),
    ensures
        is_ascii_chars(drop_colons(s)),
        drop_colons(ascii_lower(s)) == ascii_lower(drop_colons(s)),
    decreases s.len(),
{
    if s.len() > 0 {
        let ls = ascii_lower(s);
        assert(ls.drop_last() =~= ascii_lower(s.drop_last()));
        assert(ls.last() == ascii_lower_char(s.last()));
        assert(is_ascii_chars(s.drop_last()));
        lemma_ascii_drop_colons(s.drop_last());
        if s.last() != ':' {
            assert(ascii_lower(drop_colons(s.drop_last())).push(ls.last()) =~= ascii_lower(
                drop_colons(s.drop_last()).push(s.last()),
            ));
            assert(is_ascii_chars(drop_colons(s.drop_last()).push(s.last())));
        }
    }
}

/// The OUI of an ASCII MAC address does not depend on the case of its
/// letters: two addresses that are equal once their capital letters are
/// made small have the same OUI.
pub proof fn lemma_mac_oui_ignores_case(a: Seq<char>, b: Seq<char>)
    requires
        is_ascii_chars(a),
        is_ascii_chars(b),
        ascii_lower(a) == ascii_lower(b),
    ensures
        ascii_mac_oui(a) == ascii_mac_oui(b),
{
    lemma_ascii_clean_acc(a, seq![]);
    lemma_ascii_clean_acc(b, seq![]);
    assert(ascii_lower(Seq::<char>::empty()) =~= Seq::<char>::empty());
    let ca = clean_mac(a);
    let cb = clean_mac(b);
    lemma_ascii_drop_colons(ca);
    lemma_ascii_drop_colons(cb);
    let da = drop_colons(ca);
    let db = drop_colons(cb);
    assert(ascii_lower(da) == ascii_lower(db));
    assert(da.len() == ascii_lower(da).len());
    if da.len() >= 6 {
        assert forall|k: int| 0 <= k < 6 implies #[trigger] ascii_upper(da.subrange(0, 6))[k]
            == ascii_upper(db.subrange(0, 6))[k] by {
            assert(ascii_lower(da)[k] == ascii_lower(db)[k]);
        }
        assert(ascii_upper(da.subrange(0, 6)) =~= ascii_upper(db.subrange(0, 6)));
    }
}

} // verus!
