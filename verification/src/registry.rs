//! The bookkeeping behind the lookup of remote IPs: which addresses wait for
//! a lookup, and what was learned about each looked-up address.

use crate::ipv4::Ipv4Address;
use crate::ipv4::ipv4_text;
use crate::ipv4::is_private_ipv4;
use crate::ipv4::lemma_ipv4_text_parses_back;
use crate::text::string_views;
use crate::text::concat;
use crate::ipv4::ipv4_bits;
use crate::ipv4::lemma_ipv4_bits_injective;
use std::collections::HashSet;
use vstd::prelude::*;
use vstd::std_specs::hash::spec_hash_keys_iter;
use vstd::std_specs::iter::IteratorSpec;
use vstd::string::StringExecFns;

verus! {

broadcast use {vstd::string::group_string_axioms, vstd::std_specs::hash::group_hash_axioms};

/// What is known of a remote IP address.
pub struct Info {
    pub country: String,
    pub flag: String,
    pub hostname: String,
    pub ip: String,
}

/// The contents of an `Info`.
pub struct InfoView {
    pub country: Seq<char>,
    pub flag: Seq<char>,
    pub hostname: Seq<char>,
    pub ip: Seq<char>,
}

impl View for Info {
    type V = InfoView;

    open spec fn view(&self) -> InfoView {
        InfoView { country: self.country@, flag: self.flag@, hostname: self.hostname@, ip: self.ip@ }
    }
}

/// The text shown for unknown hostnames and countries.
pub open spec fn unknown_text() -> Seq<char> {
    "Unknown"@
}

/// The flag shown when the country's flag is unknown (U+26F3).
pub open spec fn unknown_flag() -> Seq<char> {
    "\u{26f3}"@
}

/// An optional text, or a default in its place.
pub open spec fn or_default(v: Option<Seq<char>>, default: Seq<char>) -> Seq<char> {
    match v {
        Some(t) => t,
        None => default,
    }
}

/// The view of an optional string.
pub open spec fn opt_view(v: Option<String>) -> Option<Seq<char>> {
    match v {
        Some(s) => Some(s@),
        None => None,
    }
}

/// What a lookup service answered about one address; any part may be missing.
pub struct LookupResult {
    pub ip: String,
    pub hostname: Option<String>,
    pub country_name: Option<String>,
    pub flag_emoji: Option<String>,
}

/// The `Info` recorded for a lookup result: missing hostnames and countries
/// become `Unknown`, a missing flag becomes the golf flag.
pub open spec fn info_of(r: LookupResult) -> InfoView {
    InfoView {
        country: or_default(opt_view(r.country_name), unknown_text()),
        flag: or_default(opt_view(r.flag_emoji), unknown_flag()),
        hostname: or_default(opt_view(r.hostname), unknown_text()),
        ip: r.ip@,
    }
}

fn text_or(v: Option<String>, default: &str) -> (s: String)
    ensures
        s@ == or_default(opt_view(v), default@),
{
    match v {
        Some(t) => t,
        None => String::from_str(default),
    }
}

impl Info {
    /// The `Info` for one lookup result.
    pub fn from_lookup(r: LookupResult) -> (info: Info)
        ensures
            info@ == info_of(r),
    {
        let ghost spec_r = r;
        let LookupResult { ip, hostname, country_name, flag_emoji } = r;
        Info {
            country: text_or(country_name, "Unknown"),
            flag: text_or(flag_emoji, "\u{26f3}"),
            hostname: text_or(hostname, "Unknown"),
            ip,
        }
    }

    /// A copy of this `Info`.
    pub fn duplicate(&self) -> (c: Info)
        ensures
            c@ == self@,
    {
        Info {
            country: self.country.clone(),
            flag: self.flag.clone(),
            hostname: self.hostname.clone(),
            ip: self.ip.clone(),
        }
    }

    /// The one-line description of this `Info`:
    /// `Country: .., Flag: .., Hostname: .., IP: ..`.
    pub fn describe(&self) -> (s: String)
        ensures
            s@ == "Country: "@ + self.country@ + ", Flag: "@ + self.flag@ + ", Hostname: "@
                + self.hostname@ + ", IP: "@ + self.ip@,
    {
        let mut s = concat("Country: ", self.country.as_str());
        s.append(", Flag: ");
        s.append(self.flag.as_str());
        s.append(", Hostname: ");
        s.append(self.hostname.as_str());
        s.append(", IP: ");
        s.append(self.ip.as_str());
        s
    }
}

/// The map that a list of entries stands for: a later entry for a key
/// replaces an earlier one.
pub open spec fn entries_map(e: Seq<(Seq<char>, InfoView)>) -> Map<Seq<char>, InfoView>
    decreases e.len(),
{
    if e.len() == 0 {
        Map::empty()
    } else {
        entries_map(e.drop_last()).insert(e.last().0, e.last().1)
    }
}

/// The cache after the lookup results `rs` are stored in turn, each one
/// replacing what was known of its address.
pub open spec fn store_lookups(cache: Map<Seq<char>, InfoView>, rs: Seq<LookupResult>) -> Map<
    Seq<char>,
    InfoView,
>
    decreases rs.len(),
{
    if rs.len() == 0 {
        cache
    } else {
        store_lookups(cache, rs.drop_last()).insert(rs.last().ip@, info_of(rs.last()))
    }
}

/// The state of the IP registry: addresses waiting for a lookup, and what
/// was learned of looked-up addresses, keyed by their text.
pub struct RegistryView {
    pub pending: Set<Ipv4Address>,
    pub cache: Map<Seq<char>, InfoView>,
}

/// An address is queued for lookup unless it is queued already, already
/// looked up, or private.
pub open spec fn accepts(v: RegistryView, ip: Ipv4Address) -> bool {
    !v.pending.contains(ip) && !v.cache.dom().contains(ipv4_text(ip)) && !is_private_ipv4(ip)
}

/// `t` is the text of an address that waits for a lookup.
pub open spec fn is_pending_text(v: RegistryView, t: Seq<char>) -> bool {
    exists|ip: Ipv4Address| v.pending.contains(ip) && t == ipv4_text(ip)
}

/// The registry after `ip` is queued.
pub open spec fn after_add(v: RegistryView, ip: Ipv4Address) -> RegistryView {
    RegistryView { pending: v.pending.insert(ip), cache: v.cache }
}

/// The registry after a batch of lookup results is stored: the queue is empty.
pub open spec fn after_lookup(v: RegistryView, rs: Seq<LookupResult>) -> RegistryView {
    RegistryView { pending: Set::empty(), cache: store_lookups(v.cache, rs) }
}

/// The addresses waiting for a lookup, each by its number, and the cache of
/// lookup results.
pub struct IpRegistry {
    pending: HashSet<u32>,
    cache: Vec<(String, Info)>,
}

impl View for IpRegistry {
    type V = RegistryView;

    closed spec fn view(&self) -> RegistryView {
        RegistryView {
            pending: Set::new(|ip: Ipv4Address| self.pending@.contains(ipv4_bits(ip))),
            cache: entries_map(self.entries()),
        }
    }
}

impl IpRegistry {
    pub closed spec fn entries(&self) -> Seq<(Seq<char>, InfoView)> {
        self.cache@.map_values(|e: (String, Info)| (e.0@, e.1@))
    }

    /// An empty registry.
    pub fn new() -> (r: Self)
        ensures
            r.view().pending == Set::<Ipv4Address>::empty(),
            r.view().cache == Map::<Seq<char>, InfoView>::empty(),
    {
        let r = IpRegistry { pending: HashSet::new(), cache: Vec::new() };
        assert(r.view().pending =~= Set::<Ipv4Address>::empty());
        assert(r.entries() =~= Seq::<(Seq<char>, InfoView)>::empty());
        r
    }
}

proof fn lemma_entries_map_dom(e: Seq<(Seq<char>, InfoView)>, k: Seq<char>)
    ensures
        entries_map(e).dom().contains(k) <==> exists|i: int| 0 <= i < e.len() && (#[trigger] e[i]).0
            == k,
    decreases e.len(),
{
    if e.len() > 0 {
        lemma_entries_map_dom(e.drop_last(), k);
        if entries_map(e.drop_last()).dom().contains(k) {
            let i = choose|i: int| 0 <= i < e.drop_last().len() && (#[trigger] e.drop_last()[i]).0 == k;
            assert(e[i] == e.drop_last()[i]);
        }
        if exists|i: int| 0 <= i < e.len() && (#[trigger] e[i]).0 == k {
            let i = choose|i: int| 0 <= i < e.len() && (#[trigger] e[i]).0 == k;
            if i < e.len() - 1 {
                assert(e.drop_last()[i] == e[i]);
            }
        }
    }
}

impl IpRegistry {
    fn is_pending(&self, ip: Ipv4Address) -> (b: bool)
        ensures
            b == self.view().pending.contains(ip),
    {
        self.pending.contains(&ip.to_bits())
    }

    fn is_cached(&self, key: &String) -> (b: bool)
        ensures
            b == self.view().cache.dom().contains(key@),
    {
        let mut i: usize = 0;
        while i < self.cache.len()
            invariant
                i <= self.cache@.len(),
                forall|j: int| 0 <= j < i ==> self.cache@[j].0@ != key@,
            decreases self.cache.len() - i,
        {
            if self.cache[i].0 == *key {
                assert(self.entries()[i as int] == (self.cache@[i as int].0@, self.cache@[i as int].1@));
                assert(self.entries()[i as int].0 == key@);
                proof {
                    lemma_entries_map_dom(self.entries(), key@);
                }
                return true;
            }
            i = i + 1;
        }
        assert forall|j: int| 0 <= j < self.entries().len() implies (#[trigger] self.entries()[j]).0
            != key@ by {
            assert(self.entries()[j].0 == self.cache@[j].0@);
        }
        proof {
            lemma_entries_map_dom(self.entries(), key@);
        }
        false
    }

    /// Queues `ip` for a lookup and returns its text, unless it is queued
    /// already, was looked up already, or is private.
    pub fn add_ip_to_set(&mut self, ip: Ipv4Address) -> (r: Result<String, String>)
        ensures
            accepts(old(self).view(), ip) ==> (r matches Ok(t) && t@ == ipv4_text(ip)
                && final(self).view() == after_add(old(self).view(), ip)),
            !accepts(old(self).view(), ip) ==> (r matches Err(e) && e@ == "IP already in set"@
                && final(self).view() == old(self).view()),
    {
        let text = ip.to_text();
        if self.is_pending(ip) || self.is_cached(&text) || ip.is_private() {
            return Err(String::from_str("IP already in set"));
        }
        let ghost before = self.view().pending;
        self.pending.insert(ip.to_bits());
        proof {
            assert forall|x: Ipv4Address| #[trigger] self.view().pending.contains(x) <==> before.insert(
                ip,
            ).contains(x) by {
                if ipv4_bits(x) == ipv4_bits(ip) {
                    lemma_ipv4_bits_injective(x, ip);
                }
            }
            assert(self.view().pending =~= before.insert(ip));
        }
        Ok(text)
    }

    /// The texts of the addresses waiting for a lookup, each once.
    pub fn pending_texts(&self) -> (texts: Vec<String>)
        ensures
            string_views(texts@).no_duplicates(),
            forall|i: int| 0 <= i < texts@.len() ==> is_pending_text(self.view(), #[trigger] texts@[i]@),
            forall|ip: Ipv4Address|
                #[trigger] self.view().pending.contains(ip) ==> exists|i: int|
                    0 <= i < texts@.len() && texts@[i]@ == ipv4_text(ip),
    {
        let mut texts: Vec<String> = Vec::new();
        let ghost keys = IteratorSpec::remaining(&spec_hash_keys_iter(&self.pending));
        let ghost addrs: Seq<Ipv4Address> = Seq::empty();
        for n in it: self.pending.iter()
            invariant
                it.seq() == keys,
                keys.unref().to_set() == self.pending@,
                keys.no_duplicates(),
                texts@.len() == it.index(),
                addrs.len() == it.index(),
                forall|j: int|
                    0 <= j < it.index() ==> ipv4_bits(#[trigger] addrs[j]) == *keys[j]
                        && texts@[j]@ == ipv4_text(addrs[j]),
        {
            let ip = Ipv4Address::from_bits(*n);
            proof {
                addrs = addrs.push(ip);
            }
            texts.push(ip.to_text());
        }
        assert(addrs.len() == keys.len());
        assert forall|j: int| 0 <= j < texts@.len() implies is_pending_text(
            self.view(),
            #[trigger] texts@[j]@,
        ) by {
            assert(keys.unref()[j] == *keys[j]);
            assert(self.pending@.contains(ipv4_bits(addrs[j])));
            assert(self.view().pending.contains(addrs[j]));
        }
        assert forall|ip: Ipv4Address| #[trigger] self.view().pending.contains(ip) implies exists|
            i: int,
        | 0 <= i < texts@.len() && texts@[i]@ == ipv4_text(ip) by {
            assert(keys.unref().to_set().contains(ipv4_bits(ip)));
            let i = choose|i: int| 0 <= i < keys.unref().len() && keys.unref()[i] == ipv4_bits(ip);
            assert(keys.unref()[i] == *keys[i]);
            lemma_ipv4_bits_injective(addrs[i], ip);
            assert(texts@[i]@ == ipv4_text(ip));
        }
        assert forall|a: int, b: int|
            0 <= a < b < string_views(texts@).len() implies string_views(texts@)[a] != string_views(
            texts@,
        )[b] by {
            lemma_ipv4_text_parses_back(addrs[a]);
            lemma_ipv4_text_parses_back(addrs[b]);
            assert(keys[a] != keys[b]);
        }
        texts
    }

    /// Stores a batch of lookup results, each replacing what was known of its
    /// address, and empties the queue.
    pub fn record_lookup(&mut self, results: Vec<LookupResult>)
        ensures
            final(self).view() == after_lookup(old(self).view(), results@),
    {
        let ghost rs = results@;
        let ghost start = old(self).view().cache;
        let mut cache: Vec<(String, Info)> = Vec::new();
        std::mem::swap(&mut cache, &mut self.cache);
        assert(cache@.map_values(|e: (String, Info)| (e.0@, e.1@)) == old(self).entries());
        let mut results = results;
        let n = results.len();
        let mut k: usize = 0;
        assert(rs.take(0) =~= Seq::<LookupResult>::empty());
        assert(rs.skip(0) =~= rs);
        while results.len() > 0
            invariant
                k <= rs.len(),
                k + results@.len() == n,
                n == rs.len(),
                results@ == rs.skip(k as int),
                entries_map(cache@.map_values(|e: (String, Info)| (e.0@, e.1@))) == store_lookups(
                    start,
                    rs.take(k as int),
                ),
            decreases results@.len(),
        {
            let r = results.remove(0);
            assert(r == rs[k as int]);
            let key = r.ip.clone();
            let ghost spec_r = r;
            let info = Info::from_lookup(r);
            let ghost before = cache@.map_values(|e: (String, Info)| (e.0@, e.1@));
            cache.push((key, info));
            assert(cache@.map_values(|e: (String, Info)| (e.0@, e.1@)) =~= before.push(
                (spec_r.ip@, info_of(spec_r)),
            ));
            assert(before.push((spec_r.ip@, info_of(spec_r))).drop_last() =~= before);
            assert(rs.take(k + 1).drop_last() =~= rs.take(k as int));
            assert(rs.take(k + 1).last() == rs[k as int]);
            assert(rs.skip(k + 1) =~= rs.skip(k as int).drop_first());
            k = k + 1;
        }
        assert(rs.take(k as int) =~= rs);
        self.cache = cache;
        self.pending.clear();
        assert(self.view().pending =~= Set::<Ipv4Address>::empty());
    }
}

impl IpRegistry {
    /// The cache as a list of (address text, info) entries; a later entry for
    /// a text replaces an earlier one.
    pub fn cache_entries(&self) -> (e: Vec<(String, Info)>)
        ensures
            entries_map(e@.map_values(|x: (String, Info)| (x.0@, x.1@))) == self.view().cache,
    {
        let mut e: Vec<(String, Info)> = Vec::new();
        let mut i: usize = 0;
        while i < self.cache.len()
            invariant
                i <= self.cache@.len(),
                e@.map_values(|x: (String, Info)| (x.0@, x.1@)) =~= self.entries().subrange(0, i as int),
            decreases self.cache.len() - i,
        {
            let ghost before = e@;
            let key = self.cache[i].0.clone();
            let info = self.cache[i].1.duplicate();
            assert(self.entries()[i as int] == (self.cache@[i as int].0@, self.cache@[i as int].1@));
            assert(key@ == self.cache@[i as int].0@);
            e.push((key, info));
            assert(e@.map_values(|x: (String, Info)| (x.0@, x.1@)) =~= before.map_values(
                |x: (String, Info)| (x.0@, x.1@),
            ).push(self.entries()[i as int]));
            assert(e@.map_values(|x: (String, Info)| (x.0@, x.1@)) =~= self.entries().subrange(
                0,
                i + 1,
            ));
            i = i + 1;
        }
        assert(self.entries().subrange(0, self.cache@.len() as int) =~= self.entries());
        e
    }
}

// ---------------------------------------------------------------------------
// Laws of the registry
/// An address that was just queued is refused when offered again.
pub proof fn lemma_queued_address_refused(v: RegistryView, ip: Ipv4Address)
    requires
        accepts(v, ip),
    ensures
        !accepts(after_add(v, ip), ip),
{
}

/// A private address is never queued.
pub proof fn lemma_private_address_refused(v: RegistryView, ip: Ipv4Address)
    requires
        is_private_ipv4(ip),
    ensures
        !accepts(v, ip),
{
}

proof fn lemma_store_lookups_dom(cache: Map<Seq<char>, InfoView>, rs: Seq<LookupResult>, i: int)
    requires
        0 <= i < rs.len(),
    ensures
        store_lookups(cache, rs).dom().contains(rs[i].ip@),
    decreases rs.len(),
{
    if i < rs.len() - 1 {
        lemma_store_lookups_dom(cache, rs.drop_last(), i);
        assert(rs.drop_last()[i] == rs[i]);
    }
}

/// After a batch of lookups the queue is empty, and every address that was
/// in the batch is refused from then on.
pub proof fn lemma_looked_up_address_refused(
    v: RegistryView,
    rs: Seq<LookupResult>,
    i: int,
    ip: Ipv4Address,
)
    requires
        0 <= i < rs.len(),
        rs[i].ip@ == ipv4_text(ip),
    ensures
        after_lookup(v, rs).pending.is_empty(),
        !accepts(after_lookup(v, rs), ip),
{
    lemma_store_lookups_dom(v.cache, rs, i);
}

/// What was cached stays cached: a batch of lookups only adds to the cache.
pub proof fn lemma_lookup_keeps_cached(v: RegistryView, rs: Seq<LookupResult>, key: Seq<char>)
    requires
        v.cache.dom().contains(key),
    ensures
        after_lookup(v, rs).cache.dom().contains(key),
    decreases rs.len(),
{
    if rs.len() > 0 {
        lemma_lookup_keeps_cached(v, rs.drop_last(), key);
    }
}

/// What the last answer of a batch about an address says is what the cache
/// holds for it: the answered country, or `Unknown` only when no country was
/// answered; the answered flag, or the golf flag; the answered hostname, or
/// `Unknown`; and the address text. Each part depends on its own answer alone.
pub proof fn lemma_lookup_records_answer(v: RegistryView, rs: Seq<LookupResult>, i: int)
    requires
        0 <= i < rs.len(),
        forall|j: int| i < j < rs.len() ==> (#[trigger] rs[j]).ip@ != rs[i].ip@,
    ensures
        after_lookup(v, rs).cache.dom().contains(rs[i].ip@),
        ({
            let e = after_lookup(v, rs).cache[rs[i].ip@];
            &&& rs[i].country_name matches Some(c) ==> e.country == c@
            &&& rs[i].country_name is None ==> e.country == "Unknown"@
            &&& rs[i].flag_emoji matches Some(f) ==> e.flag == f@
            &&& rs[i].flag_emoji is None ==> e.flag == "\u{26f3}"@
            &&& rs[i].hostname matches Some(h) ==> e.hostname == h@
            &&& rs[i].hostname is None ==> e.hostname == "Unknown"@
            &&& e.ip == rs[i].ip@
        }),
    decreases rs.len(),
{
    if i < rs.len() - 1 {
        assert forall|j: int| i < j < rs.drop_last().len() implies (#[trigger] rs.drop_last()[j]).ip@
            != rs.drop_last()[i].ip@ by {
            assert(rs.drop_last()[j] == rs[j]);
        }
        lemma_lookup_records_answer(v, rs.drop_last(), i);
        assert(rs.drop_last()[i] == rs[i]);
        assert(rs.last() == rs[rs.len() - 1]);
    }
}

} // verus!
