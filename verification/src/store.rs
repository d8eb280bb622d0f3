//! The decisions behind the device and manufacturer databases: the keys rows
//! are stored under, the rows that get inserted, the defaults for unknown
//! manufacturers, the records read from the OUI list, and which devices get
//! their hostname looked up.

use crate::decimal::digit_char;
use crate::mac::clean_mac;
use crate::mac::clean_mac_address;
use crate::text::chars_eq;
use crate::text::chars_of;
use crate::text::string_from_chars;
use crate::text::string_views;
use csv::ReaderBuilder;
use chrono::Datelike;
use chrono::Local;
use chrono::NaiveDate;
use vstd::prelude::*;
use vstd::string::StringExecFns;

verus! {

broadcast use vstd::string::group_string_axioms;

// ---------------------------------------------------------------------------
// Rows
/// A network, known by its router.
pub struct Network {
    pub mac_address: String,
    pub ip_address: String,
    pub manufacturer: String,
    pub country: String,
}

/// A device seen on a network.
pub struct Device {
    pub mac_address: String,
    pub ip_address: String,
    pub hostname: String,
    pub manufacturer: String,
    pub country: String,
    pub date_added: String,
}

/// The manufacturer and country answered for an OUI.
pub struct OuiResponse {
    pub manufacturer: String,
    pub country: String,
}

pub open spec fn unknown() -> Seq<char> {
    "Unknown"@
}

// ---------------------------------------------------------------------------
// The date a device was first seen
#[verifier::external_type_specification]
#[verifier::external_body]
pub struct ExNaiveDate(NaiveDate);

/// `Local::now`, taken as a calendar date (`DateTime::date_naive`): today's
/// local date; nothing is stated of which date it is.
#[verifier::external_body]
fn local_today() -> NaiveDate {
    Local::now().date_naive()
}

/// `Datelike::day` of a date: the day of the month, from 1 to 31.
#[verifier::external_body]
fn date_day(d: &NaiveDate) -> (day: u32)
    ensures
        1 <= day <= 31,
{
    d.day()
}

/// `Datelike::month` of a date: the month, from 1 to 12.
#[verifier::external_body]
fn date_month(d: &NaiveDate) -> (month: u32)
    ensures
        1 <= month <= 12,
{
    d.month()
}

/// `Datelike::year` of a date; nothing is stated of its range.
#[verifier::external_body]
fn date_year(d: &NaiveDate) -> i32 {
    d.year()
}

/// A number below 100 as two digits, zero-padded.
pub open spec fn two_digits(v: int) -> Seq<char> {
    seq![digit_char(v / 10), digit_char(v % 10)]
}

/// A date as `%d/%m/%y`: two-digit day, month and year of the century.
pub open spec fn date_text(day: int, month: int, year: int) -> Seq<char> {
    two_digits(day) + seq!['/'] + two_digits(month) + seq!['/'] + two_digits(year % 100)
}

fn push_two_digits(out: &mut Vec<char>, v: u32)
    requires
        v < 100,
    ensures
        final(out)@ == old(out)@ + two_digits(v as int),
{
    out.push((48u8 + (v / 10) as u8) as char);
    out.push((48u8 + (v % 10) as u8) as char);
    assert(final(out)@ =~= old(out)@ + two_digits(v as int));
}

/// The date `day/month/year` as the device table stores it (`%d/%m/%y`).
pub fn format_date_added(day: u32, month: u32, year: i32) -> (s: String)
    requires
        1 <= day <= 31,
        1 <= month <= 12,
    ensures
        s@ == date_text(day as int, month as int, year as int),
{
    let century_year: u32 = if year >= 0 {
        (year % 100) as u32
    } else {
        let m = ((-(year as i64)) as u64 % 100) as u32;
        if m == 0 {
            0
        } else {
            100 - m
        }
    };
    assert(century_year as int == year % 100);
    let mut out: Vec<char> = Vec::new();
    push_two_digits(&mut out, day);
    out.push('/');
    push_two_digits(&mut out, month);
    out.push('/');
    push_two_digits(&mut out, century_year);
    assert(out@ =~= date_text(day as int, month as int, year as int));
    string_from_chars(out.as_slice())
}

/// Today's date as the device table stores it.
pub fn today_date_added() -> (s: String)
    ensures
        exists|d: int, m: int, y: int| 1 <= d <= 31 && 1 <= m <= 12 && s@ == date_text(d, m, y),
{
    let today = local_today();
    let d = date_day(&today);
    let m = date_month(&today);
    let y = date_year(&today);
    let s = format_date_added(d, m, y);
    assert(s@ == date_text(d as int, m as int, y as int));
    s
}

// ---------------------------------------------------------------------------
// Keys and inserted rows
/// The key of a device row: the device's MAC and its router's MAC, cleaned.
pub fn device_key(mac_address: &str, router_mac: &str) -> (k: (String, String))
    ensures
        k.0@ == clean_mac(mac_address@),
        k.1@ == clean_mac(router_mac@),
{
    (clean_mac_address(mac_address), clean_mac_address(router_mac))
}

/// A device row to insert unless its key is present: the key and the row.
pub struct DevicePlan {
    pub mac_key: String,
    pub router_key: String,
    pub device: Device,
}

/// The row that recording a device inserts when its key is not yet present:
/// MACs cleaned, hostname `Unknown`, today's date. A device whose cleaned MAC
/// is its router's is not recorded at all.
pub fn plan_device_insert(
    mac_address: &str,
    ip_address: &str,
    manufacturer: &str,
    country: &str,
    router_mac: &str,
) -> (plan: Option<DevicePlan>)
    ensures
        plan is None <==> clean_mac(mac_address@) == clean_mac(router_mac@),
        plan matches Some(p) ==> {
            &&& p.mac_key@ == clean_mac(mac_address@)
            &&& p.router_key@ == clean_mac(router_mac@)
            &&& p.device.mac_address@ == clean_mac(mac_address@)
            &&& p.device.ip_address@ == ip_address@
            &&& p.device.hostname@ == unknown()
            &&& p.device.manufacturer@ == manufacturer@
            &&& p.device.country@ == country@
            &&& exists|d: int, m: int, y: int|
                1 <= d <= 31 && 1 <= m <= 12 && p.device.date_added@ == date_text(d, m, y)
        },
{
    let (mac_key, router_key) = device_key(mac_address, router_mac);
    if mac_key == router_key {
        return None;
    }
    let device = Device {
        mac_address: mac_key.clone(),
        ip_address: String::from_str(ip_address),
        hostname: String::from_str("Unknown"),
        manufacturer: String::from_str(manufacturer),
        country: String::from_str(country),
        date_added: today_date_added(),
    };
    Some(DevicePlan { mac_key, router_key, device })
}

/// The row that recording a network inserts when its router is not yet
/// present: the router's MAC cleaned.
pub fn plan_network_insert(router_mac: &str, ip_address: &str, manufacturer: &str, country: &str) -> (n: Network)
    ensures
        n.mac_address@ == clean_mac(router_mac@),
        n.ip_address@ == ip_address@,
        n.manufacturer@ == manufacturer@,
        n.country@ == country@,
{
    Network {
        mac_address: clean_mac_address(router_mac),
        ip_address: String::from_str(ip_address),
        manufacturer: String::from_str(manufacturer),
        country: String::from_str(country),
    }
}

/// The manufacturer and country found for a MAC, or `Unknown` for both.
pub fn manufacturer_or_unknown(found: Option<(String, String)>) -> (r: (String, String))
    ensures
        match found {
            Some((m, c)) => r.0@ == m@ && r.1@ == c@,
            None => r.0@ == unknown() && r.1@ == unknown(),
        },
{
    match found {
        Some(pair) => pair,
        None => (String::from_str("Unknown"), String::from_str("Unknown")),
    }
}

/// The answer for an OUI: the row's manufacturer and country, each `Unknown`
/// where it could not be read, or both `Unknown` when there is no row.
pub fn oui_response(row: Option<(Option<String>, Option<String>)>) -> (r: OuiResponse)
    ensures
        match row {
            Some((m, c)) => (match m {
                Some(v) => r.manufacturer@ == v@,
                None => r.manufacturer@ == unknown(),
            }) && (match c {
                Some(v) => r.country@ == v@,
                None => r.country@ == unknown(),
            }),
            None => r.manufacturer@ == unknown() && r.country@ == unknown(),
        },
{
    match row {
        Some((m, c)) => {
            let manufacturer = match m {
                Some(v) => v,
                None => String::from_str("Unknown"),
            };
            let country = match c {
                Some(v) => v,
                None => String::from_str("Unknown"),
            };
            OuiResponse { manufacturer, country }
        },
        None => OuiResponse {
            manufacturer: String::from_str("Unknown"),
            country: String::from_str("Unknown"),
        },
    }
}

/// One record of the OUI list: its first three fields (OUI, manufacturer,
/// country), or the error for the first one missing.
pub fn oui_record(fields: &Vec<String>) -> (r: Result<(String, String, String), String>)
    ensures
        fields@.len() == 0 ==> (r matches Err(e) && e@ == "missing field 'oui'"@),
        fields@.len() == 1 ==> (r matches Err(e) && e@ == "missing field 'manufacturer'"@),
        fields@.len() == 2 ==> (r matches Err(e) && e@ == "missing field 'country'"@),
        fields@.len() >= 3 ==> (r matches Ok((o, m, c)) && o@ == fields@[0]@ && m@ == fields@[1]@
            && c@ == fields@[2]@),
{
    if fields.len() == 0 {
        return Err(String::from_str("missing field 'oui'"));
    }
    if fields.len() == 1 {
        return Err(String::from_str("missing field 'manufacturer'"));
    }
    if fields.len() == 2 {
        return Err(String::from_str("missing field 'country'"));
    }
    Ok((fields[0].clone(), fields[1].clone(), fields[2].clone()))
}

#[verifier::external_type_specification]
#[verifier::external_body]
pub struct ExCsvError(csv::Error);

/// What the `csv` crate reads from a CSV text without a header row: the
/// records it yields, each as its fields, up to the first error, and whether
/// an error (invalid UTF-8 in a field, or a record whose length differs from
/// the first one's) ends the reading there.
pub uninterp spec fn csv_read(bytes: Seq<u8>) -> (Seq<Seq<Seq<char>>>, bool);

/// The views of the fields of each record.
pub open spec fn record_views(v: Seq<Vec<String>>) -> Seq<Seq<Seq<char>>> {
    v.map_values(|rec: Vec<String>| string_views(rec@))
}

/// `csv::ReaderBuilder` without headers over the bytes, and its `records`,
/// each turned into its fields, up to the first error, which is handed back
/// beside them.
#[verifier::external_body]
fn read_csv_records(bytes: &[u8]) -> (r: (Vec<Vec<String>>, Option<csv::Error>))
    ensures
        csv_read(bytes@) == (record_views(r.0@), r.1 is Some),
{
    let mut rdr = ReaderBuilder::new().has_headers(false).from_reader(bytes);
    let mut records: Vec<Vec<String>> = Vec::new();
    for rec in rdr.records() {
        match rec {
            Ok(fields) => records.push(fields.iter().map(String::from).collect()),
            Err(e) => return (records, Some(e)),
        }
    }
    (records, None)
}

/// The message for a record with only `n` fields.
pub open spec fn missing_field_message(n: nat) -> Seq<char> {
    if n == 0 {
        "missing field 'oui'"@
    } else if n == 1 {
        "missing field 'manufacturer'"@
    } else {
        "missing field 'country'"@
    }
}

/// The rows of the OUI table made from CSV records: the first three fields of
/// each record, in order; the message for the first record that is too short.
pub open spec fn oui_rows_of(recs: Seq<Seq<Seq<char>>>) -> Result<
    Seq<(Seq<char>, Seq<char>, Seq<char>)>,
    Seq<char>,
>
    decreases recs.len(),
{
    if recs.len() == 0 {
        Ok(seq![])
    } else if recs[0].len() < 3 {
        Err(missing_field_message(recs[0].len()))
    } else {
        match oui_rows_of(recs.drop_first()) {
            Ok(rest) => Ok(seq![(recs[0][0], recs[0][1], recs[0][2])] + rest),
            Err(e) => Err(e),
        }
    }
}

/// Why the OUI list could not be read.
pub enum OuiListError {
    /// The CSV reader refused the text.
    Csv(csv::Error),
    /// A record lacks a field; the message names it.
    MissingField(String),
}

/// The views of rows.
pub open spec fn row_views(v: Seq<(String, String, String)>) -> Seq<(Seq<char>, Seq<char>, Seq<char>)> {
    v.map_values(|r: (String, String, String)| (r.0@, r.1@, r.2@))
}

/// The rows of the OUI table read from the bytes of the OUI list, record by
/// record: a record that lacks a field is reported before any CSV error that
/// comes after it.
pub fn oui_rows(bytes: &[u8]) -> (r: Result<Vec<(String, String, String)>, OuiListError>)
    ensures
        match oui_rows_of(csv_read(bytes@).0) {
            Err(m) => r matches Err(OuiListError::MissingField(e)) && e@ == m,
            Ok(rows) => if csv_read(bytes@).1 {
                r matches Err(OuiListError::Csv(_))
            } else {
                r matches Ok(v) && row_views(v@) == rows
            },
        },
{
    let (records, failure) = read_csv_records(bytes);
    let ghost recs = record_views(records@);
    let mut rows: Vec<(String, String, String)> = Vec::new();
    let mut i: usize = 0;
    assert(recs.skip(0) =~= recs);
    while i < records.len()
        invariant
            i <= records@.len(),
            recs == record_views(records@),
            csv_read(bytes@).0 == recs,
            oui_rows_of(recs) matches Ok(all) ==> oui_rows_of(recs.skip(i as int)) matches Ok(rest)
                && all == row_views(rows@) + rest,
            oui_rows_of(recs) is Err ==> oui_rows_of(recs) == oui_rows_of(recs.skip(i as int)),
        decreases records.len() - i,
    {
        let ghost tail = recs.skip(i as int);
        assert(tail[0] == string_views(records@[i as int]@));
        assert(tail.drop_first() =~= recs.skip(i + 1));
        match oui_record(&records[i]) {
            Ok((o, m, c)) => {
                let ghost before = rows@;
                rows.push((o, m, c));
                assert(row_views(rows@) =~= row_views(before).push((tail[0][0], tail[0][1], tail[0][2])));
                proof {
                    if let Ok(all) = oui_rows_of(recs) {
                        let rest = oui_rows_of(tail)->Ok_0;
                        assert(rest =~= seq![(tail[0][0], tail[0][1], tail[0][2])] + oui_rows_of(
                            recs.skip(i + 1),
                        )->Ok_0);
                        assert(all =~= row_views(rows@) + oui_rows_of(recs.skip(i + 1))->Ok_0);
                    }
                }
            },
            Err(e) => {
                assert(oui_rows_of(tail) == Err::<Seq<(Seq<char>, Seq<char>, Seq<char>)>, Seq<char>>(
                    missing_field_message(tail[0].len())));
                return Err(OuiListError::MissingField(e));
            },
        }
        i = i + 1;
    }
    assert(recs.skip(i as int) =~= Seq::<Seq<Seq<char>>>::empty());
    assert(row_views(rows@) + Seq::<(Seq<char>, Seq<char>, Seq<char>)>::empty() =~= row_views(rows@));
    match failure {
        Some(e) => Err(OuiListError::Csv(e)),
        None => Ok(rows),
    }
}

// ---------------------------------------------------------------------------
// Hostnames
/// The (MAC, IP) of the devices whose hostname is still unknown, in order.
pub open spec fn hostname_candidates(ds: Seq<Device>) -> Seq<(Seq<char>, Seq<char>)>
    decreases ds.len(),
{
    if ds.len() == 0 {
        seq![]
    } else if ds.last().hostname@ == unknown() {
        hostname_candidates(ds.drop_last()).push((ds.last().mac_address@, ds.last().ip_address@))
    } else {
        hostname_candidates(ds.drop_last())
    }
}

/// The (MAC, IP) of the devices whose hostname is still `Unknown`.
pub fn hostname_lookups(devices: &Vec<Device>) -> (c: Vec<(String, String)>)
    ensures
        c@.map_values(|p: (String, String)| (p.0@, p.1@)) == hostname_candidates(devices@),
{
    let unknown_chars = chars_of("Unknown");
    let mut c: Vec<(String, String)> = Vec::new();
    let mut i: usize = 0;
    assert(devices@.subrange(0, 0) =~= Seq::<Device>::empty());
    while i < devices.len()
        invariant
            i <= devices@.len(),
            unknown_chars@ == unknown(),
            c@.map_values(|p: (String, String)| (p.0@, p.1@)) == hostname_candidates(
                devices@.subrange(0, i as int),
            ),
        decreases devices.len() - i,
    {
        let ghost before = c@;
        assert(devices@.subrange(0, i + 1).drop_last() =~= devices@.subrange(0, i as int));
        assert(devices@.subrange(0, i + 1).last() == devices@[i as int]);
        let h = chars_of(devices[i].hostname.as_str());
        if chars_eq(h.as_slice(), unknown_chars.as_slice()) {
            c.push((devices[i].mac_address.clone(), devices[i].ip_address.clone()));
            assert(c@.map_values(|p: (String, String)| (p.0@, p.1@)) =~= before.map_values(
                |p: (String, String)| (p.0@, p.1@),
            ).push((devices@[i as int].mac_address@, devices@[i as int].ip_address@)));
        }
        i = i + 1;
    }
    assert(devices@.subrange(0, devices@.len() as int) =~= devices@);
    c
}

/// The hostname updates made from lookup answers: for each candidate whose
/// answer is not `Unknown`, its MAC and the answer, in order.
pub open spec fn hostname_changes(macs: Seq<Seq<char>>, answers: Seq<Seq<char>>) -> Seq<
    (Seq<char>, Seq<char>),
>
    decreases answers.len(),
{
    if answers.len() == 0 || macs.len() == 0 {
        seq![]
    } else if answers.last() != unknown() {
        hostname_changes(macs.drop_last(), answers.drop_last()).push((macs.last(), answers.last()))
    } else {
        hostname_changes(macs.drop_last(), answers.drop_last())
    }
}

/// The updates to make from the hostnames answered for the candidates, and
/// whether any hostname was found (which is announced to the interface).
pub fn hostname_updates(candidates: &Vec<(String, String)>, answers: &Vec<String>) -> (r: (
    Vec<(String, String)>,
    bool,
))
    requires
        candidates@.len() == answers@.len(),
    ensures
        r.0@.map_values(|p: (String, String)| (p.0@, p.1@)) == hostname_changes(
            candidates@.map_values(|p: (String, String)| p.0@),
            string_views(answers@),
        ),
        r.1 == (r.0@.len() > 0),
{
    let ghost macs = candidates@.map_values(|p: (String, String)| p.0@);
    let ghost hs = string_views(answers@);
    let unknown_chars = chars_of("Unknown");
    let mut updates: Vec<(String, String)> = Vec::new();
    let mut i: usize = 0;
    assert(macs.subrange(0, 0) =~= Seq::<Seq<char>>::empty());
    assert(hs.subrange(0, 0) =~= Seq::<Seq<char>>::empty());
    while i < answers.len()
        invariant
            i <= answers@.len(),
            candidates@.len() == answers@.len(),
            macs == candidates@.map_values(|p: (String, String)| p.0@),
            hs == string_views(answers@),
            unknown_chars@ == unknown(),
            updates@.map_values(|p: (String, String)| (p.0@, p.1@)) == hostname_changes(
                macs.subrange(0, i as int),
                hs.subrange(0, i as int),
            ),
        decreases answers.len() - i,
    {
        let ghost before = updates@;
        assert(macs.subrange(0, i + 1).drop_last() =~= macs.subrange(0, i as int));
        assert(hs.subrange(0, i + 1).drop_last() =~= hs.subrange(0, i as int));
        assert(macs.subrange(0, i + 1).last() == candidates@[i as int].0@);
        assert(hs.subrange(0, i + 1).last() == answers@[i as int]@);
        let h = chars_of(answers[i].as_str());
        if !chars_eq(h.as_slice(), unknown_chars.as_slice()) {
            updates.push((candidates[i].0.clone(), answers[i].clone()));
            assert(updates@.map_values(|p: (String, String)| (p.0@, p.1@)) =~= before.map_values(
                |p: (String, String)| (p.0@, p.1@),
            ).push((candidates@[i as int].0@, answers@[i as int]@)));
        }
        i = i + 1;
    }
    assert(macs.subrange(0, i as int) =~= macs);
    assert(hs.subrange(0, i as int) =~= hs);
    let found = updates.len() > 0;
    (updates, found)
}

proof fn lemma_candidates_are_unknown(ds: Seq<Device>, k: int)
    requires
        0 <= k < hostname_candidates(ds).len(),
    ensures
        exists|i: int|
            0 <= i < ds.len() && (#[trigger] ds[i]).mac_address@ == hostname_candidates(ds)[k].0
                && ds[i].hostname@ == unknown(),
    decreases ds.len(),
{
    let rest = hostname_candidates(ds.drop_last());
    if ds.last().hostname@ == unknown() && k == rest.len() {
        assert(ds[ds.len() - 1] == ds.last());
    } else {
        lemma_candidates_are_unknown(ds.drop_last(), k);
        let i = choose|i: int|
            0 <= i < ds.drop_last().len() && (#[trigger] ds.drop_last()[i]).mac_address@ == rest[k].0
                && ds.drop_last()[i].hostname@ == unknown();
        assert(ds[i] == ds.drop_last()[i]);
    }
}

proof fn lemma_changes_come_from_answers(macs: Seq<Seq<char>>, answers: Seq<Seq<char>>, k: int)
    requires
        macs.len() == answers.len(),
        0 <= k < hostname_changes(macs, answers).len(),
    ensures
        hostname_changes(macs, answers)[k].1 != unknown(),
        exists|i: int| 0 <= i < macs.len() && #[trigger] macs[i] == hostname_changes(macs, answers)[k].0,
    decreases answers.len(),
{
    let rest = hostname_changes(macs.drop_last(), answers.drop_last());
    if answers.last() != unknown() && k == rest.len() {
        assert(macs[macs.len() - 1] == macs.last());
    } else {
        lemma_changes_come_from_answers(macs.drop_last(), answers.drop_last(), k);
        let i = choose|i: int|
            0 <= i < macs.drop_last().len() && #[trigger] macs.drop_last()[i] == rest[k].0;
        assert(macs[i] == macs.drop_last()[i]);
    }
}

/// A hostname sweep only fills in hostnames that were `Unknown`, and never
/// with `Unknown`: each update names a device whose hostname was unknown,
/// with a hostname the lookup did find.
pub proof fn lemma_sweep_fills_unknown_hostnames(ds: Seq<Device>, answers: Seq<Seq<char>>, k: int)
    requires
        answers.len() == hostname_candidates(ds).len(),
        0 <= k < hostname_changes(
            hostname_candidates(ds).map_values(|p: (Seq<char>, Seq<char>)| p.0),
            answers,
        ).len(),
    ensures
        ({
            let u = hostname_changes(
                hostname_candidates(ds).map_values(|p: (Seq<char>, Seq<char>)| p.0),
                answers,
            )[k];
            &&& u.1 != unknown()
            &&& exists|i: int|
                0 <= i < ds.len() && (#[trigger] ds[i]).mac_address@ == u.0 && ds[i].hostname@
                    == unknown()
        }),
{
    let cs = hostname_candidates(ds);
    let macs = cs.map_values(|p: (Seq<char>, Seq<char>)| p.0);
    lemma_changes_come_from_answers(macs, answers, k);
    let j = choose|j: int| 0 <= j < macs.len() && #[trigger] macs[j] == hostname_changes(macs, answers)[k].0;
    assert(macs[j] == cs[j].0);
    lemma_candidates_are_unknown(ds, j);
}

/// The (MAC, answer) pairs of the candidates, by position.
pub open spec fn answered_pairs(macs: Seq<Seq<char>>, answers: Seq<Seq<char>>) -> Seq<
    (Seq<char>, Seq<char>),
> {
    Seq::new(macs.len(), |i: int| (macs[i], answers[i]))
}

/// A hostname sweep stores exactly the hostnames the lookups found: the
/// updates are the (MAC, answer) pairs of the candidates, in their order,
/// whose answer is not `Unknown`; so every found hostname is stored with
/// the MAC of the device it was found for.
pub proof fn lemma_changes_are_found_answers(macs: Seq<Seq<char>>, answers: Seq<Seq<char>>)
    requires
        macs.len() == answers.len(),
    ensures
        hostname_changes(macs, answers) == answered_pairs(macs, answers).filter(
            |p: (Seq<char>, Seq<char>)| p.1 != unknown(),
        ),
        forall|i: int|
            0 <= i < answers.len() && answers[i] != unknown() ==> hostname_changes(
                macs,
                answers,
            ).contains((macs[i], #[trigger] answers[i])),
    decreases answers.len(),
{
    let f = |p: (Seq<char>, Seq<char>)| p.1 != unknown();
    let pairs = answered_pairs(macs, answers);
    reveal(Seq::filter);
    if answers.len() > 0 {
        lemma_changes_are_found_answers(macs.drop_last(), answers.drop_last());
        assert(pairs.drop_last() =~= answered_pairs(macs.drop_last(), answers.drop_last()));
        assert(pairs.last() == (macs.last(), answers.last()));
    } else {
        assert(pairs =~= Seq::<(Seq<char>, Seq<char>)>::empty());
    }
    assert forall|i: int| 0 <= i < answers.len() && answers[i] != unknown() implies hostname_changes(
        macs,
        answers,
    ).contains((macs[i], #[trigger] answers[i])) by {
        assert(pairs[i] == (macs[i], answers[i]));
        pairs.lemma_filter_contains(f, i);
    }
}

} // verus!
