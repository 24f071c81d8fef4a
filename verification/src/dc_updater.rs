//! Data-centre address tables: the built-in fallback, the parser for the address
//! lists that Telegram serves, and the decisions of the updater that fetches them.

use std::collections::HashMap;
use std::time::SystemTime;
use vstd::prelude::*;
use vstd::std_specs::iter::IteratorSpec;
use crate::json::{JsonValue, json_document, json_get, json_items, json_str, json_u64, parse_json};
use crate::text::{
    chars_of, decimal_text, find_char, find_in, is_digit, is_white_space, join_lines, lemma_decimal_text,
    lemma_find_char_at, lemma_lines_of_join, lemma_lines_step, lemma_trim_fixed, line_at,
    lines, parse_unsigned, parse_unsigned_range, plain_line, range_equals, trim, trim_range,
    unsigned_digits,
};

verus! {

broadcast use {
    vstd::std_specs::hash::group_hash_axioms,
    vstd::string::group_string_axioms,
};

#[verifier::external_type_specification]
#[verifier::external_body]
pub struct ExSystemTime(SystemTime);

/// `SystemTime` is `Copy`; its `clone` gives the same instant.
pub assume_specification[ <SystemTime as Clone>::clone ](t: &SystemTime) -> (r: SystemTime)
    ensures
        r == *t,
;

/// A table of data-centre addresses, keyed by data-centre id, the addresses as characters.
pub open spec fn ips_view(m: Map<u32, String>) -> Map<u32, Seq<char>> {
    m.map_values(|s: String| s@)
}

/// The built-in addresses, used whenever no fresh list can be had.
pub open spec fn fallback_table() -> Map<u32, Seq<char>> {
    map![
        1u32 => "149.154.175.53"@,
        2u32 => "149.154.167.51"@,
        3u32 => "149.154.175.100"@,
        4u32 => "149.154.167.91"@,
        5u32 => "91.108.56.130"@,
        203u32 => "149.154.167.40"@,
    ]
}

/// Fallback DC IPs (hardcoded, always available).
pub fn fallback_dc_ips() -> (r: HashMap<u32, String>)
    ensures
        ips_view(r@) == fallback_table(),
        r@.dom() == set![1u32, 2u32, 3u32, 4u32, 5u32, 203u32],
        r@[1]@ == "149.154.175.53"@,
        r@[2]@ == "149.154.167.51"@,
        r@[3]@ == "149.154.175.100"@,
        r@[4]@ == "149.154.167.91"@,
        r@[5]@ == "91.108.56.130"@,
        r@[203]@ == "149.154.167.40"@,
{
    let mut m: HashMap<u32, String> = HashMap::new();
    m.insert(1, "149.154.175.53".to_string());
    m.insert(2, "149.154.167.51".to_string());
    m.insert(3, "149.154.175.100".to_string());
    m.insert(4, "149.154.167.91".to_string());
    m.insert(5, "91.108.56.130".to_string());
    m.insert(203, "149.154.167.40".to_string());
    assert(ips_view(m@) =~= fallback_table());
    assert(m@.dom() =~= set![1u32, 2u32, 3u32, 4u32, 5u32, 203u32]);
    m
}

/// Reads the system clock (`SystemTime::now`). Nothing is claimed of the result.
#[verifier::external_body]
fn system_time_now() -> SystemTime {
    SystemTime::now()
}

/// Telegram DC configuration from API.
#[derive(Debug, Clone)]
pub struct DcConfig {
    pub ips: HashMap<u32, String>,
    pub timestamp: SystemTime,
}

impl DcConfig {
    /// The built-in addresses, stamped with `now`.
    pub fn fallback_at(now: SystemTime) -> (r: Self)
        ensures
            ips_view(r.ips@) == fallback_table(),
            r.timestamp == now,
    {
        Self { ips: fallback_dc_ips(), timestamp: now }
    }

    /// The built-in addresses, stamped with the current time (`fallback_at` of the clock's reading).
    pub fn fallback() -> (r: Self)
        ensures
            ips_view(r.ips@) == fallback_table(),
    {
        Self::fallback_at(system_time_now())
    }
}

/// Whether `core::net::IpAddr::from_str` accepts `text` as an IPv4 or IPv6 address.
pub uninterp spec fn ip_address_parses(text: Seq<char>) -> bool;

/// An address text that `IpAddr::from_str` accepts. Such a text is never empty and holds
/// no white space: the documented forms are dot-decimal IPv4 and colon-separated
/// hexadecimal IPv6 (with an optional dot-decimal tail).
pub open spec fn accepted_ip_address(text: Seq<char>) -> bool {
    &&& ip_address_parses(text)
    &&& text.len() > 0
    &&& forall|i: int| 0 <= i < text.len() ==> !is_white_space(#[trigger] text[i])
}

/// Calls `str::parse::<core::net::IpAddr>` on `text` and reports whether it succeeded.
/// The contract names that outcome (`ip_address_parses`) and claims of an accepted text
/// only what the documented address forms show: it is not empty and holds no white space.
/// The rest of the address grammar is left to the standard library.
#[verifier::external_body]
fn is_ip_address(text: &str) -> (r: bool)
    ensures
        r == ip_address_parses(text@),
        r ==> text@.len() > 0 && forall|i: int| 0 <= i < text@.len() ==> !is_white_space(
            #[trigger] text@[i],
        ),
{
    text.parse::<core::net::IpAddr>().is_ok()
}

/// `m` with the entry `e` added, where there is one; a later entry for a key replaces an earlier one.
pub open spec fn insert_entry(m: Map<u32, Seq<char>>, e: Option<(u32, Seq<char>)>) -> Map<
    u32,
    Seq<char>,
> {
    match e {
        Some((k, v)) => m.insert(k, v),
        None => m,
    }
}

/// The address entry that an element of `dc_options` gives: its `id` as a `u32`
/// (truncated, as `id as u32` does) and its `ip_address`, where both are present.
pub open spec fn json_dc_entry(dc: JsonValue) -> Option<(u32, Seq<char>)> {
    match (json_u64(json_get(dc, "id"@)), json_str(json_get(dc, "ip_address"@))) {
        (Some(id), Some(ip)) => Some((id as u32, ip)),
        _ => None,
    }
}

/// The table built from the elements of `dc_options`, in order.
pub open spec fn json_dc_map(items: Seq<JsonValue>) -> Map<u32, Seq<char>>
    decreases items.len(),
{
    if items.len() == 0 {
        Map::empty()
    } else {
        insert_entry(json_dc_map(items.drop_last()), json_dc_entry(items.last()))
    }
}

/// The elements of the document's `dc_options` array; none where there is no such array.
pub open spec fn json_dc_options(doc: Option<JsonValue>) -> Seq<JsonValue> {
    match doc {
        Some(v) => match json_items(json_get(v, "dc_options"@)) {
            Some(items) => items,
            None => seq![],
        },
        None => seq![],
    }
}

/// The entry of one line of the plain-text format `DC_ID:IP_ADDRESS`: the line is trimmed;
/// empty lines and lines that start with `#` give none; the id is the trimmed text before
/// the first `:`, parsed as a `u32`; the address is the trimmed rest, kept only where it
/// parses as an IP address (`accepted_ip_address`).
pub open spec fn plain_entry(line: Seq<char>) -> Option<(u32, Seq<char>)> {
    let t = trim(line);
    if t.len() == 0 || t[0] == '#' {
        None
    } else {
        let k = find_char(t, ':', 0);
        if k >= t.len() {
            None
        } else {
            match parse_unsigned(trim(t.subrange(0, k)), u32::MAX as int) {
                Some(dc) => {
                    let ip = trim(t.subrange(k + 1, t.len() as int));
                    if accepted_ip_address(ip) {
                        Some((dc as u32, ip))
                    } else {
                        None
                    }
                },
                None => None,
            }
        }
    }
}

/// The table built from the lines, in order.
pub open spec fn plain_dc_map(ls: Seq<Seq<char>>) -> Map<u32, Seq<char>>
    decreases ls.len(),
{
    if ls.len() == 0 {
        Map::empty()
    } else {
        insert_entry(plain_dc_map(ls.drop_last()), plain_entry(ls.last()))
    }
}

/// What the address parser makes of a served text, given the JSON tree read from it:
/// the `dc_options` entries when they give any address; otherwise the plain-text entries
/// when they give any; otherwise nothing.
pub open spec fn proxy_config_ips(doc: Option<JsonValue>, text: Seq<char>) -> Option<
    Map<u32, Seq<char>>,
> {
    let from_json = json_dc_map(json_dc_options(doc));
    let from_lines = plain_dc_map(lines(text));
    if !from_json.is_empty() {
        Some(from_json)
    } else if !from_lines.is_empty() {
        Some(from_lines)
    } else {
        None
    }
}

proof fn lemma_ips_view_insert(m: Map<u32, String>, k: u32, v: String)
    ensures
        ips_view(m.insert(k, v)) == ips_view(m).insert(k, v@),
        ips_view(m).dom() == m.dom(),
{
    assert(ips_view(m.insert(k, v)) =~= ips_view(m).insert(k, v@));
    assert(ips_view(m).dom() =~= m.dom());
}

/// The table that the `dc_options` array of a parsed document gives.
fn ips_from_json(doc: &Option<JsonValue>) -> (r: HashMap<u32, String>)
    ensures
        ips_view(r@) == json_dc_map(json_dc_options(*doc)),
{
    let mut ips: HashMap<u32, String> = HashMap::new();
    assert(ips_view(ips@) =~= Map::empty());
    if let Some(json) = doc {
        let list_key = "dc_options".to_string();
        if let Some(list) = json.get(&list_key) {
            if let Some(dcs) = list.as_array() {
                let id_key = "id".to_string();
                let ip_key = "ip_address".to_string();
                assert(json_dc_options(*doc) == dcs@);
                let mut i: usize = 0;
                while i < dcs.len()
                    invariant
                        i <= dcs@.len(),
                        id_key@ == "id"@,
                        ip_key@ == "ip_address"@,
                        ips_view(ips@) == json_dc_map(dcs@.take(i as int)),
                    decreases dcs@.len() - i,
                {
                    let dc = &dcs[i];
                    let id = match dc.get(&id_key) {
                        Some(v) => v.as_u64(),
                        None => None,
                    };
                    let ip = match dc.get(&ip_key) {
                        Some(v) => v.as_str(),
                        None => None,
                    };
                    assert(dcs@.take(i + 1).drop_last() =~= dcs@.take(i as int));
                    assert(id == json_u64(json_get(*dc, "id"@)));
                    if let (Some(id), Some(ip)) = (id, ip) {
                        proof {
                            lemma_ips_view_insert(ips@, id as u32, *ip);
                        }
                        ips.insert(#[verifier::truncate] (id as u32), ip.clone());
                    }
                    i = i + 1;
                }
                assert(dcs@.take(dcs@.len() as int) =~= dcs@);
            }
        }
    }
    ips
}

/// The entry of the line `text[lo..hi]` (counted in characters), `chars` being the
/// characters of `text`.
fn line_entry(text: &str, chars: &Vec<char>, lo: usize, hi: usize) -> (r: Option<(u32, String)>)
    requires
        chars@ == text@,
        lo <= hi <= chars@.len(),
    ensures
        match plain_entry(chars@.subrange(lo as int, hi as int)) {
            Some((dc, ip)) => r matches Some((d, s)) && d == dc && s@ == ip,
            None => r is None,
        },
{
    let ghost line = chars@.subrange(lo as int, hi as int);
    let (a, b) = trim_range(chars, lo, hi);
    let ghost t = chars@.subrange(a as int, b as int);
    assert(t == trim(line));
    if a == b || chars[a] == '#' {
        return None;
    }
    let colon = find_in(chars, ':', a, b);
    let ghost k = colon - a;
    assert(k == find_char(t, ':', 0));
    if colon == b {
        return None;
    }
    let (da, db) = trim_range(chars, a, colon);
    assert(chars@.subrange(a as int, colon as int) =~= t.subrange(0, k));
    let dc = match parse_unsigned_range(chars, da, db, 0xffff_ffff) {
        Some(dc) => dc,
        None => {
            return None;
        },
    };
    let (ia, ib) = trim_range(chars, colon + 1, b);
    assert(chars@.subrange(colon + 1, b as int) =~= t.subrange(k + 1, t.len() as int));
    let ip_text = text.substring_char(ia, ib);
    assert(ip_text@ == trim(t.subrange(k + 1, t.len() as int)));
    assert(dc <= 0xffff_ffff);
    assert(parse_unsigned(trim(t.subrange(0, k)), u32::MAX as int) == Some(dc as int));
    if is_ip_address(ip_text) {
        Some((dc as u32, ip_text.to_string()))
    } else {
        None
    }
}

/// The table that the plain-text lines of `text` give.
fn ips_from_lines(text: &str) -> (r: HashMap<u32, String>)
    ensures
        ips_view(r@) == plain_dc_map(lines(text@)),
{
    let chars = chars_of(text);
    let len = chars.len();
    let mut ips: HashMap<u32, String> = HashMap::new();
    assert(ips_view(ips@) =~= Map::empty());
    let ghost mut done: Seq<Seq<char>> = seq![];
    let mut pos: usize = 0;
    assert(chars@.subrange(0, len as int) =~= chars@);
    while pos < len
        invariant
            chars@ == text@,
            len == chars@.len(),
            pos <= len,
            lines(chars@) == done + lines(chars@.subrange(pos as int, len as int)),
            ips_view(ips@) == plain_dc_map(done),
        decreases len - pos,
    {
        let j = find_in(&chars, '\n', pos, len);
        proof {
            lemma_lines_step(chars@, pos as int, j as int);
        }
        let mut end = j;
        if j < len && j > pos && chars[j - 1] == '\r' {
            end = j - 1;
        }
        assert(chars@.subrange(pos as int, end as int) =~= line_at(chars@, pos as int, j as int));
        let entry = line_entry(text, &chars, pos, end);
        let ghost line = line_at(chars@, pos as int, j as int);
        assert((done.push(line)).drop_last() =~= done);
        if let Some((dc, ip)) = entry {
            proof {
                lemma_ips_view_insert(ips@, dc, ip);
            }
            ips.insert(dc, ip);
        }
        proof {
            done = done.push(line);
        }
        if j < len {
            assert(lines(chars@) == done + lines(chars@.subrange(j + 1, len as int)));
            pos = j + 1;
        } else {
            assert(lines(chars@.subrange(len as int, len as int)) =~= seq![]);
            assert(lines(chars@) =~= done + lines(chars@.subrange(len as int, len as int)));
            pos = len;
        }
    }
    assert(lines(chars@.subrange(len as int, len as int)) =~= seq![]);
    assert(lines(chars@) =~= done);
    ips
}

/// What the address parser makes of `text`, given the JSON tree read from it (`None`
/// where `text` is not JSON): the entries of `dc_options` when they give any address,
/// else the entries of the plain-text lines when they give any, else `None`.
pub fn dc_ips_from_parsed(json: &Option<JsonValue>, text: &str) -> (r: Option<
    HashMap<u32, String>,
>)
    ensures
        match proxy_config_ips(*json, text@) {
            Some(m) => r matches Some(h) && ips_view(h@) == m,
            None => r is None,
        },
{
    let from_json = ips_from_json(json);
    assert(ips_view(from_json@).dom() =~= from_json@.dom());
    if !from_json.is_empty() {
        return Some(from_json);
    }
    let from_lines = ips_from_lines(text);
    assert(ips_view(from_lines@).dom() =~= from_lines@.dom());
    if from_lines.is_empty() {
        None
    } else {
        Some(from_lines)
    }
}

/// Parse Telegram proxy config format: a JSON document whose `dc_options` array lists
/// `{"id": .., "ip_address": ..}` objects, or plain-text lines `DC_ID:IP_ADDRESS`
/// (blank lines and `#` comments skipped). `None` when neither gives an address.
pub fn parse_proxy_config(text: &str) -> (r: Option<HashMap<u32, String>>)
    ensures
        match proxy_config_ips(json_document(text@), text@) {
            Some(m) => r matches Some(h) && ips_view(h@) == m,
            None => r is None,
        },
{
    let json = parse_json(text);
    dc_ips_from_parsed(&json, text)
}

/// Sources for fetching DC IPs: how many there are.
pub const DC_IP_SOURCE_COUNT: usize = 2;

/// The address of source `i`.
pub open spec fn dc_ip_source_url(i: int) -> Seq<char> {
    if i == 0 {
        "https://core.telegram.org/getProxyConfig"@
    } else {
        "https://telegram.org/getProxyConfig"@
    }
}

/// The address of source `i` of the address lists, tried in this order.
pub fn dc_ip_source(i: usize) -> (r: &'static str)
    requires
        i < DC_IP_SOURCE_COUNT,
    ensures
        r@ == dc_ip_source_url(i as int),
        i == 0 ==> r@ == "https://core.telegram.org/getProxyConfig"@,
        i == 1 ==> r@ == "https://telegram.org/getProxyConfig"@,
{
    if i == 0 {
        "https://core.telegram.org/getProxyConfig"
    } else {
        "https://telegram.org/getProxyConfig"
    }
}

/// Where the search for fresh addresses stands.
pub enum FetchStage {
    /// Source `i` of the list is to be asked next.
    Source(usize),
    /// The data centres' host names are to be resolved next.
    Dns,
}

/// What the search does after an outcome.
pub enum FetchDecision {
    /// Go on with this stage.
    Next(FetchStage),
    /// Stop with this result.
    Done(Option<HashMap<u32, String>>),
}

/// How many stages are left at most, counting this one.
pub open spec fn fetch_stages_left(stage: FetchStage) -> int {
    match stage {
        FetchStage::Source(i) => DC_IP_SOURCE_COUNT - i + 1,
        FetchStage::Dns => 1,
    }
}

/// A stage that the search can reach.
pub open spec fn fetch_stage_valid(stage: FetchStage) -> bool {
    match stage {
        FetchStage::Source(i) => i < DC_IP_SOURCE_COUNT,
        FetchStage::Dns => true,
    }
}

/// The first stage of the search: the first source.
pub fn fetch_start() -> (r: FetchStage)
    ensures
        r == FetchStage::Source(0),
        fetch_stage_valid(r),
{
    FetchStage::Source(0)
}

/// The decision after a stage gave `result`: a source's list that holds an address ends
/// the search with it; an empty or missing list moves on to the next source, and after
/// the last source to name resolution; the resolved table, or its absence, ends the search.
pub fn fetch_step(stage: FetchStage, result: Option<HashMap<u32, String>>) -> (r: FetchDecision)
    requires
        fetch_stage_valid(stage),
    ensures
        match stage {
            FetchStage::Source(i) => match result {
                Some(m) if !m@.is_empty() => r == FetchDecision::Done(Some(m)),
                _ => if i + 1 < DC_IP_SOURCE_COUNT {
                    r == FetchDecision::Next(FetchStage::Source((i + 1) as usize))
                } else {
                    r == FetchDecision::Next(FetchStage::Dns)
                },
            },
            FetchStage::Dns => r == FetchDecision::Done(result),
        },
        r matches FetchDecision::Next(next) ==> fetch_stage_valid(next) && 0 < fetch_stages_left(
            next,
        ) < fetch_stages_left(stage),
{
    match stage {
        FetchStage::Source(i) => {
            match result {
                Some(m) => {
                    if !m.is_empty() {
                        return FetchDecision::Done(Some(m));
                    }
                },
                None => {},
            }
            if i + 1 < DC_IP_SOURCE_COUNT {
                FetchDecision::Next(FetchStage::Source(i + 1))
            } else {
                FetchDecision::Next(FetchStage::Dns)
            }
        },
        FetchStage::Dns => FetchDecision::Done(result),
    }
}

/// An HTTP status code in the success class (`200..=299`), as `StatusCode::is_success` tests.
pub fn is_success_status(code: u16) -> (r: bool)
    ensures
        r == (200 <= code && code <= 299),
{
    200 <= code && code <= 299
}

/// What a source's reply gives: nothing unless the status is a success, else the addresses
/// that `parse_proxy_config` reads from the body.
pub fn response_dc_ips(status: u16, body: &str) -> (r: Option<HashMap<u32, String>>)
    ensures
        !(200 <= status && status <= 299) ==> r is None,
        (200 <= status && status <= 299) ==> match proxy_config_ips(
            json_document(body@),
            body@,
        ) {
            Some(m) => r matches Some(h) && ips_view(h@) == m,
            None => r is None,
        },
{
    if !is_success_status(status) {
        return None;
    }
    parse_proxy_config(body)
}

/// The data centres whose addresses name resolution can find, with their host names.
pub open spec fn dns_domain_table() -> Seq<(u32, Seq<char>)> {
    seq![
        (1u32, "pluto.web.telegram.org"@),
        (2u32, "venus.web.telegram.org"@),
        (3u32, "aurora.web.telegram.org"@),
        (4u32, "vesta.web.telegram.org"@),
        (5u32, "flora.web.telegram.org"@),
    ]
}

/// Known Telegram domains for each DC, in the order they are resolved.
pub fn dc_dns_domains() -> (r: Vec<(u32, String)>)
    ensures
        r@.len() == dns_domain_table().len(),
        forall|i: int|
            0 <= i < r@.len() ==> (#[trigger] r@[i]).0 == dns_domain_table()[i].0 && r@[i].1@
                == dns_domain_table()[i].1,
        r@.len() == 5,
        r@[0].0 == 1 && r@[0].1@ == "pluto.web.telegram.org"@,
        r@[1].0 == 2 && r@[1].1@ == "venus.web.telegram.org"@,
        r@[2].0 == 3 && r@[2].1@ == "aurora.web.telegram.org"@,
        r@[3].0 == 4 && r@[3].1@ == "vesta.web.telegram.org"@,
        r@[4].0 == 5 && r@[4].1@ == "flora.web.telegram.org"@,
{
    let mut v: Vec<(u32, String)> = Vec::new();
    v.push((1, "pluto.web.telegram.org".to_string()));
    v.push((2, "venus.web.telegram.org".to_string()));
    v.push((3, "aurora.web.telegram.org".to_string()));
    v.push((4, "vesta.web.telegram.org".to_string()));
    v.push((5, "flora.web.telegram.org".to_string()));
    v
}

/// The table that name resolution gives: each data centre whose name resolved, with the
/// first address found, in order.
pub open spec fn dns_dc_map(resolved: Seq<(u32, Option<String>)>) -> Map<u32, Seq<char>>
    decreases resolved.len(),
{
    if resolved.len() == 0 {
        Map::empty()
    } else {
        let m = dns_dc_map(resolved.drop_last());
        match resolved.last().1 {
            Some(ip) => m.insert(resolved.last().0, ip@),
            None => m,
        }
    }
}

/// The table that name resolution yields from the outcome for each data centre, kept
/// only when it holds at least three data centres.
pub fn dns_dc_ips(resolved: Vec<(u32, Option<String>)>) -> (r: Option<HashMap<u32, String>>)
    ensures
        r is Some <==> dns_dc_map(resolved@).len() >= 3,
        r matches Some(h) ==> ips_view(h@) == dns_dc_map(resolved@),
        r matches Some(h) ==> forall|i: int|
            #![trigger resolved@[i]]
            0 <= i < resolved@.len() && resolved@[i].1 is Some && (forall|j: int|
                i < j < resolved@.len() ==> (#[trigger] resolved@[j]).0 != resolved@[i].0
                    || resolved@[j].1 is None) ==> h@.contains_key(resolved@[i].0)
                && h@[resolved@[i].0]@ == resolved@[i].1.unwrap()@,
        r matches Some(h) ==> forall|k: u32|
            #[trigger] h@.contains_key(k) ==> exists|i: int|
                0 <= i < resolved@.len() && (#[trigger] resolved@[i]).0 == k && resolved@[i].1 is Some,
{
    proof {
        lemma_dns_last_outcome_wins(resolved@);
    }
    let mut ips: HashMap<u32, String> = HashMap::new();
    assert(ips_view(ips@) =~= Map::empty());
    let mut i: usize = 0;
    while i < resolved.len()
        invariant
            i <= resolved@.len(),
            ips_view(ips@) == dns_dc_map(resolved@.take(i as int)),
        decreases resolved@.len() - i,
    {
        assert(resolved@.take(i + 1).drop_last() =~= resolved@.take(i as int));
        match &resolved[i].1 {
            Some(ip) => {
                proof {
                    lemma_ips_view_insert(ips@, resolved@[i as int].0, *ip);
                }
                ips.insert(resolved[i].0, ip.clone());
            },
            None => {},
        }
        i = i + 1;
    }
    assert(resolved@.take(resolved@.len() as int) =~= resolved@);
    assert(ips_view(ips@).dom() =~= ips@.dom());
    if ips.len() >= 3 {
        Some(ips)
    } else {
        None
    }
}

/// Update DC IPs with automatic fallback: the fetched table, or the built-in one when
/// nothing was fetched.
pub fn dc_ips_or_fallback(fetched: Option<HashMap<u32, String>>) -> (r: HashMap<u32, String>)
    ensures
        match fetched {
            Some(m) => r == m,
            None => ips_view(r@) == fallback_table(),
        },
{
    match fetched {
        Some(ips) => ips,
        None => fallback_dc_ips(),
    }
}

/// The keys of `m`, each once, in the order the map walks them.
fn map_keys(m: &HashMap<u32, String>) -> (r: Vec<u32>)
    ensures
        r@.to_set() == m@.dom(),
        r@.no_duplicates(),
{
    let ghost all = vstd::std_specs::hash::spec_keys_iter(m).remaining().unref();
    let mut keys: Vec<u32> = Vec::new();
    for k in it: m.keys()
        invariant
            it.seq().unref() == all,
            keys@ == all.take(it.index() as int),
    {
        keys.push(*k);
    }
    assert(keys@ =~= all);
    keys
}

/// A data centre whose address a new table gives differently from the current one.
pub struct DcChange {
    pub dc: u32,
    /// The current address; `None` where the data centre is new.
    pub old_ip: Option<String>,
    pub new_ip: String,
}

/// `k` is in the new table and the current one lacks it or gives it another address.
pub open spec fn dc_changed(old: Map<u32, Seq<char>>, new: Map<u32, Seq<char>>, k: u32) -> bool {
    new.contains_key(k) && (!old.contains_key(k) || old[k] != new[k])
}

/// `c` describes the change of its data centre from `old` to `new`.
pub open spec fn change_describes(c: DcChange, old: Map<u32, Seq<char>>, new: Map<u32, Seq<char>>) -> bool {
    &&& dc_changed(old, new, c.dc)
    &&& c.new_ip@ == new[c.dc]
    &&& match c.old_ip {
        Some(ip) => old.contains_key(c.dc) && ip@ == old[c.dc],
        None => !old.contains_key(c.dc),
    }
}

/// The changes lists each changed data centre once, with its old and new address.
pub open spec fn changes_exact(changes: Seq<DcChange>, old: Map<u32, Seq<char>>, new: Map<u32, Seq<char>>) -> bool {
    &&& forall|i: int| 0 <= i < changes.len() ==> change_describes(#[trigger] changes[i], old, new)
    &&& forall|k: u32| dc_changed(old, new, k) ==> exists|i: int| 0 <= i < changes.len() && (#[trigger] changes[i]).dc == k
    &&& forall|i: int, j: int| 0 <= i < j < changes.len() ==> (#[trigger] changes[i]).dc != (#[trigger] changes[j]).dc
}

/// The data centres whose address `new` gives differently from `old`, in the order that `new` is walked.
pub fn dc_changes(old: &HashMap<u32, String>, new: &HashMap<u32, String>) -> (r: Vec<DcChange>)
    ensures
        changes_exact(r@, ips_view(old@), ips_view(new@)),
{
    let ghost o = ips_view(old@);
    let ghost n = ips_view(new@);
    let keys = map_keys(new);
    let mut changes: Vec<DcChange> = Vec::new();
    let mut i: usize = 0;
    while i < keys.len()
        invariant
            o == ips_view(old@),
            n == ips_view(new@),
            keys@.to_set() == new@.dom(),
            keys@.no_duplicates(),
            i <= keys@.len(),
            forall|c: int| 0 <= c < changes@.len() ==> change_describes(#[trigger] changes@[c], o, n),
            forall|c: int| 0 <= c < changes@.len() ==> exists|j: int| 0 <= j < i && keys@[j] == (#[trigger] changes@[c]).dc,
            forall|j: int| 0 <= j < i && dc_changed(o, n, #[trigger] keys@[j]) ==> exists|c: int| 0 <= c < changes@.len() && (#[trigger] changes@[c]).dc == keys@[j],
            forall|a: int, b: int| 0 <= a < b < changes@.len() ==> (#[trigger] changes@[a]).dc != (#[trigger] changes@[b]).dc,
        decreases keys@.len() - i,
    {
        let k = keys[i];
        assert(keys@.to_set().contains(k));
        let new_ip = match new.get(&k) {
            Some(ip) => ip,
            None => {
                assert(false);
                return changes;
            },
        };
        let ghost before = changes@;
        match old.get(&k) {
            Some(old_ip) => {
                if *old_ip != *new_ip {
                    changes.push(DcChange { dc: k, old_ip: Some(old_ip.clone()), new_ip: new_ip.clone() });
                }
            },
            None => {
                changes.push(DcChange { dc: k, old_ip: None, new_ip: new_ip.clone() });
            },
        }
        proof {
            assert forall|c: int| 0 <= c < before.len() implies (#[trigger] changes@[c]).dc != k by {
                let j = choose|j: int| 0 <= j < i && keys@[j] == changes@[c].dc;
                assert(keys@[j] != keys@[i as int]);
            }
            assert forall|c: int| 0 <= c < changes@.len() implies exists|j: int| 0 <= j < i + 1 && keys@[j] == (#[trigger] changes@[c]).dc by {
                if c < before.len() {
                    let j = choose|j: int| 0 <= j < i && keys@[j] == changes@[c].dc;
                    assert(0 <= j < i + 1 && keys@[j] == changes@[c].dc);
                } else {
                    assert(keys@[i as int] == changes@[c].dc);
                }
            }
            assert forall|j: int| 0 <= j < i + 1 && dc_changed(o, n, #[trigger] keys@[j]) implies exists|c: int| 0 <= c < changes@.len() && (#[trigger] changes@[c]).dc == keys@[j] by {
                if j < i {
                    let c = choose|c: int| 0 <= c < before.len() && before[c].dc == keys@[j];
                    assert(changes@[c] == before[c]);
                } else {
                    assert(changes@[changes@.len() - 1].dc == keys@[j]);
                }
            }
        }
        i = i + 1;
    }
    proof {
        assert forall|k: u32| dc_changed(o, n, k) implies exists|c: int| 0 <= c < changes@.len() && (#[trigger] changes@[c]).dc == k by {
            assert(new@.dom().contains(k));
            assert(keys@.to_set().contains(k));
            let j = choose|j: int| 0 <= j < keys@.len() && keys@[j] == k;
            assert(dc_changed(o, n, keys@[j]));
        }
    }
    changes
}

/// What one check of the updater did.
pub enum DcUpdate {
    /// No list could be fetched; the configuration is kept.
    FetchFailed,
    /// The fetched list equals the current one; the configuration is kept.
    Unchanged,
    /// The fetched list differs and replaced the current one; these are the data centres
    /// whose address is new or changed.
    Updated(Vec<DcChange>),
}

/// Which of the three outcomes a check has.
pub enum DcUpdateKind {
    FetchFailed,
    Unchanged,
    Updated,
}

/// The outcome of a check of `current` against what was fetched.
pub open spec fn update_kind(current: Map<u32, Seq<char>>, fetched: Option<Map<u32, Seq<char>>>) -> DcUpdateKind {
    match fetched {
        None => DcUpdateKind::FetchFailed,
        Some(m) => if m == current {
            DcUpdateKind::Unchanged
        } else {
            DcUpdateKind::Updated
        },
    }
}

/// The table after a check of `current` against what was fetched.
pub open spec fn updated_ips(current: Map<u32, Seq<char>>, fetched: Option<Map<u32, Seq<char>>>) -> Map<u32, Seq<char>> {
    match fetched {
        Some(m) => m,
        None => current,
    }
}

/// The kind of an outcome.
pub open spec fn dc_update_kind(u: DcUpdate) -> DcUpdateKind {
    match u {
        DcUpdate::FetchFailed => DcUpdateKind::FetchFailed,
        DcUpdate::Unchanged => DcUpdateKind::Unchanged,
        DcUpdate::Updated(_) => DcUpdateKind::Updated,
    }
}

/// The view of an optional fetched table.
pub open spec fn fetched_view(fetched: Option<HashMap<u32, String>>) -> Option<Map<u32, Seq<char>>> {
    match fetched {
        Some(m) => Some(ips_view(m@)),
        None => None,
    }
}

/// A table whose keys are those of `new`, and each gives the same address, is `new`
/// itself when it is no larger.
proof fn lemma_no_change_is_equal(old: Map<u32, Seq<char>>, new: Map<u32, Seq<char>>)
    requires
        old.dom().finite(),
        new.dom().finite(),
        old.len() == new.len(),
        forall|k: u32| !dc_changed(old, new, k),
    ensures
        old == new,
{
    assert forall|k: u32| #[trigger] new.dom().contains(k) implies old.dom().contains(k) && old[k] == new[k] by {
        assert(!dc_changed(old, new, k));
    }
    assert(new.dom().subset_of(old.dom()));
    if !old.dom().subset_of(new.dom()) {
        let a = choose|a: u32| old.dom().contains(a) && !new.dom().contains(a);
        vstd::set_lib::lemma_len_subset(new.dom(), old.dom().remove(a));
        assert(false);
    }
    assert(old.dom() =~= new.dom());
    assert(old =~= new);
}

impl DcConfig {
    /// One check of the background updater, given what fetching gave and the time now:
    /// nothing fetched keeps the configuration; a list equal to the current one keeps it;
    /// a different list replaces the addresses, takes `now` as the timestamp, and the
    /// outcome lists the data centres whose address is new or changed.
    pub fn apply_fetched(&mut self, fetched: Option<HashMap<u32, String>>, now: SystemTime) -> (r: DcUpdate)
        ensures
            dc_update_kind(r) == update_kind(ips_view(old(self).ips@), fetched_view(fetched)),
            ips_view(final(self).ips@) == updated_ips(ips_view(old(self).ips@), fetched_view(fetched)),
            r is Updated ==> final(self).timestamp == now,
            !(r is Updated) ==> *final(self) == *old(self),
            r matches DcUpdate::Updated(changes) ==> changes_exact(changes@, ips_view(old(self).ips@), ips_view(final(self).ips@)),
    {
        match fetched {
            None => DcUpdate::FetchFailed,
            Some(new_ips) => {
                let changes = dc_changes(&self.ips, &new_ips);
                let ghost o = ips_view(self.ips@);
                let ghost n = ips_view(new_ips@);
                proof {
                    assert(o.dom() =~= self.ips@.dom());
                    assert(n.dom() =~= new_ips@.dom());
                }
                if changes.len() == 0 && self.ips.len() == new_ips.len() {
                    proof {
                        assert forall|k: u32| !dc_changed(o, n, k) by {
                            if dc_changed(o, n, k) {
                                let c = choose|c: int| 0 <= c < changes@.len() && (#[trigger] changes@[c]).dc == k;
                            }
                        }
                        lemma_no_change_is_equal(o, n);
                    }
                    DcUpdate::Unchanged
                } else {
                    proof {
                        if n == o {
                            if changes@.len() > 0 {
                                assert(change_describes(changes@[0], o, n));
                            }
                        }
                    }
                    self.ips = new_ips;
                    self.timestamp = now;
                    DcUpdate::Updated(changes)
                }
            },
        }
    }
}

/// Checking again against the list that a check has just taken on finds nothing to change.
pub proof fn lemma_update_idempotent(current: Map<u32, Seq<char>>, fetched: Map<u32, Seq<char>>)
    ensures
        update_kind(updated_ips(current, Some(fetched)), Some(fetched)) == DcUpdateKind::Unchanged,
        updated_ips(updated_ips(current, Some(fetched)), Some(fetched)) == updated_ips(current, Some(fetched)),
{
}

/// The parser never reports an empty table: what it gives holds at least one address.
pub proof fn lemma_parsed_table_nonempty(doc: Option<JsonValue>, text: Seq<char>)
    ensures
        proxy_config_ips(doc, text) matches Some(m) ==> !m.is_empty(),
{
}

/// The `dc_options` entries take precedence: when they give an address, the plain-text
/// lines are not read.
pub proof fn lemma_json_takes_precedence(doc: Option<JsonValue>, text: Seq<char>, other: Seq<char>)
    requires
        !json_dc_map(json_dc_options(doc)).is_empty(),
    ensures
        proxy_config_ips(doc, text) == proxy_config_ips(doc, other),
{
}

/// A comment line (one that starts with `#` once trimmed) or a blank line adds nothing.
pub proof fn lemma_comment_line_ignored(ls: Seq<Seq<char>>, line: Seq<char>)
    requires
        trim(line).len() == 0 || trim(line)[0] == '#',
    ensures
        plain_dc_map(ls.push(line)) == plain_dc_map(ls),
{
    assert(ls.push(line).drop_last() =~= ls);
}

/// A later line for the same data centre replaces the address of an earlier one.
pub proof fn lemma_later_line_wins(ls: Seq<Seq<char>>, line: Seq<char>, dc: u32, ip: Seq<char>)
    requires
        plain_entry(line) == Some((dc, ip)),
    ensures
        plain_dc_map(ls.push(line)).contains_key(dc),
        plain_dc_map(ls.push(line))[dc] == ip,
{
    assert(ls.push(line).drop_last() =~= ls);
}

/// The table built from a sequence of optional entries, each inserted in turn.
pub open spec fn entries_map(es: Seq<Option<(u32, Seq<char>)>>) -> Map<u32, Seq<char>>
    decreases es.len(),
{
    if es.len() == 0 {
        Map::empty()
    } else {
        insert_entry(entries_map(es.drop_last()), es.last())
    }
}

/// Entry `i` of `es` is present and no later entry is present for the same key.
pub open spec fn last_entry_for_key(es: Seq<Option<(u32, Seq<char>)>>, i: int) -> bool {
    &&& es[i] is Some
    &&& forall|j: int|
        i < j < es.len() ==> (#[trigger] es[j]) is None || es[j].unwrap().0 != es[i].unwrap().0
}

/// Inserting entries in turn keeps, for each key, the last entry given for it, and
/// holds no other key.
proof fn lemma_entries_map(es: Seq<Option<(u32, Seq<char>)>>)
    ensures
        forall|i: int|
            #![trigger es[i]]
            0 <= i < es.len() && last_entry_for_key(es, i) ==> entries_map(es).contains_key(
                es[i].unwrap().0,
            ) && entries_map(es)[es[i].unwrap().0] == es[i].unwrap().1,
        forall|k: u32|
            #[trigger] entries_map(es).contains_key(k) ==> exists|i: int|
                0 <= i < es.len() && (#[trigger] es[i]) is Some && es[i].unwrap().0 == k,
    decreases es.len(),
{
    if es.len() > 0 {
        let prev = es.drop_last();
        lemma_entries_map(prev);
        assert forall|i: int|
            #![trigger es[i]]
            0 <= i < es.len() && last_entry_for_key(es, i) implies entries_map(es).contains_key(
                es[i].unwrap().0,
            ) && entries_map(es)[es[i].unwrap().0] == es[i].unwrap().1 by {
            if i < es.len() - 1 {
                assert(prev[i] == es[i]);
                assert forall|j: int| i < j < prev.len() implies (#[trigger] prev[j]) is None
                    || prev[j].unwrap().0 != prev[i].unwrap().0 by {
                    assert(prev[j] == es[j]);
                }
                assert(last_entry_for_key(prev, i));
                let l = es[es.len() - 1];
                assert(l is None || l.unwrap().0 != es[i].unwrap().0);
            }
        }
        assert forall|k: u32| #[trigger] entries_map(es).contains_key(k) implies exists|i: int|
            0 <= i < es.len() && (#[trigger] es[i]) is Some && es[i].unwrap().0 == k by {
            if entries_map(prev).contains_key(k) {
                let i = choose|i: int|
                    0 <= i < prev.len() && (#[trigger] prev[i]) is Some && prev[i].unwrap().0 == k;
                assert(es[i] == prev[i]);
            } else {
                assert(es[es.len() - 1] is Some && es[es.len() - 1].unwrap().0 == k);
            }
        }
    }
}

/// The table of `dc_options` is the table of its elements' entries, inserted in turn.
proof fn lemma_json_dc_map_entries(items: Seq<JsonValue>)
    ensures
        json_dc_map(items) == entries_map(items.map_values(|x: JsonValue| json_dc_entry(x))),
    decreases items.len(),
{
    if items.len() > 0 {
        lemma_json_dc_map_entries(items.drop_last());
        assert(items.map_values(|x: JsonValue| json_dc_entry(x)).drop_last() =~= items.drop_last().map_values(
            |x: JsonValue| json_dc_entry(x),
        ));
    }
}

/// In the table read from `dc_options`, each data centre has the address of the last
/// element that gives one for it (a later element replaces an earlier one), and the table
/// has no data centre that no element gives.
pub proof fn lemma_json_last_entry_wins(items: Seq<JsonValue>)
    ensures
        forall|i: int|
            #![trigger items[i]]
            0 <= i < items.len() && json_dc_entry(items[i]) is Some && (forall|j: int|
                i < j < items.len() ==> json_dc_entry(#[trigger] items[j]) is None
                    || json_dc_entry(items[j]).unwrap().0 != json_dc_entry(items[i]).unwrap().0)
                ==> json_dc_map(items).contains_key(json_dc_entry(items[i]).unwrap().0)
                && json_dc_map(items)[json_dc_entry(items[i]).unwrap().0] == json_dc_entry(
                items[i],
            ).unwrap().1,
        forall|k: u32|
            #[trigger] json_dc_map(items).contains_key(k) ==> exists|i: int|
                0 <= i < items.len() && json_dc_entry(#[trigger] items[i]) is Some
                    && json_dc_entry(items[i]).unwrap().0 == k,
{
    let es = items.map_values(|x: JsonValue| json_dc_entry(x));
    lemma_json_dc_map_entries(items);
    lemma_entries_map(es);
    assert forall|i: int|
        #![trigger items[i]]
        0 <= i < items.len() && json_dc_entry(items[i]) is Some && (forall|j: int|
            i < j < items.len() ==> json_dc_entry(#[trigger] items[j]) is None
                || json_dc_entry(items[j]).unwrap().0 != json_dc_entry(items[i]).unwrap().0)
            implies json_dc_map(items).contains_key(json_dc_entry(items[i]).unwrap().0)
        && json_dc_map(items)[json_dc_entry(items[i]).unwrap().0] == json_dc_entry(
            items[i],
        ).unwrap().1 by {
        assert(es[i] == json_dc_entry(items[i]));
        assert forall|j: int| i < j < es.len() implies (#[trigger] es[j]) is None
            || es[j].unwrap().0 != es[i].unwrap().0 by {
            assert(es[j] == json_dc_entry(items[j]));
        }
    }
    assert forall|k: u32| #[trigger] json_dc_map(items).contains_key(k) implies exists|i: int|
        0 <= i < items.len() && json_dc_entry(#[trigger] items[i]) is Some
            && json_dc_entry(items[i]).unwrap().0 == k by {
        let i = choose|i: int| 0 <= i < es.len() && (#[trigger] es[i]) is Some && es[i].unwrap().0 == k;
        assert(es[i] == json_dc_entry(items[i]));
    }
}

/// When the last element of `dc_options` gives an address for a data centre, the table
/// has that address for it, whatever the earlier elements gave.
pub proof fn lemma_json_later_entry_wins(items: Seq<JsonValue>, x: JsonValue, dc: u32, ip: Seq<char>)
    requires
        json_dc_entry(x) == Some((dc, ip)),
    ensures
        json_dc_map(items.push(x)).contains_key(dc),
        json_dc_map(items.push(x))[dc] == ip,
{
    lemma_json_last_entry_wins(items.push(x));
    assert(items.push(x)[items.len() as int] == x);
}

/// The entry that one name-resolution outcome gives.
pub open spec fn dns_entry(o: (u32, Option<String>)) -> Option<(u32, Seq<char>)> {
    match o.1 {
        Some(ip) => Some((o.0, ip@)),
        None => None,
    }
}

/// The name-resolution table is the table of the outcomes' entries, inserted in turn.
proof fn lemma_dns_dc_map_entries(resolved: Seq<(u32, Option<String>)>)
    ensures
        dns_dc_map(resolved) == entries_map(resolved.map_values(|o: (u32, Option<String>)| dns_entry(o))),
    decreases resolved.len(),
{
    if resolved.len() > 0 {
        lemma_dns_dc_map_entries(resolved.drop_last());
        assert(resolved.map_values(|o: (u32, Option<String>)| dns_entry(o)).drop_last()
            =~= resolved.drop_last().map_values(|o: (u32, Option<String>)| dns_entry(o)));
    }
}

/// Every data centre whose name resolved is in the name-resolution table with the
/// address found (the last one found where it is resolved more than once), and the
/// table holds no data centre whose name did not resolve.
pub proof fn lemma_dns_last_outcome_wins(resolved: Seq<(u32, Option<String>)>)
    ensures
        forall|i: int|
            #![trigger resolved[i]]
            0 <= i < resolved.len() && resolved[i].1 is Some && (forall|j: int|
                i < j < resolved.len() ==> (#[trigger] resolved[j]).0 != resolved[i].0
                    || resolved[j].1 is None) ==> dns_dc_map(resolved).contains_key(resolved[i].0)
                && dns_dc_map(resolved)[resolved[i].0] == resolved[i].1.unwrap()@,
        forall|k: u32|
            #[trigger] dns_dc_map(resolved).contains_key(k) ==> exists|i: int|
                0 <= i < resolved.len() && (#[trigger] resolved[i]).0 == k && resolved[i].1 is Some,
{
    let es = resolved.map_values(|o: (u32, Option<String>)| dns_entry(o));
    lemma_dns_dc_map_entries(resolved);
    lemma_entries_map(es);
    assert forall|i: int|
        #![trigger resolved[i]]
        0 <= i < resolved.len() && resolved[i].1 is Some && (forall|j: int|
            i < j < resolved.len() ==> (#[trigger] resolved[j]).0 != resolved[i].0
                || resolved[j].1 is None) implies dns_dc_map(resolved).contains_key(resolved[i].0)
        && dns_dc_map(resolved)[resolved[i].0] == resolved[i].1.unwrap()@ by {
        assert(es[i] == dns_entry(resolved[i]));
        assert forall|j: int| i < j < es.len() implies (#[trigger] es[j]) is None
            || es[j].unwrap().0 != es[i].unwrap().0 by {
            assert(es[j] == dns_entry(resolved[j]));
        }
    }
    assert forall|k: u32| #[trigger] dns_dc_map(resolved).contains_key(k) implies exists|i: int|
        0 <= i < resolved.len() && (#[trigger] resolved[i]).0 == k && resolved[i].1 is Some by {
        let i = choose|i: int| 0 <= i < es.len() && (#[trigger] es[i]) is Some && es[i].unwrap().0 == k;
        assert(es[i] == dns_entry(resolved[i]));
    }
}

/// The plain-text table is the table of the lines' entries, inserted in turn.
proof fn lemma_plain_dc_map_entries(ls: Seq<Seq<char>>)
    ensures
        plain_dc_map(ls) == entries_map(ls.map_values(|l: Seq<char>| plain_entry(l))),
    decreases ls.len(),
{
    if ls.len() > 0 {
        lemma_plain_dc_map_entries(ls.drop_last());
        assert(ls.map_values(|l: Seq<char>| plain_entry(l)).drop_last() =~= ls.drop_last().map_values(
            |l: Seq<char>| plain_entry(l),
        ));
    }
}

/// In the table read from plain-text lines, each data centre has the address of the last
/// line that gives one for it, and the table has no data centre that no line gives.
pub proof fn lemma_plain_last_line_wins(ls: Seq<Seq<char>>)
    ensures
        forall|i: int|
            #![trigger ls[i]]
            0 <= i < ls.len() && plain_entry(ls[i]) is Some && (forall|j: int|
                i < j < ls.len() ==> plain_entry(#[trigger] ls[j]) is None
                    || plain_entry(ls[j]).unwrap().0 != plain_entry(ls[i]).unwrap().0)
                ==> plain_dc_map(ls).contains_key(plain_entry(ls[i]).unwrap().0)
                && plain_dc_map(ls)[plain_entry(ls[i]).unwrap().0] == plain_entry(ls[i]).unwrap().1,
        forall|k: u32|
            #[trigger] plain_dc_map(ls).contains_key(k) ==> exists|i: int|
                0 <= i < ls.len() && plain_entry(#[trigger] ls[i]) is Some && plain_entry(
                    ls[i],
                ).unwrap().0 == k,
{
    let es = ls.map_values(|l: Seq<char>| plain_entry(l));
    lemma_plain_dc_map_entries(ls);
    lemma_entries_map(es);
    assert forall|i: int|
        #![trigger ls[i]]
        0 <= i < ls.len() && plain_entry(ls[i]) is Some && (forall|j: int|
            i < j < ls.len() ==> plain_entry(#[trigger] ls[j]) is None
                || plain_entry(ls[j]).unwrap().0 != plain_entry(ls[i]).unwrap().0)
            implies plain_dc_map(ls).contains_key(plain_entry(ls[i]).unwrap().0)
        && plain_dc_map(ls)[plain_entry(ls[i]).unwrap().0] == plain_entry(ls[i]).unwrap().1 by {
        assert(es[i] == plain_entry(ls[i]));
        assert forall|j: int| i < j < es.len() implies (#[trigger] es[j]) is None
            || es[j].unwrap().0 != es[i].unwrap().0 by {
            assert(es[j] == plain_entry(ls[j]));
        }
    }
    assert forall|k: u32| #[trigger] plain_dc_map(ls).contains_key(k) implies exists|i: int|
        0 <= i < ls.len() && plain_entry(#[trigger] ls[i]) is Some && plain_entry(ls[i]).unwrap().0
            == k by {
        let i = choose|i: int| 0 <= i < es.len() && (#[trigger] es[i]) is Some && es[i].unwrap().0 == k;
        assert(es[i] == plain_entry(ls[i]));
    }
}

/// What the fallback gives always holds at least the first five data centres.
pub proof fn lemma_fallback_covers_main_dcs()
    ensures
        fallback_table().len() == 6,
        forall|dc: u32| 1 <= dc <= 5 ==> fallback_table().contains_key(dc),
{
    assert(fallback_table().dom() =~= set![1u32, 2u32, 3u32, 4u32, 5u32, 203u32]);
}

/// The plain-text line `DC_ID:IP` of one table entry.
pub open spec fn table_line(k: u32, v: Seq<char>) -> Seq<char> {
    decimal_text(k as nat) + seq![':'] + v
}

/// The lines of a table, one per key of `ks`, in that order.
pub open spec fn table_lines(m: Map<u32, Seq<char>>, ks: Seq<u32>) -> Seq<Seq<char>> {
    ks.map_values(|k: u32| table_line(k, m[k]))
}

/// The line of an entry whose address parses as an IP address parses to that entry.
proof fn lemma_table_line_entry(k: u32, v: Seq<char>)
    requires
        accepted_ip_address(v),
    ensures
        plain_entry(table_line(k, v)) == Some((k, v)),
        plain_line(table_line(k, v)),
{
    let d = decimal_text(k as nat);
    let line = table_line(k, v);
    lemma_decimal_text(k as nat);
    assert(is_digit(d[0]));
    assert(is_digit(d.last()));
    assert(!is_white_space(v[0]));
    assert(!is_white_space(v.last()));
    lemma_trim_fixed(v);
    assert(line[0] == d[0]);
    assert(line.last() == v.last());
    lemma_trim_fixed(line);
    lemma_trim_fixed(d);
    assert forall|i: int| 0 <= i < d.len() implies line[i] != ':' by {
        assert(is_digit(d[i]));
    }
    lemma_find_char_at(line, ':', 0, d.len() as int);
    assert(line.subrange(0, d.len() as int) =~= d);
    assert(line.subrange(d.len() as int + 1, line.len() as int) =~= v);
    assert(unsigned_digits(d) == d);
    assert forall|i: int| 0 <= i < line.len() implies line[i] != '\n' by {
        if i < d.len() {
            assert(is_digit(d[i]));
        } else if i > d.len() {
            assert(line[i] == v[i - d.len() - 1]);
            assert(!is_white_space(v[i - d.len() - 1]));
        }
    }
    assert(v.last() != '\r');
}

/// The lines of distinct keys of `m`, whose addresses parse as IP addresses, build the
/// part of `m` on those keys.
proof fn lemma_table_lines_map(m: Map<u32, Seq<char>>, ks: Seq<u32>)
    requires
        ks.no_duplicates(),
        forall|i: int| 0 <= i < ks.len() ==> m.contains_key(#[trigger] ks[i]) && accepted_ip_address(
            m[ks[i]],
        ),
    ensures
        plain_dc_map(table_lines(m, ks)) == m.restrict(ks.to_set()),
    decreases ks.len(),
{
    if ks.len() == 0 {
        assert(plain_dc_map(table_lines(m, ks)) =~= m.restrict(ks.to_set()));
    } else {
        let k = ks.last();
        let prev = ks.drop_last();
        assert(prev.no_duplicates());
        assert forall|i: int| 0 <= i < prev.len() implies m.contains_key(#[trigger] prev[i])
            && accepted_ip_address(m[prev[i]]) by {
            assert(prev[i] == ks[i]);
        }
        lemma_table_lines_map(m, prev);
        assert(table_lines(m, ks).drop_last() =~= table_lines(m, prev));
        assert(m.contains_key(ks[ks.len() - 1]));
        lemma_table_line_entry(k, m[k]);
        assert forall|x: u32| ks.to_set().contains(x) <==> prev.to_set().contains(x) || x == k by {
            if ks.contains(x) && x != k {
                let i = choose|i: int| 0 <= i < ks.len() && ks[i] == x;
                assert(prev[i] == x);
            }
            if prev.contains(x) {
                let i = choose|i: int| 0 <= i < prev.len() && prev[i] == x;
                assert(ks[i] == x);
            }
            if x == k {
                assert(ks[ks.len() - 1] == x);
            }
        }
        assert(plain_dc_map(table_lines(m, ks)) =~= m.restrict(ks.to_set()));
    }
}

/// Rendering a non-empty table whose addresses parse as IP addresses as `DC_ID:IP` lines,
/// its keys in any order, and parsing the text back gives the table again (where the
/// text is not a JSON document with `dc_options` entries).
pub proof fn lemma_table_round_trip(m: Map<u32, Seq<char>>, ks: Seq<u32>, doc: Option<JsonValue>)
    requires
        !m.is_empty(),
        ks.no_duplicates(),
        ks.to_set() == m.dom(),
        forall|k: u32| m.contains_key(k) ==> accepted_ip_address(#[trigger] m[k]),
        json_dc_map(json_dc_options(doc)).is_empty(),
    ensures
        plain_dc_map(lines(join_lines(table_lines(m, ks)))) == m,
        proxy_config_ips(doc, join_lines(table_lines(m, ks))) == Some(m),
{
    assert forall|i: int| 0 <= i < ks.len() implies m.contains_key(#[trigger] ks[i])
        && accepted_ip_address(m[ks[i]]) by {
        assert(ks.to_set().contains(ks[i]));
    }
    assert forall|i: int| 0 <= i < table_lines(m, ks).len() implies plain_line(
        #[trigger] table_lines(m, ks)[i],
    ) by {
        assert(m.contains_key(ks[i]));
        lemma_table_line_entry(ks[i], m[ks[i]]);
    }
    lemma_lines_of_join(table_lines(m, ks));
    lemma_table_lines_map(m, ks);
    assert(m.restrict(ks.to_set()) =~= m);
}

/// The table's entries ordered by data-centre id, as the start-up banner lists them.
pub fn sorted_dc_ips(m: &HashMap<u32, String>) -> (r: Vec<(u32, String)>)
    ensures
        r@.len() == m@.len(),
        forall|i: int, j: int| 0 <= i < j < r@.len() ==> (#[trigger] r@[i]).0 < (#[trigger] r@[j]).0,
        forall|i: int| 0 <= i < r@.len() ==> m@.contains_key((#[trigger] r@[i]).0) && r@[i].1@ == ips_view(m@)[r@[i].0],
        forall|k: u32| m@.contains_key(k) ==> exists|i: int| 0 <= i < r@.len() && (#[trigger] r@[i]).0 == k,
{
    let keys = map_keys(m);
    let mut sorted: Vec<u32> = Vec::new();
    let mut i: usize = 0;
    while i < keys.len()
        invariant
            i <= keys@.len(),
            keys@.no_duplicates(),
            sorted@.len() == i,
            forall|a: int, b: int| 0 <= a < b < sorted@.len() ==> sorted@[a] < sorted@[b],
            forall|x: u32| sorted@.contains(x) <==> keys@.take(i as int).contains(x),
        decreases keys@.len() - i,
    {
        let k = keys[i];
        let mut pos: usize = 0;
        while pos < sorted.len() && sorted[pos] < k
            invariant
                pos <= sorted@.len(),
                forall|a: int| 0 <= a < pos ==> sorted@[a] < k,
            decreases sorted@.len() - pos,
        {
            pos = pos + 1;
        }
        proof {
            assert(!keys@.take(i as int).contains(k)) by {
                if keys@.take(i as int).contains(k) {
                    let j = choose|j: int| 0 <= j < i && keys@.take(i as int)[j] == k;
                    assert(keys@[j] == keys@[i as int]);
                }
            }
            if pos < sorted@.len() {
                assert(sorted@.contains(sorted@[pos as int]));
                assert(sorted@[pos as int] != k);
            }
        }
        let ghost before = sorted@;
        sorted.insert(pos, k);
        proof {
            assert forall|a: int, b: int| 0 <= a < b < sorted@.len() implies sorted@[a] < sorted@[b] by {
                if b < pos {
                } else if b == pos {
                } else if a < pos {
                    assert(sorted@[b] == before[b - 1]);
                    if b - 1 > pos {
                        assert(before[pos as int] < before[b - 1]);
                    }
                } else if a == pos {
                    assert(sorted@[b] == before[b - 1]);
                    if b - 1 > pos {
                        assert(before[pos as int] < before[b - 1]);
                    }
                } else {
                    assert(sorted@[a] == before[a - 1]);
                    assert(sorted@[b] == before[b - 1]);
                }
            }
            assert(keys@.take(i + 1) =~= keys@.take(i as int).push(k));
            assert forall|x: u32| sorted@.contains(x) <==> keys@.take(i + 1).contains(x) by {
                if sorted@.contains(x) {
                    let j = choose|j: int| 0 <= j < sorted@.len() && sorted@[j] == x;
                    if j == pos {
                        assert(keys@.take(i + 1)[i as int] == x);
                    } else {
                        if j < pos {
                            assert(before[j] == x);
                        } else {
                            assert(before[j - 1] == x);
                        }
                        assert(before.contains(x));
                        assert(keys@.take(i as int).contains(x));
                        let w = choose|w: int| 0 <= w < i && #[trigger] keys@.take(i as int)[w] == x;
                        assert(keys@.take(i + 1)[w] == x);
                    }
                }
                if keys@.take(i + 1).contains(x) {
                    let j = choose|j: int| 0 <= j < i + 1 && #[trigger] keys@.take(i + 1)[j] == x;
                    if j < i {
                        assert(keys@.take(i as int)[j] == x);
                        assert(keys@.take(i as int).contains(x));
                        assert(before.contains(x));
                        let c = choose|c: int| 0 <= c < before.len() && before[c] == x;
                        if c < pos {
                            assert(sorted@[c] == x);
                        } else {
                            assert(sorted@[c + 1] == x);
                        }
                    } else {
                        assert(sorted@[pos as int] == x);
                    }
                }
            }
        }
        i = i + 1;
    }
    assert(keys@.take(keys@.len() as int) =~= keys@);
    let mut out: Vec<(u32, String)> = Vec::new();
    let mut j: usize = 0;
    while j < sorted.len()
        invariant
            j <= sorted@.len(),
            out@.len() == j,
            forall|a: int, b: int| 0 <= a < b < sorted@.len() ==> sorted@[a] < sorted@[b],
            forall|x: u32| sorted@.contains(x) <==> keys@.contains(x),
            keys@.to_set() == m@.dom(),
            forall|a: int| 0 <= a < j ==> (#[trigger] out@[a]).0 == sorted@[a] && m@.contains_key(out@[a].0)
                && out@[a].1@ == ips_view(m@)[out@[a].0],
        decreases sorted@.len() - j,
    {
        let k = sorted[j];
        assert(sorted@.contains(k));
        assert(keys@.to_set().contains(k));
        match m.get(&k) {
            Some(ip) => {
                out.push((k, ip.clone()));
            },
            None => {
                assert(false);
            },
        }
        j = j + 1;
    }
    proof {
        assert forall|k: u32| m@.contains_key(k) implies exists|i: int| 0 <= i < out@.len() && (#[trigger] out@[i]).0 == k by {
            assert(keys@.to_set().contains(k));
            assert(sorted@.contains(k));
            let c = choose|c: int| 0 <= c < sorted@.len() && sorted@[c] == k;
            assert(out@[c].0 == k);
        }
        assert forall|x: u32| #[trigger] sorted@.to_set().contains(x) <==> m@.dom().contains(x) by {
            assert(keys@.to_set().contains(x) <==> keys@.contains(x));
        }
        assert(sorted@.no_duplicates()) by {
            assert forall|a: int, b: int| 0 <= a < sorted@.len() && 0 <= b < sorted@.len() && a != b implies sorted@[a] != sorted@[b] by {
                if a < b {
                } else {
                }
            }
        }
        sorted@.unique_seq_to_set();
        assert(sorted@.to_set() =~= m@.dom());
    }
    out
}

/// Which note the banner adds about the proxy link.
pub enum LinkNote {
    /// The link names an address detected for the host, not the listening one.
    AutoDetected,
    /// The link names a loopback address that only this machine can reach.
    LocalOnly,
    /// No note.
    NoNote,
}

/// The note for a link that names `link_host` where the proxy listens on `host`: the
/// detected address when they differ, else a warning when `host` is `127.0.0.1` or `::1`.
pub fn link_note(link_host: &str, host: &str) -> (r: LinkNote)
    ensures
        r == (if link_host@ != host@ {
            LinkNote::AutoDetected
        } else if host@ == "127.0.0.1"@ || host@ == "::1"@ {
            LinkNote::LocalOnly
        } else {
            LinkNote::NoNote
        }),
{
    let a = chars_of(link_host);
    let h = chars_of(host);
    assert(h@.subrange(0, h@.len() as int) =~= h@);
    if !range_equals(&h, 0, h.len(), &a) {
        return LinkNote::AutoDetected;
    }
    let v4 = chars_of("127.0.0.1");
    let v6 = chars_of("::1");
    if range_equals(&h, 0, h.len(), &v4) || range_equals(&h, 0, h.len(), &v6) {
        LinkNote::LocalOnly
    } else {
        LinkNote::NoNote
    }
}

} // verus!
