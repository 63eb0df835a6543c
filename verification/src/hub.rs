//! The community hub: its index of adapters, searching it, and where its files live.

use vstd::prelude::*;
use crate::adapter::str_views;
use crate::text::{chars_of, push_str, to_lowercase, lowercase, contains, contains_seq};

verus! {

/// Metadata for a single adapter in the hub index.
pub struct HubEntry {
    /// Adapter name.
    pub name: String,
    /// Short description.
    pub description: String,
    /// Version string.
    pub version: String,
    /// Author or contributor.
    pub author: Option<String>,
    /// Tags for search filtering.
    pub tags: Vec<String>,
}

/// Hub index containing all available adapters.
pub struct HubIndex {
    pub adapters: Vec<HubEntry>,
}

/// The base URL of a hub repository's files.
pub open spec fn hub_base_spec(repo: Seq<char>) -> Seq<char> {
    "https://raw.githubusercontent.com/"@ + repo + "/main"@
}

/// The base URL of a hub repository's files (`Hub::with_repo`).
pub fn hub_base_url(repo: &str) -> (r: String)
    ensures
        r@ == hub_base_spec(repo@),
{
    let mut out = String::from_str("https://raw.githubusercontent.com/");
    push_str(&mut out, repo);
    push_str(&mut out, "/main");
    out
}

/// The URL of the hub index.
pub fn index_url(base: &str) -> (r: String)
    ensures
        r@ == base@ + "/index.json"@,
{
    let mut out = String::from_str(base);
    push_str(&mut out, "/index.json");
    out
}

/// The URL of an adapter's file in the hub.
pub fn adapter_url(base: &str, name: &str) -> (r: String)
    ensures
        r@ == base@ + "/adapters/"@ + name@ + ".yaml"@,
{
    let mut out = String::from_str(base);
    push_str(&mut out, "/adapters/");
    push_str(&mut out, name);
    push_str(&mut out, ".yaml");
    out
}

/// The error text of a failed download of an adapter: not found for status 404, else the
/// status.
pub open spec fn install_failure_spec(status_code: u16, status: Seq<char>, name: Seq<char>) -> Seq<char> {
    if status_code == 404 {
        "adapter `"@ + name + "` not found in hub"@
    } else {
        "hub returned HTTP "@ + status + " for `"@ + name + "`"@
    }
}

/// The error text of a failed download of an adapter (see [`install_failure_spec`]).
pub fn install_failure(status_code: u16, status: &str, name: &str) -> (r: String)
    ensures
        r@ == install_failure_spec(status_code, status@, name@),
{
    let mut out = String::new();
    if status_code == 404 {
        push_str(&mut out, "adapter `");
        push_str(&mut out, name);
        push_str(&mut out, "` not found in hub");
    } else {
        push_str(&mut out, "hub returned HTTP ");
        push_str(&mut out, status);
        push_str(&mut out, " for `");
        push_str(&mut out, name);
        push_str(&mut out, "`");
    }
    assert(out@ =~= install_failure_spec(status_code, status@, name@));
    out
}

/// Whether a hub entry matches a lower-cased query: its name, description or a tag holds it,
/// compared in lower case.
pub open spec fn entry_matches(e: HubEntry, q: Seq<char>) -> bool {
    ||| contains_seq(lowercase(e.name@), q)
    ||| contains_seq(lowercase(e.description@), q)
    ||| exists|i: int| 0 <= i < e.tags@.len() && contains_seq(lowercase((#[trigger] e.tags@[i])@), q)
}

/// The entries that match, in order.
pub open spec fn search_entries(v: Seq<HubEntry>, q: Seq<char>) -> Seq<HubEntry>
    decreases v.len(),
{
    if v.len() == 0 {
        Seq::empty()
    } else {
        let p = search_entries(v.drop_last(), q);
        if entry_matches(v.last(), q) {
            p.push(v.last())
        } else {
            p
        }
    }
}

fn lower_contains(s: &String, q: &Vec<char>) -> (r: bool)
    ensures
        r == contains_seq(lowercase(s@), q@),
{
    contains(&chars_of(to_lowercase(s.as_str()).as_str()), q)
}

fn entry_matches_of(e: &HubEntry, q: &Vec<char>) -> (r: bool)
    ensures
        r == entry_matches(*e, q@),
{
    if lower_contains(&e.name, q) || lower_contains(&e.description, q) {
        return true;
    }
    for i in 0..e.tags.len()
        invariant
            forall|j: int| 0 <= j < i ==> !contains_seq(lowercase((#[trigger] e.tags@[j])@), q@),
    {
        if lower_contains(&e.tags[i], q) {
            return true;
        }
    }
    false
}

/// `Hub::search` on a fetched index: the entries, in order, whose name, description or tag
/// holds the query in lower case.
pub fn search_index(entries: Vec<HubEntry>, query: &str) -> (r: Vec<HubEntry>)
    ensures
        r@ == search_entries(entries@, lowercase(query@)),
{
    let q = chars_of(to_lowercase(query).as_str());
    let ghost ev = entries@;
    let mut out: Vec<HubEntry> = Vec::new();
    let mut rest = entries;
    let mut i: usize = 0;
    let n = rest.len();
    assert(rest@ =~= ev.skip(0));
    while i < n
        invariant
            n == ev.len(),
            i <= n,
            rest@ == ev.skip(i as int),
            out@ == search_entries(ev.take(i as int), q@),
        decreases n - i,
    {
        let e = rest.remove(0);
        assert(e == ev[i as int]);
        let ghost t = ev.take(i + 1);
        assert(t.drop_last() == ev.take(i as int));
        if entry_matches_of(&e, &q) {
            out.push(e);
        }
        assert(rest@ =~= ev.skip(i + 1));
        i = i + 1;
    }
    assert(ev.take(n as int) == ev);
    out
}

} // verus!
