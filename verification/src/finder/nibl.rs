//! Verified logic of the nibl-backed finder: request URL building,
//! envelope unwrapping, the bot directory join and episode filtering.
//! The network calls themselves live outside the library; everything
//! here works on the plain values they hand over.

use vstd::prelude::*;

use std::collections::HashMap;

use crate::finder::{EpisodeNumber, Entry, Error, Query};
use crate::text::{i32_to_string, lex_ge, spec_int_chars, str_eq, str_lt};

verus! {

/// One package record as reported by the search API.
#[derive(Debug, PartialEq, Hash)]
pub struct Package {
    pub bot_id: i64,
    pub number: i32,
    pub name: String,
    pub size: String,
    pub last_modified: String,
    pub episode_number: i32,
}

impl Clone for Package {
    /// A clone carries the same fields.
    fn clone(&self) -> (r: Self)
        ensures
            r == *self,
    {
        Package {
            bot_id: self.bot_id,
            number: self.number,
            name: self.name.clone(),
            size: self.size.clone(),
            last_modified: self.last_modified.clone(),
            episode_number: self.episode_number,
        }
    }
}

/// One bot record from the bot directory.
#[derive(Debug, PartialEq, Hash)]
pub struct Bot {
    pub id: i64,
    pub name: String,
}

impl Clone for Bot {
    /// A clone carries the same fields.
    fn clone(&self) -> (r: Self)
        ensures
            r == *self,
    {
        Bot { id: self.id, name: self.name.clone() }
    }
}

/// The base of every request this finder makes.
pub open spec fn spec_api_base() -> Seq<char> {
    "https://api.nibl.co.uk/nibl"@
}

/// The base URL of the remote API.
pub fn api_base() -> (r: &'static str)
    ensures
        r@ == spec_api_base(),
{
    "https://api.nibl.co.uk/nibl"
}

/// The search URL for a query: search text and resolution joined as one
/// query term, plus an episode-number parameter only for a specific
/// episode. The latest/all selectors are filtered client-side instead.
pub open spec fn spec_search_url(q: Query) -> Seq<char> {
    let base = spec_api_base() + "/search?query="@ + q.search@ + "%20"@ + q.resolution@;
    match q.episode {
        EpisodeNumber::Number(n) => base + "&episodeNumber="@ + spec_int_chars(n as int),
        _ => base,
    }
}

/// Build the search URL for a query.
pub fn build_search_url(query: &Query) -> (r: String)
    ensures
        r@ == spec_search_url(*query),
{
    let mut url = String::from_str(api_base());
    url.append("/search?query=");
    url.append(query.search.as_str());
    url.append("%20");
    url.append(query.resolution.as_str());
    if let EpisodeNumber::Number(n) = query.episode {
        url.append("&episodeNumber=");
        let num = i32_to_string(n);
        url.append(num.as_str());
    }
    proof {
        assert(url@ =~= spec_search_url(*query));
    }
    url
}

/// Unwrap one response envelope: an "OK" status yields the content
/// unchanged, any other status fails with the API's own message,
/// naming this API.
pub fn unwrap_envelope<T>(status: &str, message: String, content: Vec<T>) -> (r: Result<
    Vec<T>,
    Error,
>)
    ensures
        status@ == "OK"@ ==> r == Ok::<Vec<T>, Error>(content),
        status@ != "OK"@ ==> (r matches Err(e) && e matches Error::APIError { api, message: m }
            && api@ == "nibl"@ && m == message),
{
    if str_eq(status, "OK") {
        Ok(content)
    } else {
        Err(Error::APIError { api: "nibl", message })
    }
}

/// The bot directory as a map from bot id to record; where one id
/// appears twice, the later record wins.
pub open spec fn spec_bots_map(bs: Seq<Bot>) -> Map<i64, Bot>
    decreases bs.len(),
{
    if bs.len() == 0 {
        Map::empty()
    } else {
        spec_bots_map(bs.drop_last()).insert(bs.last().id, bs.last())
    }
}

/// Index the bot directory by bot id.
pub fn bots_by_id(bots: &Vec<Bot>) -> (r: HashMap<i64, Bot>)
    ensures
        r@ == spec_bots_map(bots@),
{
    let mut m: HashMap<i64, Bot> = HashMap::new();
    let n = bots.len();
    let mut i: usize = 0;
    while i < n
        invariant
            n == bots@.len(),
            i <= n,
            m@ == spec_bots_map(bots@.take(i as int)),
        decreases n - i,
    {
        let b = bots[i].clone();
        m.insert(b.id, b);
        proof {
            assert(bots@.take(i as int + 1).drop_last() =~= bots@.take(i as int));
            assert(bots@.take(i as int + 1).last() == bots@[i as int]);
        }
        i += 1;
    }
    proof {
        assert(bots@.take(n as int) =~= bots@);
    }
    m
}

/// The package with the lexicographically greatest `last_modified`
/// text; among equally recent packages, the later one in the list.
pub open spec fn spec_best_package(ps: Seq<Package>) -> Package
    recommends
        ps.len() > 0,
    decreases ps.len(),
{
    if ps.len() <= 1 {
        ps[0]
    } else {
        let b = spec_best_package(ps.drop_last());
        if lex_ge(ps.last().last_modified@, b.last_modified@) {
            ps.last()
        } else {
            b
        }
    }
}

/// The episode number of the most recently modified package, computed
/// from the whole package list before any filtering; 1 where the list
/// is empty.
pub open spec fn spec_latest_episode(ps: Seq<Package>) -> i32 {
    if ps.len() == 0 {
        1
    } else {
        spec_best_package(ps).episode_number
    }
}

/// Find the episode number of the most recently modified package.
pub fn latest_episode(packages: &Vec<Package>) -> (r: i32)
    ensures
        r == spec_latest_episode(packages@),
{
    if packages.len() == 0 {
        return 1;
    }
    let mut best: usize = 0;
    let mut i: usize = 1;
    while i < packages.len()
        invariant
            0 < packages@.len(),
            best < i <= packages@.len(),
            packages@[best as int] == spec_best_package(packages@.take(i as int)),
        decreases packages@.len() - i,
    {
        proof {
            assert(packages@.take(i as int + 1).drop_last() =~= packages@.take(i as int));
            assert(packages@.take(i as int + 1).last() == packages@[i as int]);
        }
        if !str_lt(packages[i].last_modified.as_str(), packages[best].last_modified.as_str()) {
            best = i;
        }
        i += 1;
    }
    proof {
        assert(packages@.take(packages@.len() as int) =~= packages@);
    }
    packages[best].episode_number
}

/// Whether the episode selector keeps a package with episode `ep`,
/// given the latest episode of the whole fetched list.
pub open spec fn spec_keep(sel: EpisodeNumber, latest: i32, ep: i32) -> bool {
    match sel {
        EpisodeNumber::All => true,
        EpisodeNumber::Latest => ep == latest,
        EpisodeNumber::Number(n) => ep == n,
    }
}

/// The packages the selector keeps, in their original order.
pub open spec fn spec_kept(ps: Seq<Package>, sel: EpisodeNumber, latest: i32) -> Seq<Package>
    decreases ps.len(),
{
    if ps.len() == 0 {
        Seq::empty()
    } else {
        let rest = spec_kept(ps.drop_last(), sel, latest);
        if spec_keep(sel, latest, ps.last().episode_number) {
            rest.push(ps.last())
        } else {
            rest
        }
    }
}

/// `e` is the entry made from package `p` under bot directory `bots`:
/// the package's own fields, and the bot's name resolved through the
/// directory, with the literal fallback where the id is unknown —
/// a package is never dropped for a missing bot.
pub open spec fn is_entry_for(p: Package, bots: Map<i64, Bot>, e: Entry) -> bool {
    &&& e.package_number == p.number
    &&& e.bot_id == p.bot_id
    &&& e.name@ == p.name@
    &&& e.size@ == p.size@
    &&& e.bot_name@ == (if bots.contains_key(p.bot_id) {
        bots[p.bot_id].name@
    } else {
        "unknown bot?"@
    })
}

/// The whole result of one find: one entry for each kept package, in
/// the kept order, each resolved through the bot directory.
pub open spec fn entries_match(
    ps: Seq<Package>,
    bots: Map<i64, Bot>,
    sel: EpisodeNumber,
    out: Seq<Entry>,
) -> bool {
    let kept = spec_kept(ps, sel, spec_latest_episode(ps));
    &&& out.len() == kept.len()
    &&& forall|i: int| 0 <= i < kept.len() ==> is_entry_for(kept[i], bots, #[trigger] out[i])
}

/// Make the entry for one package, resolving the bot name through the
/// directory with the fallback for an unknown id.
fn make_entry(p: &Package, bots: &HashMap<i64, Bot>) -> (e: Entry)
    ensures
        is_entry_for(*p, bots@, e),
{
    let bot_name = match bots.get(&p.bot_id) {
        Some(b) => b.name.clone(),
        None => String::from_str("unknown bot?"),
    };
    Entry {
        package_number: p.number,
        bot_id: p.bot_id,
        bot_name,
        name: p.name.clone(),
        size: p.size.clone(),
    }
}

/// Filter the fetched packages by the query's episode selector — the
/// latest episode taken from the whole fetched list — and map each
/// kept package to its entry.
pub fn select_entries(query: &Query, packages: &Vec<Package>, bots: &HashMap<i64, Bot>) -> (r: Vec<
    Entry,
>)
    ensures
        entries_match(packages@, bots@, query.episode, r@),
{
    let latest = latest_episode(packages);
    let mut out: Vec<Entry> = Vec::new();
    let mut i: usize = 0;
    while i < packages.len()
        invariant
            latest == spec_latest_episode(packages@),
            i <= packages@.len(),
            out@.len() == spec_kept(packages@.take(i as int), query.episode, latest).len(),
            forall|j: int|
                0 <= j < out@.len() ==> is_entry_for(
                    spec_kept(packages@.take(i as int), query.episode, latest)[j],
                    bots@,
                    #[trigger] out@[j],
                ),
        decreases packages@.len() - i,
    {
        proof {
            assert(packages@.take(i as int + 1).drop_last() =~= packages@.take(i as int));
            assert(packages@.take(i as int + 1).last() == packages@[i as int]);
        }
        let p = &packages[i];
        let keep = match query.episode {
            EpisodeNumber::All => true,
            EpisodeNumber::Latest => p.episode_number == latest,
            EpisodeNumber::Number(n) => p.episode_number == n,
        };
        if keep {
            let e = make_entry(p, bots);
            out.push(e);
        }
        i += 1;
    }
    proof {
        assert(packages@.take(packages@.len() as int) =~= packages@);
    }
    out
}

/// The pure remainder of one find, once both fetches have answered:
/// index the bot directory, filter by the episode selector, and shape
/// the entries.
pub fn find_in_fetched(query: &Query, packages: &Vec<Package>, bots: &Vec<Bot>) -> (r: Vec<Entry>)
    ensures
        entries_match(packages@, spec_bots_map(bots@), query.episode, r@),
{
    let map = bots_by_id(bots);
    select_entries(query, packages, &map)
}

} // verus!
