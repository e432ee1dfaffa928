//! The search abstraction: queries, episode selectors, result entries,
//! the `Finder` capability interface and aggregation over several finders.

use vstd::prelude::*;

pub mod nibl;

use crate::text::{
    i32_to_string, lemma_int_chars_head, lemma_parse_int_chars, parse_i32, spec_int_chars,
    spec_parse_i32, str_eq,
};

verus! {

/// A failure of one finder operation: either the transport below it broke,
/// or the remote API answered with a non-OK status and a message.
#[derive(Debug)]
pub enum Error {
    /// A network, connection or decoding failure, with its description.
    Transport { message: String },
    /// The remote service answered, but reported a failure of its own.
    APIError { api: &'static str, message: String },
}

/// An episode selector: every episode, only the most recent one,
/// or one specific episode number.
#[derive(Debug, Clone, Copy, PartialEq, Eq, Structural, Hash)]
pub enum EpisodeNumber {
    All,
    Latest,
    Number(i32),
}

impl Default for EpisodeNumber {
    /// The default selector keeps every episode.
    fn default() -> (r: Self)
        ensures
            r == EpisodeNumber::All,
    {
        EpisodeNumber::All
    }
}

/// What parsing an episode selector from text yields: the token "latest"
/// names the latest episode, any other token must be a decimal `i32`.
/// "all" is not a parse input: the all-episodes selector is default-only.
pub open spec fn spec_parse_episode(s: Seq<char>) -> Option<EpisodeNumber> {
    if s == "latest"@ {
        Some(EpisodeNumber::Latest)
    } else {
        match spec_parse_i32(s) {
            Some(n) => Some(EpisodeNumber::Number(n)),
            None => None,
        }
    }
}

/// The text of an episode selector.
pub open spec fn spec_format_episode(e: EpisodeNumber) -> Seq<char> {
    match e {
        EpisodeNumber::All => "all"@,
        EpisodeNumber::Latest => "latest"@,
        EpisodeNumber::Number(n) => spec_int_chars(n as int),
    }
}

impl EpisodeNumber {
    /// Parse a selector from text; any token that is neither "latest" nor
    /// a decimal integer fails with a message naming the invalid input.
    pub fn parse(s: &str) -> (r: Result<EpisodeNumber, String>)
        ensures
            match r {
                Ok(e) => spec_parse_episode(s@) == Some(e),
                Err(m) => {
                    &&& spec_parse_episode(s@) is None
                    &&& m@ == "Invalid episode number "@ + s@
                },
            },
    {
        if str_eq(s, "latest") {
            return Ok(EpisodeNumber::Latest);
        }
        match parse_i32(s) {
            Some(n) => Ok(EpisodeNumber::Number(n)),
            None => {
                let mut m = String::from_str("Invalid episode number ");
                m.append(s);
                Err(m)
            },
        }
    }

    /// The text of this selector: "all", "latest", or the decimal number.
    pub fn format(&self) -> (r: String)
        ensures
            r@ == spec_format_episode(*self),
    {
        match self {
            EpisodeNumber::All => String::from_str("all"),
            EpisodeNumber::Latest => String::from_str("latest"),
            EpisodeNumber::Number(n) => i32_to_string(*n),
        }
    }
}

impl core::str::FromStr for EpisodeNumber {
    type Err = String;

    fn from_str(s: &str) -> Result<Self, String> {
        EpisodeNumber::parse(s)
    }
}

/// Formatting a selector and parsing the text back yields the selector
/// again, for the two selectors that have a parse input at all
/// ("all" is default-only and never a parse result).
pub proof fn lemma_format_parse_inverse(e: EpisodeNumber)
    requires
        e !is All,
    ensures
        spec_parse_episode(spec_format_episode(e)) == Some(e),
{
    match e {
        EpisodeNumber::All => {
        },
        EpisodeNumber::Latest => {
        },
        EpisodeNumber::Number(n) => {
            lemma_parse_int_chars(n as int);
            lemma_int_chars_head(n as int);
            let s = spec_int_chars(n as int);
            reveal_strlit("latest");
            assert(s != "latest"@) by {
                if s == "latest"@ {
                    assert(s[0] == 'l');
                }
            }
        },
    }
}

/// The all-episodes selector has no parse input: no text whatever
/// parses to it. It exists only as the default and formats as "all".
pub proof fn lemma_all_has_no_parse_input(s: Seq<char>)
    ensures
        spec_parse_episode(s) != Some(EpisodeNumber::All),
{
}

/// One found file: the package joined with the name of the bot that
/// offers it.
#[derive(Debug, PartialEq, Hash)]
pub struct Entry {
    pub package_number: i32,
    pub bot_id: i64,
    pub bot_name: String,
    pub name: String,
    pub size: String,
}

impl Clone for Entry {
    /// A clone carries the same fields.
    fn clone(&self) -> (r: Self)
        ensures
            r == *self,
    {
        Entry {
            package_number: self.package_number,
            bot_id: self.bot_id,
            bot_name: self.bot_name.clone(),
            name: self.name.clone(),
            size: self.size.clone(),
        }
    }
}

/// The human-readable line for one entry: "name [bot_name] (size)".
pub open spec fn spec_render(e: Entry) -> Seq<char> {
    e.name@ + " ["@ + e.bot_name@ + "] ("@ + e.size@ + ")"@
}

impl Entry {
    /// Render this entry for display.
    pub fn render(&self) -> (r: String)
        ensures
            r@ == spec_render(*self),
    {
        let mut s = self.name.clone();
        s.append(" [");
        s.append(self.bot_name.as_str());
        s.append("] (");
        s.append(self.size.as_str());
        s.append(")");
        proof {
            assert(s@ =~= spec_render(*self));
        }
        s
    }
}

/// Whether an executable find result carries the same value as its
/// mathematical counterpart.
pub open spec fn result_matches(r: Result<Vec<Entry>, Error>, s: Result<Seq<Entry>, Error>) -> bool {
    match r {
        Ok(v) => s == Ok::<Seq<Entry>, Error>(v@),
        Err(e) => s == Err::<Seq<Entry>, Error>(e),
    }
}

/// Anything that can take a query and produce a list of entries.
/// Implementations name the result they will return in `spec_find`,
/// and `find` is bound to it.
pub trait Finder {
    /// The entries or the error that this finder yields for a query.
    /// An implementation overrides this to name its own result; the
    /// default names an empty one.
    open spec fn spec_find(&self, query: Query) -> Result<Seq<Entry>, Error> {
        Ok(Seq::empty())
    }

    /// Run the query against this finder.
    fn find(&self, query: &Query) -> (r: Result<Vec<Entry>, Error>)
        ensures
            result_matches(r, self.spec_find(*query)),
    ;
}

/// What querying a row of finders in order yields: the concatenation of
/// all their entries, unless one fails — then the error of the first
/// finder that fails, and nothing of the rest.
pub open spec fn spec_find_many<F: Finder>(fs: Seq<F>, q: Query) -> Result<Seq<Entry>, Error>
    decreases fs.len(),
{
    if fs.len() == 0 {
        Ok(Seq::empty())
    } else {
        match spec_find_many(fs.drop_last(), q) {
            Ok(pre) => match fs.last().spec_find(q) {
                Ok(es) => Ok(pre + es),
                Err(e) => Err(e),
            },
            Err(e) => Err(e),
        }
    }
}

/// Querying two finders in order: where both succeed, the result is
/// the first finder's entries followed by the second's; where the
/// first fails, its error is the whole result, whatever the second
/// would have answered.
pub proof fn lemma_find_many_pair<F: Finder>(a: F, b: F, q: Query)
    ensures
        a.spec_find(q) is Ok && b.spec_find(q) is Ok ==> spec_find_many(seq![a, b], q) == Ok::<
            Seq<Entry>,
            Error,
        >(a.spec_find(q)->Ok_0 + b.spec_find(q)->Ok_0),
        a.spec_find(q) is Err ==> spec_find_many(seq![a, b], q) == Err::<Seq<Entry>, Error>(
            a.spec_find(q)->Err_0,
        ),
{
    let fs = seq![a, b];
    assert(fs.drop_last() =~= seq![a]);
    assert(seq![a].drop_last() =~= Seq::<F>::empty());
    assert(spec_find_many(Seq::<F>::empty(), q) == Ok::<Seq<Entry>, Error>(Seq::empty()));
    assert(seq![a].last() == a);
    assert(fs.last() == b);
    assert(spec_find_many(seq![a], q) == match a.spec_find(q) {
        Ok(es) => Ok::<Seq<Entry>, Error>(Seq::empty() + es),
        Err(e) => Err::<Seq<Entry>, Error>(e),
    });
    if a.spec_find(q) is Ok && b.spec_find(q) is Ok {
        let e1 = a.spec_find(q)->Ok_0;
        let e2 = b.spec_find(q)->Ok_0;
        assert(Seq::<Entry>::empty() + e1 =~= e1);
        assert(spec_find_many(seq![a], q) == Ok::<Seq<Entry>, Error>(e1));
        assert(spec_find_many(fs, q) == Ok::<Seq<Entry>, Error>(e1 + e2));
    }
}

/// Once the finder at position `i` fails after all finders before it
/// succeeded, the whole row fails with that finder's error.
proof fn lemma_find_many_error<F: Finder>(fs: Seq<F>, q: Query, i: int)
    requires
        0 <= i < fs.len(),
        spec_find_many(fs.take(i), q) is Ok,
        fs[i].spec_find(q) is Err,
    ensures
        spec_find_many(fs, q) == Err::<Seq<Entry>, Error>(fs[i].spec_find(q)->Err_0),
    decreases fs.len() - i,
{
    if i == fs.len() - 1 {
        assert(fs.drop_last() =~= fs.take(i));
        match spec_find_many(fs.take(i), q) {
            Ok(pre) => {
                assert(fs.last() == fs[i]);
            },
            Err(_) => {
            },
        }
    } else {
        assert(fs.drop_last().take(i) =~= fs.take(i));
        lemma_find_many_error(fs.drop_last(), q, i);
    }
}

/// An immutable search request: search text, resolution text, and the
/// episode selector.
#[derive(Debug, PartialEq, Hash)]
pub struct Query {
    pub search: String,
    pub resolution: String,
    pub episode: EpisodeNumber,
}

impl Clone for Query {
    /// A clone carries the same fields.
    fn clone(&self) -> (r: Self)
        ensures
            r == *self,
    {
        Query {
            search: self.search.clone(),
            resolution: self.resolution.clone(),
            episode: self.episode,
        }
    }
}

impl Default for Query {
    /// The default query: empty texts and the all-episodes selector.
    fn default() -> (r: Self)
        ensures
            r.search@ == Seq::<char>::empty(),
            r.resolution@ == Seq::<char>::empty(),
            r.episode == EpisodeNumber::All,
    {
        Query { search: String::new(), resolution: String::new(), episode: EpisodeNumber::All }
    }
}

impl Query {
    /// Build a query from its three fields.
    pub fn new(search: String, resolution: String, episode: EpisodeNumber) -> (r: Self)
        ensures
            r == (Query { search, resolution, episode }),
    {
        Query { search, resolution, episode }
    }

    /// Run this query against exactly one finder, returning its result
    /// or its error unchanged.
    pub fn find<F: Finder>(&self, finder: &F) -> (r: Result<Vec<Entry>, Error>)
        ensures
            result_matches(r, finder.spec_find(*self)),
    {
        finder.find(self)
    }

    /// Run this query against each finder in the given order and
    /// concatenate all their entries. The first finder to fail aborts
    /// the whole operation: its error is returned, the finders after it
    /// are never queried, and entries already found are discarded.
    pub fn find_many<F: Finder>(&self, finders: &[F]) -> (r: Result<Vec<Entry>, Error>)
        ensures
            result_matches(r, spec_find_many(finders@, *self)),
    {
        let mut entries: Vec<Entry> = Vec::new();
        let n = finders.len();
        let mut i: usize = 0;
        while i < n
            invariant
                n == finders@.len(),
                i <= n,
                spec_find_many(finders@.take(i as int), *self) == Ok::<Seq<Entry>, Error>(
                    entries@,
                ),
            decreases n - i,
        {
            let f = &finders[i];
            match f.find(self) {
                Ok(mut es) => {
                    proof {
                        assert(finders@.take(i as int + 1).drop_last() =~= finders@.take(
                            i as int,
                        ));
                        assert(finders@.take(i as int + 1).last() == finders@[i as int]);
                    }
                    entries.append(&mut es);
                },
                Err(e) => {
                    proof {
                        lemma_find_many_error(finders@, *self, i as int);
                    }
                    return Err(e);
                },
            }
            i += 1;
        }
        proof {
            assert(finders@.take(n as int) =~= finders@);
        }
        Ok(entries)
    }
}

} // verus!
