use vstd::prelude::*;
use crate::links::{letterboxd_url, letterboxd_url_spec};
use crate::text::{decimal, push_i64};

verus! {

/// The query parameters of a TMDB movie search, as views.
pub open spec fn query_views(q: Seq<(String, String)>) -> Seq<(Seq<char>, Seq<char>)> {
    q.map_values(|p: (String, String)| (p.0@, p.1@))
}

/// The query of a TMDB movie search: the title, adult films included,
/// English results, and the release year when one is given.
pub open spec fn search_query_spec(name: Seq<char>, year: Option<i64>) -> Seq<
    (Seq<char>, Seq<char>),
> {
    let base = seq![
        ("query"@, name),
        ("include_adult"@, "true"@),
        ("language"@, "en-US"@),
    ];
    match year {
        Some(y) => base.push(("year"@, decimal(y as int))),
        None => base,
    }
}

pub fn search_query(name: &str, year: Option<i64>) -> (r: Vec<(String, String)>)
    ensures
        query_views(r@) == search_query_spec(name@, year),
{
    let mut q: Vec<(String, String)> = Vec::new();
    q.push((String::from_str("query"), String::from_str(name)));
    q.push((String::from_str("include_adult"), String::from_str("true")));
    q.push((String::from_str("language"), String::from_str("en-US")));
    match year {
        Some(y) => {
            let mut ys = String::new();
            push_i64(&mut ys, y);
            q.push((String::from_str("year"), ys));
        },
        None => {},
    }
    assert(query_views(q@) =~= search_query_spec(name@, year));
    q
}

/// The authorization header value for a TMDB read access token.
pub fn bearer_header(token: &str) -> (r: String)
    ensures
        r@ == "Bearer "@ + token@,
{
    let mut r = String::new();
    r.append("Bearer ");
    r.append(token);
    r
}

/// What a search result says of its `id`.
#[derive(Debug, PartialEq, Eq, Clone, Copy)]
pub enum ResultId {
    /// The result has no `id`.
    Missing,
    /// The `id` is not an integer that fits in an `i64`.
    NotInteger,
    Id(i64),
}

/// What the search command answers when it found something.
#[derive(Debug, PartialEq, Eq)]
pub enum SearchReply {
    NoMatches,
    Link(String),
}

/// Why the search command failed.
#[derive(Debug, PartialEq, Eq, Clone, Copy)]
pub enum SearchError {
    MissingId,
    IdNotNumber,
}

impl SearchError {
    pub fn message(&self) -> (r: String)
        ensures
            r@ == match self {
                SearchError::MissingId => "Could not determine TMDB ID."@,
                SearchError::IdNotNumber => "TMDB ID must be a number."@,
            },
    {
        match self {
            SearchError::MissingId => String::from_str("Could not determine TMDB ID."),
            SearchError::IdNotNumber => String::from_str("TMDB ID must be a number."),
        }
    }
}

impl SearchReply {
    pub fn text(&self) -> (r: String)
        ensures
            r@ == match self {
                SearchReply::NoMatches => "no matches found!"@,
                SearchReply::Link(l) => l@,
            },
    {
        match self {
            SearchReply::NoMatches => String::from_str("no matches found!"),
            SearchReply::Link(l) => l.clone(),
        }
    }
}

/// The answer to a search from the ids of its results, in order: no matches
/// when there are none, else the Letterboxd link of the first result.
pub fn search_reply(results: &Vec<ResultId>) -> (r: Result<SearchReply, SearchError>)
    ensures
        results.len() == 0 ==> r == Ok::<SearchReply, SearchError>(SearchReply::NoMatches),
        results.len() > 0 ==> match results[0] {
            ResultId::Missing => r == Err::<SearchReply, SearchError>(SearchError::MissingId),
            ResultId::NotInteger => r == Err::<SearchReply, SearchError>(SearchError::IdNotNumber),
            ResultId::Id(id) => r matches Ok(SearchReply::Link(l)) && l@ == letterboxd_url_spec(id),
        },
{
    if results.len() == 0 {
        return Ok(SearchReply::NoMatches);
    }
    match results[0] {
        ResultId::Missing => Err(SearchError::MissingId),
        ResultId::NotInteger => Err(SearchError::IdNotNumber),
        ResultId::Id(id) => Ok(SearchReply::Link(letterboxd_url(id))),
    }
}

} // verus!
