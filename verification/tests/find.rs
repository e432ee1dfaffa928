use std::cell::Cell;

use xdcc_finder::finder::{Entry, EpisodeNumber, Error, Finder, Query};

fn entry(name: &str) -> Entry {
    Entry {
        package_number: 1,
        bot_id: 10,
        bot_name: String::from("CR-ARUTHA|NEW"),
        name: String::from(name),
        size: String::from("700MB"),
    }
}

struct FixedFinder {
    entries: Vec<Entry>,
    queried: Cell<bool>,
}

impl FixedFinder {
    fn new(entries: Vec<Entry>) -> Self {
        FixedFinder { entries, queried: Cell::new(false) }
    }
}

impl Finder for FixedFinder {
    fn find(&self, _query: &Query) -> Result<Vec<Entry>, Error> {
        self.queried.set(true);
        Ok(self.entries.clone())
    }
}

struct FailingFinder {
    queried: Cell<bool>,
}

impl Finder for FailingFinder {
    fn find(&self, _query: &Query) -> Result<Vec<Entry>, Error> {
        self.queried.set(true);
        Err(Error::APIError { api: "nibl", message: String::from("boom") })
    }
}

enum AnyFinder {
    Fixed(FixedFinder),
    Failing(FailingFinder),
}

impl Finder for AnyFinder {
    fn find(&self, query: &Query) -> Result<Vec<Entry>, Error> {
        match self {
            AnyFinder::Fixed(f) => f.find(query),
            AnyFinder::Failing(f) => f.find(query),
        }
    }
}

fn query() -> Query {
    Query::new(
        String::from("made in abyss"),
        String::from("1080"),
        EpisodeNumber::All,
    )
}

#[test]
fn find_delegates_to_one_finder() {
    let finder = FixedFinder::new(vec![entry("e1")]);
    let found = query().find(&finder).unwrap();
    assert_eq!(found, vec![entry("e1")]);
    assert!(finder.queried.get());
}

#[test]
fn find_many_concatenates_in_order() {
    let finders = [
        FixedFinder::new(vec![entry("e1")]),
        FixedFinder::new(vec![entry("e2")]),
    ];
    let found = query().find_many(&finders).unwrap();
    assert_eq!(found, vec![entry("e1"), entry("e2")]);
}

#[test]
fn find_many_fails_fast() {
    let finders = [
        AnyFinder::Failing(FailingFinder { queried: Cell::new(false) }),
        AnyFinder::Fixed(FixedFinder::new(vec![entry("e2")])),
    ];
    let result = query().find_many(&finders);
    match result {
        Err(Error::APIError { api, message }) => {
            assert_eq!(api, "nibl");
            assert_eq!(message, "boom");
        }
        _ => panic!("expected the first finder's error"),
    }
    // The finder after the failing one was never queried, and the
    // partial results were discarded with the error.
    match &finders[1] {
        AnyFinder::Fixed(f) => assert!(!f.queried.get()),
        _ => unreachable!(),
    }
}

#[test]
fn find_many_error_after_success_discards_partial_results() {
    let finders = [
        AnyFinder::Fixed(FixedFinder::new(vec![entry("e1")])),
        AnyFinder::Failing(FailingFinder { queried: Cell::new(false) }),
    ];
    let result = query().find_many(&finders);
    assert!(matches!(result, Err(Error::APIError { .. })));
}

#[test]
fn find_many_of_no_finders_is_empty() {
    let finders: [FixedFinder; 0] = [];
    assert_eq!(query().find_many(&finders).unwrap(), Vec::<Entry>::new());
}

#[test]
fn query_new_keeps_fields() {
    let q = Query::new(
        String::from("a"),
        String::from("720"),
        EpisodeNumber::Number(3),
    );
    assert_eq!(q.search, "a");
    assert_eq!(q.resolution, "720");
    assert_eq!(q.episode, EpisodeNumber::Number(3));
}

#[test]
fn query_default_is_empty_all() {
    let q = Query::default();
    assert_eq!(q.search, "");
    assert_eq!(q.resolution, "");
    assert_eq!(q.episode, EpisodeNumber::All);
}

#[test]
fn entry_render() {
    let e = entry("[HorribleSubs] Show - 01 [1080p].mkv");
    assert_eq!(
        e.render(),
        "[HorribleSubs] Show - 01 [1080p].mkv [CR-ARUTHA|NEW] (700MB)"
    );
}
