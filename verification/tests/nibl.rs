use xdcc_finder::finder::nibl::{
    api_base, bots_by_id, build_search_url, find_in_fetched, latest_episode, select_entries,
    unwrap_envelope, Bot, Package,
};
use xdcc_finder::finder::{EpisodeNumber, Error, Query};

fn package(id: i32, ep: i32, last_modified: &str) -> Package {
    Package {
        bot_id: 10,
        number: id,
        name: format!("pkg-{}", id),
        size: String::from("700MB"),
        last_modified: String::from(last_modified),
        episode_number: ep,
    }
}

fn two_packages() -> Vec<Package> {
    vec![package(1, 1, "2020"), package(2, 2, "2021")]
}

fn bots() -> Vec<Bot> {
    vec![Bot { id: 10, name: String::from("CR-ARUTHA|NEW") }]
}

fn query(episode: EpisodeNumber) -> Query {
    Query::new(String::from("show"), String::from("1080"), episode)
}

#[test]
fn latest_episode_takes_the_most_recently_modified() {
    assert_eq!(latest_episode(&two_packages()), 2);
}

#[test]
fn latest_episode_of_no_packages_defaults_to_one() {
    assert_eq!(latest_episode(&Vec::new()), 1);
}

#[test]
fn latest_episode_tie_goes_to_the_later_package() {
    let packages = vec![package(1, 4, "2021"), package(2, 9, "2021")];
    assert_eq!(latest_episode(&packages), 9);
}

#[test]
fn latest_keeps_only_the_latest_episode() {
    let entries = find_in_fetched(
        &query(EpisodeNumber::Latest),
        &two_packages(),
        &bots(),
    );
    assert_eq!(entries.len(), 1);
    assert_eq!(entries[0].package_number, 2);
    assert_eq!(entries[0].name, "pkg-2");
    assert_eq!(entries[0].bot_name, "CR-ARUTHA|NEW");
}

#[test]
fn all_keeps_everything() {
    let entries = find_in_fetched(&query(EpisodeNumber::All), &two_packages(), &bots());
    assert_eq!(entries.len(), 2);
    assert_eq!(entries[0].package_number, 1);
    assert_eq!(entries[1].package_number, 2);
}

#[test]
fn number_keeps_only_that_episode() {
    let entries = find_in_fetched(
        &query(EpisodeNumber::Number(1)),
        &two_packages(),
        &bots(),
    );
    assert_eq!(entries.len(), 1);
    assert_eq!(entries[0].package_number, 1);
}

#[test]
fn empty_packages_with_latest_selected_yield_empty() {
    let entries = find_in_fetched(&query(EpisodeNumber::Latest), &Vec::new(), &bots());
    assert_eq!(entries, Vec::new());
}

#[test]
fn missing_bot_gets_the_fallback_name() {
    let entries = find_in_fetched(
        &query(EpisodeNumber::All),
        &two_packages(),
        &Vec::new(),
    );
    assert_eq!(entries.len(), 2);
    assert_eq!(entries[0].bot_name, "unknown bot?");
    assert_eq!(entries[0].bot_id, 10);
    assert_eq!(entries[1].bot_name, "unknown bot?");
}

#[test]
fn duplicate_bot_ids_take_the_later_record() {
    let directory = vec![
        Bot { id: 10, name: String::from("first") },
        Bot { id: 10, name: String::from("second") },
    ];
    let entries = find_in_fetched(&query(EpisodeNumber::All), &two_packages(), &directory);
    assert_eq!(entries[0].bot_name, "second");
}

#[test]
fn select_entries_uses_a_prebuilt_directory() {
    let map = bots_by_id(&bots());
    let entries = select_entries(&query(EpisodeNumber::All), &two_packages(), &map);
    assert_eq!(entries.len(), 2);
    assert_eq!(entries[0].bot_name, "CR-ARUTHA|NEW");
}

#[test]
fn search_url_without_episode_parameter() {
    let url = build_search_url(&query(EpisodeNumber::All));
    assert_eq!(
        url,
        "https://api.nibl.co.uk/nibl/search?query=show%201080"
    );
    let url = build_search_url(&query(EpisodeNumber::Latest));
    assert_eq!(
        url,
        "https://api.nibl.co.uk/nibl/search?query=show%201080"
    );
}

#[test]
fn search_url_with_episode_parameter() {
    let url = build_search_url(&query(EpisodeNumber::Number(12)));
    assert_eq!(
        url,
        "https://api.nibl.co.uk/nibl/search?query=show%201080&episodeNumber=12"
    );
}

#[test]
fn api_base_is_fixed() {
    assert_eq!(api_base(), "https://api.nibl.co.uk/nibl");
}

#[test]
fn ok_envelope_yields_the_content() {
    let r = unwrap_envelope("OK", String::from("ignored"), two_packages());
    assert_eq!(r.unwrap(), two_packages());
}

#[test]
fn non_ok_envelope_surfaces_the_api_message() {
    let r = unwrap_envelope("ERROR", String::from("rate limited"), two_packages());
    match r {
        Err(Error::APIError { api, message }) => {
            assert_eq!(api, "nibl");
            assert_eq!(message, "rate limited");
        }
        _ => panic!("expected an APIError"),
    }
}

#[test]
fn non_ok_bot_envelope_fails_the_same_way() {
    let r = unwrap_envelope("FAIL", String::from("bots offline"), bots());
    assert!(matches!(
        r,
        Err(Error::APIError { api: "nibl", message }) if message == "bots offline"
    ));
}
