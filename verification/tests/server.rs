use reweave::server::helper::{
    clean_metadata, cors_headers, current_user, display_name_update, is_allowed_origin, list_request,
    normalized_dimension_filter, puzzle_summary_from_record, require_allowed_origin, stat_event,
    IncrementPuzzleStatInput, ListPuzzlesInput, UpdateMeInput,
};
use reweave::server::query::{list_puzzle_query, records_event, stat_outcome, stat_update_sql, SqlArg};
use reweave::server::records::{
    fallback_username, AppUser, PuzzleRecordFilters, PuzzleStat, PuzzleSummaryRecord, PuzzleSummaryRow,
};

fn record(letters: &str, width: usize, height: usize) -> PuzzleSummaryRecord {
    PuzzleSummaryRecord {
        id: "id".to_string(),
        name: "n".to_string(),
        description: None,
        width,
        height,
        letters: letters.to_string(),
        plays: 3,
        completions: 1,
        likes: 0,
        created_at: "t".to_string(),
        creator_username: "u".to_string(),
        creator_display_name: None,
        creator_role: "admin".to_string(),
    }
}

fn no_filters() -> ListPuzzlesInput {
    ListPuzzlesInput {
        limit: None,
        query: None,
        min_width: None,
        min_height: None,
        max_width: None,
        max_height: None,
        min_given_percent: None,
        max_given_percent: None,
    }
}

#[test]
fn fallback_username_keeps_twelve_letters_and_digits() {
    assert_eq!(fallback_username("user_2abcDEF!!ghij_klmn"), "user_user2abcDEFg");
    assert_eq!(fallback_username("!!"), "user");
}

#[test]
fn summary_counts_given_letters() {
    let s = puzzle_summary_from_record(record("ab_!", 2, 2));
    assert_eq!(s.starting_letters, 2);
    assert_eq!(s.total_cells, 4);
    assert_eq!(s.given_percent, 50);
    assert!(s.creator.official);
    let t = puzzle_summary_from_record(record("a__", 3, 1));
    assert_eq!(t.given_percent, 33);
    let z = puzzle_summary_from_record(record("", 0, 0));
    assert_eq!(z.given_percent, 0);
}

#[test]
fn dimension_filter_is_orientation_free() {
    assert_eq!(normalized_dimension_filter(Some(5), Some(3), "min").ok().unwrap(), Some((3, 5)));
    assert_eq!(normalized_dimension_filter(Some(3), Some(5), "min").ok().unwrap(), Some((3, 5)));
    assert_eq!(normalized_dimension_filter(None, None, "min").ok().unwrap(), None);
    assert_eq!(
        normalized_dimension_filter(Some(0), Some(3), "min").err().unwrap().0,
        "min dimensions must be greater than 0"
    );
    assert_eq!(
        normalized_dimension_filter(Some(1), None, "max").err().unwrap().0,
        "maxWidth and maxHeight must be provided together"
    );
}

#[test]
fn list_request_validates() {
    let mut inp = no_filters();
    inp.limit = Some(101);
    assert_eq!(list_request(inp).err().unwrap().0, "limit must be less than or equal to 100");
    let mut inp = no_filters();
    inp.max_given_percent = Some(101);
    assert_eq!(list_request(inp).err().unwrap().0, "given letter percentages must be between 0 and 100");
    let mut inp = no_filters();
    inp.query = Some("  ".to_string());
    inp.min_width = Some(4);
    inp.min_height = Some(2);
    let (limit, f) = list_request(inp).ok().unwrap();
    assert_eq!(limit, 24);
    assert!(f.query.is_none());
    assert_eq!(f.min_dimensions, Some((2, 4)));
}

#[test]
fn list_query_without_filters() {
    let filters = PuzzleRecordFilters {
        query: None,
        min_dimensions: None,
        max_dimensions: None,
        min_given_percent: None,
        max_given_percent: None,
    };
    let (sql, args) = list_puzzle_query(10, filters);
    assert!(sql.ends_with("ON u.id = p.created_by_user_id ORDER BY p.name ASC LIMIT $1"));
    assert_eq!(args.len(), 1);
    assert!(matches!(args[0], SqlArg::BigInt(10)));
}

#[test]
fn list_query_with_filters() {
    let filters = PuzzleRecordFilters {
        query: Some("cat".to_string()),
        min_dimensions: None,
        max_dimensions: Some((3, 5)),
        min_given_percent: Some(20),
        max_given_percent: None,
    };
    let (sql, args) = list_puzzle_query(24, filters);
    assert!(sql.contains(" WHERE (p.name ILIKE $1 OR p.description ILIKE $2) AND LEAST(p.width, p.height) <= $3 AND GREATEST(p.width, p.height) <= $4 AND (("));
    assert!(sql.ends_with(" >= $5 ORDER BY p.name ASC LIMIT $6"));
    assert_eq!(args.len(), 6);
    match &args[0] {
        SqlArg::Text(t) => assert_eq!(t, "%cat%"),
        _ => panic!("expected text"),
    }
    assert!(matches!(args[2], SqlArg::Int(3)));
    assert!(matches!(args[4], SqlArg::Int(20)));
    assert!(matches!(args[5], SqlArg::BigInt(24)));
}

#[test]
fn stat_statements_and_outcome() {
    assert_eq!(stat_update_sql(PuzzleStat::Plays), "UPDATE puzzle_stats SET plays = plays + 1 WHERE puzzle_id = $1");
    let done = PuzzleStat::Completions { completion_time_seconds: 5, used_hint: false };
    assert!(records_event(done, 1));
    assert!(!records_event(done, 0));
    assert!(!records_event(PuzzleStat::Plays, 1));
    assert!(stat_outcome(1, 7).is_ok());
    assert_eq!(
        stat_outcome(0, 0x0123456789abcdef0123456789abcdef).err().unwrap(),
        "invalid puzzle id: 01234567-89ab-cdef-0123-456789abcdef"
    );
}

#[test]
fn summary_row_becomes_record() {
    let row = PuzzleSummaryRow {
        id: 1,
        name: "n".to_string(),
        description: None,
        width: 3,
        height: 4,
        letters: "l".to_string(),
        plays: 2,
        completions: 1,
        likes: 0,
        created_at: "t".to_string(),
        creator_username: "u".to_string(),
        creator_display_name: None,
        creator_role: "user".to_string(),
    };
    let rec = PuzzleSummaryRecord::from_row(row);
    assert_eq!(rec.id, "00000000-0000-0000-0000-000000000001");
    assert_eq!(rec.width, 3);
    assert_eq!(rec.plays, 2);
}

#[test]
fn stat_event_cases() {
    let mk = |event: &str, t: Option<u32>| IncrementPuzzleStatInput {
        puzzle_id: "p".to_string(),
        event: event.to_string(),
        completion_time_seconds: t,
        used_hint: None,
    };
    assert!(matches!(stat_event(&mk("play", None)), Ok(PuzzleStat::Plays)));
    assert!(matches!(
        stat_event(&mk("completion", Some(9))),
        Ok(PuzzleStat::Completions { completion_time_seconds: 9, used_hint: false })
    ));
    assert_eq!(stat_event(&mk("completion", None)).err().unwrap().0, "missing completion time");
    assert_eq!(stat_event(&mk("like", None)).err().unwrap().0, "invalid stat event");
}

#[test]
fn metadata_limits() {
    let long = "x".repeat(41);
    assert_eq!(clean_metadata(&long, None).err().unwrap().0, "puzzle title must be 40 characters or fewer");
    let (n, d) = clean_metadata("  Title ", Some("   ".to_string())).ok().unwrap();
    assert_eq!(n, "Title");
    assert_eq!(d, None);
    assert_eq!(
        clean_metadata("t", Some("y".repeat(61))).err().unwrap().0,
        "description must be 60 characters or fewer"
    );
    assert_eq!(
        display_name_update(UpdateMeInput { display_name: Some("z".repeat(61)) }).err().unwrap().0,
        "display name must be 60 characters or fewer"
    );
    assert_eq!(display_name_update(UpdateMeInput { display_name: Some(" Ann ".to_string()) }).ok().unwrap(), Some("Ann".to_string()));
}

#[test]
fn origins() {
    assert!(is_allowed_origin("http://a.com, http://b.com", "http://b.com"));
    assert!(!is_allowed_origin("http://a.com", "http://b.com"));
    assert_eq!(require_allowed_origin(None, Some("x")).ok().unwrap(), None);
    assert_eq!(require_allowed_origin(Some("http://a.com"), Some("http://a.com")).ok().unwrap(), Some("http://a.com".to_string()));
    assert_eq!(require_allowed_origin(Some("http://c.com"), Some("http://a.com")).err().unwrap().0, "Forbidden origin");
    assert_eq!(require_allowed_origin(Some("http://c.com"), None).err().unwrap().0, "Forbidden origin");
    let h = cors_headers("http://a.com");
    assert_eq!(h[0], ("Access-Control-Allow-Origin".to_string(), "http://a.com".to_string()));
    assert_eq!(h[3], ("Vary".to_string(), "Origin".to_string()));
}

#[test]
fn current_user_is_official_for_admins() {
    let user = AppUser { id: 1, username: "u".to_string(), display_name: None, role: "admin".to_string() };
    let me = current_user(&user).ok().unwrap();
    assert!(me.official);
    assert_eq!(me.username, "u");
}

#[test]
fn answer_words_are_sorted() {
    let trie = reweave::words::Trie::new(vec!["cat", "act", "cats"]);
    let words = reweave::server::answers::answer_words(2, 2, "cats", &trie, 1).ok().unwrap();
    assert_eq!(words, vec!["act".to_string(), "cat".to_string(), "cats".to_string()]);
}

#[test]
fn answer_words_name_the_puzzle() {
    let trie = reweave::words::Trie::new(vec!["cat"]);
    assert_eq!(
        reweave::server::answers::answer_words(2, 2, "cat", &trie, 255).err().unwrap(),
        "invalid answer for puzzle 00000000-0000-0000-0000-0000000000ff: Width and height do not match length of chars"
    );
}

#[test]
fn update_must_touch_one_row() {
    assert!(reweave::server::answers::update_outcome(1, 2).is_ok());
    assert_eq!(
        reweave::server::answers::update_outcome(0, 2).err().unwrap(),
        "expected to update puzzle 00000000-0000-0000-0000-000000000002, updated 0 rows"
    );
    assert_eq!(
        reweave::server::answers::sort_words(vec!["b".to_string(), "ab".to_string(), "a".to_string()]),
        vec!["a".to_string(), "ab".to_string(), "b".to_string()]
    );
}
