use hackernews::types::{Comment, StoryItem, StoryPageData, StorySorting, UserData};

#[test]
fn all_orders_in_the_order_offered() {
    assert_eq!(
        StorySorting::all(),
        vec![
            StorySorting::Top,
            StorySorting::Best,
            StorySorting::New,
            StorySorting::Show,
            StorySorting::Ask,
            StorySorting::Job,
        ]
    );
}

#[test]
fn order_names_and_addresses() {
    assert_eq!(StorySorting::Top.to_str(), "top");
    assert_eq!(StorySorting::Best.to_str(), "best");
    assert_eq!(StorySorting::New.to_str(), "new");
    assert_eq!(StorySorting::Show.to_str(), "show");
    assert_eq!(StorySorting::Ask.to_str(), "ask");
    assert_eq!(StorySorting::Job.to_str(), "job");
    assert_eq!(StorySorting::Ask.to_url(), "#ask");
    assert_eq!(StorySorting::default(), StorySorting::Top);
}

#[test]
fn order_from_address() {
    assert_eq!(StorySorting::from_url("#new"), Some(StorySorting::New));
    assert_eq!(StorySorting::from_url("new"), Some(StorySorting::New));
    assert_eq!(StorySorting::from_url("#job"), Some(StorySorting::Job));
    assert_eq!(StorySorting::from_url("##new"), None);
    assert_eq!(StorySorting::from_url("/new"), None);
    assert_eq!(StorySorting::from_url("#news"), None);
    assert_eq!(StorySorting::from_url(""), None);
    assert_eq!(StorySorting::from_url("#"), None);
    for order in StorySorting::all() {
        assert_eq!(StorySorting::from_url(&order.to_url()), Some(order));
        assert_eq!(StorySorting::from_url(order.to_str()), Some(order));
    }
}

#[test]
fn comment_number_from_address() {
    assert_eq!(Comment::id_from_url("#comment/123"), Some(123));
    assert_eq!(Comment::id_from_url("comment/123"), Some(123));
    assert_eq!(Comment::id_from_url("/comment/123"), Some(123));
    assert_eq!(Comment::id_from_url("/comments/7/x"), Some(7));
    assert_eq!(Comment::id_from_url("#comment/12/more"), Some(12));
    assert_eq!(Comment::id_from_url("#comment/-5"), Some(-5));
    assert_eq!(Comment::id_from_url("#comment/+5"), Some(5));
    assert_eq!(Comment::id_from_url("#comment/x"), None);
    assert_eq!(Comment::id_from_url("#comment/"), None);
    assert_eq!(Comment::id_from_url("#comment"), None);
    assert_eq!(Comment::id_from_url("#item/1"), None);
    assert_eq!(Comment::id_from_url("##comment/1"), None);
    assert_eq!(Comment::id_from_url(""), None);
    assert_eq!(Comment::to_url(42), "#comment/42");
}

#[test]
fn story_number_from_address() {
    assert_eq!(StoryItem::id_from_url("#item/8863"), Some(8863));
    assert_eq!(StoryItem::id_from_url("item/8863"), Some(8863));
    assert_eq!(StoryItem::id_from_url("/item/8863"), Some(8863));
    assert_eq!(StoryItem::id_from_url("#item/9223372036854775807"), Some(i64::MAX));
    assert_eq!(StoryItem::id_from_url("#item/9223372036854775808"), None);
    assert_eq!(StoryItem::id_from_url("#item/-9223372036854775808"), Some(i64::MIN));
    assert_eq!(StoryItem::id_from_url("#item/-9223372036854775809"), None);
    assert_eq!(StoryItem::id_from_url("#item/0007"), Some(7));
    assert_eq!(StoryItem::id_from_url("#item/ 7"), None);
    assert_eq!(StoryItem::id_from_url("#user/7"), None);
    assert_eq!(StoryItem::to_url(8863), "#item/8863");
    assert_eq!(StoryItem::to_url(-1), "#item/-1");
    assert_eq!(StoryItem::to_url(0), "#item/0");
    assert_eq!(StoryItem::to_url(i64::MIN), "#item/-9223372036854775808");
    assert_eq!(StoryItem::to_url(i64::MAX), "#item/9223372036854775807");
}

#[test]
fn user_name_from_address() {
    assert_eq!(UserData::id_from_url("#user/pg"), Some("pg".to_string()));
    assert_eq!(UserData::id_from_url("user/pg"), Some("pg".to_string()));
    assert_eq!(UserData::id_from_url("/user/pg"), Some("pg".to_string()));
    assert_eq!(UserData::id_from_url("#user/pg/about"), Some("pg".to_string()));
    assert_eq!(UserData::id_from_url("#user/"), Some(String::new()));
    assert_eq!(UserData::id_from_url("#users/pg"), None);
    assert_eq!(UserData::id_from_url("#item/1"), None);
    assert_eq!(UserData::to_url("pg"), "#user/pg");
}

#[test]
fn addresses_lead_back() {
    for id in [0, 1, -1, 10, 99, 100, 123456789, i64::MAX, i64::MIN] {
        assert_eq!(StoryItem::id_from_url(&StoryItem::to_url(id)), Some(id));
        assert_eq!(Comment::id_from_url(&Comment::to_url(id)), Some(id));
    }
    assert_eq!(UserData::id_from_url(&UserData::to_url("dang")), Some("dang".to_string()));
}

#[test]
fn preview_keeps_all_but_the_comments() {
    let page = StoryPageData {
        id: 7,
        title: "A title".to_string(),
        url: Some("http://e.com".to_string()),
        text: None,
        by: "pg".to_string(),
        score: 10,
        descendants: 2,
        time: 1_600_000_000,
        kids: vec![8, 9],
        kind: "story".to_string(),
        comments: vec![Comment {
            id: 8,
            by: "dang".to_string(),
            text: "first".to_string(),
            time: 1_600_000_100,
            kids: vec![],
            sub_comments: vec![],
            kind: "comment".to_string(),
        }],
    };
    assert_eq!(
        page.preview(),
        StoryItem {
            id: 7,
            title: "A title".to_string(),
            url: Some("http://e.com".to_string()),
            text: None,
            by: "pg".to_string(),
            score: 10,
            descendants: 2,
            time: 1_600_000_000,
            kids: vec![8, 9],
            kind: "story".to_string(),
        }
    );
}
