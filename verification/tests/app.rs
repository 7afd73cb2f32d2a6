use hackernews::app::{
    fragment_of, hash_for, App, Command, Content, FetchStatus, Msg, Request, Start,
};
use hackernews::types::{Comment, StoryItem, StorySorting, UserData};

fn story(id: i64) -> StoryItem {
    StoryItem {
        id,
        title: "t".to_string(),
        url: None,
        text: None,
        by: "pg".to_string(),
        score: 1,
        descendants: 0,
        time: 0,
        kids: vec![],
        kind: "story".to_string(),
    }
}

#[test]
fn a_new_reader_is_idle() {
    assert_eq!(App::default().content, FetchStatus::Idle);
}

#[test]
fn readers_made_with_content_show_it() {
    assert_eq!(
        App::with_stories(vec![story(1)]).content,
        FetchStatus::Complete(Content::Stories(vec![story(1)]))
    );
    let user = || UserData {
        id: "pg".to_string(),
        karma: 1,
        about: String::new(),
        submitted: vec![],
        stories: vec![],
    };
    assert_eq!(App::with_user_page(user()).content, FetchStatus::Complete(Content::UserPage(user())));
    let comment = || Comment {
        id: 3,
        by: "pg".to_string(),
        text: "x".to_string(),
        time: 0,
        kids: vec![],
        sub_comments: vec![],
        kind: "comment".to_string(),
    };
    assert_eq!(
        App::with_comment_permalink(comment()).content,
        FetchStatus::Complete(Content::CommentPermalink(comment()))
    );
    assert_eq!(Content::from(vec![story(2)]), Content::Stories(vec![story(2)]));
}

#[test]
fn hash_for_each_kind_of_address() {
    assert_eq!(hash_for("#top"), "#top");
    assert_eq!(hash_for("/"), "");
    assert_eq!(hash_for("/item/5"), "#item/5");
    assert_eq!(hash_for("//item/5"), "#item/5");
    assert_eq!(hash_for("item/5"), "#item/5");
    assert_eq!(hash_for(""), "#");
    assert_eq!(hash_for("//"), "#");
}

#[test]
fn fragment_of_an_address() {
    assert_eq!(fragment_of("http://h/#item/5"), "#item/5");
    assert_eq!(fragment_of("#top"), "#top");
    assert_eq!(fragment_of("a#b#c"), "#b");
    assert_eq!(fragment_of("a#"), "#");
    assert_eq!(fragment_of("/item/5"), "");
    assert_eq!(fragment_of(""), "");
}

#[test]
fn init_opens_the_address_or_fetches() {
    assert_eq!(App::default().init("#item/5"), Start::Open("#item/5".to_string()));
    assert_eq!(App::default().init(""), Start::Fetch(Request::Stories));
    assert_eq!(App::with_stories(vec![]).init(""), Start::Nothing);
}

#[test]
fn update_on_navigation_messages() {
    let mut app = App::default();
    assert_eq!(
        app.update(Msg::FetchStories),
        vec![Command::SetHash(String::new()), Command::Fetch(Request::Stories)]
    );
    assert_eq!(app.content, FetchStatus::Loading);
    assert_eq!(
        app.update(Msg::FetchStoriesSorted(StorySorting::Ask)),
        vec![
            Command::SetHash("#ask".to_string()),
            Command::Fetch(Request::StoriesSorted(StorySorting::Ask)),
        ]
    );
    assert_eq!(
        app.update(Msg::OpenStory(8863)),
        vec![Command::SetHash("#item/8863".to_string()), Command::Fetch(Request::Story(8863))]
    );
    assert_eq!(
        app.update(Msg::ShowUserPage("pg".to_string())),
        vec![
            Command::SetHash("#user/pg".to_string()),
            Command::Fetch(Request::User("pg".to_string())),
        ]
    );
    assert_eq!(
        app.update(Msg::ShowCommentPermalink(17)),
        vec![Command::SetHash("#comment/17".to_string()), Command::Fetch(Request::Comment(17))]
    );
    assert_eq!(app.content, FetchStatus::Loading);
}

#[test]
fn update_on_what_fetching_brings() {
    let mut app = App::default();
    assert_eq!(
        app.update(Msg::ReceivedContent(Content::Stories(vec![story(1)]))),
        vec![Command::ScrollToTop]
    );
    assert_eq!(app.content, FetchStatus::Complete(Content::Stories(vec![story(1)])));
    assert_eq!(app.update(Msg::NoOp), vec![]);
    assert_eq!(app.content, FetchStatus::Complete(Content::Stories(vec![story(1)])));
    assert_eq!(app.update(Msg::RequestError("no net".to_string())), vec![]);
    assert_eq!(app.content, FetchStatus::Error("no net".to_string()));
}

#[test]
fn update_on_a_changed_address() {
    let cases: Vec<(&str, Vec<Command>)> = vec![
        ("#best", vec![Command::Fetch(Request::StoriesSorted(StorySorting::Best))]),
        ("http://h/#item/5", vec![Command::Fetch(Request::Story(5))]),
        ("#comment/6", vec![Command::Fetch(Request::Comment(6))]),
        ("#user/pg", vec![Command::Fetch(Request::User("pg".to_string()))]),
        ("", vec![Command::Fetch(Request::Stories)]),
        ("/item/5", vec![Command::Fetch(Request::Stories)]),
        ("#", vec![Command::Fetch(Request::Stories)]),
        ("#item/x", vec![]),
        ("#nowhere", vec![]),
    ];
    for (url, mut expected) in cases {
        let mut app = App::default();
        expected.push(Command::ScrollToTop);
        assert_eq!(app.update(Msg::UrlChanged(url.to_string())), expected, "{:?}", url);
        assert_eq!(app.content, FetchStatus::Loading);
    }
}
