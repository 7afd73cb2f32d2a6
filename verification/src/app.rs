//! The state of the reader and what it does on each message. The decisions
//! are made here; fetching, scrolling and the address bar are left to the
//! caller, who performs the commands and hands back what they bring.

use crate::decimal::decimal;
use crate::text::{append, chars_of, find_char, index_from, lemma_index_from, same, string_of};
use crate::types::{
    key_of, lacks_key, number_of, Comment, StoryItem, StoryPageData, StorySorting, UserData,
};
use vstd::prelude::*;
use vstd::slice::slice_subrange;
use vstd::std_specs::convert::FromSpecImpl;

verus! {

/// How far the fetching of what is to be shown has come.
#[derive(Debug, PartialEq)]
pub enum FetchStatus<T> {
    Idle,
    Loading,
    Complete(T),
    Error(String),
}

/// What the reader can show.
#[derive(Debug, PartialEq)]
pub enum Content {
    Stories(Vec<StoryItem>),
    StoryPage(StoryPageData),
    CommentPermalink(Comment),
    UserPage(UserData),
}

impl From<Vec<StoryItem>> for Content {
    fn from(stories: Vec<StoryItem>) -> (content: Self) {
        Content::Stories(stories)
    }
}

impl FromSpecImpl<Vec<StoryItem>> for Content {
    open spec fn obeys_from_spec() -> bool {
        true
    }

    open spec fn from_spec(stories: Vec<StoryItem>) -> Self {
        Content::Stories(stories)
    }
}

impl From<StoryPageData> for Content {
    fn from(story_page: StoryPageData) -> (content: Self) {
        Content::StoryPage(story_page)
    }
}

impl FromSpecImpl<StoryPageData> for Content {
    open spec fn obeys_from_spec() -> bool {
        true
    }

    open spec fn from_spec(story_page: StoryPageData) -> Self {
        Content::StoryPage(story_page)
    }
}

impl From<Comment> for Content {
    fn from(comment: Comment) -> (content: Self) {
        Content::CommentPermalink(comment)
    }
}

impl FromSpecImpl<Comment> for Content {
    open spec fn obeys_from_spec() -> bool {
        true
    }

    open spec fn from_spec(comment: Comment) -> Self {
        Content::CommentPermalink(comment)
    }
}

impl From<UserData> for Content {
    fn from(user_data: UserData) -> (content: Self) {
        Content::UserPage(user_data)
    }
}

impl FromSpecImpl<UserData> for Content {
    open spec fn obeys_from_spec() -> bool {
        true
    }

    open spec fn from_spec(user_data: UserData) -> Self {
        Content::UserPage(user_data)
    }
}

/// What can happen to the reader.
#[derive(Debug, PartialEq)]
pub enum Msg {
    FetchStories,
    FetchStoriesSorted(StorySorting),
    OpenStory(i64),
    /// Show the page of the user with this name.
    ShowUserPage(String),
    ShowCommentPermalink(i64),
    /// What was fetched has come.
    ReceivedContent(Content),
    /// Fetching failed; the text says how.
    RequestError(String),
    /// The address changed to this one.
    UrlChanged(String),
    NoOp,
}

/// What the reader asks to be fetched.
#[derive(Debug, PartialEq)]
pub enum Request {
    Stories,
    StoriesSorted(StorySorting),
    Story(i64),
    Comment(i64),
    User(String),
}

/// What the reader asks its caller to do.
#[derive(Debug, PartialEq)]
pub enum Command {
    /// Put this behind the `#` of the address.
    SetHash(String),
    /// Fetch this, and come back with `ReceivedContent` or `RequestError`.
    Fetch(Request),
    ScrollToTop,
}

/// The mathematical value of a request.
pub enum RequestView {
    Stories,
    StoriesSorted(StorySorting),
    Story(i64),
    Comment(i64),
    User(Seq<char>),
}

/// The mathematical value of a command.
pub enum CommandView {
    SetHash(Seq<char>),
    Fetch(RequestView),
    ScrollToTop,
}

impl View for Request {
    type V = RequestView;

    open spec fn view(&self) -> RequestView {
        match self {
            Request::Stories => RequestView::Stories,
            Request::StoriesSorted(order) => RequestView::StoriesSorted(*order),
            Request::Story(id) => RequestView::Story(*id),
            Request::Comment(id) => RequestView::Comment(*id),
            Request::User(name) => RequestView::User(name@),
        }
    }
}

impl View for Command {
    type V = CommandView;

    open spec fn view(&self) -> CommandView {
        match self {
            Command::SetHash(hash) => CommandView::SetHash(hash@),
            Command::Fetch(request) => CommandView::Fetch(request@),
            Command::ScrollToTop => CommandView::ScrollToTop,
        }
    }
}

/// The values of a list of commands.
pub open spec fn commands_view(commands: Seq<Command>) -> Seq<CommandView> {
    commands.map_values(|command: Command| command@)
}

/// The value of an optional request.
pub open spec fn request_view(request: Option<Request>) -> Option<RequestView> {
    match request {
        Some(request) => Some(request@),
        None => None,
    }
}

/// `s` without the `c`s that it begins with.
pub open spec fn without_leading(s: Seq<char>, c: char) -> Seq<char>
    decreases s.len(),
{
    if s.len() > 0 && s[0] == c {
        without_leading(s.drop_first(), c)
    } else {
        s
    }
}

/// What is put behind the address to show `url`: `url` itself where it
/// begins with `#`, nothing for `/`, and else `#` and `url` without the
/// slashes that it begins with.
pub open spec fn hash_of(url: Seq<char>) -> Seq<char> {
    if url.len() > 0 && url[0] == '#' {
        url
    } else if url == seq!['/'] {
        Seq::empty()
    } else {
        seq!['#'] + without_leading(url, '/')
    }
}

/// The part of an address that says what to show: from its first `#` up
/// to its second, or to its end. An address without `#` has none.
pub open spec fn fragment(url: Seq<char>) -> Seq<char> {
    match index_from(url, '#', 0) {
        Some(first) => match index_from(url, '#', first + 1) {
            Some(second) => url.subrange(first, second),
            None => url.subrange(first, url.len() as int),
        },
        None => Seq::empty(),
    }
}

/// What is fetched for the part `hash` of an address: a listing in the
/// order that it names; else the story, the comment or the user whose key
/// it holds; else, where it is empty or a bare `#`, the listing by rank; else
/// nothing.
pub open spec fn route(hash: Seq<char>) -> Option<RequestView> {
    if let Some(order) = StorySorting::at(hash) {
        Some(RequestView::StoriesSorted(order))
    } else if let Some(id) = number_of(hash, "item"@) {
        Some(RequestView::Story(id))
    } else if let Some(id) = number_of(hash, "comment"@) {
        Some(RequestView::Comment(id))
    } else if let Some(name) = key_of(hash, "user"@) {
        Some(RequestView::User(name))
    } else if hash.len() == 0 || hash == seq!['#'] {
        Some(RequestView::Stories)
    } else {
        None
    }
}

/// The command to fetch, where there is something to fetch.
pub open spec fn fetching(request: Option<RequestView>) -> Seq<CommandView> {
    match request {
        Some(request) => seq![CommandView::Fetch(request)],
        None => Seq::empty(),
    }
}

/// The commands that a message calls for.
pub open spec fn commands_for(msg: Msg) -> Seq<CommandView> {
    match msg {
        Msg::FetchStories => seq![
            CommandView::SetHash(hash_of(seq!['/'])),
            CommandView::Fetch(RequestView::Stories),
        ],
        Msg::FetchStoriesSorted(order) => seq![
            CommandView::SetHash(hash_of(order.url())),
            CommandView::Fetch(RequestView::StoriesSorted(order)),
        ],
        Msg::OpenStory(id) => seq![
            CommandView::SetHash(hash_of("#item/"@ + decimal(id as int))),
            CommandView::Fetch(RequestView::Story(id)),
        ],
        Msg::ShowUserPage(name) => seq![
            CommandView::SetHash(hash_of("#user/"@ + name@)),
            CommandView::Fetch(RequestView::User(name@)),
        ],
        Msg::ShowCommentPermalink(id) => seq![
            CommandView::SetHash(hash_of("#comment/"@ + decimal(id as int))),
            CommandView::Fetch(RequestView::Comment(id)),
        ],
        Msg::ReceivedContent(_) => seq![CommandView::ScrollToTop],
        Msg::RequestError(_) => Seq::empty(),
        Msg::UrlChanged(url) => fetching(route(fragment(url@))) + seq![CommandView::ScrollToTop],
        Msg::NoOp => Seq::empty(),
    }
}

/// What the reader shows after a message.
pub open spec fn content_after(content: FetchStatus<Content>, msg: Msg) -> FetchStatus<Content> {
    match msg {
        Msg::ReceivedContent(content) => FetchStatus::Complete(content),
        Msg::RequestError(error) => FetchStatus::Error(error),
        Msg::NoOp => content,
        _ => FetchStatus::Loading,
    }
}

/// What the reader does first, before any message.
#[derive(Debug, PartialEq)]
pub enum Start {
    /// Take this address as the one to show.
    Open(String),
    /// Have this fetched.
    Fetch(Request),
    Nothing,
}

/// What is put behind the address to show `url`.
pub fn hash_for(url: &str) -> (hash: String)
    ensures
        hash@ == hash_of(url@),
{
    let chars = chars_of(url);
    let s = chars.as_slice();
    if s.len() > 0 && s[0] == '#' {
        return string_of(s);
    }
    if s.len() == 1 && s[0] == '/' {
        assert(url@ == seq!['/']);
        return String::new();
    }
    let mut start: usize = 0;
    assert(s@.subrange(0, s.len() as int) == s@);
    while start < s.len() && s[start] == '/'
        invariant
            start <= s.len(),
            without_leading(s@.subrange(start as int, s.len() as int), '/') == without_leading(
                s@,
                '/',
            ),
        decreases s.len() - start,
    {
        assert(s@.subrange(start as int, s.len() as int).drop_first() == s@.subrange(
            start + 1,
            s.len() as int,
        ));
        start += 1;
    }
    let mut hash: Vec<char> = Vec::new();
    hash.push('#');
    append(&mut hash, slice_subrange(s, start, s.len()));
    string_of(hash.as_slice())
}

/// The part of `url` that says what to show.
pub fn fragment_of(url: &str) -> (hash: String)
    ensures
        hash@ == fragment(url@),
{
    let chars = chars_of(url);
    let s = chars.as_slice();
    match find_char(s, '#', 0) {
        Some(first) => {
            proof {
                lemma_index_from(s@, '#', 0);
                lemma_index_from(s@, '#', first + 1);
            }
            match find_char(s, '#', first + 1) {
                Some(second) => string_of(slice_subrange(s, first, second)),
                None => string_of(slice_subrange(s, first, s.len())),
            }
        },
        None => String::new(),
    }
}

/// The part of an address that says what to show is empty or begins with
/// `#`, so it never lacks a key.
pub proof fn lemma_fragment(url: Seq<char>, kind: Seq<char>)
    ensures
        fragment(url).len() == 0 || fragment(url)[0] == '#',
        !lacks_key(fragment(url), kind),
{
    lemma_index_from(url, '#', 0);
    match index_from(url, '#', 0) {
        Some(first) => {
            lemma_index_from(url, '#', first + 1);
            let hash = fragment(url);
            assert(hash[0] == url[first]);
            if lacks_key(hash, kind) {
                assert(hash.subrange(0, 1 + kind.len() as int)[0] == (seq!['/'] + kind)[0]);
            }
        },
        None => {
            if lacks_key(fragment(url), kind) {
                assert((seq!['/'] + kind).len() > 0);
            }
        },
    }
}

/// What is fetched for the part `hash` of an address.
fn route_for(hash: &str) -> (request: Option<Request>)
    requires
        !lacks_key(hash@, "item"@),
        !lacks_key(hash@, "comment"@),
        !lacks_key(hash@, "user"@),
    ensures
        request_view(request) == route(hash@),
{
    if let Some(order) = StorySorting::from_url(hash) {
        return Some(Request::StoriesSorted(order));
    }
    if let Some(id) = StoryItem::id_from_url(hash) {
        return Some(Request::Story(id));
    }
    if let Some(id) = Comment::id_from_url(hash) {
        return Some(Request::Comment(id));
    }
    if let Some(name) = UserData::id_from_url(hash) {
        return Some(Request::User(name));
    }
    let chars = chars_of(hash);
    let bare = chars_of("#");
    proof {
        reveal_strlit("#");
        assert("#"@ == seq!['#']);
    }
    if chars.len() == 0 || same(chars.as_slice(), bare.as_slice()) {
        Some(Request::Stories)
    } else {
        None
    }
}

/// The reader: what it shows, or how far fetching it has come.
#[derive(Debug, PartialEq)]
pub struct App {
    pub content: FetchStatus<Content>,
}

impl Default for App {
    /// A reader that has not begun to fetch.
    fn default() -> (app: Self)
        ensures
            app.content == FetchStatus::<Content>::Idle,
    {
        App { content: FetchStatus::Idle }
    }
}

impl App {
    /// A reader that shows a listing of stories.
    pub fn with_stories(stories: Vec<StoryItem>) -> (app: Self)
        ensures
            app.content == FetchStatus::Complete(Content::Stories(stories)),
    {
        App { content: FetchStatus::Complete(Content::from(stories)) }
    }

    /// A reader that shows a story with its comments.
    pub fn with_story(story_page: StoryPageData) -> (app: Self)
        ensures
            app.content == FetchStatus::Complete(Content::StoryPage(story_page)),
    {
        App { content: FetchStatus::Complete(Content::from(story_page)) }
    }

    /// A reader that shows a user.
    pub fn with_user_page(user_data: UserData) -> (app: Self)
        ensures
            app.content == FetchStatus::Complete(Content::UserPage(user_data)),
    {
        App { content: FetchStatus::Complete(Content::from(user_data)) }
    }

    /// A reader that shows one comment.
    pub fn with_comment_permalink(comment: Comment) -> (app: Self)
        ensures
            app.content == FetchStatus::Complete(Content::CommentPermalink(comment)),
    {
        App { content: FetchStatus::Complete(Content::from(comment)) }
    }

    /// What the reader does first, given what stands behind the `#` of the
    /// address, with the `#`: where something stands there, it is taken as
    /// the address to show; else the listing by rank is fetched, unless the
    /// reader was made with something to show.
    pub fn init(&self, hash: &str) -> (start: Start)
        ensures
            match start {
                Start::Open(url) => hash@.len() > 0 && url@ == hash@,
                Start::Fetch(request) => {
                    &&& hash@.len() == 0
                    &&& self.content is Idle
                    &&& request == Request::Stories
                },
                Start::Nothing => hash@.len() == 0 && !(self.content is Idle),
            },
    {
        let chars = chars_of(hash);
        if chars.len() > 0 {
            Start::Open(string_of(chars.as_slice()))
        } else {
            match self.content {
                FetchStatus::Idle => Start::Fetch(Request::Stories),
                _ => Start::Nothing,
            }
        }
    }

    /// Takes a message: says what the reader shows from now on, and what its
    /// caller is to do. Every message that sets out to show something else
    /// leaves the reader loading.
    pub fn update(&mut self, msg: Msg) -> (commands: Vec<Command>)
        ensures
            final(self).content == content_after(old(self).content, msg),
            commands_view(commands@) == commands_for(msg),
    {
        let mut commands: Vec<Command> = Vec::new();
        match msg {
            Msg::FetchStories => {
                self.content = FetchStatus::Loading;
                proof {
                    reveal_strlit("/");
                    assert("/"@ == seq!['/']);
                }
                commands.push(Command::SetHash(hash_for("/")));
                commands.push(Command::Fetch(Request::Stories));
            },
            Msg::FetchStoriesSorted(order) => {
                self.content = FetchStatus::Loading;
                commands.push(Command::SetHash(hash_for(order.to_url().as_str())));
                commands.push(Command::Fetch(Request::StoriesSorted(order)));
            },
            Msg::OpenStory(id) => {
                self.content = FetchStatus::Loading;
                commands.push(Command::SetHash(hash_for(StoryItem::to_url(id).as_str())));
                commands.push(Command::Fetch(Request::Story(id)));
            },
            Msg::ShowUserPage(name) => {
                self.content = FetchStatus::Loading;
                commands.push(Command::SetHash(hash_for(UserData::to_url(name.as_str()).as_str())));
                commands.push(Command::Fetch(Request::User(name)));
            },
            Msg::ShowCommentPermalink(id) => {
                self.content = FetchStatus::Loading;
                commands.push(Command::SetHash(hash_for(Comment::to_url(id).as_str())));
                commands.push(Command::Fetch(Request::Comment(id)));
            },
            Msg::ReceivedContent(content) => {
                self.content = FetchStatus::Complete(content);
                commands.push(Command::ScrollToTop);
            },
            Msg::RequestError(error) => {
                self.content = FetchStatus::Error(error);
            },
            Msg::UrlChanged(url) => {
                self.content = FetchStatus::Loading;
                let hash = fragment_of(url.as_str());
                proof {
                    lemma_fragment(url@, "item"@);
                    lemma_fragment(url@, "comment"@);
                    lemma_fragment(url@, "user"@);
                }
                if let Some(request) = route_for(hash.as_str()) {
                    commands.push(Command::Fetch(request));
                }
                commands.push(Command::ScrollToTop);
            },
            Msg::NoOp => {},
        }
        assert(commands_view(commands@) == commands_for(msg));
        commands
    }
}

} // verus!
