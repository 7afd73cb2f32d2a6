//! The records of the reader and the addresses under which they are shown.

use crate::decimal::{decimal, decimal_chars, lemma_decimal_written, parse_i64, written_i64};
use crate::text::{
    append, chars_of, find_char, index_from, lemma_index_from, same, stands_at, starts_with,
    string_of,
};
use vstd::prelude::*;
use vstd::slice::{slice_subrange, slice_to_vec};
use vstd::string::StringExecFns;

verus! {

/// The orders in which stories can be listed.
#[derive(Copy, Clone, Debug, PartialEq, Eq, Structural)]
pub enum StorySorting {
    Top,
    New,
    Best,
    Show,
    Ask,
    Job,
}

impl StorySorting {
    /// The name of this order, as it stands in addresses.
    pub open spec fn name(self) -> Seq<char> {
        match self {
            StorySorting::Top => "top"@,
            StorySorting::Best => "best"@,
            StorySorting::New => "new"@,
            StorySorting::Show => "show"@,
            StorySorting::Ask => "ask"@,
            StorySorting::Job => "job"@,
        }
    }

    /// The address of the listing in this order: `#` and the name.
    pub open spec fn url(self) -> Seq<char> {
        "#"@ + self.name()
    }

    /// All orders, as they are offered to the reader.
    pub open spec fn listing() -> Seq<StorySorting> {
        seq![
            StorySorting::Top,
            StorySorting::Best,
            StorySorting::New,
            StorySorting::Show,
            StorySorting::Ask,
            StorySorting::Job,
        ]
    }

    /// Whether `url` addresses the listing in this order, with or without
    /// the leading `#`.
    pub open spec fn addressed_by(self, url: Seq<char>) -> bool {
        url == self.name() || url == self.url()
    }

    /// The order that `url` addresses, if any.
    pub open spec fn at(url: Seq<char>) -> Option<StorySorting> {
        if StorySorting::Top.addressed_by(url) {
            Some(StorySorting::Top)
        } else if StorySorting::Best.addressed_by(url) {
            Some(StorySorting::Best)
        } else if StorySorting::New.addressed_by(url) {
            Some(StorySorting::New)
        } else if StorySorting::Show.addressed_by(url) {
            Some(StorySorting::Show)
        } else if StorySorting::Ask.addressed_by(url) {
            Some(StorySorting::Ask)
        } else if StorySorting::Job.addressed_by(url) {
            Some(StorySorting::Job)
        } else {
            None
        }
    }

    /// No address belongs to two orders.
    pub proof fn lemma_addresses_differ(a: StorySorting, b: StorySorting, url: Seq<char>)
        requires
            a.addressed_by(url),
            b.addressed_by(url),
        ensures
            a == b,
    {
        reveal_strlit("top");
        reveal_strlit("best");
        reveal_strlit("new");
        reveal_strlit("show");
        reveal_strlit("ask");
        reveal_strlit("job");
        reveal_strlit("#");
        assert(a.url()[0] == '#' && b.url()[0] == '#');
        assert(a.name()[0] != '#' && b.name()[0] != '#');
        if url == a.name() {
            assert(url == b.name());
            assert(a.name().len() == b.name().len());
            assert(a.name()[0] == b.name()[0]);
            assert(a.name()[1] == b.name()[1]);
        } else {
            assert(url == b.url());
            assert(a.url().len() == b.url().len());
            assert(a.url()[1] == b.url()[1]);
            assert(a.url()[2] == b.url()[2]);
        }
    }

    /// All orders, as they are offered to the reader.
    pub fn all() -> (list: Vec<Self>)
        ensures
            list@ == Self::listing(),
    {
        let list = vec![
            StorySorting::Top,
            StorySorting::Best,
            StorySorting::New,
            StorySorting::Show,
            StorySorting::Ask,
            StorySorting::Job,
        ];
        assert(list@ == Self::listing());
        list
    }

    /// The order that `url` addresses, if any. An address is the name of an
    /// order, alone or after one `#`.
    pub fn from_url(url: &str) -> (found: Option<Self>)
        ensures
            forall|order: StorySorting| found == Some(order) <==> order.addressed_by(url@),
            found == Self::at(url@),
    {
        let address = chars_of(url);
        let orders = Self::all();
        let mut i: usize = 0;
        while i < orders.len()
            invariant
                i <= orders.len(),
                orders@ == Self::listing(),
                address@ == url@,
                forall|j: int| 0 <= j < i ==> !(#[trigger] orders@[j]).addressed_by(url@),
            decreases orders.len() - i,
        {
            let order = orders[i];
            let name = chars_of(order.to_str());
            let full = chars_of(order.to_url().as_str());
            if same(address.as_slice(), name.as_slice()) || same(address.as_slice(), full.as_slice()) {
                proof {
                    assert forall|other: StorySorting| other.addressed_by(url@) implies other
                        == order by {
                        Self::lemma_addresses_differ(other, order, url@);
                    }
                }
                return Some(order);
            }
            i += 1;
        }
        proof {
            assert forall|order: StorySorting| !order.addressed_by(url@) by {
                let k = choose|k: int| 0 <= k < 6 && Self::listing()[k] == order;
                assert(orders@[k] == order);
            }
        }
        None
    }

    /// The name of this order, as it stands in addresses.
    pub fn to_str(&self) -> (name: &'static str)
        ensures
            name@ == self.name(),
    {
        match self {
            StorySorting::Top => "top",
            StorySorting::Best => "best",
            StorySorting::New => "new",
            StorySorting::Show => "show",
            StorySorting::Ask => "ask",
            StorySorting::Job => "job",
        }
    }

    /// The address of the listing in this order.
    pub fn to_url(&self) -> (url: String)
        ensures
            url@ == self.url(),
    {
        let mut url = String::from_str("#");
        url.append(self.to_str());
        url
    }
}

impl Default for StorySorting {
    /// Stories are listed by rank unless the reader asks otherwise.
    fn default() -> (order: Self)
        ensures
            order == StorySorting::Top,
    {
        StorySorting::Top
    }
}

/// A story with its comments. `time` counts the seconds since the start of
/// 1970.
#[derive(Debug, PartialEq)]
pub struct StoryPageData {
    pub id: i64,
    pub title: String,
    pub url: Option<String>,
    pub text: Option<String>,
    pub by: String,
    pub score: i64,
    pub descendants: i64,
    pub time: i64,
    pub kids: Vec<i64>,
    pub kind: String,
    pub comments: Vec<Comment>,
}

/// A comment with the comments made on it. Where the comment was deleted,
/// `by` is empty.
#[derive(Debug, PartialEq)]
pub struct Comment {
    pub id: i64,
    pub by: String,
    pub text: String,
    pub time: i64,
    pub kids: Vec<i64>,
    pub sub_comments: Vec<Comment>,
    pub kind: String,
}

/// A story as it is shown in a listing.
#[derive(Debug, PartialEq)]
pub struct StoryItem {
    pub id: i64,
    pub title: String,
    pub url: Option<String>,
    pub text: Option<String>,
    pub by: String,
    pub score: i64,
    pub descendants: i64,
    pub time: i64,
    pub kids: Vec<i64>,
    pub kind: String,
}

/// A user with the stories they submitted.
#[derive(Debug, PartialEq)]
pub struct UserData {
    pub id: String,
    pub karma: i64,
    pub about: String,
    pub submitted: Vec<i64>,
    pub stories: Vec<StoryItem>,
}

/// The character sequence of an optional string.
pub open spec fn text_of(text: Option<String>) -> Option<Seq<char>> {
    match text {
        Some(text) => Some(text@),
        None => None,
    }
}

/// The character sequence of an optional vector of characters.
pub open spec fn chars_view(chars: Option<Vec<char>>) -> Option<Seq<char>> {
    match chars {
        Some(chars) => Some(chars@),
        None => None,
    }
}

/// The part of an address behind one leading `#`, or all of it where it has
/// none.
pub open spec fn behind_hash(url: Seq<char>) -> Seq<char> {
    if url.len() > 0 && url[0] == '#' {
        url.subrange(1, url.len() as int)
    } else {
        url
    }
}

/// The stretch of `s` from `from` up to the next `/`, or to the end.
pub open spec fn segment(s: Seq<char>, from: int) -> Seq<char> {
    match index_from(s, '/', from) {
        Some(end) => s.subrange(from, end),
        None => s.subrange(from, s.len() as int),
    }
}

/// Whether `url` is an address by path for records of `kind` that lacks the
/// second `/` behind which the key stands.
pub open spec fn lacks_key(url: Seq<char>, kind: Seq<char>) -> bool {
    starts_with(url, seq!['/'] + kind) && index_from(url, '/', 1) is None
}

/// The key that `url` holds for a record of `kind`. In an address by hash,
/// which is `kind` and `/` behind at most one `#`, the key runs from there to
/// the next `/`. In an address by path, which begins with `/` and `kind`, the
/// key stands behind the second `/` and runs to the third.
pub open spec fn key_of(url: Seq<char>, kind: Seq<char>) -> Option<Seq<char>> {
    let target = behind_hash(url);
    if starts_with(target, kind.push('/')) {
        Some(segment(target, kind.len() as int + 1))
    } else if starts_with(url, seq!['/'] + kind) {
        match index_from(url, '/', 1) {
            Some(second) => Some(segment(url, second + 1)),
            None => None,
        }
    } else {
        None
    }
}

/// The number that `url` holds as its key for a record of `kind`.
pub open spec fn number_of(url: Seq<char>, kind: Seq<char>) -> Option<i64> {
    match key_of(url, kind) {
        Some(key) => written_i64(key),
        None => None,
    }
}

/// The stretch of `s` from `from` up to the next `/`, or to the end.
fn segment_chars(s: &[char], from: usize) -> (part: Vec<char>)
    requires
        from <= s.len(),
    ensures
        part@ == segment(s@, from as int),
{
    proof {
        lemma_index_from(s@, '/', from as int);
    }
    match find_char(s, '/', from) {
        Some(end) => slice_to_vec(slice_subrange(s, from, end)),
        None => slice_to_vec(slice_subrange(s, from, s.len())),
    }
}

/// The key that `url` holds for a record of `kind`.
fn key_chars(url: &[char], kind: &str) -> (key: Option<Vec<char>>)
    requires
        !lacks_key(url@, kind@),
    ensures
        chars_view(key) == key_of(url@, kind@),
{
    let kind = chars_of(kind);
    let mut by_hash: Vec<char> = Vec::new();
    append(&mut by_hash, kind.as_slice());
    by_hash.push('/');
    let mut by_path: Vec<char> = Vec::new();
    by_path.push('/');
    append(&mut by_path, kind.as_slice());
    assert(by_hash@ == kind@.push('/'));
    assert(by_path@ == seq!['/'] + kind@);
    let target = if url.len() > 0 && url[0] == '#' {
        slice_subrange(url, 1, url.len())
    } else {
        url
    };
    if stands_at(target, by_hash.as_slice(), 0) {
        Some(segment_chars(target, by_hash.len()))
    } else if stands_at(url, by_path.as_slice(), 0) {
        proof {
            lemma_index_from(url@, '/', 1);
        }
        match find_char(url, '/', 1) {
            Some(second) => Some(segment_chars(url, second + 1)),
            None => None,
        }
    } else {
        None
    }
}

/// The address made of `head` and `key`.
fn address(head: &str, key: &[char]) -> (url: String)
    ensures
        url@ == head@ + key@,
{
    let mut url = chars_of(head);
    append(&mut url, key);
    string_of(url.as_slice())
}

impl StoryPageData {
    /// The story as it is shown in a listing: all but its comments.
    pub fn preview(&self) -> (item: StoryItem)
        ensures
            item.id == self.id,
            item.title@ == self.title@,
            text_of(item.url) == text_of(self.url),
            text_of(item.text) == text_of(self.text),
            item.by@ == self.by@,
            item.score == self.score,
            item.descendants == self.descendants,
            item.time == self.time,
            item.kids@ == self.kids@,
            item.kind@ == self.kind@,
    {
        StoryItem {
            id: self.id,
            title: self.title.clone(),
            url: copy_of(&self.url),
            text: copy_of(&self.text),
            by: self.by.clone(),
            score: self.score,
            descendants: self.descendants,
            time: self.time,
            kids: slice_to_vec(self.kids.as_slice()),
            kind: self.kind.clone(),
        }
    }
}

/// A copy of an optional string.
fn copy_of(text: &Option<String>) -> (copy: Option<String>)
    ensures
        text_of(copy) == text_of(*text),
{
    match text {
        Some(text) => Some(text.clone()),
        None => None,
    }
}

impl Comment {
    /// The number of the comment that `url` addresses: the key that it holds
    /// for a comment, where that writes a number. An address by path must
    /// hold its second `/`.
    pub fn id_from_url(url: &str) -> (id: Option<i64>)
        requires
            !lacks_key(url@, "comment"@),
        ensures
            id == number_of(url@, "comment"@),
    {
        let url = chars_of(url);
        match key_chars(url.as_slice(), "comment") {
            Some(key) => parse_i64(key.as_slice()),
            None => None,
        }
    }

    /// The address of the comment with the number `comment_id`.
    pub fn to_url(comment_id: i64) -> (url: String)
        ensures
            url@ == "#comment/"@ + decimal(comment_id as int),
    {
        let key = decimal_chars(comment_id);
        address("#comment/", key.as_slice())
    }
}

impl StoryItem {
    /// The number of the story that `url` addresses: the key that it holds
    /// for an item, where that writes a number. An address by path must hold
    /// its second `/`.
    pub fn id_from_url(url: &str) -> (id: Option<i64>)
        requires
            !lacks_key(url@, "item"@),
        ensures
            id == number_of(url@, "item"@),
    {
        let url = chars_of(url);
        match key_chars(url.as_slice(), "item") {
            Some(key) => parse_i64(key.as_slice()),
            None => None,
        }
    }

    /// The address of the story with the number `story_id`.
    pub fn to_url(story_id: i64) -> (url: String)
        ensures
            url@ == "#item/"@ + decimal(story_id as int),
    {
        let key = decimal_chars(story_id);
        address("#item/", key.as_slice())
    }
}

impl UserData {
    /// The name of the user that `url` addresses: the key that it holds for
    /// a user. An address by path must hold its second `/`.
    pub fn id_from_url(url: &str) -> (id: Option<String>)
        requires
            !lacks_key(url@, "user"@),
        ensures
            text_of(id) == key_of(url@, "user"@),
    {
        let url = chars_of(url);
        match key_chars(url.as_slice(), "user") {
            Some(key) => Some(string_of(key.as_slice())),
            None => None,
        }
    }

    /// The address of the user with the name `username`.
    pub fn to_url(username: &str) -> (url: String)
        ensures
            url@ == "#user/"@ + username@,
    {
        let key = chars_of(username);
        address("#user/", key.as_slice())
    }
}

/// The address by hash of a record leads back to its key: where `key` holds
/// no `/`, it is the key that `#`, `kind`, `/` and `key` hold for `kind`.
pub proof fn lemma_address_leads_back(kind: Seq<char>, key: Seq<char>)
    requires
        forall|i: int| 0 <= i < key.len() ==> (#[trigger] key[i]) != '/',
    ensures
        key_of(seq!['#'] + kind.push('/') + key, kind) == Some(key),
{
    let url = seq!['#'] + kind.push('/') + key;
    let target = behind_hash(url);
    let from = kind.len() as int + 1;
    assert(target == kind.push('/') + key);
    assert(target.subrange(0, from) == kind.push('/'));
    lemma_index_from(target, '/', from);
    assert(index_from(target, '/', from) is None) by {
        if let Some(end) = index_from(target, '/', from) {
            assert(target[end] == key[end - from]);
        }
    }
    assert(target.subrange(from, target.len() as int) == key);
}

/// The address of a story leads back to the story.
pub proof fn lemma_story_leads_back(id: i64)
    ensures
        number_of("#item/"@ + decimal(id as int), "item"@) == Some(id),
{
    let key = decimal(id as int);
    lemma_decimal_written(id as int);
    lemma_address_leads_back("item"@, key);
    assert("#item/"@ == seq!['#'] + "item"@.push('/')) by {
        reveal_strlit("#item/");
        reveal_strlit("item");
    }
}

/// The address of a comment leads back to the comment.
pub proof fn lemma_comment_leads_back(id: i64)
    ensures
        number_of("#comment/"@ + decimal(id as int), "comment"@) == Some(id),
{
    let key = decimal(id as int);
    lemma_decimal_written(id as int);
    lemma_address_leads_back("comment"@, key);
    assert("#comment/"@ == seq!['#'] + "comment"@.push('/')) by {
        reveal_strlit("#comment/");
        reveal_strlit("comment");
    }
}

} // verus!
