//! Dates of blog posts and the rss feed of a blog.
use vstd::prelude::*;

use crate::lssg_error::{LssgError, LssgErrorKind};
use crate::markdown::Token;
use crate::modules::{BlogPostOptions, RssOptions};
use crate::sitemap::{escape_xml, escaped};
use crate::sitetree::site_id::SiteId;
use crate::sitetree::site_tree::{absolute_path, SiteTree};
use crate::text::push_str;

verus! {

/// A moment in UTC: whole seconds since the unix epoch and the nanoseconds
/// after them (a leap second counts its nanoseconds past one second).
#[derive(Debug, Clone, Copy, PartialEq, Eq, Structural)]
pub struct Instant {
    pub secs: i64,
    pub nanos: u32,
}

/// Whether `a` comes after `b`.
pub open spec fn later(a: Instant, b: Instant) -> bool {
    a.secs > b.secs || (a.secs == b.secs && a.nanos > b.nanos)
}

/// Whether an optional date comes after another: a missing one comes first.
pub open spec fn later_opt(a: Option<Instant>, b: Option<Instant>) -> bool {
    match (a, b) {
        (Some(x), Some(y)) => later(x, y),
        (Some(_), None) => true,
        _ => false,
    }
}

/// Whether the instant names a time of day that chrono can build: the
/// nanoseconds stay under a second, or under two on the last second of a
/// minute (a leap second).
pub open spec fn valid_instant(t: Instant) -> bool {
    t.nanos < 1_000_000_000 || (t.nanos < 2_000_000_000 && t.secs % 60 == 59)
}

/// Whether the instant falls in the years 0 to 9999, the years that an RFC
/// 2822 date can show.
pub open spec fn rfc2822_year(t: Instant) -> bool {
    -62_167_219_200 <= t.secs <= 253_402_300_799
}

/// The instant that `chrono::DateTime::parse_from_rfc3339` reads from a
/// string, where it reads one.
pub uninterp spec fn rfc3339_instant(s: Seq<char>) -> Option<Instant>;

/// The instant, taken in UTC, that `chrono::NaiveDateTime::parse_from_str`
/// reads from a string with a format, where it reads one.
pub uninterp spec fn naive_datetime_instant(s: Seq<char>, fmt: Seq<char>) -> Option<Instant>;

/// The UTC midnight of the date that `chrono::NaiveDate::parse_from_str`
/// reads from a string with a format, in seconds since the epoch, where it
/// reads one.
pub uninterp spec fn naive_date_midnight(s: Seq<char>, fmt: Seq<char>) -> Option<i64>;

/// The text of `chrono::DateTime::to_rfc2822` for an instant.
pub uninterp spec fn rfc2822_text(t: Instant) -> Seq<char>;

/// The text of `chrono::DateTime::format` with a format, for an instant.
pub uninterp spec fn formatted_date(t: Instant, fmt: Seq<char>) -> Seq<char>;

/// `chrono::DateTime::parse_from_rfc3339`; its result is named
/// `rfc3339_instant`.
#[verifier::external_body]
fn parse_rfc3339(s: &str) -> (r: Option<Instant>)
    ensures
        r == rfc3339_instant(s@),
{
    chrono::DateTime::parse_from_rfc3339(s).ok().map(
        |d| Instant { secs: d.timestamp(), nanos: d.timestamp_subsec_nanos() },
    )
}

/// `chrono::NaiveDateTime::parse_from_str`, taken in UTC; its result is
/// named `naive_datetime_instant`.
#[verifier::external_body]
fn parse_naive_datetime(s: &str, fmt: &str) -> (r: Option<Instant>)
    ensures
        r == naive_datetime_instant(s@, fmt@),
{
    chrono::NaiveDateTime::parse_from_str(s, fmt).ok().map(|n| {
        let d = n.and_utc();
        Instant { secs: d.timestamp(), nanos: d.timestamp_subsec_nanos() }
    })
}

/// `chrono::NaiveDate::parse_from_str`, at UTC midnight; its result is named
/// `naive_date_midnight`.
#[verifier::external_body]
fn parse_naive_date(s: &str, fmt: &str) -> (r: Option<i64>)
    ensures
        r == naive_date_midnight(s@, fmt@),
{
    chrono::NaiveDate::parse_from_str(s, fmt).ok().map(
        |d| d.and_time(chrono::NaiveTime::MIN).and_utc().timestamp(),
    )
}

/// `chrono::DateTime::to_rfc2822` of the instant; its text is named
/// `rfc2822_text`. `chrono::DateTime::from_timestamp` builds the instant,
/// and does so for each valid instant.
#[verifier::external_body]
fn rfc2822_of(t: Instant) -> (r: Option<String>)
    requires
        rfc2822_year(t),
    ensures
        r is Some <==> valid_instant(t),
        r matches Some(s) ==> s@ == rfc2822_text(t),
{
    chrono::DateTime::from_timestamp(t.secs, t.nanos).map(|d| d.to_rfc2822())
}

/// `chrono::DateTime::format` of the instant with a format, as text; the
/// text is named `formatted_date`. `chrono::DateTime::from_timestamp`
/// builds the instant, and does so for each valid instant in the years
/// that an RFC 2822 date can show.
#[verifier::external_body]
fn format_of(t: Instant, fmt: &str) -> (r: Option<String>)
    requires
        rfc2822_year(t),
        fmt@ == "Updated on %B %d, %Y"@ || fmt@ == "Created on %B %d, %Y"@,
    ensures
        r is Some <==> valid_instant(t),
        r matches Some(s) ==> s@ == formatted_date(t, fmt@),
{
    chrono::DateTime::from_timestamp(t.secs, t.nanos).map(|d| d.format(fmt).to_string())
}

/// The date that a string gives, the first of these that reads it: an RFC
/// 3339 date and time, a date and time without zone, a date with the day
/// unpadded, a date.
pub open spec fn date_of(s: Seq<char>) -> Option<Instant> {
    if rfc3339_instant(s) is Some {
        rfc3339_instant(s)
    } else if naive_datetime_instant(s, "%Y-%m-%dT%H:%M:%S"@) is Some {
        naive_datetime_instant(s, "%Y-%m-%dT%H:%M:%S"@)
    } else if naive_date_midnight(s, "%Y-%m-%e"@) is Some {
        Some(Instant { secs: naive_date_midnight(s, "%Y-%m-%e"@)->0, nanos: 0 })
    } else if naive_date_midnight(s, "%Y-%m-%d"@) is Some {
        Some(Instant { secs: naive_date_midnight(s, "%Y-%m-%d"@)->0, nanos: 0 })
    } else {
        None
    }
}

/// Reads a date: an RFC 3339 date and time (`2025-05-08T14:30:00+02:00`), a
/// date and time taken in UTC (`2025-05-08T14:30:00`) or a date at UTC
/// midnight (`2025-05-08`).
pub fn parse_date_string(input: &str) -> (r: Result<Instant, LssgError>)
    ensures
        match date_of(input@) {
            Some(t) => r == Ok::<Instant, LssgError>(t),
            None => r matches Err(e) && e.spec_kind() == LssgErrorKind::ParseError
                && e.spec_message() == "Unknown date format: "@ + input@,
        },
{
    if let Some(t) = parse_rfc3339(input) {
        return Ok(t);
    }
    if let Some(t) = parse_naive_datetime(input, "%Y-%m-%dT%H:%M:%S") {
        return Ok(t);
    }
    if let Some(secs) = parse_naive_date(input, "%Y-%m-%e") {
        return Ok(Instant { secs, nanos: 0 });
    }
    if let Some(secs) = parse_naive_date(input, "%Y-%m-%d") {
        return Ok(Instant { secs, nanos: 0 });
    }
    let mut message = String::new();
    push_str(&mut message, "Unknown date format: ");
    push_str(&mut message, input);
    Err(LssgError::new(message.as_str(), LssgErrorKind::ParseError))
}


/// When a post was created and last changed.
#[derive(Debug, Clone, Copy, PartialEq, Eq, Structural)]
pub struct BlogPostDates {
    pub modified_on: Option<Instant>,
    pub created_on: Option<Instant>,
}

impl Default for BlogPostDates {
    fn default() -> (d: Self)
        ensures
            d.modified_on is None,
            d.created_on is None,
    {
        BlogPostDates { modified_on: None, created_on: None }
    }
}

/// The date that an optional string gives.
pub open spec fn date_of_opt(s: Option<String>) -> Option<Instant> {
    match s {
        Some(x) => date_of(x@),
        None => None,
    }
}

/// The date that the file's modification time gives, where it was read.
pub open spec fn file_date(f: Option<Result<Instant, LssgError>>) -> Option<Instant> {
    match f {
        Some(Ok(t)) => Some(t),
        _ => None,
    }
}

/// A date of the options, else the file's modification time.
pub open spec fn date_or_file(s: Option<String>, f: Option<Result<Instant, LssgError>>) -> Option<Instant> {
    if date_of_opt(s) is Some {
        date_of_opt(s)
    } else {
        file_date(f)
    }
}

impl BlogPostDates {
    /// The dates that the options give; where one is missing or unreadable,
    /// the modification time of the post's local file stands in for it.
    /// `file_modified` is that time (`None` where the post has no local
    /// file), or the error that reading it gave.
    pub fn from_post_options(post_options: &BlogPostOptions, file_modified: Option<Result<Instant, LssgError>>) -> (r: Result<Self, LssgError>)
        ensures
            ({
                let needs_file = date_of_opt(post_options.created_on) is None || date_of_opt(post_options.modified_on) is None;
                match file_modified {
                    Some(Err(e)) if needs_file => r == Err::<BlogPostDates, LssgError>(e),
                    _ => r == Ok::<BlogPostDates, LssgError>(BlogPostDates {
                        created_on: date_or_file(post_options.created_on, file_modified),
                        modified_on: date_or_file(post_options.modified_on, file_modified),
                    }),
                }
            }),
    {
        let created = match &post_options.created_on {
            Some(s) => match parse_date_string(s.as_str()) {
                Ok(t) => Some(t),
                Err(_) => None,
            },
            None => None,
        };
        let modified = match &post_options.modified_on {
            Some(s) => match parse_date_string(s.as_str()) {
                Ok(t) => Some(t),
                Err(_) => None,
            },
            None => None,
        };
        if created.is_none() || modified.is_none() {
            match file_modified {
                Some(Err(e)) => {
                    return Err(e);
                },
                Some(Ok(t)) => {
                    let created_on = match created {
                        Some(c) => Some(c),
                        None => Some(t),
                    };
                    let modified_on = match modified {
                        Some(m) => Some(m),
                        None => Some(t),
                    };
                    return Ok(BlogPostDates { created_on, modified_on });
                },
                None => {},
            }
        }
        Ok(BlogPostDates { created_on: created, modified_on: modified })
    }

    /// `Updated on` and the day it was changed, else `Created on` and the day
    /// it was made.
    pub fn to_pretty_string(&self) -> (r: Option<String>)
        requires
            self.modified_on matches Some(t) ==> valid_instant(t) && rfc2822_year(t),
            self.modified_on is None ==> (self.created_on matches Some(t) ==> valid_instant(t) && rfc2822_year(t)),
        ensures
            match (self.modified_on, self.created_on) {
                (Some(t), _) => r matches Some(s) && s@ == formatted_date(t, "Updated on %B %d, %Y"@),
                (None, Some(t)) => r matches Some(s) && s@ == formatted_date(t, "Created on %B %d, %Y"@),
                (None, None) => r is None,
            },
    {
        if let Some(t) = self.modified_on {
            return format_of(t, "Updated on %B %d, %Y");
        }
        if let Some(t) = self.created_on {
            return format_of(t, "Created on %B %d, %Y");
        }
        None
    }
}


/// An entry of an rss feed.
pub struct RssItem {
    pub title: String,
    pub description: Option<String>,
    pub link: String,
    pub guid: String,
    pub pub_date: Instant,
}

/// An rss feed.
pub struct RssFeed {
    pub title: String,
    pub link: String,
    pub description: Option<String>,
    pub last_build_date: Option<Instant>,
    pub items: Vec<RssItem>,
}

/// An element of the feed whose text is escaped.
pub open spec fn xml_element(indent: Seq<char>, name: Seq<char>, text: Seq<char>) -> Seq<char> {
    indent + "<"@ + name + ">"@ + escaped(text) + "</"@ + name + ">"@
}

/// An element of the feed, where there is text for it.
pub open spec fn opt_element(indent: Seq<char>, name: Seq<char>, text: Option<String>) -> Seq<char> {
    match text {
        Some(t) => xml_element(indent, name, t@),
        None => Seq::empty(),
    }
}

/// The xml of an entry.
pub open spec fn item_xml(i: RssItem) -> Seq<char> {
    "\n    <item>"@
        + xml_element("\n      "@, "title"@, i.title@)
        + xml_element("\n      "@, "link"@, i.link@)
        + opt_element("\n      "@, "description"@, i.description)
        + xml_element("\n      "@, "guid"@, i.guid@)
        + "\n      <pubDate>"@ + rfc2822_text(i.pub_date) + "</pubDate>"@
        + "\n    </item>"@
}

/// The xml of entries, one after the other.
pub open spec fn items_xml(items: Seq<RssItem>) -> Seq<char>
    decreases items.len(),
{
    if items.len() == 0 {
        Seq::empty()
    } else {
        items_xml(items.drop_last()) + item_xml(items.last())
    }
}

/// The xml of a feed.
pub open spec fn feed_xml(f: RssFeed) -> Seq<char> {
    "<?xml version=\"1.0\" encoding=\"UTF-8\"?>"@
        + "\n<rss version=\"2.0\">"@
        + "\n  <channel>"@
        + xml_element("\n    "@, "title"@, f.title@)
        + xml_element("\n    "@, "link"@, f.link@)
        + opt_element("\n    "@, "description"@, f.description)
        + match f.last_build_date {
            Some(t) => "\n    <lastBuildDate>"@ + rfc2822_text(t) + "</lastBuildDate>"@,
            None => Seq::empty(),
        }
        + items_xml(f.items@)
        + "\n  </channel>"@
        + "\n</rss>"@
}

/// Whether a date can be written in the feed.
pub open spec fn writable(t: Instant) -> bool {
    valid_instant(t) && rfc2822_year(t)
}

/// Appends an element whose text is escaped.
fn push_element(out: &mut String, indent: &str, name: &str, text: &str)
    ensures
        final(out)@ == old(out)@ + xml_element(indent@, name@, text@),
{
    push_str(out, indent);
    push_str(out, "<");
    push_str(out, name);
    push_str(out, ">");
    let e = escape_xml(text);
    push_str(out, e.as_str());
    push_str(out, "</");
    push_str(out, name);
    push_str(out, ">");
    assert(final(out)@ =~= old(out)@ + xml_element(indent@, name@, text@));
}

/// Appends an element where there is text for it.
fn push_opt_element(out: &mut String, indent: &str, name: &str, text: &Option<String>)
    ensures
        final(out)@ == old(out)@ + opt_element(indent@, name@, *text),
{
    match text {
        Some(t) => push_element(out, indent, name, t.as_str()),
        None => {
            assert(old(out)@ + Seq::<char>::empty() =~= old(out)@);
        },
    }
}

/// Appends a date as RFC 2822 text.
fn push_date(out: &mut String, t: Instant)
    requires
        writable(t),
    ensures
        final(out)@ == old(out)@ + rfc2822_text(t),
{
    match rfc2822_of(t) {
        Some(text) => push_str(out, text.as_str()),
        None => {},
    }
}

/// Appends the xml of an entry.
fn push_item(xml: &mut String, item: &RssItem)
    requires
        writable(item.pub_date),
    ensures
        final(xml)@ == old(xml)@ + item_xml(*item),
{
    push_str(xml, "\n    <item>");
    push_element(xml, "\n      ", "title", item.title.as_str());
    push_element(xml, "\n      ", "link", item.link.as_str());
    push_opt_element(xml, "\n      ", "description", &item.description);
    push_element(xml, "\n      ", "guid", item.guid.as_str());
    push_str(xml, "\n      <pubDate>");
    push_date(xml, item.pub_date);
    push_str(xml, "</pubDate>");
    push_str(xml, "\n    </item>");
    assert(final(xml)@ =~= old(xml)@ + item_xml(*item));
}

impl RssFeed {
    pub fn new(title: String, link: String, description: Option<String>) -> (f: RssFeed)
        ensures
            f.title == title,
            f.link == link,
            f.description == description,
            f.last_build_date is None,
            f.items@.len() == 0,
    {
        RssFeed { title, link, description, last_build_date: None, items: Vec::new() }
    }

    pub fn add_item(&mut self, item: RssItem)
        ensures
            final(self).items@ == old(self).items@.push(item),
            final(self).title == old(self).title,
            final(self).link == old(self).link,
            final(self).description == old(self).description,
            final(self).last_build_date == old(self).last_build_date,
    {
        self.items.push(item)
    }

    /// The feed as rss xml.
    pub fn to_string(&self) -> (s: String)
        requires
            self.last_build_date matches Some(t) ==> writable(t),
            forall|k: int| 0 <= k < self.items@.len() ==> writable(#[trigger] self.items@[k].pub_date),
        ensures
            s@ == feed_xml(*self),
    {
        let mut xml = String::new();
        push_str(&mut xml, "<?xml version=\"1.0\" encoding=\"UTF-8\"?>");
        push_str(&mut xml, "\n<rss version=\"2.0\">");
        push_str(&mut xml, "\n  <channel>");
        push_element(&mut xml, "\n    ", "title", self.title.as_str());
        push_element(&mut xml, "\n    ", "link", self.link.as_str());
        push_opt_element(&mut xml, "\n    ", "description", &self.description);
        if let Some(t) = self.last_build_date {
            push_str(&mut xml, "\n    <lastBuildDate>");
            push_date(&mut xml, t);
            push_str(&mut xml, "</lastBuildDate>");
        }
        let ghost dated = xml@;
        let mut i: usize = 0;
        while i < self.items.len()
            invariant
                i <= self.items@.len(),
                forall|k: int| 0 <= k < self.items@.len() ==> writable(#[trigger] self.items@[k].pub_date),
                xml@ == dated + items_xml(self.items@.take(i as int)),
            decreases self.items.len() - i,
        {
            let item = &self.items[i];
            push_item(&mut xml, item);
            proof {
                assert(self.items@.take(i + 1).drop_last() =~= self.items@.take(i as int));
                assert(self.items@.take(i + 1).last() == *item);
            }
            i += 1;
        }
        push_str(&mut xml, "\n  </channel>");
        push_str(&mut xml, "\n</rss>");
        proof {
            assert(self.items@.take(self.items@.len() as int) =~= self.items@);
            assert(xml@ =~= feed_xml(*self));
        }
        xml
    }
}


/// A post of a blog, as its feed reads it.
pub struct RssPost {
    pub id: SiteId,
    pub created_on: Option<Instant>,
    /// Whether the post is rendered as a blog post.
    pub render: bool,
    /// The title that the post's contents give.
    pub title: Option<String>,
    /// The summary that the post's options give.
    pub summary: Option<String>,
}

/// `s` with the post `x` placed before the first post that it is later than.
pub open spec fn insert_newest(posts: Seq<RssPost>, s: Seq<usize>, x: usize) -> Seq<usize>
    decreases s.len(),
{
    if s.len() == 0 {
        seq![x]
    } else if later_opt(posts[x as int].created_on, posts[s[0] as int].created_on) {
        seq![x] + s
    } else {
        seq![s[0]] + insert_newest(posts, s.drop_first(), x)
    }
}

/// The indexes of the first `n` posts, newest first; posts of one date, and
/// posts without a date, keep their order.
pub open spec fn newest_first(posts: Seq<RssPost>, n: nat) -> Seq<usize>
    decreases n,
{
    if n == 0 {
        Seq::empty()
    } else {
        insert_newest(posts, newest_first(posts, (n - 1) as nat), (n - 1) as usize)
    }
}

/// The posts of `order` that the feed lists: rendered posts with a date.
pub open spec fn listed(posts: Seq<RssPost>, order: Seq<usize>) -> Seq<usize>
    decreases order.len(),
{
    if order.len() == 0 {
        Seq::empty()
    } else {
        let i = order.last();
        let rest = listed(posts, order.drop_last());
        if posts[i as int].render && posts[i as int].created_on is Some {
            rest.push(i)
        } else {
            rest
        }
    }
}

/// The characters of an optional string.
pub open spec fn opt_chars(s: Option<String>) -> Option<Seq<char>> {
    match s {
        Some(x) => Some(x@),
        None => None,
    }
}

/// The host that links of the feed start with.
pub open spec fn feed_base(options: RssOptions) -> Seq<char> {
    match options.host {
        Some(h) => h@,
        None => Seq::empty(),
    }
}

proof fn lemma_insert_newest(posts: Seq<RssPost>, s: Seq<usize>, x: usize, k: int)
    requires
        0 <= k <= s.len(),
        forall|j: int| 0 <= j < k ==> !later_opt(posts[x as int].created_on, posts[s[j] as int].created_on),
        k < s.len() ==> later_opt(posts[x as int].created_on, posts[s[k] as int].created_on),
    ensures
        insert_newest(posts, s, x) == s.insert(k, x),
    decreases s.len(),
{
    if s.len() == 0 {
        assert(s.insert(k, x) =~= seq![x]);
    } else if k == 0 {
        assert(s.insert(0, x) =~= seq![x] + s);
    } else {
        assert(!later_opt(posts[x as int].created_on, posts[s[0] as int].created_on));
        lemma_insert_newest(posts, s.drop_first(), x, k - 1);
        assert(s.insert(k, x) =~= seq![s[0]] + s.drop_first().insert(k - 1, x));
    }
}

proof fn lemma_insert_newest_bounds(posts: Seq<RssPost>, s: Seq<usize>, x: usize, bound: int)
    requires
        x < bound,
        forall|j: int| 0 <= j < s.len() ==> #[trigger] s[j] < bound,
    ensures
        insert_newest(posts, s, x).len() == s.len() + 1,
        forall|j: int| 0 <= j < insert_newest(posts, s, x).len() ==> #[trigger] insert_newest(posts, s, x)[j] < bound,
    decreases s.len(),
{
    if s.len() > 0 {
        lemma_insert_newest_bounds(posts, s.drop_first(), x, bound);
    }
}

proof fn lemma_newest_first_bounds(posts: Seq<RssPost>, n: nat)
    ensures
        newest_first(posts, n).len() == n,
        forall|j: int| 0 <= j < n ==> #[trigger] newest_first(posts, n)[j] < n,
    decreases n,
{
    if n > 0 {
        lemma_newest_first_bounds(posts, (n - 1) as nat);
        lemma_insert_newest_bounds(posts, newest_first(posts, (n - 1) as nat), (n - 1) as usize, n as int);
    }
}

/// Whether no post of `s` is later than a post before it.
pub open spec fn newest_to_oldest(posts: Seq<RssPost>, s: Seq<usize>) -> bool {
    forall|a: int, b: int| 0 <= a < b < s.len()
        ==> !later_opt(posts[s[b] as int].created_on, posts[s[a] as int].created_on)
}

proof fn lemma_later_opt_transitive(x: Option<Instant>, y: Option<Instant>, z: Option<Instant>)
    requires
        later_opt(x, y),
        later_opt(y, z),
    ensures
        later_opt(x, z),
{
}

proof fn lemma_insert_newest_elements(posts: Seq<RssPost>, s: Seq<usize>, x: usize, j: int)
    requires
        0 <= j < insert_newest(posts, s, x).len(),
    ensures
        insert_newest(posts, s, x).len() == s.len() + 1,
        insert_newest(posts, s, x)[j] == x || s.contains(insert_newest(posts, s, x)[j]),
    decreases s.len(),
{
    if s.len() > 0 && !later_opt(posts[x as int].created_on, posts[s[0] as int].created_on) && j > 0 {
        lemma_insert_newest_elements(posts, s.drop_first(), x, j - 1);
        let e = insert_newest(posts, s, x)[j];
        if e != x {
            let i = choose|i: int| 0 <= i < s.drop_first().len() && s.drop_first()[i] == e;
            assert(s[i + 1] == e);
        }
    } else if s.len() > 0 && later_opt(posts[x as int].created_on, posts[s[0] as int].created_on) && j > 0 {
        assert(insert_newest(posts, s, x)[j] == s[j - 1]);
    } else if s.len() > 0 && !later_opt(posts[x as int].created_on, posts[s[0] as int].created_on) {
        lemma_insert_newest_elements(posts, s.drop_first(), x, 0);
    }
}

proof fn lemma_insert_newest_sorted(posts: Seq<RssPost>, s: Seq<usize>, x: usize)
    requires
        newest_to_oldest(posts, s),
    ensures
        newest_to_oldest(posts, insert_newest(posts, s, x)),
    decreases s.len(),
{
    let r = insert_newest(posts, s, x);
    let kx = posts[x as int].created_on;
    if s.len() == 0 {
    } else if later_opt(kx, posts[s[0] as int].created_on) {
        assert forall|a: int, b: int| 0 <= a < b < r.len()
            implies !later_opt(posts[r[b] as int].created_on, posts[r[a] as int].created_on) by {
            if a == 0 {
                assert(r[b] == s[b - 1]);
                if later_opt(posts[s[b - 1] as int].created_on, kx) {
                    lemma_later_opt_transitive(posts[s[b - 1] as int].created_on, kx, posts[s[0] as int].created_on);
                }
            } else {
                assert(r[a] == s[a - 1]);
                assert(r[b] == s[b - 1]);
            }
        }
    } else {
        let rest = s.drop_first();
        assert(newest_to_oldest(posts, rest)) by {
            assert forall|a: int, b: int| 0 <= a < b < rest.len()
                implies !later_opt(posts[rest[b] as int].created_on, posts[rest[a] as int].created_on) by {
                assert(rest[a] == s[a + 1]);
                assert(rest[b] == s[b + 1]);
            }
        }
        lemma_insert_newest_sorted(posts, rest, x);
        let t = insert_newest(posts, rest, x);
        assert(r == seq![s[0]] + t);
        assert forall|a: int, b: int| 0 <= a < b < r.len()
            implies !later_opt(posts[r[b] as int].created_on, posts[r[a] as int].created_on) by {
            if a == 0 {
                assert(r[b] == t[b - 1]);
                lemma_insert_newest_elements(posts, rest, x, b - 1);
                if t[b - 1] != x {
                    let i = choose|i: int| 0 <= i < rest.len() && rest[i] == t[b - 1];
                    assert(s[i + 1] == t[b - 1]);
                }
            } else {
                assert(r[a] == t[a - 1]);
                assert(r[b] == t[b - 1]);
            }
        }
    }
}

proof fn lemma_newest_first_sorted(posts: Seq<RssPost>, n: nat)
    ensures
        newest_to_oldest(posts, newest_first(posts, n)),
    decreases n,
{
    if n > 0 {
        lemma_newest_first_sorted(posts, (n - 1) as nat);
        lemma_insert_newest_sorted(posts, newest_first(posts, (n - 1) as nat), (n - 1) as usize);
    }
}

proof fn lemma_listed_sorted(posts: Seq<RssPost>, order: Seq<usize>)
    requires
        newest_to_oldest(posts, order),
    ensures
        newest_to_oldest(posts, listed(posts, order)),
        forall|k: int| 0 <= k < listed(posts, order).len() ==> order.contains(#[trigger] listed(posts, order)[k]),
    decreases order.len(),
{
    if order.len() > 0 {
        let front = order.drop_last();
        assert(newest_to_oldest(posts, front)) by {
            assert forall|a: int, b: int| 0 <= a < b < front.len()
                implies !later_opt(posts[front[b] as int].created_on, posts[front[a] as int].created_on) by {
                assert(front[a] == order[a]);
                assert(front[b] == order[b]);
            }
        }
        lemma_listed_sorted(posts, front);
        let rest = listed(posts, front);
        let l = listed(posts, order);
        assert forall|k: int| 0 <= k < l.len() implies order.contains(#[trigger] l[k]) by {
            if k < rest.len() {
                assert(l[k] == rest[k]);
                let i = choose|i: int| 0 <= i < front.len() && front[i] == rest[k];
                assert(order[i] == rest[k]);
            } else {
                assert(l[k] == order.last());
                assert(order[order.len() - 1] == order.last());
            }
        }
        assert forall|a: int, b: int| 0 <= a < b < l.len()
            implies !later_opt(posts[l[b] as int].created_on, posts[l[a] as int].created_on) by {
            if b < rest.len() {
                assert(l[a] == rest[a]);
                assert(l[b] == rest[b]);
            } else {
                assert(l[b] == order.last());
                assert(l[a] == rest[a]);
                let i = choose|i: int| 0 <= i < front.len() && front[i] == rest[a];
                assert(order[i] == rest[a]);
                assert(order[order.len() - 1] == order.last());
            }
        }
    }
}

/// The indexes of the posts, newest first; posts of one date keep their order.
fn order_newest_first(posts: &Vec<RssPost>) -> (order: Vec<usize>)
    ensures
        order@ == newest_first(posts@, posts@.len()),
{
    let mut order: Vec<usize> = Vec::new();
    let mut i: usize = 0;
    while i < posts.len()
        invariant
            i <= posts@.len(),
            order@ == newest_first(posts@, i as nat),
            order@.len() == i,
            forall|j: int| 0 <= j < order@.len() ==> #[trigger] order@[j] < i,
        decreases posts.len() - i,
    {
        let date = posts[i].created_on;
        let mut k: usize = 0;
        while k < order.len()
            invariant
                i < posts@.len(),
                k <= order@.len(),
                date == posts@[i as int].created_on,
                forall|j: int| 0 <= j < order@.len() ==> #[trigger] order@[j] < i,
                forall|j: int| 0 <= j < k ==> !later_opt(date, posts@[order@[j] as int].created_on),
            ensures
                k <= order@.len(),
                forall|j: int| 0 <= j < k ==> !later_opt(date, posts@[order@[j] as int].created_on),
                k < order@.len() ==> later_opt(date, posts@[order@[k as int] as int].created_on),
            decreases order.len() - k,
        {
            let other = posts[order[k]].created_on;
            let newer = match (date, other) {
                (Some(a), Some(b)) => a.secs > b.secs || (a.secs == b.secs && a.nanos > b.nanos),
                (Some(_), None) => true,
                _ => false,
            };
            if newer {
                break;
            }
            k += 1;
        }
        proof {
            lemma_insert_newest(posts@, order@, i, k as int);
            lemma_insert_newest_bounds(posts@, order@, i, i + 1);
        }
        order.insert(k, i);
        i += 1;
    }
    order
}

impl RssFeed {
    /// The feed of a blog whose root is `root_id`: its posts, newest first,
    /// as entries, leaving out posts that are not rendered and posts without
    /// a date.
    pub fn from_root(root_id: SiteId, options: &RssOptions, posts: &Vec<RssPost>, site_tree: &SiteTree) -> (f: RssFeed)
        requires
            root_id.0 < site_tree.size(),
            forall|k: int| 0 <= k < posts@.len() ==> (#[trigger] posts@[k]).id.0 < site_tree.size(),
        ensures
            ({
                let base = feed_base(*options);
                let order = newest_first(posts@, posts@.len());
                let shown = listed(posts@, order);
                &&& f.title@ == options.title@
                &&& f.link@ == base + absolute_path(*site_tree, root_id.0 as int)
                &&& opt_chars(f.description) == opt_chars(options.description)
                &&& f.last_build_date == (if options.last_build_date_enabled != Some(false) && posts@.len() > 0 {
                    posts@[order[0] as int].created_on
                } else {
                    None
                })
                &&& f.items@.len() == shown.len()
                &&& forall|k1: int, k2: int| 0 <= k1 < k2 < f.items@.len()
                    ==> !later(#[trigger] f.items@[k2].pub_date, #[trigger] f.items@[k1].pub_date)
                &&& forall|k: int| 0 <= k < shown.len() ==> {
                    let post = posts@[shown[k] as int];
                    let path = absolute_path(*site_tree, post.id.0 as int);
                    let item = #[trigger] f.items@[k];
                    &&& item.title@ == match post.title {
                        Some(t) => t@,
                        None => path,
                    }
                    &&& item.link@ == base + path
                    &&& item.guid@ == base + path
                    &&& opt_chars(item.description) == opt_chars(post.summary)
                    &&& Some(item.pub_date) == post.created_on
                }
                &&& forall|k: int| #![trigger f.items@[k]] 0 <= k < f.items@.len() ==> exists|j: int| {
                    &&& 0 <= j < posts@.len()
                    &&& (#[trigger] posts@[j]).render
                    &&& Some(f.items@[k].pub_date) == posts@[j].created_on
                    &&& f.items@[k].link@ == base + absolute_path(*site_tree, posts@[j].id.0 as int)
                }
                &&& forall|j: int| 0 <= j < posts@.len() && (#[trigger] posts@[j]).render && posts@[j].created_on is Some
                    ==> exists|k: int| {
                        &&& 0 <= k < f.items@.len()
                        &&& Some((#[trigger] f.items@[k]).pub_date) == posts@[j].created_on
                        &&& f.items@[k].link@ == base + absolute_path(*site_tree, posts@[j].id.0 as int)
                    }
            }),
    {
        let base: String = match &options.host {
            Some(host) => host.clone(),
            None => String::new(),
        };
        let mut feed_link = base.clone();
        let root_path = site_tree.path(root_id);
        push_str(&mut feed_link, root_path.as_str());
        let description = match &options.description {
            Some(d) => Some(d.clone()),
            None => None,
        };
        let mut feed = RssFeed::new(options.title.clone(), feed_link, description);
        let order = order_newest_first(posts);
        proof {
            lemma_newest_first_bounds(posts@, posts@.len());
        }
        let enabled = match options.last_build_date_enabled {
            Some(b) => b,
            None => true,
        };
        if enabled && order.len() > 0 {
            feed.last_build_date = posts[order[0]].created_on;
        }
        let ghost shown_all = listed(posts@, order@);
        let mut i: usize = 0;
        while i < order.len()
            invariant
                i <= order@.len(),
                order@ == newest_first(posts@, posts@.len()),
                order@.len() == posts@.len(),
                forall|j: int| 0 <= j < order@.len() ==> #[trigger] order@[j] < posts@.len(),
                forall|k: int| 0 <= k < posts@.len() ==> (#[trigger] posts@[k]).id.0 < site_tree.size(),
                base@ == feed_base(*options),
                feed.title@ == options.title@,
                feed.link@ == base@ + absolute_path(*site_tree, root_id.0 as int),
                opt_chars(feed.description) == opt_chars(options.description),
                feed.last_build_date == (if options.last_build_date_enabled != Some(false) && posts@.len() > 0 {
                    posts@[order@[0] as int].created_on
                } else {
                    None
                }),
                feed.items@.len() == listed(posts@, order@.take(i as int)).len(),
                forall|k: int| 0 <= k < listed(posts@, order@.take(i as int)).len() ==> {
                    let post = posts@[listed(posts@, order@.take(i as int))[k] as int];
                    let path = absolute_path(*site_tree, post.id.0 as int);
                    let item = #[trigger] feed.items@[k];
                    &&& item.title@ == match post.title {
                        Some(t) => t@,
                        None => path,
                    }
                    &&& item.link@ == base@ + path
                    &&& item.guid@ == base@ + path
                    &&& opt_chars(item.description) == opt_chars(post.summary)
                    &&& Some(item.pub_date) == post.created_on
                },
            decreases order.len() - i,
        {
            let post = &posts[order[i]];
            proof {
                assert(order@.take(i + 1).drop_last() =~= order@.take(i as int));
                assert(order@.take(i + 1).last() == order@[i as int]);
            }
            if post.render {
                if let Some(pub_date) = post.created_on {
                    let post_path = site_tree.path(post.id);
                    let mut link = base.clone();
                    push_str(&mut link, post_path.as_str());
                    let guid = link.clone();
                    let title = match &post.title {
                        Some(t) => t.clone(),
                        None => post_path.clone(),
                    };
                    let description = match &post.summary {
                        Some(d) => Some(d.clone()),
                        None => None,
                    };
                    let ghost old_items = feed.items@;
                    feed.add_item(RssItem { title, description, link, guid, pub_date });
                    proof {
                        assert(feed.items@.len() == old_items.len() + 1);
                        assert forall|k: int| 0 <= k < old_items.len() implies feed.items@[k] == old_items[k] by {}
                    }
                }
            }
            i += 1;
        }
        proof {
            assert(order@.take(order@.len() as int) =~= order@);
            lemma_newest_first_sorted(posts@, posts@.len());
            lemma_listed_sorted(posts@, order@);
            let shown = listed(posts@, order@);
            assert forall|k1: int, k2: int| 0 <= k1 < k2 < feed.items@.len()
                implies !later(#[trigger] feed.items@[k2].pub_date, #[trigger] feed.items@[k1].pub_date) by {
                assert(!later_opt(posts@[shown[k2] as int].created_on, posts@[shown[k1] as int].created_on));
            }
            crate::laws::law_feed_lists_rendered_posts(posts@, order@);
            crate::laws::law_newest_first_keeps_all(posts@, posts@.len());
            assert forall|k: int| #![trigger feed.items@[k]] 0 <= k < feed.items@.len() implies exists|j: int| {
                &&& 0 <= j < posts@.len()
                &&& (#[trigger] posts@[j]).render
                &&& Some(feed.items@[k].pub_date) == posts@[j].created_on
                &&& feed.items@[k].link@ == base@ + absolute_path(*site_tree, posts@[j].id.0 as int)
            } by {
                let i = shown[k];
                assert(order@.contains(i));
                let a = choose|a: int| 0 <= a < order@.len() && order@[a] == i;
                assert(i < posts@.len());
                assert(posts@[i as int].render);
            }
            assert forall|j: int| 0 <= j < posts@.len() && (#[trigger] posts@[j]).render && posts@[j].created_on is Some
                implies exists|k: int| {
                    &&& 0 <= k < feed.items@.len()
                    &&& Some((#[trigger] feed.items@[k]).pub_date) == posts@[j].created_on
                    &&& feed.items@[k].link@ == base@ + absolute_path(*site_tree, posts@[j].id.0 as int)
                } by {
                assert(order@.contains(j as usize));
                let a = choose|a: int| 0 <= a < order@.len() && order@[a] == j as usize;
                assert(shown.contains(order@[a]));
                let k = choose|k: int| 0 <= k < shown.len() && shown[k] == order@[a];
                assert(shown[k] == j);
                assert(Some(feed.items@[k].pub_date) == posts@[j].created_on);
            }
        }
        feed
    }
}


/// The text of the first heading of depth 1 among the tokens.
pub open spec fn first_title(tokens: Seq<Token>) -> Option<Seq<char>>
    decreases tokens.len(),
{
    if tokens.len() == 0 {
        None
    } else if tokens[0] matches Token::Heading { text, depth, .. } && depth == 1 {
        Some(tokens[0]->Heading_text@)
    } else {
        first_title(tokens.drop_first())
    }
}

/// What a blog post holds.
#[derive(Debug, Clone)]
pub struct Contents {
    pub title: Option<String>,
}

impl Contents {
    /// The contents of a post made of these tokens: its title is the text of
    /// its first heading of depth 1.
    pub fn from_tokens(tokens: &Vec<Token>) -> (c: Contents)
        ensures
            opt_chars(c.title) == first_title(tokens@),
    {
        let mut i: usize = 0;
        proof {
            assert(tokens@.skip(0) =~= tokens@);
        }
        while i < tokens.len()
            invariant
                i <= tokens@.len(),
                first_title(tokens@) == first_title(tokens@.skip(i as int)),
            decreases tokens.len() - i,
        {
            proof {
                assert(tokens@.skip(i as int).drop_first() =~= tokens@.skip(i + 1));
                assert(tokens@.skip(i as int)[0] == tokens@[i as int]);
            }
            if let Token::Heading { text, depth, .. } = &tokens[i] {
                if *depth == 1 {
                    return Contents { title: Some(text.clone()) };
                }
            }
            i += 1;
        }
        Contents { title: None }
    }
}

} // verus!
