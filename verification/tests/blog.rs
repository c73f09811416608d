use lssg::blog::{parse_date_string, BlogPostDates, Contents, Instant, RssFeed, RssItem, RssPost};
use lssg::modules::{BlogPostOptions, RssOptions};
use lssg::lssg_error::LssgError;
use lssg::markdown::Token;
use lssg::sitetree::site_id::SiteId;
use lssg::sitetree::site_tree::{SiteNode, SiteTree};

const MAY_8_2025: i64 = 1_746_662_400;
const JAN_2_2024: i64 = 1_704_153_600;

#[test]
fn dates_in_each_format() {
    assert_eq!(parse_date_string("2025-05-08").unwrap(), Instant { secs: MAY_8_2025, nanos: 0 });
    assert_eq!(
        parse_date_string("2025-05-08T14:30:00").unwrap(),
        Instant { secs: MAY_8_2025 + 14 * 3600 + 30 * 60, nanos: 0 }
    );
    assert_eq!(
        parse_date_string("2025-05-08T14:30:00+02:00").unwrap(),
        Instant { secs: MAY_8_2025 + 12 * 3600 + 30 * 60, nanos: 0 }
    );
    let e = parse_date_string("yesterday").unwrap_err();
    assert!(e.to_string().contains("Unknown date format: yesterday"));
}

#[test]
fn post_dates_fall_back_to_file_time() {
    let mut options = BlogPostOptions::default();
    options.created_on = Some("2024-01-02".to_string());
    options.modified_on = Some("not a date".to_string());
    let file = Instant { secs: MAY_8_2025, nanos: 5 };
    let dates = BlogPostDates::from_post_options(&options, Some(Ok(file))).unwrap();
    assert_eq!(dates.created_on, Some(Instant { secs: JAN_2_2024, nanos: 0 }));
    assert_eq!(dates.modified_on, Some(file));
    let dates = BlogPostDates::from_post_options(&options, None).unwrap();
    assert_eq!(dates.modified_on, None);
    let failed = BlogPostDates::from_post_options(&options, Some(Err(LssgError::io("gone"))));
    assert!(failed.is_err());
    options.modified_on = Some("2025-05-08".to_string());
    let dates = BlogPostDates::from_post_options(&options, Some(Err(LssgError::io("gone")))).unwrap();
    assert_eq!(dates.modified_on, Some(Instant { secs: MAY_8_2025, nanos: 0 }));
}

#[test]
fn pretty_dates() {
    let day = Some(Instant { secs: MAY_8_2025, nanos: 0 });
    let dates = BlogPostDates { modified_on: day, created_on: None };
    assert_eq!(dates.to_pretty_string(), Some("Updated on May 08, 2025".to_string()));
    let dates = BlogPostDates { modified_on: None, created_on: day };
    assert_eq!(dates.to_pretty_string(), Some("Created on May 08, 2025".to_string()));
    assert_eq!(BlogPostDates::default().to_pretty_string(), None);
}

#[test]
fn rss_feed_xml() {
    let mut feed = RssFeed::new("Feed & co".to_string(), "https://x.org/".to_string(), None);
    feed.add_item(RssItem {
        title: "A <b>".to_string(),
        description: Some("d".to_string()),
        link: "https://x.org/a".to_string(),
        guid: "https://x.org/a".to_string(),
        pub_date: Instant { secs: MAY_8_2025, nanos: 0 },
    });
    let expected = "<?xml version=\"1.0\" encoding=\"UTF-8\"?>\n<rss version=\"2.0\">\n  <channel>\n    <title>Feed &amp; co</title>\n    <link>https://x.org/</link>\n    <item>\n      <title>A &lt;b&gt;</title>\n      <link>https://x.org/a</link>\n      <description>d</description>\n      <guid>https://x.org/a</guid>\n      <pubDate>Thu, 8 May 2025 00:00:00 +0000</pubDate>\n    </item>\n  </channel>\n</rss>";
    assert_eq!(feed.to_string(), expected);
}

#[test]
fn rss_feed_from_root_orders_newest_first() {
    let mut t = SiteTree::new();
    t.add(SiteNode::root("index.md"));
    t.add(SiteNode::page("old", SiteId(0)));
    t.add(SiteNode::page("new", SiteId(0)));
    t.add(SiteNode::page("draft", SiteId(0)));
    let mut options = RssOptions::default();
    options.host = Some("https://x.org".to_string());
    let posts = vec![
        RssPost {
            id: SiteId(1),
            created_on: Some(Instant { secs: JAN_2_2024, nanos: 0 }),
            render: true,
            title: Some("Old".to_string()),
            summary: None,
        },
        RssPost { id: SiteId(3), created_on: None, render: true, title: None, summary: None },
        RssPost {
            id: SiteId(2),
            created_on: Some(Instant { secs: MAY_8_2025, nanos: 0 }),
            render: true,
            title: None,
            summary: Some("news".to_string()),
        },
    ];
    let feed = RssFeed::from_root(SiteId(0), &options, &posts, &t);
    assert_eq!(feed.title, "Feed");
    assert_eq!(feed.link, "https://x.org/");
    assert_eq!(feed.description, Some("My feed".to_string()));
    assert_eq!(feed.last_build_date, Some(Instant { secs: MAY_8_2025, nanos: 0 }));
    assert_eq!(feed.items.len(), 2);
    assert_eq!(feed.items[0].title, "/new");
    assert_eq!(feed.items[0].link, "https://x.org/new");
    assert_eq!(feed.items[0].description, Some("news".to_string()));
    assert_eq!(feed.items[1].title, "Old");
    assert_eq!(feed.items[1].guid, "https://x.org/old");
    options.last_build_date_enabled = Some(false);
    assert_eq!(RssFeed::from_root(SiteId(0), &options, &posts, &t).last_build_date, None);
}

#[test]
fn post_title_is_first_top_heading() {
    let tokens = vec![
        Token::Heading { text: "Sub".to_string(), tokens: vec![], depth: 2 },
        Token::Heading { text: "Title".to_string(), tokens: vec![], depth: 1 },
        Token::Heading { text: "Other".to_string(), tokens: vec![], depth: 1 },
    ];
    assert_eq!(Contents::from_tokens(&tokens).title, Some("Title".to_string()));
    assert_eq!(Contents::from_tokens(&vec![]).title, None);
}
