//! Options of the renderer modules, and small rules they apply.
use vstd::prelude::*;

use crate::raw_map::RawMap;
use crate::sitetree::site_id::SiteId;
use crate::sitetree::site_tree::{ancestors, SiteTree};
use crate::text::{ends_with, has_prefix, has_suffix, lowercase, starts_with, to_lowercase};

verus! {

/// Options of the rss feed of a blog.
#[derive(Debug)]
pub struct RssOptions {
    pub enabled: bool,
    pub title: String,
    pub description: Option<String>,
    /// Path to the rss feed
    pub path: String,
    pub host: Option<String>,
    pub language: Option<String>,
    /// Will use the latest post
    pub last_build_date_enabled: Option<bool>,
}

impl Default for RssOptions {
    fn default() -> (o: Self)
        ensures
            !o.enabled,
            o.title@ == "Feed"@,
            o.description matches Some(d) && d@ == "My feed"@,
            o.path@ == "feed.xml"@,
            o.host is None,
            o.language is None,
            o.last_build_date_enabled == Some(true),
    {
        RssOptions {
            enabled: false,
            title: "Feed".to_string(),
            description: Some("My feed".to_string()),
            path: "feed.xml".to_string(),
            host: None,
            language: None,
            last_build_date_enabled: Some(true),
        }
    }
}

#[derive(Debug)]
pub struct BlogRootOptions {
    pub rss: RssOptions,
    /// Use dates from file system to create updated on and modified on tags
    /// by default false
    pub use_fs_dates: bool,
}

impl Default for BlogRootOptions {
    fn default() -> (o: Self)
        ensures
            !o.use_fs_dates,
            !o.rss.enabled,
            o.rss.title@ == "Feed"@,
            o.rss.path@ == "feed.xml"@,
    {
        BlogRootOptions { rss: RssOptions::default(), use_fs_dates: false }
    }
}

#[derive(Debug)]
pub struct BlogPostOptions {
    /// Use blog rendering for this page, if false it will still index this page
    pub render: bool,
    /// When has an article been changed (any iso date string or %Y-%m-%d)
    pub modified_on: Option<String>,
    pub created_on: Option<String>,
    pub tags: Option<Vec<String>>,
    pub summary: Option<String>,
}

impl Default for BlogPostOptions {
    fn default() -> (o: Self)
        ensures
            o.render,
            o.modified_on is None,
            o.created_on is None,
            o.tags is None,
            o.summary is None,
    {
        BlogPostOptions { render: true, modified_on: None, created_on: None, tags: None, summary: None }
    }
}

/// A link leaves the site when it starts with `http` or `mailto:`.
pub open spec fn href_external(href: Seq<char>) -> bool {
    has_prefix(href, seq!['h', 't', 't', 'p']) || has_prefix(href, seq!['m', 'a', 'i', 'l', 't', 'o', ':'])
}

pub fn is_href_external(href: &str) -> (r: bool)
    ensures
        r == href_external(href@),
{
    let a = starts_with(href, "http");
    let b = starts_with(href, "mailto:");
    proof {
        reveal_strlit("http");
        reveal_strlit("mailto:");
        assert("http"@ =~= seq!['h', 't', 't', 'p']);
        assert("mailto:"@ =~= seq!['m', 'a', 'i', 'l', 't', 'o', ':']);
    }
    a || b
}

/// Options for the code module, configurable per page via TOML attributes.
#[derive(Debug)]
pub struct CodeModuleOptions {
    /// Custom theme for code blocks. By default the *Github* theme is used.
    pub theme_path: Option<String>,
    /// Automatically detect the language of code blocks that don't specify one
    pub auto_detect_language: bool,
    /// Show a button on code blocks that copies their content to the clipboard.
    pub copy_button: bool,
    /// Localize copy button text using the page's language setting.
    pub copy_button_language: Option<String>,
    /// Hide the copy button until the code block is hovered.
    pub copy_button_autohide: bool,
}

impl Default for CodeModuleOptions {
    fn default() -> (o: Self)
        ensures
            o.theme_path is None,
            o.auto_detect_language,
            o.copy_button,
            o.copy_button_language is None,
            !o.copy_button_autohide,
    {
        CodeModuleOptions {
            theme_path: None,
            auto_detect_language: true,
            copy_button: true,
            copy_button_language: None,
            copy_button_autohide: false,
        }
    }
}

/// Module that handles code blocks with highlight.js syntax highlighting.
#[derive(Debug)]
pub struct CodeModule {}

impl Default for CodeModule {
    fn default() -> (m: Self) {
        CodeModule {}
    }
}

/// Options that pages pass on to their child pages.
#[derive(Debug)]
pub struct PropegatedOptions {
    pub title: String,
    /// Translates to meta tags
    pub meta: RawMap<String>,
    /// Lang attribute ("en")
    pub language: String,
}

impl Default for PropegatedOptions {
    fn default() -> (o: Self)
        ensures
            o.title@ == Seq::<char>::empty(),
            o.meta@ == Map::<Seq<char>, Seq<char>>::empty(),
            o.language@ == "en"@,
    {
        PropegatedOptions { meta: RawMap::new(), title: String::new(), language: "en".to_string() }
    }
}

#[derive(Debug)]
pub struct SinglePageOptions {
    /// If this page is a root don't reuse options from parent
    pub root: bool,
}

impl Default for SinglePageOptions {
    fn default() -> (o: Self)
        ensures
            !o.root,
    {
        SinglePageOptions { root: false }
    }
}

/// Implements all basic default behavior, like rendering all tokens and adding meta tags and title to head
#[derive(Debug)]
pub struct DefaultModule {
    /// Options of each page, by page id. Considers options from parents.
    options_map: Vec<(usize, PropegatedOptions)>,
}

impl DefaultModule {
    /// The pages that have options.
    pub closed spec fn pages(&self) -> Seq<usize> {
        Seq::new(self.options_map@.len(), |i: int| self.options_map@[i].0)
    }

    pub fn new() -> (m: Self)
        ensures
            m.pages() == Seq::<usize>::empty(),
    {
        let m = DefaultModule { options_map: Vec::new() };
        assert(m.pages() =~= Seq::<usize>::empty());
        m
    }
}

#[derive(Debug, Clone, Copy, PartialEq, Eq, Structural)]
pub enum NavKind {
    Breadcrumbs,
    SideMenu,
    /// No navigation.
    NoNav,
}

#[derive(Debug)]
pub struct ExternalModuleOptions {
    pub href: Option<String>,
}

impl Default for ExternalModuleOptions {
    fn default() -> (o: Self)
        ensures
            o.href is None,
    {
        ExternalModuleOptions { href: None }
    }
}

/// Options for the layout module, configurable per page via TOML attributes.
#[derive(Debug)]
pub struct LayoutOptions {
    /// Path to a markdown file that describes the layout of the page.
    pub path: Option<String>,
}

impl Default for LayoutOptions {
    fn default() -> (o: Self)
        ensures
            o.path is None,
    {
        LayoutOptions { path: None }
    }
}

#[derive(Debug, Clone, Copy, PartialEq, Eq, Structural)]
pub struct MediaOptions {
    /// Enable image optimization
    pub optimize_images: bool,
    /// Image quality (1-100)
    pub image_quality: u8,
    /// Convert images to WebP
    pub convert_to_webp: bool,
    /// Maximum image width
    pub max_width: Option<u32>,
    /// Maximum image height
    pub max_height: Option<u32>,
    /// Minimum file size (in bytes) to trigger resizing
    pub resize_threshold_bytes: usize,
    /// WebP quality (1-100, 95+ uses lossless)
    pub webp_quality: u8,
    /// Enable video optimization
    pub optimize_videos: bool,
    /// Enable FFmpeg for video optimization
    pub use_ffmpeg: bool,
    /// Video quality CRF (0-51, lower = better quality)
    pub video_crf: u8,
}

impl Default for MediaOptions {
    fn default() -> (o: Self)
        ensures
            o == (MediaOptions {
                optimize_images: true,
                image_quality: 85,
                optimize_videos: true,
                video_crf: 25,
                convert_to_webp: true,
                max_width: Some(1920),
                max_height: Some(1080),
                resize_threshold_bytes: 1_000_000,
                webp_quality: 95,
                use_ffmpeg: true,
            }),
    {
        MediaOptions {
            optimize_images: true,
            image_quality: 85,
            optimize_videos: true,
            video_crf: 25,
            convert_to_webp: true,
            max_width: Some(1920),
            max_height: Some(1080),
            resize_threshold_bytes: 1_000_000,
            webp_quality: 95,
            use_ffmpeg: true,
        }
    }
}

#[derive(Debug)]
pub struct MediaModule {
    pub options: MediaOptions,
}

impl Default for MediaModule {
    fn default() -> (m: Self)
        ensures
            m.options == MediaOptions::spec_default(),
    {
        MediaModule { options: MediaOptions::default() }
    }
}

impl MediaOptions {
    /// The options a media module starts with.
    pub open spec fn spec_default() -> MediaOptions {
        MediaOptions {
            optimize_images: true,
            image_quality: 85,
            optimize_videos: true,
            video_crf: 25,
            convert_to_webp: true,
            max_width: Some(1920),
            max_height: Some(1080),
            resize_threshold_bytes: 1_000_000,
            webp_quality: 95,
            use_ffmpeg: true,
        }
    }
}

/// Whether a lower cased name ends with one of `exts`.
pub open spec fn has_any_suffix(name: Seq<char>, exts: Seq<Seq<char>>) -> bool {
    exists|i: int| 0 <= i < exts.len() && has_suffix(name, #[trigger] exts[i])
}

/// Whether `name` ends with one of `exts`.
fn ends_with_any(name: &str, exts: &Vec<&str>) -> (r: bool)
    ensures
        r == has_any_suffix(name@, Seq::new(exts@.len(), |i: int| exts@[i]@)),
{
    let ghost es = Seq::new(exts@.len(), |i: int| exts@[i]@);
    let mut i: usize = 0;
    while i < exts.len()
        invariant
            i <= exts.len(),
            es == Seq::new(exts@.len(), |i: int| exts@[i]@),
            forall|j: int| 0 <= j < i ==> !has_suffix(name@, #[trigger] es[j]),
        decreases exts.len() - i,
    {
        if ends_with(name, exts[i]) {
            assert(has_suffix(name@, es[i as int]));
            return true;
        }
        i += 1;
    }
    false
}

/// File endings of images.
pub open spec fn image_extensions() -> Seq<Seq<char>> {
    seq![".jpg"@, ".jpeg"@, ".png"@, ".gif"@, ".bmp"@, ".webp"@, ".tiff"@, ".tif"@]
}

/// File endings of videos.
pub open spec fn video_extensions() -> Seq<Seq<char>> {
    seq![".mp4"@, ".webm"@, ".ogg"@, ".ogv"@, ".mov"@, ".avi"@, ".mkv"@, ".m4v"@]
}

/// Whether the lower cased file name ends with an image extension.
pub fn is_image_file(name: &str) -> (r: bool)
    ensures
        r == has_any_suffix(lowercase(name@), image_extensions()),
{
    let name_lower = to_lowercase(name);
    let exts = vec![".jpg", ".jpeg", ".png", ".gif", ".bmp", ".webp", ".tiff", ".tif"];
    let r = ends_with_any(name_lower.as_str(), &exts);
    proof {
        assert(Seq::new(exts@.len(), |i: int| exts@[i]@) =~= image_extensions());
    }
    r
}

/// Whether the lower cased file name ends with a video extension.
pub fn is_video_file(name: &str) -> (r: bool)
    ensures
        r == has_any_suffix(lowercase(name@), video_extensions()),
{
    let name_lower = to_lowercase(name);
    let exts = vec![".mp4", ".webm", ".ogg", ".ogv", ".mov", ".avi", ".mkv", ".m4v"];
    let r = ends_with_any(name_lower.as_str(), &exts);
    proof {
        assert(Seq::new(exts@.len(), |i: int| exts@[i]@) =~= video_extensions());
    }
    r
}

/// Implements https://modelviewer.dev/
#[derive(Debug)]
pub struct ModelModule {}

impl Default for ModelModule {
    fn default() -> (m: Self) {
        ModelModule {}
    }
}

/// [post]
#[derive(Debug)]
pub struct PostOptions {
    /// Use post rendering for this page, if false it will still index this page
    pub render: bool,
    /// When has an article been changed (any iso date string or %Y-%m-%d)
    pub modified_on: Option<String>,
    pub created_on: Option<String>,
    pub tags: Option<Vec<String>>,
    pub summary: Option<String>,
}

impl Default for PostOptions {
    fn default() -> (o: Self)
        ensures
            o.render,
            o.modified_on is None,
            o.created_on is None,
            o.tags is None,
            o.summary is None,
    {
        PostOptions { render: true, modified_on: None, created_on: None, tags: None, summary: None }
    }
}

#[derive(Debug)]
pub struct PostPageOptions {
    pub use_fs_dates: bool,
    pub render: bool,
    pub modified_on: Option<String>,
    pub created_on: Option<String>,
    pub tags: Option<Vec<String>>,
    pub summary: Option<String>,
}

/// A module that generates a `sitemap.xml` for the site.
#[derive(Debug)]
pub struct SitemapModule;

impl Default for SitemapModule {
    fn default() -> (m: Self) {
        SitemapModule
    }
}

/// A single value or a list of values.
#[derive(Debug, Clone)]
pub enum OneOrManyOption<T> {
    Many(Vec<T>),
    One(T),
}

/// A slice of one item (`std::slice::from_ref`).
#[verifier::external_body]
fn one_item<T>(item: &T) -> (r: &[T])
    ensures
        r@ == seq![*item],
{
    std::slice::from_ref(item)
}

impl<T> OneOrManyOption<T> {
    /// The items.
    pub open spec fn items(&self) -> Seq<T> {
        match self {
            OneOrManyOption::Many(v) => v@,
            OneOrManyOption::One(t) => seq![*t],
        }
    }

    /// Convert to a vector, consuming self
    pub fn into_vec(self) -> (v: Vec<T>)
        ensures
            v@ == self.items(),
    {
        match self {
            OneOrManyOption::Many(vec) => vec,
            OneOrManyOption::One(item) => vec![item],
        }
    }

    /// Get as a slice
    pub fn as_slice(&self) -> (s: &[T])
        ensures
            s@ == self.items(),
    {
        match self {
            OneOrManyOption::Many(vec) => vec.as_slice(),
            OneOrManyOption::One(item) => one_item(item),
        }
    }

    /// Get the number of items
    pub fn len(&self) -> (n: usize)
        ensures
            n == self.items().len(),
    {
        match self {
            OneOrManyOption::Many(vec) => vec.len(),
            OneOrManyOption::One(_) => 1,
        }
    }

    /// Check if empty
    pub fn is_empty(&self) -> (r: bool)
        ensures
            r == (self.items().len() == 0),
    {
        match self {
            OneOrManyOption::Many(vec) => vec.len() == 0,
            OneOrManyOption::One(_) => false,
        }
    }
}

/// Fills a value from an optional form of it.
pub trait Optional<T> {
    fn from_optional(&mut self, t: T);
}


/// The pages along `chain` whose options apply, nearest first: those with
/// attributes (`flags[id]` is `Some`), up to and including the first that is
/// the root or whose attributes mark it as one (`Some(true)`).
pub open spec fn option_sources_up(chain: Seq<usize>, flags: Seq<Option<bool>>) -> Seq<usize>
    decreases chain.len(),
{
    if chain.len() == 0 {
        Seq::empty()
    } else {
        let id = chain[0];
        match flags[id as int] {
            None => option_sources_up(chain.drop_first(), flags),
            Some(root) => if id == 0 || root {
                seq![id]
            } else {
                seq![id] + option_sources_up(chain.drop_first(), flags)
            },
        }
    }
}

/// The pages whose options a page gets, in the order they are applied: the
/// outermost first, the page itself last. `flags` tells of each node whether
/// it is a page with attributes and, if so, whether they mark it as a root.
pub fn option_sources(site_tree: &SiteTree, current: SiteId, flags: &Vec<Option<bool>>) -> (r: Vec<SiteId>)
    requires
        current.0 < site_tree.size(),
        flags@.len() >= site_tree.size(),
    ensures
        Seq::new(r@.len(), |k: int| r@[k].0) == option_sources_up(seq![current.0] + ancestors(*site_tree, current.0 as int), flags@).reverse(),
{
    let parents = site_tree.parents(current);
    let mut chain: Vec<SiteId> = Vec::new();
    chain.push(current);
    let mut i: usize = 0;
    while i < parents.len()
        invariant
            i <= parents@.len(),
            Seq::new(parents@.len(), |k: int| parents@[k].0) == ancestors(*site_tree, current.0 as int),
            chain@.len() == i + 1,
            chain@[0] == current,
            forall|k: int| 0 <= k < i ==> #[trigger] chain@[k + 1] == parents@[k],
        decreases parents.len() - i,
    {
        chain.push(parents[i]);
        i += 1;
    }
    let ghost full = seq![current.0] + ancestors(*site_tree, current.0 as int);
    proof {
        assert(Seq::new(chain@.len(), |k: int| chain@[k].0) =~= full) by {
            assert forall|k: int| 0 <= k < chain@.len() implies chain@[k].0 == full[k] by {
                if k > 0 {
                    assert(chain@[(k - 1) + 1] == parents@[k - 1]);
                    assert(Seq::new(parents@.len(), |k: int| parents@[k].0)[k - 1] == parents@[k - 1].0);
                }
            }
        }
        crate::sitetree::site_tree::lemma_ancestors_below(*site_tree, current.0 as int);
    }
    let mut sources: Vec<SiteId> = Vec::new();
    let mut j: usize = 0;
    let mut stop = false;
    proof {
        assert(full.skip(0) =~= full);
    }
    while j < chain.len() && !stop
        invariant
            j <= chain@.len(),
            flags@.len() >= site_tree.size(),
            Seq::new(chain@.len(), |k: int| chain@[k].0) == full,
            forall|k: int| 0 <= k < full.len() ==> #[trigger] full[k] < site_tree.size(),
            stop ==> Seq::new(sources@.len(), |k: int| sources@[k].0) == option_sources_up(full, flags@),
            !stop ==> Seq::new(sources@.len(), |k: int| sources@[k].0) + option_sources_up(full.skip(j as int), flags@)
                == option_sources_up(full, flags@),
        decreases chain.len() - j,
    {
        let id = chain[j];
        proof {
            assert(full.skip(j as int)[0] == id.0);
            assert(full.skip(j as int).drop_first() =~= full.skip(j + 1));
        }
        let ghost before = Seq::new(sources@.len(), |k: int| sources@[k].0);
        match flags[id.0] {
            None => {},
            Some(root) => {
                sources.push(id);
                proof {
                    assert(Seq::new(sources@.len(), |k: int| sources@[k].0) =~= before.push(id.0));
                }
                if id.0 == 0 || root {
                    stop = true;
                    proof {
                        assert(before.push(id.0) =~= before + seq![id.0]);
                    }
                } else {
                    proof {
                        assert(before.push(id.0) + option_sources_up(full.skip(j + 1), flags@)
                            =~= before + (seq![id.0] + option_sources_up(full.skip(j + 1), flags@)));
                    }
                }
            },
        }
        j += 1;
    }
    proof {
        if !stop {
            assert(full.skip(j as int) =~= Seq::<usize>::empty());
            assert(Seq::new(sources@.len(), |k: int| sources@[k].0) + Seq::<usize>::empty()
                =~= Seq::new(sources@.len(), |k: int| sources@[k].0));
        }
    }
    let ghost found = Seq::new(sources@.len(), |k: int| sources@[k].0);
    let mut r: Vec<SiteId> = Vec::new();
    let mut k: usize = sources.len();
    while k > 0
        invariant
            k <= sources@.len(),
            found == Seq::new(sources@.len(), |i: int| sources@[i].0),
            Seq::new(r@.len(), |i: int| r@[i].0) == found.skip(k as int).reverse(),
        decreases k,
    {
        k -= 1;
        let ghost before = Seq::new(r@.len(), |i: int| r@[i].0);
        r.push(sources[k]);
        proof {
            assert(found.skip(k as int) =~= seq![found[k as int]] + found.skip(k + 1));
            assert(found.skip(k as int).reverse() =~= found.skip(k + 1).reverse().push(found[k as int]));
            assert(Seq::new(r@.len(), |i: int| r@[i].0) =~= before.push(sources@[k as int].0));
        }
    }
    proof {
        assert(found.skip(0) =~= found);
    }
    r
}

} // verus!
