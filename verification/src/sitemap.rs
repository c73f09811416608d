//! The sitemap of a site (Sitemap Protocol XML).
use vstd::prelude::*;

use crate::text::{push_char, push_str, str_chars};

verus! {

broadcast use vstd::seq_lib::group_to_multiset_ensures;

/// `a` comes before `b` or equals it, comparing character by character.
pub open spec fn lex_le(a: Seq<char>, b: Seq<char>) -> bool
    decreases a.len(),
{
    if a.len() == 0 {
        true
    } else if b.len() == 0 {
        false
    } else if (a[0] as u32) < (b[0] as u32) {
        true
    } else if (a[0] as u32) > (b[0] as u32) {
        false
    } else {
        lex_le(a.skip(1), b.skip(1))
    }
}

/// The texts are in order.
pub open spec fn sorted(s: Seq<Seq<char>>) -> bool {
    forall|i: int, j: int| 0 <= i < j < s.len() ==> lex_le(#[trigger] s[i], #[trigger] s[j])
}

proof fn lemma_lex_total(a: Seq<char>, b: Seq<char>)
    ensures
        lex_le(a, b) || lex_le(b, a),
    decreases a.len(),
{
    if a.len() > 0 && b.len() > 0 && (a[0] as u32) == (b[0] as u32) {
        lemma_lex_total(a.skip(1), b.skip(1));
    }
}

proof fn lemma_lex_trans(a: Seq<char>, b: Seq<char>, c: Seq<char>)
    requires
        lex_le(a, b),
        lex_le(b, c),
    ensures
        lex_le(a, c),
    decreases a.len(),
{
    if a.len() > 0 && b.len() > 0 && c.len() > 0 && (a[0] as u32) == (b[0] as u32) && (b[0] as u32) == (c[0] as u32) {
        lemma_lex_trans(a.skip(1), b.skip(1), c.skip(1));
    }
}

/// Whether `a` comes before or equals `b`.
fn text_le(a: &Vec<char>, b: &Vec<char>) -> (r: bool)
    ensures
        r == lex_le(a@, b@),
{
    let mut i: usize = 0;
    proof {
        assert(a@.skip(0) =~= a@);
        assert(b@.skip(0) =~= b@);
    }
    while i < a.len() && i < b.len() && (a[i] as u32) == (b[i] as u32)
        invariant
            i <= a.len(),
            i <= b.len(),
            lex_le(a@, b@) == lex_le(a@.skip(i as int), b@.skip(i as int)),
        decreases a.len() - i,
    {
        proof {
            assert(a@.skip(i as int).skip(1) =~= a@.skip(i + 1));
            assert(b@.skip(i as int).skip(1) =~= b@.skip(i + 1));
        }
        i += 1;
    }
    if i == a.len() {
        true
    } else if i == b.len() {
        false
    } else {
        proof {
            assert(a@.skip(i as int)[0] == a@[i as int]);
            assert(b@.skip(i as int)[0] == b@[i as int]);
        }
        (a[i] as u32) < (b[i] as u32)
    }
}

/// `&`, `<`, `>`, `"` and `'` written as xml entities.
pub open spec fn escaped(s: Seq<char>) -> Seq<char>
    decreases s.len(),
{
    if s.len() == 0 {
        Seq::empty()
    } else {
        escaped(s.drop_last()) + escape_char(s.last())
    }
}

pub open spec fn escape_char(c: char) -> Seq<char> {
    if c == '&' {
        "&amp;"@
    } else if c == '<' {
        "&lt;"@
    } else if c == '>' {
        "&gt;"@
    } else if c == '"' {
        "&quot;"@
    } else if c == '\'' {
        "&apos;"@
    } else {
        seq![c]
    }
}

/// Escapes the characters that xml text cannot hold.
pub fn escape_xml(s: &str) -> (r: String)
    ensures
        r@ == escaped(s@),
{
    let cs = str_chars(s);
    let mut r = String::new();
    let mut i: usize = 0;
    while i < cs.len()
        invariant
            cs@ == s@,
            i <= cs.len(),
            r@ == escaped(cs@.take(i as int)),
        decreases cs.len() - i,
    {
        let c = cs[i];
        if c == '&' {
            push_str(&mut r, "&amp;");
        } else if c == '<' {
            push_str(&mut r, "&lt;");
        } else if c == '>' {
            push_str(&mut r, "&gt;");
        } else if c == '"' {
            push_str(&mut r, "&quot;");
        } else if c == '\'' {
            push_str(&mut r, "&apos;");
        } else {
            push_char(&mut r, c);
        }
        proof {
            assert(cs@.take(i + 1).drop_last() =~= cs@.take(i as int));
        }
        i += 1;
    }
    proof {
        assert(cs@.take(cs@.len() as int) =~= cs@);
    }
    r
}

/// The location of a page: the host, without trailing slashes, before its path.
pub open spec fn location(host: Option<Seq<char>>, path: Seq<char>) -> Seq<char> {
    match host {
        Some(h) => without_trailing_slashes(h) + path,
        None => path,
    }
}

/// `s` without the slashes it ends with.
pub open spec fn without_trailing_slashes(s: Seq<char>) -> Seq<char>
    decreases s.len(),
{
    if s.len() > 0 && s.last() == '/' {
        without_trailing_slashes(s.drop_last())
    } else {
        s
    }
}

/// The xml of one url.
pub open spec fn url_entry(loc: Seq<char>) -> Seq<char> {
    "\n  <url>\n    <loc>"@ + escaped(loc) + "</loc>\n  </url>"@
}

/// The entries of `locs`, in order.
pub open spec fn url_entries(locs: Seq<Seq<char>>) -> Seq<char>
    decreases locs.len(),
{
    if locs.len() == 0 {
        Seq::empty()
    } else {
        url_entries(locs.drop_last()) + url_entry(locs.last())
    }
}

/// The sitemap document of the locations `locs`, which are in order.
pub open spec fn sitemap_text(locs: Seq<Seq<char>>) -> Seq<char> {
    "<?xml version=\"1.0\" encoding=\"UTF-8\"?>"@ + "<urlset xmlns=\"http://www.sitemaps.org/schemas/sitemap/0.9\">"@
        + url_entries(locs) + "\n</urlset>"@
}

/// Represents the Sitemap Protocol XML structure.
pub struct Sitemap {
    urls: Vec<String>,
}

/// The views of a list of strings.
pub open spec fn texts(v: Seq<String>) -> Seq<Seq<char>> {
    Seq::new(v.len(), |i: int| v[i]@)
}

impl Sitemap {
    /// The location of each page.
    pub closed spec fn locations(&self) -> Seq<Seq<char>> {
        texts(self.urls@)
    }

    /// A sitemap of the pages at `paths`, with `host` put before each path when given.
    pub fn build(paths: &Vec<String>, host: Option<&str>) -> (s: Sitemap)
        ensures
            s.locations() == Seq::new(paths@.len(), |i: int| location(
                match host {
                    Some(h) => Some(h@),
                    None => None,
                },
                paths@[i]@,
            )),
    {
        let ghost h = match host {
            Some(h) => Some(h@),
            None => None::<Seq<char>>,
        };
        let prefix = match host {
            Some(h) => {
                let cs = str_chars(h);
                let mut n = cs.len();
                proof {
                    assert(cs@.take(n as int) =~= cs@);
                }
                while n > 0 && cs[n - 1] == '/'
                    invariant
                        n <= cs.len(),
                        without_trailing_slashes(cs@.take(n as int)) == without_trailing_slashes(cs@),
                    decreases n,
                {
                    proof {
                        assert(cs@.take(n as int).drop_last() =~= cs@.take(n - 1));
                    }
                    n -= 1;
                }
                let p = crate::text::string_from_range(&cs, 0, n);
                proof {
                    assert(cs@.subrange(0, n as int) =~= cs@.take(n as int));
                }
                p
            },
            None => String::new(),
        };
        proof {
            if h is None {
                assert(prefix@ =~= Seq::<char>::empty());
            }
        }
        let mut urls: Vec<String> = Vec::new();
        let mut i: usize = 0;
        proof {
            assert(texts(urls@) =~= Seq::new(0, |k: int| location(h, paths@[k]@)));
        }
        while i < paths.len()
            invariant
                i <= paths.len(),
                h == (match host {
                    Some(h) => Some(h@),
                    None => None::<Seq<char>>,
                }),
                h matches Some(hh) ==> prefix@ == without_trailing_slashes(hh),
                h is None ==> prefix@ == Seq::<char>::empty(),
                urls@.len() == i,
                texts(urls@) == Seq::new(i as nat, |k: int| location(h, paths@[k]@)),
            decreases paths.len() - i,
        {
            let mut loc = String::new();
            push_str(&mut loc, prefix.as_str());
            push_str(&mut loc, paths[i].as_str());
            let ghost v = loc@;
            let ghost before = urls@;
            urls.push(loc);
            proof {
                assert(v =~= location(h, paths@[i as int]@));
                assert(before.len() == i);
                assert forall|k: int| 0 <= k < i implies #[trigger] texts(urls@)[k] == texts(before)[k] by {
                    assert(urls@[k] == before[k]);
                }
                assert(texts(urls@) =~= Seq::new((i + 1) as nat, |k: int| location(h, paths@[k]@)));
            }
            i += 1;
        }
        Sitemap { urls }
    }

    /// The locations, in order.
    fn sorted_locations(&self) -> (r: Vec<Vec<char>>)
        ensures
            sorted(Seq::new(r@.len(), |i: int| r@[i]@)),
            Seq::new(r@.len(), |i: int| r@[i]@).to_multiset() == self.locations().to_multiset(),
    {
        let ghost locs = self.locations();
        let mut r: Vec<Vec<char>> = Vec::new();
        let mut i: usize = 0;
        while i < self.urls.len()
            invariant
                i <= self.urls.len(),
                locs == texts(self.urls@),
                sorted(Seq::new(r@.len(), |k: int| r@[k]@)),
                Seq::new(r@.len(), |k: int| r@[k]@).to_multiset() == locs.take(i as int).to_multiset(),
            decreases self.urls.len() - i,
        {
            let x = str_chars(self.urls[i].as_str());
            let ghost rv = Seq::new(r@.len(), |k: int| r@[k]@);
            // first position whose text comes after `x`
            let mut p: usize = 0;
            while p < r.len() && text_le(&r[p], &x)
                invariant
                    p <= r.len(),
                    rv == Seq::new(r@.len(), |k: int| r@[k]@),
                    forall|k: int| 0 <= k < p ==> lex_le(#[trigger] rv[k], x@),
                decreases r.len() - p,
            {
                p += 1;
            }
            let ghost xv = x@;
            proof {
                if p < r.len() {
                    assert(!lex_le(rv[p as int], xv));
                    lemma_lex_total(rv[p as int], xv);
                }
            }
            r.insert(p, x);
            proof {
                let nv = Seq::new(r@.len(), |k: int| r@[k]@);
                assert(nv =~= rv.insert(p as int, xv));
                assert forall|a: int, b: int| 0 <= a < b < nv.len() implies lex_le(#[trigger] nv[a], #[trigger] nv[b]) by {
                    if b < p {
                        assert(nv[a] == rv[a] && nv[b] == rv[b]);
                    } else if b == p {
                        assert(nv[a] == rv[a]);
                    } else if a < p {
                        assert(nv[a] == rv[a] && nv[b] == rv[b - 1]);
                        lemma_lex_trans(rv[a], xv, rv[p as int]);
                        if b - 1 > p {
                            lemma_lex_trans(rv[a], rv[p as int], rv[b - 1]);
                        }
                    } else if a == p {
                        assert(nv[b] == rv[b - 1]);
                        if b - 1 > p {
                            lemma_lex_trans(xv, rv[p as int], rv[b - 1]);
                        }
                    } else {
                        assert(nv[a] == rv[a - 1] && nv[b] == rv[b - 1]);
                    }
                }
                vstd::seq_lib::to_multiset_insert(rv, p as int, xv);
                assert(locs.take(i + 1) =~= locs.take(i as int).push(locs[i as int]));
                vstd::seq_lib::to_multiset_build(locs.take(i as int), locs[i as int]);
            }
            i += 1;
        }
        proof {
            assert(locs.take(self.urls@.len() as int) =~= locs);
        }
        r
    }

    /// The sitemap document: the locations in order, each escaped.
    pub fn to_string(&self) -> (s: String)
        ensures
            exists|ordered: Seq<Seq<char>>|
                sorted(ordered) && ordered.to_multiset() == self.locations().to_multiset() && s@ == sitemap_text(ordered),
    {
        let sorted_locs = self.sorted_locations();
        let ghost ordered = Seq::new(sorted_locs@.len(), |i: int| sorted_locs@[i]@);
        let mut s = String::new();
        push_str(&mut s, "<?xml version=\"1.0\" encoding=\"UTF-8\"?>");
        push_str(&mut s, "<urlset xmlns=\"http://www.sitemaps.org/schemas/sitemap/0.9\">");
        let ghost head = s@;
        let mut i: usize = 0;
        while i < sorted_locs.len()
            invariant
                i <= sorted_locs.len(),
                ordered == Seq::new(sorted_locs@.len(), |k: int| sorted_locs@[k]@),
                s@ == head + url_entries(ordered.take(i as int)),
            decreases sorted_locs.len() - i,
        {
            let loc = crate::text::string_from_chars(&sorted_locs[i]);
            push_str(&mut s, "\n  <url>\n    <loc>");
            let e = escape_xml(loc.as_str());
            push_str(&mut s, e.as_str());
            push_str(&mut s, "</loc>\n  </url>");
            proof {
                assert(ordered.take(i + 1).drop_last() =~= ordered.take(i as int));
                assert(ordered.take(i + 1).last() == loc@);
            }
            i += 1;
        }
        push_str(&mut s, "\n</urlset>");
        proof {
            assert(ordered.take(ordered.len() as int) =~= ordered);
            assert(s@ =~= sitemap_text(ordered));
        }
        s
    }
}

} // verus!
