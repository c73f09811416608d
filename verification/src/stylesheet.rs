//! Stylesheet representation for resource discovering and condensing
//! multiple stylesheets into one.
use vstd::prelude::*;

use crate::pattern::{find_matches, matches_view, regex_matches};
use crate::text::{push_str, replace_all, replaced, str_eq};

verus! {

/// The view of a list of strings.
pub open spec fn strings_view(v: Seq<String>) -> Seq<Seq<char>> {
    Seq::new(v.len(), |i: int| v[i]@)
}

/// The view of the resource table: (resource, raw texts that refer to it).
pub open spec fn table_view(v: Seq<(String, Vec<String>)>) -> Seq<(Seq<char>, Seq<Seq<char>>)> {
    Seq::new(v.len(), |i: int| (v[i].0@, strings_view(v[i].1@)))
}

/// No resource occurs twice, and no raw text twice for one resource.
pub open spec fn table_ok(t: Seq<(Seq<char>, Seq<Seq<char>>)>) -> bool {
    &&& forall|i: int, j: int| 0 <= i < j < t.len() ==> t[i].0 != t[j].0
    &&& forall|i: int| 0 <= i < t.len() ==> (#[trigger] t[i]).1.no_duplicates()
}

/// `url("<path>")`.
pub open spec fn url_text(path: Seq<char>) -> Seq<char> {
    seq!['u', 'r', 'l', '(', '"'] + path + seq!['"', ')']
}

/// `content` with each of `raws`, in turn, replaced by `to`.
pub open spec fn replaced_each(content: Seq<char>, raws: Seq<Seq<char>>, to: Seq<char>) -> Seq<char>
    decreases raws.len(),
{
    if raws.len() == 0 {
        content
    } else {
        replaced(replaced_each(content, raws.drop_last(), to), raws.last(), to)
    }
}

/// The regular expression for local urls (`url("./...")`), the path in group 1.
pub const LOCAL_URL_PATTERN: &'static str = r#"url\("?(\.[^)"]*)"?\)"#;

/// The (raw text, path) of each match that has both.
pub open spec fn local_urls(ms: Seq<Seq<Option<Seq<char>>>>) -> Seq<(Seq<char>, Seq<char>)>
    decreases ms.len(),
{
    if ms.len() == 0 {
        Seq::empty()
    } else {
        let rest = local_urls(ms.drop_last());
        let g = ms.last();
        if g.len() > 1 && g[0] is Some && g[1] is Some {
            rest.push((g[0]->0, g[1]->0))
        } else {
            rest
        }
    }
}

/// The local urls of a stylesheet text, as (raw text, relative path); none
/// when the pattern does not compile.
pub open spec fn local_urls_in(content: Seq<char>) -> Seq<(Seq<char>, Seq<char>)> {
    match regex_matches(LOCAL_URL_PATTERN@, content) {
        Some(ms) => local_urls(ms),
        None => Seq::empty(),
    }
}

/// The local urls of the matches `ms`.
pub fn urls_from_matches(ms: &Vec<Vec<Option<String>>>) -> (r: Vec<(String, String)>)
    ensures
        Seq::new(r@.len(), |i: int| (r@[i].0@, r@[i].1@)) == local_urls(matches_view(ms@)),
{
    let ghost mv = matches_view(ms@);
    let mut r: Vec<(String, String)> = Vec::new();
    let mut k: usize = 0;
    while k < ms.len()
        invariant
            k <= ms.len(),
            mv == matches_view(ms@),
            Seq::new(r@.len(), |i: int| (r@[i].0@, r@[i].1@)) == local_urls(mv.take(k as int)),
        decreases ms.len() - k,
    {
        let ghost before = r@;
        let g = &ms[k];
        if g.len() > 1 {
            match (&g[0], &g[1]) {
                (Some(raw), Some(path)) => {
                    r.push((raw.clone(), path.clone()));
                },
                _ => {},
            }
        }
        proof {
            assert(mv.take(k + 1).drop_last() =~= mv.take(k as int));
            assert(Seq::new(r@.len(), |i: int| (r@[i].0@, r@[i].1@)) =~= local_urls(mv.take(k + 1)));
        }
        k += 1;
    }
    proof {
        assert(mv.take(ms@.len() as int) =~= mv);
    }
    r
}

/// The local urls of a stylesheet text, as (raw text, relative path).
pub fn local_resources(content: &str) -> (r: Vec<(String, String)>)
    ensures
        Seq::new(r@.len(), |i: int| (r@[i].0@, r@[i].1@)) == local_urls_in(content@),
{
    match find_matches(LOCAL_URL_PATTERN, content) {
        Some(ms) => urls_from_matches(&ms),
        None => {
            let r: Vec<(String, String)> = Vec::new();
            assert(Seq::new(r@.len(), |i: int| (r@[i].0@, r@[i].1@)) =~= Seq::<(Seq<char>, Seq<char>)>::empty());
            r
        },
    }
}

/// Stylesheet representation for resource discovering and condensing multiple stylesheets into one
#[derive(Debug)]
pub struct Stylesheet {
    content: String,
    /// raw resource texts inside of content, by the canonical path of the resource
    resources: Vec<(String, Vec<String>)>,
}

impl Stylesheet {
    #[verifier::type_invariant]
    spec fn inv(self) -> bool {
        table_ok(table_view(self.resources@))
    }

    pub closed spec fn content(&self) -> Seq<char> {
        self.content@
    }

    /// Each resource with the raw texts that refer to it, in the order they were added.
    pub closed spec fn table(&self) -> Seq<(Seq<char>, Seq<Seq<char>>)> {
        table_view(self.resources@)
    }

    /// create new empty stylesheet
    pub fn new() -> (s: Stylesheet)
        ensures
            s.content() == Seq::<char>::empty(),
            s.table() == Seq::<(Seq<char>, Seq<Seq<char>>)>::empty(),
    {
        let s = Stylesheet { content: String::new(), resources: Vec::new() };
        assert(s.table() =~= Seq::<(Seq<char>, Seq<Seq<char>>)>::empty());
        s
    }

    fn position(&self, resource: &str) -> (r: Option<usize>)
        ensures
            r matches Some(j) ==> j < self.table().len() && self.table()[j as int].0 == resource@,
            r is None ==> forall|j: int| 0 <= j < self.table().len() ==> self.table()[j].0 != resource@,
    {
        let mut j: usize = 0;
        while j < self.resources.len()
            invariant
                j <= self.resources.len(),
                forall|i: int| 0 <= i < j ==> self.table()[i].0 != resource@,
            decreases self.resources.len() - j,
        {
            if str_eq(self.resources[j].0.as_str(), resource) {
                return Some(j);
            }
            j += 1;
        }
        None
    }

    /// Records that `raw` in the content refers to `input`.
    pub fn add_resource(&mut self, input: String, raw: String)
        ensures
            final(self).content() == old(self).content(),
            ({
                let t = old(self).table();
                match Self::index_of(t, input@) {
                    Some(j) => final(self).table() == t.update(j, (input@, if t[j].1.contains(raw@) {
                        t[j].1
                    } else {
                        t[j].1.push(raw@)
                    })),
                    None => final(self).table() == t.push((input@, seq![raw@])),
                }
            }),
    {
        proof {
            use_type_invariant(&*self);
        }
        let ghost t = self.table();
        match self.position(input.as_str()) {
            Some(j) => {
                proof {
                    Self::lemma_index_of(t, input@, j as int);
                }
                let mut entry: (String, Vec<String>) = (String::new(), Vec::new());
                let mut resources: Vec<(String, Vec<String>)> = Vec::new();
                std::mem::swap(&mut resources, &mut self.resources);
                std::mem::swap(&mut entry, &mut resources[j]);
                let (key, mut raws) = entry;
                let mut k: usize = 0;
                let mut found = false;
                while k < raws.len()
                    invariant
                        k <= raws.len(),
                        found ==> strings_view(raws@).contains(raw@),
                        !found ==> forall|i: int| 0 <= i < k ==> raws@[i]@ != raw@,
                    decreases raws.len() - k,
                {
                    if str_eq(raws[k].as_str(), raw.as_str()) {
                        found = true;
                        assert(strings_view(raws@)[k as int] == raw@);
                    }
                    k += 1;
                }
                let ghost old_raws = strings_view(raws@);
                if !found {
                    raws.push(raw);
                    proof {
                        assert(!old_raws.contains(raw@)) by {
                            if old_raws.contains(raw@) {
                                let i = choose|i: int| 0 <= i < old_raws.len() && old_raws[i] == raw@;
                                assert(raws@[i]@ == raw@);
                            }
                        }
                        assert(strings_view(raws@) =~= old_raws.push(raw@));
                    }
                }
                resources.set(j, (key, raws));
                proof {
                    assert(table_view(resources@) =~= t.update(j as int, (input@, if t[j as int].1.contains(raw@) {
                        t[j as int].1
                    } else {
                        t[j as int].1.push(raw@)
                    })));
                    assert forall|i: int| 0 <= i < table_view(resources@).len() implies (#[trigger] table_view(resources@)[i]).1.no_duplicates() by {
                        if i == j {
                            assert(t[i].1.no_duplicates());
                        } else {
                            assert(table_view(resources@)[i] == t[i]);
                        }
                    }
                }
                self.resources = resources;
            },
            None => {
                proof {
                    Self::lemma_index_of_none(t, input@);
                }
                let ghost key = input@;
                let raws = vec![raw];
                let mut resources: Vec<(String, Vec<String>)> = Vec::new();
                std::mem::swap(&mut resources, &mut self.resources);
                resources.push((input, raws));
                proof {
                    assert(strings_view(raws@) =~= seq![raw@]);
                    assert(table_view(resources@) =~= t.push((key, seq![raw@])));
                    assert(seq![raw@].no_duplicates());
                }
                self.resources = resources;
            },
        }
    }

    /// Index of `key` in the table.
    pub open spec fn index_of(t: Seq<(Seq<char>, Seq<Seq<char>>)>, key: Seq<char>) -> Option<int> {
        if exists|j: int| 0 <= j < t.len() && t[j].0 == key {
            Some(choose|j: int| 0 <= j < t.len() && t[j].0 == key)
        } else {
            None
        }
    }

    proof fn lemma_index_of(t: Seq<(Seq<char>, Seq<Seq<char>>)>, key: Seq<char>, j: int)
        requires
            table_ok(t),
            0 <= j < t.len(),
            t[j].0 == key,
        ensures
            Self::index_of(t, key) == Some(j),
    {
        let k = choose|k: int| 0 <= k < t.len() && t[k].0 == key;
        if k < j {
            assert(t[k].0 != t[j].0);
        } else if j < k {
            assert(t[j].0 != t[k].0);
        }
    }

    proof fn lemma_index_of_none(t: Seq<(Seq<char>, Seq<Seq<char>>)>, key: Seq<char>)
        requires
            forall|j: int| 0 <= j < t.len() ==> t[j].0 != key,
        ensures
            Self::index_of(t, key) is None,
    {
    }

    /// Adds the text of another stylesheet at the end.
    pub fn append_content(&mut self, content: &str)
        ensures
            final(self).content() == old(self).content() + content@,
            final(self).table() == old(self).table(),
    {
        proof {
            use_type_invariant(&*self);
        }
        let mut text = String::new();
        std::mem::swap(&mut text, &mut self.content);
        push_str(&mut text, content);
        self.content = text;
    }

    /// Get all cannonicalized path to resources in stylesheet
    pub fn resources(&self) -> (r: Vec<&String>)
        ensures
            r@.len() == self.table().len(),
            forall|i: int| 0 <= i < r@.len() ==> r@[i]@ == self.table()[i].0,
    {
        let mut r: Vec<&String> = Vec::new();
        let mut i: usize = 0;
        while i < self.resources.len()
            invariant
                i <= self.resources.len(),
                r@.len() == i,
                forall|j: int| 0 <= j < i ==> r@[j]@ == self.table()[j].0,
            decreases self.resources.len() - i,
        {
            r.push(&self.resources[i].0);
            i += 1;
        }
        r
    }

    /// Update a resource input path to a new one: every raw text that refers
    /// to `resource` is replaced by `url("<updated_resource>")`, and from then
    /// on that text is how the stylesheet refers to the resource, so a later
    /// update replaces it in turn. False when the stylesheet does not refer to
    /// `resource`.
    pub fn update_resource(&mut self, resource: &str, updated_resource: String) -> (found: bool)
        ensures
            found == (Self::index_of(old(self).table(), resource@) is Some),
            !found ==> final(self).content() == old(self).content() && final(self).table() == old(self).table(),
            found ==> {
                let t = old(self).table();
                let j = Self::index_of(t, resource@)->0;
                &&& final(self).content() == replaced_each(old(self).content(), t[j].1, url_text(updated_resource@))
                &&& final(self).table() == t.update(j, (t[j].0, seq![url_text(updated_resource@)]))
            },
    {
        proof {
            use_type_invariant(&*self);
        }
        let ghost t = self.table();
        match self.position(resource) {
            None => {
                proof {
                    Self::lemma_index_of_none(t, resource@);
                }
                false
            },
            Some(j) => {
                proof {
                    Self::lemma_index_of(t, resource@, j as int);
                }
                let mut url = String::new();
                push_str(&mut url, "url(\"");
                push_str(&mut url, updated_resource.as_str());
                push_str(&mut url, "\")");
                proof {
                    reveal_strlit("url(\"");
                    reveal_strlit("\")");
                    assert(url@ =~= url_text(updated_resource@));
                }
                let ghost raws = t[j as int].1;
                let ghost start = self.content@;
                let mut k: usize = 0;
                while k < self.resources[j].1.len()
                    invariant
                        j < self.resources.len(),
                        table_view(self.resources@) == t,
                        table_ok(t),
                        raws == t[j as int].1,
                        k <= raws.len(),
                        self.content@ == replaced_each(start, raws.take(k as int), url@),
                    decreases raws.len() - k,
                {
                    let updated = replace_all(self.content.as_str(), self.resources[j].1[k].as_str(), url.as_str());
                    self.content = updated;
                    proof {
                        assert(raws.take(k + 1).drop_last() =~= raws.take(k as int));
                        assert(raws[k as int] == self.resources@[j as int].1@[k as int]@);
                    }
                    k += 1;
                }
                proof {
                    assert(raws.take(raws.len() as int) =~= raws);
                }
                let ghost key = t[j as int].0;
                let mut resources: Vec<(String, Vec<String>)> = Vec::new();
                std::mem::swap(&mut resources, &mut self.resources);
                let mut entry: (String, Vec<String>) = (String::new(), Vec::new());
                std::mem::swap(&mut entry, &mut resources[j]);
                let (name, _old_raws) = entry;
                let ghost u = url@;
                resources.set(j, (name, vec![url]));
                proof {
                    assert(strings_view(resources@[j as int].1@) =~= seq![u]);
                    assert(table_view(resources@) =~= t.update(j as int, (key, seq![u])));
                    assert forall|i: int| 0 <= i < table_view(resources@).len() implies (#[trigger] table_view(resources@)[i]).1.no_duplicates() by {
                        if i == j {
                            assert(seq![u].no_duplicates());
                        } else {
                            assert(table_view(resources@)[i] == t[i]);
                        }
                    }
                }
                self.resources = resources;
                true
            },
        }
    }

    pub fn to_string(self) -> (s: String)
        ensures
            s@ == self.content(),
    {
        self.content
    }
}

} // verus!
