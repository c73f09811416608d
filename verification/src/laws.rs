//! Properties that hold across the operations of the library.
use vstd::prelude::*;

use crate::domtree::{stack_order, with_tag, DomNodeKind, DomTree};
use crate::html::{merge_texts, SpecHtml};
use crate::sitetree::relational_graph::{not_touching, with_link, SpecLink};
use crate::sitemap::{lex_le, sorted};
use crate::sitetree::site_tree::{flat_child, page_holder, reaches_root, SiteNodeKind, SiteTree};
use crate::markdown::{join_lines, kept_lines, sanitized_text, split_char, trim, trim_end, trim_start, whitespace};
use crate::text::replaced;
use crate::modules::MediaOptions;
use crate::media::spec_should_resize;
use crate::nav::{menu_items, shown_name, SpecEntry};
use crate::sitetree::site_id::SiteId;
use crate::sitetree::site_tree::relative_path;
use crate::markdown::inline::{close_bracket, link_parts, link_title};
use crate::html::blen;
use crate::char_reader::find_char;
use crate::html::{attrs_from, attrs_of, name_from, tag_name};
use crate::blog::{insert_newest, listed, newest_first, RssPost};
use crate::markdown::SpecToken;
use crate::markdown::lexer::{block_text, Parsed};
use crate::markdown::inline::{char_step, inline_from, inline_of, inline_rule, Lexed, Rule};

verus! {

/// Consuming `a` characters and then `b` more reads the same text, and leaves
/// the same input, as consuming `a + b` characters at once.
pub proof fn law_consume_in_pieces(s: Seq<char>, a: int, b: int)
    requires
        0 <= a,
        0 <= b,
    ensures
        ({
            let na = if a < s.len() { a } else { s.len() as int };
            let rest = s.skip(na);
            let nb = if b < rest.len() { b } else { rest.len() as int };
            let n = if a + b < s.len() { a + b } else { s.len() as int };
            &&& s.take(na) + rest.take(nb) == s.take(n)
            &&& rest.skip(nb) == s.skip(n)
        }),
{
    let na = if a < s.len() { a } else { s.len() as int };
    let rest = s.skip(na);
    let nb = if b < rest.len() { b } else { rest.len() as int };
    let n = if a + b < s.len() { a + b } else { s.len() as int };
    assert(s.take(na) + rest.take(nb) =~= s.take(n));
    assert(rest.skip(nb) =~= s.skip(n));
}

/// After merging, no two text tokens stand next to each other.
pub proof fn law_merged_texts_apart(ts: Seq<SpecHtml>)
    ensures
        forall|i: int| 0 <= i < merge_texts(ts).len() - 1 ==>
            !(merge_texts(ts)[i] is Text && #[trigger] merge_texts(ts)[i + 1] is Text),
    decreases ts.len(),
{
    if ts.len() > 0 {
        law_merged_texts_apart(ts.drop_last());
        let m = merge_texts(ts.drop_last());
        let r = merge_texts(ts);
        let t = ts.last();
        if t is Text && m.len() > 0 && m.last() is Text {
            assert(r == m.drop_last().push(SpecHtml::Text(m.last()->Text_0 + t->Text_0)));
            assert forall|i: int| 0 <= i < r.len() - 1 implies !(r[i] is Text && #[trigger] r[i + 1] is Text) by {
                assert(r[i] == m[i]);
                if i + 1 < r.len() - 1 {
                    assert(r[i + 1] == m[i + 1]);
                }
            }
        } else {
            assert(r == m.push(t));
            assert forall|i: int| 0 <= i < r.len() - 1 implies !(r[i] is Text && #[trigger] r[i + 1] is Text) by {
                assert(r[i] == m[i]);
                if i + 1 < r.len() - 1 {
                    assert(r[i + 1] == m[i + 1]);
                }
            }
        }
    }
}

/// A map read after a write gives back what was written, and only that key changed.
pub proof fn law_read_after_write<V>(m: Map<Seq<char>, V>, key: Seq<char>, value: V, other: Seq<char>)
    requires
        other != key,
    ensures
        m.insert(key, value).contains_key(key),
        m.insert(key, value)[key] == value,
        m.insert(key, value).contains_key(other) == m.contains_key(other),
        m.contains_key(other) ==> m.insert(key, value)[other] == m[other],
{
}

/// Every id that `with_tag` keeps was among the given ids and is an element
/// with that tag.
pub proof fn law_with_tag_sound(t: DomTree, ids: Seq<usize>, tag: Seq<char>)
    ensures
        forall|k: int| 0 <= k < with_tag(t, ids, tag).len() ==> {
            let x = #[trigger] with_tag(t, ids, tag)[k];
            &&& ids.contains(x)
            &&& t.kind_of(x as int) matches DomNodeKind::Element { tag: tg, .. } && tg@ == tag
        },
    decreases ids.len(),
{
    if ids.len() > 0 {
        law_with_tag_sound(t, ids.drop_last(), tag);
        let rest = with_tag(t, ids.drop_last(), tag);
        let w = with_tag(t, ids, tag);
        assert forall|k: int| 0 <= k < w.len() implies {
            let x = #[trigger] w[k];
            &&& ids.contains(x)
            &&& t.kind_of(x as int) matches DomNodeKind::Element { tag: tg, .. } && tg@ == tag
        } by {
            if k < rest.len() {
                assert(w[k] == rest[k]);
                let x = rest[k];
                let j = choose|j: int| 0 <= j < ids.drop_last().len() && ids.drop_last()[j] == x;
                assert(ids[j] == x);
            } else {
                assert(w[k] == ids.last());
                assert(ids[ids.len() - 1] == ids.last());
            }
        }
    }
}

/// The depth first order of a subtree holds live nodes only.
pub proof fn law_preorder_live(t: DomTree, id: usize)
    ensures
        forall|k: int| 0 <= k < t.preorder(id as int).len() ==> t.live(#[trigger] t.preorder(id as int)[k] as int),
    decreases t.size() - id, t.children_of(id as int).len() + 1,
{
    if t.live(id as int) && id < t.size() {
        lemma_preorder_children_live(t, id as int, 0);
        let p = t.preorder(id as int);
        assert(p == seq![id] + t.preorder_children(id as int, 0));
        assert forall|k: int| 0 <= k < p.len() implies t.live(#[trigger] p[k] as int) by {
            if k > 0 {
                assert(p[k] == t.preorder_children(id as int, 0)[k - 1]);
            }
        }
    }
}

proof fn lemma_preorder_children_live(t: DomTree, id: int, k: int)
    ensures
        forall|j: int| 0 <= j < t.preorder_children(id, k).len() ==> t.live(#[trigger] t.preorder_children(id, k)[j] as int),
    decreases t.size() - id, t.children_of(id).len() - k,
{
    let cs = t.children_of(id);
    if 0 <= k < cs.len() && id >= 0 {
        let c = cs[cs.len() - 1 - k];
        if c > id && c <= t.size() {
            law_preorder_live(t, c);
            lemma_preorder_children_live(t, id, k + 1);
            let a = t.preorder(c as int);
            let b = t.preorder_children(id, k + 1);
            assert(t.preorder_children(id, k) == a + b);
            assert forall|j: int| 0 <= j < (a + b).len() implies t.live(#[trigger] (a + b)[j] as int) by {
                if j < a.len() {
                    assert((a + b)[j] == a[j]);
                } else {
                    assert((a + b)[j] == b[j - a.len()]);
                }
            }
        }
    }
}

/// One step of a depth first traversal: with `id` on top of the stack, the
/// traversal visits `id` and then what its children, pushed in order, lead to.
pub proof fn law_dfs_step(t: DomTree, rest: Seq<usize>, id: usize)
    requires
        t.wf(),
        t.live(id as int),
    ensures
        stack_order(t, rest.push(id)) == seq![id] + stack_order(t, rest + t.children_of(id as int)),
{
    crate::domtree::lemma_stack_children(t, id as int, rest, 0);
    let cs = t.children_of(id as int);
    assert(cs.subrange(0, cs.len() as int) =~= cs);
    assert(rest.push(id).drop_last() =~= rest);
    assert(t.preorder(id as int) == seq![id] + t.preorder_children(id as int, 0));
    assert(stack_order(t, rest.push(id)) =~= seq![id] + stack_order(t, rest + cs));
}

/// A link that was added is kept in the lists of both its ends.
pub proof fn law_added_link_at_both_ends(g: Seq<Seq<SpecLink>>, l: SpecLink)
    ensures
        with_link(g, l)[l.0 as int].contains(l),
        with_link(g, l)[l.1 as int].contains(l),
{
    let g2 = with_link(g, l);
    let last = g2[l.1 as int].len() - 1;
    assert(g2[l.1 as int][last] == l);
    if l.0 != l.1 {
        let k = g2[l.0 as int].len() - 1;
        assert(g2[l.0 as int][k] == l);
    } else {
        assert(g2[l.0 as int][last] == l);
    }
}

/// After `remove_all`, no list holds a link to or from the removed node.
pub proof fn law_removed_links_gone(ls: Seq<SpecLink>, node: usize)
    ensures
        forall|k: int| 0 <= k < not_touching(ls, node).len() ==>
            (#[trigger] not_touching(ls, node)[k]).0 != node && not_touching(ls, node)[k].1 != node,
    decreases ls.len(),
{
    if ls.len() > 0 {
        law_removed_links_gone(ls.drop_last(), node);
        let r = not_touching(ls.drop_last(), node);
        let w = not_touching(ls, node);
        assert forall|k: int| 0 <= k < w.len() implies (#[trigger] w[k]).0 != node && w[k].1 != node by {
            if k < r.len() {
                assert(w[k] == r[k]);
            }
        }
    }
}

/// Replacing a text by itself changes nothing.
pub proof fn law_replace_by_itself(s: Seq<char>, p: Seq<char>)
    requires
        p.len() > 0,
    ensures
        replaced(s, p, p) == s,
    decreases s.len(),
{
    if s.len() >= p.len() {
        if s.take(p.len() as int) == p {
            law_replace_by_itself(s.skip(p.len() as int), p);
            assert(p + s.skip(p.len() as int) =~= s);
        } else {
            law_replace_by_itself(s.skip(1), p);
            assert(seq![s[0]] + s.skip(1) =~= s);
        }
    }
}

proof fn lemma_lex_antisym(a: Seq<char>, b: Seq<char>)
    requires
        lex_le(a, b),
        lex_le(b, a),
    ensures
        a == b,
    decreases a.len(),
{
    if a.len() > 0 && b.len() > 0 {
        lemma_lex_antisym(a.skip(1), b.skip(1));
        vstd::utf8::char_u32_cast(a[0], a[0] as u32);
        vstd::utf8::char_u32_cast(b[0], b[0] as u32);
        assert(a[0] == b[0]);
        assert(a =~= seq![a[0]] + a.skip(1));
        assert(b =~= seq![b[0]] + b.skip(1));
    } else {
        assert(a.len() == 0 && b.len() == 0);
        assert(a =~= b);
    }
}

/// The sitemap lists its pages in one order only, whatever order they were
/// found in: two sorted orderings of the same locations are equal.
pub proof fn law_sitemap_order_unique(a: Seq<Seq<char>>, b: Seq<Seq<char>>)
    requires
        sorted(a),
        sorted(b),
        a.to_multiset() == b.to_multiset(),
    ensures
        a == b,
    decreases a.len(),
{
    broadcast use vstd::seq_lib::group_to_multiset_ensures;
    assert(a.len() == b.len()) by {
        a.to_multiset_ensures();
        b.to_multiset_ensures();
    }
    if a.len() > 0 {
        a.to_multiset_ensures();
        b.to_multiset_ensures();
        assert(b.to_multiset().count(b[0]) > 0) by {
            assert(b.contains(b[0])) by {
                assert(b[0] == b[0]);
            }
        }
        assert(a.contains(b[0]));
        let j = choose|j: int| 0 <= j < a.len() && a[j] == b[0];
        assert(a.to_multiset().count(a[0]) > 0) by {
            assert(a.contains(a[0])) by {
                assert(a[0] == a[0]);
            }
        }
        assert(b.contains(a[0]));
        let k = choose|k: int| 0 <= k < b.len() && b[k] == a[0];
        if j > 0 {
            assert(lex_le(a[0], a[j]));
        } else {
            assert(lex_le(a[0], b[0])) by {
                sitemap_lex_refl(a[0]);
            }
        }
        if k > 0 {
            assert(lex_le(b[0], b[k]));
        } else {
            sitemap_lex_refl(b[0]);
        }
        lemma_lex_antisym(a[0], b[0]);
        vstd::seq_lib::to_multiset_remove(a, 0);
        vstd::seq_lib::to_multiset_remove(b, 0);
        assert(a.remove(0) =~= a.drop_first());
        assert(b.remove(0) =~= b.drop_first());
        assert(sorted(a.drop_first())) by {
            assert forall|x: int, y: int| 0 <= x < y < a.drop_first().len() implies lex_le(#[trigger] a.drop_first()[x], #[trigger] a.drop_first()[y]) by {
                assert(a.drop_first()[x] == a[x + 1] && a.drop_first()[y] == a[y + 1]);
            }
        }
        assert(sorted(b.drop_first())) by {
            assert forall|x: int, y: int| 0 <= x < y < b.drop_first().len() implies lex_le(#[trigger] b.drop_first()[x], #[trigger] b.drop_first()[y]) by {
                assert(b.drop_first()[x] == b[x + 1] && b.drop_first()[y] == b[y + 1]);
            }
        }
        law_sitemap_order_unique(a.drop_first(), b.drop_first());
        assert(a =~= seq![a[0]] + a.drop_first());
        assert(b =~= seq![b[0]] + b.drop_first());
    } else {
        assert(a =~= b);
    }
}

proof fn sitemap_lex_refl(a: Seq<char>)
    ensures
        lex_le(a, a),
    decreases a.len(),
{
    if a.len() > 0 {
        sitemap_lex_refl(a.skip(1));
    }
}


/// Flattening a site to its pages lists each page below the root, that the
/// root reaches, under exactly one node: the nearest page above it, else the
/// root.
pub proof fn law_flattened_page_listed_once(t: SiteTree, q: int, p: int)
    requires
        0 < q < t.size(),
        reaches_root(t, q),
        t.kind_of(q) == SiteNodeKind::Page,
    ensures
        t.parent_of(q) matches Some(par) && flat_child(t, page_holder(t, par as int), q),
        flat_child(t, p, q) ==> (t.parent_of(q) matches Some(par) && p == page_holder(t, par as int)),
{
}


/// Sanitizing a text leaves every line trimmed and none empty, and
/// sanitizing the result again changes nothing.
pub proof fn law_sanitized_lines_clean(s: Seq<char>)
    ensures
        sanitized_text(s).len() > 0 ==> forall|k: int| 0 <= k < split_char(sanitized_text(s), '\n').len() ==> {
            let l = #[trigger] split_char(sanitized_text(s), '\n')[k];
            &&& l.len() > 0
            &&& trim(l) == l
        },
        sanitized_text(sanitized_text(s)) == sanitized_text(s),
{
    let ls = split_char(s, '\n');
    lemma_split_pieces(s, '\n');
    let kl = kept_lines(ls);
    lemma_kept_lines_clean(ls);
    if kl.len() == 0 {
        assert(sanitized_text(s) == Seq::<char>::empty());
        assert(split_char(Seq::<char>::empty(), '\n') =~= seq![Seq::<char>::empty()]);
        assert(seq![Seq::<char>::empty()].drop_last() =~= Seq::<Seq<char>>::empty());
        lemma_trim_empty();
        let one = seq![Seq::<char>::empty()];
        assert(one.last() == Seq::<char>::empty());
        assert(trim(one.last()).len() == 0);
        assert(kept_lines(one) == kept_lines(one.drop_last()));
        assert(kept_lines(one) =~= Seq::<Seq<char>>::empty());
    } else {
        lemma_split_join(kl);
        lemma_kept_lines_fixed(kl);
    }
}

proof fn lemma_trim_empty()
    ensures
        trim(Seq::<char>::empty()) == Seq::<char>::empty(),
{
}

/// No piece of a split holds the separator.
proof fn lemma_split_pieces(s: Seq<char>, c: char)
    ensures
        split_char(s, c).len() > 0,
        forall|k: int| 0 <= k < split_char(s, c).len() ==> !(#[trigger] split_char(s, c)[k]).contains(c),
    decreases s.len(),
{
    if s.len() > 0 {
        lemma_split_pieces(s.drop_last(), c);
        let p = split_char(s.drop_last(), c);
        let r = split_char(s, c);
        if s.last() != c {
            assert forall|k: int| 0 <= k < r.len() implies !(#[trigger] r[k]).contains(c) by {
                if k == r.len() - 1 {
                    let l = p.last().push(s.last());
                    assert(r[k] == l);
                    if l.contains(c) {
                        let i = choose|i: int| 0 <= i < l.len() && l[i] == c;
                        if i < l.len() - 1 {
                            assert(p.last()[i] == c);
                            assert(p[p.len() - 1].contains(c));
                        }
                    }
                } else {
                    assert(r[k] == p[k]);
                }
            }
        } else {
            assert forall|k: int| 0 <= k < r.len() implies !(#[trigger] r[k]).contains(c) by {
                if k < r.len() - 1 {
                    assert(r[k] == p[k]);
                }
            }
        }
    }
}

/// A trimmed text is trimmed already.
proof fn lemma_trim_idem(x: Seq<char>)
    ensures
        trim(trim(x)) == trim(x),
        trim(x).len() > 0 ==> !whitespace(trim(x)[0]) && !whitespace(trim(x).last()),
        forall|c: char| trim(x).contains(c) ==> x.contains(c),
{
    let y = trim_start(x);
    lemma_trim_start_shape(x);
    let z = trim_end(y);
    lemma_trim_end_shape(y);
    if z.len() > 0 {
        assert(z[0] == y[0]);
        assert(trim_start(z) == z);
        lemma_trim_end_shape(z);
    } else {
        assert(trim_start(z) == z);
    }
    assert forall|c: char| z.contains(c) implies x.contains(c) by {
        let i = choose|i: int| 0 <= i < z.len() && z[i] == c;
        assert(y[i] == c);
        let d = x.len() - y.len();
        assert(x[d + i] == c);
    }
}

proof fn lemma_trim_start_shape(x: Seq<char>)
    ensures
        trim_start(x).len() <= x.len(),
        trim_start(x) == x.skip(x.len() - trim_start(x).len()),
        trim_start(x).len() > 0 ==> !whitespace(trim_start(x)[0]),
    decreases x.len(),
{
    if x.len() > 0 && whitespace(x[0]) {
        lemma_trim_start_shape(x.skip(1));
        assert(x.skip(1).skip(x.skip(1).len() - trim_start(x).len()) =~= x.skip(x.len() - trim_start(x).len()));
    } else {
        assert(x.skip(0) =~= x);
    }
}

proof fn lemma_trim_end_shape(y: Seq<char>)
    ensures
        trim_end(y).len() <= y.len(),
        trim_end(y) == y.take(trim_end(y).len() as int),
        trim_end(y).len() > 0 ==> !whitespace(trim_end(y).last()),
        trim_end(y) == y || y.len() == 0 || whitespace(y.last()),
    decreases y.len(),
{
    if y.len() > 0 && whitespace(y.last()) {
        lemma_trim_end_shape(y.drop_last());
        assert(y.drop_last().take(trim_end(y).len() as int) =~= y.take(trim_end(y).len() as int));
    } else {
        assert(y.take(y.len() as int) =~= y);
    }
}

/// The kept lines are trimmed, not empty, and hold no newline where the
/// lines held none.
proof fn lemma_kept_lines_clean(ls: Seq<Seq<char>>)
    requires
        forall|k: int| 0 <= k < ls.len() ==> !(#[trigger] ls[k]).contains('\n'),
    ensures
        forall|k: int| 0 <= k < kept_lines(ls).len() ==> {
            let l = #[trigger] kept_lines(ls)[k];
            &&& l.len() > 0
            &&& trim(l) == l
            &&& !l.contains('\n')
        },
    decreases ls.len(),
{
    if ls.len() > 0 {
        lemma_kept_lines_clean(ls.drop_last());
        let t = trim(ls.last());
        lemma_trim_idem(ls.last());
        assert(!ls[ls.len() - 1].contains('\n'));
        let rest = kept_lines(ls.drop_last());
        if t.len() > 0 {
            assert forall|k: int| 0 <= k < kept_lines(ls).len() implies {
                let l = #[trigger] kept_lines(ls)[k];
                &&& l.len() > 0
                &&& trim(l) == l
                &&& !l.contains('\n')
            } by {
                if k < rest.len() {
                    assert(kept_lines(ls)[k] == rest[k]);
                }
            }
        }
    }
}

/// Lines that are trimmed and not empty are all kept, as they are.
proof fn lemma_kept_lines_fixed(ls: Seq<Seq<char>>)
    requires
        forall|k: int| 0 <= k < ls.len() ==> (#[trigger] ls[k]).len() > 0 && trim(ls[k]) == ls[k],
    ensures
        kept_lines(ls) == ls,
    decreases ls.len(),
{
    if ls.len() > 0 {
        lemma_kept_lines_fixed(ls.drop_last());
        assert(ls[ls.len() - 1] == ls.last());
        assert(ls.drop_last().push(ls.last()) =~= ls);
    }
}

/// Splitting a text made of `a`, a separator and a piece without one.
proof fn lemma_split_append(a: Seq<char>, y: Seq<char>, c: char)
    requires
        !y.contains(c),
    ensures
        split_char(a + seq![c] + y, c) == split_char(a, c).push(y),
    decreases y.len(),
{
    let s = a + seq![c] + y;
    if y.len() == 0 {
        assert(s.drop_last() =~= a);
        assert(s.last() == c);
        assert(y =~= Seq::<char>::empty());
        assert(split_char(s, c) == split_char(s.drop_last(), c).push(Seq::empty()));
    } else {
        let y0 = y.drop_last();
        assert(!y0.contains(c)) by {
            if y0.contains(c) {
                let i = choose|i: int| 0 <= i < y0.len() && y0[i] == c;
                assert(y[i] == c);
            }
        }
        lemma_split_append(a, y0, c);
        assert(s.drop_last() =~= a + seq![c] + y0);
        assert(s.last() == y.last());
        assert(y.last() != c) by {
            assert(y[y.len() - 1] == y.last());
        }
        assert(y0.push(y.last()) =~= y);
        let p = split_char(a + seq![c] + y0, c);
        assert(p == split_char(a, c).push(y0));
        assert(split_char(s, c) == p.update(p.len() - 1, p.last().push(s.last())));
        assert(p.update(p.len() - 1, p.last().push(s.last())) =~= split_char(a, c).push(y));
    }
}

/// A text without the separator is one piece.
proof fn lemma_split_single(y: Seq<char>, c: char)
    requires
        !y.contains(c),
    ensures
        split_char(y, c) == seq![y],
    decreases y.len(),
{
    if y.len() > 0 {
        let y0 = y.drop_last();
        assert(!y0.contains(c)) by {
            if y0.contains(c) {
                let i = choose|i: int| 0 <= i < y0.len() && y0[i] == c;
                assert(y[i] == c);
            }
        }
        lemma_split_single(y0, c);
        assert(y.last() != c) by {
            assert(y[y.len() - 1] == y.last());
        }
        assert(y0.push(y.last()) =~= y);
        let p = split_char(y0, c);
        assert(split_char(y, c) == p.update(p.len() - 1, p.last().push(y.last())));
        assert(p.last() == y0);
        assert(seq![y0].update(0, y0.push(y.last())) =~= seq![y]);
    } else {
        assert(y =~= Seq::<char>::empty());
        assert(split_char(y, c) =~= seq![y]);
    }
}

/// Splitting lines joined by newlines gives them back.
proof fn lemma_split_join(ls: Seq<Seq<char>>)
    requires
        ls.len() > 0,
        forall|k: int| 0 <= k < ls.len() ==> !(#[trigger] ls[k]).contains('\n'),
    ensures
        split_char(join_lines(ls), '\n') == ls,
    decreases ls.len(),
{
    if ls.len() == 1 {
        lemma_split_single(ls[0], '\n');
        assert(seq![ls[0]] =~= ls);
    } else {
        lemma_split_join(ls.drop_last());
        assert(!ls[ls.len() - 1].contains('\n'));
        lemma_split_append(join_lines(ls.drop_last()), ls.last(), '\n');
        assert(ls.drop_last().push(ls.last()) =~= ls);
    }
}


/// Reading the inline tokens inside a heading or a paragraph keeps its text
/// (and a heading's depth): only the tokens inside it are filled in.
pub proof fn law_block_text_keeps_text(t: SpecToken)
    ensures
        t matches SpecToken::Paragraph(text, _) ==> (block_text(t) matches Parsed::Done(x)
            ==> x matches SpecToken::Paragraph(text2, _) && text2 == text),
        t matches SpecToken::Heading(text, _, depth) ==> (block_text(t) matches Parsed::Done(x)
            ==> x matches SpecToken::Heading(text2, _, depth2) && text2 == text && depth2 == depth),
{
}


/// Whether `c` starts no inline rule and breaks no line.
pub open spec fn plain_char(c: char) -> bool {
    c != '<' && c != '`' && c != '!' && c != '[' && c != '*' && c != '\n'
}

proof fn lemma_plain_joins(acc: Seq<SpecToken>, t: Seq<char>, s: Seq<char>)
    requires
        forall|k: int| 0 <= k < s.len() ==> plain_char(#[trigger] s[k]),
    ensures
        inline_from(acc.push(SpecToken::Text(t)), s) == Lexed::Tokens(acc.push(SpecToken::Text(t + s))),
    decreases s.len(),
{
    if s.len() == 0 {
        assert(t + s =~= t);
    } else {
        assert(plain_char(s[0]));
        assert(inline_rule(s) == Rule::Char);
        let a = acc.push(SpecToken::Text(t));
        assert(a.drop_last() =~= acc);
        assert(char_step(a, s[0], s.len() > 1) == acc.push(SpecToken::Text(t.push(s[0]))));
        assert forall|k: int| 0 <= k < s.skip(1).len() implies plain_char(#[trigger] s.skip(1)[k]) by {
            assert(s.skip(1)[k] == s[k + 1]);
        }
        lemma_plain_joins(acc, t.push(s[0]), s.skip(1));
        assert(t.push(s[0]) + s.skip(1) =~= t + s);
    }
}

/// A text in which no character starts an inline rule or breaks a line
/// reads as one text token.
pub proof fn law_plain_text_one_token(s: Seq<char>)
    requires
        s.len() > 0,
        forall|k: int| 0 <= k < s.len() ==> plain_char(#[trigger] s[k]),
    ensures
        inline_of(s) == Lexed::Tokens(seq![SpecToken::Text(s)]),
{
    assert(plain_char(s[0]));
    assert(inline_rule(s) == Rule::Char);
    let e = Seq::<SpecToken>::empty();
    assert(char_step(e, s[0], s.len() > 1) == e.push(SpecToken::Text(seq![s[0]])));
    assert forall|k: int| 0 <= k < s.skip(1).len() implies plain_char(#[trigger] s.skip(1)[k]) by {
        assert(s.skip(1)[k] == s[k + 1]);
    }
    lemma_plain_joins(e, seq![s[0]], s.skip(1));
    assert(seq![s[0]] + s.skip(1) =~= s);
    assert(e.push(SpecToken::Text(s)) =~= seq![SpecToken::Text(s)]);
}


/// The posts that a feed lists are exactly the rendered posts with a date:
/// each listed post is rendered, has a date and comes from the order, and
/// each rendered post of the order that has a date is listed.
pub proof fn law_feed_lists_rendered_posts(posts: Seq<RssPost>, order: Seq<usize>)
    ensures
        forall|k: int| 0 <= k < listed(posts, order).len() ==> {
            let i = #[trigger] listed(posts, order)[k];
            &&& posts[i as int].render
            &&& posts[i as int].created_on is Some
            &&& order.contains(i)
        },
        forall|j: int| 0 <= j < order.len() && posts[order[j] as int].render && posts[order[j] as int].created_on is Some
            ==> listed(posts, order).contains(#[trigger] order[j]),
    decreases order.len(),
{
    if order.len() > 0 {
        let front = order.drop_last();
        law_feed_lists_rendered_posts(posts, front);
        let rest = listed(posts, front);
        let l = listed(posts, order);
        let x = order.last();
        assert forall|k: int| 0 <= k < l.len() implies {
            let i = #[trigger] l[k];
            &&& posts[i as int].render
            &&& posts[i as int].created_on is Some
            &&& order.contains(i)
        } by {
            if k < rest.len() {
                assert(l[k] == rest[k]);
                let i = rest[k];
                assert(front.contains(i));
                let a = choose|a: int| 0 <= a < front.len() && front[a] == i;
                assert(order[a] == i);
            } else {
                assert(l[k] == x);
                assert(order[order.len() - 1] == x);
            }
        }
        assert forall|j: int| 0 <= j < order.len() && posts[order[j] as int].render && posts[order[j] as int].created_on is Some
            implies l.contains(#[trigger] order[j]) by {
            if j < front.len() {
                assert(front[j] == order[j]);
                assert(rest.contains(front[j]));
                let a = choose|a: int| 0 <= a < rest.len() && rest[a] == front[j];
                assert(l[a] == rest[a]);
            } else {
                assert(order[j] == x);
                assert(l[l.len() - 1] == x);
            }
        }
    }
}

proof fn lemma_insert_newest_keeps(posts: Seq<RssPost>, s: Seq<usize>, x: usize)
    ensures
        insert_newest(posts, s, x).contains(x),
        forall|j: int| 0 <= j < s.len() ==> insert_newest(posts, s, x).contains(#[trigger] s[j]),
    decreases s.len(),
{
    let r = insert_newest(posts, s, x);
    if s.len() == 0 {
        assert(r[0] == x);
    } else if later_opt_of(posts, x, s[0]) {
        assert(r[0] == x);
        assert forall|j: int| 0 <= j < s.len() implies r.contains(#[trigger] s[j]) by {
            assert(r[j + 1] == s[j]);
        }
    } else {
        let t = s.drop_first();
        lemma_insert_newest_keeps(posts, t, x);
        let rt = insert_newest(posts, t, x);
        assert(r == seq![s[0]] + rt);
        let a = choose|a: int| 0 <= a < rt.len() && rt[a] == x;
        assert(r[a + 1] == x);
        assert forall|j: int| 0 <= j < s.len() implies r.contains(#[trigger] s[j]) by {
            if j == 0 {
                assert(r[0] == s[0]);
            } else {
                assert(t[j - 1] == s[j]);
                assert(rt.contains(t[j - 1]));
                let b = choose|b: int| 0 <= b < rt.len() && rt[b] == t[j - 1];
                assert(r[b + 1] == s[j]);
            }
        }
    }
}

/// Whether post `x` is later than post `y`.
spec fn later_opt_of(posts: Seq<RssPost>, x: usize, y: usize) -> bool {
    crate::blog::later_opt(posts[x as int].created_on, posts[y as int].created_on)
}

/// Ordering the posts newest first keeps every post.
pub proof fn law_newest_first_keeps_all(posts: Seq<RssPost>, n: nat)
    ensures
        forall|i: usize| i < n ==> #[trigger] newest_first(posts, n).contains(i),
    decreases n,
{
    if n > 0 {
        let m = (n - 1) as nat;
        law_newest_first_keeps_all(posts, m);
        let prev = newest_first(posts, m);
        lemma_insert_newest_keeps(posts, prev, m as usize);
        assert forall|i: usize| i < n implies #[trigger] newest_first(posts, n).contains(i) by {
            if i < m {
                assert(prev.contains(i));
                let a = choose|a: int| 0 <= a < prev.len() && prev[a] == i;
                assert(insert_newest(posts, prev, m as usize).contains(prev[a]));
            }
        }
    }
}


/// With both maximum dimensions set and a file over the threshold, an image
/// taller than allowed is resized whatever its width, and one wider than
/// allowed whatever its height; an image within both maximums, a file at or
/// under the threshold, or a missing maximum is never resized.
pub proof fn law_resize_decision(options: MediaOptions, width: u32, height: u32, size: usize)
    ensures
        options.max_width is Some && (options.max_height matches Some(h) && height > h)
            && size > options.resize_threshold_bytes ==> spec_should_resize(options, width, height, size),
        options.max_height is Some && (options.max_width matches Some(w) && width > w)
            && size > options.resize_threshold_bytes ==> spec_should_resize(options, width, height, size),
        size <= options.resize_threshold_bytes ==> !spec_should_resize(options, width, height, size),
        options.max_width is None || options.max_height is None ==> !spec_should_resize(options, width, height, size),
        (options.max_width matches Some(w) && width <= w) && (options.max_height matches Some(h) && height <= h)
            ==> !spec_should_resize(options, width, height, size),
{
}

proof fn lemma_menu_items_shape(
    t: SiteTree,
    map: Seq<Seq<SiteId>>,
    node: int,
    current: int,
    depth: int,
    names: Option<Map<Seq<char>, Seq<char>>>,
    k: int,
)
    requires
        0 <= node < map.len(),
        0 <= k <= map[node].len(),
    ensures
        menu_items(t, map, node, current, depth, names, k).len() == k,
        forall|i: int| 0 <= i < k ==> {
            let c = map[node][map[node].len() - 1 - i].0 as int;
            let e = #[trigger] menu_items(t, map, node, current, depth, names, k)[i];
            &&& e.href == relative_path(t, current, c)
            &&& e.active == (c == current)
            &&& e.name == shown_name(t.name_of(c), names)
            &&& e.children == if 0 <= c < map.len() && map[c].len() > 0 && depth < 3 {
                menu_items(t, map, c, current, depth + 1, names, map[c].len() as int)
            } else {
                Seq::<SpecEntry>::empty()
            }
        },
    decreases k,
{
    if k > 0 {
        lemma_menu_items_shape(t, map, node, current, depth, names, k - 1);
        let prev = menu_items(t, map, node, current, depth, names, k - 1);
        let items = menu_items(t, map, node, current, depth, names, k);
        assert forall|i: int| 0 <= i < k - 1 implies #[trigger] items[i] == prev[i] by {}
    }
}

/// Each entry of a side menu links to its page relative to the page being
/// shown, and is active exactly when it is that page; the entries below an
/// entry link relative to the page being shown as well.
pub proof fn law_menu_links_relative_to_shown(
    t: SiteTree,
    map: Seq<Seq<SiteId>>,
    node: int,
    current: int,
    depth: int,
    names: Option<Map<Seq<char>, Seq<char>>>,
)
    requires
        0 <= node < map.len(),
    ensures
        menu_items(t, map, node, current, depth, names, map[node].len() as int).len() == map[node].len(),
        forall|i: int| 0 <= i < map[node].len() ==> {
            let c = map[node][map[node].len() - 1 - i].0 as int;
            let e = #[trigger] menu_items(t, map, node, current, depth, names, map[node].len() as int)[i];
            &&& e.href == relative_path(t, current, c)
            &&& e.active == (c == current)
            &&& e.name == shown_name(t.name_of(c), names)
            &&& 0 <= c < map.len() ==> forall|j: int| 0 <= j < e.children.len() ==>
                (#[trigger] e.children[j]).href == relative_path(t, current, map[c][map[c].len() - 1 - j].0 as int)
        },
{
    let n = map[node].len() as int;
    lemma_menu_items_shape(t, map, node, current, depth, names, n);
    let items = menu_items(t, map, node, current, depth, names, n);
    assert forall|i: int| 0 <= i < n implies {
        let c = map[node][map[node].len() - 1 - i].0 as int;
        let e = #[trigger] items[i];
        &&& e.href == relative_path(t, current, c)
        &&& e.active == (c == current)
        &&& e.name == shown_name(t.name_of(c), names)
        &&& 0 <= c < map.len() ==> forall|j: int| 0 <= j < e.children.len() ==>
            (#[trigger] e.children[j]).href == relative_path(t, current, map[c][map[c].len() - 1 - j].0 as int)
    } by {
        let c = map[node][map[node].len() - 1 - i].0 as int;
        if 0 <= c < map.len() && map[c].len() > 0 && depth < 3 {
            lemma_menu_items_shape(t, map, c, current, depth + 1, names, map[c].len() as int);
        }
    }
}

proof fn lemma_find_char_at(s: Seq<char>, c: char, pos: int, i: int)
    requires
        0 <= pos <= i < s.len(),
        s[i] == c,
        forall|k: int| pos <= k < i ==> s[k] != c,
    ensures
        find_char(s, c, pos) == Some(i),
    decreases i - pos,
{
    if pos < i {
        lemma_find_char_at(s, c, pos + 1, i);
    }
}

/// A link target, a space, then a title between double or between single
/// quotes gives the target without the title, and the title without its
/// quotes.
pub proof fn law_link_title_quoted(target: Seq<char>, title: Seq<char>, q: char)
    requires
        q == '"' || q == '\'',
        forall|k: int| 0 <= k < target.len() ==> target[k] != ' ',
    ensures
        link_title(target + seq![' ', q] + title + seq![q]) == (target, Some(title)),
        link_title(target) == (target, None::<Seq<char>>),
{
    if find_char(target, ' ', 0) is Some {
        crate::html::lemma_find_char_bounds(target, ' ', 0);
    }
    let h = target + seq![' ', q] + title + seq![q];
    let st = target.len() as int;
    lemma_find_char_at(h, ' ', 0, st);
    let t = h.skip(st + 1);
    assert(t =~= seq![q] + title + seq![q]);
    assert(t.subrange(1, t.len() - 1) =~= title);
    assert(h.take(st) =~= target);
}

proof fn lemma_attr_key(cs: Seq<char>, i: int, e: int, key: Seq<char>, value: Seq<char>, acc: Map<Seq<char>, Seq<char>>)
    requires
        0 <= i <= e <= cs.len(),
        forall|j: int| i <= j < e ==> cs[j] != ' ' && cs[j] != '=' && cs[j] != '"' && cs[j] != '\'',
    ensures
        attrs_from(cs, i, key, value, false, acc) == attrs_from(cs, e, key + cs.subrange(i, e), value, false, acc),
    decreases e - i,
{
    if i < e {
        lemma_attr_key(cs, i + 1, e, key.push(cs[i]), value, acc);
        assert(key.push(cs[i]) + cs.subrange(i + 1, e) =~= key + cs.subrange(i, e));
    } else {
        assert(key + cs.subrange(i, e) =~= key);
    }
}

proof fn lemma_attr_value(cs: Seq<char>, i: int, e: int, key: Seq<char>, value: Seq<char>, acc: Map<Seq<char>, Seq<char>>)
    requires
        0 <= i <= e <= cs.len(),
        forall|j: int| i <= j < e ==> cs[j] != '=' && cs[j] != '"' && cs[j] != '\'',
    ensures
        attrs_from(cs, i, key, value, true, acc) == attrs_from(cs, e, key, value + cs.subrange(i, e), true, acc),
    decreases e - i,
{
    if i < e {
        lemma_attr_value(cs, i + 1, e, key, value.push(cs[i]), acc);
        assert(value.push(cs[i]) + cs.subrange(i + 1, e) =~= value + cs.subrange(i, e));
    } else {
        assert(value + cs.subrange(i, e) =~= value);
    }
}

/// In a start tag, ` key="value"` and ` key='value'` both give the attribute
/// `key` with the value `value`.
pub proof fn law_quoted_attribute(key: Seq<char>, value: Seq<char>, q: char)
    requires
        q == '"' || q == '\'',
        key.len() > 0,
        forall|k: int| 0 <= k < key.len() ==> key[k] != ' ' && key[k] != '=' && key[k] != '"' && key[k] != '\'',
        forall|k: int| 0 <= k < value.len() ==> value[k] != '=' && value[k] != '"' && value[k] != '\'',
    ensures
        attrs_of(seq![' '] + key + seq!['=', q] + value + seq![q]) == Map::<Seq<char>, Seq<char>>::empty().insert(key, value),
{
    let cs = seq![' '] + key + seq!['=', q] + value + seq![q];
    let e = Seq::<char>::empty();
    let m = Map::<Seq<char>, Seq<char>>::empty();
    let kl = key.len() as int;
    let vl = value.len() as int;
    assert(cs[0] == ' ');
    assert(attrs_of(cs) == attrs_from(cs, 1, e, e, false, m));
    assert forall|j: int| 1 <= j < 1 + kl implies cs[j] != ' ' && cs[j] != '=' && cs[j] != '"' && cs[j] != '\'' by {
        assert(cs[j] == key[j - 1]);
    }
    lemma_attr_key(cs, 1, 1 + kl, e, e, m);
    assert(e + cs.subrange(1, 1 + kl) =~= key);
    assert(cs[1 + kl] == '=');
    assert(cs[2 + kl] == q);
    assert(attrs_from(cs, 1 + kl, key, e, false, m) == attrs_from(cs, 3 + kl, key, e, true, m));
    assert forall|j: int| 3 + kl <= j < 3 + kl + vl implies cs[j] != '=' && cs[j] != '"' && cs[j] != '\'' by {
        assert(cs[j] == value[j - 3 - kl]);
    }
    lemma_attr_value(cs, 3 + kl, 3 + kl + vl, key, e, m);
    assert(e + cs.subrange(3 + kl, 3 + kl + vl) =~= value);
    assert(cs[3 + kl + vl] == q);
    assert(cs.len() == 4 + kl + vl);
    assert(attrs_from(cs, 3 + kl + vl, key, value, true, m) == attrs_from(cs, 4 + kl + vl, key, value, false, m));
}


proof fn lemma_blen_ascii(s: Seq<char>)
    requires
        forall|j: int| 0 <= j < s.len() ==> (s[j] as u32) <= 0x7F,
    ensures
        blen(s) == s.len(),
    decreases s.len(),
{
    if s.len() > 0 {
        assert(forall|j: int| 0 <= j < s.drop_first().len() ==> s.drop_first()[j] == s[j + 1]);
        lemma_blen_ascii(s.drop_first());
        assert(vstd::utf8::has_width_1_encoding(s[0] as u32));
        assert(vstd::utf8::encode_utf8(s) =~= vstd::utf8::encode_scalar(s[0] as u32) + vstd::utf8::encode_utf8(s.drop_first()));
    }
}

proof fn lemma_close_bracket_at(s: Seq<char>, i: int, p: int)
    requires
        0 <= i <= p < s.len(),
        s[p] == ']',
        forall|j: int| i <= j < p ==> s[j] != '[' && s[j] != ']',
    ensures
        close_bracket(s, i, 1) == Some(p + 1),
    decreases p - i,
{
    if i < p {
        lemma_close_bracket_at(s, i + 1, p);
    }
}

/// A link `[text](target)` whose text holds no bracket and whose target holds
/// no `)` and is ASCII takes the whole input; its text is the sanitized text,
/// and its target and title are what `link_title` makes of the target.
pub proof fn law_link_reads_target_and_title(text: Seq<char>, href: Seq<char>)
    requires
        forall|j: int| 0 <= j < text.len() ==> text[j] != '[' && text[j] != ']',
        forall|j: int| 0 <= j < href.len() ==> href[j] != ')' && (href[j] as u32) <= 0x7F,
    ensures
        link_parts(seq!['['] + text + seq![']', '('] + href + seq![')']) == Some((
            sanitized_text(text),
            link_title(href).0,
            link_title(href).1,
            (text.len() + href.len() + 4) as int,
        )),
{
    let s = seq!['['] + text + seq![']', '('] + href + seq![')'];
    let tl = text.len() as int;
    let hl = href.len() as int;
    let n = s.len() as int;
    assert(n == tl + hl + 4);
    assert forall|j: int| 1 <= j < 1 + tl implies s[j] != '[' && s[j] != ']' by {
        assert(s[j] == text[j - 1]);
    }
    assert(s[1 + tl] == ']');
    lemma_close_bracket_at(s, 1, 1 + tl);
    let e = tl + 2;
    assert(s[e] == '(');
    assert forall|j: int| e + 1 <= j < e + 1 + hl implies s[j] != ')' by {
        assert(s[j] == href[j - e - 1]);
    }
    assert(s[e + 1 + hl] == ')');
    lemma_find_char_at(s, ')', e + 1, e + 1 + hl);
    let raw = s.subrange(e + 1, e + 1 + hl + 1);
    assert(raw =~= href + seq![')']);
    assert forall|j: int| 0 <= j < raw.len() implies (raw[j] as u32) <= 0x7F by {
        if j < hl {
            assert(raw[j] == href[j]);
        } else {
            assert(raw[j] == ')');
        }
    }
    lemma_blen_ascii(raw);
    assert(s.subrange(e + 1, e + 1 + hl) =~= href);
    assert(s.subrange(1, e - 1) =~= text);
}


proof fn lemma_name_prefix(st: Seq<char>, tag: Seq<char>, i: int)
    requires
        0 <= i <= tag.len() < st.len(),
        st.subrange(0, tag.len() as int) == tag,
        st[tag.len() as int] == ' ',
        forall|j: int| 0 <= j < tag.len() ==> tag[j] != ' ' && tag[j] != '\n',
    ensures
        name_from(st, i) == tag.subrange(i, tag.len() as int),
    decreases tag.len() - i,
{
    if i < tag.len() {
        assert(st[i] == st.subrange(0, tag.len() as int)[i]);
        lemma_name_prefix(st, tag, i + 1);
        assert(seq![st[i]] + tag.subrange(i + 1, tag.len() as int) =~= tag.subrange(i, tag.len() as int));
    } else {
        assert(tag.subrange(i, tag.len() as int) =~= Seq::<char>::empty());
    }
}

/// A start tag `tag key="value"` or `tag key='value'` names the tag `tag`
/// and gives it the attribute `key` with the value `value`.
pub proof fn law_start_tag_attribute(tag: Seq<char>, key: Seq<char>, value: Seq<char>, q: char)
    requires
        q == '"' || q == '\'',
        tag.len() > 0,
        forall|k: int| 0 <= k < tag.len() ==> tag[k] != ' ' && tag[k] != '\n',
        key.len() > 0,
        forall|k: int| 0 <= k < key.len() ==> key[k] != ' ' && key[k] != '=' && key[k] != '"' && key[k] != '\'',
        forall|k: int| 0 <= k < value.len() ==> value[k] != '=' && value[k] != '"' && value[k] != '\'',
    ensures
        tag_name(tag + seq![' '] + key + seq!['=', q] + value + seq![q]) == tag,
        attrs_of((tag + seq![' '] + key + seq!['=', q] + value + seq![q]).skip(tag.len() as int))
            == Map::<Seq<char>, Seq<char>>::empty().insert(key, value),
{
    let st = tag + seq![' '] + key + seq!['=', q] + value + seq![q];
    assert(st.subrange(0, tag.len() as int) =~= tag);
    lemma_name_prefix(st, tag, 0);
    assert(tag.subrange(0, tag.len() as int) =~= tag);
    assert(st.skip(tag.len() as int) =~= seq![' '] + key + seq!['=', q] + value + seq![q]);
    law_quoted_attribute(key, value, q);
}

} // verus!
