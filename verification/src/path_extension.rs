//! Operations on slash separated paths.
use vstd::prelude::*;

use crate::lssg_error::{LssgError, LssgErrorKind};
use crate::text::{push_char, push_str, str_chars};

verus! {

/// Index of the last `/` in `s`, or -1.
pub open spec fn last_slash(s: Seq<char>) -> int
    decreases s.len(),
{
    if s.len() == 0 {
        -1
    } else if s.last() == '/' {
        s.len() - 1
    } else {
        last_slash(s.drop_last())
    }
}

/// The parts of `s` between slashes, as `str::split("/")` gives them.
pub open spec fn split_slash(s: Seq<char>) -> Seq<Seq<char>>
    decreases s.len(),
{
    let i = last_slash(s);
    if i < 0 || i >= s.len() {
        seq![s]
    } else {
        split_slash(s.take(i)).push(s.skip(i + 1))
    }
}

/// The parts left after dropping `.` and letting `..` remove the part before it.
pub open spec fn resolve_parts(parts: Seq<Seq<char>>) -> Seq<Seq<char>>
    decreases parts.len(),
{
    if parts.len() == 0 {
        Seq::empty()
    } else {
        let st = resolve_parts(parts.drop_last());
        let p = parts.last();
        if p == seq!['.'] {
            st
        } else if p == seq!['.', '.'] && st.len() > 0 {
            st.drop_last()
        } else {
            st.push(p)
        }
    }
}

/// The parts joined by slashes.
pub open spec fn join_slash(parts: Seq<Seq<char>>) -> Seq<char>
    decreases parts.len(),
{
    if parts.len() == 0 {
        Seq::empty()
    } else if parts.len() == 1 {
        parts[0]
    } else {
        join_slash(parts.drop_last()) + seq!['/'] + parts.last()
    }
}

/// A path with `.` and `..` parts resolved, without looking at the file system.
pub open spec fn canonical_path(path: Seq<char>) -> Seq<char> {
    join_slash(resolve_parts(split_slash(path)))
}

proof fn lemma_last_slash_bounds(s: Seq<char>)
    ensures
        -1 <= last_slash(s) < s.len(),
        last_slash(s) >= 0 ==> s[last_slash(s)] == '/',
        forall|j: int| last_slash(s) < j < s.len() ==> s[j] != '/',
    decreases s.len(),
{
    if s.len() > 0 && s.last() != '/' {
        lemma_last_slash_bounds(s.drop_last());
        assert forall|j: int| last_slash(s) < j < s.len() implies s[j] != '/' by {
            if j < s.len() - 1 {
                assert(s[j] == s.drop_last()[j]);
            }
        }
    }
}

/// Splits a path at its slashes.
fn split_path(path: &str) -> (r: Vec<String>)
    ensures
        Seq::new(r@.len(), |i: int| r@[i]@) == split_slash(path@),
{
    let cs = str_chars(path);
    let mut parts: Vec<String> = Vec::new();
    let mut cur = String::new();
    let mut i: usize = 0;
    proof {
        assert(cs@.take(0) =~= Seq::<char>::empty());
        assert(Seq::new(parts@.len(), |k: int| parts@[k]@).push(cur@) =~= seq![Seq::<char>::empty()]);
    }
    while i < cs.len()
        invariant
            cs@ == path@,
            i <= cs.len(),
            Seq::new(parts@.len(), |k: int| parts@[k]@).push(cur@) == split_slash(cs@.take(i as int)),
            cur@ == cs@.take(i as int).skip(last_slash(cs@.take(i as int)) + 1),
        decreases cs.len() - i,
    {
        let ghost t = cs@.take(i as int);
        let ghost t1 = cs@.take(i + 1);
        proof {
            assert(t1.drop_last() =~= t);
            lemma_last_slash_bounds(t);
        }
        if cs[i] == '/' {
            let ghost ps = Seq::new(parts@.len(), |k: int| parts@[k]@);
            let mut done = String::new();
            std::mem::swap(&mut done, &mut cur);
            parts.push(done);
            proof {
                assert(last_slash(t1) == i);
                assert(t1.take(i as int) =~= t);
                assert(t1.skip(i + 1) =~= Seq::<char>::empty());
                assert(Seq::new(parts@.len(), |k: int| parts@[k]@) =~= ps.push(t.skip(last_slash(t) + 1)));
                assert(cur@ =~= t1.skip(last_slash(t1) + 1));
                assert(split_slash(t1) == split_slash(t).push(Seq::<char>::empty()));
                assert(Seq::new(parts@.len(), |k: int| parts@[k]@).push(cur@) =~= split_slash(t1));
            }
        } else {
            let ghost old_cur = cur@;
            let ghost ps = Seq::new(parts@.len(), |k: int| parts@[k]@);
            push_char(&mut cur, cs[i]);
            proof {
                assert(last_slash(t1) == last_slash(t));
                assert(cur@ =~= t1.skip(last_slash(t1) + 1));
                let ls = last_slash(t);
                if ls >= 0 {
                    assert(t1.take(ls) =~= t.take(ls));
                    assert(split_slash(t) == split_slash(t.take(ls)).push(t.skip(ls + 1)));
                    assert(ps.push(old_cur).drop_last() =~= ps);
                    assert(split_slash(t).drop_last() =~= split_slash(t.take(ls)));
                    assert(split_slash(t1) == split_slash(t1.take(ls)).push(t1.skip(ls + 1)));
                    assert(ps.push(cur@) =~= split_slash(t1));
                } else {
                    assert(split_slash(t) == seq![t]);
                    assert(ps.len() == 0);
                    assert(split_slash(t1) == seq![t1]);
                    assert(t1.skip(0) =~= t1);
                    assert(ps.push(cur@) =~= split_slash(t1));
                }
            }
        }
        i += 1;
    }
    proof {
        assert(cs@.take(cs@.len() as int) =~= cs@);
    }
    parts.push(cur);
    proof {
        assert(Seq::new(parts@.len(), |k: int| parts@[k]@) =~= split_slash(path@));
    }
    parts
}

/// Operations on paths given as text.
pub trait PathExtension {
    fn canonicalize_nonexistent_path(&self) -> String;

    fn filestem_from_path(&self) -> Result<String, LssgError>;

    fn filename_from_path(&self) -> Result<String, LssgError>;
}

/// The final part of a path, as `std::path::Path::file_name` gives it.
pub uninterp spec fn path_file_name(path: Seq<char>) -> Option<Seq<char>>;

/// The final part of a path without its extension, as `std::path::Path::file_stem` gives it.
pub uninterp spec fn path_file_stem(path: Seq<char>) -> Option<Seq<char>>;

/// The extension of the final part of a path, as `std::path::Path::extension` gives it.
pub uninterp spec fn path_extension(path: Seq<char>) -> Option<Seq<char>>;

/// `std::path::Path::extension` of the path; its result is named `path_extension`.
#[verifier::external_body]
pub(crate) fn extension_of(path: &str) -> (r: Option<String>)
    ensures
        r is None <==> path_extension(path@) is None,
        r matches Some(s) ==> path_extension(path@) == Some(s@),
{
    std::path::Path::new(path).extension().map(|n| n.to_string_lossy().into_owned())
}

/// `std::path::Path::file_name` of the path; its result is named `path_file_name`.
#[verifier::external_body]
pub(crate) fn file_name_of(path: &str) -> (r: Option<String>)
    ensures
        r is None <==> path_file_name(path@) is None,
        r matches Some(s) ==> path_file_name(path@) == Some(s@),
{
    std::path::Path::new(path).file_name().map(|n| n.to_string_lossy().into_owned())
}

/// `std::path::Path::file_stem` of the path; its result is named `path_file_stem`.
#[verifier::external_body]
fn file_stem_of(path: &str) -> (r: Option<String>)
    ensures
        r is None <==> path_file_stem(path@) is None,
        r matches Some(s) ==> path_file_stem(path@) == Some(s@),
{
    std::path::Path::new(path).file_stem().map(|n| n.to_string_lossy().into_owned())
}

/// A path with another joined to it, as `std::path::Path::join` gives it.
pub uninterp spec fn path_joined(base: Seq<char>, part: Seq<char>) -> Seq<char>;

/// `std::path::Path::join`, read back as text; its result is named `path_joined`.
#[verifier::external_body]
pub(crate) fn join_path(base: &str, part: &str) -> (r: String)
    ensures
        r@ == path_joined(base@, part@),
{
    std::path::Path::new(base).join(part).to_string_lossy().into_owned()
}

/// The error for a path without a file name.
fn no_file_name(path: &str) -> (e: LssgError)
    ensures
        e.spec_kind() == LssgErrorKind::Io,
{
    let mut message = String::new();
    push_str(&mut message, path);
    push_str(&mut message, " does not have a filename");
    LssgError::io(message.as_str())
}

impl PathExtension for str {
    fn canonicalize_nonexistent_path(&self) -> (r: String)
        ensures
            r@ == canonical_path(self@),
    {
        let parts = split_path(self);
        let ghost pv = Seq::new(parts@.len(), |i: int| parts@[i]@);
        let mut kept: Vec<&str> = Vec::new();
        let mut k: usize = 0;
        while k < parts.len()
            invariant
                k <= parts.len(),
                pv == Seq::new(parts@.len(), |i: int| parts@[i]@),
                Seq::new(kept@.len(), |i: int| kept@[i]@) == resolve_parts(pv.take(k as int)),
            decreases parts.len() - k,
        {
            let ghost before = Seq::new(kept@.len(), |i: int| kept@[i]@);
            let p = parts[k].as_str();
            proof {
                assert(pv.take(k + 1).drop_last() =~= pv.take(k as int));
                assert(pv.take(k + 1).last() == p@);
                reveal_strlit(".");
                reveal_strlit("..");
                assert("."@ =~= seq!['.']);
                assert(".."@ =~= seq!['.', '.']);
            }
            if crate::text::str_eq(p, ".") {
            } else if crate::text::str_eq(p, "..") && kept.len() > 0 {
                kept.pop();
                proof {
                    assert(Seq::new(kept@.len(), |i: int| kept@[i]@) =~= before.drop_last());
                }
            } else {
                kept.push(p);
                proof {
                    assert(Seq::new(kept@.len(), |i: int| kept@[i]@) =~= before.push(p@));
                }
            }
            k += 1;
        }
        proof {
            assert(pv.take(parts@.len() as int) =~= pv);
        }
        let ghost kv = Seq::new(kept@.len(), |i: int| kept@[i]@);
        let mut out = String::new();
        let mut j: usize = 0;
        while j < kept.len()
            invariant
                j <= kept.len(),
                kv == Seq::new(kept@.len(), |i: int| kept@[i]@),
                out@ == join_slash(kv.take(j as int)),
            decreases kept.len() - j,
        {
            if j > 0 {
                push_str(&mut out, "/");
            }
            push_str(&mut out, kept[j]);
            proof {
                reveal_strlit("/");
                assert(kv.take(j + 1).drop_last() =~= kv.take(j as int));
                if j == 0 {
                    assert(kv.take(0) =~= Seq::<Seq<char>>::empty());
                    assert(out@ =~= kv.take(1)[0]);
                } else {
                    assert(out@ =~= join_slash(kv.take(j as int)) + seq!['/'] + kv.take(j + 1).last());
                }
            }
            j += 1;
        }
        proof {
            assert(kv.take(kept@.len() as int) =~= kv);
        }
        out
    }

    fn filestem_from_path(&self) -> (r: Result<String, LssgError>)
        ensures
            r is Ok <==> path_file_stem(self@) is Some,
            r matches Ok(s) ==> path_file_stem(self@) == Some(s@),
            r matches Err(e) ==> e.spec_kind() == LssgErrorKind::Io,
    {
        match file_stem_of(self) {
            Some(s) => Ok(s),
            None => Err(no_file_name(self)),
        }
    }

    fn filename_from_path(&self) -> (r: Result<String, LssgError>)
        ensures
            r is Ok <==> path_file_name(self@) is Some,
            r matches Ok(s) ==> path_file_name(self@) == Some(s@),
            r matches Err(e) ==> e.spec_kind() == LssgErrorKind::Io,
    {
        match file_name_of(self) {
            Some(s) => Ok(s),
            None => Err(no_file_name(self)),
        }
    }
}

} // verus!
