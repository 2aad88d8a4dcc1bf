//! The path resolver: turning a bare path plus a working directory — and,
//! when known, the home directory — into one absolute path.

use vstd::prelude::*;

use crate::components::all_plain;
use crate::components::has_root;
use crate::components::is_plain_name;
use crate::components::is_token;
use crate::components::joined;
use crate::components::lemma_has_root_render;
use crate::components::lemma_joined_concat;
use crate::components::lemma_joined_ends;
use crate::components::render;
use crate::normalize::lemma_norm_parts_render;
use crate::normalize::lemma_norm_parts_wf;
use crate::normalize::norm_parts;
use crate::normalize::norm_spec;
use crate::normalize::normalize_path;

verus! {

/// `b` appended to `a` the way paths join: an absolute `b` replaces `a`
/// outright; otherwise one `/` goes between them, unless `a` is empty or
/// already ends with one.
pub open spec fn join_spec(a: Seq<char>, b: Seq<char>) -> Seq<char> {
    if b.len() > 0 && b[0] == '/' {
        b
    } else if a.len() == 0 {
        b
    } else if a[a.len() - 1] == '/' {
        a + b
    } else {
        a + seq!['/'] + b
    }
}

/// The view of an optional borrowed string.
pub open spec fn opt_str_view(o: Option<&str>) -> Option<Seq<char>> {
    match o {
        Some(s) => Some(s@),
        None => None,
    }
}

/// Whether `p` uses the home-directory shorthand: `~` alone, or a `~/`
/// prefix.
pub open spec fn home_shorthand(p: Seq<char>) -> bool {
    (p.len() == 1 && p[0] == '~') || (p.len() >= 2 && p[0] == '~' && p[1] == '/')
}

/// Where `p` points with working directory `cwd` and, when known, home
/// directory `home`. First rule that fits wins: an absolute `p` stands as it
/// is, untouched; `~` is the home directory itself and `~/rest` is `rest`
/// joined under it, both verbatim joins without normalization; everything
/// else — including home shorthand when no home directory is known — is
/// joined onto `cwd` and normalized.
pub open spec fn resolve_spec(p: Seq<char>, cwd: Seq<char>, home: Option<Seq<char>>) -> Seq<char> {
    if has_root(p) {
        p
    } else if home_shorthand(p) && home is Some {
        if p.len() == 1 {
            home.unwrap()
        } else {
            join_spec(home.unwrap(), p.skip(2))
        }
    } else {
        norm_spec(join_spec(cwd, p))
    }
}

/// Joins `b` onto `a` as a relative path segment; an absolute `b` wins.
pub fn join_paths(a: &str, b: &str) -> (r: String)
    ensures
        r@ == join_spec(a@, b@),
{
    let bl = b.unicode_len();
    if bl > 0 && b.get_char(0) == '/' {
        return String::from_str(b);
    }
    let al = a.unicode_len();
    if al == 0 {
        return String::from_str(b);
    }
    let mut r = String::from_str(a);
    if a.get_char(al - 1) != '/' {
        r.append("/");
        proof {
            reveal_strlit("/");
            assert("/"@ =~= seq!['/']);
        }
    }
    r.append(b);
    r
}

/// Resolves `path` against the working directory `cwd`: an absolute path is
/// returned unchanged; `~` and `~/...` go under `home` when it is known
/// (verbatim, not normalized — matching the absolute branch); any other path,
/// including home shorthand with no known home, is joined onto `cwd` and
/// normalized. Every input yields a result; none is rejected.
pub fn resolve_path(path: &str, cwd: &str, home: Option<&str>) -> (r: String)
    ensures
        r@ == resolve_spec(path@, cwd@, opt_str_view(home)),
        has_root(path@) ==> r@ == path@,
        path@.len() == 1 && path@[0] == '~' && home is Some ==> Some(r@) == opt_str_view(home),
{
    let plen = path.unicode_len();
    if plen > 0 && path.get_char(0) == '/' {
        return String::from_str(path);
    }
    let shorthand = if plen >= 1 && path.get_char(0) == '~' {
        plen == 1 || path.get_char(1) == '/'
    } else {
        false
    };
    if shorthand {
        if let Some(h) = home {
            if plen == 1 {
                return String::from_str(h);
            }
            let rest = path.substring_char(2, plen);
            proof {
                assert(rest@ =~= path@.skip(2));
            }
            return join_paths(h, rest);
        }
    }
    let joined_path = join_paths(cwd, path);
    normalize_path(joined_path.as_str())
}

/// For a plain relative path — nonempty, no root, no home shorthand, and
/// already in normal form, so free of `.`, `..`, and doubled or trailing
/// separators — resolving against an already-normalized working directory is
/// exactly joining onto it: `resolve(p, cwd) == join(cwd, p)`.
pub proof fn lemma_resolve_relative_is_join(p: Seq<char>, cwd: Seq<char>, home: Option<Seq<char>>)
    requires
        p.len() > 0,
        !has_root(p),
        !home_shorthand(p),
        norm_spec(p) == p,
        norm_spec(cwd) == cwd,
    ensures
        resolve_spec(p, cwd, home) == join_spec(cwd, p),
{
    lemma_norm_parts_wf(p);
    lemma_norm_parts_wf(cwd);
    let rp = norm_parts(p).0;
    let np = norm_parts(p).1;
    let rc = norm_parts(cwd).0;
    let nc = norm_parts(cwd).1;
    assert(p == render(rp, np));
    assert(cwd == render(rc, nc));
    assert forall|i: int| 0 <= i < np.len() implies is_token(#[trigger] np[i]) by {
        assert(is_plain_name(np[i]));
    }
    assert forall|i: int| 0 <= i < nc.len() implies is_token(#[trigger] nc[i]) by {
        assert(is_plain_name(nc[i]));
    }
    lemma_has_root_render(rp, np);
    assert(!rp);
    assert(p == joined(np));
    if np.len() == 0 {
        assert(p =~= Seq::<char>::empty());
        assert(false);
    }
    lemma_joined_ends(np);
    assert(p[0] != '/');
    if nc.len() == 0 {
        if rc {
            // the working directory is the root itself
            assert(cwd =~= seq!['/']);
            assert(cwd[cwd.len() - 1] == '/');
            assert(join_spec(cwd, p) == cwd + p);
            assert(cwd + p =~= render(true, np));
            lemma_norm_parts_render(true, np);
        } else {
            // the working directory is empty text
            assert(cwd =~= Seq::<char>::empty());
            assert(join_spec(cwd, p) == p);
            lemma_norm_parts_render(false, np);
        }
    } else {
        lemma_joined_ends(nc);
        assert(cwd.len() > 0);
        assert(cwd[cwd.len() - 1] == joined(nc)[joined(nc).len() - 1]);
        assert(cwd[cwd.len() - 1] != '/');
        assert(join_spec(cwd, p) == cwd + seq!['/'] + p);
        lemma_joined_concat(nc, np);
        assert(cwd + seq!['/'] + p =~= render(rc, nc + np));
        assert forall|i: int| 0 <= i < (nc + np).len() implies is_plain_name(
            #[trigger] (nc + np)[i],
        ) by {
            if i < nc.len() {
                assert((nc + np)[i] == nc[i]);
            } else {
                assert((nc + np)[i] == np[i - nc.len()]);
            }
        }
        lemma_norm_parts_render(rc, nc + np);
    }
}

} // verus!
