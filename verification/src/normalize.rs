//! The normalizer: collapsing `.` and `..` components of a path's text,
//! purely syntactically — no filesystem is consulted and symbolic links are
//! unknown to it.

use vstd::prelude::*;

use crate::components::all_plain;
use crate::components::all_tokens;
use crate::components::has_root;
use crate::components::is_cur_dir;
use crate::components::is_parent_dir;
use crate::components::is_plain_name;
use crate::components::is_token;
use crate::components::joined;
use crate::components::lemma_has_root_render;
use crate::components::lemma_joined_push;
use crate::components::lemma_tokens_render;
use crate::components::lemma_tokens_wf;
use crate::components::lemma_views_of_drop_last;
use crate::components::lemma_views_of_push;
use crate::components::render;
use crate::components::split_tokens;
use crate::components::tokens;
use crate::components::views_of;

verus! {

/// One walk over the remaining tokens, keeping an output stack: `.` is
/// dropped; `..` pops the last kept name, or clears the root flag when no
/// name is left to pop, or does nothing when nothing is left at all; any
/// other token is kept as it stands.
pub open spec fn collapse_from(root: bool, stack: Seq<Seq<char>>, toks: Seq<Seq<char>>) -> (
    bool,
    Seq<Seq<char>>,
)
    decreases toks.len(),
{
    if toks.len() == 0 {
        (root, stack)
    } else if is_cur_dir(toks[0]) {
        collapse_from(root, stack, toks.skip(1))
    } else if is_parent_dir(toks[0]) {
        if stack.len() > 0 {
            collapse_from(root, stack.drop_last(), toks.skip(1))
        } else {
            collapse_from(false, stack, toks.skip(1))
        }
    } else {
        collapse_from(root, stack.push(toks[0]), toks.skip(1))
    }
}

/// The root flag and surviving name components of `s` after collapsing.
pub open spec fn norm_parts(s: Seq<char>) -> (bool, Seq<Seq<char>>) {
    collapse_from(has_root(s), Seq::empty(), tokens(s))
}

/// The normalized text of `s`: its surviving components rendered back.
pub open spec fn norm_spec(s: Seq<char>) -> Seq<char> {
    render(norm_parts(s).0, norm_parts(s).1)
}

/// Collapsing keeps only plain names: nothing on the output stack is empty,
/// holds a separator, or reads `.` or `..`.
pub proof fn lemma_collapse_from_wf(root: bool, stack: Seq<Seq<char>>, toks: Seq<Seq<char>>)
    requires
        all_plain(stack),
        all_tokens(toks),
    ensures
        all_plain(collapse_from(root, stack, toks).1),
    decreases toks.len(),
{
    if toks.len() == 0 {
    } else if is_cur_dir(toks[0]) {
        lemma_collapse_from_wf(root, stack, toks.skip(1));
    } else if is_parent_dir(toks[0]) {
        if stack.len() > 0 {
            lemma_collapse_from_wf(root, stack.drop_last(), toks.skip(1));
        } else {
            lemma_collapse_from_wf(false, stack, toks.skip(1));
        }
    } else {
        assert(is_token(toks[0]));
        lemma_collapse_from_wf(root, stack.push(toks[0]), toks.skip(1));
    }
}

/// On plain names alone, collapsing merely appends them to the stack.
pub proof fn lemma_collapse_from_plain(root: bool, stack: Seq<Seq<char>>, toks: Seq<Seq<char>>)
    requires
        all_plain(toks),
    ensures
        collapse_from(root, stack, toks) == (root, stack + toks),
    decreases toks.len(),
{
    if toks.len() == 0 {
        assert(stack + toks =~= stack);
    } else {
        assert(is_plain_name(toks[0]));
        lemma_collapse_from_plain(root, stack.push(toks[0]), toks.skip(1));
        assert(stack.push(toks[0]) + toks.skip(1) =~= stack + toks);
    }
}

/// The surviving components of any path text are plain names.
pub proof fn lemma_norm_parts_wf(s: Seq<char>)
    ensures
        all_plain(norm_parts(s).1),
        all_tokens(norm_parts(s).1),
{
    lemma_tokens_wf(s);
    lemma_collapse_from_wf(has_root(s), Seq::empty(), tokens(s));
    assert forall|i: int| 0 <= i < norm_parts(s).1.len() implies is_token(
        #[trigger] norm_parts(s).1[i],
    ) by {
        assert(is_plain_name(norm_parts(s).1[i]));
    }
}

/// A path rendered from plain names collapses to exactly those names.
pub proof fn lemma_norm_parts_render(root: bool, names: Seq<Seq<char>>)
    requires
        all_plain(names),
    ensures
        norm_parts(render(root, names)) == (root, names),
        norm_spec(render(root, names)) == render(root, names),
{
    assert forall|i: int| 0 <= i < names.len() implies is_token(#[trigger] names[i]) by {
        assert(is_plain_name(names[i]));
    }
    lemma_has_root_render(root, names);
    lemma_tokens_render(root, names);
    lemma_collapse_from_plain(root, Seq::empty(), names);
    assert(Seq::<Seq<char>>::empty() + names =~= names);
}

/// Normalization is idempotent: normalizing a second time changes nothing.
pub proof fn lemma_normalize_idempotent(s: Seq<char>)
    ensures
        norm_spec(norm_spec(s)) == norm_spec(s),
{
    lemma_norm_parts_wf(s);
    lemma_norm_parts_render(norm_parts(s).0, norm_parts(s).1);
}

/// Collapses the `.` and `..` components of `path`: `.` disappears, `..`
/// removes the name before it — or the root marker itself when none is left —
/// and repeated or trailing separators disappear with the splitting. The
/// result is already normalized: running it through again changes nothing.
pub fn normalize_path(path: &str) -> (r: String)
    ensures
        r@ == norm_spec(path@),
        norm_spec(r@) == r@,
{
    let len = path.unicode_len();
    let root = len > 0 && path.get_char(0) == '/';
    let toks = split_tokens(path);
    let ghost all = tokens(path@);
    let mut keep_root = root;
    let mut names: Vec<String> = Vec::new();
    let mut j: usize = 0;
    proof {
        assert(all.skip(0) =~= all);
        assert(views_of(names@) =~= Seq::<Seq<char>>::empty());
    }
    while j < toks.len()
        invariant
            j <= toks.len(),
            views_of(toks@) == tokens(path@),
            all == tokens(path@),
            collapse_from(keep_root, views_of(names@), all.skip(j as int)) == norm_parts(path@),
        decreases toks.len() - j,
    {
        proof {
            assert(all[j as int] == views_of(toks@)[j as int]);
            assert(all.skip(j as int)[0] == all[j as int]);
            assert(all.skip(j as int).skip(1) =~= all.skip(j as int + 1));
        }
        let t = &toks[j];
        let tl = t.as_str().unicode_len();
        let cur = tl == 1 && t.as_str().get_char(0) == '.';
        let parent = tl == 2 && t.as_str().get_char(0) == '.' && t.as_str().get_char(1) == '.';
        if cur {
            // dropped
        } else if parent {
            if names.len() > 0 {
                let ghost before = names@;
                names.pop();
                proof {
                    assert(names@ =~= before.drop_last());
                    lemma_views_of_drop_last(before);
                }
            } else {
                keep_root = false;
                proof {
                    assert(views_of(names@).len() == 0);
                }
            }
        } else {
            let ghost before = names@;
            names.push(t.clone());
            proof {
                assert(names@ =~= before.push(toks@[j as int]));
                lemma_views_of_push(before, toks@[j as int]);
            }
        }
        j = j + 1;
    }
    proof {
        assert(all.skip(toks@.len() as int) =~= Seq::<Seq<char>>::empty());
        assert((keep_root, views_of(names@)) == norm_parts(path@));
    }
    let mut out = if keep_root {
        String::from_str("/")
    } else {
        String::new()
    };
    proof {
        reveal_strlit("/");
        assert("/"@ =~= seq!['/']);
        assert(views_of(names@).take(0) =~= Seq::<Seq<char>>::empty());
        if keep_root {
            assert(out@ =~= seq!['/'] + joined(Seq::<Seq<char>>::empty()));
        }
    }
    let mut k: usize = 0;
    while k < names.len()
        invariant
            k <= names.len(),
            (keep_root, views_of(names@)) == norm_parts(path@),
            out@ == render(keep_root, views_of(names@).take(k as int)),
        decreases names.len() - k,
    {
        proof {
            reveal_strlit("/");
            assert("/"@ =~= seq!['/']);
            lemma_joined_push(views_of(names@).take(k as int), views_of(names@)[k as int]);
            assert(views_of(names@).take(k as int).push(views_of(names@)[k as int]) =~= views_of(
                names@,
            ).take(k as int + 1));
        }
        if k > 0 {
            out.append("/");
        } else if keep_root {
            proof {
                assert(out@ =~= seq!['/']);
            }
        }
        out.append(names[k].as_str());
        proof {
            let taken = views_of(names@).take(k as int);
            let nk = views_of(names@)[k as int];
            if k == 0 {
                if keep_root {
                    assert(out@ =~= seq!['/'] + joined(taken.push(nk)));
                } else {
                    assert(out@ =~= joined(taken.push(nk)));
                }
            } else {
                if keep_root {
                    assert(out@ =~= seq!['/'] + (joined(taken) + seq!['/'] + nk));
                    assert(seq!['/'] + (joined(taken) + seq!['/'] + nk) =~= (seq!['/'] + joined(
                        taken,
                    )) + seq!['/'] + nk);
                } else {
                    assert(out@ =~= joined(taken) + seq!['/'] + nk);
                }
            }
        }
        k = k + 1;
    }
    proof {
        assert(views_of(names@).take(names@.len() as int) =~= views_of(names@));
        lemma_normalize_idempotent(path@);
    }
    out
}

} // verus!
