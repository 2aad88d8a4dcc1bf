//! Path components: splitting a path's text into its `/`-separated tokens and
//! rendering a component sequence back to text.

use vstd::prelude::*;

verus! {

/// True when `s`, read as a path, starts at the filesystem root.
pub open spec fn has_root(s: Seq<char>) -> bool {
    s.len() > 0 && s[0] == '/'
}

/// A token: what stands between separators — nonempty text holding no `/`.
pub open spec fn is_token(t: Seq<char>) -> bool {
    t.len() > 0 && (forall|j: int| 0 <= j < t.len() ==> t[j] != '/')
}

/// The current-directory token `.`.
pub open spec fn is_cur_dir(t: Seq<char>) -> bool {
    t.len() == 1 && t[0] == '.'
}

/// The parent-directory token `..`.
pub open spec fn is_parent_dir(t: Seq<char>) -> bool {
    t.len() == 2 && t[0] == '.' && t[1] == '.'
}

/// A plain name: a token that is neither `.` nor `..`.
pub open spec fn is_plain_name(t: Seq<char>) -> bool {
    is_token(t) && !is_cur_dir(t) && !is_parent_dir(t)
}

/// Every element of `ts` is a token.
pub open spec fn all_tokens(ts: Seq<Seq<char>>) -> bool {
    forall|i: int| 0 <= i < ts.len() ==> is_token(#[trigger] ts[i])
}

/// Every element of `ts` is a plain name.
pub open spec fn all_plain(ts: Seq<Seq<char>>) -> bool {
    forall|i: int| 0 <= i < ts.len() ==> is_plain_name(#[trigger] ts[i])
}

/// The `/`-separated tokens of `s`, read left to right, with `cur` the
/// partial token gathered so far: a separator closes `cur` (an empty `cur`
/// yields nothing), any other character extends it.
pub open spec fn tokens_from(s: Seq<char>, cur: Seq<char>) -> Seq<Seq<char>>
    decreases s.len(),
{
    if s.len() == 0 {
        if cur.len() == 0 {
            Seq::empty()
        } else {
            seq![cur]
        }
    } else if s[0] == '/' {
        if cur.len() == 0 {
            tokens_from(s.skip(1), Seq::empty())
        } else {
            seq![cur] + tokens_from(s.skip(1), Seq::empty())
        }
    } else {
        tokens_from(s.skip(1), cur.push(s[0]))
    }
}

/// The nonempty `/`-separated tokens of `s`, in order; repeated, leading and
/// trailing separators yield nothing.
pub open spec fn tokens(s: Seq<char>) -> Seq<Seq<char>> {
    tokens_from(s, Seq::empty())
}

/// The views of a sequence of owned strings.
pub open spec fn views_of(ts: Seq<String>) -> Seq<Seq<char>> {
    ts.map(|i: int, t: String| t@)
}

/// Tokens joined by a single `/` between each pair.
pub open spec fn joined(names: Seq<Seq<char>>) -> Seq<char>
    decreases names.len(),
{
    if names.len() == 0 {
        Seq::empty()
    } else if names.len() == 1 {
        names[0]
    } else {
        names[0] + seq!['/'] + joined(names.skip(1))
    }
}

/// The text of the path with the given root flag and name components: the
/// names joined by `/`, preceded by `/` when rooted.
pub open spec fn render(root: bool, names: Seq<Seq<char>>) -> Seq<char> {
    if root {
        seq!['/'] + joined(names)
    } else {
        joined(names)
    }
}

/// Pushing one owned string maps to pushing its view.
pub proof fn lemma_views_of_push(ts: Seq<String>, t: String)
    ensures
        views_of(ts.push(t)) == views_of(ts).push(t@),
{
    assert(views_of(ts.push(t)) =~= views_of(ts).push(t@));
}

/// Dropping the last owned string maps to dropping the last view.
pub proof fn lemma_views_of_drop_last(ts: Seq<String>)
    requires
        ts.len() > 0,
    ensures
        views_of(ts.drop_last()) == views_of(ts).drop_last(),
{
    assert(views_of(ts.drop_last()) =~= views_of(ts).drop_last());
}

/// Every token that `tokens_from` yields is nonempty and free of separators,
/// provided the partial token gathered so far is free of them.
pub proof fn lemma_tokens_from_wf(s: Seq<char>, cur: Seq<char>)
    requires
        forall|j: int| 0 <= j < cur.len() ==> cur[j] != '/',
    ensures
        all_tokens(tokens_from(s, cur)),
    decreases s.len(),
{
    if s.len() == 0 {
    } else if s[0] == '/' {
        lemma_tokens_from_wf(s.skip(1), Seq::empty());
    } else {
        lemma_tokens_from_wf(s.skip(1), cur.push(s[0]));
    }
}

/// Every token of a path's text is nonempty and free of separators.
pub proof fn lemma_tokens_wf(s: Seq<char>)
    ensures
        all_tokens(tokens(s)),
{
    lemma_tokens_from_wf(s, Seq::empty());
}

/// Reading a separator-free chunk just extends the partial token.
pub proof fn lemma_tokens_from_chunk(t: Seq<char>, rest: Seq<char>, cur: Seq<char>)
    requires
        forall|j: int| 0 <= j < t.len() ==> t[j] != '/',
    ensures
        tokens_from(t + rest, cur) == tokens_from(rest, cur + t),
    decreases t.len(),
{
    if t.len() == 0 {
        assert(t + rest =~= rest);
        assert(cur + t =~= cur);
    } else {
        assert((t + rest)[0] == t[0]);
        assert((t + rest).skip(1) =~= t.skip(1) + rest);
        lemma_tokens_from_chunk(t.skip(1), rest, cur.push(t[0]));
        assert(cur.push(t[0]) + t.skip(1) =~= cur + t);
    }
}

/// Appending one more name to a joined sequence appends `/` and the name.
pub proof fn lemma_joined_push(names: Seq<Seq<char>>, t: Seq<char>)
    ensures
        names.len() == 0 ==> joined(names.push(t)) == t,
        names.len() > 0 ==> joined(names.push(t)) == joined(names) + seq!['/'] + t,
    decreases names.len(),
{
    if names.len() == 0 {
        assert(joined(names.push(t)) == names.push(t)[0]);
        assert(names.push(t)[0] == t);
    } else {
        assert(names.push(t)[0] == names[0]);
        assert(names.push(t).skip(1) =~= names.skip(1).push(t));
        lemma_joined_push(names.skip(1), t);
        if names.len() == 1 {
            assert(joined(names.push(t)) == names[0] + seq!['/'] + t);
            assert(joined(names) == names[0]);
        } else {
            assert(joined(names.push(t)) == names[0] + seq!['/'] + (joined(names.skip(1)) + seq![
                '/',
            ] + t));
            assert(names[0] + seq!['/'] + (joined(names.skip(1)) + seq!['/'] + t) =~= (names[0]
                + seq!['/'] + joined(names.skip(1))) + seq!['/'] + t);
        }
    }
}

/// Joining a concatenation of two nonempty name sequences puts one `/`
/// between their joined texts.
pub proof fn lemma_joined_concat(a: Seq<Seq<char>>, b: Seq<Seq<char>>)
    requires
        a.len() > 0,
        b.len() > 0,
    ensures
        joined(a + b) == joined(a) + seq!['/'] + joined(b),
    decreases a.len(),
{
    assert((a + b)[0] == a[0]);
    if a.len() == 1 {
        assert((a + b).skip(1) =~= b);
    } else {
        assert((a + b).skip(1) =~= a.skip(1) + b);
        lemma_joined_concat(a.skip(1), b);
        assert(a[0] + seq!['/'] + (joined(a.skip(1)) + seq!['/'] + joined(b)) =~= (a[0] + seq!['/']
            + joined(a.skip(1))) + seq!['/'] + joined(b));
    }
}

/// A joined nonempty token sequence is nonempty text whose first character is
/// the first token's and whose last character is the last token's; neither is
/// a separator.
pub proof fn lemma_joined_ends(names: Seq<Seq<char>>)
    requires
        all_tokens(names),
        names.len() > 0,
    ensures
        joined(names).len() > 0,
        joined(names)[0] == names[0][0],
        joined(names)[joined(names).len() - 1] != '/',
    decreases names.len(),
{
    if names.len() == 1 {
        assert(is_token(names[0]));
    } else {
        lemma_joined_ends(names.skip(1));
        let rest = joined(names.skip(1));
        assert(joined(names) == names[0] + seq!['/'] + rest);
        assert(is_token(names[0]));
        assert(joined(names)[joined(names).len() - 1] == rest[rest.len() - 1]);
    }
}

/// Splitting a joined token sequence gives back exactly those tokens.
pub proof fn lemma_tokens_of_joined(names: Seq<Seq<char>>)
    requires
        all_tokens(names),
    ensures
        tokens(joined(names)) == names,
    decreases names.len(),
{
    if names.len() == 0 {
        assert(tokens(joined(names)) =~= names);
    } else if names.len() == 1 {
        assert(is_token(names[0]));
        assert(names[0] + Seq::<char>::empty() =~= names[0]);
        lemma_tokens_from_chunk(names[0], Seq::empty(), Seq::empty());
        assert(Seq::<char>::empty() + names[0] =~= names[0]);
        assert(tokens_from(Seq::<char>::empty(), names[0]) =~= names);
    } else {
        let head = names[0];
        let sep_rest = seq!['/'] + joined(names.skip(1));
        assert(is_token(head));
        assert(joined(names) =~= head + sep_rest);
        lemma_tokens_from_chunk(head, sep_rest, Seq::empty());
        assert(Seq::<char>::empty() + head =~= head);
        // one separator step: the gathered token is emitted
        assert(sep_rest[0] == '/');
        assert(sep_rest.skip(1) =~= joined(names.skip(1)));
        assert(tokens_from(sep_rest, head) == seq![head] + tokens(joined(names.skip(1))));
        lemma_tokens_of_joined(names.skip(1));
        assert(seq![head] + names.skip(1) =~= names);
    }
}

/// A rendered path starts at the root exactly when its root flag is set.
pub proof fn lemma_has_root_render(root: bool, names: Seq<Seq<char>>)
    requires
        all_tokens(names),
    ensures
        has_root(render(root, names)) == root,
{
    if root {
        assert(render(root, names)[0] == '/');
    } else {
        if names.len() > 0 {
            lemma_joined_ends(names);
            assert(is_token(names[0]));
        }
    }
}

/// Splitting a rendered path gives back exactly its name components.
pub proof fn lemma_tokens_render(root: bool, names: Seq<Seq<char>>)
    requires
        all_tokens(names),
    ensures
        tokens(render(root, names)) == names,
{
    lemma_tokens_of_joined(names);
    if root {
        let r = render(root, names);
        assert(r[0] == '/');
        assert(r.skip(1) =~= joined(names));
    }
}

/// The nonempty `/`-separated tokens of `s`, as owned strings.
pub fn split_tokens(s: &str) -> (v: Vec<String>)
    ensures
        views_of(v@) == tokens(s@),
{
    let len = s.unicode_len();
    let mut v: Vec<String> = Vec::new();
    let mut cur = String::new();
    let mut i: usize = 0;
    proof {
        assert(s@.skip(0) =~= s@);
        assert(views_of(v@) =~= Seq::<Seq<char>>::empty());
        assert(views_of(v@) + tokens_from(s@, cur@) =~= tokens(s@));
    }
    while i < len
        invariant
            i <= len,
            len == s@.len(),
            views_of(v@) + tokens_from(s@.skip(i as int), cur@) == tokens(s@),
        decreases len - i,
    {
        proof {
            assert(s@.skip(i as int)[0] == s@[i as int]);
            assert(s@.skip(i as int).skip(1) =~= s@.skip(i as int + 1));
        }
        let c = s.get_char(i);
        if c == '/' {
            if cur.as_str().unicode_len() > 0 {
                let ghost old_views = views_of(v@);
                let ghost done = cur@;
                v.push(cur);
                cur = String::new();
                proof {
                    lemma_views_of_push(v@.drop_last(), v@.last());
                    assert(v@.drop_last().push(v@.last()) =~= v@);
                    assert(views_of(v@) =~= old_views.push(done));
                    assert(old_views.push(done) + tokens_from(s@.skip(i as int + 1), cur@)
                        =~= old_views + (seq![done] + tokens_from(
                        s@.skip(i as int + 1),
                        Seq::empty(),
                    )));
                }
            } else {
                proof {
                    assert(cur@ =~= Seq::<char>::empty());
                }
            }
        } else {
            let piece = s.substring_char(i, i + 1);
            proof {
                assert(piece@ =~= seq![s@[i as int]]);
                assert(cur@ + piece@ =~= cur@.push(s@[i as int]));
            }
            cur.append(piece);
        }
        i = i + 1;
    }
    proof {
        assert(s@.skip(len as int) =~= Seq::<char>::empty());
    }
    if cur.as_str().unicode_len() > 0 {
        let ghost old_views = views_of(v@);
        let ghost done = cur@;
        v.push(cur);
        proof {
            lemma_views_of_push(v@.drop_last(), v@.last());
            assert(v@.drop_last().push(v@.last()) =~= v@);
            assert(views_of(v@) =~= old_views.push(done));
            assert(old_views.push(done) =~= old_views + seq![done]);
        }
    } else {
        proof {
            assert(cur@ =~= Seq::<char>::empty());
            assert(views_of(v@) + Seq::<Seq<char>>::empty() =~= views_of(v@));
        }
    }
    v
}

} // verus!
