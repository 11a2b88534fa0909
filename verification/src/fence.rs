//! Extraction of the body of a Markdown code fence from a model's reply.
use vstd::prelude::*;
use crate::text::{
    chars_of, ends_with, ends_with_exec, find, find_from, find_in, matches_at, lemma_find_from, starts_with, starts_with_exec,
    string_of, subvec, trim, trimmed, is_ws, lemma_trim_props,
};

verus! {

broadcast use vstd::string::group_string_axioms;

/// The closing fence.
pub open spec fn fence_close() -> Seq<char> {
    "```"@
}

/// The body of the first code fence opened by `tag` (such as "```typst") in `response`.
///
/// The reply is trimmed first. When it begins with the tag, the body runs to the
/// end, less one closing fence at the very end. Otherwise the body runs from the
/// first occurrence of the tag to the next closing fence, or to the end when none
/// follows. The body is trimmed. `None` when the tag does not occur.
pub open spec fn fenced_body(response: Seq<char>, tag: Seq<char>) -> Option<Seq<char>> {
    let t = trim(response);
    if starts_with(t, tag) {
        let rest = t.skip(tag.len() as int);
        let body = if ends_with(rest, fence_close()) {
            rest.take(rest.len() - fence_close().len())
        } else {
            rest
        };
        Some(trim(body))
    } else {
        match find(t, tag) {
            Some(start) => {
                let inner = t.skip(start + tag.len());
                match find(inner, fence_close()) {
                    Some(end) => Some(trim(inner.take(end))),
                    None => Some(trim(inner)),
                }
            },
            None => None,
        }
    }
}

/// The reply without its code fence: the fenced body where the tag occurs,
/// otherwise the trimmed reply.
pub open spec fn unfenced(response: Seq<char>, tag: Seq<char>) -> Seq<char> {
    match fenced_body(response, tag) {
        Some(b) => b,
        None => trim(response),
    }
}

/// Law: what remains of a reply once its fence is removed is trimmed: it
/// neither starts nor ends with whitespace.
pub proof fn lemma_unfenced_trimmed(response: Seq<char>, tag: Seq<char>)
    ensures
        unfenced(response, tag).len() == 0 || (!is_ws(unfenced(response, tag)[0]) && !is_ws(
            unfenced(response, tag).last(),
        )),
{
    let t = trim(response);
    if starts_with(t, tag) {
        let rest = t.skip(tag.len() as int);
        let body = if ends_with(rest, fence_close()) {
            rest.take(rest.len() - fence_close().len())
        } else {
            rest
        };
        lemma_trim_props(body);
    } else {
        match find(t, tag) {
            Some(start) => {
                let inner = t.skip(start + tag.len());
                match find(inner, fence_close()) {
                    Some(end) => lemma_trim_props(inner.take(end)),
                    None => lemma_trim_props(inner),
                }
            },
            None => lemma_trim_props(response),
        }
    }
}

/// Computes `fenced_body(v, tag)`.
pub fn fenced_body_exec(v: &Vec<char>, tag: &Vec<char>) -> (r: Option<Vec<char>>)
    ensures
        r matches Some(b) ==> fenced_body(v@, tag@) == Some(b@),
        r is None ==> fenced_body(v@, tag@) is None,
{
    let close = chars_of("```");
    let t = trimmed(v);
    if starts_with_exec(&t, tag) {
        let rest = subvec(&t, tag.len(), t.len());
        assert(rest@ =~= t@.skip(tag.len() as int));
        let body = if ends_with_exec(&rest, &close) {
            subvec(&rest, 0, rest.len() - close.len())
        } else {
            rest
        };
        proof {
            if ends_with(rest@, fence_close()) {
                assert(rest@.subrange(0, rest.len() - close.len()) =~= rest@.take(
                    rest.len() - close.len(),
                ));
            }
        }
        Some(trimmed(&body))
    } else {
        match find_in(&t, tag) {
            Some(start) => {
                proof {
                    lemma_find_from(t@, tag@, 0);
                    assert(find_from(t@, tag@, 0) == Some(start as int));
                    assert(matches_at(t@, tag@, start as int));
                    assert(start + tag@.len() <= t@.len());
                }
                let tl = tag.len();
                assert(start + tl <= t.len());
                let inner = subvec(&t, start + tl, t.len());
                assert(inner@ =~= t@.skip(start + tag.len()));
                match find_in(&inner, &close) {
                    Some(end) => {
                        proof {
                            lemma_find_from(inner@, close@, 0);
                        }
                        let b = subvec(&inner, 0, end);
                        assert(b@ =~= inner@.take(end as int));
                        Some(trimmed(&b))
                    },
                    None => Some(trimmed(&inner)),
                }
            },
            None => None,
        }
    }
}

/// Computes `unfenced(v, tag)` as a `String`.
pub fn unfenced_exec(v: &Vec<char>, tag: &Vec<char>) -> (r: String)
    ensures
        r@ == unfenced(v@, tag@),
{
    match fenced_body_exec(v, tag) {
        Some(b) => string_of(&b),
        None => string_of(&trimmed(v)),
    }
}

} // verus!
