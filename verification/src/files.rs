//! Choosing and ordering the files that the pipeline reads: the raw page files
//! (`page_<n>.txt`) and the organized episodes (`<n>.json`).
use vstd::prelude::*;
use crate::text::{
    chars_of, ends_with, ends_with_exec, parse_usize, parse_usize_exec, starts_with,
    starts_with_exec, subvec,
};

verus! {

broadcast use vstd::string::group_string_axioms;

pub const PAGE_FILE_PREFIX: &'static str = "page_";

pub const PAGE_FILE_SUFFIX: &'static str = ".txt";

pub const JSON_SUFFIX: &'static str = ".json";

pub const STATUS_FILE_NAME: &'static str = "episode_status.json";

// ---------------------------------------------------------------------------
// Stable sorting by a numeric key
// ---------------------------------------------------------------------------

/// The elements of `s` whose key is `k`, in order.
pub open spec fn keyed(s: Seq<(usize, String)>, k: usize) -> Seq<(usize, String)>
    decreases s.len(),
{
    if s.len() == 0 {
        s
    } else if s.last().0 == k {
        keyed(s.drop_last(), k).push(s.last())
    } else {
        keyed(s.drop_last(), k)
    }
}

pub open spec fn sorted_by_key(s: Seq<(usize, String)>) -> bool {
    forall|i: int, j: int| 0 <= i < j < s.len() ==> s[i].0 <= s[j].0
}

/// `r` is `s` sorted by key, elements with equal keys keeping their order
/// (what `sort_by_key` yields).
pub open spec fn is_stable_sort_of(r: Seq<(usize, String)>, s: Seq<(usize, String)>) -> bool {
    &&& sorted_by_key(r)
    &&& forall|k: usize| #[trigger] keyed(r, k) == keyed(s, k)
}

proof fn lemma_keyed_add(a: Seq<(usize, String)>, b: Seq<(usize, String)>, k: usize)
    ensures
        keyed(a + b, k) == keyed(a, k) + keyed(b, k),
    decreases b.len(),
{
    if b.len() == 0 {
        assert(a + b =~= a);
        assert(keyed(a, k) + keyed(b, k) =~= keyed(a, k));
    } else {
        lemma_keyed_add(a, b.drop_last(), k);
        assert((a + b).drop_last() =~= a + b.drop_last());
        assert((a + b).last() == b.last());
        if b.last().0 == k {
            assert(keyed(a, k) + keyed(b.drop_last(), k).push(b.last()) =~= (keyed(a, k) + keyed(
                b.drop_last(),
                k,
            )).push(b.last()));
        }
    }
}

proof fn lemma_keyed_none(s: Seq<(usize, String)>, k: usize)
    requires
        forall|i: int| 0 <= i < s.len() ==> #[trigger] s[i].0 != k,
    ensures
        keyed(s, k) == Seq::<(usize, String)>::empty(),
    decreases s.len(),
{
    if s.len() > 0 {
        assert(s.last().0 != k);
        assert forall|i: int| 0 <= i < s.drop_last().len() implies #[trigger] s.drop_last()[i].0 != k by {
            assert(s.drop_last()[i] == s[i]);
        }
        lemma_keyed_none(s.drop_last(), k);
    }
}

proof fn lemma_keyed_single(x: (usize, String), k: usize)
    ensures
        keyed(seq![x], k) == if x.0 == k {
            seq![x]
        } else {
            Seq::<(usize, String)>::empty()
        },
{
    let s = seq![x];
    assert(s.drop_last() =~= Seq::<(usize, String)>::empty());
    assert(s.last() == x);
    assert(keyed(s.drop_last(), k) =~= Seq::<(usize, String)>::empty());
    assert(Seq::<(usize, String)>::empty().push(x) =~= seq![x]);
}

/// `v` sorted by key; elements with equal keys keep their order.
pub fn sort_by_index(v: &Vec<(usize, String)>) -> (r: Vec<(usize, String)>)
    ensures
        is_stable_sort_of(r@, v@),
{
    let mut r: Vec<(usize, String)> = Vec::new();
    for i in 0..v.len()
        invariant
            sorted_by_key(r@),
            forall|k: usize| #[trigger] keyed(r@, k) == keyed(v@.take(i as int), k),
    {
        let x = (v[i].0, v[i].1.clone());
        assert(x == v@[i as int]);
        let mut j: usize = 0;
        while j < r.len() && r[j].0 <= x.0
            invariant
                j <= r.len(),
                forall|m: int| 0 <= m < j ==> #[trigger] r@[m].0 <= x.0,
            decreases r.len() - j,
        {
            j += 1;
        }
        let ghost old_r = r@;
        r.insert(j, x);
        proof {
            let a = old_r.take(j as int);
            let b = old_r.skip(j as int);
            assert(old_r =~= a + b);
            assert(r@ =~= a + seq![x] + b);
            assert forall|m: int| 0 <= m < b.len() implies #[trigger] b[m].0 > x.0 by {
                assert(b[m] == old_r[m + j]);
                if m > 0 {
                    assert(old_r[j as int].0 <= old_r[m + j].0);
                }
            }
            assert forall|k: usize| #[trigger] keyed(r@, k) == keyed(v@.take(i + 1), k) by {
                lemma_keyed_add(a + seq![x], b, k);
                lemma_keyed_add(a, seq![x], k);
                lemma_keyed_add(a, b, k);
                lemma_keyed_single(x, k);
                assert(v@.take(i + 1).drop_last() =~= v@.take(i as int));
                assert(v@.take(i + 1).last() == x);
                if x.0 == k {
                    lemma_keyed_none(b, k);
                    assert(keyed(b, k) + Seq::<(usize, String)>::empty() =~= keyed(b, k));
                    assert(keyed(a, k) + Seq::<(usize, String)>::empty() =~= keyed(a, k));
                } else {
                    assert(keyed(a, k) + Seq::<(usize, String)>::empty() =~= keyed(a, k));
                }
            }
            assert forall|p: int, q: int| 0 <= p < q < r@.len() implies r@[p].0 <= r@[q].0 by {
                if q < j {
                    assert(r@[p] == old_r[p] && r@[q] == old_r[q]);
                } else if q == j {
                    assert(r@[p] == old_r[p]);
                } else if p < j {
                    assert(r@[q] == b[q - j - 1]);
                    assert(r@[p] == old_r[p]);
                } else if p == j {
                    assert(r@[q] == b[q - j - 1]);
                } else {
                    assert(r@[p] == old_r[p - 1] && r@[q] == old_r[q - 1]);
                }
            }
        }
    }
    assert(v@.take(v.len() as int) =~= v@);
    r
}

// ---------------------------------------------------------------------------
// Page files
// ---------------------------------------------------------------------------

/// A raw page file: `page_` ... `.txt`.
pub open spec fn is_page_file_name(name: Seq<char>) -> bool {
    starts_with(name, PAGE_FILE_PREFIX@) && ends_with(name, PAGE_FILE_SUFFIX@)
}

/// The page number in a page file's name: what stands between `page_` and `.txt`.
pub open spec fn page_number_of(name: Seq<char>) -> Option<usize> {
    if is_page_file_name(name) {
        parse_usize(name.subrange(PAGE_FILE_PREFIX@.len() as int, name.len() - PAGE_FILE_SUFFIX@.len()))
    } else {
        None
    }
}

/// Whether `name` is the name of a raw page file.
pub fn is_page_file(name: &str) -> (r: bool)
    ensures
        r == is_page_file_name(name@),
{
    let v = chars_of(name);
    starts_with_exec(&v, &chars_of(PAGE_FILE_PREFIX)) && ends_with_exec(&v, &chars_of(PAGE_FILE_SUFFIX))
}

/// The page number of a raw page file.
pub fn page_number(name: &str) -> (r: Option<usize>)
    ensures
        r == page_number_of(name@),
{
    let v = chars_of(name);
    let prefix = chars_of(PAGE_FILE_PREFIX);
    let suffix = chars_of(PAGE_FILE_SUFFIX);
    if !(starts_with_exec(&v, &prefix) && ends_with_exec(&v, &suffix)) {
        return None;
    }
    proof {
        reveal_strlit("page_");
        reveal_strlit(".txt");
        if v@.len() < 9 {
            // the prefix and the suffix cannot overlap: the suffix would need a '.' inside "page_"
            assert(v@.subrange(0, 5)[v@.len() - 4] == v@[v@.len() - 4]);
            assert(v@.subrange(v@.len() - 4, v@.len() as int)[0] == v@[v@.len() - 4]);
        }
    }
    let middle = subvec(&v, prefix.len(), v.len() - suffix.len());
    parse_usize_exec(&middle)
}

/// The page files among `names`, each with its number, in the order given.
pub open spec fn page_candidates(names: Seq<String>) -> Seq<(usize, String)>
    decreases names.len(),
{
    if names.len() == 0 {
        Seq::empty()
    } else {
        let rest = page_candidates(names.drop_last());
        if is_page_file_name(names.last()@) {
            rest.push((page_number_of(names.last()@).unwrap(), names.last()))
        } else {
            rest
        }
    }
}

/// Every page file among `names` carries a page number.
pub open spec fn page_files_numbered(names: Seq<String>) -> bool {
    forall|i: int| 0 <= i < names.len() && is_page_file_name(#[trigger] names[i]@) ==> page_number_of(
        names[i]@,
    ) is Some
}

/// The raw page files among `names`, ordered by page number.
pub fn select_page_files(names: &Vec<String>) -> (r: Vec<(usize, String)>)
    requires
        page_files_numbered(names@),
    ensures
        is_stable_sort_of(r@, page_candidates(names@)),
{
    let mut candidates: Vec<(usize, String)> = Vec::new();
    for i in 0..names.len()
        invariant
            page_files_numbered(names@),
            candidates@ == page_candidates(names@.take(i as int)),
    {
        assert(names@.take(i + 1).drop_last() =~= names@.take(i as int));
        assert(names@.take(i + 1).last() == names@[i as int]);
        if is_page_file(names[i].as_str()) {
            match page_number(names[i].as_str()) {
                Some(n) => {
                    candidates.push((n, names[i].clone()));
                },
                None => {
                    assert(false);
                },
            }
        }
    }
    assert(names@.take(names.len() as int) =~= names@);
    sort_by_index(&candidates)
}

// ---------------------------------------------------------------------------
// Episode files
// ---------------------------------------------------------------------------

/// The index of an organized episode file: its stem, for a `.json` file other
/// than the status file whose stem is a number.
pub open spec fn json_episode_index_of(name: Seq<char>) -> Option<usize> {
    if name.len() > JSON_SUFFIX@.len() && ends_with(name, JSON_SUFFIX@) && name != STATUS_FILE_NAME@ {
        parse_usize(name.take(name.len() - JSON_SUFFIX@.len()))
    } else {
        None
    }
}

/// The index of an organized episode file, if `name` is one.
pub fn json_episode_index(name: &str) -> (r: Option<usize>)
    ensures
        r == json_episode_index_of(name@),
{
    let v = chars_of(name);
    let suffix = chars_of(JSON_SUFFIX);
    if v.len() > suffix.len() && ends_with_exec(&v, &suffix) && !crate::text::chars_eq(
        &v,
        &chars_of(STATUS_FILE_NAME),
    ) {
        let stem = subvec(&v, 0, v.len() - suffix.len());
        assert(stem@ =~= v@.take(v@.len() - JSON_SUFFIX@.len()));
        parse_usize_exec(&stem)
    } else {
        None
    }
}

/// The organized episode files among `names`, each with its index, in the order given.
pub open spec fn json_candidates(names: Seq<String>) -> Seq<(usize, String)>
    decreases names.len(),
{
    if names.len() == 0 {
        Seq::empty()
    } else {
        let rest = json_candidates(names.drop_last());
        match json_episode_index_of(names.last()@) {
            Some(i) => rest.push((i, names.last())),
            None => rest,
        }
    }
}

/// The organized episode files among `names`, ordered by index.
pub fn select_json_episode_files(names: &Vec<String>) -> (r: Vec<(usize, String)>)
    ensures
        is_stable_sort_of(r@, json_candidates(names@)),
{
    let mut candidates: Vec<(usize, String)> = Vec::new();
    for i in 0..names.len()
        invariant
            candidates@ == json_candidates(names@.take(i as int)),
    {
        assert(names@.take(i + 1).drop_last() =~= names@.take(i as int));
        assert(names@.take(i + 1).last() == names@[i as int]);
        if let Some(idx) = json_episode_index(names[i].as_str()) {
            candidates.push((idx, names[i].clone()));
        }
    }
    assert(names@.take(names.len() as int) =~= names@);
    sort_by_index(&candidates)
}

} // verus!
