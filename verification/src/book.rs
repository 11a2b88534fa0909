//! Page-by-page assembly of a book into episodes, one Typst file per episode.
//!
//! Each page of the PDF is formatted as a Typst fragment; the fragments are
//! integrated into a running state: the episode being assembled, the episodes
//! already completed, and a counter that numbers the episodes.
use vstd::prelude::*;
use crate::document::CHAPTER_IMPORT;
use crate::text::{
    chars_eq, chars_of, decimal, find_from, matches_at, trim_start, trim_end, decimal_exec, ends_with, find, find_in, first_prefixed_line,
    first_prefixed_line_exec, is_ws, join, last_word, last_word_exec, lemma_find_from,
    lemma_trim_props, parse_usize, parse_usize_exec, push_chars, starts_with, starts_with_exec,
    string_of, subvec, trim, trimmed, zero_pad, zero_padded_decimal,
};

verus! {

broadcast use vstd::string::group_string_axioms;

/// The marker by which a formatted page ends an episode.
pub const END_MARKER: &'static str = "// END_EPISODE<";

/// The prefix of a first-level Typst heading.
pub const H1_PREFIX: &'static str = "= ";

/// The prefix of the name given to an episode that starts without a heading.
pub const FALLBACK_NAME_PREFIX: &'static str = "פרק ";

/// The mark by which the formatter says that a page holds nothing to keep.
pub const SKIP_MARK: &'static str = "// SKIP";

/// The line of `pdfinfo` output that gives the number of pages.
pub const PAGES_PREFIX: &'static str = "Pages:";

pub const EPISODE_FILE_PREFIX: &'static str = "episode_";

pub const EPISODE_FILE_SUFFIX: &'static str = ".typ";

pub const PAGES_COMMENT: &'static str = "// pdf-pages: ";

pub const PARAGRAPH_BREAK: &'static str = "\n\n";

pub const PAGE_SEPARATOR: &'static str = ", ";

pub const PROMPT_MID_OPEN: &'static str = "You are currently mid-episode ('";

pub const PROMPT_MID_CONTENT: &'static str =
    "'). Here is the Typst content accumulated so far for this episode:\n\n```typst\n";

pub const PROMPT_MID_RAW: &'static str =
    "\n```\n\nHere is the raw text from the next page. Determine whether it continues the current episode or begins a new one, and format accordingly per your instructions. If the page is blank or irrelevant, output only `// SKIP`.\n\nRaw text:\n\n";

pub const PROMPT_FIRST: &'static str =
    "Here is raw text extracted from a book. Please format it as Typst code according to the style guide in your instructions. Do not include any other commentary, only the Typst code.\n\n";

/// One episode: one output `.typ` file, potentially spanning many PDF pages.
pub struct Episode {
    pub name: String,
    pub content: String,
    pub pages: Vec<usize>,
    pub index: usize,
}

/// The model of an [`Episode`].
pub struct EpisodeView {
    pub name: Seq<char>,
    pub content: Seq<char>,
    pub pages: Seq<usize>,
    pub index: int,
}

impl View for Episode {
    type V = EpisodeView;

    open spec fn view(&self) -> EpisodeView {
        EpisodeView {
            name: self.name@,
            content: self.content@,
            pages: self.pages@,
            index: self.index as int,
        }
    }
}

/// A new, empty episode.
pub open spec fn fresh_episode(index: int, name: Seq<char>) -> EpisodeView {
    EpisodeView { name, content: Seq::empty(), pages: Seq::empty(), index }
}

/// The episode after the text of `page` is added: the text is trimmed; an empty
/// text changes nothing; otherwise the page is recorded once and the text is
/// appended, separated from earlier content by a blank line.
pub open spec fn with_page(e: EpisodeView, page: usize, text: Seq<char>) -> EpisodeView {
    let t = trim(text);
    if t.len() == 0 {
        e
    } else {
        EpisodeView {
            name: e.name,
            content: if e.content.len() == 0 {
                t
            } else {
                e.content + PARAGRAPH_BREAK@ + t
            },
            pages: if e.pages.contains(page) {
                e.pages
            } else {
                e.pages.push(page)
            },
            index: e.index,
        }
    }
}

/// `episode_NNN.typ`, the index written with at least three digits.
pub open spec fn episode_file_name(index: int) -> Seq<char> {
    EPISODE_FILE_PREFIX@ + zero_pad(decimal(index as nat), 3) + EPISODE_FILE_SUFFIX@
}

/// The page numbers, in decimal, separated by ", ".
pub open spec fn pages_text(pages: Seq<usize>) -> Seq<char> {
    join(pages.map_values(|p: usize| decimal(p as nat)), PAGE_SEPARATOR@)
}

/// The text of an episode's file: the import line, a comment listing its pages, then its content.
pub open spec fn episode_file_text(e: EpisodeView) -> Seq<char> {
    CHAPTER_IMPORT@ + PAGES_COMMENT@ + pages_text(e.pages) + PARAGRAPH_BREAK@ + e.content
}

impl Episode {
    pub fn new(index: usize, name: String) -> (e: Self)
        ensures
            e@ == fresh_episode(index as int, name@),
    {
        Episode { name, content: String::new(), pages: Vec::new(), index }
    }

    /// The name of the file that holds this episode.
    pub fn file_name(&self) -> (r: String)
        ensures
            r@ == episode_file_name(self.index as int),
    {
        let mut r = String::from_str(EPISODE_FILE_PREFIX);
        push_chars(&mut r, &zero_padded_decimal(self.index, 3));
        r.append(EPISODE_FILE_SUFFIX);
        r
    }

    fn has_page(&self, page: usize) -> (r: bool)
        ensures
            r == self.pages@.contains(page),
    {
        for i in 0..self.pages.len()
            invariant
                forall|j: int| 0 <= j < i ==> self.pages@[j] != page,
        {
            if self.pages[i] == page {
                return true;
            }
        }
        false
    }

    fn append_chars(&mut self, page: usize, text: &Vec<char>)
        ensures
            final(self)@ == with_page(old(self)@, page, text@),
    {
        let t = trimmed(text);
        if t.len() == 0 {
            return;
        }
        if !self.has_page(page) {
            self.pages.push(page);
        }
        if !self.content.as_str().is_empty() {
            self.content.append(PARAGRAPH_BREAK);
        }
        push_chars(&mut self.content, &t);
    }

    /// Adds the text of `page` to this episode.
    pub fn append_page(&mut self, page: usize, text: &str)
        ensures
            final(self)@ == with_page(old(self)@, page, text@),
    {
        let v = chars_of(text);
        self.append_chars(page, &v);
    }

    /// The text written to this episode's file.
    pub fn file_text(&self) -> (r: String)
        ensures
            r@ == episode_file_text(self@),
    {
        let ghost parts = self.pages@.map_values(|p: usize| decimal(p as nat));
        let mut pages = String::new();
        for i in 0..self.pages.len()
            invariant
                parts == self.pages@.map_values(|p: usize| decimal(p as nat)),
                pages@ == join(parts.take(i as int), PAGE_SEPARATOR@),
        {
            if i > 0 {
                pages.append(PAGE_SEPARATOR);
            }
            push_chars(&mut pages, &decimal_exec(self.pages[i]));
            assert(parts.take(i + 1).drop_last() =~= parts.take(i as int));
            proof {
                if i == 0 {
                    assert(pages@ =~= parts.take(1)[0]);
                }
            }
        }
        assert(parts.take(self.pages.len() as int) =~= parts);
        let mut r = String::from_str(CHAPTER_IMPORT);
        r.append(PAGES_COMMENT);
        r.append(pages.as_str());
        r.append(PARAGRAPH_BREAK);
        r.append(self.content.as_str());
        r
    }
}

/// Lemma: adding a page keeps the page list free of duplicates.
pub proof fn lemma_with_page_no_duplicates(e: EpisodeView, page: usize, text: Seq<char>)
    requires
        e.pages.no_duplicates(),
    ensures
        with_page(e, page, text).pages.no_duplicates(),
        with_page(e, page, text).name == e.name,
        with_page(e, page, text).index == e.index,
{
}

/// Law: adding the trimmed text of a page is the same as adding the text itself.
pub proof fn lemma_with_page_trimmed(e: EpisodeView, page: usize, text: Seq<char>)
    ensures
        with_page(e, page, trim(text)) == with_page(e, page, text),
{
    crate::text::lemma_trim_idempotent(text);
}

/// The episode after the texts of `steps` (a page and its text each) are added in order.
pub open spec fn append_all(e: EpisodeView, steps: Seq<(usize, Seq<char>)>) -> EpisodeView
    decreases steps.len(),
{
    if steps.len() == 0 {
        e
    } else {
        with_page(append_all(e, steps.drop_last()), steps.last().0, steps.last().1)
    }
}

/// The texts of `steps` that are not blank, each trimmed, in order.
pub open spec fn kept_texts(steps: Seq<(usize, Seq<char>)>) -> Seq<Seq<char>>
    decreases steps.len(),
{
    if steps.len() == 0 {
        Seq::empty()
    } else {
        let k = kept_texts(steps.drop_last());
        let t = trim(steps.last().1);
        if t.len() > 0 {
            k.push(t)
        } else {
            k
        }
    }
}

/// The pages of `steps` whose text is not blank, in the order in which each is
/// first seen, without repeats.
pub open spec fn first_seen_pages(steps: Seq<(usize, Seq<char>)>) -> Seq<usize>
    decreases steps.len(),
{
    if steps.len() == 0 {
        Seq::empty()
    } else {
        let p = first_seen_pages(steps.drop_last());
        if trim(steps.last().1).len() > 0 && !p.contains(steps.last().0) {
            p.push(steps.last().0)
        } else {
            p
        }
    }
}

proof fn lemma_kept_texts_nonblank(steps: Seq<(usize, Seq<char>)>)
    ensures
        forall|i: int| 0 <= i < kept_texts(steps).len() ==> #[trigger] kept_texts(steps)[i].len() > 0 && !is_ws(
            kept_texts(steps)[i][0],
        ) && !is_ws(kept_texts(steps)[i].last()),
    decreases steps.len(),
{
    if steps.len() > 0 {
        lemma_kept_texts_nonblank(steps.drop_last());
        lemma_trim_props(steps.last().1);
        let k = kept_texts(steps.drop_last());
        assert forall|i: int| 0 <= i < kept_texts(steps).len() implies #[trigger] kept_texts(steps)[i].len()
            > 0 && !is_ws(kept_texts(steps)[i][0]) && !is_ws(kept_texts(steps)[i].last()) by {
            if i < k.len() {
                assert(kept_texts(steps)[i] == k[i]);
            }
        }
    }
}

proof fn lemma_join_first(parts: Seq<Seq<char>>, sep: Seq<char>)
    requires
        parts.len() >= 1,
        parts[0].len() > 0,
    ensures
        join(parts, sep).len() > 0,
        join(parts, sep)[0] == parts[0][0],
    decreases parts.len(),
{
    if parts.len() > 1 {
        lemma_join_first(parts.drop_last(), sep);
        assert(parts.drop_last()[0] == parts[0]);
    }
}

/// Law: adding texts one page after another, starting from a new episode,
/// gives as content the non-blank texts, each trimmed, separated by a blank
/// line (so the content is itself trimmed), and as pages those of the
/// non-blank texts in the order first seen, each once.
pub proof fn lemma_append_all(index: int, name: Seq<char>, steps: Seq<(usize, Seq<char>)>)
    ensures
        append_all(fresh_episode(index, name), steps).name == name,
        append_all(fresh_episode(index, name), steps).index == index,
        append_all(fresh_episode(index, name), steps).content == join(kept_texts(steps), PARAGRAPH_BREAK@),
        append_all(fresh_episode(index, name), steps).content == trim(
            append_all(fresh_episode(index, name), steps).content,
        ),
        append_all(fresh_episode(index, name), steps).pages == first_seen_pages(steps),
        append_all(fresh_episode(index, name), steps).pages.no_duplicates(),
        forall|p: usize|
            #![trigger append_all(fresh_episode(index, name), steps).pages.contains(p)]
            append_all(fresh_episode(index, name), steps).pages.contains(p) <==> exists|j: int|
                0 <= j < steps.len() && (#[trigger] steps[j]).0 == p && trim(steps[j].1).len() > 0,
    decreases steps.len(),
{
    let e = append_all(fresh_episode(index, name), steps);
    let k = kept_texts(steps);
    lemma_kept_texts_nonblank(steps);
    if steps.len() == 0 {
        assert(e.pages =~= Seq::<usize>::empty());
        assert(trim(e.content) == e.content);
    } else {
        let prev_steps = steps.drop_last();
        let prev = append_all(fresh_episode(index, name), prev_steps);
        lemma_append_all(index, name, prev_steps);
        lemma_with_page_no_duplicates(prev, steps.last().0, steps.last().1);
        let kp = kept_texts(prev_steps);
        lemma_kept_texts_nonblank(prev_steps);
        let t = trim(steps.last().1);
        if t.len() > 0 {
            if kp.len() == 0 {
                assert(prev.content.len() == 0);
                assert(k =~= seq![t]);
            } else {
                assert(kp[kp.len() - 1].len() > 0);
                assert(k.drop_last() == kp);
                assert(prev.content.len() > 0);
            }
        }
        // the pages: membership
        let last = steps.last();
        assert(steps[steps.len() - 1] == last);
        assert(e == with_page(prev, last.0, last.1));
        assert forall|p: usize| #[trigger] e.pages.contains(p) implies exists|j: int|
            0 <= j < steps.len() && (#[trigger] steps[j]).0 == p && trim(steps[j].1).len() > 0 by {
            if prev.pages.contains(p) {
                let j = choose|j: int|
                    0 <= j < prev_steps.len() && (#[trigger] prev_steps[j]).0 == p && trim(
                        prev_steps[j].1,
                    ).len() > 0;
                assert(steps[j] == prev_steps[j]);
            } else {
                assert(t.len() > 0);
                assert(e.pages == prev.pages.push(last.0));
                let k2 = choose|k2: int| 0 <= k2 < e.pages.len() && e.pages[k2] == p;
                assert(k2 == prev.pages.len());
                assert(p == last.0);
            }
        }
        assert forall|p: usize| (exists|j: int|
            0 <= j < steps.len() && (#[trigger] steps[j]).0 == p && trim(steps[j].1).len() > 0) implies #[trigger] e.pages.contains(p) by {
            let j = choose|j: int| 0 <= j < steps.len() && (#[trigger] steps[j]).0 == p && trim(steps[j].1).len() > 0;
            if j < prev_steps.len() {
                assert(prev_steps[j] == steps[j]);
                assert(prev.pages.contains(p));
                if t.len() > 0 && !prev.pages.contains(last.0) {
                    assert(e.pages == prev.pages.push(last.0));
                    let k2 = choose|k2: int| 0 <= k2 < prev.pages.len() && prev.pages[k2] == p;
                    assert(e.pages[k2] == p);
                }
            } else {
                assert(steps[j] == last);
                if !prev.pages.contains(p) {
                    assert(e.pages == prev.pages.push(last.0));
                    assert(e.pages[prev.pages.len() as int] == p);
                } else {
                    let k2 = choose|k2: int| 0 <= k2 < prev.pages.len() && prev.pages[k2] == p;
                    if e.pages != prev.pages {
                        assert(e.pages == prev.pages.push(last.0));
                    }
                    assert(e.pages[k2] == p);
                }
            }
        }
    }
    // the content is trimmed
    if k.len() > 0 {
        lemma_join_first(k, PARAGRAPH_BREAK@);
        let c = e.content;
        assert(!is_ws(c[0]));
        if k.len() == 1 {
            assert(c == k[0]);
        } else {
            assert(c == join(k.drop_last(), PARAGRAPH_BREAK@) + PARAGRAPH_BREAK@ + k.last());
        }
        assert(c.last() == k.last().last());
        assert(!is_ws(c.last()));
        assert(trim_start(c) == c);
        assert(trim_end(c) == c);
    } else {
        assert(e.content =~= Seq::<char>::empty());
    }
}

// ---------------------------------------------------------------------------
// Formatting a reply and reading headings
// ---------------------------------------------------------------------------

/// The reply of the formatter without its "```typst" code fence.
pub fn strip_markdown_fence(content: String) -> (r: String)
    ensures
        r@ == crate::fence::unfenced(content@, "```typst"@),
{
    let v = chars_of(content.as_str());
    let tag = chars_of("```typst");
    crate::fence::unfenced_exec(&v, &tag)
}

/// The name given by the first line that is a first-level heading (`= name`), trimmed.
pub open spec fn first_h1(content: Seq<char>) -> Option<Seq<char>> {
    match first_prefixed_line(content, H1_PREFIX@) {
        Some(l) => Some(trim(l.skip(H1_PREFIX@.len() as int))),
        None => None,
    }
}

fn first_h1_chars(content: &Vec<char>) -> (r: Option<Vec<char>>)
    ensures
        r matches Some(n) ==> first_h1(content@) == Some(n@),
        r is None ==> first_h1(content@) is None,
{
    let p = chars_of(H1_PREFIX);
    match first_prefixed_line_exec(content, &p) {
        Some(l) => {
            proof {
                crate::text::lemma_first_prefixed_line(content@, p@, 0);
            }
            let rest = subvec(&l, p.len(), l.len());
            assert(rest@ =~= l@.skip(H1_PREFIX@.len() as int));
            Some(trimmed(&rest))
        },
        None => None,
    }
}

/// The name in the first first-level heading of `content`.
pub fn parse_first_h1(content: &str) -> (r: Option<String>)
    ensures
        r matches Some(n) ==> first_h1(content@) == Some(n@),
        r is None ==> first_h1(content@) is None,
{
    let v = chars_of(content);
    match first_h1_chars(&v) {
        Some(n) => Some(string_of(&n)),
        None => None,
    }
}

/// The prompt that asks for the next page to be formatted.
pub open spec fn format_prompt(raw_text: Seq<char>, episode_name: Option<Seq<char>>, episode_typst: Seq<char>) -> Seq<char> {
    match episode_name {
        Some(name) => PROMPT_MID_OPEN@ + name + PROMPT_MID_CONTENT@ + episode_typst + PROMPT_MID_RAW@
            + raw_text,
        None => PROMPT_FIRST@ + raw_text,
    }
}

/// Builds the prompt for the next page; mid-episode it shows the episode's name and content.
pub fn build_format_prompt(raw_text: &str, episode_name: Option<&str>, episode_typst: &str) -> (r: String)
    ensures
        r@ == format_prompt(
            raw_text@,
            match episode_name {
                Some(n) => Some(n@),
                None => None,
            },
            episode_typst@,
        ),
{
    match episode_name {
        Some(name) => {
            let mut r = String::from_str(PROMPT_MID_OPEN);
            r.append(name);
            r.append(PROMPT_MID_CONTENT);
            r.append(episode_typst);
            r.append(PROMPT_MID_RAW);
            r.append(raw_text);
            r
        },
        None => {
            let mut r = String::from_str(PROMPT_FIRST);
            r.append(raw_text);
            r
        },
    }
}

/// A formatted page that says it holds nothing to keep.
pub open spec fn is_skip(content: Seq<char>) -> bool {
    starts_with(trim(content), SKIP_MARK@)
}

/// Whether a formatted page is to be skipped.
pub fn is_skip_page(content: &str) -> (r: bool)
    ensures
        r == is_skip(content@),
{
    let v = trimmed(&chars_of(content));
    starts_with_exec(&v, &chars_of(SKIP_MARK))
}

/// The number of pages that `pdfinfo` reports: the last word of its first
/// "Pages:" line, read as a number; 0 when there is none.
pub open spec fn pdfinfo_page_count(info: Seq<char>) -> usize {
    match first_prefixed_line(info, PAGES_PREFIX@) {
        Some(l) => match last_word(l) {
            Some(w) => match parse_usize(w) {
                Some(n) => n,
                None => 0,
            },
            None => 0,
        },
        None => 0,
    }
}

/// Reads the number of pages from the output of `pdfinfo`.
pub fn page_count(info: &str) -> (r: usize)
    ensures
        r == pdfinfo_page_count(info@),
{
    let v = chars_of(info);
    match first_prefixed_line_exec(&v, &chars_of(PAGES_PREFIX)) {
        Some(l) => match last_word_exec(&l) {
            Some(w) => match parse_usize_exec(&w) {
                Some(n) => n,
                None => 0,
            },
            None => 0,
        },
        None => 0,
    }
}

/// Law: a first-level heading is read from whichever line it stands on, as long
/// as no earlier line can be a heading (the text before it holds no `=`).
pub proof fn lemma_first_h1_on_any_line(pre: Seq<char>, name: Seq<char>, tail: Seq<char>)
    requires
        pre.len() == 0 || pre.last() == '\n',
        !pre.contains('='),
        !name.contains('\n'),
        tail.len() == 0 || tail[0] == '\n',
    ensures
        first_h1(pre + "= "@ + name + tail) == Some(trim(name)),
{
    reveal_strlit("= ");
    let line = "= "@ + name;
    assert(starts_with(line, H1_PREFIX@)) by {
        assert(line.subrange(0, 2) =~= H1_PREFIX@);
    }
    assert forall|i: int| 0 <= i < line.len() implies line[i] != '\n' by {
        if i >= 2 {
            assert(line[i] == name[i - 2]);
            if line[i] == '\n' {
                assert(name.contains('\n'));
            }
        }
    }
    crate::text::lemma_first_prefixed_line_at(pre, line, tail, H1_PREFIX@);
    assert(pre + "= "@ + name + tail =~= pre + line + tail);
    assert(line.skip(2) =~= name);
}

/// Law: a page is skipped exactly when its trimmed text begins with the whole
/// mark `// SKIP`.
pub proof fn lemma_skip_exactly_on_mark(content: Seq<char>)
    ensures
        is_skip(content) <==> (trim(content).len() >= 7 && trim(content).take(7) == "// SKIP"@),
{
    reveal_strlit("// SKIP");
    if trim(content).len() >= 7 {
        assert(trim(content).subrange(0, 7) =~= trim(content).take(7));
    }
}

/// Law: a page whose trimmed text begins with an end marker is never skipped.
pub proof fn lemma_end_marker_page_not_skipped(content: Seq<char>)
    requires
        starts_with(trim(content), END_MARKER@),
    ensures
        !is_skip(content),
{
    reveal_strlit("// END_EPISODE<");
    reveal_strlit("// SKIP");
    let t = trim(content);
    assert(t[3] == t.subrange(0, 15)[3]);
    if is_skip(content) {
        assert(t[3] == t.subrange(0, 7)[3]);
    }
}

/// Law: when the first line that begins with `Pages:` ends in the decimal
/// representation of any `usize` `n`, after at least one space, the page
/// count is `n`, whatever lines come before it (none of them holding a `P`)
/// or after it.
pub proof fn lemma_page_count_reads_number(pre: Seq<char>, spaces: Seq<char>, n: usize, tail: Seq<char>)
    requires
        pre.len() == 0 || pre.last() == '\n',
        !pre.contains('P'),
        spaces.len() >= 1,
        forall|i: int| 0 <= i < spaces.len() ==> spaces[i] == ' ',
        tail.len() == 0 || tail[0] == '\n',
    ensures
        pdfinfo_page_count(pre + "Pages:"@ + spaces + decimal(n as nat) + tail) == n,
{
    reveal_strlit("Pages:");
    crate::text::lemma_decimal_value(n as nat);
    crate::text::lemma_parse_decimal(n);
    let d = decimal(n as nat);
    let line = "Pages:"@ + spaces + d;
    let k = (6 + spaces.len()) as int;
    assert(starts_with(line, PAGES_PREFIX@)) by {
        assert(line.subrange(0, 6) =~= PAGES_PREFIX@);
    }
    assert forall|i: int| k <= i < line.len() implies !is_ws(#[trigger] line[i]) && line[i] != '\n' by {
        assert(line[i] == d[i - k]);
        assert(crate::text::is_digit(d[i - k]));
    }
    assert forall|i: int| 0 <= i < line.len() implies line[i] != '\n' by {
        if 6 <= i < k {
            assert(line[i] == spaces[i - 6]);
        } else if i >= k {
            assert(!is_ws(line[i]) && line[i] != '\n');
        }
    }
    crate::text::lemma_first_prefixed_line_at(pre, line, tail, PAGES_PREFIX@);
    assert(pre + "Pages:"@ + spaces + d + tail =~= pre + line + tail);
    assert(!is_ws(line.last()));
    assert(crate::text::trim_end(line) == line);
    assert(line[k - 1] == spaces[k - 7]);
    crate::text::lemma_word_tail(line, k);
    assert(line.skip(k) =~= d);
}


// ---------------------------------------------------------------------------
// Integrating pages into episodes
// ---------------------------------------------------------------------------

/// The state that pages are integrated into: the episode counter, the episode
/// being assembled, and the episodes completed so far (in order).
pub struct Progress {
    pub counter: int,
    pub current: Option<EpisodeView>,
    pub completed: Seq<EpisodeView>,
}

pub open spec fn opt_view(o: Option<Episode>) -> Option<EpisodeView> {
    match o {
        Some(e) => Some(e@),
        None => None,
    }
}

pub open spec fn episode_views(s: Seq<Episode>) -> Seq<EpisodeView> {
    s.map_values(|e: Episode| e@)
}

/// The model of the integration state held by a caller.
pub open spec fn progress(counter: usize, current: Option<Episode>, completed: Seq<Episode>) -> Progress {
    Progress { counter: counter as int, current: opt_view(current), completed: episode_views(completed) }
}

/// Moves the current episode, if any, to the completed ones.
pub open spec fn flush(st: Progress) -> Progress {
    match st.current {
        Some(e) => Progress { counter: st.counter, current: None, completed: st.completed.push(e) },
        None => st,
    }
}

/// The name of an episode that starts on `page` without a heading: "פרק <page>".
pub open spec fn fallback_name(page: usize) -> Seq<char> {
    FALLBACK_NAME_PREFIX@ + decimal(page as nat)
}

/// Where the text after an end marker at `e` resumes: past the end of the marker's line.
pub open spec fn marker_line_end(content: Seq<char>, e: int) -> int {
    match find(content.skip(e), seq!['\n']) {
        Some(n) => e + n + 1,
        None => content.len() as int,
    }
}

/// The text before an end marker at `e`, trimmed.
pub open spec fn before_marker(content: Seq<char>, e: int) -> Seq<char> {
    trim(content.take(e))
}

/// The text after the line of an end marker at `e`, trimmed.
pub open spec fn after_marker(content: Seq<char>, e: int) -> Seq<char> {
    trim(content.skip(marker_line_end(content, e)))
}

/// The state once the text `before` an end marker has an episode to join: a
/// new one, named by its heading or after the page, when there is no current
/// episode and the text is not blank.
pub open spec fn opened(page: usize, before: Seq<char>, st: Progress) -> Progress {
    if before.len() > 0 && st.current is None {
        Progress {
            counter: st.counter + 1,
            current: Some(
                fresh_episode(
                    st.counter + 1,
                    match first_h1(before) {
                        Some(n) => n,
                        None => fallback_name(page),
                    },
                ),
            ),
            completed: st.completed,
        }
    } else {
        st
    }
}

/// The state once the text `before` an end marker has joined the current episode.
pub open spec fn joined(page: usize, before: Seq<char>, st: Progress) -> Progress {
    let st0 = opened(page, before, st);
    if before.len() > 0 {
        Progress {
            counter: st0.counter,
            current: Some(with_page(st0.current.unwrap(), page, before)),
            completed: st0.completed,
        }
    } else {
        st0
    }
}

/// The state after an end marker: the text before it joins the current
/// episode, which is then completed.
pub open spec fn close_at_marker(page: usize, before: Seq<char>, st: Progress) -> Progress {
    flush(joined(page, before, st))
}

/// The state after text without an end marker: it starts a new episode when
/// its first heading names another episode than the current one, otherwise it
/// joins the current episode; text with no heading and no current episode is
/// dropped.
pub open spec fn integrate_plain(page: usize, content: Seq<char>, st: Progress) -> Progress {
    let h1 = first_h1(content);
    let is_new = match h1 {
        Some(h) => match st.current {
            Some(ep) => ep.name != h,
            None => true,
        },
        None => false,
    };
    if is_new {
        Progress {
            counter: st.counter + 1,
            current: Some(with_page(fresh_episode(st.counter + 1, h1.unwrap()), page, trim(content))),
            completed: flush(st).completed,
        }
    } else {
        match st.current {
            Some(ep) => Progress {
                counter: st.counter,
                current: Some(with_page(ep, page, trim(content))),
                completed: st.completed,
            },
            None => st,
        }
    }
}

/// What the text around an end marker found at `e` measures.
pub proof fn lemma_marker_split(content: Seq<char>, e: int)
    requires
        find(content, END_MARKER@) == Some(e),
    ensures
        0 <= e,
        e + END_MARKER@.len() <= content.len(),
        e + 1 <= marker_line_end(content, e) <= content.len(),
        before_marker(content, e).len() <= e,
        after_marker(content, e).len() <= content.len() - marker_line_end(content, e),
        after_marker(content, e).len() < content.len(),
{
    lemma_find_from(content, END_MARKER@, 0);
    assert(matches_at(content, END_MARKER@, e));
    reveal_strlit("// END_EPISODE<");
    lemma_find_from(content.skip(e), seq!['\n'], 0);
    if let Some(n) = find(content.skip(e), seq!['\n']) {
        assert(matches_at(content.skip(e), seq!['\n'], n));
    }
    lemma_trim_props(content.take(e));
    lemma_trim_props(content.skip(marker_line_end(content, e)));
}

/// The state after the formatted text `content` of `page` is integrated.
///
/// Text that holds an end marker is split there: the text before the marker
/// joins the current episode (starting one when there is none), the episode is
/// completed, and the text after the marker's line is integrated in turn. Text
/// without a marker is integrated as `integrate_plain` says.
pub open spec fn integrate(page: usize, content: Seq<char>, st: Progress) -> Progress
    decreases content.len(),
{
    match find(content, END_MARKER@) {
        Some(e) => {
            proof {
                lemma_marker_split(content, e);
            }
            let st2 = close_at_marker(page, before_marker(content, e), st);
            let after = after_marker(content, e);
            if after.len() > 0 {
                integrate(page, after, st2)
            } else {
                st2
            }
        },
        None => integrate_plain(page, content, st),
    }
}

/// All episodes of a state, completed ones first, then the current one.
pub open spec fn all_episodes(st: Progress) -> Seq<EpisodeView> {
    match st.current {
        Some(e) => st.completed.push(e),
        None => st.completed,
    }
}

/// What one step of integration does to the counter and the episodes: the
/// counter grows by at most one, the completed episodes stay, and the episodes
/// of the state gain at most one episode at the end, a fresh one numbered with
/// the new counter; the others keep their indices.
pub proof fn lemma_step_shape(page: usize, content: Seq<char>, st: Progress)
    ensures
        ({
            let r = integrate_plain(page, content, st);
            &&& r.counter == st.counter || r.counter == st.counter + 1
            &&& st.completed.is_prefix_of(r.completed)
        }),
        ({
            let r = close_at_marker(page, content, st);
            &&& r.current is None
            &&& r.counter == st.counter || r.counter == st.counter + 1
            &&& st.completed.is_prefix_of(r.completed)
        }),
{
}

/// Law: integrating a page never lowers the counter and never changes or
/// removes an episode already completed.
pub proof fn lemma_integrate_monotone(page: usize, content: Seq<char>, st: Progress)
    ensures
        integrate(page, content, st).counter >= st.counter,
        st.completed.is_prefix_of(integrate(page, content, st).completed),
    decreases content.len(),
{
    if let Some(e) = find(content, END_MARKER@) {
        lemma_marker_split(content, e);
        lemma_step_shape(page, before_marker(content, e), st);
        let st2 = close_at_marker(page, before_marker(content, e), st);
        let after = after_marker(content, e);
        if after.len() > 0 {
            lemma_integrate_monotone(page, after, st2);
        }
    } else {
        lemma_step_shape(page, content, st);
    }
}

/// The episodes of a state are numbered 1, 2, ... up to the counter, in order,
/// and none lists a page twice.
pub open spec fn well_numbered(st: Progress) -> bool {
    let all = all_episodes(st);
    &&& all.len() == st.counter
    &&& forall|i: int| 0 <= i < all.len() ==> (#[trigger] all[i]).index == i + 1
    &&& forall|i: int| 0 <= i < all.len() ==> (#[trigger] all[i]).pages.no_duplicates()
}

proof fn lemma_close_well_numbered(page: usize, before: Seq<char>, st: Progress)
    requires
        well_numbered(st),
    ensures
        well_numbered(close_at_marker(page, before, st)),
{
    let st0 = opened(page, before, st);
    assert(well_numbered(st0)) by {
        if before.len() > 0 && st.current is None {
            let all0 = all_episodes(st0);
            assert(all0 == all_episodes(st).push(st0.current.unwrap()));
            assert forall|i: int| 0 <= i < all0.len() implies (#[trigger] all0[i]).index == i + 1
                && all0[i].pages.no_duplicates() by {
                if i < all0.len() - 1 {
                    assert(all0[i] == all_episodes(st)[i]);
                } else {
                    assert(all0[i].pages =~= Seq::<usize>::empty());
                }
            }
        }
    }
    let st1 = joined(page, before, st);
    assert(well_numbered(st1)) by {
        if before.len() > 0 {
            let all0 = all_episodes(st0);
            let all1 = all_episodes(st1);
            assert(all0[all0.len() - 1] == st0.current.unwrap());
            assert(all0[all0.len() - 1].pages.no_duplicates());
            lemma_with_page_no_duplicates(st0.current.unwrap(), page, before);
            assert forall|i: int| 0 <= i < all1.len() implies (#[trigger] all1[i]).index == i + 1
                && all1[i].pages.no_duplicates() by {
                if i < all1.len() - 1 {
                    assert(all1[i] == all0[i]);
                } else {
                    assert(all0[i] == st0.current.unwrap());
                }
            }
        }
    }
    assert(all_episodes(flush(st1)) == all_episodes(st1));
}

proof fn lemma_plain_well_numbered(page: usize, content: Seq<char>, st: Progress)
    requires
        well_numbered(st),
    ensures
        well_numbered(integrate_plain(page, content, st)),
{
    let h1 = first_h1(content);
    let is_new = match h1 {
        Some(h) => match st.current {
            Some(ep) => ep.name != h,
            None => true,
        },
        None => false,
    };
    let r = integrate_plain(page, content, st);
    let all = all_episodes(st);
    let allr = all_episodes(r);
    if is_new {
        let fresh = fresh_episode(st.counter + 1, h1.unwrap());
        assert(fresh.pages =~= Seq::<usize>::empty());
        lemma_with_page_no_duplicates(fresh, page, trim(content));
        assert(all_episodes(flush(st)) == all);
        assert(allr == all.push(with_page(fresh, page, trim(content))));
        assert forall|i: int| 0 <= i < allr.len() implies (#[trigger] allr[i]).index == i + 1
            && allr[i].pages.no_duplicates() by {
            if i < allr.len() - 1 {
                assert(allr[i] == all[i]);
            }
        }
    } else if st.current is Some {
        let ep = st.current.unwrap();
        assert(all[all.len() - 1] == ep);
        assert(all[all.len() - 1].pages.no_duplicates());
        lemma_with_page_no_duplicates(ep, page, trim(content));
        assert forall|i: int| 0 <= i < allr.len() implies (#[trigger] allr[i]).index == i + 1
            && allr[i].pages.no_duplicates() by {
            if i < allr.len() - 1 {
                assert(allr[i] == all[i]);
            } else {
                assert(all[i] == ep);
            }
        }
    }
}

/// Law: integrating a page keeps the episodes numbered 1, 2, ... in the order
/// in which they started, so their files (`episode_001.typ`, ...) are distinct
/// and listed in reading order, and no episode lists a page twice.
pub proof fn lemma_integrate_well_numbered(page: usize, content: Seq<char>, st: Progress)
    requires
        well_numbered(st),
    ensures
        well_numbered(integrate(page, content, st)),
    decreases content.len(),
{
    if let Some(e) = find(content, END_MARKER@) {
        lemma_marker_split(content, e);
        lemma_close_well_numbered(page, before_marker(content, e), st);
        let after = after_marker(content, e);
        if after.len() > 0 {
            lemma_integrate_well_numbered(page, after, close_at_marker(page, before_marker(content, e), st));
        }
    } else {
        lemma_plain_well_numbered(page, content, st);
    }
}

/// The current episode, if any, carries the counter's value as its index.
pub open spec fn current_is_last(st: Progress) -> bool {
    st.current matches Some(e) ==> e.index == st.counter
}

/// The episodes of `r` beyond those completed in `old`.
pub open spec fn new_episodes(old: Progress, r: Progress) -> Seq<EpisodeView> {
    all_episodes(r).skip(old.completed.len() as int)
}

/// From `old` to `r` the counter did not go down, the completed episodes of
/// `old` stayed, and the episodes beyond them have strictly increasing indices,
/// each the index of the episode current in `old` or a new number up to the
/// counter of `r`, which the current episode of `r` carries.
pub open spec fn numbered_after(old: Progress, r: Progress) -> bool {
    let t = new_episodes(old, r);
    &&& current_is_last(r)
    &&& r.counter >= old.counter
    &&& old.completed.is_prefix_of(r.completed)
    &&& forall|i: int, j: int| 0 <= i < j < t.len() ==> (#[trigger] t[i]).index < (#[trigger] t[j]).index
    &&& forall|i: int|
        0 <= i < t.len() ==> (old.current matches Some(c) && (#[trigger] t[i]).index == c.index) || (
        old.counter < t[i].index <= r.counter)
}

proof fn lemma_close_numbered_after(page: usize, before: Seq<char>, st: Progress)
    requires
        current_is_last(st),
    ensures
        numbered_after(st, close_at_marker(page, before, st)),
{
    let r = close_at_marker(page, before, st);
    let st1 = joined(page, before, st);
    let t = new_episodes(st, r);
    if st1.current is Some {
        assert(r.completed == st.completed.push(st1.current.unwrap()));
        assert(t =~= seq![st1.current.unwrap()]);
    } else {
        assert(t =~= Seq::<EpisodeView>::empty());
    }
}

proof fn lemma_plain_numbered_after(page: usize, content: Seq<char>, st: Progress)
    requires
        current_is_last(st),
    ensures
        numbered_after(st, integrate_plain(page, content, st)),
{
    let r = integrate_plain(page, content, st);
    let t = new_episodes(st, r);
    assert(st.completed.is_prefix_of(r.completed));
    let h1 = first_h1(content);
    let is_new = match h1 {
        Some(h) => match st.current {
            Some(ep) => ep.name != h,
            None => true,
        },
        None => false,
    };
    if is_new {
        match st.current {
            Some(c) => {
                assert(t =~= seq![c, r.current.unwrap()]);
            },
            None => {
                assert(t =~= seq![r.current.unwrap()]);
            },
        }
    } else {
        match st.current {
            Some(c) => {
                assert(t =~= seq![r.current.unwrap()]);
            },
            None => {
                assert(t =~= Seq::<EpisodeView>::empty());
            },
        }
    }
}

proof fn lemma_numbered_after_trans(a: Progress, b: Progress, c: Progress)
    requires
        current_is_last(a),
        numbered_after(a, b),
        b.current is None,
        numbered_after(b, c),
    ensures
        numbered_after(a, c),
{
    let tab = new_episodes(a, b);
    let tbc = new_episodes(b, c);
    let tac = new_episodes(a, c);
    assert(all_episodes(b) == b.completed);
    assert(b.completed.is_prefix_of(all_episodes(c)));
    assert(tac =~= tab + tbc);
    assert forall|i: int| 0 <= i < tab.len() implies (#[trigger] tab[i]).index <= b.counter by {}
    assert forall|i: int, j: int| 0 <= i < j < tac.len() implies (#[trigger] tac[i]).index < (
    #[trigger] tac[j]).index by {
        if j < tab.len() {
            assert(tac[i] == tab[i] && tac[j] == tab[j]);
        } else if i < tab.len() {
            assert(tac[i] == tab[i] && tac[j] == tbc[j - tab.len()]);
        } else {
            assert(tac[i] == tbc[i - tab.len()] && tac[j] == tbc[j - tab.len()]);
        }
    }
    assert forall|i: int| 0 <= i < tac.len() implies (a.current matches Some(x) && (
    #[trigger] tac[i]).index == x.index) || (a.counter < tac[i].index <= c.counter) by {
        if i < tab.len() {
            assert(tac[i] == tab[i]);
        } else {
            assert(tac[i] == tbc[i - tab.len()]);
        }
    }
}

/// Law: a page without an end marker whose first heading, on whichever line it
/// stands, names another episode than the current one completes the current
/// episode (if any) and starts a new one under that name, numbered one above
/// the counter, which holds the page's text.
pub proof fn lemma_heading_starts_episode(
    page: usize,
    pre: Seq<char>,
    name: Seq<char>,
    tail: Seq<char>,
    st: Progress,
)
    requires
        pre.len() == 0 || pre.last() == '\n',
        !pre.contains('='),
        !name.contains('\n'),
        tail.len() == 0 || tail[0] == '\n',
        find(pre + "= "@ + name + tail, END_MARKER@) is None,
        st.current matches Some(ep) ==> ep.name != trim(name),
    ensures
        integrate(page, pre + "= "@ + name + tail, st).counter == st.counter + 1,
        integrate(page, pre + "= "@ + name + tail, st).completed == all_episodes(st),
        integrate(page, pre + "= "@ + name + tail, st).current == Some(
            with_page(fresh_episode(st.counter + 1, trim(name)), page, pre + "= "@ + name + tail),
        ),
{
    let content = pre + "= "@ + name + tail;
    lemma_first_h1_on_any_line(pre, name, tail);
    lemma_with_page_trimmed(fresh_episode(st.counter + 1, trim(name)), page, content);
}

/// Law: when the current episode carries the counter's value, integrating a
/// page keeps it so, never lowers the counter or changes a completed episode,
/// and numbers the episodes beyond those completed before in strictly
/// increasing order: each is the episode that was current or a new one
/// numbered above the old counter and up to the new one. Their files are
/// therefore distinct (`lemma_file_names_distinct`).
pub proof fn lemma_integrate_numbered_after(page: usize, content: Seq<char>, st: Progress)
    requires
        current_is_last(st),
    ensures
        numbered_after(st, integrate(page, content, st)),
    decreases content.len(),
{
    if let Some(e) = find(content, END_MARKER@) {
        lemma_marker_split(content, e);
        let st2 = close_at_marker(page, before_marker(content, e), st);
        lemma_close_numbered_after(page, before_marker(content, e), st);
        let after = after_marker(content, e);
        if after.len() > 0 {
            lemma_integrate_numbered_after(page, after, st2);
            lemma_numbered_after_trans(st, st2, integrate(page, after, st2));
        }
    } else {
        lemma_plain_numbered_after(page, content, st);
    }
}

fn fallback_name_exec(page: usize) -> (r: String)
    ensures
        r@ == fallback_name(page),
{
    let mut r = String::from_str(FALLBACK_NAME_PREFIX);
    push_chars(&mut r, &decimal_exec(page));
    r
}

/// Whether the current episode is named otherwise than `h`.
fn named_otherwise(current: &Option<Episode>, h: &Vec<char>) -> (r: bool)
    ensures
        r == match current {
            Some(ep) => ep.name@ != h@,
            None => true,
        },
{
    match current {
        Some(ep) => !chars_eq(&chars_of(ep.name.as_str()), h),
        None => true,
    }
}

proof fn lemma_views_push(s: Seq<Episode>, e: Episode)
    ensures
        episode_views(s.push(e)) == episode_views(s).push(e@),
{
    assert(episode_views(s.push(e)) =~= episode_views(s).push(e@));
}

fn integrate_chars(
    page: usize,
    content: &Vec<char>,
    counter: &mut usize,
    current: &mut Option<Episode>,
    completed: &mut Vec<Episode>,
)
    requires
        integrate(page, content@, progress(*old(counter), *old(current), old(completed)@)).counter
            <= usize::MAX,
    ensures
        progress(*final(counter), *final(current), final(completed)@) == integrate(
            page,
            content@,
            progress(*old(counter), *old(current), old(completed)@),
        ),
    decreases content.len(),
{
    let ghost st = progress(*counter, *current, completed@);
    let marker = chars_of(END_MARKER);
    match find_in(content, &marker) {
        Some(e) => {
            proof {
                lemma_find_from(content@, END_MARKER@, 0);
            }
            let before = trimmed(&subvec(content, 0, e));
            assert(content@.subrange(0, e as int) =~= content@.take(e as int));
            let rest = subvec(content, e, content.len());
            assert(rest@ =~= content@.skip(e as int));
            let mut nl: Vec<char> = Vec::new();
            nl.push('\n');
            assert(nl@ =~= seq!['\n']);
            proof {
                lemma_find_from(rest@, seq!['\n'], 0);
            }
            let line_end = match find_in(&rest, &nl) {
                Some(n) => e + n + 1,
                None => content.len(),
            };
            assert(line_end == marker_line_end(content@, e as int));
            proof {
                lemma_marker_split(content@, e as int);
            }
            let after = trimmed(&subvec(content, line_end, content.len()));
            assert(content@.subrange(line_end as int, content.len() as int) =~= content@.skip(
                line_end as int,
            ));
            proof {
                lemma_trim_props(content@.skip(line_end as int));
            }
            let ghost st0 = opened(page, before@, st);
            let ghost st1 = joined(page, before@, st);
            let ghost st2 = flush(st1);
            proof {
                if after@.len() > 0 {
                    lemma_integrate_monotone(page, after@, st2);
                }
            }
            if before.len() > 0 {
                if current.is_none() {
                    let name = match first_h1_chars(&before) {
                        Some(n) => string_of(&n),
                        None => fallback_name_exec(page),
                    };
                    *counter += 1;
                    *current = Some(Episode::new(*counter, name));
                }
                assert(progress(*counter, *current, completed@) == st0);
                if let Some(mut ep) = current.take() {
                    ep.append_chars(page, &before);
                    *current = Some(ep);
                }
                assert(progress(*counter, *current, completed@) == st1);
            }
            assert(progress(*counter, *current, completed@) == st1);
            if let Some(ep) = current.take() {
                proof {
                    lemma_views_push(completed@, ep);
                }
                completed.push(ep);
            }
            assert(progress(*counter, *current, completed@) == st2);
            if after.len() > 0 {
                integrate_chars(page, &after, counter, current, completed);
            }
        },
        None => {
            let h1 = first_h1_chars(content);
            let is_new = match &h1 {
                Some(h) => named_otherwise(current, h),
                None => false,
            };
            let body = trimmed(content);
            if is_new {
                if let Some(ep) = current.take() {
                    proof {
                        lemma_views_push(completed@, ep);
                    }
                    completed.push(ep);
                }
                *counter += 1;
                let name = match h1 {
                    Some(h) => string_of(&h),
                    None => String::new(),
                };
                let mut ep = Episode::new(*counter, name);
                ep.append_chars(page, &body);
                *current = Some(ep);
            } else if let Some(mut ep) = current.take() {
                ep.append_chars(page, &body);
                *current = Some(ep);
            }
        },
    }
}

/// Integrates the formatted text of `page` into the running state.
///
/// Episodes that the text completes are appended to `completed`, in order; the
/// caller writes each one to its file.
pub fn integrate_page(
    page: usize,
    content: &str,
    counter: &mut usize,
    current: &mut Option<Episode>,
    completed: &mut Vec<Episode>,
)
    requires
        integrate(page, content@, progress(*old(counter), *old(current), old(completed)@)).counter
            <= usize::MAX,
    ensures
        progress(*final(counter), *final(current), final(completed)@) == integrate(
            page,
            content@,
            progress(*old(counter), *old(current), old(completed)@),
        ),
        current_is_last(progress(*old(counter), *old(current), old(completed)@)) ==> numbered_after(
            progress(*old(counter), *old(current), old(completed)@),
            progress(*final(counter), *final(current), final(completed)@),
        ),
{
    let v = chars_of(content);
    proof {
        if current_is_last(progress(*counter, *current, completed@)) {
            lemma_integrate_numbered_after(page, content@, progress(*counter, *current, completed@));
        }
    }
    integrate_chars(page, &v, counter, current, completed);
}


/// Law: distinct episode indices give distinct file names, so no episode file
/// overwrites another.
pub proof fn lemma_file_names_distinct(a: int, b: int)
    requires
        0 <= a,
        0 <= b,
        a != b,
    ensures
        episode_file_name(a) != episode_file_name(b),
{
    let pa = zero_pad(decimal(a as nat), 3);
    let pb = zero_pad(decimal(b as nat), 3);
    crate::text::lemma_zero_pad_value(a as nat, 3);
    crate::text::lemma_zero_pad_value(b as nat, 3);
    let p = EPISODE_FILE_PREFIX@;
    let x = EPISODE_FILE_SUFFIX@;
    if episode_file_name(a) == episode_file_name(b) {
        let na = episode_file_name(a);
        let nb = episode_file_name(b);
        assert(na.len() == p.len() + pa.len() + x.len());
        assert(nb.len() == p.len() + pb.len() + x.len());
        assert(pa.len() == pb.len());
        assert(na.subrange(p.len() as int, (p.len() + pa.len()) as int) =~= pa);
        assert(nb.subrange(p.len() as int, (p.len() + pb.len()) as int) =~= pb);
        assert(pa == pb);
    }
}

/// Law: each episode that integrating a page starts consumes at least one
/// character of the page, so the counter grows by at most the page's length.
pub proof fn lemma_integrate_counter_bound(page: usize, content: Seq<char>, st: Progress)
    ensures
        integrate(page, content, st).counter <= st.counter + content.len(),
    decreases content.len(),
{
    if let Some(e) = find(content, END_MARKER@) {
        lemma_marker_split(content, e);
        let before = before_marker(content, e);
        let st2 = close_at_marker(page, before, st);
        assert(st2.counter <= st.counter + if before.len() > 0 { 1int } else { 0int });
        let after = after_marker(content, e);
        if after.len() > 0 {
            lemma_integrate_counter_bound(page, after, st2);
        }
    } else {
        if content.len() == 0 {
            reveal_strlit("= ");
            assert(find_from(content, seq!['\n'], 0) is None);
            assert(!starts_with(content.subrange(0, 0), H1_PREFIX@));
            assert(first_prefixed_line(content, H1_PREFIX@) is None);
        }
    }
}

/// Completes the episode being assembled, at the end of the book.
pub fn finish_integration(current: &mut Option<Episode>, completed: &mut Vec<Episode>)
    ensures
        opt_view(*final(current)) == flush(progress(0, *old(current), old(completed)@)).current,
        episode_views(final(completed)@) == flush(progress(0, *old(current), old(completed)@)).completed,
{
    if let Some(ep) = current.take() {
        proof {
            lemma_views_push(completed@, ep);
        }
        completed.push(ep);
    }
}

/// Law: completing the last episode keeps the numbering.
pub proof fn lemma_flush_well_numbered(st: Progress)
    requires
        well_numbered(st),
    ensures
        well_numbered(flush(st)),
        flush(st).current is None,
        all_episodes(flush(st)) == all_episodes(st),
{
}

} // verus!
