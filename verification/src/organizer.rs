//! Grouping the raw text of a book's pages into episodes.
//!
//! A language model reads each page together with the episode being assembled
//! and answers with actions (append to the last episode, or start a new one);
//! this module holds the types of that exchange, the cleaning of the model's
//! reply, the cache of episodes already organized, and the state machine that
//! applies the actions.
use vstd::prelude::*;
use crate::text::{chars_of, push_char, string_of, string_views};

verus! {

broadcast use vstd::string::group_string_axioms;

// ---------------------------------------------------------------------------
// Types of the exchange
// ---------------------------------------------------------------------------

#[derive(Debug, Clone, Copy, PartialEq, Eq, Structural)]
pub enum EpisodeStatusKind {
    Completed,
    InProgress,
}

#[derive(Debug, Clone)]
pub struct EpisodeStatusEntry {
    pub episode_name: String,
    pub status: EpisodeStatusKind,
    pub index: usize,
    pub pages: Vec<String>,
}

#[derive(Debug, Clone)]
pub struct Episode {
    pub name: String,
    pub content: String,
    pub sub_headers: Vec<String>,
}

#[derive(Debug)]
pub struct JsonOrganizerInput {
    pub current_episode: Option<Episode>,
    pub new_raw_text: String,
}

#[derive(Debug)]
pub enum EpisodeAction {
    AppendLastEpisode { name: String, data: String, new_topics: Vec<String> },
    NewEpisode { name: String, data: String, new_topics: Vec<String> },
}

/// The views of a sequence of strings.
pub open spec fn texts(s: Seq<String>) -> Seq<Seq<char>> {
    string_views(s)
}

/// The model of an [`EpisodeStatusEntry`].
pub struct EntryView {
    pub episode_name: Seq<char>,
    pub status: EpisodeStatusKind,
    pub index: usize,
    pub pages: Seq<Seq<char>>,
}

impl View for EpisodeStatusEntry {
    type V = EntryView;

    open spec fn view(&self) -> EntryView {
        EntryView {
            episode_name: self.episode_name@,
            status: self.status,
            index: self.index,
            pages: texts(self.pages@),
        }
    }
}

/// The model of an organizer [`Episode`].
pub struct EpisodeModel {
    pub name: Seq<char>,
    pub content: Seq<char>,
    pub sub_headers: Seq<Seq<char>>,
}

impl View for Episode {
    type V = EpisodeModel;

    open spec fn view(&self) -> EpisodeModel {
        EpisodeModel {
            name: self.name@,
            content: self.content@,
            sub_headers: texts(self.sub_headers@),
        }
    }
}

/// A copy of a list of strings.
pub fn copy_strings(v: &Vec<String>) -> (r: Vec<String>)
    ensures
        texts(r@) == texts(v@),
{
    let mut r: Vec<String> = Vec::new();
    for i in 0..v.len()
        invariant
            r@.len() == i,
            texts(r@) == texts(v@).take(i as int),
    {
        let s = v[i].clone();
        assert(s == v@[i as int]);
        let ghost before = r@;
        r.push(s);
        assert(r@ == before.push(s));
        assert(texts(r@).len() == i + 1);
        assert forall|j: int| 0 <= j < i + 1 implies #[trigger] texts(r@)[j] == texts(v@).take(i + 1)[j] by {
            if j < i {
                assert(texts(r@)[j] == texts(before)[j]);
            }
        }
        assert(texts(r@) =~= texts(v@).take(i + 1));
    }
    assert(texts(v@).take(v.len() as int) =~= texts(v@));
    r
}

impl Episode {
    /// A copy of this episode.
    pub fn duplicate(&self) -> (r: Episode)
        ensures
            r@ == self@,
    {
        Episode {
            name: self.name.clone(),
            content: self.content.clone(),
            sub_headers: copy_strings(&self.sub_headers),
        }
    }
}

// ---------------------------------------------------------------------------
// The cache of episode statuses
// ---------------------------------------------------------------------------

/// The entry stored under `key`: the first pair whose key is `key`.
pub open spec fn lookup(s: Seq<(String, EpisodeStatusEntry)>, key: Seq<char>) -> Option<EntryView>
    decreases s.len(),
{
    if s.len() == 0 {
        None
    } else if s[0].0@ == key {
        Some(s[0].1@)
    } else {
        lookup(s.drop_first(), key)
    }
}

pub open spec fn distinct_keys(s: Seq<(String, EpisodeStatusEntry)>) -> bool {
    forall|i: int, j: int| 0 <= i < j < s.len() ==> s[i].0@ != s[j].0@
}

/// Episode statuses by episode name.
pub struct StatusCache {
    entries: Vec<(String, EpisodeStatusEntry)>,
}

proof fn lemma_lookup_index(s: Seq<(String, EpisodeStatusEntry)>, i: int)
    requires
        distinct_keys(s),
        0 <= i < s.len(),
    ensures
        lookup(s, s[i].0@) == Some(s[i].1@),
    decreases i,
{
    if i > 0 {
        let t = s.drop_first();
        assert(s[0].0@ != s[i].0@);
        assert(t[i - 1] == s[i]);
        lemma_lookup_index(t, i - 1);
    }
}

proof fn lemma_lookup_some(s: Seq<(String, EpisodeStatusEntry)>, key: Seq<char>)
    ensures
        lookup(s, key) matches Some(v) ==> exists|i: int|
            0 <= i < s.len() && #[trigger] s[i].0@ == key && s[i].1@ == v,
        lookup(s, key) is None ==> forall|i: int| 0 <= i < s.len() ==> #[trigger] s[i].0@ != key,
    decreases s.len(),
{
    if s.len() > 0 {
        let t = s.drop_first();
        lemma_lookup_some(t, key);
        if s[0].0@ != key {
            if let Some(v) = lookup(t, key) {
                let i = choose|i: int| 0 <= i < t.len() && #[trigger] t[i].0@ == key && t[i].1@ == v;
                assert(s[i + 1] == t[i]);
            } else {
                assert forall|i: int| 0 <= i < s.len() implies #[trigger] s[i].0@ != key by {
                    if i > 0 {
                        assert(s[i] == t[i - 1]);
                    }
                }
            }
        }
    }
}

proof fn lemma_lookup_update(
    s: Seq<(String, EpisodeStatusEntry)>,
    i: int,
    p: (String, EpisodeStatusEntry),
    key: Seq<char>,
)
    requires
        distinct_keys(s),
        0 <= i < s.len(),
        p.0@ == s[i].0@,
    ensures
        lookup(s.update(i, p), key) == if key == p.0@ {
            Some(p.1@)
        } else {
            lookup(s, key)
        },
    decreases i,
{
    let u = s.update(i, p);
    if i == 0 {
        assert(u.drop_first() =~= s.drop_first());
    } else {
        assert(s[0].0@ != s[i].0@);
        assert(u[0] == s[0]);
        assert(u.drop_first() =~= s.drop_first().update(i - 1, p));
        assert(distinct_keys(s.drop_first())) by {
            assert forall|a: int, b: int| 0 <= a < b < s.drop_first().len() implies s.drop_first()[a].0@
                != s.drop_first()[b].0@ by {
                assert(s.drop_first()[a] == s[a + 1]);
                assert(s.drop_first()[b] == s[b + 1]);
            }
        }
        lemma_lookup_update(s.drop_first(), i - 1, p, key);
    }
}

proof fn lemma_lookup_push(s: Seq<(String, EpisodeStatusEntry)>, p: (String, EpisodeStatusEntry), key: Seq<char>)
    requires
        lookup(s, p.0@) is None,
    ensures
        lookup(s.push(p), key) == if key == p.0@ {
            Some(p.1@)
        } else {
            lookup(s, key)
        },
    decreases s.len(),
{
    if s.len() == 0 {
        assert(s.push(p)[0] == p);
        assert(s.push(p).drop_first() =~= Seq::<(String, EpisodeStatusEntry)>::empty());
        assert(lookup(s.push(p).drop_first(), key) is None);
    } else {
        assert(s.push(p).drop_first() =~= s.drop_first().push(p));
        assert(s.push(p)[0] == s[0]);
        assert(s[0].0@ != p.0@);
        lemma_lookup_push(s.drop_first(), p, key);
    }
}

impl StatusCache {
    #[verifier::type_invariant]
    spec fn keys_distinct(&self) -> bool {
        distinct_keys(self.entries@)
    }

    /// The statuses, by episode name.
    pub closed spec fn view(&self) -> Map<Seq<char>, EntryView> {
        Map::new(|k: Seq<char>| lookup(self.entries@, k) is Some, |k: Seq<char>| lookup(self.entries@, k).unwrap())
    }

    /// An empty cache.
    pub fn new() -> (r: StatusCache)
        ensures
            r.view() == Map::<Seq<char>, EntryView>::empty(),
    {
        let r = StatusCache { entries: Vec::new() };
        assert(r.view() =~= Map::<Seq<char>, EntryView>::empty());
        r
    }

    /// The number of episodes with a status.
    pub fn len(&self) -> (r: usize)
        ensures
            r == self.view().dom().len(),
    {
        proof {
            use_type_invariant(self);
            self.lemma_dom_len();
        }
        self.entries.len()
    }

    proof fn lemma_dom_len(&self)
        requires
            distinct_keys(self.entries@),
        ensures
            self.view().dom().len() == self.entries@.len(),
            self.view().dom().finite(),
    {
        let s = self.entries@;
        let keys = s.map_values(|p: (String, EpisodeStatusEntry)| p.0@);
        assert forall|k: Seq<char>| #[trigger] self.view().dom().contains(k) <==> keys.to_set().contains(k) by {
            lemma_lookup_some(s, k);
            if keys.to_set().contains(k) {
                let i = choose|i: int| 0 <= i < keys.len() && keys[i] == k;
                lemma_lookup_index(s, i);
            } else {
                if lookup(s, k) is Some {
                    let i = choose|i: int| 0 <= i < s.len() && #[trigger] s[i].0@ == k;
                    assert(keys[i] == k);
                }
            }
        }
        assert(self.view().dom() =~= keys.to_set());
        assert(keys.no_duplicates()) by {
            assert forall|a: int, b: int| 0 <= a < keys.len() && 0 <= b < keys.len() && a != b implies keys[a] != keys[b] by {
                if a < b {
                    assert(s[a].0@ != s[b].0@);
                } else {
                    assert(s[b].0@ != s[a].0@);
                }
            }
        }
        keys.unique_seq_to_set();
    }

    fn position(&self, key: &String) -> (r: Option<usize>)
        ensures
            r matches Some(i) ==> i < self.entries@.len() && self.entries@[i as int].0@ == key@,
            r is None ==> lookup(self.entries@, key@) is None,
    {
        for i in 0..self.entries.len()
            invariant
                forall|j: int| 0 <= j < i ==> #[trigger] self.entries@[j].0@ != key@,
        {
            if self.entries[i].0 == *key {
                return Some(i);
            }
        }
        proof {
            lemma_lookup_some(self.entries@, key@);
        }
        None
    }

    /// Sets the status of the episode named `key`, replacing any earlier one.
    pub fn insert(&mut self, key: String, entry: EpisodeStatusEntry)
        ensures
            final(self).view() == old(self).view().insert(key@, entry@),
    {
        proof {
            use_type_invariant(&*self);
        }
        let ghost k = key@;
        let ghost e = entry@;
        match self.position(&key) {
            Some(i) => {
                proof {
                    assert forall|key2: Seq<char>| true implies lookup(self.entries@.update(i as int, (key, entry)), key2)
                        == if key2 == k { Some(e) } else { lookup(self.entries@, key2) } by {
                        lemma_lookup_update(self.entries@, i as int, (key, entry), key2);
                    }
                }
                let mut entries: Vec<(String, EpisodeStatusEntry)> = Vec::new();
                std::mem::swap(&mut entries, &mut self.entries);
                let ghost old_entries = entries@;
                entries.set(i, (key, entry));
                assert(entries@ == old_entries.update(i as int, entries@[i as int]));
                assert(distinct_keys(entries@));
                self.entries = entries;
                assert(self.view() =~= old(self).view().insert(k, e));
            },
            None => {
                proof {
                    assert forall|key2: Seq<char>| true implies lookup(self.entries@.push((key, entry)), key2)
                        == if key2 == k { Some(e) } else { lookup(self.entries@, key2) } by {
                        lemma_lookup_push(self.entries@, (key, entry), key2);
                    }
                    lemma_lookup_some(self.entries@, k);
                }
                let mut entries: Vec<(String, EpisodeStatusEntry)> = Vec::new();
                std::mem::swap(&mut entries, &mut self.entries);
                entries.push((key, entry));
                assert(distinct_keys(entries@));
                self.entries = entries;
                assert(self.view() =~= old(self).view().insert(k, e));
            },
        }
    }

    /// The status of the episode named `key`.
    pub fn get(&self, key: &str) -> (r: Option<&EpisodeStatusEntry>)
        ensures
            r matches Some(e) ==> self.view().contains_key(key@) && self.view()[key@] == e@,
            r is None ==> !self.view().contains_key(key@),
    {
        proof {
            use_type_invariant(self);
        }
        let k = String::from_str(key);
        match self.position(&k) {
            Some(i) => {
                proof {
                    lemma_lookup_index(self.entries@, i as int);
                }
                Some(&self.entries[i].1)
            },
            None => None,
        }
    }

    /// The name and status of every episode in the cache.
    pub fn entries(&self) -> (r: &Vec<(String, EpisodeStatusEntry)>)
        ensures
            forall|i: int| 0 <= i < r@.len() ==> self.view().contains_key(#[trigger] r@[i].0@)
                && self.view()[r@[i].0@] == r@[i].1@,
            forall|k: Seq<char>| #[trigger] self.view().contains_key(k) ==> exists|i: int|
                0 <= i < r@.len() && r@[i].0@ == k,
            r@.len() == self.view().dom().len(),
    {
        proof {
            use_type_invariant(self);
            self.lemma_dom_len();
            assert forall|i: int| 0 <= i < self.entries@.len() implies self.view().contains_key(
                #[trigger] self.entries@[i].0@,
            ) && self.view()[self.entries@[i].0@] == self.entries@[i].1@ by {
                lemma_lookup_index(self.entries@, i);
            }
            assert forall|k: Seq<char>| #[trigger] self.view().contains_key(k) implies exists|i: int|
                0 <= i < self.entries@.len() && self.entries@[i].0@ == k by {
                lemma_lookup_some(self.entries@, k);
            }
        }
        &self.entries
    }
}


/// The episode named `name` is marked completed.
pub open spec fn completed_in(m: Map<Seq<char>, EntryView>, name: Seq<char>) -> bool {
    m.contains_key(name) && m[name].status == EpisodeStatusKind::Completed
}

/// The cache after the episode named `name` is marked completed with `index`
/// and `pages`; an existing entry keeps its `episode_name`.
pub open spec fn marked(m: Map<Seq<char>, EntryView>, name: Seq<char>, index: usize, pages: Seq<Seq<char>>) -> Map<
    Seq<char>,
    EntryView,
> {
    m.insert(
        name,
        EntryView {
            episode_name: if m.contains_key(name) {
                m[name].episode_name
            } else {
                name
            },
            status: EpisodeStatusKind::Completed,
            index,
            pages,
        },
    )
}

/// Whether the episode named `name` is already completed.
pub fn is_completed(cache: &StatusCache, name: &str) -> (r: bool)
    ensures
        r == completed_in(cache.view(), name@),
{
    match cache.get(name) {
        Some(e) => e.status == EpisodeStatusKind::Completed,
        None => false,
    }
}

/// Marks the episode named `name` completed, with its index and pages.
pub fn mark_completed(cache: &mut StatusCache, name: &str, index: usize, pages: Vec<String>)
    ensures
        final(cache).view() == marked(old(cache).view(), name@, index, texts(pages@)),
{
    let episode_name = match cache.get(name) {
        Some(e) => e.episode_name.clone(),
        None => String::from_str(name),
    };
    let entry = EpisodeStatusEntry {
        episode_name,
        status: EpisodeStatusKind::Completed,
        index,
        pages,
    };
    cache.insert(String::from_str(name), entry);
}

/// Law: after an episode is marked completed it reads back as completed, with
/// the index and pages given; every other episode's status is unchanged.
pub proof fn lemma_mark_completed_reads_back(
    m: Map<Seq<char>, EntryView>,
    name: Seq<char>,
    index: usize,
    pages: Seq<Seq<char>>,
    other: Seq<char>,
)
    ensures
        completed_in(marked(m, name, index, pages), name),
        marked(m, name, index, pages)[name].index == index,
        marked(m, name, index, pages)[name].pages == pages,
        other != name ==> (marked(m, name, index, pages).contains_key(other) == m.contains_key(other)
            && (m.contains_key(other) ==> marked(m, name, index, pages)[other] == m[other])),
        completed_in(m, other) ==> completed_in(marked(m, name, index, pages), other),
{
}

/// `r` is the highest index among completed episodes, or 0 when there is none.
pub open spec fn is_resume_index(m: Map<Seq<char>, EntryView>, r: usize) -> bool {
    &&& forall|k: Seq<char>| #[trigger] completed_in(m, k) ==> m[k].index <= r
    &&& (r == 0 || exists|k: Seq<char>| #[trigger] completed_in(m, k) && m[k].index == r)
}

/// The index to resume numbering from: the highest index of a completed episode, or 0.
pub fn resume_index(cache: &StatusCache) -> (r: usize)
    ensures
        is_resume_index(cache.view(), r),
{
    let entries = cache.entries();
    let mut best: usize = 0;
    for i in 0..entries.len()
        invariant
            forall|j: int| 0 <= j < entries@.len() ==> cache.view().contains_key(#[trigger] entries@[j].0@)
                && cache.view()[entries@[j].0@] == entries@[j].1@,
            forall|j: int| 0 <= j < i && (#[trigger] entries@[j]).1.status == EpisodeStatusKind::Completed
                ==> entries@[j].1.index <= best,
            best == 0 || exists|k: Seq<char>| #[trigger] completed_in(cache.view(), k) && cache.view()[k].index == best,
    {
        let e = &entries[i].1;
        if e.status == EpisodeStatusKind::Completed && e.index > best {
            best = e.index;
            assert(completed_in(cache.view(), entries@[i as int].0@));
        }
    }
    assert forall|k: Seq<char>| #[trigger] completed_in(cache.view(), k) implies cache.view()[k].index <= best by {
        let j = choose|j: int| 0 <= j < entries@.len() && entries@[j].0@ == k;
        assert(entries@[j].1.status == EpisodeStatusKind::Completed);
    }
    best
}

// ---------------------------------------------------------------------------
// Cleaning the model's reply
// ---------------------------------------------------------------------------

/// Why organizing failed.
pub enum OrganizerError {
    /// The reply holds no "```json" code fence; it carries the trimmed reply.
    MissingJsonFence { response: String },
    /// An append action came while no episode was being assembled.
    NoCurrentEpisode,
}

pub const MISSING_FENCE_MESSAGE: &'static str = "Response does not contain ```json code fences: ";

pub const NO_CURRENT_EPISODE_MESSAGE: &'static str =
    "AppendLastEpisode called but no current episode exists";

impl OrganizerError {
    /// The message that describes the error.
    pub fn message(&self) -> (r: String)
        ensures
            r@ == match self {
                OrganizerError::MissingJsonFence { response } => MISSING_FENCE_MESSAGE@ + response@,
                OrganizerError::NoCurrentEpisode => NO_CURRENT_EPISODE_MESSAGE@,
            },
    {
        match self {
            OrganizerError::MissingJsonFence { response } => {
                let mut r = String::from_str(MISSING_FENCE_MESSAGE);
                r.append(response.as_str());
                r
            },
            OrganizerError::NoCurrentEpisode => String::from_str(NO_CURRENT_EPISODE_MESSAGE),
        }
    }
}

/// The body of the reply's "```json" code fence; an error, carrying the trimmed
/// reply, when it has none.
pub fn strip_fences(response: &str) -> (r: Result<String, OrganizerError>)
    ensures
        match crate::fence::fenced_body(response@, "```json"@) {
            Some(b) => r matches Ok(s) && s@ == b,
            None => r matches Err(OrganizerError::MissingJsonFence { response: t }) && t@
                == crate::text::trim(response@),
        },
{
    let v = chars_of(response);
    match crate::fence::fenced_body_exec(&v, &chars_of("```json")) {
        Some(b) => Ok(string_of(&b)),
        None => Err(OrganizerError::MissingJsonFence { response: string_of(&crate::text::trimmed(&v)) }),
    }
}

/// The state of the scan over JSON text: inside a string, and after a backslash.
pub struct ScanState {
    pub in_string: bool,
    pub escape_next: bool,
}

/// One character of the scan: what it outputs and the state after it.
/// Inside a string, a raw newline, carriage return or tab becomes its escape sequence.
pub open spec fn escape_step(st: ScanState, c: char) -> (ScanState, Seq<char>) {
    if st.escape_next {
        (ScanState { in_string: st.in_string, escape_next: false }, seq![c])
    } else if c == '\\' && st.in_string {
        (ScanState { in_string: true, escape_next: true }, seq![c])
    } else if c == '"' {
        (ScanState { in_string: !st.in_string, escape_next: false }, seq![c])
    } else if st.in_string && c == '\n' {
        (st, seq!['\\', 'n'])
    } else if st.in_string && c == '\r' {
        (st, seq!['\\', 'r'])
    } else if st.in_string && c == '\t' {
        (st, seq!['\\', 't'])
    } else {
        (st, seq![c])
    }
}

/// The scan of `s` from state `st`: the state at the end and the output.
pub open spec fn escape_run(st: ScanState, s: Seq<char>) -> (ScanState, Seq<char>)
    decreases s.len(),
{
    if s.len() == 0 {
        (st, Seq::empty())
    } else {
        let prev = escape_run(st, s.drop_last());
        let next = escape_step(prev.0, s.last());
        (next.0, prev.1 + next.1)
    }
}

pub open spec fn scan_start() -> ScanState {
    ScanState { in_string: false, escape_next: false }
}

/// `json` with the raw newlines, carriage returns and tabs inside its strings escaped.
pub open spec fn fixed_json(json: Seq<char>) -> Seq<char> {
    escape_run(scan_start(), json).1
}

/// Fix common JSON escaping issues in LLM output:
/// converts literal newlines/tabs within strings to escaped sequences.
pub fn fix_json_escaping(json: &str) -> (r: String)
    ensures
        r@ == fixed_json(json@),
{
    let v = chars_of(json);
    let mut result = String::new();
    let mut in_string = false;
    let mut escape_next = false;
    for i in 0..v.len()
        invariant
            escape_run(scan_start(), v@.take(i as int)) == (
                ScanState { in_string, escape_next },
                result@,
            ),
    {
        let ch = v[i];
        let ghost prev = ScanState { in_string, escape_next };
        let ghost before = result@;
        assert(v@.take(i + 1).drop_last() =~= v@.take(i as int));
        assert(v@.take(i + 1).last() == ch);
        if escape_next {
            push_char(&mut result, ch);
            escape_next = false;
        } else if ch == '\\' && in_string {
            escape_next = true;
            push_char(&mut result, ch);
        } else if ch == '"' {
            in_string = !in_string;
            push_char(&mut result, ch);
        } else if in_string {
            if ch == '\n' {
                result.append("\\n");
            } else if ch == '\r' {
                result.append("\\r");
            } else if ch == '\t' {
                result.append("\\t");
            } else {
                push_char(&mut result, ch);
            }
        } else {
            push_char(&mut result, ch);
        }
        proof {
            reveal_strlit("\\n");
            reveal_strlit("\\r");
            reveal_strlit("\\t");
            let step = escape_step(prev, ch);
            assert(result@ =~= before + step.1);
        }
    }
    assert(v@.take(v.len() as int) =~= v@);
    result
}


proof fn lemma_escape_run_concat(st: ScanState, a: Seq<char>, b: Seq<char>)
    ensures
        escape_run(st, a + b) == (
            escape_run(escape_run(st, a).0, b).0,
            escape_run(st, a).1 + escape_run(escape_run(st, a).0, b).1,
        ),
    decreases b.len(),
{
    if b.len() == 0 {
        assert(a + b =~= a);
        assert(escape_run(st, a).1 + Seq::<char>::empty() =~= escape_run(st, a).1);
    } else {
        lemma_escape_run_concat(st, a, b.drop_last());
        assert((a + b).drop_last() =~= a + b.drop_last());
        assert((a + b).last() == b.last());
        let mid = escape_run(st, a);
        let r1 = escape_run(mid.0, b.drop_last());
        let step = escape_step(r1.0, b.last());
        assert(mid.1 + r1.1 + step.1 =~= mid.1 + (r1.1 + step.1));
    }
}

proof fn lemma_escape_run_single(st: ScanState, c: char)
    ensures
        escape_run(st, seq![c]) == escape_step(st, c),
{
    let s = seq![c];
    assert(s.drop_last() =~= Seq::<char>::empty());
    assert(s.last() == c);
    assert(escape_run(st, s.drop_last()) == (st, Seq::<char>::empty()));
    assert(Seq::<char>::empty() + escape_step(st, c).1 =~= escape_step(st, c).1);
}

proof fn lemma_escape_step_stable(st: ScanState, c: char)
    ensures
        escape_run(st, escape_step(st, c).1) == escape_step(st, c),
{
    let out = escape_step(st, c).1;
    if out.len() == 1 {
        assert(out =~= seq![out[0]]);
        lemma_escape_run_single(st, out[0]);
        if st.escape_next {
        } else if out[0] == '\\' {
            assert(c == '\\');
        } else if out[0] == '"' {
            assert(c == '"');
        } else {
            assert(c == out[0]);
        }
    } else {
        let x = out[1];
        assert(out =~= seq!['\\', x]);
        assert(out.drop_last() =~= seq!['\\']);
        lemma_escape_run_single(st, '\\');
    }
}

proof fn lemma_escape_run_stable(st: ScanState, s: Seq<char>)
    ensures
        escape_run(st, escape_run(st, s).1) == escape_run(st, s),
    decreases s.len(),
{
    if s.len() > 0 {
        let prev = escape_run(st, s.drop_last());
        let next = escape_step(prev.0, s.last());
        lemma_escape_run_stable(st, s.drop_last());
        lemma_escape_run_concat(st, prev.1, next.1);
        lemma_escape_step_stable(prev.0, s.last());
    }
}

/// Law: escaping is idempotent; text that `fix_json_escaping` produced is left
/// unchanged by a second pass (in particular, no raw newline, carriage return
/// or tab remains inside a string).
pub proof fn lemma_fix_json_idempotent(json: Seq<char>)
    ensures
        fixed_json(fixed_json(json)) == fixed_json(json),
{
    lemma_escape_run_stable(scan_start(), json);
}


/// The JSON list of actions in a reply: the body of its "```json" fence, with
/// the escaping inside its strings fixed.
pub fn actions_json(response: &str) -> (r: Result<String, OrganizerError>)
    ensures
        match crate::fence::fenced_body(response@, "```json"@) {
            Some(b) => r matches Ok(s) && s@ == fixed_json(b),
            None => r matches Err(OrganizerError::MissingJsonFence { response: t }) && t@
                == crate::text::trim(response@),
        },
{
    match strip_fences(response) {
        Ok(stripped) => Ok(fix_json_escaping(stripped.as_str())),
        Err(e) => Err(e),
    }
}

/// How many times a failed request for actions is made again.
pub const ACTION_RETRIES: usize = 5;

/// What to do after a request for a page's actions.
pub enum ActionsAttempt {
    /// The request succeeded: use its actions.
    Done,
    /// It failed and retries remain: make it again, with the same input.
    Retry,
    /// It failed after the last retry: report its error.
    GiveUp,
}

/// The decision after a request for actions, when `retries_done` retries were
/// already made: done when it succeeded; otherwise ask again while fewer than
/// `ACTION_RETRIES` retries were made, so at most `ACTION_RETRIES + 1`
/// requests are made for a page; then give up.
pub fn next_actions_attempt(retries_done: usize, failed: bool) -> (r: ActionsAttempt)
    ensures
        !failed ==> r is Done,
        failed && retries_done < ACTION_RETRIES ==> r is Retry,
        failed && retries_done >= ACTION_RETRIES ==> r is GiveUp,
{
    if !failed {
        ActionsAttempt::Done
    } else if retries_done < ACTION_RETRIES {
        ActionsAttempt::Retry
    } else {
        ActionsAttempt::GiveUp
    }
}

// ---------------------------------------------------------------------------
// Applying the model's actions
// ---------------------------------------------------------------------------

/// The model of an [`EpisodeAction`].
pub enum ActionModel {
    Append { name: Seq<char>, data: Seq<char>, new_topics: Seq<Seq<char>> },
    New { name: Seq<char>, data: Seq<char>, new_topics: Seq<Seq<char>> },
}

impl View for EpisodeAction {
    type V = ActionModel;

    open spec fn view(&self) -> ActionModel {
        match self {
            EpisodeAction::AppendLastEpisode { name, data, new_topics } => ActionModel::Append {
                name: name@,
                data: data@,
                new_topics: texts(new_topics@),
            },
            EpisodeAction::NewEpisode { name, data, new_topics } => ActionModel::New {
                name: name@,
                data: data@,
                new_topics: texts(new_topics@),
            },
        }
    }
}

/// An episode that is complete and is to be written as `<index>.json`.
pub struct CompletedEpisode {
    pub index: usize,
    pub episode: Episode,
}

/// The model of a [`CompletedEpisode`].
pub struct Emission {
    pub index: int,
    pub episode: EpisodeModel,
}

/// What one action yields.
pub enum StepModel {
    Nothing,
    Emit(Emission),
    NoCurrent,
}

/// The state of grouping pages into episodes.
pub struct GroupingState {
    /// The episode being assembled.
    pub current_episode: Option<Episode>,
    /// The current episode was completed in an earlier run; it is not written again.
    pub current_episode_already_completed: bool,
    /// The pages that the current episode spans.
    pub current_episode_pages: Vec<String>,
    /// The index of the last episode completed.
    pub episode_counter: usize,
    pub status_cache: StatusCache,
}

/// The model of a [`GroupingState`].
pub struct GroupingView {
    pub current: Option<EpisodeModel>,
    pub already_completed: bool,
    pub pages: Seq<Seq<char>>,
    pub counter: int,
    pub cache: Map<Seq<char>, EntryView>,
}

impl View for GroupingState {
    type V = GroupingView;

    open spec fn view(&self) -> GroupingView {
        GroupingView {
            current: match self.current_episode {
                Some(e) => Some(e@),
                None => None,
            },
            already_completed: self.current_episode_already_completed,
            pages: texts(self.current_episode_pages@),
            counter: self.episode_counter as int,
            cache: self.status_cache.view(),
        }
    }
}

/// `pages` with `page` added at the end unless it is there.
pub open spec fn add_page(pages: Seq<Seq<char>>, page: Seq<char>) -> Seq<Seq<char>> {
    if pages.contains(page) {
        pages
    } else {
        pages.push(page)
    }
}

/// Whether a new episode completes and writes the current one.
pub open spec fn flushes(st: GroupingView) -> bool {
    st.current is Some && !st.already_completed
}

/// The state after an action read from `page`, and what the action yields.
///
/// An append adds its data and topics to the current episode (and the page to
/// its pages), is ignored while the current episode was completed in an earlier
/// run, and fails when there is no current episode. A new episode first
/// completes the current one unless it was completed earlier: the page joins its
/// pages, the counter advances, and the episode is marked completed under the
/// new index and written. The new episode is then started; when its name is
/// already completed it is kept empty and will not be written.
pub open spec fn apply_spec(st: GroupingView, page: Seq<char>, a: ActionModel) -> (GroupingView, StepModel) {
    match a {
        ActionModel::Append { name: _, data, new_topics } => {
            if st.already_completed {
                (st, StepModel::Nothing)
            } else {
                match st.current {
                    None => (st, StepModel::NoCurrent),
                    Some(ep) => (
                        GroupingView {
                            current: Some(
                                EpisodeModel {
                                    name: ep.name,
                                    content: ep.content + data,
                                    sub_headers: ep.sub_headers + new_topics,
                                },
                            ),
                            already_completed: st.already_completed,
                            pages: add_page(st.pages, page),
                            counter: st.counter,
                            cache: st.cache,
                        },
                        StepModel::Nothing,
                    ),
                }
            }
        },
        ActionModel::New { name, data, new_topics } => {
            let counter1 = if flushes(st) {
                st.counter + 1
            } else {
                st.counter
            };
            let cache1 = if flushes(st) {
                marked(st.cache, st.current.unwrap().name, counter1 as usize, add_page(st.pages, page))
            } else {
                st.cache
            };
            let skip = completed_in(cache1, name);
            (
                GroupingView {
                    current: Some(
                        if skip {
                            EpisodeModel { name, content: Seq::empty(), sub_headers: Seq::empty() }
                        } else {
                            EpisodeModel { name, content: data, sub_headers: new_topics }
                        },
                    ),
                    already_completed: skip,
                    pages: if skip {
                        Seq::empty()
                    } else {
                        seq![page]
                    },
                    counter: counter1,
                    cache: cache1,
                },
                if flushes(st) {
                    StepModel::Emit(Emission { index: counter1, episode: st.current.unwrap() })
                } else {
                    StepModel::Nothing
                },
            )
        },
    }
}

/// The state at the end of the pages, and the final episode to write, if any.
pub open spec fn finish_spec(st: GroupingView) -> (GroupingView, Option<Emission>) {
    if flushes(st) {
        (
            GroupingView {
                current: None,
                already_completed: st.already_completed,
                pages: st.pages,
                counter: st.counter + 1,
                cache: marked(st.cache, st.current.unwrap().name, (st.counter + 1) as usize, st.pages),
            },
            Some(Emission { index: st.counter + 1, episode: st.current.unwrap() }),
        )
    } else {
        (
            GroupingView {
                current: None,
                already_completed: st.already_completed,
                pages: st.pages,
                counter: st.counter,
                cache: st.cache,
            },
            None,
        )
    }
}

fn add_page_exec(pages: &mut Vec<String>, page: &str)
    ensures
        texts(final(pages)@) == add_page(texts(old(pages)@), page@),
{
    let p = String::from_str(page);
    for i in 0..pages.len()
        invariant
            p@ == page@,
            pages@ == old(pages)@,
            forall|j: int| 0 <= j < i ==> #[trigger] texts(pages@)[j] != page@,
    {
        if pages[i] == p {
            assert(texts(pages@)[i as int] == page@);
            assert(texts(pages@).contains(page@));
            return;
        }
    }
    assert(!texts(pages@).contains(page@));
    let ghost before = pages@;
    pages.push(p);
    assert(texts(pages@) =~= texts(before).push(page@));
}

fn append_strings(a: &mut Vec<String>, b: Vec<String>)
    ensures
        texts(final(a)@) == texts(old(a)@) + texts(b@),
{
    let ghost start = texts(a@);
    for i in 0..b.len()
        invariant
            texts(a@) == start + texts(b@).take(i as int),
    {
        let ghost before = a@;
        a.push(b[i].clone());
        assert(texts(a@) =~= texts(before).push(b@[i as int]@));
        assert(texts(b@).take(i + 1) =~= texts(b@).take(i as int).push(b@[i as int]@));
    }
    assert(texts(b@).take(b.len() as int) =~= texts(b@));
}

impl GroupingState {
    /// The state at the start of a run: numbering resumes after the highest
    /// index of an episode completed in an earlier run.
    pub fn new(status_cache: StatusCache) -> (r: GroupingState)
        ensures
            r@.current is None,
            !r@.already_completed,
            r@.pages == Seq::<Seq<char>>::empty(),
            r@.cache == status_cache.view(),
            is_resume_index(r@.cache, r.episode_counter),
    {
        let episode_counter = resume_index(&status_cache);
        let r = GroupingState {
            current_episode: None,
            current_episode_already_completed: false,
            current_episode_pages: Vec::new(),
            episode_counter,
            status_cache,
        };
        assert(texts(r.current_episode_pages@) =~= Seq::<Seq<char>>::empty());
        r
    }

    /// The input that the model reads for the next page.
    pub fn organizer_input(&self, new_raw_text: String) -> (r: JsonOrganizerInput)
        ensures
            match (r.current_episode, self.current_episode) {
                (Some(a), Some(b)) => a@ == b@,
                (None, None) => true,
                _ => false,
            },
            r.new_raw_text == new_raw_text,
    {
        let current_episode = match &self.current_episode {
            Some(e) => Some(e.duplicate()),
            None => None,
        };
        JsonOrganizerInput { current_episode, new_raw_text }
    }

    /// Applies one action read from the page `page_name`.
    pub fn apply_action(&mut self, page_name: &str, action: EpisodeAction) -> (r: Result<
        Option<CompletedEpisode>,
        OrganizerError,
    >)
        requires
            flushes(old(self)@) && action@ is New ==> old(self).episode_counter < usize::MAX,
        ensures
            final(self)@ == apply_spec(old(self)@, page_name@, action@).0,
            match apply_spec(old(self)@, page_name@, action@).1 {
                StepModel::Nothing => r matches Ok(None),
                StepModel::Emit(e) => r matches Ok(Some(c)) && c.index == e.index && c.episode@
                    == e.episode,
                StepModel::NoCurrent => r matches Err(OrganizerError::NoCurrentEpisode),
            },
    {
        match action {
            EpisodeAction::AppendLastEpisode { name: _, data, new_topics } => {
                if self.current_episode_already_completed {
                    return Ok(None);
                }
                match self.current_episode.take() {
                    None => Err(OrganizerError::NoCurrentEpisode),
                    Some(mut episode) => {
                        add_page_exec(&mut self.current_episode_pages, page_name);
                        episode.content.append(data.as_str());
                        append_strings(&mut episode.sub_headers, new_topics);
                        self.current_episode = Some(episode);
                        Ok(None)
                    },
                }
            },
            EpisodeAction::NewEpisode { name, data, new_topics } => {
                let mut emitted: Option<CompletedEpisode> = None;
                if let Some(episode) = self.current_episode.take() {
                    if !self.current_episode_already_completed {
                        add_page_exec(&mut self.current_episode_pages, page_name);
                        self.episode_counter += 1;
                        let mut pages: Vec<String> = Vec::new();
                        std::mem::swap(&mut pages, &mut self.current_episode_pages);
                        mark_completed(
                            &mut self.status_cache,
                            episode.name.as_str(),
                            self.episode_counter,
                            pages,
                        );
                        emitted = Some(CompletedEpisode { index: self.episode_counter, episode });
                    }
                }
                if is_completed(&self.status_cache, name.as_str()) {
                    self.current_episode = Some(
                        Episode { name, content: String::new(), sub_headers: Vec::new() },
                    );
                    self.current_episode_already_completed = true;
                    self.current_episode_pages = Vec::new();
                    assert(texts(self.current_episode_pages@) =~= Seq::<Seq<char>>::empty());
                    assert(texts(self.current_episode.unwrap().sub_headers@) =~= Seq::<
                        Seq<char>,
                    >::empty());
                } else {
                    self.current_episode = Some(Episode { name, content: data, sub_headers: new_topics });
                    self.current_episode_already_completed = false;
                    let mut pages: Vec<String> = Vec::new();
                    pages.push(String::from_str(page_name));
                    self.current_episode_pages = pages;
                    assert(texts(self.current_episode_pages@) =~= seq![page_name@]);
                }
                Ok(emitted)
            },
        }
    }

    /// Completes the episode being assembled at the end of the pages, unless it
    /// was completed in an earlier run.
    pub fn finish(&mut self) -> (r: Option<CompletedEpisode>)
        requires
            flushes(old(self)@) ==> old(self).episode_counter < usize::MAX,
        ensures
            final(self)@ == finish_spec(old(self)@).0,
            match finish_spec(old(self)@).1 {
                Some(e) => r matches Some(c) && c.index == e.index && c.episode@ == e.episode,
                None => r is None,
            },
    {
        match self.current_episode.take() {
            Some(episode) => {
                if !self.current_episode_already_completed {
                    self.episode_counter += 1;
                    let pages = copy_strings(&self.current_episode_pages);
                    mark_completed(
                        &mut self.status_cache,
                        episode.name.as_str(),
                        self.episode_counter,
                        pages,
                    );
                    Some(CompletedEpisode { index: self.episode_counter, episode })
                } else {
                    None
                }
            },
            None => None,
        }
    }
}


/// What holds of every grouping state: an episode that will be written was not
/// completed in an earlier run, and no completed episode has an index above the
/// counter.
pub open spec fn grouping_inv(st: GroupingView) -> bool {
    &&& (flushes(st) ==> !completed_in(st.cache, st.current.unwrap().name))
    &&& forall|k: Seq<char>| #[trigger] completed_in(st.cache, k) ==> st.cache[k].index <= st.counter
}

/// Law: the state at the start of a run satisfies the invariant.
pub proof fn lemma_start_inv(cache: Map<Seq<char>, EntryView>, counter: usize)
    requires
        is_resume_index(cache, counter),
    ensures
        grouping_inv(
            GroupingView {
                current: None,
                already_completed: false,
                pages: Seq::empty(),
                counter: counter as int,
                cache,
            },
        ),
{
}

/// Law: every action keeps the invariant; the counter never goes down; an
/// episode once completed stays completed; and an episode that is written was
/// not completed before, takes the next index, which exceeds every index
/// completed before, and is marked completed under it. In particular an
/// episode completed in an earlier run is never written again, and no two
/// written episodes share an index.
pub proof fn lemma_apply_laws(st: GroupingView, page: Seq<char>, a: ActionModel)
    requires
        grouping_inv(st),
        0 <= st.counter < usize::MAX,
    ensures
        grouping_inv(apply_spec(st, page, a).0),
        apply_spec(st, page, a).0.counter >= st.counter,
        forall|k: Seq<char>| #[trigger] completed_in(st.cache, k) ==> completed_in(
            apply_spec(st, page, a).0.cache,
            k,
        ),
        !(apply_spec(st, page, a).1 is Emit) ==> apply_spec(st, page, a).0.counter == st.counter,
        apply_spec(st, page, a).1 matches StepModel::Emit(e) ==> {
            &&& e.index == st.counter + 1
            &&& apply_spec(st, page, a).0.counter == e.index
            &&& !completed_in(st.cache, e.episode.name)
            &&& completed_in(apply_spec(st, page, a).0.cache, e.episode.name)
            &&& apply_spec(st, page, a).0.cache[e.episode.name].index == e.index
            &&& forall|k: Seq<char>| #[trigger] completed_in(st.cache, k) ==> st.cache[k].index
                < e.index
        },
{
    let st2 = apply_spec(st, page, a).0;
    match a {
        ActionModel::Append { .. } => {},
        ActionModel::New { name, .. } => {
            assert forall|k: Seq<char>| #[trigger] completed_in(st2.cache, k) implies st2.cache[k].index
                <= st2.counter by {
                if flushes(st) && k != st.current.unwrap().name {
                    assert(completed_in(st.cache, k));
                }
            }
            assert forall|k: Seq<char>| #[trigger] completed_in(st.cache, k) implies completed_in(
                st2.cache,
                k,
            ) by {}
        },
    }
}

/// Law: finishing keeps the invariant and the completed episodes, and the final
/// episode, when written, takes the next index, was not completed before, and
/// is marked completed under that index.
pub proof fn lemma_finish_laws(st: GroupingView)
    requires
        grouping_inv(st),
        0 <= st.counter < usize::MAX,
    ensures
        grouping_inv(finish_spec(st).0),
        finish_spec(st).0.current is None,
        forall|k: Seq<char>| #[trigger] completed_in(st.cache, k) ==> completed_in(finish_spec(st).0.cache, k),
        finish_spec(st).1 matches Some(e) ==> {
            &&& e.index == st.counter + 1
            &&& finish_spec(st).0.counter == e.index
            &&& !completed_in(st.cache, e.episode.name)
            &&& completed_in(finish_spec(st).0.cache, e.episode.name)
            &&& finish_spec(st).0.cache[e.episode.name].index == e.index
        },
        finish_spec(st).1 is None ==> finish_spec(st).0.cache == st.cache,
{
    let st2 = finish_spec(st).0;
    assert forall|k: Seq<char>| #[trigger] completed_in(st2.cache, k) implies st2.cache[k].index
        <= st2.counter by {
        if flushes(st) && k != st.current.unwrap().name {
            assert(completed_in(st.cache, k));
        }
    }
}


/// The state after a sequence of actions, each read from a page, and the
/// episodes written along the way, in order.
pub open spec fn run_actions(st: GroupingView, steps: Seq<(Seq<char>, ActionModel)>) -> (
    GroupingView,
    Seq<Emission>,
)
    decreases steps.len(),
{
    if steps.len() == 0 {
        (st, Seq::empty())
    } else {
        let prev = run_actions(st, steps.drop_last());
        let next = apply_spec(prev.0, steps.last().0, steps.last().1);
        (
            next.0,
            match next.1 {
                StepModel::Emit(e) => prev.1.push(e),
                _ => prev.1,
            },
        )
    }
}

/// Law: over any run of actions, the episodes written are numbered
/// consecutively after the starting counter, none of them was completed before
/// the run, no episode is written twice, and every written episode (like every
/// episode completed before) ends the run marked completed.
pub proof fn lemma_run_laws(st: GroupingView, steps: Seq<(Seq<char>, ActionModel)>)
    requires
        grouping_inv(st),
        0 <= st.counter,
        st.counter + steps.len() < usize::MAX,
    ensures
        grouping_inv(run_actions(st, steps).0),
        run_actions(st, steps).0.counter == st.counter + run_actions(st, steps).1.len(),
        forall|i: int| 0 <= i < run_actions(st, steps).1.len() ==> (#[trigger] run_actions(
            st,
            steps,
        ).1[i]).index == st.counter + i + 1,
        forall|i: int| 0 <= i < run_actions(st, steps).1.len() ==> !completed_in(
            st.cache,
            (#[trigger] run_actions(st, steps).1[i]).episode.name,
        ),
        forall|i: int| 0 <= i < run_actions(st, steps).1.len() ==> completed_in(
            run_actions(st, steps).0.cache,
            (#[trigger] run_actions(st, steps).1[i]).episode.name,
        ),
        forall|i: int, j: int|
            0 <= i < j < run_actions(st, steps).1.len() ==> (#[trigger] run_actions(st, steps).1[i]).episode.name
                != (#[trigger] run_actions(st, steps).1[j]).episode.name,
        forall|k: Seq<char>| #[trigger] completed_in(st.cache, k) ==> completed_in(
            run_actions(st, steps).0.cache,
            k,
        ),
        run_actions(st, steps).1.len() <= steps.len(),
    decreases steps.len(),
{
    if steps.len() > 0 {
        let prev = run_actions(st, steps.drop_last());
        lemma_run_laws(st, steps.drop_last());
        let p = steps.last().0;
        let a = steps.last().1;
        lemma_apply_laws(prev.0, p, a);
        let next = apply_spec(prev.0, p, a);
        let r = run_actions(st, steps);
        assert(r.0 == next.0);
        match next.1 {
            StepModel::Emit(e) => {
                assert(r.1 == prev.1.push(e));
                assert forall|i: int| 0 <= i < r.1.len() implies !completed_in(
                    st.cache,
                    (#[trigger] r.1[i]).episode.name,
                ) by {
                    if i < prev.1.len() {
                        assert(r.1[i] == prev.1[i]);
                    } else {
                        if completed_in(st.cache, e.episode.name) {
                            assert(completed_in(prev.0.cache, e.episode.name));
                        }
                    }
                }
                assert forall|i: int| 0 <= i < r.1.len() implies completed_in(
                    r.0.cache,
                    (#[trigger] r.1[i]).episode.name,
                ) by {
                    if i < prev.1.len() {
                        assert(r.1[i] == prev.1[i]);
                        assert(completed_in(prev.0.cache, prev.1[i].episode.name));
                    }
                }
                assert forall|i: int, j: int|
                    0 <= i < j < r.1.len() implies (#[trigger] r.1[i]).episode.name != (
                    #[trigger] r.1[j]).episode.name by {
                    assert(r.1[i] == prev.1[i]);
                    if j < prev.1.len() {
                        assert(r.1[j] == prev.1[j]);
                    } else {
                        assert(completed_in(prev.0.cache, prev.1[i].episode.name));
                    }
                }
                assert forall|i: int| 0 <= i < r.1.len() implies (#[trigger] r.1[i]).index == st.counter
                    + i + 1 by {
                    if i < prev.1.len() {
                        assert(r.1[i] == prev.1[i]);
                    }
                }
            },
            _ => {
                assert(r.1 == prev.1);
            },
        }
    }
}

/// Law: a new episode that completes the current one writes it exactly as it
/// was assembled (name, content and sub-topics), under the next index.
pub proof fn lemma_new_writes_current(st: GroupingView, page: Seq<char>, a: ActionModel)
    requires
        flushes(st),
        a is New,
    ensures
        apply_spec(st, page, a).1 == StepModel::Emit(
            (Emission { index: st.counter + 1, episode: st.current.unwrap() }),
        ),
{
}

/// The data of the appends among `steps`, in order.
pub open spec fn appended_data(steps: Seq<(Seq<char>, ActionModel)>) -> Seq<char>
    decreases steps.len(),
{
    if steps.len() == 0 {
        Seq::empty()
    } else {
        appended_data(steps.drop_last()) + match steps.last().1 {
            ActionModel::Append { data, .. } => data,
            ActionModel::New { .. } => Seq::empty(),
        }
    }
}

/// The sub-topics of the appends among `steps`, in order.
pub open spec fn appended_topics(steps: Seq<(Seq<char>, ActionModel)>) -> Seq<Seq<char>>
    decreases steps.len(),
{
    if steps.len() == 0 {
        Seq::empty()
    } else {
        appended_topics(steps.drop_last()) + match steps.last().1 {
            ActionModel::Append { new_topics, .. } => new_topics,
            ActionModel::New { .. } => Seq::empty(),
        }
    }
}

/// Every action of `steps` is an append.
pub open spec fn only_appends(steps: Seq<(Seq<char>, ActionModel)>) -> bool {
    forall|i: int| 0 <= i < steps.len() ==> (#[trigger] steps[i]).1 is Append
}

/// Law: appends to an episode being assembled write nothing and keep the
/// counter; the episode keeps its name, and its content and sub-topics are
/// followed by the data and sub-topics of every append, in order.
pub proof fn lemma_appends_accumulate(st: GroupingView, steps: Seq<(Seq<char>, ActionModel)>)
    requires
        st.current is Some,
        !st.already_completed,
        only_appends(steps),
    ensures
        run_actions(st, steps).1.len() == 0,
        run_actions(st, steps).0.counter == st.counter,
        !run_actions(st, steps).0.already_completed,
        run_actions(st, steps).0.current == Some(
            (EpisodeModel {
                name: st.current.unwrap().name,
                content: st.current.unwrap().content + appended_data(steps),
                sub_headers: st.current.unwrap().sub_headers + appended_topics(steps),
            }),
        ),
    decreases steps.len(),
{
    let ep = st.current.unwrap();
    if steps.len() == 0 {
        assert(ep.content + appended_data(steps) =~= ep.content);
        assert(ep.sub_headers + appended_topics(steps) =~= ep.sub_headers);
    } else {
        let rest = steps.drop_last();
        assert(only_appends(rest)) by {
            assert forall|i: int| 0 <= i < rest.len() implies (#[trigger] rest[i]).1 is Append by {
                assert(rest[i] == steps[i]);
            }
        }
        lemma_appends_accumulate(st, rest);
        assert(steps[steps.len() - 1].1 is Append);
        let last = steps.last().1;
        match last {
            ActionModel::Append { data, new_topics, .. } => {
                assert(ep.content + appended_data(rest) + data =~= ep.content + appended_data(steps));
                assert(ep.sub_headers + appended_topics(rest) + new_topics =~= ep.sub_headers
                    + appended_topics(steps));
            },
            ActionModel::New { .. } => {},
        }
    }
}

/// Law: an episode written when the next one starts holds the data and
/// sub-topics of the action that started it, followed by those of every append
/// read since, in order, and takes the index after the one the counter held
/// when it started.
pub proof fn lemma_written_episode_accumulates(
    st: GroupingView,
    p0: Seq<char>,
    name: Seq<char>,
    data: Seq<char>,
    topics: Seq<Seq<char>>,
    steps: Seq<(Seq<char>, ActionModel)>,
    p1: Seq<char>,
    a1: ActionModel,
)
    requires
        !completed_in(apply_spec(st, p0, ActionModel::New { name, data, new_topics: topics }).0.cache, name),
        only_appends(steps),
        a1 is New,
    ensures
        apply_spec(
            run_actions(apply_spec(st, p0, ActionModel::New { name, data, new_topics: topics }).0, steps).0,
            p1,
            a1,
        ).1 == StepModel::Emit(
            (Emission {
                index: apply_spec(st, p0, ActionModel::New { name, data, new_topics: topics }).0.counter + 1,
                episode: EpisodeModel {
                    name,
                    content: data + appended_data(steps),
                    sub_headers: topics + appended_topics(steps),
                },
            }),
        ),
{
    let s1 = apply_spec(st, p0, ActionModel::New { name, data, new_topics: topics }).0;
    lemma_appends_accumulate(s1, steps);
    let s2 = run_actions(s1, steps).0;
    lemma_new_writes_current(s2, p1, a1);
}

} // verus!
