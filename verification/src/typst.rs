//! Turning organized episodes into validated Typst chapters.
//!
//! Each episode is sent to a language model; its reply is compiled, and on a
//! compilation error the model is asked again with the error, a bounded number
//! of times.
use vstd::prelude::*;
use crate::organizer::{Episode, EpisodeModel, texts};
use crate::text::{chars_of, join, join_strings, string_views};

verus! {

broadcast use vstd::string::group_string_axioms;

pub const NAME_LABEL: &'static str = "שם הפרק: ";

pub const TOPICS_LABEL: &'static str = "\nנושאים משניים: ";

pub const CONTENT_LABEL: &'static str = "\nתוכן:\n";

pub const RETRY_PREVIOUS: &'static str = "\n\n---\nהפלט הקודם שלך היה:\n```typst\n";

pub const RETRY_ERROR: &'static str = "\n```\n\nנכשל בקומפילציה עם השגיאה הבאה:\n";

pub const RETRY_REQUEST: &'static str = "\n\nאנא תקן את השגיאה וייצר שוב את הקובץ.";

/// The number of attempts at generating a chapter that compiles.
pub const MAX_ATTEMPTS: usize = 5;

/// The reply of the model without its "```typst" code fence.
pub fn strip_typst_fences(response: &str) -> (r: String)
    ensures
        r@ == crate::fence::unfenced(response@, "```typst"@),
{
    let v = chars_of(response);
    crate::fence::unfenced_exec(&v, &chars_of("```typst"))
}

/// The first prompt for an episode: its name, its sub-topics when it has any, and its content.
pub open spec fn initial_prompt(e: EpisodeModel) -> Seq<char> {
    if e.sub_headers.len() == 0 {
        NAME_LABEL@ + e.name + CONTENT_LABEL@ + e.content
    } else {
        NAME_LABEL@ + e.name + TOPICS_LABEL@ + join(e.sub_headers, ", "@) + CONTENT_LABEL@ + e.content
    }
}

/// The prompt that asks again after the previous output failed to compile.
pub open spec fn retry_prompt(e: EpisodeModel, previous_output: Seq<char>, build_error: Seq<char>) -> Seq<char> {
    initial_prompt(e) + RETRY_PREVIOUS@ + previous_output + RETRY_ERROR@ + build_error + RETRY_REQUEST@
}

/// Law: an episode with at least one sub-topic gets, right after its name, the
/// topics line that lists every sub-topic joined by ", "; the rest of its
/// prompt is the prompt of the same episode without sub-topics.
pub proof fn lemma_prompt_lists_topics(e: EpisodeModel)
    requires
        e.sub_headers.len() >= 1,
    ensures
        initial_prompt(e) == initial_prompt(
            EpisodeModel { name: e.name, content: e.content, sub_headers: Seq::empty() },
        ).take(("שם הפרק: "@.len() + e.name.len()) as int) + "\nנושאים משניים: "@ + join(e.sub_headers, ", "@)
            + initial_prompt(EpisodeModel { name: e.name, content: e.content, sub_headers: Seq::empty() }).skip(
            ("שם הפרק: "@.len() + e.name.len()) as int,
        ),
{
    let bare = EpisodeModel { name: e.name, content: e.content, sub_headers: Seq::empty() };
    let k = ("שם הפרק: "@.len() + e.name.len()) as int;
    assert(NAME_LABEL@ == "שם הפרק: "@);
    assert(TOPICS_LABEL@ == "\nנושאים משניים: "@);
    assert(initial_prompt(bare).take(k) =~= NAME_LABEL@ + e.name);
    assert(initial_prompt(bare).skip(k) =~= CONTENT_LABEL@ + e.content);
    assert(initial_prompt(e) =~= (NAME_LABEL@ + e.name) + TOPICS_LABEL@ + join(e.sub_headers, ", "@) + (
    CONTENT_LABEL@ + e.content));
}

pub fn build_initial_prompt(episode: &Episode) -> (r: String)
    ensures
        r@ == initial_prompt(episode@),
{
    let mut r = String::from_str(NAME_LABEL);
    r.append(episode.name.as_str());
    if episode.sub_headers.len() != 0 {
        r.append(TOPICS_LABEL);
        let topics = join_strings(&episode.sub_headers, ", ");
        assert(string_views(episode.sub_headers@) == texts(episode.sub_headers@));
        r.append(topics.as_str());
    }
    r.append(CONTENT_LABEL);
    r.append(episode.content.as_str());
    r
}

pub fn build_retry_prompt(episode: &Episode, previous_output: &str, build_error: &str) -> (r: String)
    ensures
        r@ == retry_prompt(episode@, previous_output@, build_error@),
{
    let mut r = build_initial_prompt(episode);
    r.append(RETRY_PREVIOUS);
    r.append(previous_output);
    r.append(RETRY_ERROR);
    r.append(build_error);
    r.append(RETRY_REQUEST);
    r
}

/// What to do after an attempt at generating a chapter.
pub enum GenerationStep {
    /// The output compiled: it is the chapter.
    Accept(String),
    /// Ask again with this prompt.
    Retry(String),
    /// The attempts are used up.
    GiveUp,
}

/// The decision after attempt number `attempt` (counted from 0) produced
/// `content`, which compiled (`build_error` is `None`) or failed with the
/// given error: accept it, ask again with the error while attempts remain, or
/// give up after the last attempt.
pub fn next_generation_step(
    episode: &Episode,
    attempt: usize,
    content: String,
    build_error: Option<String>,
) -> (r: GenerationStep)
    ensures
        match build_error {
            None => r matches GenerationStep::Accept(c) && c == content,
            Some(err) => if attempt + 1 < MAX_ATTEMPTS {
                r matches GenerationStep::Retry(p) && p@ == retry_prompt(episode@, content@, err@)
            } else {
                r is GiveUp
            },
        },
{
    match build_error {
        None => GenerationStep::Accept(content),
        Some(error) => {
            if attempt < MAX_ATTEMPTS - 1 {
                GenerationStep::Retry(build_retry_prompt(episode, content.as_str(), error.as_str()))
            } else {
                GenerationStep::GiveUp
            }
        },
    }
}

/// How running the Typst compiler went.
pub enum CompileRun {
    /// The compiler is not installed.
    ToolMissing,
    /// The compiler could not be started for another reason.
    SpawnFailed(String),
    /// It ran and succeeded.
    Succeeded,
    /// It ran and failed, with what it wrote.
    Failed { stderr: String, stdout: String },
}

/// The verdict on a chapter: `Ok(None)` when it compiled, or when no compiler
/// is installed (validation is skipped); `Ok(Some(error))` with the compiler's
/// error output (its stdout when its stderr is empty); `Err` when the compiler
/// could not be run.
pub fn validation_verdict(run: CompileRun) -> (r: Result<Option<String>, String>)
    ensures
        match run {
            CompileRun::ToolMissing => r matches Ok(None),
            CompileRun::Succeeded => r matches Ok(None),
            CompileRun::SpawnFailed(msg) => r matches Err(m) && m == msg,
            CompileRun::Failed { stderr, stdout } => r matches Ok(Some(e)) && e == if stderr@.len()
                == 0 {
                stdout
            } else {
                stderr
            },
        },
{
    match run {
        CompileRun::ToolMissing => Ok(None),
        CompileRun::Succeeded => Ok(None),
        CompileRun::SpawnFailed(msg) => Err(msg),
        CompileRun::Failed { stderr, stdout } => {
            if stderr.as_str().is_empty() {
                Ok(Some(stdout))
            } else {
                Ok(Some(stderr))
            }
        },
    }
}

/// The chapter file of the episode with index `idx`: `<idx>.typ`.
pub fn typ_file_name(idx: usize) -> (r: String)
    ensures
        r@ == crate::text::decimal(idx as nat) + ".typ"@,
{
    let mut r = crate::text::string_of(&crate::text::decimal_exec(idx));
    r.append(".typ");
    r
}

} // verus!
