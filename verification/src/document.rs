//! The Typst documents that the pipeline writes around the generated chapters.
use vstd::prelude::*;
use crate::text::{join, join_strings, string_views};

verus! {

broadcast use vstd::string::group_string_axioms;

/// Shared helper functions exported to chapter files via `utils.typ`.
pub const UTILS_TYP: &'static str = r#"#let q(body) = {
  set text(weight: "bold", font: "Frank Ruhl Libre", size: 9.5pt)
  body
}
"#;

/// The import line prepended to every generated chapter file.
pub const CHAPTER_IMPORT: &'static str = "#import \"../utils.typ\": q\n\n";

/// The preamble of `main.typ`: page setup, fonts and heading styles.
pub const MAIN_TYP_BOILERPLATE: &'static str = r#"#import "utils.typ": q

#set page(
  width: 4.25in, height: 6.87in,
  margin: (inside: 0.6in, outside: 0.4in, top: 0.6in, bottom: 0.4in),
  header: context {
    let p_num = counter(page).get().first()
    let headings = query(selector(heading.where(level: 1)).before(here()))
    let is_new_ep = query(heading.where(level: 1)).any(h => h.location().page() == p_num)
    if headings != () and not is_new_ep {
      let current_episode = headings.last().body
      if calc.even(p_num) { [#p_num #h(1fr) #current_episode] }
      else { [#current_episode #h(1fr) #p_num] }
    }
  }
)

#set text(font: "David Libre", size: 9pt, lang: "he")
#set par(justify: true, first-line-indent: 1.2em, leading: 0.55em)
#show regex("\[.*?\]"): it => { set text(size: 0.75em, fill: gray.darken(50%)); it }
#show heading.where(level: 1): it => {
  pagebreak(weak: true, to: "odd")
  set align(center); set text(size: 14pt); block(above: 12%, below: 0.6in, it.body)
}
#show heading.where(level: 2): it => {
  set align(right); set text(size: 10pt, weight: "bold"); block(above: 1.2em, below: 0.6em, it.body)
}

"#;

/// Boilerplate used only for validation: it defines `q` inline, so no file path resolution is needed.
pub const VALIDATION_BOILERPLATE: &'static str = r#"#let q(body) = {
  set text(weight: "bold", font: "Frank Ruhl Libre", size: 9.5pt)
  body
}

#set text(lang: "he")

"#;

/// `#include "typst/<file>"`.
pub open spec fn include_directive_spec(file: Seq<char>) -> Seq<char> {
    "#include \"typst/"@ + file + "\""@
}

/// The directive that includes the chapter file `file` from `main.typ`.
pub fn include_directive(file: &str) -> (r: String)
    ensures
        r@ == include_directive_spec(file@),
{
    let mut r = String::from_str("#include \"typst/");
    r.append(file);
    r.append("\"");
    r
}

/// The text of `main.typ`: the preamble, then the include lines, one per line.
pub open spec fn main_typ_spec(include_lines: Seq<Seq<char>>) -> Seq<char> {
    MAIN_TYP_BOILERPLATE@ + join(include_lines, "\n"@) + "\n"@
}

/// Builds the text of `main.typ` from its include lines.
pub fn main_typ_text(include_lines: &Vec<String>) -> (r: String)
    ensures
        r@ == main_typ_spec(string_views(include_lines@)),
{
    let mut r = String::from_str(MAIN_TYP_BOILERPLATE);
    let body = join_strings(include_lines, "\n");
    r.append(body.as_str());
    r.append("\n");
    r
}

/// The text of a chapter file: the import line, then the chapter.
pub fn chapter_text(content: &str) -> (r: String)
    ensures
        r@ == CHAPTER_IMPORT@ + content@,
{
    let mut r = String::from_str(CHAPTER_IMPORT);
    r.append(content);
    r
}

/// The source that is compiled to validate a chapter.
pub fn validation_source(chapter_content: &str) -> (r: String)
    ensures
        r@ == VALIDATION_BOILERPLATE@ + "\n"@ + chapter_content@,
{
    let mut r = String::from_str(VALIDATION_BOILERPLATE);
    r.append("\n");
    r.append(chapter_content);
    r
}

} // verus!
