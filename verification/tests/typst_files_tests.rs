use base64::engine::general_purpose::STANDARD;
use base64::Engine;
use book_renewer::extract::{build_extraction_request, EXTRACTION_PROMPT};
use book_renewer::files::{
    is_page_file, json_episode_index, page_number, select_json_episode_files, select_page_files,
    sort_by_index,
};
use book_renewer::organizer::Episode;
use book_renewer::text::{chars_of, decimal_exec, parse_usize_exec, trimmed, zero_padded_decimal};
use book_renewer::typst::{
    build_initial_prompt, build_retry_prompt, next_generation_step, strip_typst_fences,
    typ_file_name, validation_verdict, CompileRun, GenerationStep,
};

fn ep(topics: &[&str]) -> Episode {
    Episode {
        name: "בראשית".to_string(),
        content: "תוכן".to_string(),
        sub_headers: topics.iter().map(|t| t.to_string()).collect(),
    }
}

#[test]
fn strip_typst_fences_cases() {
    assert_eq!(strip_typst_fences("```typst\n= A\n```"), "= A");
    assert_eq!(strip_typst_fences("x\n```typst\nB\n```\ny"), "B");
    assert_eq!(strip_typst_fences("  C  "), "C");
}

#[test]
fn initial_prompt_without_and_with_topics() {
    assert_eq!(build_initial_prompt(&ep(&[])), "שם הפרק: בראשית\nתוכן:\nתוכן");
    assert_eq!(
        build_initial_prompt(&ep(&["א", "ב"])),
        "שם הפרק: בראשית\nנושאים משניים: א, ב\nתוכן:\nתוכן"
    );
}

#[test]
fn retry_prompt_carries_output_and_error() {
    assert_eq!(
        build_retry_prompt(&ep(&[]), "OUT", "ERR"),
        "שם הפרק: בראשית\nתוכן:\nתוכן\n\n---\nהפלט הקודם שלך היה:\n```typst\nOUT\n```\n\nנכשל בקומפילציה עם השגיאה הבאה:\nERR\n\nאנא תקן את השגיאה וייצר שוב את הקובץ."
    );
}

#[test]
fn generation_steps() {
    let e = ep(&[]);
    assert!(matches!(next_generation_step(&e, 0, "c".to_string(), None), GenerationStep::Accept(c) if c == "c"));
    match next_generation_step(&e, 3, "c".to_string(), Some("err".to_string())) {
        GenerationStep::Retry(p) => assert_eq!(p, build_retry_prompt(&e, "c", "err")),
        _ => panic!("expected a retry"),
    }
    assert!(matches!(
        next_generation_step(&e, 4, "c".to_string(), Some("err".to_string())),
        GenerationStep::GiveUp
    ));
    assert!(matches!(next_generation_step(&e, 4, "c".to_string(), None), GenerationStep::Accept(_)));
}

#[test]
fn validation_verdicts() {
    assert_eq!(validation_verdict(CompileRun::ToolMissing), Ok(None));
    assert_eq!(validation_verdict(CompileRun::Succeeded), Ok(None));
    assert_eq!(validation_verdict(CompileRun::SpawnFailed("no".to_string())), Err("no".to_string()));
    assert_eq!(
        validation_verdict(CompileRun::Failed { stderr: "E".to_string(), stdout: "O".to_string() }),
        Ok(Some("E".to_string()))
    );
    assert_eq!(
        validation_verdict(CompileRun::Failed { stderr: String::new(), stdout: "O".to_string() }),
        Ok(Some("O".to_string()))
    );
}

#[test]
fn typ_file_names() {
    assert_eq!(typ_file_name(12), "12.typ");
    assert_eq!(typ_file_name(0), "0.typ");
}

#[test]
fn page_file_names() {
    assert!(is_page_file("page_3.txt"));
    assert!(!is_page_file("page_3.text"));
    assert!(!is_page_file("pages_3.txt"));
    assert_eq!(page_number("page_12.txt"), Some(12));
    assert_eq!(page_number("page_+7.txt"), Some(7));
    assert_eq!(page_number("page_.txt"), None);
    assert_eq!(page_number("page_x.txt"), None);
    assert_eq!(page_number("other.txt"), None);
}

#[test]
fn page_files_are_ordered_by_number() {
    let names: Vec<String> = ["page_10.txt", "notes.md", "page_2.txt", "page_1.txt", "page_02.txt"]
        .iter()
        .map(|s| s.to_string())
        .collect();
    let r = select_page_files(&names);
    let got: Vec<(usize, &str)> = r.iter().map(|(n, s)| (*n, s.as_str())).collect();
    assert_eq!(
        got,
        vec![(1, "page_1.txt"), (2, "page_2.txt"), (2, "page_02.txt"), (10, "page_10.txt")]
    );
}

#[test]
fn json_episode_files_are_ordered_by_index() {
    assert_eq!(json_episode_index("3.json"), Some(3));
    assert_eq!(json_episode_index("episode_status.json"), None);
    assert_eq!(json_episode_index(".json"), None);
    assert_eq!(json_episode_index("a.json"), None);
    assert_eq!(json_episode_index("3.json.bak"), None);
    let names: Vec<String> = ["12.json", "episode_status.json", "3.json", "x.txt", "03.json"]
        .iter()
        .map(|s| s.to_string())
        .collect();
    let r = select_json_episode_files(&names);
    let got: Vec<(usize, &str)> = r.iter().map(|(n, s)| (*n, s.as_str())).collect();
    assert_eq!(got, vec![(3, "3.json"), (3, "03.json"), (12, "12.json")]);
}

#[test]
fn sort_is_stable() {
    let v: Vec<(usize, String)> = vec![(2, "a".into()), (1, "b".into()), (2, "c".into()), (0, "d".into())];
    let r = sort_by_index(&v);
    assert_eq!(r, vec![(0, "d".into()), (1, "b".into()), (2, "a".into()), (2, "c".into())]);
}

#[test]
fn extraction_request_encodes_images() {
    let r = build_extraction_request(&b"hello".to_vec(), &vec![0xff, 0x00]);
    assert_eq!(r.page_image_base64, "aGVsbG8=");
    assert_eq!(r.example_image_base64, "/wA=");
    assert_eq!(r.prompt, EXTRACTION_PROMPT);
    assert!(EXTRACTION_PROMPT.starts_with("Please extract all the raw text from the image, only the hebrew text יש"));
}

#[test]
fn text_helpers() {
    assert_eq!(trimmed(&chars_of("\u{2003} a b \u{85}")), chars_of("a b"));
    assert_eq!(decimal_exec(0), vec!['0']);
    assert_eq!(decimal_exec(305), vec!['3', '0', '5']);
    assert_eq!(zero_padded_decimal(5, 3), vec!['0', '0', '5']);
    assert_eq!(parse_usize_exec(&chars_of("18446744073709551615")), Some(usize::MAX));
    assert_eq!(parse_usize_exec(&chars_of("18446744073709551616")), None);
    assert_eq!(parse_usize_exec(&chars_of("+")), None);
    assert_eq!(parse_usize_exec(&chars_of("-1")), None);
    assert_eq!(parse_usize_exec(&chars_of("")), None);
}

#[test]
fn base64_of_rfc_test_vectors() {
    let cases = [("", ""), ("f", "Zg=="), ("fo", "Zm8="), ("foo", "Zm9v"), ("foob", "Zm9vYg=="), ("fooba", "Zm9vYmE="), ("foobar", "Zm9vYmFy")];
    for (input, expected) in cases {
        let r = build_extraction_request(&input.as_bytes().to_vec(), &Vec::new());
        assert_eq!(r.page_image_base64, expected);
        assert_eq!(r.example_image_base64, "");
    }
}

#[test]
fn extraction_payloads_decode_to_the_image_bytes() {
    use_decoder_round_trip(&[0x89, b'P', b'N', b'G', 0x0d, 0x0a, 0x1a, 0x0a, 0x00], &[0xff, 0xfe, 0x00, 0x7f]);
    use_decoder_round_trip(&[], &[1]);
    use_decoder_round_trip(&(0u8..=255).collect::<Vec<u8>>(), &[0, 0]);
}

fn use_decoder_round_trip(page: &[u8], example: &[u8]) {
    let r = build_extraction_request(&page.to_vec(), &example.to_vec());
    assert_eq!(STANDARD.decode(&r.page_image_base64).unwrap(), page.to_vec());
    assert_eq!(STANDARD.decode(&r.example_image_base64).unwrap(), example.to_vec());
}
