use formatjson5::{
    add_source, files_given, format_documents, heading, parse, parse_documents,
    reads_standard_input, run, Batch, Emission, Failure, FormatOptions, Position, Source,
};

fn source(name: &str, text: &str) -> Source {
    Source { name: String::from(name), text: String::from(text) }
}

#[test]
fn a_dash_names_the_standard_input() {
    assert!(reads_standard_input("-"));
}

#[test]
fn other_names_are_files() {
    assert!(!reads_standard_input(""));
    assert!(!reads_standard_input("--"));
    assert!(!reads_standard_input("a-"));
    assert!(!reads_standard_input("-.json5"));
}

#[test]
fn the_only_document_has_no_heading() {
    assert_eq!(heading(0, 1, "a.json5"), "");
}

#[test]
fn the_first_of_several_has_a_title() {
    assert_eq!(heading(0, 2, "a.json5"), "a.json5:\n=======\n");
}

#[test]
fn a_later_document_has_a_gap_and_a_title() {
    assert_eq!(heading(1, 3, "b"), "\nb:\n=\n");
}

#[test]
fn a_title_is_underlined_by_its_length_in_bytes() {
    assert_eq!(heading(0, 2, "\u{e9}t\u{e9}"), "\u{e9}t\u{e9}:\n=====\n");
}

#[test]
fn an_empty_name_has_an_empty_rule() {
    assert_eq!(heading(2, 3, ""), "\n:\n\n");
}

#[test]
fn sources_are_parsed_in_order() {
    let sources = vec![source("a", "{}"), source("b", "[1]"), source("c", "null")];
    match parse_documents(&sources) {
        Ok(documents) => {
            assert_eq!(documents.len(), 3);
            assert_eq!(documents[0].filename(), &Some(String::from("a")));
            assert_eq!(documents[1].filename(), &Some(String::from("b")));
            assert_eq!(documents[2].filename(), &Some(String::from("c")));
        }
        Err(failure) => panic!("refused: {}", failure.describe()),
    }
}

#[test]
fn no_source_parses_to_no_document() {
    match parse_documents(&Vec::new()) {
        Ok(documents) => assert!(documents.is_empty()),
        Err(failure) => panic!("refused: {}", failure.describe()),
    }
}

#[test]
fn the_first_refused_source_fails_the_batch() {
    let sources = vec![source("a", "{}"), source("b", "{ x: }"), source("c", "[ , ]")];
    match parse_documents(&sources) {
        Ok(_) => panic!("the batch was accepted"),
        Err(failure) => {
            assert!(failure.describe().starts_with("Parse error: b:1:6: "));
        }
    }
}

#[test]
fn documents_are_printed_under_their_headings() {
    let sources = vec![source("a.json5", "{a:1}"), source("b.json5", "[]")];
    let documents = match parse_documents(&sources) {
        Ok(documents) => documents,
        Err(failure) => panic!("refused: {}", failure.describe()),
    };
    let batch = format_documents(&documents, FormatOptions::default(), false);
    assert_eq!(
        batch,
        Batch {
            emissions: vec![
                Emission::Print {
                    heading: String::from("a.json5:\n=======\n"),
                    content: b"{\n    a: 1,\n}\n".to_vec(),
                },
                Emission::Print {
                    heading: String::from("\nb.json5:\n=======\n"),
                    content: b"[]\n".to_vec(),
                },
            ],
            failure: None,
        }
    );
}

#[test]
fn documents_replace_their_files() {
    let sources = vec![source("a.json5", "{a:1}"), source("b.json5", "[]")];
    let documents = match parse_documents(&sources) {
        Ok(documents) => documents,
        Err(failure) => panic!("refused: {}", failure.describe()),
    };
    let batch = format_documents(&documents, FormatOptions::from_flags(2, true, false, false), true);
    assert_eq!(
        batch,
        Batch {
            emissions: vec![
                Emission::Replace {
                    path: String::from("a.json5"),
                    content: b"{\n  a: 1\n}\n".to_vec(),
                },
                Emission::Replace { path: String::from("b.json5"), content: b"[]\n".to_vec() },
            ],
            failure: None,
        }
    );
}

#[test]
fn refused_options_send_nothing_out() {
    let document = match parse(String::from("{}"), Some(String::from("a"))) {
        Ok(document) => document,
        Err(failure) => panic!("refused: {}", failure.describe()),
    };
    let batch =
        format_documents(&vec![document], FormatOptions::from_flags(1025, false, false, false), true);
    assert!(batch.emissions.is_empty());
    assert_eq!(
        batch.failure,
        Some(Failure::InvalidOptions {
            message: String::from("indent_by must not be greater than 1024")
        })
    );
}

#[test]
fn a_run_without_sources_fails() {
    let batch = run(&Vec::new(), FormatOptions::default(), false);
    assert_eq!(batch, Batch { emissions: Vec::new(), failure: Some(Failure::NoFiles) });
}

#[test]
fn a_run_prints_the_only_document_bare() {
    let batch = run(&vec![source("-", "{ \"a\": 1 }")], FormatOptions::default(), false);
    assert_eq!(
        batch,
        Batch {
            emissions: vec![Emission::Print {
                heading: String::new(),
                content: b"{\n    a: 1,\n}\n".to_vec(),
            }],
            failure: None,
        }
    );
}

#[test]
fn a_run_with_a_refused_source_sends_nothing_out() {
    let sources = vec![source("good", "{}"), source("bad", "{ \"a\": }")];
    let batch = run(&sources, FormatOptions::default(), true);
    assert!(batch.emissions.is_empty());
    match batch.failure {
        Some(Failure::Parse { location: Some(place), .. }) => {
            assert_eq!(place.file, Some(String::from("bad")));
            assert_eq!(place.line, 1);
            assert_eq!(place.col, 8);
        }
        other => panic!("not a located parse error: {:?}", other),
    }
}

#[test]
fn a_run_sends_out_one_emission_for_each_source() {
    let sources = vec![source("a", "1"), source("b", "2"), source("c", "3")];
    let batch = run(&sources, FormatOptions::default(), true);
    assert_eq!(batch.failure, None);
    assert_eq!(batch.emissions.len(), 3);
    assert_eq!(
        batch.emissions[2],
        Emission::Replace { path: String::from("c"), content: b"3\n".to_vec() }
    );
}

#[test]
fn no_file_is_a_failure() {
    assert_eq!(files_given(0), Err(Failure::NoFiles));
}

#[test]
fn one_file_or_more_is_a_batch() {
    assert_eq!(files_given(1), Ok(()));
    assert_eq!(files_given(usize::MAX), Ok(()));
}

#[test]
fn a_source_is_added_behind_the_others() {
    let mut documents = Vec::new();
    assert_eq!(add_source(&mut documents, source("a", "{}")), Ok(()));
    assert_eq!(add_source(&mut documents, source("b", "[]")), Ok(()));
    assert_eq!(documents.len(), 2);
    assert_eq!(documents[0].filename(), &Some(String::from("a")));
    assert_eq!(documents[1].filename(), &Some(String::from("b")));
}

#[test]
fn a_source_without_a_value_is_not_added() {
    let mut documents = Vec::new();
    assert_eq!(
        add_source(&mut documents, source("empty", "")),
        Err(Failure::Parse {
            location: Some(Position { file: Some(String::from("empty")), line: 1, col: 1 }),
            message: String::from("The document holds no value"),
        })
    );
    assert!(documents.is_empty());
}

#[test]
fn a_refused_source_is_not_added() {
    let mut documents = Vec::new();
    assert_eq!(add_source(&mut documents, source("a", "{}")), Ok(()));
    match add_source(&mut documents, source("b", "{")) {
        Ok(_) => panic!("the source was accepted"),
        Err(failure) => assert!(failure.describe().starts_with("Parse error: b:1:")),
    }
    assert_eq!(documents.len(), 1);
    assert_eq!(documents[0].filename(), &Some(String::from("a")));
}

#[test]
fn a_batch_is_sorted_array_by_array() {
    let sources = vec![source("a", "{ a: [10, 9.0, 100], b: [true, null], c: [\"B\", \"a\"], d: [2, {}, 1] }")];
    let batch = run(&sources, FormatOptions::from_flags(1, true, false, true), false);
    assert_eq!(batch.failure, None);
    assert_eq!(
        batch.emissions,
        vec![Emission::Print {
            heading: String::new(),
            content: b"{\n a: [\n  9.0,\n  10,\n  100\n ],\n b: [\n  null,\n  true\n ],\n c: [\n  \"B\",\n  \"a\"\n ],\n d: [\n  2,\n  {},\n  1\n ]\n}\n".to_vec(),
        }]
    );
}

#[test]
fn an_array_with_a_comment_is_printed_as_without_sorting() {
    for text in ["[3, // three\n 1, 2]", "[\n // first\n 3, 1, 2]", "[3, 1, 2 /* last */]", "[3, 1, 2\n // end\n]"] {
        let sorted = run(&vec![source("a", text)], FormatOptions::from_flags(4, false, false, true), false);
        let plain = run(&vec![source("a", text)], FormatOptions::from_flags(4, false, false, false), false);
        assert_eq!(sorted.failure, None);
        assert_eq!(sorted, plain);
        match &sorted.emissions[0] {
            Emission::Print { content, .. } => {
                let out = String::from_utf8(content.clone()).expect("UTF-8");
                let three = out.find('3').expect("3");
                let one = out.find('1').expect("1");
                let two = out.find('2').expect("2");
                assert!(three < one && one < two);
            }
            other => panic!("not printed: {:?}", other),
        }
    }
}

#[test]
fn refused_options_fail_a_batch_of_any_documents() {
    let unnamed = match parse(String::from("[2, 1]"), None) {
        Ok(document) => document,
        Err(failure) => panic!("refused: {}", failure.describe()),
    };
    let options = FormatOptions::from_flags(5000, false, false, true);
    for replace in [false, true] {
        let batch = format_documents(&vec![], options, replace);
        assert!(batch.emissions.is_empty());
        assert!(matches!(batch.failure, Some(Failure::InvalidOptions { .. })));
    }
    let batch = format_documents(&vec![unnamed], options, true);
    assert!(batch.emissions.is_empty());
    assert!(matches!(batch.failure, Some(Failure::InvalidOptions { .. })));
}
