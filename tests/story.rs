use narrative_script::compiler::Compiler;
use narrative_script::error::{EncodeError, ParseError, WalkerError};
use narrative_script::keys::compare_keys;
use narrative_script::model::{
    BodyStatement, Declaration, Definition, NarrativeChoice, NarrativeItem, Statement,
    SymbolAttributes, SymbolType,
};
use narrative_script::store::{decode_act, encode_story, NarrativeIndex};

fn declare(kind: &str, name: &str, position: usize, attrs: &[(&str, &str)]) -> Statement {
    Statement::Declaration(Declaration {
        kind: kind.to_string(),
        name: name.to_string(),
        position,
        attributes: attrs
            .iter()
            .map(|(k, v)| SymbolAttributes::new(k.to_string(), v.to_string()))
            .collect(),
    })
}

fn say(character: &str, text: &str) -> BodyStatement {
    BodyStatement::Dialogue { character: character.to_string(), text: text.to_string() }
}

fn define(name: &str, body: Vec<BodyStatement>) -> Statement {
    Statement::Definition(Definition { name: name.to_string(), body })
}

fn src(s: &str) -> String {
    s.to_string()
}

fn record(name: &str, bytes: &[u8]) -> (String, Vec<u8>) {
    (name.to_string(), bytes.to_vec())
}

#[test]
fn scenario_single_dialogue_round_trip() {
    let mut c = Compiler::new();
    c.compile(
        vec![
            declare("character", "alice", 0, &[("name", "Alice A.")]),
            declare("act", "intro", 30, &[]),
            define("intro", vec![say("alice", "Hello")]),
        ],
        &src("story.gcs"),
    );
    assert!(c.run_checks());
    assert!(c.generate_data_files().is_ok());
    let items = c.definition_of("intro").unwrap();
    assert_eq!(items.len(), 1);
    match &items[0] {
        NarrativeItem::Dialogue { character, display_name, dialogue, attributes } => {
            assert_eq!(character, "alice");
            assert_eq!(display_name, "Alice A.");
            assert_eq!(dialogue, "Hello");
            assert_eq!(attributes.len(), 1);
            assert_eq!(attributes[0].key, "name");
            assert_eq!(attributes[0].value, "Alice A.");
        }
        other => panic!("unexpected item {:?}", other),
    }
    let rec = br#"[{"Dialogue":{"character":"alice","display_name":"Alice A.","dialogue":"Hello","attributes":[{"key":"name","value":"Alice A."}]}}]"#;
    let (blob, index) = encode_story(&vec![record("intro", rec)]).unwrap();
    assert_eq!(index.read_act(&blob, "intro").unwrap(), rec.to_vec());
    match index.read_act(&blob, "missing") {
        Err(WalkerError::UnknownScene(s)) => assert_eq!(s, "missing"),
        other => panic!("unexpected {:?}", other),
    }
}

#[test]
fn scenario_undeclared_character_blocks_output() {
    let mut c = Compiler::new();
    c.compile(
        vec![declare("act", "intro", 0, &[]), define("intro", vec![say("bob", "Hi")])],
        &src("story.gcs"),
    );
    assert!(!c.are_symbols_defined());
    let undeclared = c.undeclared_symbols();
    assert_eq!(undeclared.len(), 1);
    match &undeclared[0] {
        ParseError::UndeclaredSymbol(s) => assert_eq!(s, "bob"),
        other => panic!("unexpected {:?}", other),
    }
    assert!(!c.run_checks());
    assert!(matches!(c.generate_data_files(), Err(EncodeError::ChecksNotPassed)));
}

#[test]
fn forward_reference_across_files_resolves() {
    let mut c = Compiler::new();
    c.compile(
        vec![declare("act", "intro", 0, &[]), define("intro", vec![say("carol", "Later")])],
        &src("acts.gcs"),
    );
    assert!(!c.are_symbols_defined());
    c.compile(vec![declare("character", "carol", 0, &[])], &src("cast.gcs"));
    assert!(c.are_symbols_defined());
    assert!(c.undeclared_symbols().is_empty());
    assert!(c.run_checks());
}

#[test]
fn redeclaration_keeps_first() {
    let mut c = Compiler::new();
    c.compile(vec![declare("character", "alice", 0, &[("name", "First")])], &src("a.gcs"));
    c.compile(vec![declare("character", "alice", 5, &[("name", "Second")])], &src("b.gcs"));
    let errors = c.errors();
    assert_eq!(errors.len(), 1);
    match &errors[0] {
        ParseError::Redeclared { symbol, original, conflict } => {
            assert_eq!(symbol, "alice");
            assert_eq!(original, "a.gcs");
            assert_eq!(conflict, "b.gcs");
        }
        other => panic!("unexpected {:?}", other),
    }
    let info = c.symbol("alice").unwrap();
    assert_eq!(info.source, "a.gcs");
    assert_eq!(info.start_position, 0);
    assert_eq!(info.attributes[0].value, "First");
    assert!(!c.is_error_free());
    assert!(!c.run_checks());
}

#[test]
fn redefinition_keeps_first_body() {
    let mut c = Compiler::new();
    c.compile(
        vec![
            declare("character", "alice", 0, &[]),
            declare("act", "intro", 10, &[]),
            define("intro", vec![say("alice", "one")]),
        ],
        &src("a.gcs"),
    );
    c.compile(vec![define("intro", vec![say("alice", "two"), say("alice", "three")])], &src("b.gcs"));
    let errors = c.errors();
    assert_eq!(errors.len(), 1);
    match &errors[0] {
        ParseError::Redefined { symbol, original, conflict } => {
            assert_eq!(symbol, "intro");
            assert_eq!(original, "a.gcs");
            assert_eq!(conflict, "b.gcs");
        }
        other => panic!("unexpected {:?}", other),
    }
    let items = c.definition_of("intro").unwrap();
    assert_eq!(items.len(), 1);
    match &items[0] {
        NarrativeItem::Dialogue { dialogue, .. } => assert_eq!(dialogue, "one"),
        other => panic!("unexpected {:?}", other),
    }
}

#[test]
fn undefined_act_fails_checks() {
    let mut c = Compiler::new();
    c.compile(
        vec![
            declare("act", "zeta", 0, &[]),
            declare("act", "alpha", 10, &[]),
            declare("act", "mid", 20, &[]),
            declare("character", "alice", 30, &[]),
            define("mid", vec![say("alice", "here")]),
        ],
        &src("a.gcs"),
    );
    assert!(!c.all_acts_defined());
    let undefined = c.undefined_acts();
    assert_eq!(undefined.len(), 2);
    match (&undefined[0], &undefined[1]) {
        (ParseError::UndefinedSymbol(a), ParseError::UndefinedSymbol(b)) => {
            assert_eq!(a, "alpha");
            assert_eq!(b, "zeta");
        }
        other => panic!("unexpected {:?}", other),
    }
    assert!(!c.run_checks());
    assert!(!c.checks_passed());
}

#[test]
fn unknown_kind_token_is_reported() {
    let mut c = Compiler::new();
    c.compile(vec![declare("prop", "lamp", 0, &[])], &src("a.gcs"));
    assert!(c.symbol("lamp").is_none());
    match &c.errors()[0] {
        ParseError::UnknownAtom(s) => assert_eq!(s, "prop"),
        other => panic!("unexpected {:?}", other),
    }
    assert!(matches!(SymbolType::from_str("act"), Ok(SymbolType::Act)));
    assert!(matches!(SymbolType::from_str("character"), Ok(SymbolType::Character)));
    assert!(matches!(SymbolType::from_str(":act"), Err(ParseError::UnknownAtom(_))));
}

#[test]
fn choice_targets_must_be_declared() {
    let mut c = Compiler::new();
    c.compile(
        vec![
            declare("character", "alice", 0, &[("mood", "calm"), ("name", "Alice")]),
            declare("act", "intro", 10, &[]),
            define(
                "intro",
                vec![BodyStatement::Choice {
                    character: "alice".to_string(),
                    options: vec![
                        NarrativeChoice::new("Go".to_string(), "forest".to_string()),
                        NarrativeChoice::new("Stay".to_string(), "intro".to_string()),
                    ],
                }],
            ),
        ],
        &src("a.gcs"),
    );
    let undeclared = c.undeclared_symbols();
    assert_eq!(undeclared.len(), 1);
    assert!(matches!(&undeclared[0], ParseError::UndeclaredSymbol(s) if s == "forest"));
    c.compile(
        vec![declare("act", "forest", 0, &[]), define("forest", vec![say("alice", "Trees")])],
        &src("b.gcs"),
    );
    assert!(c.run_checks());
    assert!(c.generate_data_files().is_ok());
    match &c.definition_of("intro").unwrap()[0] {
        NarrativeItem::ChoiceSet { display_name, choices, attributes, .. } => {
            assert_eq!(display_name, "Alice");
            assert_eq!(choices.len(), 2);
            assert_eq!(choices[0].jump, "forest");
            assert_eq!(choices[1].text, "Stay");
            assert_eq!(attributes.len(), 2);
            assert_eq!(attributes[0].key, "mood");
        }
        other => panic!("unexpected {:?}", other),
    }
    // the pass may run again without changing anything
    assert!(c.generate_data_files().is_ok());
    assert_eq!(c.definition_of("intro").unwrap()[0].display_name(), "Alice");
}

#[test]
fn character_without_name_keeps_empty_display_name() {
    let mut c = Compiler::new();
    c.compile(
        vec![
            declare("character", "narrator", 0, &[("voice", "low")]),
            declare("act", "intro", 10, &[]),
            define("intro", vec![say("narrator", "Once")]),
        ],
        &src("a.gcs"),
    );
    assert!(c.run_checks());
    c.generate_data_files().unwrap();
    let item = &c.definition_of("intro").unwrap()[0];
    assert_eq!(item.display_name(), "");
    assert_eq!(item.attributes()[0].value, "low");
    assert_eq!(item.character(), "narrator");
}

#[test]
fn definitions_are_in_key_order() {
    let mut c = Compiler::new();
    c.compile(
        vec![
            declare("character", "a", 0, &[]),
            define("b", vec![say("a", "2")]),
            define("Z", vec![say("a", "0")]),
            define("a", vec![say("a", "1")]),
        ],
        &src("a.gcs"),
    );
    let names: Vec<&str> = c.definitions().iter().map(|(n, _)| n.as_str()).collect();
    assert_eq!(names, vec!["Z", "a", "b"]);
}

#[test]
fn round_trip_many_acts_and_partition() {
    let records = vec![
        record("alpha", b"first record"),
        record("beta", &[0u8; 300]),
        record("gamma", b""),
        record("omega", "x".repeat(1000).as_bytes()),
    ];
    let (blob, index) = encode_story(&records).unwrap();
    let entries = index.entries();
    assert_eq!(entries.len(), 4);
    let mut expected_start = 0usize;
    for (i, (name, (start, end))) in entries.iter().enumerate() {
        assert_eq!(name, &records[i].0);
        assert_eq!(*start, expected_start);
        assert!(start <= end);
        expected_start = *end;
    }
    assert_eq!(expected_start, blob.len());
    let total: usize = entries.iter().map(|(_, (s, e))| e - s).sum();
    assert_eq!(total, blob.len());
    for (name, bytes) in &records {
        assert_eq!(&index.read_act(&blob, name).unwrap(), bytes);
    }
    // compression changes the bytes of a record that repeats itself
    let (s, e) = index.locate("omega").unwrap();
    assert!(e - s < 1000);
}

#[test]
fn unknown_scene_does_not_disturb_reads() {
    let records = vec![record("a", b"one"), record("b", b"two")];
    let (blob, index) = encode_story(&records).unwrap();
    assert_eq!(index.read_act(&blob, "a").unwrap(), b"one".to_vec());
    assert!(matches!(index.read_act(&blob, "nope"), Err(WalkerError::UnknownScene(_))));
    assert!(matches!(index.locate("nope"), Err(WalkerError::UnknownScene(_))));
    assert_eq!(index.read_act(&blob, "a").unwrap(), b"one".to_vec());
    assert_eq!(index.read_act(&blob, "b").unwrap(), b"two".to_vec());
}

#[test]
fn encoder_refuses_unordered_names() {
    let records = vec![record("b", b"1"), record("a", b"2")];
    assert!(matches!(encode_story(&records), Err(EncodeError::OutOfOrder(n)) if n == "a"));
    let records = vec![record("a", b"1"), record("a", b"2")];
    assert!(matches!(encode_story(&records), Err(EncodeError::OutOfOrder(_))));
    let (blob, index) = encode_story(&vec![]).unwrap();
    assert!(blob.is_empty());
    assert!(index.entries().is_empty());
}

#[test]
fn index_document_round_trip() {
    let records = vec![record("intro", b"hello"), record("outro", b"bye")];
    let (blob, index) = encode_story(&records).unwrap();
    let text = index.to_json().unwrap();
    let parsed: serde_json::Value = serde_json::from_str(&text).unwrap();
    assert_eq!(parsed["intro"][0].as_u64(), Some(0));
    let back = NarrativeIndex::from_json(&text).unwrap();
    assert_eq!(back.locate("intro").unwrap(), index.locate("intro").unwrap());
    assert_eq!(back.locate("outro").unwrap(), index.locate("outro").unwrap());
    assert_eq!(back.read_act(&blob, "outro").unwrap(), b"bye".to_vec());
    assert!(matches!(NarrativeIndex::from_json("not json"), Err(WalkerError::BadIndex)));
}

#[test]
fn bad_ranges_and_blocks_are_reported() {
    let index = NarrativeIndex::from_entries(vec![
        ("a".to_string(), (0, 50)),
        ("b".to_string(), (4, 2)),
        ("c".to_string(), (0, 2)),
    ])
    .unwrap();
    let blob = vec![0xffu8, 0xff, 0xff];
    assert!(matches!(index.read_act(&blob, "a"), Err(WalkerError::BadRange(_))));
    assert!(matches!(index.read_act(&blob, "b"), Err(WalkerError::BadRange(_))));
    assert!(matches!(index.read_act(&blob, "c"), Err(WalkerError::BadBlock(s)) if s == "c"));
    assert!(matches!(decode_act("x", &vec![0xff, 0xff]), Err(WalkerError::BadBlock(_))));
    assert!(NarrativeIndex::from_entries(vec![
        ("a".to_string(), (0, 1)),
        ("a".to_string(), (1, 2)),
    ])
    .is_none());
}

#[test]
fn key_order_is_byte_order() {
    assert!(compare_keys("a", "b") < 0);
    assert!(compare_keys("b", "a") > 0);
    assert_eq!(compare_keys("same", "same"), 0);
    assert!(compare_keys("ab", "abc") < 0);
    assert!(compare_keys("Z", "a") < 0);
    assert!(compare_keys("", "a") < 0);
    assert!(compare_keys("é", "z") > 0);
}

#[test]
fn diagnostics_read_as_text() {
    let e = ParseError::Redeclared {
        symbol: "alice".to_string(),
        original: "a.gcs".to_string(),
        conflict: "b.gcs".to_string(),
    };
    assert_eq!(e.message(), "'alice' has more than one declaration at \"a.gcs\" and \"b.gcs\"");
    assert_eq!(ParseError::UndeclaredSymbol("bob".to_string()).message(), "Symbol bob is not declared");
    assert_eq!(
        ParseError::UndefinedSymbol("intro".to_string()).message(),
        "Symbol intro is declared but not defined"
    );
    assert_eq!(ParseError::UnknownAtom("prop".to_string()).message(), "Unknown atom: \"prop\"");
    assert_eq!(
        WalkerError::UnknownScene("missing".to_string()).message(),
        "An unknown scene: \"missing\""
    );
    assert_eq!(WalkerError::BadIndex.message(), "The index could not be read");
}

#[test]
fn unknown_kind_token_stops_the_file() {
    let mut c = Compiler::new();
    c.compile(
        vec![
            declare("character", "alice", 0, &[]),
            declare("prop", "lamp", 10, &[]),
            declare("character", "bob", 20, &[]),
            define("intro", vec![say("carol", "skipped")]),
        ],
        &src("a.gcs"),
    );
    assert!(c.symbol("alice").is_some());
    assert!(c.symbol("bob").is_none());
    assert!(c.definition_of("intro").is_none());
    assert_eq!(c.errors().len(), 1);
    assert!(c.are_symbols_defined());
    // the next file is read as usual
    c.compile(vec![declare("character", "bob", 0, &[])], &src("b.gcs"));
    assert!(c.symbol("bob").is_some());
}

#[test]
fn ignored_statements_keep_a_passed_validation() {
    let mut c = Compiler::new();
    c.compile(vec![declare("character", "alice", 0, &[])], &src("a.gcs"));
    assert!(c.run_checks());
    c.compile(vec![Statement::Other, Statement::Other], &src("b.gcs"));
    assert!(c.checks_passed());
    c.compile(vec![], &src("c.gcs"));
    assert!(c.checks_passed());
    c.compile(vec![declare("character", "bob", 0, &[])], &src("d.gcs"));
    assert!(!c.checks_passed());
}

#[test]
fn index_document_text_decides_success() {
    assert!(NarrativeIndex::from_json("{}").unwrap().entries().is_empty());
    assert!(matches!(NarrativeIndex::from_json("[1, 2]"), Err(WalkerError::BadIndex)));
    assert!(matches!(NarrativeIndex::from_json("{\"a\": [1]}"), Err(WalkerError::BadIndex)));
    let index = NarrativeIndex::from_json("{\"a\": [3, 7], \"b\": [0, 3]}").unwrap();
    assert_eq!(index.locate("a").unwrap(), (3, 7));
    assert_eq!(index.locate("b").unwrap(), (0, 3));
}
