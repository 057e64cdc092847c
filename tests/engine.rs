use sesdiff::{
    script_from_chunks, shortest_edit_script, shortest_edit_script_suffix, ApplyEditScript,
    ApplyError, ChunkKind, EditInstruction, EditScript, Mode,
};

fn parsed(text: &str) -> EditScript {
    EditScript::parse(text).unwrap()
}

#[test]
fn build_normal_distance() {
    let e = shortest_edit_script("hablaron", "hablar", false, false, false);
    assert_eq!(e.to_string(), "=[hablar]-[on]");
    assert_eq!(e.distance, 2);
    assert_eq!(e.mode, Mode::Normal);
}

#[test]
fn build_suffix_scenario() {
    let e = shortest_edit_script_suffix("hablaron", "hablar", false, false);
    assert_eq!(e.to_string(), "-[on]");
    assert_eq!(e.distance, 2);
    assert_eq!(e.mode, Mode::Suffix);
    assert_eq!(e.apply_to("hablaron", Some(Mode::Suffix)).unwrap(), "hablar");
}

#[test]
fn build_suffix_generic_scenario() {
    let e = shortest_edit_script_suffix("pidieron", "pedir", true, false);
    let text = e.to_string();
    assert_eq!(text, "-[eron]+[r]=[#2]-[i]+[e]");
    let back = parsed(&text);
    assert_eq!(back.apply_to("pidieron", Some(Mode::Suffix)).unwrap(), "pedir");
}

#[test]
fn build_prefix_trims_common_end() {
    let e = shortest_edit_script("abcxyz", "abdxyz", true, false, false);
    assert_eq!(e.mode, Mode::Prefix);
    assert!(!e.to_string().ends_with("=[xyz]"));
    assert_eq!(e.apply_to("abcxyz", None).unwrap(), "abd");
}

#[test]
fn substitution_distance() {
    let chunks = vec![
        (ChunkKind::Equal, "ab".to_string()),
        (ChunkKind::Delete, "cd".to_string()),
        (ChunkKind::Insert, "xy".to_string()),
        (ChunkKind::Equal, "e".to_string()),
    ];
    let allowed = script_from_chunks(&chunks, Mode::Normal, false, true);
    assert_eq!(allowed.distance, 2);
    assert_eq!(allowed.to_string(), "=[ab]-[cd]+[xy]=[e]");
    let refused = script_from_chunks(&chunks, Mode::Normal, false, false);
    assert_eq!(refused.distance, 4);
    let trimmed = script_from_chunks(&chunks, Mode::Prefix, true, true);
    assert_eq!(trimmed.to_string(), "=[#2]-[cd]+[xy]");
    let unequal = vec![
        (ChunkKind::Insert, "x".to_string()),
        (ChunkKind::Delete, "cd".to_string()),
    ];
    assert_eq!(script_from_chunks(&unequal, Mode::Normal, false, true).distance, 3);
}

#[test]
fn suffix_chunks_read_back() {
    let chunks = vec![
        (ChunkKind::Delete, "no".to_string()),
        (ChunkKind::Equal, "ralbah".to_string()),
    ];
    let e = script_from_chunks(&chunks, Mode::Suffix, false, false);
    assert_eq!(e.to_string(), "-[on]");
    assert_eq!(e.distance, 2);
}

#[test]
fn parse_distance_counts_changes() {
    let e = parsed("=[hablar]-[on]");
    assert_eq!(e.distance, 1);
    assert_eq!(e.mode, Mode::Normal);
    assert_eq!(e.len(), 2);
}

#[test]
fn parse_errors() {
    assert!(EditScript::parse("").is_err());
    assert!(EditScript::parse("no brackets").is_err());
    assert!(EditScript::parse("+[]").is_err());
    assert!(EditScript::parse("+(ab]").is_err());
    assert!(EditScript::parse("*[ab]").is_err());
    assert!(EditScript::parse("=[ab]+[]").is_err());
    assert!(EditInstruction::parse("=[#1|#2]").is_ok());
}

#[test]
fn parse_options_and_generic() {
    let e = parsed("=[#12]-[a|b]+[x|y]=[c|d]");
    assert_eq!(e.instructions.len(), 4);
    assert!(matches!(e.instructions[0], EditInstruction::GenericIdentity(12)));
    assert!(matches!(&e.instructions[1], EditInstruction::DeletionOptions(v) if v.len() == 2));
    assert!(matches!(&e.instructions[2], EditInstruction::InsertionOptions(v) if v.len() == 2));
    assert!(matches!(&e.instructions[3], EditInstruction::IdentityOptions(v) if v.len() == 2));
    assert_eq!(e.to_string(), "=[#12]-[a|b]+[x|y]=[c|d]");
    assert!(matches!(parsed("=[#abc]").instructions[0], EditInstruction::Identity(_)));
    assert!(matches!(parsed("=[#99999999999]").instructions[0], EditInstruction::Identity(_)));
}

#[test]
fn single_option_prints_as_plain() {
    let e = EditScript {
        mode: Mode::Normal,
        distance: 1,
        instructions: vec![EditInstruction::DeletionOptions(vec!["a".to_string()])],
    };
    assert_eq!(e.to_string(), "-[a]");
    assert!(matches!(parsed(&e.to_string()).instructions[0], EditInstruction::Deletion(_)));
}

#[test]
fn round_trip_example() {
    let text = "=[#3]-[ab|c]+[xyz]=[q|r|s]-[é]";
    assert_eq!(parsed(text).to_string(), text);
    assert_eq!(parsed(text).distance, 3);
}

#[test]
fn apply_inverse_example() {
    for (s, t) in [("pidieron", "pedir"), ("", "abc"), ("abc", ""), ("говорим", "говорить")] {
        let e = shortest_edit_script(s, t, false, false, false);
        assert_eq!(e.apply_to(s, Some(Mode::Normal)).unwrap(), t);
    }
}

#[test]
fn options_first_match_and_skip() {
    let e = parsed("-[x|ab|a]=[c]");
    assert_eq!(e.apply_to("abcd", None).unwrap(), "c");
    let skip = parsed("-[x|y]=[ab]");
    assert_eq!(skip.apply_to("abcd", None).unwrap(), "ab");
    let nothing = parsed("-[x|y]");
    assert!(matches!(nothing.apply_to("abcd", None), Err(ApplyError::NoMatch)));
    let suffix = parsed("-[x|cd|d]=[b]");
    assert_eq!(suffix.apply_to("abcd", Some(Mode::Suffix)).unwrap(), "ab");
}

#[test]
fn insertion_options_never_apply() {
    let e = parsed("+[a|b]");
    assert!(matches!(e.apply_to("x", None), Err(ApplyError::WithMessage(_))));
    assert!(matches!(e.apply_to("x", Some(Mode::Suffix)), Err(ApplyError::WithMessage(_))));
    assert!(matches!(e.apply_to("x", Some(Mode::Infix)), Err(ApplyError::NoMatch)));
}

#[test]
fn normal_errors() {
    let e = parsed("=[#5]");
    assert!(matches!(e.apply_to("abc", None), Err(ApplyError::WithMessage(_))));
    let e = parsed("-[ver]=[sta]+[a]=[n]-[d]");
    assert!(matches!(e.apply_to("nachtvlinder", None), Err(ApplyError::NoMatch)));
}

#[test]
fn normal_discards_rest() {
    let e = parsed("=[ab]");
    assert_eq!(e.apply_to("abcdef", None).unwrap(), "ab");
    let e = parsed("-[ab]");
    assert_eq!(e.apply_to("abcdef", None).unwrap(), "");
}

#[test]
fn suffix_errors() {
    let e = parsed("-[xyz]");
    assert!(matches!(e.apply_to("ab", Some(Mode::Suffix)), Err(ApplyError::WithMessage(_))));
    assert!(matches!(e.apply_to("abcd", Some(Mode::Suffix)), Err(ApplyError::WithMessage(_))));
    let e = parsed("=[#9]");
    assert!(matches!(e.apply_to("ab", Some(Mode::Suffix)), Err(ApplyError::WithMessage(_))));
    let e = parsed("=[q]");
    assert!(matches!(e.apply_to("ab", Some(Mode::Suffix)), Err(ApplyError::WithMessage(_))));
}

#[test]
fn infix_no_match() {
    let e = parsed("-[z]+[e]");
    assert!(matches!(e.apply_to("hahaha", Some(Mode::Infix)), Err(ApplyError::NoMatch)));
    assert!(matches!(e.apply_to("", Some(Mode::Infix)), Err(ApplyError::NoMatch)));
}

#[test]
fn infix_insertion_only() {
    let e = parsed("+[x]");
    assert_eq!(e.apply_to("ab", Some(Mode::Infix)).unwrap(), "xaxb");
}

#[test]
fn mode_override_and_default() {
    let mut e = parsed("-[on]");
    assert!(e.apply_to("hablaron", None).is_err());
    e.mode = Mode::Suffix;
    assert_eq!(e.apply_to("hablaron", None).unwrap(), "hablar");
}

#[test]
fn generic_identity_formats_number() {
    let e = EditScript {
        mode: Mode::Normal,
        distance: 0,
        instructions: vec![EditInstruction::GenericIdentity(4294967295)],
    };
    assert_eq!(e.to_string(), "=[#4294967295]");
    assert!(!EditInstruction::GenericIdentity(0).is_change());
}

#[test]
fn empty_options_print_and_skip() {
    let e = EditScript {
        mode: Mode::Normal,
        distance: 0,
        instructions: vec![
            EditInstruction::DeletionOptions(vec![]),
            EditInstruction::Identity("ab".to_string()),
        ],
    };
    assert_eq!(e.to_string(), "-[]=[ab]");
    assert_eq!(e.apply_to("abc", None).unwrap(), "ab");
    assert!(EditScript::parse(&e.to_string()).is_err());
}
