use dict_grammar::document::{
    check_document, decode_document, fix_invalid_tags, split_lines, Diagnostic, KeyIndex,
};
use dict_grammar::lines::{can_follow, line_type, roman_to_u8, LineRole};
use dict_grammar::repair::{fix_up_line, repair_line};
use dict_grammar::scanner::{parse_line, ScanError};
use dict_grammar::tags::{tag_type, TagKind};

fn chars(s: &str) -> Vec<char> {
    s.chars().collect()
}

fn strings(v: &[&str]) -> Vec<String> {
    v.iter().map(|s| s.to_string()).collect()
}

fn header() -> Vec<&'static str> {
    vec![
        "#NAME \"Sample\"",
        "#INDEX_LANGUAGE \"English\"",
        "#CONTENTS_LANGUAGE \"Russian\"",
        "",
    ]
}

#[test]
fn tag_vocabulary_classifies() {
    let cases = [
        ("[com]", TagKind::Comment),
        ("[/com]", TagKind::ComClose),
        ("[m1]", TagKind::M1),
        ("[m2]", TagKind::M2),
        ("[/m]", TagKind::MClose),
        ("[p]", TagKind::P),
        ("[/p]", TagKind::PClose),
        ("[i]", TagKind::I),
        ("[/i]", TagKind::IClose),
        ("[ex]", TagKind::Ex),
        ("[/ex]", TagKind::ExClose),
        ("[c]", TagKind::C),
        ("[/c]", TagKind::CClose),
        ("[b]", TagKind::B),
        ("[/b]", TagKind::BClose),
        ("[/lang]", TagKind::LangIDClose),
    ];
    for (t, k) in cases.iter() {
        assert_eq!(tag_type(t), *k);
    }
}

#[test]
fn language_span_classifies_by_prefix() {
    assert_eq!(tag_type("[lang id=1]"), TagKind::LangID);
    assert_eq!(tag_type("[lang id=ru]"), TagKind::LangID);
    assert_eq!(tag_type("[lang id="), TagKind::LangID);
    assert_eq!(tag_type("[lang]"), TagKind::Unknown);
}

#[test]
fn unknown_tags_classify_as_unknown() {
    assert_eq!(tag_type("[xyz]"), TagKind::Unknown);
    assert_eq!(tag_type("[B]"), TagKind::Unknown);
    assert_eq!(tag_type("[b] "), TagKind::Unknown);
    assert_eq!(tag_type(""), TagKind::Unknown);
    assert_eq!(tag_type("[/lang id=1]"), TagKind::Unknown);
}

#[test]
fn roman_numerals_have_values() {
    assert_eq!(roman_to_u8("I"), 1);
    assert_eq!(roman_to_u8("\tIV "), 4);
    assert_eq!(roman_to_u8("VIII"), 8);
    assert_eq!(roman_to_u8("X"), 10);
    assert_eq!(roman_to_u8("XI"), 0);
    assert_eq!(roman_to_u8("i"), 0);
    assert_eq!(roman_to_u8(""), 0);
}

#[test]
fn line_roles_follow_rule_order() {
    assert_eq!(line_type(""), LineRole::EmptyLine);
    assert_eq!(line_type("#NAME \"x\""), LineRole::Name);
    assert_eq!(line_type("#INDEX_LANGUAGE \"x\""), LineRole::Index);
    assert_eq!(line_type("#CONTENTS_LANGUAGE \"x\""), LineRole::Lang);
    assert_eq!(line_type("apple"), LineRole::Key);
    assert_eq!(line_type("#NAME"), LineRole::Key);
    assert_eq!(line_type("\tIII"), LineRole::RomanNumber);
    assert_eq!(line_type("\t II "), LineRole::RomanNumber);
    assert_eq!(line_type("\ta fruit"), LineRole::Text);
    assert_eq!(line_type("\t[m1]a fruit[/m]"), LineRole::M1);
    assert_eq!(line_type("\t[m2]a fruit[/m]"), LineRole::M2);
    assert_eq!(line_type("\t[p]n[/p] [com]note[/com]"), LineRole::Comment);
    assert_eq!(line_type("\t[p]n[/p]"), LineRole::Invalid);
}

#[test]
fn transition_table() {
    assert!(can_follow(LineRole::Begin, LineRole::Name));
    assert!(!can_follow(LineRole::Begin, LineRole::Key));
    assert!(can_follow(LineRole::Lang, LineRole::EmptyLine));
    assert!(can_follow(LineRole::EmptyLine, LineRole::EmptyLine));
    assert!(can_follow(LineRole::Key, LineRole::RomanNumber));
    assert!(!can_follow(LineRole::Key, LineRole::M2));
    assert!(!can_follow(LineRole::Key, LineRole::EmptyLine));
    assert!(can_follow(LineRole::M2, LineRole::Key));
    assert!(!can_follow(LineRole::RomanNumber, LineRole::Key));
    assert!(!can_follow(LineRole::Invalid, LineRole::Text));
}

#[test]
fn scan_unknown_tag_and_repair() {
    let line = "\tfoo [xyz] bar";
    let e = parse_line(line);
    assert_eq!(e, Some(ScanError::UnknownTag(chars("[xyz]"))));
    assert_eq!(e.unwrap().message(), "unknown tag '[xyz]'");
    let r = fix_up_line(line);
    assert_eq!(r.line, "\tfoo \\[xyz\\] bar");
    assert_eq!(r.substitutions.len(), 1);
    assert_eq!(r.substitutions[0].token, "[xyz]");
    assert_eq!(r.substitutions[0].replacement, "\\[xyz\\]");
}

#[test]
fn scan_known_tags_clean_and_repair_unchanged() {
    let line = "\t[b]bold[/b]";
    assert_eq!(parse_line(line), None);
    let r = fix_up_line(line);
    assert_eq!(r.line, line);
    assert!(r.substitutions.is_empty());
}

#[test]
fn scan_mismatched_closer() {
    let e = parse_line("\t[b]bold[/i]");
    assert_eq!(e, Some(ScanError::Mismatch(TagKind::B, TagKind::IClose)));
    assert_eq!(e.clone().unwrap().message(), "opening tag 'B' closing 'IClose'");
    assert_eq!(format!("{:?}", TagKind::B), "B");
    assert_eq!(format!("{:?}", TagKind::IClose), "IClose");
}

#[test]
fn scan_reports_each_problem() {
    assert_eq!(parse_line("[b[i]"), Some(ScanError::BracketInsideTag(chars("[b"))));
    assert_eq!(parse_line("a]"), Some(ScanError::OrphanClose));
    assert_eq!(parse_line("x[/b]"), Some(ScanError::SuperfluousClose(chars("[/b]"))));
    assert_eq!(parse_line("[b]x[/b"), Some(ScanError::UnfinishedTag(chars("[/b"))));
    assert_eq!(
        parse_line("[m1][i]x"),
        Some(ScanError::Unclosed(vec![TagKind::M1, TagKind::I]))
    );
}

#[test]
fn scan_escapes_and_nesting() {
    assert_eq!(parse_line("\\[not a tag\\]"), None);
    assert_eq!(parse_line("[m2][i]x[/i][/m]"), None);
    assert_eq!(parse_line("[lang id=2]word[/lang]"), None);
    assert_eq!(parse_line("[com][c]x[/c][/com]"), None);
    assert_eq!(parse_line("[lang id=2]x[/m]"), Some(ScanError::Mismatch(TagKind::LangID, TagKind::MClose)));
    assert_eq!(parse_line("[m1]x[/b]"), Some(ScanError::Mismatch(TagKind::M1, TagKind::BClose)));
    assert_eq!(parse_line("  [b]x[/b]  "), None);
    assert_eq!(parse_line("[b]x[/b  "), Some(ScanError::UnfinishedTag(chars("[/b"))));
    assert_eq!(parse_line(""), None);
}

#[test]
fn repair_escapes_orphans_and_keeps_open_token() {
    assert_eq!(fix_up_line("a]b").line, "a\\]b");
    assert_eq!(fix_up_line("x [b]y [ab").line, "x [b]y [ab");
    assert_eq!(fix_up_line("[a\\]]").line, "\\[a\\\\]");
    assert_eq!(fix_up_line("[lang id=5]x[/lang]").line, "[lang id=5]x[/lang]");
    let r = fix_up_line("[q]x[r]");
    assert_eq!(r.line, "\\[q\\]x\\[r\\]");
    assert_eq!(r.substitutions.len(), 2);
}

#[test]
fn repair_twice_is_repair_once() {
    for line in ["\tfoo [xyz] bar", "a]b[c", "[ab[cd]", "[x\\]]y", "\\[a\\]", "[b]x[/b]", "[a\\[b]", "[q\\[x"] {
        let once = repair_line(line).line;
        let twice = repair_line(&once).line;
        assert_eq!(once, twice);
    }
}

#[test]
fn document_pass_skips_lines_without_open_bracket() {
    let r = repair_line("only ] closer");
    assert_eq!(r.line, "only ] closer");
    let lines = strings(&["a ] b", "[zz]", "[i]k[/i]"]);
    let fixed = fix_invalid_tags(&lines);
    assert_eq!(fixed.len(), 3);
    assert_eq!(fixed[0].line, "a ] b");
    assert_eq!(fixed[1].line, "\\[zz\\]");
    assert_eq!(fixed[2].line, "[i]k[/i]");
}

#[test]
fn duplicate_headword_cites_both_lines() {
    let mut v: Vec<String> = header().iter().map(|s| s.to_string()).collect();
    for idx in 4..=50usize {
        if idx == 10 || idx == 50 {
            v.push("apple".to_string());
        } else if idx % 2 == 0 {
            v.push(format!("word{}", idx));
        } else {
            v.push("\tmeaning".to_string());
        }
    }
    v.push("\tmeaning".to_string());
    let d = check_document(&v);
    assert_eq!(d, vec![Diagnostic::DuplicateKey { line: 50, first: 10 }]);
}

#[test]
fn duplicate_keeps_first_occurrence() {
    let mut v: Vec<String> = header().iter().map(|s| s.to_string()).collect();
    for w in ["apple", "\ta", "apple ", "\tb", "apple", "\tc"] {
        v.push(w.to_string());
    }
    let d = check_document(&v);
    assert_eq!(
        d,
        vec![
            Diagnostic::DuplicateKey { line: 6, first: 4 },
            Diagnostic::DuplicateKey { line: 8, first: 4 },
        ]
    );
}

#[test]
fn blank_after_headword_is_illegal() {
    let mut v: Vec<String> = header().iter().map(|s| s.to_string()).collect();
    v.push("apple".to_string());
    v.push("".to_string());
    let d = check_document(&v);
    assert_eq!(
        d,
        vec![Diagnostic::IllegalTransition {
            line: 5,
            prev: LineRole::Key,
            curr: LineRole::EmptyLine,
        }]
    );
}

#[test]
fn well_formed_document_has_no_diagnostics() {
    let mut v: Vec<String> = header().iter().map(|s| s.to_string()).collect();
    for w in [
        "",
        "apple",
        "\t[m1][p]n[/p] [b]apple[/b][/m]",
        "\t[m2][ex]an apple a day[/ex][/m]",
        "\tII",
        "\t[m1][lang id=1]Apfel[/lang][/m]",
        "pear",
        "\t[com]rare[/com]",
        "\ta fruit",
    ] {
        v.push(w.to_string());
    }
    assert!(check_document(&v).is_empty());
}

#[test]
fn check_reports_in_line_order() {
    let lines = strings(&["apple", "\t[zz]", "\t[p]x"]);
    let d = check_document(&lines);
    assert_eq!(
        d,
        vec![
            Diagnostic::IllegalTransition { line: 0, prev: LineRole::Begin, curr: LineRole::Key },
            Diagnostic::UnrecognizedLine { line: 1 },
            Diagnostic::IllegalTransition { line: 1, prev: LineRole::Key, curr: LineRole::Invalid },
            Diagnostic::BadTags { line: 1, error: ScanError::UnknownTag(chars("[zz]")) },
            Diagnostic::UnrecognizedLine { line: 2 },
            Diagnostic::IllegalTransition { line: 2, prev: LineRole::Invalid, curr: LineRole::Invalid },
            Diagnostic::BadTags { line: 2, error: ScanError::Unclosed(vec![TagKind::P]) },
        ]
    );
}

#[test]
fn split_lines_like_bufread() {
    assert_eq!(split_lines("a\r\nb\n\nc"), strings(&["a", "b", "", "c"]));
    assert_eq!(split_lines("a\n"), strings(&["a"]));
    assert_eq!(split_lines(""), Vec::<String>::new());
    assert_eq!(split_lines("\n"), strings(&[""]));
    assert_eq!(split_lines("x\r"), strings(&["x\r"]));
}

#[test]
fn decode_utf16le_document() {
    let text = "#NAME \"\u{0410}\"\r\nkey\n";
    let mut bytes: Vec<u8> = Vec::new();
    for u in text.encode_utf16() {
        bytes.extend_from_slice(&u.to_le_bytes());
    }
    assert_eq!(decode_document(&bytes), Some(strings(&["#NAME \"\u{0410}\"", "key"])));
    let mut with_bom = vec![0xffu8, 0xfe];
    with_bom.extend_from_slice(&bytes);
    assert_eq!(decode_document(&with_bom), Some(strings(&["#NAME \"\u{0410}\"", "key"])));
    assert_eq!(decode_document(&[0x61, 0x00, 0x00, 0xd8]), None);
    assert_eq!(decode_document(&[0x61, 0x00, 0x62]), None);
}

#[test]
fn sort_moves_blocks_whole_and_stably() {
    let mut v: Vec<String> = header().iter().map(|s| s.to_string()).collect();
    for w in ["pear", "\tp", "apple", "\ta1", "\ta2", "pear", "\tp2", "fig", "\tf"] {
        v.push(w.to_string());
    }
    let sorted = dict_grammar::sort::sort_file(&v);
    let mut expected: Vec<String> = header().iter().map(|s| s.to_string()).collect();
    for w in ["apple", "\ta1", "\ta2", "fig", "\tf", "pear", "\tp", "pear", "\tp2"] {
        expected.push(w.to_string());
    }
    assert_eq!(sorted, expected);
}

#[test]
fn sort_keeps_document_without_headwords() {
    let v = strings(&["#NAME \"x\"", "", "\tloose"]);
    assert_eq!(dict_grammar::sort::sort_file(&v), v);
    assert_eq!(dict_grammar::sort::sort_file(&Vec::new()), Vec::<String>::new());
}

#[test]
fn messages_for_each_problem() {
    assert_eq!(
        ScanError::BracketInsideTag(chars("[b")).message(),
        "opening bracket inside tag: '[b['"
    );
    assert_eq!(ScanError::OrphanClose.message(), "orphan closing bracket");
    assert_eq!(
        ScanError::SuperfluousClose(chars("[/b]")).message(),
        "superfluous closing tag '[/b]'"
    );
    assert_eq!(ScanError::UnfinishedTag(chars("[/b")).message(), "unfinished tag '[/b'");
    assert_eq!(ScanError::Unclosed(vec![TagKind::M1]).message(), "unclosed tags: [M1]");
    assert_eq!(
        ScanError::Unclosed(vec![TagKind::LangID, TagKind::Comment, TagKind::I]).message(),
        "unclosed tags: [LangID, Comment, I]"
    );
}

#[test]
fn repair_keeps_escaped_bracket_inside_token() {
    let once = fix_up_line("\t[a\\[b]");
    assert_eq!(once.line, "\t\\[a\\[b\\]");
    assert_eq!(once.substitutions[0].token, "[a\\[b]");
    let twice = fix_up_line(&once.line);
    assert_eq!(twice.line, once.line);
    assert!(twice.substitutions.is_empty());
}

#[test]
fn escaped_brackets_in_text_round_trip() {
    for line in ["\t\\[1\\] [b]x[/b]", "a \\] b [i]\\[c[/i]", "[p]\\[\\][/p]"] {
        let r = repair_line(line);
        assert_eq!(r.line, line);
        assert!(r.substitutions.is_empty());
        assert_eq!(parse_line(line), None);
    }
}

#[test]
fn key_index_keeps_first_line() {
    let mut k = KeyIndex::new();
    assert_eq!(k.first_line(&chars("pear")), None);
    k.insert(chars("pear"), 7);
    k.insert(chars("apple"), 9);
    k.insert(chars("fig"), 11);
    assert_eq!(k.first_line(&chars("pear")), Some(7));
    assert_eq!(k.first_line(&chars("apple")), Some(9));
    assert_eq!(k.first_line(&chars("fig")), Some(11));
    assert_eq!(k.first_line(&chars("figs")), None);
    assert_eq!(k.first_line(&chars("")), None);
}

#[test]
fn large_document_checks_and_sorts() {
    let mut v: Vec<String> = header().iter().map(|s| s.to_string()).collect();
    let n = 20000usize;
    for i in 0..n {
        v.push(format!("w{:05}", (i * 7919) % n));
        v.push("\t[m1]text[/m]".to_string());
    }
    v.push("w00000".to_string());
    v.push("\tagain".to_string());
    let d = check_document(&v);
    assert_eq!(d, vec![Diagnostic::DuplicateKey { line: 4 + 2 * n, first: 4 }]);
    let sorted = dict_grammar::sort::sort_file(&v);
    assert_eq!(sorted.len(), v.len());
    assert_eq!(sorted[4], "w00000");
    assert_eq!(sorted[6], "w00000");
    assert_eq!(sorted[8], "w00001");
}
