use ahash::AHashMap;
use phicode_transpiler::literals::{restore, Protected};
use phicode_transpiler::threat_detector::ThreatDetector;
use phicode_transpiler::transpiler::SymbolTranspiler;

fn transpiler_for(pairs: &[(&str, &str)]) -> SymbolTranspiler {
    let mut map: AHashMap<String, String> = AHashMap::new();
    for (k, v) in pairs {
        map.insert(k.to_string(), v.to_string());
    }
    let mut t = SymbolTranspiler::new();
    t.configure(map).expect("mapping should compile");
    t
}

fn run(pairs: &[(&str, &str)], source: &str, bypass: bool) -> Result<String, String> {
    let detector = ThreatDetector::new().expect("detector builds");
    let mut t = transpiler_for(pairs);
    t.transpile(source, &detector, bypass)
}

fn chars(s: &str) -> Vec<char> {
    s.chars().collect()
}

#[test]
fn empty_mapping_leaves_input_unchanged() {
    let detector = ThreatDetector::new().unwrap();
    let mut fresh = SymbolTranspiler::new();
    let src = "x = 'a' # c\nλ → if\n\"\"\"doc\"\"\"";
    assert_eq!(fresh.transpile(src, &detector, false).unwrap(), src);
    assert_eq!(run(&[], src, false).unwrap(), src);
    assert_eq!(run(&[], "", true).unwrap(), "");
}

#[test]
fn longest_match_wins() {
    assert_eq!(run(&[("ab", "X"), ("abc", "Y")], "abc d", false).unwrap(), "Y d");
    assert_eq!(run(&[("abc", "Y"), ("ab", "X")], "ab abc", false).unwrap(), "X Y");
    assert_eq!(run(&[("=", "A"), ("==", "B")], "a==b=c", false).unwrap(), "aBbAc");
    // `abc` is an identifier key and `d` continues the identifier: no key fires.
    let joined = run(&[("ab", "X"), ("abc", "Y")], "abcd", false).unwrap();
    assert_ne!(joined, "Xcd");
    assert_eq!(joined, "abcd");
}

#[test]
fn longest_match_across_boundary_rules() {
    assert_eq!(run(&[("-", "minus"), ("->", "ARROW")], "a->b-c", false).unwrap(), "aARROWbminusc");
}

#[test]
fn identifier_keys_respect_word_boundaries() {
    assert_eq!(run(&[("if", "WHEN")], "gift", false).unwrap(), "gift");
    assert_eq!(run(&[("if", "WHEN")], "if x:", false).unwrap(), "WHEN x:");
    assert_eq!(run(&[("if", "WHEN")], "if_x iff (if)", false).unwrap(), "if_x iff (WHEN)");
}

#[test]
fn symbol_keys_match_anywhere() {
    assert_eq!(run(&[("→", "->")], "a→b", false).unwrap(), "a->b");
    assert_eq!(run(&[("→", "->")], "x→→y", false).unwrap(), "x->->y");
    // `λ` is alphabetic, so it is an identifier key.
    assert_eq!(run(&[("λ", "lambda")], "xλy λ", false).unwrap(), "xλy lambda");
}

#[test]
fn comments_are_protected() {
    assert_eq!(
        run(&[("λ", "lambda")], "# λ comment\nλ x", false).unwrap(),
        "# λ comment\nlambda x"
    );
}

#[test]
fn strings_are_protected() {
    let m = [("λ", "lambda")];
    assert_eq!(run(&m, "λ 'λ' \"λ\" λ", false).unwrap(), "lambda 'λ' \"λ\" lambda");
    assert_eq!(run(&m, "\"\"\"λ\nλ\"\"\" λ", false).unwrap(), "\"\"\"λ\nλ\"\"\" lambda");
    assert_eq!(run(&m, "'''a\\'''λ''' λ", false).unwrap(), "'''a\\'''λ''' lambda");
    assert_eq!(run(&m, "'a\\'λ' λ", false).unwrap(), "'a\\'λ' lambda");
    assert_eq!(run(&m, "f\"λ\" rb'λ' λ", false).unwrap(), "f\"λ\" rb'λ' lambda");
}

#[test]
fn unterminated_literals_are_protected_to_where_they_stop() {
    let m = [("λ", "lambda")];
    assert_eq!(run(&m, "λ \"λ\nλ", false).unwrap(), "lambda \"λ\nlambda");
    assert_eq!(run(&m, "λ '''λ\nλ", false).unwrap(), "lambda '''λ\nλ");
    assert_eq!(run(&m, "λ # λ", false).unwrap(), "lambda # λ");
}

#[test]
fn security_gate_blocks_dangerous_replacement() {
    let m = [("⚡", "eval(")];
    let err = run(&m, "x = ⚡1)", false).unwrap_err();
    assert_eq!(err, "Security: Dangerous pattern detected during transpilation");
    assert_eq!(run(&m, "x = ⚡1)", true).unwrap(), "x = eval(1)");
}

#[test]
fn security_gate_ignores_symbols_in_literals() {
    let m = [("⚡", "eval(")];
    assert_eq!(run(&m, "# ⚡\n'⚡'", false).unwrap(), "# ⚡\n'⚡'");
}

#[test]
fn replacements_are_not_rescanned() {
    assert_eq!(run(&[("a", "b"), ("b", "c")], "a b", false).unwrap(), "b c");
    assert_eq!(run(&[("→", "←"), ("←", "→")], "→←", false).unwrap(), "←→");
}

#[test]
fn duplicate_keys_last_configured_wins() {
    let detector = ThreatDetector::new().unwrap();
    let mut map: AHashMap<String, String> = AHashMap::new();
    map.insert("λ".to_string(), "first".to_string());
    map.insert("λ".to_string(), "second".to_string());
    let mut t = SymbolTranspiler::new();
    t.configure(map).unwrap();
    assert_eq!(t.transpile("λ", &detector, false).unwrap(), "second");
}

#[test]
fn empty_symbol_is_refused_and_previous_mapping_kept() {
    let detector = ThreatDetector::new().unwrap();
    let mut t = transpiler_for(&[("λ", "lambda")]);
    let mut bad: AHashMap<String, String> = AHashMap::new();
    bad.insert(String::new(), "x".to_string());
    bad.insert("→".to_string(), "->".to_string());
    assert_eq!(t.configure(bad).unwrap_err(), "Regex compilation failed: empty symbol in mapping");
    assert_eq!(t.transpile("λ →", &detector, false).unwrap(), "lambda →");
}

#[test]
fn reconfiguring_replaces_mapping() {
    let detector = ThreatDetector::new().unwrap();
    let mut t = transpiler_for(&[("λ", "lambda")]);
    let mut map: AHashMap<String, String> = AHashMap::new();
    map.insert("→".to_string(), "->".to_string());
    t.configure(map).unwrap();
    assert_eq!(t.transpile("λ →", &detector, false).unwrap(), "λ ->");
}

#[test]
fn threat_detector_matches_denylist_substrings() {
    let d = ThreatDetector::new().unwrap();
    assert!(d.is_dangerous("eval("));
    assert!(d.is_dangerous("x = os.system('ls')"));
    assert!(d.is_dangerous("import subprocess.run"));
    assert!(d.is_dangerous("__import__"));
    assert!(!d.is_dangerous("evaluate"));
    assert!(!d.is_dangerous("EVAL("));
    assert!(!d.is_dangerous(""));
    assert!(!d.is_dangerous("lambda"));
}

#[test]
fn protect_splits_code_and_literals() {
    let p = Protected::protect(&chars("a = 'x' # c\nb"));
    assert_eq!(p.code, vec![chars("a = "), chars(" "), chars("\nb")]);
    assert_eq!(p.literals, vec![chars("'x'"), chars("# c")]);
}

#[test]
fn protect_without_literals_keeps_one_region() {
    let p = Protected::protect(&chars("abc"));
    assert_eq!(p.code, vec![chars("abc")]);
    assert!(p.literals.is_empty());
    let e = Protected::protect(&chars(""));
    assert_eq!(e.code, vec![chars("")]);
}

#[test]
fn prefix_letters_inside_identifiers_are_code() {
    let p = Protected::protect(&chars("ab\"x\""));
    assert_eq!(p.code, vec![chars("ab"), chars("")]);
    assert_eq!(p.literals, vec![chars("\"x\"")]);
    let q = Protected::protect(&chars(" br'x'"));
    assert_eq!(q.literals, vec![chars("br'x'")]);
}

#[test]
fn restore_round_trips_and_keeps_literals_in_place() {
    let src = "x = \"λ\" + y # note\nz";
    let p = Protected::protect(&chars(src));
    let back: String = restore(&p.code, &p.literals).unwrap().into_iter().collect();
    assert_eq!(back, src);
    let rewritten: Vec<Vec<char>> = p.code.iter().map(|c| {
        let mut v = c.clone();
        v.extend(chars("<!0>"));
        v
    }).collect();
    let out: String = restore(&rewritten, &p.literals).unwrap().into_iter().collect();
    assert_eq!(out, "x = <!0>\"λ\" + y <!0># note\nz<!0>");
}

#[test]
fn restore_rejects_mismatched_counts() {
    let err = restore(&vec![chars("a")], &vec![chars("'b'")]).unwrap_err();
    assert_eq!(err, "Restoration inconsistency: placeholder count mismatch");
    assert!(restore(&vec![], &vec![]).is_err());
}

#[test]
fn input_without_key_characters_is_returned_as_is() {
    let m = [("λ", "lambda"), ("→", "->")];
    assert_eq!(run(&m, "x = 'a' # b\ny", false).unwrap(), "x = 'a' # b\ny");
    assert_eq!(run(&m, "", false).unwrap(), "");
}
