//! Substring denylist scanner over candidate replacement text.
use aho_corasick::AhoCorasick;
use vstd::prelude::*;
use vstd::string::StringExecFns;
use crate::text::contains_sub;

verus! {

#[verifier::external_type_specification]
#[verifier::external_body]
pub struct ExAhoCorasick(aho_corasick::AhoCorasick);

/// The patterns an Aho-Corasick automaton was built from, in order.
pub uninterp spec fn automaton_patterns(a: AhoCorasick) -> Seq<Seq<char>>;

/// Relies on `AhoCorasick::new`: on success the automaton searches for exactly
/// the given patterns; a failure is reported through its `BuildError`, here as
/// text. A build fails only when an internal limit on the number of states or
/// patterns is exceeded, which a hundred patterns of at most a hundred bytes
/// are far below.
#[verifier::external_body]
fn build_automaton(patterns: &Vec<String>) -> (r: Result<AhoCorasick, String>)
    ensures
        r is Ok ==> automaton_patterns(r->Ok_0) == patterns@.map_values(|p: String| p@),
        patterns@.len() <= 100 && (forall|i: int| 0 <= i < patterns@.len() ==> #[trigger] patterns@[i]@.len() <= 100)
            ==> r is Ok,
{
    AhoCorasick::new(patterns).map_err(|e| e.to_string())
}

/// Relies on `AhoCorasick::is_match`: true if and only if one of the automaton's
/// patterns occurs somewhere in the haystack.
#[verifier::external_body]
fn automaton_is_match(a: &AhoCorasick, haystack: &str) -> (r: bool)
    ensures
        r == some_pattern_occurs(automaton_patterns(*a), haystack@),
{
    a.is_match(haystack)
}

/// Some entry of `patterns` occurs in `text`.
pub open spec fn some_pattern_occurs(patterns: Seq<Seq<char>>, text: Seq<char>) -> bool {
    exists|i: int| 0 <= i < patterns.len() && contains_sub(text, #[trigger] patterns[i])
}

/// The fixed denylist of dangerous constructs.
pub open spec fn denylist() -> Seq<Seq<char>> {
    seq![
        "eval("@, "eval ("@, "exec("@, "exec ("@, "compile("@, "compile ("@,
        "getattr(__builtins__"@, "getattr(__builtins__,"@, "globals("@, "globals ("@,
        "locals("@, "locals ("@, "os.system("@, "os.system ("@, "subprocess."@,
        "__import__"@, "vars("@, "vars ("@, "dir("@, "dir ("@, "open("@, "open ("@,
        "input("@, "raw_input("@,
    ]
}

/// `text` contains some denylist entry as a (case-sensitive) substring.
pub open spec fn dangerous(text: Seq<char>) -> bool {
    some_pattern_occurs(denylist(), text)
}

pub struct ThreatDetector {
    detector: AhoCorasick,
}

impl ThreatDetector {
    /// The detector searches for exactly the denylist entries.
    pub closed spec fn wf(&self) -> bool {
        automaton_patterns(self.detector) == denylist()
    }

    fn denylist_entries() -> (r: Vec<String>)
        ensures
            r@.map_values(|p: String| p@) == denylist(),
            r.len() <= 100,
            forall|i: int| 0 <= i < r.len() ==> #[trigger] r@[i]@.len() <= 100,
    {
        let mut v: Vec<String> = Vec::new();
        v.push(String::from_str("eval("));
        v.push(String::from_str("eval ("));
        v.push(String::from_str("exec("));
        v.push(String::from_str("exec ("));
        v.push(String::from_str("compile("));
        v.push(String::from_str("compile ("));
        v.push(String::from_str("getattr(__builtins__"));
        v.push(String::from_str("getattr(__builtins__,"));
        v.push(String::from_str("globals("));
        v.push(String::from_str("globals ("));
        v.push(String::from_str("locals("));
        v.push(String::from_str("locals ("));
        v.push(String::from_str("os.system("));
        v.push(String::from_str("os.system ("));
        v.push(String::from_str("subprocess."));
        v.push(String::from_str("__import__"));
        v.push(String::from_str("vars("));
        v.push(String::from_str("vars ("));
        v.push(String::from_str("dir("));
        v.push(String::from_str("dir ("));
        v.push(String::from_str("open("));
        v.push(String::from_str("open ("));
        v.push(String::from_str("input("));
        v.push(String::from_str("raw_input("));
        assert(v@.map_values(|p: String| p@) =~= denylist());
        proof {
            reveal_strlit("eval(");
            reveal_strlit("eval (");
            reveal_strlit("exec(");
            reveal_strlit("exec (");
            reveal_strlit("compile(");
            reveal_strlit("compile (");
            reveal_strlit("getattr(__builtins__");
            reveal_strlit("getattr(__builtins__,");
            reveal_strlit("globals(");
            reveal_strlit("globals (");
            reveal_strlit("locals(");
            reveal_strlit("locals (");
            reveal_strlit("os.system(");
            reveal_strlit("os.system (");
            reveal_strlit("subprocess.");
            reveal_strlit("__import__");
            reveal_strlit("vars(");
            reveal_strlit("vars (");
            reveal_strlit("dir(");
            reveal_strlit("dir (");
            reveal_strlit("open(");
            reveal_strlit("open (");
            reveal_strlit("input(");
            reveal_strlit("raw_input(");
            assert forall|i: int| 0 <= i < v.len() implies #[trigger] v@[i]@.len() <= 100 by {
                assert(v@[i]@ == denylist()[i]);
            }
        }
        v
    }

    /// Builds the detector over the fixed denylist, which always succeeds.
    pub fn new() -> (r: Result<Self, String>)
        ensures
            r is Ok,
            r->Ok_0.wf(),
    {
        let entries = Self::denylist_entries();
        match build_automaton(&entries) {
            Ok(detector) => Ok(ThreatDetector { detector }),
            Err(e) => {
                let mut msg = String::from_str("Threat detector: ");
                msg.append(e.as_str());
                Err(msg)
            },
        }
    }

    /// True if and only if `python_code` contains a denylist entry.
    pub fn is_dangerous(&self, python_code: &str) -> (r: bool)
        requires
            self.wf(),
        ensures
            r == dangerous(python_code@),
    {
        automaton_is_match(&self.detector, python_code)
    }
}

} // verus!
