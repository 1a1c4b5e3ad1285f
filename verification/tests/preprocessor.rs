use screeper::preprocessor::dispatch;
use screeper::preprocessor::parse_directive;
use screeper::preprocessor::preprocess_file;
use screeper::preprocessor::process_line;
use screeper::preprocessor::run_chain;
use screeper::preprocessor::PreprocessIterator;
use screeper::preprocessor::Preprocessor;

fn lines_of(strs: &[&str]) -> Vec<String> {
    strs.iter().map(|s| String::from(*s)).collect()
}

/// Prefixes every line that does not already carry the configured prefix, by
/// claiming the line and injecting the prefixed copy in its place.
struct PrefixPreprocessor {
    prefix: String,
}

impl PrefixPreprocessor {
    fn new(prefix: &str) -> PrefixPreprocessor {
        PrefixPreprocessor { prefix: String::from(prefix) }
    }
}

impl Preprocessor for PrefixPreprocessor {
    fn process(&mut self, file: &mut PreprocessIterator) -> bool {
        if !self.prefix.is_empty() && !file.current().starts_with(&self.prefix) {
            let replacement = format!("{}{}", self.prefix, file.current());
            file.reprocess_lines(vec![replacement]);
            true
        } else {
            false
        }
    }

    fn activate(&mut self, params: Vec<String>, _file: &mut PreprocessIterator) {
        match params.into_iter().next() {
            Some(prefix) => self.prefix = prefix,
            None => self.prefix.clear(),
        }
    }
}

/// Records every line it is offered and every activation it receives, and
/// claims a line exactly when told to.
struct Recorder {
    claim: bool,
    seen: Vec<String>,
    activations: Vec<Vec<String>>,
}

impl Recorder {
    fn new(claim: bool) -> Recorder {
        Recorder { claim, seen: Vec::new(), activations: Vec::new() }
    }
}

impl Preprocessor for Recorder {
    fn process(&mut self, file: &mut PreprocessIterator) -> bool {
        self.seen.push(file.current().clone());
        self.claim
    }

    fn activate(&mut self, params: Vec<String>, _file: &mut PreprocessIterator) {
        self.activations.push(params);
    }
}

/// Claims every line and injects a fresh copy of it, so the run never drains
/// on its own.
struct EndlessInjector;

impl Preprocessor for EndlessInjector {
    fn process(&mut self, file: &mut PreprocessIterator) -> bool {
        let again = file.current().clone();
        file.reprocess_lines(vec![again]);
        true
    }

    fn activate(&mut self, _params: Vec<String>, _file: &mut PreprocessIterator) {}
}

#[test]
fn test_demo_preprocessor() {
    let lines = lines_of(&["molly", "joe", "frank", "lisa", "joe"]);
    let names = vec![String::from("setprefix")];
    let mut stages = vec![PrefixPreprocessor::new("- ")];

    let out = preprocess_file(lines, &names, &mut stages, 100).unwrap();

    assert_eq!(out.join("\n"), "- molly\n- joe\n- frank\n- lisa\n- joe");
}

#[test]
fn injection_order_preserved() {
    let mut it = PreprocessIterator::new(lines_of(&["z"]));
    it.reprocess_lines(lines_of(&["x", "y"]));

    assert_eq!(it.next().unwrap(), "x");
    assert_eq!(it.current(), "x");
    assert_eq!(it.next().unwrap(), "y");
    assert_eq!(it.next().unwrap(), "z");
    assert!(it.next().is_none());
}

#[test]
fn nested_batches_drain_innermost_first() {
    let mut it = PreprocessIterator::new(Vec::new());
    it.reprocess_lines(lines_of(&["x", "y"]));

    assert_eq!(it.next().unwrap(), "x");
    it.reprocess_lines(lines_of(&["p", "q"]));
    assert_eq!(it.next().unwrap(), "p");
    assert_eq!(it.next().unwrap(), "q");
    assert_eq!(it.next().unwrap(), "y");
    assert!(it.next().is_none());
}

#[test]
fn skip_stops_the_chain() {
    let mut it = PreprocessIterator::new(lines_of(&["a line"]));
    it.next();

    let mut stages = vec![Recorder::new(true), Recorder::new(false)];
    let claimed = run_chain(&mut stages, &mut it);

    assert_eq!(claimed, Some(0));
    assert_eq!(stages[0].seen, vec![String::from("a line")]);
    assert!(stages[1].seen.is_empty());
}

#[test]
fn chain_runs_in_registration_order() {
    let mut it = PreprocessIterator::new(lines_of(&["a line"]));
    it.next();

    let mut stages = vec![Recorder::new(false), Recorder::new(false)];
    let claimed = run_chain(&mut stages, &mut it);

    assert_eq!(claimed, None);
    assert_eq!(stages[0].seen, vec![String::from("a line")]);
    assert_eq!(stages[1].seen, vec![String::from("a line")]);
}

#[test]
fn directive_isolation() {
    let lines = lines_of(&["a", "#other x", "b"]);
    let names = vec![String::from("other")];
    let mut stages = vec![Recorder::new(false)];

    let out = preprocess_file(lines, &names, &mut stages, 100).unwrap();

    assert_eq!(out, lines_of(&["a", "b"]));
    assert_eq!(stages[0].seen, lines_of(&["a", "b"]));
    assert_eq!(stages[0].activations, vec![lines_of(&["x"])]);
}

#[test]
fn quoted_parameter_parsing() {
    let (name, params) = parse_directive("#setprefix \"a b\" c").unwrap();

    assert_eq!(name, "setprefix");
    assert_eq!(params, lines_of(&["a b", "c"]));
}

#[test]
fn directive_without_parameters() {
    let (name, params) = parse_directive("#reset").unwrap();

    assert_eq!(name, "reset");
    assert!(params.is_empty());
}

#[test]
fn directive_allows_leading_blanks() {
    let (name, params) = parse_directive("  \t#pad left right\n").unwrap();

    assert_eq!(name, "pad");
    assert_eq!(params, lines_of(&["left", "right"]));
}

#[test]
fn unterminated_quote_is_no_directive() {
    assert!(parse_directive("#setprefix \"a b").is_none());
}

#[test]
fn empty_name_is_no_directive() {
    assert!(parse_directive("#").is_none());
    assert!(parse_directive("# late name").is_none());
}

#[test]
fn ordinary_line_is_no_directive() {
    assert!(parse_directive("no directive here").is_none());
    assert!(parse_directive("  leading blanks # not first").is_none());
}

#[test]
fn malformed_directive_stays_literal() {
    let lines = lines_of(&["#setprefix \"a b", "plain"]);
    let names: Vec<String> = Vec::new();
    let mut stages: Vec<Recorder> = Vec::new();

    let out = preprocess_file(lines, &names, &mut stages, 100).unwrap();

    assert_eq!(out, lines_of(&["#setprefix \"a b", "plain"]));
}

#[test]
fn unknown_directive_is_ignored() {
    let lines = lines_of(&["#nosuchstage x", "plain"]);
    let names = vec![String::from("other")];
    let mut stages = vec![Recorder::new(false)];

    let out = preprocess_file(lines, &names, &mut stages, 100).unwrap();

    assert_eq!(out, lines_of(&["plain"]));
    assert!(stages[0].activations.is_empty());
    assert_eq!(stages[0].seen, lines_of(&["plain"]));
}

#[test]
fn dispatch_activates_first_matching_name() {
    let mut it = PreprocessIterator::new(Vec::new());
    let names = lines_of(&["a", "b", "a"]);
    let mut stages = vec![Recorder::new(false), Recorder::new(false), Recorder::new(false)];

    let hit = dispatch(&names, &mut stages, &String::from("a"), lines_of(&["p"]), &mut it);

    assert_eq!(hit, Some(0));
    assert_eq!(stages[0].activations, vec![lines_of(&["p"])]);
    assert!(stages[1].activations.is_empty());
    assert!(stages[2].activations.is_empty());
}

#[test]
fn activation_through_directive() {
    let lines = lines_of(&["#setprefix \"- \"", "molly", "- kept"]);
    let names = vec![String::from("setprefix")];
    let mut stages = vec![PrefixPreprocessor::new("")];

    let out = preprocess_file(lines, &names, &mut stages, 100).unwrap();

    assert_eq!(out, lines_of(&["- molly", "- kept"]));
}

#[test]
fn exhaustion_is_stable() {
    let mut it = PreprocessIterator::new(lines_of(&["only"]));

    assert_eq!(it.next().unwrap(), "only");
    assert!(it.next().is_none());
    assert!(it.next().is_none());
    assert_eq!(it.current(), "only");

    let mut empty = PreprocessIterator::new(Vec::new());
    assert!(empty.next().is_none());
    assert!(empty.next().is_none());
}

#[test]
fn fuel_cap_reports_unfinished_run() {
    let lines = lines_of(&["loops forever"]);
    let names = vec![String::from("again")];
    let mut stages = vec![EndlessInjector];

    assert!(preprocess_file(lines, &names, &mut stages, 10).is_none());
}

#[test]
fn empty_input_gives_empty_output() {
    let names: Vec<String> = Vec::new();
    let mut stages: Vec<Recorder> = Vec::new();

    let out = preprocess_file(Vec::new(), &names, &mut stages, 0).unwrap();

    assert!(out.is_empty());
}

#[test]
fn claimed_line_is_not_forwarded() {
    let mut it = PreprocessIterator::new(lines_of(&["a line"]));
    it.next();
    let names = vec![String::from("first"), String::from("second")];
    let mut stages = vec![Recorder::new(true), Recorder::new(false)];
    let mut out: Vec<String> = Vec::new();

    let claimed = process_line(
        String::from("a line"),
        &names,
        &mut stages,
        &mut it,
        &mut out,
    );

    assert_eq!(claimed, Some(0));
    assert!(out.is_empty());
    assert!(stages[1].seen.is_empty());
}

#[test]
fn unclaimed_line_is_forwarded_once() {
    let mut it = PreprocessIterator::new(lines_of(&["a line"]));
    it.next();
    let names = vec![String::from("first")];
    let mut stages = vec![Recorder::new(false)];
    let mut out: Vec<String> = Vec::new();

    let claimed = process_line(
        String::from("a line"),
        &names,
        &mut stages,
        &mut it,
        &mut out,
    );

    assert_eq!(claimed, None);
    assert_eq!(out, lines_of(&["a line"]));
}

#[test]
fn fuel_short_of_input_reports_unfinished_without_stages() {
    let names: Vec<String> = Vec::new();
    let mut stages: Vec<Recorder> = Vec::new();

    assert!(preprocess_file(lines_of(&["a", "b", "c"]), &names, &mut stages, 2).is_none());
    assert!(preprocess_file(lines_of(&["a", "b", "c"]), &names, &mut stages, 3).is_some());
}
