use vstd::prelude::*;
use vstd::string::StrSliceExecFns;

verus! {

// ---------------------------------------------------------------------------
// Directive lines
//
// A directive is a line whose first non-blank character is `#`, followed
// immediately by a stage name and then parameters. Parameters are split on
// blanks outside double quotes; a double-quoted span counts as one parameter
// with the quotes removed. A malformed directive — an unterminated quote, or
// nothing between the `#` and the next blank — is no directive at all: such a
// line is treated as an ordinary line.
// ---------------------------------------------------------------------------

/// The blank characters that separate directive parameters.
pub open spec fn is_space_char(c: char) -> bool {
    c == ' ' || c == '\t' || c == '\r' || c == '\n'
}

/// The tokenizer's state after reading a prefix of a directive line: the
/// tokens already finished, the token being built, whether one is being
/// built at all, and whether a double quote is open.
pub struct TokState {
    pub toks: Seq<Seq<char>>,
    pub cur: Seq<char>,
    pub started: bool,
    pub in_quote: bool,
}

/// How one character moves the tokenizer along: quotes toggle quoting and
/// vanish, blanks outside quotes finish the token being built, and every
/// other character joins it.
pub open spec fn tok_step(st: TokState, c: char) -> TokState {
    if st.in_quote {
        if c == '"' {
            TokState { toks: st.toks, cur: st.cur, started: st.started, in_quote: false }
        } else {
            TokState { toks: st.toks, cur: st.cur.push(c), started: st.started, in_quote: true }
        }
    } else if c == '"' {
        TokState { toks: st.toks, cur: st.cur, started: true, in_quote: true }
    } else if is_space_char(c) {
        if st.started {
            TokState {
                toks: st.toks.push(st.cur),
                cur: Seq::empty(),
                started: false,
                in_quote: false,
            }
        } else {
            st
        }
    } else {
        TokState { toks: st.toks, cur: st.cur.push(c), started: true, in_quote: false }
    }
}

/// The tokenizer's state after reading all of `s`, one character at a time.
pub open spec fn tok_run(s: Seq<char>) -> TokState
    decreases s.len(),
{
    if s.len() == 0 {
        TokState { toks: Seq::empty(), cur: Seq::empty(), started: false, in_quote: false }
    } else {
        tok_step(tok_run(s.drop_last()), s.last())
    }
}

/// The tokens of `s`, or nothing when a double quote is left open.
pub open spec fn tokenize(s: Seq<char>) -> Option<Seq<Seq<char>>> {
    let st = tok_run(s);
    if st.in_quote {
        None
    } else if st.started {
        Some(st.toks.push(st.cur))
    } else {
        Some(st.toks)
    }
}

/// The position of the first non-blank character of `s`, or `s.len()` when
/// there is none.
pub open spec fn first_non_space(s: Seq<char>) -> int
    decreases s.len(),
{
    if s.len() == 0 {
        0
    } else if !is_space_char(s[0]) {
        0
    } else {
        1 + first_non_space(s.drop_first())
    }
}

proof fn lemma_first_non_space_at(s: Seq<char>, i: int)
    requires
        0 <= i <= s.len(),
        forall|j: int| 0 <= j < i ==> is_space_char(s[j]),
        i < s.len() ==> !is_space_char(s[i]),
    ensures
        first_non_space(s) == i,
    decreases i,
{
    if i > 0 {
        lemma_first_non_space_at(s.drop_first(), i - 1);
    }
}

/// The stage name and parameter list of a directive line, or nothing when the
/// line is no well-formed directive: the name is the first token shorn of its
/// leading `#`, the parameters are the remaining tokens.
pub open spec fn directive_of(line: Seq<char>) -> Option<(Seq<char>, Seq<Seq<char>>)> {
    let i = first_non_space(line);
    if i == line.len() || line[i] != '#' {
        None
    } else {
        match tokenize(line.skip(i)) {
            None => None,
            Some(toks) => if toks.len() > 0 && toks[0].len() >= 2 && toks[0][0] == '#' {
                Some((toks[0].skip(1), toks.skip(1)))
            } else {
                None
            },
        }
    }
}

/// Whether a line matches directive syntax. A directive line is consumed by
/// the driver and never reaches the stage chain or the sink.
pub open spec fn is_directive(line: Seq<char>) -> bool {
    directive_of(line) is Some
}

/// Relies on String::push: appends exactly the given character to the end of
/// the string.
#[verifier::external_body]
fn push_char(s: &mut String, c: char)
    ensures
        final(s)@ == old(s)@.push(c),
{
    s.push(c);
}

/// Whether `c` separates directive parameters.
fn is_space(c: char) -> (r: bool)
    ensures
        r == is_space_char(c),
{
    c == ' ' || c == '\t' || c == '\r' || c == '\n'
}

/// Parses a directive line into its stage name and parameters; reports
/// nothing when the line does not match directive syntax, in which case the
/// line is an ordinary line.
pub fn parse_directive(line: &str) -> (r: Option<(String, Vec<String>)>)
    ensures
        match r {
            Some(d) => directive_of(line@) == Some((d.0@, d.1.deep_view())),
            None => directive_of(line@) is None,
        },
{
    let n = line.unicode_len();
    let mut i: usize = 0;
    while i < n && is_space(line.get_char(i))
        invariant
            i <= n,
            n == line@.len(),
            forall|j: int| 0 <= j < i ==> is_space_char(line@[j]),
        decreases n - i,
    {
        i += 1;
    }
    proof {
        lemma_first_non_space_at(line@, i as int);
    }
    if i == n {
        return None;
    }
    if line.get_char(i) != '#' {
        return None;
    }
    let ghost rest = line@.skip(i as int);
    let mut toks: Vec<String> = Vec::new();
    let mut cur: String = String::new();
    let mut started = false;
    let mut in_quote = false;
    let mut j = i;
    proof {
        assert(line@.subrange(i as int, i as int) =~= Seq::<char>::empty());
        assert(toks.deep_view() =~= Seq::<Seq<char>>::empty());
    }
    while j < n
        invariant
            i <= j <= n,
            n == line@.len(),
            tok_run(line@.subrange(i as int, j as int)) == (TokState {
                toks: toks.deep_view(),
                cur: cur@,
                started,
                in_quote,
            }),
        decreases n - j,
    {
        let ghost pre = line@.subrange(i as int, j as int);
        let ghost toks0 = toks.deep_view();
        let c = line.get_char(j);
        if in_quote {
            if c == '"' {
                in_quote = false;
            } else {
                push_char(&mut cur, c);
            }
        } else if c == '"' {
            in_quote = true;
            started = true;
        } else if is_space(c) {
            if started {
                toks.push(cur);
                cur = String::new();
                started = false;
                proof {
                    assert(toks.deep_view() =~= toks0.push(tok_run(pre).cur));
                }
            }
        } else {
            push_char(&mut cur, c);
            started = true;
        }
        j += 1;
        proof {
            let full = line@.subrange(i as int, j as int);
            assert(full =~= pre.push(c));
            assert(full.drop_last() =~= pre);
            assert(tok_run(full) == tok_step(tok_run(pre), c));
        }
    }
    proof {
        assert(line@.subrange(i as int, n as int) =~= rest);
    }
    if in_quote {
        return None;
    }
    if started {
        toks.push(cur);
        proof {
            assert(toks.deep_view() =~= tok_run(rest).toks.push(tok_run(rest).cur));
        }
    }
    let ghost all_toks = tokenize(rest).unwrap();
    proof {
        assert(toks.deep_view() == all_toks);
    }
    if toks.len() == 0 {
        return None;
    }
    let first = toks.remove(0);
    let first_len = first.as_str().unicode_len();
    if first_len < 2 {
        return None;
    }
    if first.as_str().get_char(0) != '#' {
        return None;
    }
    let name_slice = first.as_str().substring_char(1, first_len);
    let name = name_slice.to_owned();
    proof {
        assert(name@ =~= all_toks[0].skip(1));
        assert(toks.deep_view() =~= all_toks.skip(1));
    }
    Some((name, toks))
}

// ---------------------------------------------------------------------------
// The line source model
//
// A line source yields lines from two places: a queue of injected lines that
// must replay first, and the remaining lines of the underlying input. The
// three spec functions below say exactly what one advance yields, how it
// changes the two queues, and what injecting a batch does. The executable
// methods of `PreprocessIterator` promise to follow this model, and the
// replay-ordering lemmas further down are proved over it.
// ---------------------------------------------------------------------------

/// The line one advance yields: the head of the injected queue when one is
/// pending, else the head of the underlying input, else nothing.
pub open spec fn step_yield(pending: Seq<Seq<char>>, upcoming: Seq<Seq<char>>) -> Option<
    Seq<char>,
> {
    if pending.len() > 0 {
        Some(pending[0])
    } else if upcoming.len() > 0 {
        Some(upcoming[0])
    } else {
        None
    }
}

/// The two queues after one advance: whichever queue yielded loses its head;
/// an exhausted source stays exactly as it is.
pub open spec fn step_state(pending: Seq<Seq<char>>, upcoming: Seq<Seq<char>>) -> (
    Seq<Seq<char>>,
    Seq<Seq<char>>,
) {
    if pending.len() > 0 {
        (pending.skip(1), upcoming)
    } else if upcoming.len() > 0 {
        (pending, upcoming.skip(1))
    } else {
        (pending, upcoming)
    }
}

/// Injecting a batch puts it in front of everything already pending, keeping
/// the batch's own order.
pub open spec fn inject_batch(batch: Seq<Seq<char>>, pending: Seq<Seq<char>>) -> Seq<Seq<char>> {
    batch + pending
}

/// An iterator over the lines of an input, with a re-injection queue: lines
/// handed to `reprocess_lines` are yielded, in their given order, before any
/// line that was already due.
pub struct PreprocessIterator {
    current_line: String,
    injected: Vec<String>,
    source_lines: Vec<String>,
}

impl PreprocessIterator {
    /// The injected lines still awaiting replay, in yield order.
    pub closed spec fn pending(self) -> Seq<Seq<char>> {
        self.injected.deep_view()
    }

    /// The lines of the underlying input not yet yielded, in yield order.
    pub closed spec fn upcoming(self) -> Seq<Seq<char>> {
        self.source_lines.deep_view()
    }

    /// The most recently yielded line; empty before the first advance.
    pub closed spec fn cur(self) -> Seq<char> {
        self.current_line@
    }

    /// Wraps the lines of an input. The caller reads the underlying byte
    /// stream up front and hands the lines over verbatim, terminators
    /// included; a read failure is the caller's to surface, and is fatal to
    /// the whole run.
    pub fn new(lines: Vec<String>) -> (it: PreprocessIterator)
        ensures
            it.pending() == Seq::<Seq<char>>::empty(),
            it.upcoming() == lines.deep_view(),
            it.cur() == Seq::<char>::empty(),
    {
        let it = PreprocessIterator {
            current_line: String::new(),
            injected: Vec::new(),
            source_lines: lines,
        };
        proof {
            assert(it.pending() =~= Seq::<Seq<char>>::empty());
        }
        it
    }

    /// Retrieves the current line without advancing the iterator.
    pub fn current(&self) -> (r: &String)
        ensures
            r@ == self.cur(),
    {
        &self.current_line
    }

    /// Adds lines the iterator will yield, in their given order, before
    /// moving on to anything already pending; takes effect on the next
    /// advance and leaves the current line alone.
    pub fn reprocess_lines(&mut self, lines: Vec<String>)
        ensures
            final(self).pending() == inject_batch(lines.deep_view(), old(self).pending()),
            final(self).upcoming() == old(self).upcoming(),
            final(self).cur() == old(self).cur(),
    {
        let mut batch = lines;
        batch.append(&mut self.injected);
        self.injected = batch;
        proof {
            assert(final(self).pending() =~= inject_batch(lines.deep_view(), old(self).pending()));
        }
    }

    /// Advances the iterator: yields and removes the earliest line still due,
    /// making it the current line, or reports that the source is exhausted.
    /// Once it yields `None` it keeps doing so: nothing changes any more.
    pub fn next(&mut self) -> (r: Option<String>)
        ensures
            (match r {
                Some(l) => Some(l@),
                None => None,
            }) == step_yield(old(self).pending(), old(self).upcoming()),
            (final(self).pending(), final(self).upcoming()) == step_state(
                old(self).pending(),
                old(self).upcoming(),
            ),
            final(self).cur() == (match step_yield(old(self).pending(), old(self).upcoming()) {
                Some(l) => l,
                None => old(self).cur(),
            }),
    {
        if self.injected.len() > 0 {
            let line = self.injected.remove(0);
            self.current_line = line.clone();
            proof {
                assert(final(self).pending() =~= old(self).pending().skip(1));
            }
            Some(line)
        } else if self.source_lines.len() > 0 {
            let line = self.source_lines.remove(0);
            self.current_line = line.clone();
            proof {
                assert(final(self).upcoming() =~= old(self).upcoming().skip(1));
            }
            Some(line)
        } else {
            None
        }
    }
}

// ---------------------------------------------------------------------------
// Replay ordering
// ---------------------------------------------------------------------------

/// Injecting a batch `[x, y]` makes the next two advances yield `x` and then
/// `y`, whatever was already pending, and the underlying input is not touched
/// before the batch has drained: after the two advances the queues are back
/// to what they were before the injection.
pub proof fn lemma_injection_order(
    x: Seq<char>,
    y: Seq<char>,
    pending: Seq<Seq<char>>,
    upcoming: Seq<Seq<char>>,
)
    ensures
        ({
            let p1 = inject_batch(seq![x, y], pending);
            let p2 = step_state(p1, upcoming).0;
            &&& step_yield(p1, upcoming) == Some(x)
            &&& step_state(p1, upcoming).1 == upcoming
            &&& step_yield(p2, upcoming) == Some(y)
            &&& step_state(p2, upcoming) == (pending, upcoming)
        }),
{
    let p1 = inject_batch(seq![x, y], pending);
    let p2 = step_state(p1, upcoming).0;
    assert(p1[0] == x);
    assert(p2 =~= seq![y] + pending);
    assert(p2[0] == y);
    assert(p2.skip(1) =~= pending);
}

/// Nested batches drain innermost first: with `[x, y]` pending, yielding `x`
/// and then injecting `[p, q]` makes the following advances yield `p`, `q`
/// and only then `y`.
pub proof fn lemma_nested_batches(
    x: Seq<char>,
    y: Seq<char>,
    p: Seq<char>,
    q: Seq<char>,
    upcoming: Seq<Seq<char>>,
)
    ensures
        ({
            let pend0 = seq![x, y];
            let pend1 = step_state(pend0, upcoming).0;
            let pend2 = inject_batch(seq![p, q], pend1);
            let pend3 = step_state(pend2, upcoming).0;
            let pend4 = step_state(pend3, upcoming).0;
            &&& step_yield(pend0, upcoming) == Some(x)
            &&& step_yield(pend2, upcoming) == Some(p)
            &&& step_yield(pend3, upcoming) == Some(q)
            &&& step_yield(pend4, upcoming) == Some(y)
            &&& step_state(pend4, upcoming) == (Seq::<Seq<char>>::empty(), upcoming)
        }),
{
    let pend0 = seq![x, y];
    let pend1 = step_state(pend0, upcoming).0;
    assert(pend1 =~= seq![y]);
    let pend2 = inject_batch(seq![p, q], pend1);
    assert(pend2 =~= seq![p, q, y]);
    let pend3 = step_state(pend2, upcoming).0;
    assert(pend3 =~= seq![q, y]);
    let pend4 = step_state(pend3, upcoming).0;
    assert(pend4 =~= seq![y]);
    assert(pend4.skip(1) =~= Seq::<Seq<char>>::empty());
}

/// Exhaustion is stable: with nothing pending and nothing upcoming an advance
/// yields nothing and changes nothing, so every later advance reports the
/// same.
pub proof fn lemma_exhaustion(pending: Seq<Seq<char>>, upcoming: Seq<Seq<char>>)
    requires
        pending.len() == 0,
        upcoming.len() == 0,
    ensures
        step_yield(pending, upcoming) is None,
        step_state(pending, upcoming) == (pending, upcoming),
{
}

// ---------------------------------------------------------------------------
// The stage chain and the driver
// ---------------------------------------------------------------------------

/// A stateful line transformer. The driver folds every ordinary line through
/// the registered stages in order, and routes directive lines to the stage
/// the directive names.
pub trait Preprocessor {
    /// Examines `file.current()`, and may call `file.reprocess_lines` to
    /// substitute or annotate it. Returns `true` to claim the line as fully
    /// handled: the driver then stops the chain for this line and drops it,
    /// expecting any replacement to surface on a later advance.
    fn process(&mut self, file: &mut PreprocessIterator) -> bool;

    /// Reconfigures the stage; called only when a directive names it, with
    /// the directive's parameters. May itself inject lines.
    fn activate(&mut self, params: Vec<String>, file: &mut PreprocessIterator);
}

/// Folds the current line through the stage chain in registration order.
/// Reports the position of the first stage that claimed the line, if any;
/// every stage after that one is left exactly as it was — the chain stopped
/// there, so no later stage saw the line.
pub fn run_chain<P: Preprocessor>(stages: &mut Vec<P>, file: &mut PreprocessIterator) -> (r:
    Option<usize>)
    ensures
        final(stages)@.len() == old(stages)@.len(),
        old(stages)@.len() == 0 ==> r is None && final(stages)@ == old(stages)@ && *final(file)
            == *old(file),
        match r {
            Some(i) => i < old(stages)@.len() && forall|j: int|
                i < j < old(stages)@.len() ==> final(stages)@[j] == old(stages)@[j],
            None => true,
        },
{
    let n = stages.len();
    if n == 0 {
        return None;
    }
    let mut k: usize = 0;
    while k < n
        invariant
            n == old(stages)@.len(),
            stages@.len() == n,
            k <= n,
            forall|j: int| k <= j < n ==> stages@[j] == old(stages)@[j],
        decreases n - k,
    {
        let handled = stages[k].process(file);
        if handled {
            return Some(k);
        }
        k += 1;
    }
    None
}

/// Whether position `i` is where a directive addressed to `name` lands: the
/// earliest stage registered under that name.
pub open spec fn first_match(names: Seq<String>, name: Seq<char>, i: int) -> bool {
    &&& 0 <= i < names.len()
    &&& names[i]@ == name
    &&& forall|j: int| 0 <= j < i ==> names[j]@ != name
}

/// Routes a directive to the stage registered under its name: the first
/// stage whose name matches is activated with the directive's parameters.
/// Every other stage is left as it was, and an unknown name activates
/// nothing at all — the directive is ignored.
pub fn dispatch<P: Preprocessor>(
    names: &Vec<String>,
    stages: &mut Vec<P>,
    name: &String,
    params: Vec<String>,
    file: &mut PreprocessIterator,
) -> (r: Option<usize>)
    requires
        names@.len() == old(stages)@.len(),
    ensures
        final(stages)@.len() == old(stages)@.len(),
        match r {
            Some(i) => first_match(names@, name@, i as int) && forall|j: int|
                0 <= j < old(stages)@.len() && j != i ==> final(stages)@[j] == old(stages)@[j],
            None => (forall|j: int| 0 <= j < names@.len() ==> names@[j]@ != name@)
                && final(stages)@ == old(stages)@ && *final(file) == *old(file),
        },
{
    let n = names.len();
    let mut k: usize = 0;
    while k < n
        invariant
            n == names@.len(),
            names@.len() == old(stages)@.len(),
            stages@ == old(stages)@,
            *file == *old(file),
            k <= n,
            forall|j: int| 0 <= j < k ==> names@[j]@ != name@,
        decreases n - k,
    {
        if names[k].eq(name) {
            stages[k].activate(params, file);
            return Some(k);
        }
        k += 1;
    }
    None
}

/// The lines a run forwards to the sink when no stage intervenes: the input
/// lines in order, with every directive line consumed by the driver.
pub open spec fn sink_lines(ls: Seq<Seq<char>>) -> Seq<Seq<char>>
    decreases ls.len(),
{
    if ls.len() == 0 {
        Seq::empty()
    } else {
        sink_lines(ls.drop_last()) + (if is_directive(ls.last()) {
            Seq::<Seq<char>>::empty()
        } else {
            seq![ls.last()]
        })
    }
}

/// Handles one yielded line and reports the stage that claimed it, if any. A
/// line matching directive syntax — a malformed one does not — is consumed
/// here: nothing is claimed, nothing is forwarded to the sink, the chain
/// never sees it, and no stage but the one the directive names is touched.
/// Any other line is folded through the chain and forwarded exactly when no
/// stage claims it: a claimed line never reaches the sink, and the stages
/// after the claiming one are left exactly as they were; an unclaimed line
/// reaches the sink verbatim, exactly once.
pub fn process_line<P: Preprocessor>(
    line: String,
    names: &Vec<String>,
    stages: &mut Vec<P>,
    file: &mut PreprocessIterator,
    out: &mut Vec<String>,
) -> (r: Option<usize>)
    requires
        names@.len() == old(stages)@.len(),
    ensures
        final(stages)@.len() == old(stages)@.len(),
        match directive_of(line@) {
            Some(d) => r is None && final(out)@ == old(out)@ && forall|j: int|
                0 <= j < old(stages)@.len() && !first_match(names@, d.0, j) ==> final(stages)@[j]
                    == old(stages)@[j],
            None => match r {
                Some(i) => i < old(stages)@.len() && final(out)@ == old(out)@ && forall|j: int|
                    i < j < old(stages)@.len() ==> final(stages)@[j] == old(stages)@[j],
                None => final(out)@ == old(out)@.push(line),
            },
        },
        old(stages)@.len() == 0 ==> *final(file) == *old(file) && final(stages)@ == old(stages)@
            && (if is_directive(line@) {
            final(out)@ == old(out)@
        } else {
            final(out)@ == old(out)@.push(line)
        }),
{
    match parse_directive(line.as_str()) {
        Some(d) => {
            let (name, params) = d;
            dispatch(names, stages, &name, params, file);
            None
        },
        None => {
            let handled = run_chain(stages, file);
            match handled {
                Some(i) => Some(i),
                None => {
                    out.push(line);
                    None
                },
            }
        },
    }
}

/// Runs the whole preprocessing pass over `lines` and returns the lines owed
/// to the output sink, in order. `names` gives the registration name of the
/// stage at the same position of `stages`; when several stages share a name
/// the first takes the directive. Each round the driver advances the line
/// source and hands the yielded line to `process_line`: a directive is
/// consumed — the named stage activated, nothing forwarded — and any other
/// line is folded through the stage chain and forwarded exactly when no stage
/// claims it. A line a stage injected is yielded by a later advance and goes
/// through the same round as a brand-new line, directive check first, chain
/// from the first stage; the output grows only by those appends, so the sink
/// sees the surviving lines in the order their rounds completed. The run ends
/// when the source is exhausted with nothing left
/// pending. A stage may inject lines without bound, so a run need not
/// terminate on its own: `fuel` caps the number of lines processed, and the
/// driver reports nothing when the cap fell before the source ran dry; with
/// no stage registered the cap falls exactly when `fuel` is short of the
/// input's length.
pub fn preprocess_file<P: Preprocessor>(
    lines: Vec<String>,
    names: &Vec<String>,
    stages: &mut Vec<P>,
    fuel: usize,
) -> (r: Option<Vec<String>>)
    requires
        names@.len() == old(stages)@.len(),
    ensures
        final(stages)@.len() == old(stages)@.len(),
        match r {
            Some(out) => forall|k: int| 0 <= k < out@.len() ==> !is_directive((#[trigger] out@[k])@),
            None => true,
        },
        old(stages)@.len() == 0 && fuel >= lines@.len() ==> (r matches Some(out) && out.deep_view()
            == sink_lines(lines.deep_view())),
        old(stages)@.len() == 0 && fuel < lines@.len() ==> r is None,
{
    let mut file = PreprocessIterator::new(lines);
    let mut out: Vec<String> = Vec::new();
    let mut remaining = fuel;
    let ghost mut consumed: Seq<Seq<char>> = Seq::empty();
    proof {
        assert(lines.deep_view() =~= consumed + file.upcoming());
    }
    loop
        invariant
            names@.len() == old(stages)@.len(),
            stages@.len() == old(stages)@.len(),
            forall|k: int| 0 <= k < out@.len() ==> !is_directive((#[trigger] out@[k])@),
            old(stages)@.len() == 0 ==> {
                &&& file.pending().len() == 0
                &&& lines.deep_view() == consumed + file.upcoming()
                &&& out.deep_view() == sink_lines(consumed)
                &&& remaining as int == fuel - consumed.len()
            },
        decreases remaining,
    {
        match file.next() {
            None => {
                proof {
                    if old(stages)@.len() == 0 {
                        assert(file.upcoming().len() == 0);
                        assert(consumed =~= lines.deep_view());
                    }
                }
                return Some(out);
            },
            Some(line) => {
                if remaining == 0 {
                    return None;
                }
                remaining = remaining - 1;
                let ghost consumed0 = consumed;
                let ghost line_snap = line;
                let ghost line_view = line@;
                let ghost out0 = out@;
                proof {
                    consumed = consumed.push(line@);
                    assert(consumed.drop_last() =~= consumed0);
                    if old(stages)@.len() == 0 {
                        assert(lines.deep_view() =~= consumed + file.upcoming());
                    }
                }
                process_line(line, names, stages, &mut file, &mut out);
                proof {
                    if out@ != out0 {
                        assert(out@ == out0.push(line_snap));
                    }
                    if old(stages)@.len() == 0 {
                        if is_directive(line_view) {
                            assert(out.deep_view() =~= sink_lines(consumed));
                        } else {
                            assert(out.deep_view() =~= sink_lines(consumed0) + seq![line_view]);
                            assert(out.deep_view() =~= sink_lines(consumed));
                        }
                    }
                }
            },
        }
    }
}

} // verus!
