use crate::builtins::{ChangeDirectory, Exit};
use crate::parser::{
    lemma_lex_shape, lex_outcome, tokens_shaped, tokens_view, tokens_view_source, try_lex,
    LexError, LexStep, SpecToken, Token,
};
use vstd::utf8::encode_utf8;
use crate::slice_tree::{clone_all, same_view, same_views, SliceTree};
use vstd::prelude::*;

verus! {

/// Why a token list does not parse into pipeline stages.
#[derive(PartialEq, Eq, Structural, Clone, Copy, Debug)]
pub enum ParseError {
    /// A pipe with no stage before it: at the start, or right after a pipe.
    DoublePipe,
}

/// Splitting after some tokens: the stages found so far (token index
/// ranges), and where the stage being read started, if one is.
pub enum SplitStep {
    Go(Seq<(int, int)>, Option<int>),
    DoublePipe,
}

/// Splitting the first `n` tokens of `ts` at its pipes.
pub open spec fn spec_split_prefix(ts: Seq<SpecToken>, n: nat) -> SplitStep
    decreases n,
{
    if n == 0 {
        SplitStep::Go(seq![], None)
    } else {
        match spec_split_prefix(ts, (n - 1) as nat) {
            SplitStep::Go(segs, cur) => if ts[n - 1] is Pipe {
                match cur {
                    Some(s) => SplitStep::Go(segs.push((s, n - 1)), None),
                    None => SplitStep::DoublePipe,
                }
            } else if cur is None {
                SplitStep::Go(segs, Some(n - 1))
            } else {
                SplitStep::Go(segs, cur)
            },
            SplitStep::DoublePipe => SplitStep::DoublePipe,
        }
    }
}

/// Splitting all of `ts`: its stages, or a pipe without a stage before it,
/// or no stage after the last pipe (an empty list has no stage either).
pub enum SplitOutcome {
    Segments(Seq<(int, int)>),
    DoublePipe,
    EndsInPipe,
}

pub open spec fn spec_split(ts: Seq<SpecToken>) -> SplitOutcome {
    match spec_split_prefix(ts, ts.len()) {
        SplitStep::Go(segs, Some(s)) => SplitOutcome::Segments(segs.push((s, ts.len() as int))),
        SplitStep::Go(_, None) => SplitOutcome::EndsInPipe,
        SplitStep::DoublePipe => SplitOutcome::DoublePipe,
    }
}

/// A stage that `ParsedCommand::new` takes: a command, then arguments.
pub open spec fn statement_ok(st: Seq<SpecToken>) -> bool {
    &&& st.len() > 0
    &&& st[0] is Command
    &&& forall|k: int| 1 <= k < st.len() ==> #[trigger] st[k] is Argument
}

/// The token lists `parse` takes: those with a pipe lacking a stage before
/// it, and those whose every stage is a command followed by arguments.
pub open spec fn parse_defined(ts: Seq<SpecToken>) -> bool {
    match spec_split(ts) {
        SplitOutcome::DoublePipe => true,
        SplitOutcome::EndsInPipe => false,
        SplitOutcome::Segments(segs) => forall|i: int|
            0 <= i < segs.len() ==> statement_ok(#[trigger] ts.subrange(segs[i].0, segs[i].1)),
    }
}

/// `t` is an argument word viewing what `s` views.
pub open spec fn is_argument_view(t: Token, s: SliceTree<String>) -> bool {
    t matches Token::Argument(a) && same_view(s, a)
}

/// One pipeline stage: a command word and its argument words.
pub struct ParsedCommand {
    command: SliceTree<String>,
    args: Vec<SliceTree<String>>,
}

impl ParsedCommand {
    /// The command word.
    pub closed spec fn command_view(&self) -> SliceTree<String> {
        self.command
    }

    /// The argument words, in order.
    pub closed spec fn args_view(&self) -> Seq<SliceTree<String>> {
        self.args@
    }

    /// This stage holds the words of `statement`: its command the first,
    /// its arguments the rest, in order.
    pub open spec fn from_statement(&self, statement: Seq<Token>) -> bool {
        &&& statement.len() > 0
        &&& statement[0] matches Token::Command(c) && same_view(self.command_view(), c)
        &&& self.args_view().len() == statement.len() - 1
        &&& forall|k: int|
            0 <= k < self.args_view().len() ==> is_argument_view(statement[k + 1], #[trigger] self.args_view()[k])
    }

    /// The stage of a statement that is a command followed by arguments.
    pub fn new(statement: &[Token]) -> (r: Result<ParsedCommand, ParseError>)
        requires
            statement_ok(tokens_view(statement@)),
        ensures
            r matches Ok(c) && c.from_statement(statement@),
    {
        assert(tokens_view(statement@)[0] == statement@[0]@);
        let command = match &statement[0] {
            Token::Command(cmd) => cmd.clone(),
            // `statement_ok` rules out a statement that starts otherwise.
            Token::Argument(a) => a.clone(),
            Token::Pipe => SliceTree::consume(String::new()),
        };
        let mut args: Vec<SliceTree<String>> = Vec::new();
        let mut index: usize = 1;
        while index < statement.len()
            invariant
                1 <= index <= statement@.len(),
                statement_ok(tokens_view(statement@)),
                args@.len() == index - 1,
                forall|k: int|
                    0 <= k < args@.len() ==> is_argument_view(statement@[k + 1], #[trigger] args@[k]),
            decreases statement@.len() - index,
        {
            assert(tokens_view(statement@)[index as int] == statement@[index as int]@);
            let ghost prev = args@;
            match &statement[index] {
                Token::Argument(a) => {
                    args.push(a.clone());
                    assert forall|k: int| 0 <= k < args@.len() implies is_argument_view(statement@[k + 1], #[trigger] args@[k]) by {
                        if k < index - 1 {
                            assert(args@[k] == prev[k]);
                        }
                    }
                },
                // `statement_ok` rules out commands and pipes here.
                Token::Command(_) | Token::Pipe => {},
            }
            index = index + 1;
        }
        Ok(ParsedCommand { command, args })
    }

    /// The command word.
    pub fn command(&self) -> (c: &SliceTree<String>)
        ensures
            *c == self.command_view(),
    {
        &self.command
    }

    /// The argument words.
    pub fn args(&self) -> (a: &[SliceTree<String>])
        ensures
            a@ == self.args_view(),
    {
        self.args.as_slice()
    }
}


/// `cmds` are the stages of `tokens`, split as `spec_split` says.
pub open spec fn parse_result(tokens: Seq<Token>, r: Result<Vec<ParsedCommand>, ParseError>) -> bool {
    match spec_split(tokens_view(tokens)) {
        SplitOutcome::DoublePipe => r == Err::<Vec<ParsedCommand>, ParseError>(ParseError::DoublePipe),
        SplitOutcome::Segments(segs) => r matches Ok(cmds) && cmds@.len() == segs.len() && forall|i: int|
            0 <= i < segs.len() ==> #[trigger] cmds@[i].from_statement(tokens.subrange(segs[i].0, segs[i].1)),
        SplitOutcome::EndsInPipe => false,
    }
}

spec fn ranges_view(v: Seq<(usize, usize)>) -> Seq<(int, int)> {
    v.map_values(|r: (usize, usize)| (r.0 as int, r.1 as int))
}

spec fn opt_view(o: Option<usize>) -> Option<int> {
    match o {
        Some(s) => Some(s as int),
        None => None,
    }
}

/// Segments found so far lie in order within the first `n` tokens, and the
/// stage being read starts after them.
spec fn split_step_inv(segs: Seq<(int, int)>, cur: Option<int>, n: int) -> bool {
    &&& forall|i: int| 0 <= i < segs.len() ==> 0 <= #[trigger] segs[i].0 < segs[i].1 < n
    &&& cur matches Some(s) ==> 0 <= s < n
}

proof fn lemma_split_prefix_inv(ts: Seq<SpecToken>, n: nat)
    requires
        n <= ts.len(),
    ensures
        spec_split_prefix(ts, n) matches SplitStep::Go(segs, cur) ==> split_step_inv(segs, cur, n as int),
    decreases n,
{
    if n > 0 {
        lemma_split_prefix_inv(ts, (n - 1) as nat);
    }
}

proof fn lemma_subrange_view(tokens: Seq<Token>, a: int, b: int)
    requires
        0 <= a <= b <= tokens.len(),
    ensures
        tokens_view(tokens.subrange(a, b)) == tokens_view(tokens).subrange(a, b),
{
    assert(tokens_view(tokens.subrange(a, b)) =~= tokens_view(tokens).subrange(a, b));
}

/// Finds the stages of a token list: the ranges of tokens that a pipe
/// ends, and where the last stage starts (none after a final pipe); or the
/// error of a pipe without a stage before it.
fn split_stages(tokens: &[Token]) -> (r: Result<(Vec<(usize, usize)>, Option<usize>), ParseError>)
    ensures
        match spec_split_prefix(tokens_view(tokens@), tokens@.len()) {
            SplitStep::Go(segs, cur) => r matches Ok((v, c)) && ranges_view(v@) == segs && opt_view(c)
                == cur,
            SplitStep::DoublePipe => r == Err::<(Vec<(usize, usize)>, Option<usize>), ParseError>(
                ParseError::DoublePipe,
            ),
        },
{
    let ghost tv = tokens_view(tokens@);
    let mut pipe_segments: Vec<(usize, usize)> = Vec::new();
    let mut current_expr_start: Option<usize> = None;
    let mut index: usize = 0;
    assert(ranges_view(pipe_segments@) =~= seq![]);
    while index < tokens.len()
        invariant
            tv == tokens_view(tokens@),
            index <= tokens@.len(),
            spec_split_prefix(tv, index as nat) == SplitStep::Go(
                ranges_view(pipe_segments@),
                opt_view(current_expr_start),
            ),
        decreases tokens@.len() - index,
    {
        assert(tv[index as int] == tokens@[index as int]@);
        let ghost prev = pipe_segments@;
        if let Token::Pipe = &tokens[index] {
            match current_expr_start {
                Some(start) => {
                    pipe_segments.push((start, index));
                    assert(ranges_view(pipe_segments@) =~= ranges_view(prev).push(
                        (start as int, index as int),
                    ));
                    current_expr_start = None;
                },
                None => {
                    proof {
                        lemma_split_prefix_stops(tv, (index + 1) as nat, tv.len());
                    }
                    return Err(ParseError::DoublePipe);
                },
            }
        } else if current_expr_start.is_none() {
            current_expr_start = Some(index);
        }
        index = index + 1;
    }
    Ok((pipe_segments, current_expr_start))
}

/// Splits a token list into pipeline stages at its pipes, and parses each
/// stage into its command and arguments.
pub fn parse(tokens: &[Token]) -> (r: Result<Vec<ParsedCommand>, ParseError>)
    requires
        parse_defined(tokens_view(tokens@)),
    ensures
        parse_result(tokens@, r),
{
    let ghost tv = tokens_view(tokens@);
    let (mut pipe_segments, current_expr_start) = match split_stages(tokens) {
        Ok(found) => found,
        Err(e) => return Err(e),
    };
    let last_start = match current_expr_start {
        Some(start) => start,
        None => 0,
    };
    let ghost prev = pipe_segments@;
    pipe_segments.push((last_start, tokens.len()));
    assert(ranges_view(pipe_segments@) =~= ranges_view(prev).push(
        (last_start as int, tokens@.len() as int),
    ));
    proof {
        lemma_split_prefix_inv(tv, tv.len());
    }
    let ghost segs = ranges_view(pipe_segments@);
    assert(spec_split(tv)->Segments_0 == segs);
    let mut commands: Vec<ParsedCommand> = Vec::new();
    let mut i: usize = 0;
    while i < pipe_segments.len()
        invariant
            tv == tokens_view(tokens@),
            spec_split(tv) == SplitOutcome::Segments(segs),
            forall|j: int| 0 <= j < segs.len() ==> statement_ok(#[trigger] tv.subrange(segs[j].0, segs[j].1)),
            segs == ranges_view(pipe_segments@),
            forall|j: int| 0 <= j < segs.len() ==> 0 <= #[trigger] segs[j].0 <= segs[j].1 <= tokens@.len(),
            i <= pipe_segments@.len(),
            commands@.len() == i,
            forall|j: int|
                0 <= j < i ==> #[trigger] commands@[j].from_statement(
                    tokens@.subrange(segs[j].0, segs[j].1),
                ),
        decreases pipe_segments@.len() - i,
    {
        let (start, end) = pipe_segments[i];
        assert(segs[i as int] == (start as int, end as int));
        proof {
            lemma_subrange_view(tokens@, start as int, end as int);
            assert(statement_ok(tv.subrange(segs[i as int].0, segs[i as int].1)));
        }
        let segment = &tokens[start..end];
        match ParsedCommand::new(segment) {
            Ok(command) => commands.push(command),
            // `new` accepts every stage that `parse_defined` admits.
            Err(_) => {},
        }
        i = i + 1;
    }
    Ok(commands)
}

proof fn lemma_split_prefix_stops(ts: Seq<SpecToken>, n: nat, m: nat)
    requires
        n <= m,
        spec_split_prefix(ts, n) is DoublePipe,
    ensures
        spec_split_prefix(ts, m) is DoublePipe,
    decreases m - n,
{
    if n < m {
        lemma_split_prefix_stops(ts, n, (m - 1) as nat);
    }
}


/// What a stage runs: one of the builtins, or an outside program with its
/// argument words.
pub enum BuiltCommand {
    ChangeDirectory(ChangeDirectory),
    Exit(Exit),
    External { program: SliceTree<String>, args: Vec<SliceTree<String>> },
}

/// The bytes `cd`.
pub open spec fn cd_name() -> Seq<u8> {
    seq![99u8, 100u8]
}

/// The bytes `exit`.
pub open spec fn exit_name() -> Seq<u8> {
    seq![101u8, 120u8, 105u8, 116u8]
}

fn is_cd(name: &[u8]) -> (b: bool)
    ensures
        b == (name@ == cd_name()),
{
    let b = name.len() == 2 && name[0] == 99u8 && name[1] == 100u8;
    assert(b ==> name@ =~= cd_name());
    b
}

fn is_exit(name: &[u8]) -> (b: bool)
    ensures
        b == (name@ == exit_name()),
{
    let b = name.len() == 4 && name[0] == 101u8 && name[1] == 120u8 && name[2] == 105u8 && name[3]
        == 116u8;
    assert(b ==> name@ =~= exit_name());
    b
}

impl ParsedCommand {
    /// What this stage runs: `cd` and `exit` are builtins given the
    /// argument words; any other command word names an outside program.
    pub fn build(&self) -> (b: BuiltCommand)
        requires
            self.command_view().start() <= self.command_view().end(),
        ensures
            ({
                let name = self.command_view().bytes_view();
                if name == cd_name() {
                    b matches BuiltCommand::ChangeDirectory(cd) && same_views(cd.statement(), self.args_view())
                } else if name == exit_name() {
                    b matches BuiltCommand::Exit(e) && same_views(e.statement(), self.args_view())
                } else {
                    b matches BuiltCommand::External { program, args } && same_view(program, self.command_view())
                        && same_views(args@, self.args_view())
                }
            }),
    {
        let name = self.command.as_slice();
        if is_cd(name) {
            BuiltCommand::ChangeDirectory(ChangeDirectory::new(clone_all(self.args.as_slice())))
        } else if is_exit(name) {
            BuiltCommand::Exit(Exit::new(clone_all(self.args.as_slice())))
        } else {
            BuiltCommand::External { program: self.command.clone(), args: clone_all(self.args.as_slice()) }
        }
    }
}


/// No pipe among the tokens `a..b` of `ts`.
pub open spec fn pipe_free(ts: Seq<SpecToken>, a: int, b: int) -> bool {
    forall|k: int| a <= k < b ==> !(#[trigger] ts[k] is Pipe)
}

/// `segs` are the pipe-free runs of `ts` that end at a pipe, one after the
/// other from the start, each run and its pipe right after the previous.
spec fn runs_inv(ts: Seq<SpecToken>, segs: Seq<(int, int)>) -> bool {
    &&& forall|i: int|
        #![trigger segs[i]]
        0 <= i < segs.len() ==> 0 <= segs[i].0 < segs[i].1 < ts.len() && ts[segs[i].1] is Pipe
            && pipe_free(ts, segs[i].0, segs[i].1)
    &&& segs.len() > 0 ==> segs[0].0 == 0
    &&& forall|i: int| #![trigger segs[i]] 0 < i < segs.len() ==> segs[i].0 == segs[i - 1].1 + 1
}

/// Where the run after `segs` starts.
spec fn next_run_start(segs: Seq<(int, int)>) -> int {
    if segs.len() == 0 {
        0
    } else {
        segs.last().1 + 1
    }
}

spec fn split_inv(ts: Seq<SpecToken>, n: int, segs: Seq<(int, int)>, cur: Option<int>) -> bool {
    &&& runs_inv(ts, segs)
    &&& segs.len() > 0 ==> segs.last().1 < n
    &&& match cur {
        Some(s) => s == next_run_start(segs) && s < n && pipe_free(ts, s, n),
        None => next_run_start(segs) == n,
    }
}

proof fn lemma_split_prefix_runs(ts: Seq<SpecToken>, n: nat)
    requires
        n <= ts.len(),
    ensures
        spec_split_prefix(ts, n) matches SplitStep::Go(segs, cur) ==> split_inv(ts, n as int, segs, cur),
    decreases n,
{
    if n > 0 {
        lemma_split_prefix_runs(ts, (n - 1) as nat);
        if let SplitStep::Go(segs, cur) = spec_split_prefix(ts, (n - 1) as nat) {
            let m = n - 1;
            if ts[m] is Pipe {
                if let Some(s) = cur {
                    let segs2 = segs.push((s, m));
                    assert forall|i: int| #![trigger segs2[i]] 0 <= i < segs2.len() implies 0 <= segs2[i].0 < segs2[i].1
                        < ts.len() && ts[segs2[i].1] is Pipe && pipe_free(ts, segs2[i].0, segs2[i].1) by {
                        if i < segs.len() {
                            assert(segs2[i] == segs[i]);
                        } else {
                            assert(segs2[i] == (s, m as int));
                            assert(pipe_free(ts, s, m as int));
                        }
                    }
                    assert forall|i: int| #![trigger segs2[i]] 0 < i < segs2.len() implies segs2[i].0 == segs2[i
                        - 1].1 + 1 by {
                        if i < segs.len() {
                            assert(segs2[i] == segs[i]);
                        }
                        assert(segs2[i - 1] == segs[i - 1] || i - 1 == segs.len());
                    }
                    assert(runs_inv(ts, segs2));
                }
            } else {
                if let Some(s) = cur {
                    assert(pipe_free(ts, s, n as int));
                }
            }
        }
    }
}

/// Splitting at pipes: the stages are the pipe-free runs of tokens between
/// the pipes, in order: the first starts the list, each next one starts right
/// after the pipe that ends the one before, and the last ends the list.  No
/// stage is empty.
pub proof fn lemma_split_segments(ts: Seq<SpecToken>)
    ensures
        spec_split(ts) matches SplitOutcome::Segments(segs) ==> {
            &&& segs.len() > 0
            &&& segs[0].0 == 0
            &&& segs.last().1 == ts.len()
            &&& forall|i: int|
                #![trigger segs[i]]
                0 <= i < segs.len() ==> 0 <= segs[i].0 < segs[i].1 <= ts.len() && pipe_free(
                    ts,
                    segs[i].0,
                    segs[i].1,
                )
            &&& forall|i: int|
                #![trigger segs[i]]
                0 < i < segs.len() ==> segs[i].0 == segs[i - 1].1 + 1 && ts[segs[i - 1].1] is Pipe
        },
{
    lemma_split_prefix_runs(ts, ts.len());
    if let SplitStep::Go(segs, Some(s)) = spec_split_prefix(ts, ts.len()) {
        let all = segs.push((s, ts.len() as int));
        assert forall|i: int| #![trigger all[i]] 0 <= i < all.len() implies 0 <= all[i].0 < all[i].1 <= ts.len()
            && pipe_free(ts, all[i].0, all[i].1) by {
            if i < segs.len() {
                assert(all[i] == segs[i]);
            }
        }
        assert forall|i: int| #![trigger all[i]] 0 < i < all.len() implies all[i].0 == all[i - 1].1 + 1 && ts[all[i
            - 1].1] is Pipe by {
            if i < segs.len() {
                assert(all[i] == segs[i]);
            } else {
                assert(all[i] == (s, ts.len() as int));
                assert(segs.last() == segs[i - 1]);
            }
            assert(all[i - 1] == segs[i - 1]);
        }
    }
}


/// A pipe-free run of a shaped token list that starts the list or follows
/// a pipe is a command followed by arguments.
proof fn lemma_run_statement_ok(ts: Seq<SpecToken>, a: int, b: int)
    requires
        0 <= a < b <= ts.len(),
        tokens_shaped(ts),
        pipe_free(ts, a, b),
        a == 0 || ts[a - 1] is Pipe,
    ensures
        statement_ok(ts.subrange(a, b)),
{
    let st = ts.subrange(a, b);
    assert(!(ts[a] is Pipe));
    assert(st[0] == ts[a]);
    assert forall|k: int| 1 <= k < st.len() implies #[trigger] st[k] is Argument by {
        assert(st[k] == ts[a + k]);
        assert(!(ts[a + k] is Pipe));
        assert(!(ts[a + k - 1] is Pipe));
    }
}

/// A shaped token list that does not end in a pipe splits either at a pipe
/// with no stage before it, or into stages that each are a command followed
/// by arguments.
pub proof fn lemma_shaped_parse_defined(ts: Seq<SpecToken>)
    requires
        ts.len() > 0,
        tokens_shaped(ts),
        !(ts.last() is Pipe),
    ensures
        parse_defined(ts),
        !(spec_split(ts) is EndsInPipe),
{
    lemma_split_prefix_runs(ts, ts.len());
    lemma_split_segments(ts);
    if let SplitStep::Go(segs, cur) = spec_split_prefix(ts, ts.len()) {
        if cur is None {
            assert(segs.len() > 0);
            assert(ts[segs.last().1] is Pipe);
        }
    }
    if let SplitOutcome::Segments(segs) = spec_split(ts) {
        assert forall|i: int| 0 <= i < segs.len() implies statement_ok(
            #[trigger] ts.subrange(segs[i].0, segs[i].1),
        ) by {
            if i > 0 {
                assert(segs[i].0 == segs[i - 1].1 + 1);
            }
            lemma_run_statement_ok(ts, segs[i].0, segs[i].1);
        }
    }
}

/// Lexing and parsing together: the tokens of a line that lexes, unless
/// they end in a pipe, are a list that `parse` takes.
pub proof fn lemma_lexed_line_parses(src: &str)
    ensures
        lex_outcome(src) matches LexStep::Go(st) ==> (!(st.tokens.last() is Pipe) ==> parse_defined(st.tokens)),
{
    lemma_lex_shape(src);
    if let LexStep::Go(st) = lex_outcome(src) {
        if !(st.tokens.last() is Pipe) {
            lemma_shaped_parse_defined(st.tokens);
        }
    }
}


impl ParsedCommand {
    /// The tokens this stage stands for: its command, then its arguments.
    pub open spec fn stage_view(&self) -> Seq<SpecToken> {
        seq![SpecToken::Command(self.command_view().start(), self.command_view().end())]
            + self.args_view().map_values(
            |a: SliceTree<String>| SpecToken::Argument(a.start(), a.end()),
        )
    }

    /// No argument word's range starts after it ends.
    pub open spec fn args_ordered(&self) -> bool {
        forall|k: int| 0 <= k < self.args_view().len() ==> (#[trigger] self.args_view()[k]).start() <= self.args_view()[k].end()
    }

    /// Every word of this stage views `bytes`.
    pub open spec fn stage_source(&self, bytes: Seq<u8>) -> bool {
        &&& self.command_view().source_view() == bytes
        &&& forall|k: int| 0 <= k < self.args_view().len() ==> (#[trigger] self.args_view()[k]).source_view() == bytes
    }

    proof fn lemma_stage_of_statement(&self, statement: Seq<Token>, bytes: Seq<u8>)
        requires
            self.from_statement(statement),
            tokens_view_source(statement, bytes),
        ensures
            self.stage_view() == tokens_view(statement),
            self.stage_source(bytes),
    {
        assert(statement[0].source_view() is Some);
        assert forall|k: int| 0 <= k < self.args_view().len() implies (#[trigger] self.args_view()[k]).source_view()
            == bytes by {
            assert(is_argument_view(statement[k + 1], self.args_view()[k]));
            assert(statement[k + 1].source_view() is Some);
        }
        assert forall|k: int| 0 <= k < statement.len() implies self.stage_view()[k] == tokens_view(statement)[k] by {
            if k > 0 {
                assert(is_argument_view(statement[k], self.args_view()[k - 1]));
            }
        }
        assert(self.stage_view() =~= tokens_view(statement));
    }
}

/// Why a command line gives no pipeline.
#[derive(PartialEq, Eq, Structural, Clone, Copy, Debug)]
pub enum LineError {
    /// The line does not lex.
    Lex(LexError),
    /// The line holds an empty quoted word, which the lexer cannot end.
    EmptyQuotedWord,
    /// The tokens do not parse.
    Parse(ParseError),
    /// The last stage is empty: the line ends in a pipe.
    EndsInPipe,
}

/// What `parse_line` answers for `src`.
pub open spec fn parse_line_result(src: &str, r: Result<Vec<ParsedCommand>, LineError>) -> bool {
    match lex_outcome(src) {
        LexStep::Stuck => r == Err::<Vec<ParsedCommand>, LineError>(LineError::EmptyQuotedWord),
        LexStep::Fail(e) => r == Err::<Vec<ParsedCommand>, LineError>(LineError::Lex(e)),
        LexStep::Go(st) => match spec_split(st.tokens) {
            SplitOutcome::DoublePipe => r == Err::<Vec<ParsedCommand>, LineError>(
                LineError::Parse(ParseError::DoublePipe),
            ),
            SplitOutcome::EndsInPipe => r == Err::<Vec<ParsedCommand>, LineError>(LineError::EndsInPipe),
            SplitOutcome::Segments(segs) => r matches Ok(cmds) && cmds@.len() == segs.len() && forall|i: int|
                0 <= i < segs.len() ==> {
                    &&& #[trigger] cmds@[i].stage_view() == st.tokens.subrange(segs[i].0, segs[i].1)
                    &&& cmds@[i].stage_source(encode_utf8(src@))
                    &&& cmds@[i].command_view().start() <= cmds@[i].command_view().end()
                    &&& cmds@[i].args_ordered()
                },
        },
    }
}

/// Lexes a command line and parses its tokens into pipeline stages, each a
/// command word and its argument words, all viewing the bytes of `src`.
pub fn parse_line(src: &str) -> (r: Result<Vec<ParsedCommand>, LineError>)
    ensures
        parse_line_result(src, r),
{
    let tokens = match try_lex(src) {
        None => return Err(LineError::EmptyQuotedWord),
        Some(Err(e)) => return Err(LineError::Lex(e)),
        Some(Ok(tokens)) => tokens,
    };
    proof {
        lemma_lex_shape(src);
        lemma_lexed_line_parses(src);
        lemma_split_prefix_runs(tokens_view(tokens@), tokens@.len());
    }
    let ghost tv = tokens_view(tokens@);
    match split_stages(tokens.as_slice()) {
        Err(e) => return Err(LineError::Parse(e)),
        Ok((_, None)) => {
            proof {
                let segs = spec_split_prefix(tv, tv.len())->Go_0;
                if segs.len() > 0 {
                    assert(tv[segs.last().1] is Pipe);
                    assert(segs.last().1 == tv.len() - 1);
                }
            }
            return Err(LineError::EndsInPipe);
        },
        Ok((_, Some(_))) => {},
    }
    match parse(tokens.as_slice()) {
        Ok(cmds) => {
            proof {
                lemma_split_segments(tv);
                let segs = spec_split(tv)->Segments_0;
                assert forall|i: int| 0 <= i < segs.len() implies {
                    &&& #[trigger] cmds@[i].stage_view() == tv.subrange(segs[i].0, segs[i].1)
                    &&& cmds@[i].stage_source(encode_utf8(src@))
                    &&& cmds@[i].command_view().start() <= cmds@[i].command_view().end()
                    &&& cmds@[i].args_ordered()
                } by {
                    let statement = tokens@.subrange(segs[i].0, segs[i].1);
                    assert(cmds@[i].from_statement(statement));
                    assert(tokens_view_source(statement, encode_utf8(src@))) by {
                        assert forall|k: int| 0 <= k < statement.len() && #[trigger] statement[k].source_view() is Some
                            implies statement[k].source_view()->0 == encode_utf8(src@) by {
                            assert(statement[k] == tokens@[segs[i].0 + k]);
                        }
                    }
                    cmds@[i].lemma_stage_of_statement(statement, encode_utf8(src@));
                    lemma_subrange_view(tokens@, segs[i].0, segs[i].1);
                    assert(tv[segs[i].0] == cmds@[i].stage_view()[0]);
                    let args = cmds@[i].args_view();
                    assert forall|k: int| 0 <= k < args.len() implies (#[trigger] args[k]).start() <= args[k].end() by {
                        assert(cmds@[i].stage_view()[k + 1] == SpecToken::Argument(args[k].start(), args[k].end()));
                        assert(tv[segs[i].0 + k + 1] == cmds@[i].stage_view()[k + 1]);
                    }
                }
            }
            Ok(cmds)
        },
        Err(e) => Err(LineError::Parse(e)),
    }
}


/// The token at `k` is a pipe with no stage before it: it is the first
/// token, or it follows another pipe.
pub open spec fn pipe_without_stage(ts: Seq<SpecToken>, k: int) -> bool {
    ts[k] is Pipe && (k == 0 || ts[k - 1] is Pipe)
}

proof fn lemma_split_prefix_double(ts: Seq<SpecToken>, n: nat)
    requires
        n <= ts.len(),
    ensures
        (spec_split_prefix(ts, n) is DoublePipe) == (exists|k: int| 0 <= k < n && #[trigger] pipe_without_stage(ts, k)),
        spec_split_prefix(ts, n) matches SplitStep::Go(segs, cur) ==> ((cur is None) == (n == 0 || ts[n - 1] is Pipe)),
    decreases n,
{
    if n > 0 {
        let m = (n - 1) as nat;
        lemma_split_prefix_double(ts, m);
        if spec_split_prefix(ts, m) is DoublePipe {
            let k = choose|k: int| 0 <= k < m && #[trigger] pipe_without_stage(ts, k);
            assert(0 <= k < n && pipe_without_stage(ts, k));
        } else {
            assert forall|k: int| 0 <= k < m implies !#[trigger] pipe_without_stage(ts, k) by {
            }
            if spec_split_prefix(ts, n) is DoublePipe {
                assert(pipe_without_stage(ts, m as int));
            } else {
                assert forall|k: int| 0 <= k < n implies !#[trigger] pipe_without_stage(ts, k) by {
                    if k < m {
                    }
                }
            }
        }
    }
}

/// Splitting at pipes fails exactly when some pipe has no stage before it
/// (it is the first token, or it follows another pipe); otherwise it gives
/// stages, unless the list is empty or ends in a pipe.  However many pipes
/// there are, a list whose every pipe follows a word and that ends in a
/// word splits into stages.
pub proof fn lemma_split_outcome(ts: Seq<SpecToken>)
    ensures
        (spec_split(ts) is DoublePipe) == (exists|k: int| 0 <= k < ts.len() && #[trigger] pipe_without_stage(ts, k)),
        (spec_split(ts) is EndsInPipe) == (!(exists|k: int| 0 <= k < ts.len() && #[trigger] pipe_without_stage(ts, k))
            && (ts.len() == 0 || ts.last() is Pipe)),
        (spec_split(ts) is Segments) == (!(exists|k: int| 0 <= k < ts.len() && #[trigger] pipe_without_stage(ts, k))
            && ts.len() > 0 && !(ts.last() is Pipe)),
{
    lemma_split_prefix_double(ts, ts.len());
}

} // verus!
