use crate::slice_tree::SliceTree;
use vstd::prelude::*;
use vstd::utf8::encode_utf8;

pub use crate::command::{parse, ParsedCommand};

verus! {

broadcast use vstd::string::group_string_axioms;

/// A lexed word of a command line: the first word of a pipeline stage is
/// its command, the later ones its arguments.  Each word views the bytes of
/// the line it came from.
pub enum Token {
    Command(SliceTree<String>),
    Argument(SliceTree<String>),
    Pipe,
}

/// What a token stands for: its kind and the byte range it views.
pub enum SpecToken {
    Command(int, int),
    Argument(int, int),
    Pipe,
}

impl View for Token {
    type V = SpecToken;

    open spec fn view(&self) -> SpecToken {
        match self {
            Token::Command(t) => SpecToken::Command(t.start(), t.end()),
            Token::Argument(t) => SpecToken::Argument(t.start(), t.end()),
            Token::Pipe => SpecToken::Pipe,
        }
    }
}

impl Token {
    /// The source bytes a word views (none for a pipe).
    pub open spec fn source_view(&self) -> Option<Seq<u8>> {
        match self {
            Token::Command(t) => Some(t.source_view()),
            Token::Argument(t) => Some(t.source_view()),
            Token::Pipe => None,
        }
    }

    /// The bytes a token stands for: a word's slice of its line, or `|`.
    pub open spec fn spec_bytes(&self) -> Seq<u8> {
        match self {
            Token::Command(t) => t.bytes_view(),
            Token::Argument(t) => t.bytes_view(),
            Token::Pipe => seq![124u8],
        }
    }

    /// A word's range does not start after it ends.
    pub open spec fn ordered(&self) -> bool {
        match self {
            Token::Command(t) => t.start() <= t.end(),
            Token::Argument(t) => t.start() <= t.end(),
            Token::Pipe => true,
        }
    }

    /// The bytes of the token.
    pub fn as_bytes<'a>(&'a self) -> (b: &'a [u8])
        requires
            self.ordered(),
        ensures
            b@ == self.spec_bytes(),
    {
        match self {
            Token::Command(slice) => slice.as_slice(),
            Token::Argument(slice) => slice.as_slice(),
            Token::Pipe => {
                let pipe: &'a [u8] = &[124u8];
                pipe
            },
        }
    }
}


/// Why a command line does not lex.
#[derive(PartialEq, Eq, Structural, Clone, Copy, Debug)]
pub enum LexError {
    /// A quote opens in the middle of a word.
    InvalidQuotePlacement,
    /// A `|` stands in the middle of a word, at this character column.
    PipeInsideToken { column: usize },
}

/// The lexer's state between two characters.
pub struct LexState {
    pub tokens: Seq<SpecToken>,
    /// Where the word being read started, if one is being read.
    pub start: Option<int>,
    /// Whether the next word ends up a command.
    pub next_is_command: bool,
    pub inside_quotes: bool,
}

/// The lexer after some characters: running, failed with an error, or at a
/// quote that closes a quoted word that never started (where it cannot go on).
pub enum LexStep {
    Go(LexState),
    Fail(LexError),
    Stuck,
}

pub open spec fn lex_initial() -> LexState {
    LexState { tokens: seq![], start: Some(0), next_is_command: true, inside_quotes: false }
}

/// The state after ending the current word at `end`: the word becomes a
/// command or an argument, and any later word is an argument.
pub open spec fn spec_end_token(st: LexState, start: int, end: int) -> LexState {
    LexState {
        tokens: st.tokens.push(
            if st.next_is_command {
                SpecToken::Command(start, end)
            } else {
                SpecToken::Argument(start, end)
            },
        ),
        next_is_command: false,
        ..st
    }
}

/// One character `c` at character column `index`.
pub open spec fn spec_lex_step(st: LexState, index: int, c: char) -> LexStep {
    if st.inside_quotes {
        if c == '"' {
            match st.start {
                Some(start) => LexStep::Go(spec_end_token(st, start, index)),
                None => LexStep::Stuck,
            }
        } else if st.start is None {
            LexStep::Go(LexState { start: Some(index), ..st })
        } else {
            LexStep::Go(st)
        }
    } else if c == '"' {
        if st.start is Some {
            LexStep::Fail(LexError::InvalidQuotePlacement)
        } else {
            LexStep::Go(LexState { inside_quotes: true, ..st })
        }
    } else if c == ' ' {
        match st.start {
            Some(start) => LexStep::Go(LexState { start: None, ..spec_end_token(st, start, index) }),
            None => LexStep::Go(st),
        }
    } else if c == '|' {
        if st.start is Some {
            LexStep::Fail(LexError::PipeInsideToken { column: index as usize })
        } else {
            LexStep::Go(
                LexState { tokens: st.tokens.push(SpecToken::Pipe), next_is_command: true, ..st },
            )
        }
    } else if st.start is None {
        LexStep::Go(LexState { start: Some(index), ..st })
    } else {
        LexStep::Go(st)
    }
}

/// The lexer after the first `n` characters of `chars`.
pub open spec fn spec_lex_prefix(chars: Seq<char>, n: nat) -> LexStep
    decreases n,
{
    if n == 0 {
        LexStep::Go(lex_initial())
    } else {
        match spec_lex_prefix(chars, (n - 1) as nat) {
            LexStep::Go(st) => spec_lex_step(st, n - 1, chars[n - 1]),
            other => other,
        }
    }
}

/// The whole line: after the last character, a word still being read ends
/// at `byte_len`, the line's length in bytes.
pub open spec fn spec_lex(chars: Seq<char>, byte_len: int) -> LexStep {
    match spec_lex_prefix(chars, chars.len()) {
        LexStep::Go(st) => match st.start {
            Some(start) => LexStep::Go(spec_end_token(st, start, byte_len)),
            None => LexStep::Go(st),
        },
        other => other,
    }
}

/// What lexing `src` gives.
pub open spec fn lex_outcome(src: &str) -> LexStep {
    spec_lex(src@, encode_utf8(src@).len() as int)
}

/// The views of a list of tokens.
pub open spec fn tokens_view(tokens: Seq<Token>) -> Seq<SpecToken> {
    tokens.map_values(|t: Token| t@)
}

/// Every word of `tokens` views `bytes`.
pub open spec fn tokens_view_source(tokens: Seq<Token>, bytes: Seq<u8>) -> bool {
    forall|i: int| 0 <= i < tokens.len() && #[trigger] tokens[i].source_view() is Some ==> tokens[i].source_view()->0 == bytes
}

/// Every character needs at least one byte.
proof fn lemma_encode_len(chars: Seq<char>)
    ensures
        chars.len() <= encode_utf8(chars).len(),
    decreases chars.len(),
{
    if chars.len() > 0 {
        lemma_encode_len(chars.drop_first());
    }
}

/// Ends the word `start..end` of `src`, as a command if `is_command` says so
/// (and then no longer).
fn end_token(src: &SliceTree<String>, start: usize, end: usize, is_command: &mut bool) -> (token: Token)
    requires
        src.start() <= start,
        end <= src.end(),
    ensures
        token@ == (if *old(is_command) {
            SpecToken::Command(start as int, end as int)
        } else {
            SpecToken::Argument(start as int, end as int)
        }),
        token.source_view() == Some(src.source_view()),
        !*final(is_command),
{
    let token_slice = src.subslice(start..end);
    let token = if *is_command {
        Token::Command(token_slice)
    } else {
        Token::Argument(token_slice)
    };
    *is_command = false;
    token
}

/// The lexer's exec state, seen as a `LexState`.
spec fn exec_state(tokens: Seq<Token>, start: Option<usize>, next_is_command: bool, inside_quotes: bool) -> LexState {
    LexState {
        tokens: tokens_view(tokens),
        start: match start {
            Some(s) => Some(s as int),
            None => None,
        },
        next_is_command,
        inside_quotes,
    }
}


/// Once the lexer fails or gets stuck, later characters do not change that.
proof fn lemma_lex_prefix_stops(chars: Seq<char>, n: nat, m: nat)
    requires
        n <= m,
        !(spec_lex_prefix(chars, n) is Go),
    ensures
        spec_lex_prefix(chars, m) == spec_lex_prefix(chars, n),
    decreases m - n,
{
    if n < m {
        lemma_lex_prefix_stops(chars, n, (m - 1) as nat);
    }
}

/// What the lexer's loop ends with.
enum LexRun {
    Done(Vec<Token>),
    Failed(LexError),
    Stuck,
}

/// Runs the lexer over `src`, reporting where it cannot go on.
fn lex_core(src: &str) -> (run: LexRun)
    ensures
        match lex_outcome(src) {
            LexStep::Go(st) => run matches LexRun::Done(tokens) && tokens_view(tokens@) == st.tokens
                && tokens_view_source(tokens@, encode_utf8(src@)),
            LexStep::Fail(e) => run == LexRun::Failed(e),
            LexStep::Stuck => run is Stuck,
        },
{
    let distributed_source = SliceTree::consume(src.to_owned());
    let byte_len = distributed_source.range_end();
    proof {
        lemma_encode_len(src@);
    }
    let ghost bytes = encode_utf8(src@);
    let mut tokens = Vec::<Token>::new();
    let mut token_start: Option<usize> = Some(0);
    let mut next_token_is_command = true;
    let mut inside_quotes = false;
    let mut index: usize = 0;
    assert(tokens_view(tokens@) =~= seq![]);
    for chr in it: src.chars()
        invariant
            distributed_source.source_view() == bytes,
            distributed_source.start() == 0,
            distributed_source.end() == byte_len,
            bytes == encode_utf8(src@),
            byte_len == bytes.len(),
            src@.len() <= byte_len,
            index == it.index(),
            it.seq() == src@,
            spec_lex_prefix(src@, index as nat) == LexStep::Go(
                exec_state(tokens@, token_start, next_token_is_command, inside_quotes),
            ),
            token_start matches Some(s) ==> s <= index,
            tokens_view_source(tokens@, bytes),
    {
        let ghost prev = exec_state(tokens@, token_start, next_token_is_command, inside_quotes);
        let ghost prev_tokens = tokens@;
        assert(chr == src@[index as int]);
        if inside_quotes {
            if chr == '"' {
                match token_start {
                    Some(start) => {
                        let token = end_token(&distributed_source, start, index, &mut next_token_is_command);
                        tokens.push(token);
                        assert(tokens_view(tokens@) =~= tokens_view(prev_tokens).push(token@));
                    },
                    None => {
                        proof {
                            lemma_lex_prefix_stops(src@, (index + 1) as nat, src@.len());
                        }
                        return LexRun::Stuck;
                    },
                }
            } else if token_start.is_none() {
                token_start = Some(index);
            }
        } else if chr == '"' {
            if token_start.is_some() {
                proof {
                    lemma_lex_prefix_stops(src@, (index + 1) as nat, src@.len());
                }
                return LexRun::Failed(LexError::InvalidQuotePlacement);
            }
            inside_quotes = true;
        } else if chr == ' ' {
            if let Some(start) = token_start {
                let token = end_token(&distributed_source, start, index, &mut next_token_is_command);
                tokens.push(token);
                assert(tokens_view(tokens@) =~= tokens_view(prev_tokens).push(token@));
                token_start = None;
            }
        } else if chr == '|' {
            if token_start.is_some() {
                proof {
                    lemma_lex_prefix_stops(src@, (index + 1) as nat, src@.len());
                }
                return LexRun::Failed(LexError::PipeInsideToken { column: index });
            }
            tokens.push(Token::Pipe);
            assert(tokens_view(tokens@) =~= tokens_view(prev_tokens).push(SpecToken::Pipe));
            next_token_is_command = true;
        } else if token_start.is_none() {
            token_start = Some(index);
        }
        index = index + 1;
    }
    if let Some(start) = token_start {
        let ghost prev_tokens = tokens@;
        let token = end_token(&distributed_source, start, byte_len, &mut next_token_is_command);
        tokens.push(token);
        assert(tokens_view(tokens@) =~= tokens_view(prev_tokens).push(token@));
    }
    LexRun::Done(tokens)
}


/// What `lex` answers for `src`: the tokens of a line that lexes, each word
/// viewing the bytes of `src`, or the error of one that does not.
pub open spec fn lex_result(src: &str, r: Result<Vec<Token>, LexError>) -> bool {
    match lex_outcome(src) {
        LexStep::Go(st) => r matches Ok(tokens) && tokens_view(tokens@) == st.tokens
            && tokens_view_source(tokens@, encode_utf8(src@)),
        LexStep::Fail(e) => r == Err::<Vec<Token>, LexError>(e),
        LexStep::Stuck => false,
    }
}

/// Splits a command line into words and pipes.  A space ends a word; a word
/// in quotes may hold spaces and pipes; a `|` outside a word ends a pipeline
/// stage; the first word of each stage is its command.
///
/// A line holding an empty quoted word (`""`) has no defined lexing: the
/// closing quote would end a word that never started.
pub fn lex(src: &str) -> (r: Result<Vec<Token>, LexError>)
    requires
        !(lex_outcome(src) is Stuck),
    ensures
        lex_result(src, r),
        r matches Ok(tokens) ==> forall|i: int| 0 <= i < tokens.len() ==> #[trigger] tokens[i].ordered(),
{
    proof {
        lemma_lex_shape(src);
    }
    match lex_core(src) {
        LexRun::Done(tokens) => {
            proof {
                assert forall|i: int| 0 <= i < tokens.len() implies #[trigger] tokens@[i].ordered() by {
                    assert(tokens_view(tokens@)[i] == tokens@[i]@);
                }
            }
            Ok(tokens)
        },
        LexRun::Failed(e) => Err(e),
        // The `requires` rules this out.
        LexRun::Stuck => Err(LexError::InvalidQuotePlacement),
    }
}

/// `lex`, or `None` on the lines that `lex` leaves undefined.
pub fn try_lex(src: &str) -> (r: Option<Result<Vec<Token>, LexError>>)
    ensures
        r is None <==> lex_outcome(src) is Stuck,
        r matches Some(res) ==> lex_result(src, res),
{
    match lex_core(src) {
        LexRun::Done(tokens) => Some(Ok(tokens)),
        LexRun::Failed(e) => Some(Err(e)),
        LexRun::Stuck => None,
    }
}

/// Every word of `ts` views bytes in `0..len`, start no later than end.
pub open spec fn tokens_within(ts: Seq<SpecToken>, len: int) -> bool {
    forall|k: int|
        0 <= k < ts.len() ==> match #[trigger] ts[k] {
            SpecToken::Command(s, e) => 0 <= s <= e <= len,
            SpecToken::Argument(s, e) => 0 <= s <= e <= len,
            SpecToken::Pipe => true,
        }
}

/// The first token is a command, and so is every word right after a pipe;
/// every other word is an argument.
pub open spec fn tokens_shaped(ts: Seq<SpecToken>) -> bool {
    &&& ts.len() > 0 ==> ts[0] is Command
    &&& forall|k: int|
        0 < k < ts.len() ==> (#[trigger] ts[k] is Command <==> (ts[k - 1] is Pipe && !(ts[k] is Pipe)))
}

spec fn lex_state_inv(st: LexState, n: int) -> bool {
    &&& tokens_within(st.tokens, n)
    &&& tokens_shaped(st.tokens)
    &&& st.start matches Some(s) ==> 0 <= s <= n
    &&& st.next_is_command == (st.tokens.len() == 0 || st.tokens.last() is Pipe)
    &&& st.tokens.len() == 0 ==> st.start is Some
}

proof fn lemma_lex_prefix_inv(chars: Seq<char>, n: nat)
    requires
        n <= chars.len(),
    ensures
        spec_lex_prefix(chars, n) matches LexStep::Go(st) ==> lex_state_inv(st, n as int),
    decreases n,
{
    if n > 0 {
        lemma_lex_prefix_inv(chars, (n - 1) as nat);
        if let LexStep::Go(prev) = spec_lex_prefix(chars, (n - 1) as nat) {
            let i = n - 1;
            if let LexStep::Go(st) = spec_lex_step(prev, i, chars[i]) {
                assert(lex_state_inv(st, n as int));
            }
        }
    }
}

/// The tokens of a line that lexes: there is at least one; the first token,
/// and every word right after a pipe, is a command and every other word an
/// argument; every word views, in order, bytes within the line.
pub proof fn lemma_lex_shape(src: &str)
    ensures
        lex_outcome(src) matches LexStep::Go(st) ==> {
            &&& st.tokens.len() > 0
            &&& tokens_shaped(st.tokens)
            &&& tokens_within(st.tokens, encode_utf8(src@).len() as int)
        },
{
    lemma_lex_prefix_inv(src@, src@.len());
    lemma_encode_len(src@);
    if let LexStep::Go(st) = spec_lex_prefix(src@, src@.len()) {
        let n = src@.len() as int;
        let b = encode_utf8(src@).len() as int;
        if let Some(start) = st.start {
            let fin = spec_end_token(st, start, b);
            assert(tokens_within(fin.tokens, b));
            assert(tokens_shaped(fin.tokens));
        } else {
            assert(tokens_within(st.tokens, b));
        }
    }
}


/// No space, quote or pipe in `chars`.
pub open spec fn is_plain_word(chars: Seq<char>) -> bool {
    forall|i: int| 0 <= i < chars.len() ==> #[trigger] chars[i] != ' ' && chars[i] != '"' && chars[i] != '|'
}

proof fn lemma_plain_prefix(chars: Seq<char>, n: nat)
    requires
        n <= chars.len(),
        is_plain_word(chars),
    ensures
        spec_lex_prefix(chars, n) == LexStep::Go(lex_initial()),
    decreases n,
{
    if n > 0 {
        lemma_plain_prefix(chars, (n - 1) as nat);
        assert(chars[n - 1] != ' ' && chars[n - 1] != '"' && chars[n - 1] != '|');
    }
}

/// A line without spaces, quotes or pipes is a single command word that
/// spans all of it.
pub proof fn lemma_plain_word_is_one_command(src: &str)
    requires
        is_plain_word(src@),
    ensures
        lex_outcome(src) matches LexStep::Go(st) && st.tokens == seq![
            SpecToken::Command(0, encode_utf8(src@).len() as int),
        ],
{
    lemma_plain_prefix(src@, src@.len());
    let fin = spec_end_token(lex_initial(), 0, encode_utf8(src@).len() as int);
    assert(fin.tokens =~= seq![SpecToken::Command(0, encode_utf8(src@).len() as int)]);
}


/// No quote in `chars`.
pub open spec fn quote_free(chars: Seq<char>) -> bool {
    forall|i: int| 0 <= i < chars.len() ==> #[trigger] chars[i] != '"'
}

/// The bytes a token stands for in a line whose bytes are `bytes`.
pub open spec fn token_bytes(bytes: Seq<u8>, t: SpecToken) -> Seq<u8> {
    match t {
        SpecToken::Command(s, e) => bytes.subrange(s, e),
        SpecToken::Argument(s, e) => bytes.subrange(s, e),
        SpecToken::Pipe => seq![124u8],
    }
}

/// `a` and `b` are tokens of the same kind.
pub open spec fn same_kind(a: SpecToken, b: SpecToken) -> bool {
    ||| a is Command && b is Command
    ||| a is Argument && b is Argument
    ||| a is Pipe && b is Pipe
}

/// The token lists `t1` of a line with bytes `b1` and `t2` of a line with
/// bytes `b2` hold, one for one, tokens of the same kind standing for the
/// same bytes.
pub open spec fn same_lexing(b1: Seq<u8>, t1: Seq<SpecToken>, b2: Seq<u8>, t2: Seq<SpecToken>) -> bool {
    &&& t1.len() == t2.len()
    &&& forall|i: int|
        0 <= i < t1.len() ==> same_kind(#[trigger] t1[i], t2[i]) && token_bytes(b1, t1[i]) == token_bytes(
            b2,
            t2[i],
        )
}

spec fn shift_token(t: SpecToken) -> SpecToken {
    match t {
        SpecToken::Command(s, e) => SpecToken::Command(s + 1, e + 1),
        SpecToken::Argument(s, e) => SpecToken::Argument(s + 1, e + 1),
        SpecToken::Pipe => SpecToken::Pipe,
    }
}

spec fn token_ends_by(t: SpecToken, q: int) -> bool {
    match t {
        SpecToken::Command(s, e) => 0 <= s <= e <= q,
        SpecToken::Argument(s, e) => 0 <= s <= e <= q,
        SpecToken::Pipe => true,
    }
}

spec fn token_starts_from(t: SpecToken, q: int) -> bool {
    match t {
        SpecToken::Command(s, e) => q <= s,
        SpecToken::Argument(s, e) => q <= s,
        SpecToken::Pipe => true,
    }
}

/// The first `k0` tokens of `t2` are those of `t1`, within `0..q`; the rest
/// are those of `t1` one position later, starting at `q` or after.
spec fn tokens_shifted(t1: Seq<SpecToken>, t2: Seq<SpecToken>, k0: int, q: int) -> bool {
    &&& t2.len() == t1.len()
    &&& 0 <= k0 <= t1.len()
    &&& forall|i: int| 0 <= i < k0 ==> #[trigger] t2[i] == t1[i] && token_ends_by(t1[i], q)
    &&& forall|i: int|
        k0 <= i < t1.len() ==> #[trigger] t2[i] == shift_token(t1[i]) && token_starts_from(t1[i], q)
}

/// Lexer states, the second one position later than the first past `q`.
spec fn states_shifted(s1: LexState, s2: LexState, k0: int, q: int) -> bool {
    &&& tokens_shifted(s1.tokens, s2.tokens, k0, q)
    &&& s2.next_is_command == s1.next_is_command
    &&& !s1.inside_quotes && !s2.inside_quotes
    &&& match s1.start {
        Some(st) => q <= st && s2.start == Some(st + 1),
        None => s2.start is None,
    }
}

spec fn steps_shifted(r1: LexStep, r2: LexStep, k0: int, q: int) -> bool {
    ||| r1 is Fail && r2 is Fail
    ||| r1 is Go && r2 is Go && states_shifted(r1->Go_0, r2->Go_0, k0, q)
}

/// The lexer's state after `n` characters depends on those characters only.
proof fn lemma_lex_prefix_same(c1: Seq<char>, c2: Seq<char>, n: nat)
    requires
        n <= c1.len(),
        n <= c2.len(),
        forall|i: int| 0 <= i < n ==> c1[i] == c2[i],
    ensures
        spec_lex_prefix(c1, n) == spec_lex_prefix(c2, n),
    decreases n,
{
    if n > 0 {
        lemma_lex_prefix_same(c1, c2, (n - 1) as nat);
    }
}

/// Without quotes the lexer never enters a quoted word.
proof fn lemma_quote_free_prefix(c: Seq<char>, n: nat)
    requires
        n <= c.len(),
        quote_free(c),
    ensures
        spec_lex_prefix(c, n) is Go || spec_lex_prefix(c, n) is Fail,
        spec_lex_prefix(c, n) matches LexStep::Go(st) ==> !st.inside_quotes,
    decreases n,
{
    if n > 0 {
        lemma_quote_free_prefix(c, (n - 1) as nat);
        assert(c[n - 1] != '"');
        if let LexStep::Fail(_) = spec_lex_prefix(c, (n - 1) as nat) {
            lemma_lex_prefix_stops(c, (n - 1) as nat, n);
        }
    }
}

proof fn lemma_step_shifted(s1: LexState, s2: LexState, k0: int, q: int, n: int, c: char)
    requires
        states_shifted(s1, s2, k0, q),
        q <= n,
        c != '"',
        token_starts_from(SpecToken::Command(n, n), q),
        forall|i: int| 0 <= i < s1.tokens.len() ==> token_ends_by(#[trigger] s1.tokens[i], n),
        s1.start matches Some(st) ==> st <= n,
    ensures
        steps_shifted(spec_lex_step(s1, n, c), spec_lex_step(s2, n + 1, c), k0, q),
{
    let r1 = spec_lex_step(s1, n, c);
    let r2 = spec_lex_step(s2, n + 1, c);
    if let LexStep::Go(n1) = r1 {
        if let LexStep::Go(n2) = r2 {
            if n1.tokens.len() > s1.tokens.len() {
                let t1 = n1.tokens;
                let t2 = n2.tokens;
                assert forall|i: int| 0 <= i < k0 implies #[trigger] t2[i] == t1[i] && token_ends_by(t1[i], q) by {
                    assert(t1[i] == s1.tokens[i]);
                    assert(t2[i] == s2.tokens[i]);
                }
                assert forall|i: int| k0 <= i < t1.len() implies #[trigger] t2[i] == shift_token(t1[i])
                    && token_starts_from(t1[i], q) by {
                    if i < s1.tokens.len() {
                        assert(t1[i] == s1.tokens[i]);
                        assert(t2[i] == s2.tokens[i]);
                    }
                }
            }
        }
    }
}

/// Past the inserted space, the lexings of the two lines go on in step.
proof fn lemma_prefix_shifted(c1: Seq<char>, c2: Seq<char>, q: int, k0: int, n: nat)
    requires
        0 <= q <= n <= c1.len(),
        quote_free(c1),
        c2 == c1.insert(q, ' '),
        steps_shifted(spec_lex_prefix(c1, q as nat), spec_lex_prefix(c2, (q + 1) as nat), k0, q),
    ensures
        steps_shifted(spec_lex_prefix(c1, n), spec_lex_prefix(c2, n + 1), k0, q),
    decreases n,
{
    if n > q {
        let m = (n - 1) as nat;
        lemma_prefix_shifted(c1, c2, q, k0, m);
        lemma_lex_prefix_inv(c1, m);
        assert(c2[m as int + 1] == c1[m as int]);
        assert(c1[m as int] != '"');
        if let LexStep::Go(s1) = spec_lex_prefix(c1, m) {
            let s2 = spec_lex_prefix(c2, m + 1)->Go_0;
            assert forall|i: int| 0 <= i < s1.tokens.len() implies token_ends_by(#[trigger] s1.tokens[i], m as int) by {
            }
            lemma_step_shifted(s1, s2, k0, q, m as int, c1[m as int]);
        }
    }
}

/// Token lists related by `tokens_shifted` around a space inserted at
/// `q` stand for the same bytes of the two ASCII lines.
proof fn lemma_shifted_same_lexing(c1: Seq<char>, c2: Seq<char>, q: int, t1: Seq<SpecToken>, t2: Seq<SpecToken>, k0: int)
    requires
        vstd::utf8::is_ascii_chars(c1),
        vstd::utf8::is_ascii_chars(c2),
        0 <= q <= c1.len(),
        c2 == c1.insert(q, ' '),
        tokens_shifted(t1, t2, k0, q),
        tokens_within(t1, c1.len() as int),
    ensures
        same_lexing(encode_utf8(c1), t1, encode_utf8(c2), t2),
{
    vstd::utf8::is_ascii_chars_encode_utf8(c1);
    vstd::utf8::is_ascii_chars_encode_utf8(c2);
    let b1 = encode_utf8(c1);
    let b2 = encode_utf8(c2);
    assert forall|i: int| 0 <= i < t1.len() implies same_kind(#[trigger] t1[i], t2[i]) && token_bytes(b1, t1[i])
        == token_bytes(b2, t2[i]) by {
        if !(t1[i] is Pipe) {
            let (s, e) = match t1[i] {
                SpecToken::Command(s, e) => (s, e),
                SpecToken::Argument(s, e) => (s, e),
                SpecToken::Pipe => (0, 0),
            };
            if i < k0 {
                assert(t2[i] == t1[i] && token_ends_by(t1[i], q));
                assert(b1.subrange(s, e) =~= b2.subrange(s, e)) by {
                    assert forall|j: int| 0 <= j < e - s implies b1.subrange(s, e)[j] == b2.subrange(s, e)[j] by {
                        assert(c2[s + j] == c1[s + j]);
                    }
                }
            } else {
                assert(t2[i] == shift_token(t1[i]) && token_starts_from(t1[i], q));
                assert(b1.subrange(s, e) =~= b2.subrange(s + 1, e + 1)) by {
                    assert forall|j: int| 0 <= j < e - s implies b1.subrange(s, e)[j] == b2.subrange(s + 1, e + 1)[j] by {
                        assert(c2[s + j + 1] == c1[s + j]);
                    }
                }
            }
        }
    }
}

/// A space inserted at the end: the lexer's final tokens do not change.
proof fn lemma_extra_space_at_end(c1: Seq<char>, c2: Seq<char>)
    requires
        quote_free(c1),
        c2 == c1.insert(c1.len() as int, ' '),
        vstd::utf8::is_ascii_chars(c1),
        spec_lex_prefix(c1, c1.len()) is Go,
        spec_lex_prefix(c2, c1.len()) == spec_lex_prefix(c1, c1.len()),
    ensures
        spec_lex(c2, c2.len() as int) is Go,
        spec_lex(c1, c1.len() as int)->Go_0.tokens == spec_lex(c2, c2.len() as int)->Go_0.tokens,
{
    lemma_quote_free_prefix(c1, c1.len());
    assert(c2[c1.len() as int] == ' ');
}

/// A space inserted right after a space: past it, the two lexings go on in
/// step.
proof fn lemma_extra_space_after_space(c1: Seq<char>, c2: Seq<char>, q: int) -> (k0: int)
    requires
        quote_free(c1),
        0 < q < c1.len(),
        c1[q - 1] == ' ',
        c2 == c1.insert(q, ' '),
        spec_lex_prefix(c1, q as nat) is Go,
        spec_lex_prefix(c2, q as nat) == spec_lex_prefix(c1, q as nat),
    ensures
        steps_shifted(spec_lex_prefix(c1, c1.len()), spec_lex_prefix(c2, c2.len()), k0, q),
{
    let pre = spec_lex_prefix(c1, q as nat);
    let st = pre->Go_0;
    lemma_quote_free_prefix(c1, (q - 1) as nat);
    lemma_quote_free_prefix(c1, q as nat);
    lemma_lex_prefix_inv(c1, q as nat);
    assert(st.start is None);
    assert(c2[q] == ' ');
    assert(spec_lex_prefix(c2, (q + 1) as nat) == pre);
    let k0 = st.tokens.len() as int;
    assert(states_shifted(st, st, k0, q));
    lemma_prefix_shifted(c1, c2, q, k0, c1.len());
    k0
}

/// Inserting a space right after a space, or at the end, of an ASCII line
/// without quotes does not change how it lexes: either both lines fail,
/// or both give tokens of the same kinds, one for one, standing for the
/// same bytes.
pub proof fn lemma_lex_extra_space(src: &str, src2: &str, q: int)
    requires
        vstd::utf8::is_ascii_chars(src@),
        quote_free(src@),
        0 <= q <= src@.len(),
        q == src@.len() || (0 < q && src@[q - 1] == ' '),
        src2@ == src@.insert(q, ' '),
    ensures
        !(lex_outcome(src) is Stuck),
        !(lex_outcome(src2) is Stuck),
        lex_outcome(src) is Fail <==> lex_outcome(src2) is Fail,
        lex_outcome(src) is Go ==> same_lexing(
            encode_utf8(src@),
            lex_outcome(src)->Go_0.tokens,
            encode_utf8(src2@),
            lex_outcome(src2)->Go_0.tokens,
        ),
{
    let c1 = src@;
    let c2 = src2@;
    let len = c1.len() as int;
    assert(vstd::utf8::is_ascii_chars(c2)) by {
        assert forall|i: int| 0 <= i < c2.len() implies '\0' <= #[trigger] c2[i] <= '\u{7f}' by {
            if i < q {
                assert(c2[i] == c1[i]);
            } else if i > q {
                assert(c2[i] == c1[i - 1]);
            }
        }
    }
    assert(quote_free(c2)) by {
        assert forall|i: int| 0 <= i < c2.len() implies #[trigger] c2[i] != '"' by {
            if i < q {
                assert(c2[i] == c1[i]);
            } else if i > q {
                assert(c2[i] == c1[i - 1]);
            }
        }
    }
    vstd::utf8::is_ascii_chars_encode_utf8(c1);
    vstd::utf8::is_ascii_chars_encode_utf8(c2);
    lemma_quote_free_prefix(c1, c1.len());
    lemma_quote_free_prefix(c2, c2.len());
    lemma_quote_free_prefix(c1, q as nat);
    lemma_lex_prefix_same(c1, c2, q as nat);
    lemma_lex_shape(src);
    if spec_lex_prefix(c1, q as nat) is Fail {
        lemma_lex_prefix_stops(c1, q as nat, c1.len());
        lemma_lex_prefix_stops(c2, q as nat, c2.len());
        return;
    }
    if q == len {
        lemma_extra_space_at_end(c1, c2);
        let t = lex_outcome(src)->Go_0.tokens;
        assert(tokens_shifted(t, t, t.len() as int, q));
        lemma_shifted_same_lexing(c1, c2, q, t, t, t.len() as int);
    } else {
        let k0 = lemma_extra_space_after_space(c1, c2, q);
        let e1 = spec_lex_prefix(c1, c1.len());
        if e1 is Go {
            let s1 = e1->Go_0;
            let s2 = spec_lex_prefix(c2, c2.len())->Go_0;
            let t1 = lex_outcome(src)->Go_0.tokens;
            let t2 = lex_outcome(src2)->Go_0.tokens;
            assert(tokens_shifted(t1, t2, k0, q)) by {
                if let Some(start) = s1.start {
                    assert forall|i: int| 0 <= i < k0 implies #[trigger] t2[i] == t1[i] && token_ends_by(t1[i], q) by {
                        assert(t1[i] == s1.tokens[i]);
                        assert(t2[i] == s2.tokens[i]);
                    }
                    assert forall|i: int| k0 <= i < t1.len() implies #[trigger] t2[i] == shift_token(t1[i])
                        && token_starts_from(t1[i], q) by {
                        if i < s1.tokens.len() {
                            assert(t1[i] == s1.tokens[i]);
                            assert(t2[i] == s2.tokens[i]);
                        }
                    }
                }
            }
            lemma_shifted_same_lexing(c1, c2, q, t1, t2, k0);
        }
    }
}


/// None of the first `n` characters is a quote: the lexer is not inside a
/// quoted word at character `n`.
pub open spec fn no_quote_before(chars: Seq<char>, n: int) -> bool {
    forall|j: int| 0 <= j < n ==> #[trigger] chars[j] != '"'
}

/// A word is being read when character `i` comes: it is the first
/// character, or the one before it is neither a space nor a pipe.
pub open spec fn word_open_before(chars: Seq<char>, i: int) -> bool {
    i == 0 || (chars[i - 1] != ' ' && chars[i - 1] != '|')
}

/// Character `i` is a pipe or a quote in the middle of a word, outside any
/// quoted word: a place where lexing fails.
pub open spec fn lex_fails_at(chars: Seq<char>, i: int) -> bool {
    &&& 0 <= i < chars.len()
    &&& no_quote_before(chars, i)
    &&& (chars[i] == '|' || chars[i] == '"')
    &&& word_open_before(chars, i)
}

/// The error for a failure at character `i`.
pub open spec fn failure_error(chars: Seq<char>, i: int) -> LexError {
    if chars[i] == '|' {
        LexError::PipeInsideToken { column: i as usize }
    } else {
        LexError::InvalidQuotePlacement
    }
}

proof fn lemma_lex_prefix_failures(chars: Seq<char>, n: nat)
    requires
        n <= chars.len(),
    ensures
        (spec_lex_prefix(chars, n) is Fail) == (exists|i: int| 0 <= i < n && #[trigger] lex_fails_at(chars, i)),
        spec_lex_prefix(chars, n) is Fail ==> (exists|i: int|
            0 <= i < n && #[trigger] lex_fails_at(chars, i) && spec_lex_prefix(chars, n)->Fail_0 == failure_error(
                chars,
                i,
            )),
        spec_lex_prefix(chars, n) matches LexStep::Go(st) ==> (st.inside_quotes == !no_quote_before(chars, n as int)
            && (!st.inside_quotes ==> ((st.start is Some) == word_open_before(chars, n as int)))),
        spec_lex_prefix(chars, n) is Stuck ==> !no_quote_before(chars, n as int),
    decreases n,
{
    if n > 0 {
        let m = (n - 1) as nat;
        lemma_lex_prefix_failures(chars, m);
        let c = chars[m as int];
        match spec_lex_prefix(chars, m) {
            LexStep::Fail(e) => {
                let i = choose|i: int| 0 <= i < m && #[trigger] lex_fails_at(chars, i) && e == failure_error(chars, i);
                assert(0 <= i < n && lex_fails_at(chars, i));
            },
            LexStep::Stuck => {
                assert(!no_quote_before(chars, m as int));
                assert(!lex_fails_at(chars, m as int));
                assert forall|i: int| 0 <= i < n implies !#[trigger] lex_fails_at(chars, i) by {
                    if i < m {
                    }
                }
            },
            LexStep::Go(st) => {
                assert forall|i: int| 0 <= i < m implies !#[trigger] lex_fails_at(chars, i) by {
                }
                if st.inside_quotes {
                    assert(!lex_fails_at(chars, m as int));
                    assert forall|i: int| 0 <= i < n implies !#[trigger] lex_fails_at(chars, i) by {
                        if i < m {
                        }
                    }
                } else {
                    if lex_fails_at(chars, m as int) {
                        assert(spec_lex_prefix(chars, n) == LexStep::Fail(failure_error(chars, m as int)));
                    } else {
                        assert forall|i: int| 0 <= i < n implies !#[trigger] lex_fails_at(chars, i) by {
                            if i < m {
                            }
                        }
                        if c == '"' {
                            assert(!no_quote_before(chars, n as int));
                        } else {
                            assert(no_quote_before(chars, n as int));
                        }
                    }
                }
            },
        }
    }
}

/// Lexing fails exactly where a pipe or a quote comes in the middle of a
/// word, before any quote: a line fails when it has such a character, and
/// then with the error for the first one (a pipe's error names its column).
/// In particular a pipe after a quote, inside a quoted word, is part of the
/// word and never gives `PipeInsideToken`.
pub proof fn lemma_lex_failures(src: &str)
    ensures
        (lex_outcome(src) is Fail) == (exists|i: int| #[trigger] lex_fails_at(src@, i)),
        lex_outcome(src) is Fail ==> (exists|i: int|
            #[trigger] lex_fails_at(src@, i) && lex_outcome(src)->Fail_0 == failure_error(src@, i) && forall|j: int|
                0 <= j < i ==> !lex_fails_at(src@, j)),
        lex_outcome(src) matches LexStep::Fail(LexError::PipeInsideToken { column }) ==> (exists|i: int|
            0 <= i < src@.len() && #[trigger] src@[i] == '|' && no_quote_before(src@, i) && column == i as usize),
{
    let chars = src@;
    lemma_lex_prefix_failures(chars, chars.len());
    assert forall|i: int| #[trigger] lex_fails_at(chars, i) implies 0 <= i < chars.len() by {
    }
    if lex_outcome(src) is Fail {
        let e = lex_outcome(src)->Fail_0;
        // The first failing character.
        let i = choose|i: int| 0 <= i < chars.len() && #[trigger] lex_fails_at(chars, i) && e == failure_error(chars, i);
        lemma_first_failure(chars, i, e);
        if chars[i] == '|' {
            assert(chars[i] == '|' && no_quote_before(chars, i));
        }
    }
}

/// The error of a failing line is that of its first failing character.
proof fn lemma_first_failure(chars: Seq<char>, i: int, e: LexError)
    requires
        lex_fails_at(chars, i),
        spec_lex_prefix(chars, chars.len()) == LexStep::Fail(e),
        e == failure_error(chars, i),
    ensures
        exists|k: int| #[trigger] lex_fails_at(chars, k) && e == failure_error(chars, k) && forall|j: int|
            0 <= j < k ==> !lex_fails_at(chars, j),
{
    // Take the earliest failing character: the lexer stops there.
    let k = earliest_failure(chars, i);
    lemma_lex_prefix_failures(chars, (k + 1) as nat);
    lemma_lex_prefix_failures(chars, k as nat);
    assert forall|j: int| 0 <= j < k implies !lex_fails_at(chars, j) by {
    }
    lemma_lex_prefix_stops(chars, (k + 1) as nat, chars.len());
    assert(!(spec_lex_prefix(chars, k as nat) is Fail));
    let g = spec_lex_prefix(chars, k as nat);
    assert(no_quote_before(chars, k));
    assert(!(g is Stuck));
    assert(spec_lex_prefix(chars, (k + 1) as nat) == LexStep::Fail(failure_error(chars, k)));
}

/// The earliest failing character at or before `i`.
proof fn earliest_failure(chars: Seq<char>, i: int) -> (k: int)
    requires
        lex_fails_at(chars, i),
    ensures
        0 <= k <= i,
        lex_fails_at(chars, k),
        forall|j: int| 0 <= j < k ==> !#[trigger] lex_fails_at(chars, j),
    decreases i,
{
    if exists|j: int| 0 <= j < i && #[trigger] lex_fails_at(chars, j) {
        let j = choose|j: int| 0 <= j < i && #[trigger] lex_fails_at(chars, j);
        earliest_failure(chars, j)
    } else {
        i
    }
}

} // verus!
