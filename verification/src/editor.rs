use vstd::prelude::*;
use vstd::utf8::{
    encode_scalar, encode_utf8, encode_utf8_first_scalar, is_char_boundary, length_of_first_scalar,
    pop_first_scalar,
};

verus! {

/// A key press, as the line editor sees it.
#[derive(PartialEq, Eq, Structural, Clone, Copy, Debug)]
pub enum KeyInput {
    /// A character; `control` holds when Control, and no other modifier,
    /// was down.
    Char { c: char, control: bool },
    Backspace,
    Left,
    Right,
    Up,
    Down,
    Enter,
    Esc,
    /// Any other key, a release, or an event that is not a key.
    Ignored,
}

/// What the shell does after a key: redraw the line, show `^C` and redraw,
/// run the line, or leave.
#[derive(PartialEq, Eq, Structural, Clone, Copy, Debug)]
pub enum EditAction {
    Redraw,
    Interrupted,
    Submit,
    Quit,
}

/// The editor's state: the line being typed, the cursor (a byte position),
/// the lines entered before (oldest first) and how far back the last recall
/// went.
pub struct EditorView {
    pub buffer: Seq<char>,
    pub cursor: int,
    pub history: Seq<Seq<char>>,
    pub history_index: Option<int>,
}

/// The length in bytes of the UTF-8 encoding of `s`.
pub open spec fn byte_len(s: Seq<char>) -> int {
    encode_utf8(s).len() as int
}

/// The index of the character whose encoding starts at byte `pos` of the
/// encoding of `chars` (none at the end or inside a character).
pub open spec fn char_index_at(chars: Seq<char>, pos: int) -> Option<int>
    decreases chars.len(),
{
    if chars.len() == 0 || pos < 0 {
        None
    } else if pos == 0 {
        Some(0)
    } else {
        let w = encode_scalar(chars[0] as u32).len() as int;
        match char_index_at(chars.drop_first(), pos - w) {
            Some(k) => Some(k + 1),
            None => None,
        }
    }
}

/// The history entry `index` steps back from the newest.
pub open spec fn recalled(history: Seq<Seq<char>>, index: int) -> Seq<char> {
    history[history.len() - 1 - index]
}

/// What a key does to the editor.
pub open spec fn spec_edit(v: EditorView, key: KeyInput) -> (EditorView, EditAction) {
    match key {
        KeyInput::Char { c, control } => if control && c == 'c' {
            (EditorView { buffer: seq![], cursor: 0, ..v }, EditAction::Interrupted)
        } else if control && c == 'd' && v.buffer.len() == 0 {
            (v, EditAction::Quit)
        } else if control && c != 'd' {
            (v, EditAction::Redraw)
        } else {
            (EditorView { buffer: v.buffer.push(c), cursor: v.cursor + 1, ..v }, EditAction::Redraw)
        },
        KeyInput::Backspace => if v.cursor == 0 {
            (v, EditAction::Redraw)
        } else if v.cursor == byte_len(v.buffer) {
            (EditorView { buffer: v.buffer.drop_last(), cursor: v.cursor - 1, ..v }, EditAction::Redraw)
        } else {
            (
                EditorView {
                    buffer: v.buffer.remove(char_index_at(v.buffer, v.cursor)->Some_0),
                    cursor: v.cursor - 1,
                    ..v
                },
                EditAction::Redraw,
            )
        },
        KeyInput::Left => (
            EditorView {
                cursor: if v.cursor == 0 {
                    byte_len(v.buffer)
                } else {
                    v.cursor - 1
                },
                ..v
            },
            EditAction::Redraw,
        ),
        KeyInput::Right => (
            EditorView {
                cursor: if v.cursor == byte_len(v.buffer) {
                    0
                } else {
                    v.cursor + 1
                },
                ..v
            },
            EditAction::Redraw,
        ),
        KeyInput::Up => if v.history.len() == 0 {
            (v, EditAction::Redraw)
        } else {
            let index = match v.history_index {
                Some(i) => i,
                None => 0,
            };
            let entry = recalled(v.history, index);
            (
                EditorView {
                    buffer: entry,
                    cursor: byte_len(entry),
                    history_index: Some(
                        if index + 1 < v.history.len() {
                            index + 1
                        } else {
                            index
                        },
                    ),
                    ..v
                },
                EditAction::Redraw,
            )
        },
        KeyInput::Down => match v.history_index {
            Some(i) => if i == 0 {
                (EditorView { buffer: seq![], cursor: 0, history_index: None, ..v }, EditAction::Redraw)
            } else {
                let entry = recalled(v.history, i - 1);
                (
                    EditorView { buffer: entry, cursor: byte_len(entry), history_index: Some(i - 1), ..v },
                    EditAction::Redraw,
                )
            },
            None => (EditorView { cursor: byte_len(v.buffer), ..v }, EditAction::Redraw),
        },
        KeyInput::Enter => (v, EditAction::Submit),
        KeyInput::Esc => (v, EditAction::Quit),
        KeyInput::Ignored => (v, EditAction::Redraw),
    }
}

/// The keys the editor handles in a given state: the others would move the
/// cursor past the largest `usize`, grow the line past the largest `isize`
/// bytes, delete at a cursor past the end or inside a character, or recall
/// an entry the history does not have.
pub open spec fn edit_defined(v: EditorView, key: KeyInput) -> bool {
    match key {
        KeyInput::Char { c, control } => (control && (c == 'c' || c != 'd' || v.buffer.len() == 0)) || (
        v.cursor + 1 <= usize::MAX && byte_len(v.buffer) + 4 <= isize::MAX),
        KeyInput::Backspace => v.cursor <= byte_len(v.buffer) && (0 < v.cursor < byte_len(v.buffer)
            ==> char_index_at(v.buffer, v.cursor) is Some),
        KeyInput::Right => v.cursor != byte_len(v.buffer) ==> v.cursor + 1 <= usize::MAX,
        KeyInput::Up => v.history.len() > 0 ==> (v.history_index matches Some(i) ==> i < v.history.len()),
        KeyInput::Down => match v.history_index {
            Some(i) => i > 0 ==> i - 1 < v.history.len(),
            None => true,
        },
        _ => true,
    }
}


/// The encoding of two strings one after the other is the encoding of the
/// first followed by that of the second.
pub proof fn lemma_encode_concat(a: Seq<char>, b: Seq<char>)
    ensures
        encode_utf8(a + b) == encode_utf8(a) + encode_utf8(b),
    decreases a.len(),
{
    if a.len() == 0 {
        assert(a + b =~= b);
        assert(encode_utf8(a) + encode_utf8(b) =~= encode_utf8(b));
    } else {
        lemma_encode_concat(a.drop_first(), b);
        assert((a + b).drop_first() =~= a.drop_first() + b);
        assert((a + b)[0] == a[0]);
        assert(encode_utf8(a + b) =~= encode_utf8(a) + encode_utf8(b));
    }
}

/// A character takes one to four bytes.
pub proof fn lemma_scalar_len(c: char)
    ensures
        1 <= encode_scalar(c as u32).len() <= 4,
{
}

proof fn lemma_encode_push(a: Seq<char>, c: char)
    ensures
        encode_utf8(a.push(c)) == encode_utf8(a) + encode_scalar(c as u32),
        byte_len(a.push(c)) == byte_len(a) + encode_scalar(c as u32).len(),
{
    lemma_encode_concat(a, seq![c]);
    assert(a.push(c) =~= a + seq![c]);
    assert(seq![c].drop_first() =~= Seq::<char>::empty());
    assert(encode_utf8(seq![c]) == encode_scalar(c as u32) + encode_utf8(seq![c].drop_first()));
    assert(encode_utf8(seq![c]) =~= encode_scalar(c as u32));
}

proof fn lemma_encode_drop_last(a: Seq<char>)
    requires
        a.len() > 0,
    ensures
        byte_len(a.drop_last()) + encode_scalar(a.last() as u32).len() == byte_len(a),
{
    lemma_encode_push(a.drop_last(), a.last());
    assert(a.drop_last().push(a.last()) =~= a);
}

/// No characters, no bytes; some characters, some bytes.
proof fn lemma_byte_len_zero(a: Seq<char>)
    ensures
        (byte_len(a) == 0) == (a.len() == 0),
{
    if a.len() > 0 {
        lemma_scalar_len(a[0]);
    }
}

/// `char_index_at` names a character of the string.
pub proof fn lemma_char_index_in_range(chars: Seq<char>, pos: int)
    ensures
        char_index_at(chars, pos) matches Some(k) ==> 0 <= k < chars.len(),
    decreases chars.len(),
{
    if chars.len() > 0 && pos > 0 {
        lemma_char_index_in_range(chars.drop_first(), pos - encode_scalar(chars[0] as u32).len());
    }
}

/// Inside the encoding of `chars`, a byte position is a character boundary
/// exactly when a character's encoding starts there.
proof fn lemma_boundary(chars: Seq<char>, pos: int)
    requires
        0 <= pos < byte_len(chars),
    ensures
        is_char_boundary(encode_utf8(chars), pos) <==> char_index_at(chars, pos) is Some,
    decreases chars.len(),
{
    broadcast use vstd::utf8::encode_utf8_valid_utf8;

    let bytes = encode_utf8(chars);
    lemma_byte_len_zero(chars);
    if pos > 0 {
        encode_utf8_first_scalar(chars);
        let w = encode_scalar(chars[0] as u32).len() as int;
        let rest = chars.drop_first();
        assert(bytes == encode_scalar(chars[0] as u32) + encode_utf8(rest));
        assert(pop_first_scalar(bytes) =~= encode_utf8(rest));
        assert(length_of_first_scalar(bytes) == w);
        lemma_byte_len_zero(rest);
        assert(vstd::utf8::valid_utf8(bytes));
        assert(vstd::utf8::valid_utf8(encode_utf8(rest)));
        assert(is_char_boundary(bytes, pos) == is_char_boundary(pop_first_scalar(bytes), pos - w));
        if pos - w > 0 {
            lemma_boundary(rest, pos - w);
            assert(char_index_at(chars, pos) is Some <==> char_index_at(rest, pos - w) is Some);
        } else if pos - w == 0 {
            assert(is_char_boundary(encode_utf8(rest), 0));
            assert(char_index_at(rest, 0) == Some(0int));
        } else {
            assert(!is_char_boundary(encode_utf8(rest), pos - w));
            assert(char_index_at(rest, pos - w) is None);
        }
    } else {
        assert(vstd::utf8::valid_utf8(bytes));
        assert(is_char_boundary(bytes, 0));
    }
}

/// Removing a character takes away its bytes.
proof fn lemma_encode_remove(a: Seq<char>, k: int)
    requires
        0 <= k < a.len(),
    ensures
        byte_len(a.remove(k)) + encode_scalar(a[k] as u32).len() == byte_len(a),
{
    let left = a.take(k);
    let right = a.skip(k + 1);
    assert(a =~= left.push(a[k]) + right);
    assert(a.remove(k) =~= left + right);
    lemma_encode_concat(left.push(a[k]), right);
    lemma_encode_concat(left, right);
    lemma_encode_push(left, a[k]);
}

/// `String::push`: appends `c` to `s`.  (Growing a string past `isize::MAX`
/// bytes panics; the `requires` leaves that out.)
#[verifier::external_body]
pub(crate) fn push_char(s: &mut String, c: char)
    requires
        byte_len(old(s)@) + 4 <= isize::MAX,
    ensures
        final(s)@ == old(s)@.push(c),
{
    s.push(c);
}

/// `String::pop`: removes and returns the last character, if there is one.
#[verifier::external_body]
fn pop_char(s: &mut String) -> (c: Option<char>)
    ensures
        old(s)@.len() == 0 ==> c is None && final(s)@ == old(s)@,
        old(s)@.len() > 0 ==> c == Some(old(s)@.last()) && final(s)@ == old(s)@.drop_last(),
{
    s.pop()
}

/// `String::remove`: removes and returns the character whose encoding
/// starts at byte `idx` (it panics at the end of the string or inside a
/// character; the `requires` leaves those out).
#[verifier::external_body]
fn remove_char(s: &mut String, idx: usize) -> (c: char)
    requires
        char_index_at(old(s)@, idx as int) is Some,
    ensures
        final(s)@ == old(s)@.remove(char_index_at(old(s)@, idx as int)->Some_0),
        c == old(s)@[char_index_at(old(s)@, idx as int)->Some_0],
{
    s.remove(idx)
}

/// The length in bytes of a string.
fn line_len(s: &String) -> (n: usize)
    requires
        byte_len(s@) <= isize::MAX,
    ensures
        n == byte_len(s@),
{
    s.as_str().len()
}

/// Whether the UTF-8 bytes of `line` begin with `exit`.
pub open spec fn starts_with_exit(line: Seq<char>) -> bool {
    encode_utf8(line).len() >= 4 && encode_utf8(line).take(4) == seq![101u8, 120u8, 105u8, 116u8]
}

/// What ending a line gives.
pub enum SubmitOutcome {
    /// The line was empty.
    Empty,
    /// The line begins with `exit`.
    Exit,
    /// A command line to run.
    Run(String),
}

/// An interactive line editor with a history of the lines entered.
pub struct LineEditor {
    buffer: String,
    cursor: usize,
    history: Vec<String>,
    history_index: Option<usize>,
}

impl View for LineEditor {
    type V = EditorView;

    closed spec fn view(&self) -> EditorView {
        EditorView {
            buffer: self.buffer@,
            cursor: self.cursor as int,
            history: self.history@.map_values(|h: String| h@),
            history_index: match self.history_index {
                Some(i) => Some(i as int),
                None => None,
            },
        }
    }
}

impl LineEditor {
    /// Every line the editor holds fits in `isize::MAX` bytes.
    pub closed spec fn wf(&self) -> bool {
        &&& byte_len(self.buffer@) <= isize::MAX
        &&& forall|i: int| 0 <= i < self.history@.len() ==> byte_len(#[trigger] self.history@[i]@) <= isize::MAX
    }

    /// An editor with an empty line and no history.
    pub fn new() -> (e: Self)
        ensures
            e.wf(),
            e@.buffer == Seq::<char>::empty(),
            e@.cursor == 0,
            e@.history == Seq::<Seq<char>>::empty(),
            e@.history_index == Some(0int),
    {
        let e = LineEditor { buffer: String::new(), cursor: 0, history: Vec::new(), history_index: Some(0) };
        assert(e@.history =~= Seq::<Seq<char>>::empty());
        e
    }

    /// Starts a new line: empty, cursor at the start, recall from the newest.
    pub fn begin_line(&mut self)
        requires
            old(self).wf(),
        ensures
            final(self).wf(),
            final(self)@ == (EditorView {
                buffer: Seq::empty(),
                cursor: 0,
                history_index: Some(0),
                ..old(self)@
            }),
    {
        self.cursor = 0;
        self.buffer = String::new();
        self.history_index = Some(0);
    }

    /// The line being typed.
    pub fn buffer(&self) -> (s: &str)
        ensures
            s@ == self@.buffer,
    {
        self.buffer.as_str()
    }

    /// The cursor, as a byte position in the line.
    pub fn cursor(&self) -> (c: usize)
        ensures
            c == self@.cursor,
    {
        self.cursor
    }

    /// Whether the editor handles `key` now (see `edit_defined`).
    pub fn accepts(&self, key: KeyInput) -> (b: bool)
        requires
            self.wf(),
        ensures
            b == edit_defined(self@, key),
    {
        match key {
            KeyInput::Char { c, control } => (control && (c == 'c' || c != 'd' || line_len(&self.buffer) == 0)) || (
            self.cursor < usize::MAX && line_len(&self.buffer) <= (isize::MAX as usize) - 4),
            KeyInput::Backspace => {
                let len = line_len(&self.buffer);
                if self.cursor > len {
                    false
                } else if 0 < self.cursor && self.cursor < len {
                    proof {
                        lemma_boundary(self.buffer@, self.cursor as int);
                    }
                    self.buffer.as_str().is_char_boundary(self.cursor)
                } else {
                    true
                }
            },
            KeyInput::Right => self.cursor == line_len(&self.buffer) || self.cursor < usize::MAX,
            KeyInput::Up => self.history.len() == 0 || match self.history_index {
                Some(i) => i < self.history.len(),
                None => true,
            },
            KeyInput::Down => match self.history_index {
                Some(i) => i == 0 || i - 1 < self.history.len(),
                None => true,
            },
            _ => true,
        }
    }

    /// Handles one key: edits the line, moves the cursor, recalls history,
    /// and says what the shell does next.
    pub fn handle_key(&mut self, key: KeyInput) -> (action: EditAction)
        requires
            old(self).wf(),
            edit_defined(old(self)@, key),
        ensures
            final(self).wf(),
            (final(self)@, action) == spec_edit(old(self)@, key),
    {
        proof {
            lemma_byte_len_zero(self.buffer@);
        }
        let ghost v = self@;
        match key {
            KeyInput::Char { c, control } => {
                if control && c == 'c' {
                    self.buffer = String::new();
                    self.cursor = 0;
                    return EditAction::Interrupted;
                }
                if control && c == 'd' && line_len(&self.buffer) == 0 {
                    return EditAction::Quit;
                }
                if control && c != 'd' {
                    return EditAction::Redraw;
                }
                proof {
                    lemma_encode_push(self.buffer@, c);
                    lemma_scalar_len(c);
                }
                push_char(&mut self.buffer, c);
                self.cursor = self.cursor + 1;
                EditAction::Redraw
            },
            KeyInput::Backspace => {
                let len = line_len(&self.buffer);
                if self.cursor == 0 {
                    return EditAction::Redraw;
                }
                if self.cursor == len {
                    proof {
                        lemma_encode_drop_last(self.buffer@);
                    }
                    pop_char(&mut self.buffer);
                } else {
                    proof {
                        let k = char_index_at(self.buffer@, self.cursor as int)->Some_0;
                        lemma_char_index_in_range(self.buffer@, self.cursor as int);
                        lemma_encode_remove(self.buffer@, k);
                    }
                    remove_char(&mut self.buffer, self.cursor);
                }
                self.cursor = self.cursor - 1;
                EditAction::Redraw
            },
            KeyInput::Left => {
                if self.cursor == 0 {
                    self.cursor = line_len(&self.buffer);
                } else {
                    self.cursor = self.cursor - 1;
                }
                EditAction::Redraw
            },
            KeyInput::Right => {
                if self.cursor == line_len(&self.buffer) {
                    self.cursor = 0;
                } else {
                    self.cursor = self.cursor + 1;
                }
                EditAction::Redraw
            },
            KeyInput::Up => {
                if self.history.len() == 0 {
                    return EditAction::Redraw;
                }
                if self.history_index.is_none() {
                    self.history_index = Some(0);
                }
                let index = match self.history_index {
                    Some(i) => i,
                    None => 0,
                };
                if index + 1 < self.history.len() {
                    self.history_index = Some(index + 1);
                }
                let n = self.history.len();
                self.buffer = self.history[n - 1 - index].clone();
                self.cursor = line_len(&self.buffer);
                EditAction::Redraw
            },
            KeyInput::Down => {
                if let Some(index) = self.history_index {
                    if index == 0 {
                        self.history_index = None;
                        self.buffer = String::new();
                    } else {
                        self.history_index = Some(index - 1);
                        let n = self.history.len();
                        self.buffer = self.history[n - 1 - (index - 1)].clone();
                    }
                }
                self.cursor = line_len(&self.buffer);
                EditAction::Redraw
            },
            KeyInput::Enter => EditAction::Submit,
            KeyInput::Esc => EditAction::Quit,
            KeyInput::Ignored => EditAction::Redraw,
        }
    }

    /// Ends the line being typed: an empty line is dropped; any other is
    /// added to the history, and is either an `exit` (its bytes begin with
    /// `exit`) or a command line to run.
    pub fn submit(&mut self) -> (out: SubmitOutcome)
        requires
            old(self).wf(),
        ensures
            final(self).wf(),
            final(self)@.buffer == old(self)@.buffer,
            final(self)@.cursor == old(self)@.cursor,
            final(self)@.history_index == old(self)@.history_index,
            old(self)@.buffer.len() == 0 ==> out is Empty && final(self)@.history == old(self)@.history,
            old(self)@.buffer.len() > 0 ==> {
                &&& final(self)@.history == old(self)@.history.push(old(self)@.buffer)
                &&& if starts_with_exit(old(self)@.buffer) {
                    out is Exit
                } else {
                    out matches SubmitOutcome::Run(line) && line@ == old(self)@.buffer
                }
            },
    {
        proof {
            lemma_byte_len_zero(self.buffer@);
        }
        if line_len(&self.buffer) == 0 {
            return SubmitOutcome::Empty;
        }
        let ghost old_history = self.history@;
        self.history.push(self.buffer.clone());
        assert(self@.history =~= old(self)@.history.push(old(self)@.buffer)) by {
            assert(self.history@ == old_history.push(self.buffer));
        }
        let bytes = self.buffer.as_str().as_bytes();
        if bytes.len() >= 4 && bytes[0] == 101u8 && bytes[1] == 120u8 && bytes[2] == 105u8 && bytes[3]
            == 116u8 {
            assert(bytes@.take(4) =~= seq![101u8, 120u8, 105u8, 116u8]);
            SubmitOutcome::Exit
        } else {
            assert(bytes@.len() >= 4 ==> bytes@.take(4)[0] == bytes@[0]);
            SubmitOutcome::Run(self.buffer.clone())
        }
    }

    /// The number of lines entered.
    pub fn history_len(&self) -> (n: usize)
        ensures
            n == self@.history.len(),
    {
        self.history.len()
    }
}


/// The recall position names an entry of the history, or is the newest.
pub open spec fn recall_ok(v: EditorView) -> bool {
    v.history_index matches Some(i) ==> (i == 0 || 0 <= i < v.history.len())
}

/// The arrow keys never recall past the history: in a state whose recall
/// position is the newest entry or names an entry (as after `new`,
/// `begin_line` and `submit`), Up and Down are handled, and every key keeps
/// that so.
pub proof fn lemma_recall_stays_in_history(v: EditorView, key: KeyInput, line: Seq<char>)
    requires
        recall_ok(v),
    ensures
        edit_defined(v, KeyInput::Up),
        edit_defined(v, KeyInput::Down),
        recall_ok(spec_edit(v, key).0),
        recall_ok(EditorView { history: v.history.push(line), ..v }),
{
}

/// Every character of `s` is ASCII.
pub open spec fn is_ascii_line(s: Seq<char>) -> bool {
    forall|i: int| 0 <= i < s.len() ==> (#[trigger] s[i] as u32) < 128
}

/// ASCII input keeps the editor well-defined: the line, the cursor inside
/// it, and the history are ASCII.
pub open spec fn ascii_state(v: EditorView) -> bool {
    &&& is_ascii_line(v.buffer)
    &&& 0 <= v.cursor <= v.buffer.len()
    &&& forall|i: int| 0 <= i < v.history.len() ==> is_ascii_line(#[trigger] v.history[i])
    &&& recall_ok(v)
}

proof fn lemma_ascii_byte_len(s: Seq<char>)
    requires
        is_ascii_line(s),
    ensures
        byte_len(s) == s.len(),
        forall|p: int| 0 <= p < s.len() ==> char_index_at(s, p) == Some(p),
    decreases s.len(),
{
    if s.len() > 0 {
        let rest = s.drop_first();
        assert(is_ascii_line(rest)) by {
            assert forall|i: int| 0 <= i < rest.len() implies (#[trigger] rest[i] as u32) < 128 by {
                assert(rest[i] == s[i + 1]);
            }
        }
        lemma_ascii_byte_len(rest);
        assert((s[0] as u32) < 128);
        assert(encode_scalar(s[0] as u32).len() == 1);
        assert forall|p: int| 0 <= p < s.len() implies char_index_at(s, p) == Some(p) by {
            if p > 0 {
                assert(char_index_at(rest, p - 1) == Some(p - 1));
            }
        }
    }
}

/// Typing ASCII never crashes the editor: from an ASCII state, every key
/// other than a non-ASCII character is handled (short of a line or cursor
/// past the machine's limits) and leads to an ASCII state.
pub proof fn lemma_ascii_input_is_handled(v: EditorView, key: KeyInput)
    requires
        ascii_state(v),
        v.buffer.len() + 4 <= isize::MAX,
        key matches KeyInput::Char { c, control } ==> (c as u32) < 128,
    ensures
        edit_defined(v, key),
        ascii_state(spec_edit(v, key).0),
{
    lemma_ascii_byte_len(v.buffer);
    let next = spec_edit(v, key).0;
    match key {
        KeyInput::Char { c, control } => {
            assert(is_ascii_line(seq![]));
            if !(control && (c == 'c' || c != 'd' || v.buffer.len() == 0)) {
                let p = v.buffer.push(c);
                assert(next.buffer == p);
                assert forall|i: int| 0 <= i < p.len() implies (#[trigger] p[i] as u32) < 128 by {
                    if i < v.buffer.len() {
                        assert(p[i] == v.buffer[i]);
                    }
                }
            }
        },
        KeyInput::Backspace => {
            if 0 < v.cursor < v.buffer.len() {
                lemma_char_index_in_range(v.buffer, v.cursor);
                let r = v.buffer.remove(v.cursor);
                assert forall|i: int| 0 <= i < r.len() implies (#[trigger] r[i] as u32) < 128 by {
                    if i < v.cursor {
                        assert(r[i] == v.buffer[i]);
                    } else {
                        assert(r[i] == v.buffer[i + 1]);
                    }
                }
            } else if 0 < v.cursor {
                let r = v.buffer.drop_last();
                assert forall|i: int| 0 <= i < r.len() implies (#[trigger] r[i] as u32) < 128 by {
                    assert(r[i] == v.buffer[i]);
                }
            }
        },
        KeyInput::Up => {
            if v.history.len() > 0 {
                let index = match v.history_index {
                    Some(i) => i,
                    None => 0,
                };
                assert(is_ascii_line(v.history[v.history.len() - 1 - index]));
                lemma_ascii_byte_len(recalled(v.history, index));
            }
        },
        KeyInput::Down => {
            assert(is_ascii_line(seq![]));
            if let Some(i) = v.history_index {
                if i > 0 {
                    assert(is_ascii_line(v.history[v.history.len() - 1 - (i - 1)]));
                    lemma_ascii_byte_len(recalled(v.history, i - 1));
                }
            }
        },
        _ => {},
    }
}

/// Left then Right, or Right then Left, puts the cursor back where it was,
/// wherever it was within the line (both wrap around the line's ends).
pub proof fn lemma_left_right_inverse(v: EditorView)
    requires
        0 <= v.cursor <= byte_len(v.buffer),
    ensures
        spec_edit(spec_edit(v, KeyInput::Left).0, KeyInput::Right).0 == v,
        spec_edit(spec_edit(v, KeyInput::Right).0, KeyInput::Left).0 == v,
{
}

/// After a line is entered and a new one begun, Up recalls the line just
/// entered, with the cursor at its end.
pub proof fn lemma_up_recalls_last_line(v: EditorView)
    requires
        v.history.len() > 0,
        v.history_index == Some(0int),
    ensures
        spec_edit(v, KeyInput::Up).0.buffer == v.history.last(),
        spec_edit(v, KeyInput::Up).0.cursor == byte_len(v.history.last()),
{
}


/// With a non-empty history, Up always recalls one of its entries, with the
/// cursor at the entry's end, and leaves the history as it is; when no entry
/// is being recalled (the recall position is given up, as after Down past
/// the newest, or is at the newest) it recalls the newest entry.
pub proof fn lemma_up_recalls_an_entry(v: EditorView)
    requires
        v.history.len() > 0,
        recall_ok(v),
    ensures
        ({
            let next = spec_edit(v, KeyInput::Up).0;
            &&& exists|j: int| 0 <= j < v.history.len() && next.buffer == #[trigger] v.history[j]
            &&& next.cursor == byte_len(next.buffer)
            &&& next.history == v.history
            &&& next.history_index is Some
            &&& (v.history_index is None || v.history_index == Some(0int)) ==> next.buffer == v.history.last()
        }),
        spec_edit(v, KeyInput::Up).1 == EditAction::Redraw,
{
    let index = match v.history_index {
        Some(i) => i,
        None => 0,
    };
    let j = v.history.len() - 1 - index;
    assert(spec_edit(v, KeyInput::Up).0.buffer == v.history[j]);
}


/// Down moves the recall one entry newer: from the newest it gives up the
/// recall and clears the line; from an older entry it recalls the next
/// newer one; with no recall it keeps the line.  Either way the cursor ends
/// at the end of the line and the history is unchanged.
pub proof fn lemma_down_recalls_newer(v: EditorView)
    requires
        recall_ok(v),
    ensures
        ({
            let next = spec_edit(v, KeyInput::Down).0;
            &&& next.cursor == byte_len(next.buffer)
            &&& next.history == v.history
            &&& v.history_index == Some(0int) ==> next.buffer.len() == 0 && next.history_index is None
            &&& v.history_index is None ==> next.buffer == v.buffer && next.history_index is None
            &&& (v.history_index matches Some(i) && i > 0) ==> (next.history_index == Some(
                v.history_index->Some_0 - 1,
            ) && next.buffer == v.history[v.history.len() - v.history_index->Some_0])
        }),
        spec_edit(v, KeyInput::Down).1 == EditAction::Redraw,
{
    lemma_byte_len_zero(Seq::<char>::empty());
}


/// `char_index_at` names the character whose encoding starts at `pos`.
proof fn lemma_char_index_offset(chars: Seq<char>, pos: int)
    ensures
        char_index_at(chars, pos) matches Some(k) ==> 0 <= k < chars.len() && byte_len(chars.take(k)) == pos,
    decreases chars.len(),
{
    if chars.len() > 0 && pos > 0 {
        let w = encode_scalar(chars[0] as u32).len() as int;
        let rest = chars.drop_first();
        lemma_char_index_offset(rest, pos - w);
        if let Some(k) = char_index_at(rest, pos - w) {
            assert(chars.take(k + 1) =~= seq![chars[0]] + rest.take(k));
            lemma_encode_concat(seq![chars[0]], rest.take(k));
            lemma_encode_push(Seq::<char>::empty(), chars[0]);
            assert(Seq::<char>::empty().push(chars[0]) =~= seq![chars[0]]);
        }
    } else if chars.len() > 0 && pos == 0 {
        assert(chars.take(0) =~= Seq::<char>::empty());
    }
}

/// Editing keys: a plain character is appended to the line (wherever the
/// cursor is) and moves the cursor one on; Backspace at the start does
/// nothing, at the end deletes the last character, and inside the line
/// deletes the character whose encoding starts at the cursor, moving the
/// cursor one back; Control-C empties the line.  The history is never
/// touched.
pub proof fn lemma_editing_keys(v: EditorView, c: char)
    requires
        edit_defined(v, KeyInput::Backspace),
    ensures
        ({
            let next = spec_edit(v, KeyInput::Char { c, control: false }).0;
            next.buffer == v.buffer.push(c) && next.cursor == v.cursor + 1 && next.history == v.history
        }),
        ({
            let next = spec_edit(v, KeyInput::Char { c: 'c', control: true }).0;
            next.buffer.len() == 0 && next.cursor == 0 && next.history == v.history
        }),
        ({
            let next = spec_edit(v, KeyInput::Backspace).0;
            &&& next.history == v.history
            &&& v.cursor == 0 ==> next == v
            &&& v.cursor > 0 ==> next.cursor == v.cursor - 1
            &&& (v.cursor > 0 && v.cursor == byte_len(v.buffer)) ==> next.buffer == v.buffer.drop_last()
            &&& 0 < v.cursor < byte_len(v.buffer) ==> (exists|k: int|
                0 <= k < v.buffer.len() && #[trigger] byte_len(v.buffer.take(k)) == v.cursor && next.buffer
                    == v.buffer.take(k) + v.buffer.skip(k + 1))
        }),
{
    if 0 < v.cursor < byte_len(v.buffer) {
        lemma_char_index_offset(v.buffer, v.cursor);
        let k = char_index_at(v.buffer, v.cursor)->Some_0;
        assert(v.buffer.remove(k) =~= v.buffer.take(k) + v.buffer.skip(k + 1));
        assert(byte_len(v.buffer.take(k)) == v.cursor);
    }
}

} // verus!
