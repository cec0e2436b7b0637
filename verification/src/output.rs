use vstd::prelude::*;

verus! {

/// The bytes a terminal in raw mode receives for `b`: each newline is
/// followed by a carriage return.
pub open spec fn spec_render(b: Seq<u8>) -> Seq<u8>
    decreases b.len(),
{
    if b.len() == 0 {
        seq![]
    } else {
        spec_render(b.drop_last()) + if b.last() == 10u8 {
            seq![10u8, 13u8]
        } else {
            seq![b.last()]
        }
    }
}

/// Writing two pieces of text one after the other sends the terminal what
/// writing them together does.
pub proof fn lemma_render_concat(a: Seq<u8>, b: Seq<u8>)
    ensures
        spec_render(a + b) == spec_render(a) + spec_render(b),
    decreases b.len(),
{
    if b.len() == 0 {
        assert(a + b =~= a);
        assert(spec_render(b) =~= Seq::<u8>::empty());
        assert(spec_render(a) + spec_render(b) =~= spec_render(a));
    } else {
        lemma_render_concat(a, b.drop_last());
        assert((a + b).drop_last() =~= a + b.drop_last());
        assert((a + b).last() == b.last());
        let tail = if b.last() == 10u8 {
            seq![10u8, 13u8]
        } else {
            seq![b.last()]
        };
        assert(spec_render(a + b) =~= spec_render(a) + spec_render(b.drop_last()) + tail);
        assert(spec_render(a) + spec_render(b) =~= spec_render(a) + (spec_render(b.drop_last()) + tail));
    }
}

/// A newline reaches the terminal as a newline and a carriage return; any
/// other byte as itself.  With `lemma_render_concat` this fixes what any
/// text becomes.
pub proof fn lemma_render_byte(x: u8)
    ensures
        spec_render(seq![x]) == if x == 10u8 {
            seq![10u8, 13u8]
        } else {
            seq![x]
        },
{
    assert(seq![x].drop_last() =~= Seq::<u8>::empty());
    assert(spec_render(Seq::<u8>::empty()) =~= Seq::<u8>::empty());
    assert(seq![x].last() == x);
    assert(spec_render(seq![x]) =~= if x == 10u8 {
        seq![10u8, 13u8]
    } else {
        seq![x]
    });
}

/// Text without newlines reaches the terminal unchanged.
pub proof fn lemma_render_plain(b: Seq<u8>)
    requires
        forall|i: int| 0 <= i < b.len() ==> #[trigger] b[i] != 10u8,
    ensures
        spec_render(b) == b,
    decreases b.len(),
{
    if b.len() > 0 {
        lemma_render_plain(b.drop_last());
        assert(b.drop_last().push(b.last()) =~= b);
    } else {
        assert(b =~= Seq::<u8>::empty());
    }
}

/// Every byte of `b` is ASCII.
pub open spec fn all_ascii(b: Seq<u8>) -> bool {
    forall|i: int| 0 <= i < b.len() ==> #[trigger] b[i] < 128
}

/// Writes text to a terminal in raw mode.
pub struct StdoutWriter {}

impl StdoutWriter {
    /// What the terminal is sent for `buf`, which must be ASCII; `write`
    /// reports all of `buf` written.
    pub fn render(&self, buf: &[u8]) -> (out: Vec<u8>)
        requires
            all_ascii(buf@),
        ensures
            out@ == spec_render(buf@),
    {
        let mut out: Vec<u8> = Vec::new();
        let mut i: usize = 0;
        assert(buf@.take(0) =~= Seq::<u8>::empty());
        while i < buf.len()
            invariant
                i <= buf@.len(),
                out@ == spec_render(buf@.take(i as int)),
            decreases buf@.len() - i,
        {
            let byte = buf[i];
            if byte == 10u8 {
                out.push(10u8);
                out.push(13u8);
            } else {
                out.push(byte);
            }
            assert(buf@.take(i + 1).drop_last() =~= buf@.take(i as int));
            i = i + 1;
        }
        assert(buf@.take(buf@.len() as int) =~= buf@);
        out
    }
}

/// The terminal column of the cursor: the cursor's byte position after the
/// prompt, truncated to the 16 bits a column takes.
pub fn prompt_column(cursor: usize, prompt_len: usize) -> (col: u16)
    requires
        cursor + prompt_len <= usize::MAX,
    ensures
        col as int == (cursor + prompt_len) % 65536,
{
    let sum = cursor + prompt_len;
    let col = sum as u16;
    assert(col == sum % 65536) by (bit_vector)
        requires
            col == sum as u16,
    ;
    col
}

/// Why the output of the prompt program gives no prompt.
#[derive(PartialEq, Eq, Structural, Clone, Copy, Debug)]
pub enum PromptError {
    /// The program wrote to its error stream.
    ErrorOutput,
    /// The program's output is not ASCII.
    NonAscii,
}

/// The prompt from the prompt program's output streams: its standard
/// output, provided its error stream is empty and the output is ASCII.
pub fn prompt_from_output<'a>(stdout: &'a [u8], stderr: &[u8]) -> (r: Result<&'a [u8], PromptError>)
    ensures
        stderr@.len() > 0 ==> r == Err::<&[u8], PromptError>(PromptError::ErrorOutput),
        stderr@.len() == 0 && !all_ascii(stdout@) ==> r == Err::<&[u8], PromptError>(PromptError::NonAscii),
        stderr@.len() == 0 && all_ascii(stdout@) ==> (r matches Ok(p) && p@ == stdout@),
{
    if stderr.len() > 0 {
        return Err(PromptError::ErrorOutput);
    }
    let mut i: usize = 0;
    while i < stdout.len()
        invariant
            i <= stdout@.len(),
            stderr@.len() == 0,
            forall|j: int| 0 <= j < i ==> #[trigger] stdout@[j] < 128,
        decreases stdout@.len() - i,
    {
        if stdout[i] >= 128u8 {
            return Err(PromptError::NonAscii);
        }
        i = i + 1;
    }
    Ok(stdout)
}

} // verus!
