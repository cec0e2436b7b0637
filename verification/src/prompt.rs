use crate::editor::{byte_len, lemma_encode_concat, push_char};
use vstd::prelude::*;
use vstd::utf8::{encode_utf8, is_char_boundary};

verus! {

/// What `Path::starts_with` answers for the paths `path` and `base`:
/// whether the components of `base` begin those of `path`.
pub uninterp spec fn path_starts_with(path: Seq<char>, base: Seq<char>) -> bool;

/// `std::path::Path::starts_with`: whether `base`'s components are the first
/// components of `path` (whole components only).  Its answer is named by
/// `path_starts_with`; nothing more is stated of it.
#[verifier::external_body]
fn path_has_prefix(path: &str, base: &str) -> (b: bool)
    ensures
        b == path_starts_with(path@, base@),
{
    std::path::Path::new(path).starts_with(base)
}

/// What `str::len` answers for a string: its length in bytes.
pub open spec fn str_len(s: Seq<char>) -> usize {
    encode_utf8(s).len() as usize
}

/// The text of an optional string.
pub open spec fn home_view(home: Option<&str>) -> Option<Seq<char>> {
    match home {
        Some(h) => Some(h@),
        None => None,
    }
}

/// Whether the prompt shortens `dir` under the home directory `home`.
pub open spec fn under_home(dir: Seq<char>, home: Option<Seq<char>>) -> bool {
    home matches Some(h) && path_starts_with(dir, h)
}

/// The bytes of the prompt for the directory `dir`: under the home
/// directory, `~` and what follows the home directory's bytes; elsewhere
/// the directory itself.
pub open spec fn spec_prompt_bytes(dir: Seq<char>, home: Option<Seq<char>>) -> Seq<u8> {
    if under_home(dir, home) {
        seq![126u8] + encode_utf8(dir).subrange(str_len(home->Some_0) as int, byte_len(dir))
    } else {
        encode_utf8(dir)
    }
}

/// The home directory's length is a character boundary of `dir`, so the
/// rest of `dir` after it is text.
pub open spec fn home_cut_ok(dir: Seq<char>, home: Seq<char>) -> bool {
    str_len(home) <= str_len(dir) && is_char_boundary(encode_utf8(dir), str_len(home) as int)
}

fn tilde() -> (s: String)
    ensures
        encode_utf8(s@) == seq![126u8],
{
    let mut s = String::new();
    push_char(&mut s, '~');
    assert(s@ =~= seq!['~']);
    assert(encode_utf8(seq!['~']) == vstd::utf8::encode_scalar('~' as u32) + encode_utf8(
        seq!['~'].drop_first(),
    ));
    assert(('~' as u32) == 126u32);
    assert((126u32 & 0x7Fu32) as u8 == 126u8) by (bit_vector);
    assert(encode_utf8(seq!['~']) =~= seq![126u8]);
    s
}

/// The prompt for the working directory `dir`, given the home directory if
/// it is known.  When `dir` is under `home`, the home directory's bytes are
/// cut from the front of `dir` and `~` put in their place.
pub fn prompt_text(dir: &str, home: Option<&str>) -> (s: String)
    requires
        under_home(dir@, home_view(home)) ==> home_cut_ok(dir@, home_view(home)->Some_0),
    ensures
        encode_utf8(s@) == spec_prompt_bytes(dir@, home_view(home)),
{
    match home {
        Some(home_dir) => {
            if path_has_prefix(dir, home_dir) {
                let cut = home_dir.len();
                let (_, rest) = dir.split_at(cut);
                let mut string = tilde();
                let ghost before = string@;
                string.append(rest);
                proof {
                    lemma_encode_concat(before, rest@);
                }
                string
            } else {
                dir.to_owned()
            }
        },
        None => dir.to_owned(),
    }
}

/// `prompt_text`, or `None` where cutting the home directory from `dir`
/// would not land on a character boundary of `dir`.
pub fn try_prompt_text(dir: &str, home: Option<&str>) -> (r: Option<String>)
    ensures
        r is None <==> (under_home(dir@, home_view(home)) && !home_cut_ok(dir@, home_view(home)->Some_0)),
        r matches Some(s) ==> encode_utf8(s@) == spec_prompt_bytes(dir@, home_view(home)),
{
    if let Some(home_dir) = home {
        if path_has_prefix(dir, home_dir) {
            let cut = home_dir.len();
            if cut > dir.len() || !dir.is_char_boundary(cut) {
                return None;
            }
        }
    }
    Some(prompt_text(dir, home))
}

} // verus!
