use vstd::prelude::*;
use vstd::utf8::encode_utf8;

verus! {

/// The options `ls` was given.
#[derive(PartialEq, Eq, Structural, Clone, Copy, Debug)]
pub struct ActiveArgs {
    pub show_hidden_files: bool,
    pub show_permissions: bool,
}

impl Default for ActiveArgs {
    fn default() -> (a: Self)
        ensures
            !a.show_hidden_files,
            !a.show_permissions,
    {
        ActiveArgs { show_hidden_files: false, show_permissions: false }
    }
}

/// Why `ls` refuses its command line.
#[derive(PartialEq, Eq, Structural, Clone, Copy, Debug)]
pub enum LsError {
    /// The argument at this position starts with `-` and is neither `-a`
    /// nor `-l`.
    UnknownArgument(usize),
}

/// What `ls` makes of its command line: its options, and the positions of
/// the arguments that name directories.
pub struct LsArgs {
    pub flags: ActiveArgs,
    pub dirs: Vec<usize>,
}

pub open spec fn dash_a() -> Seq<u8> {
    seq![45u8, 97u8]
}

pub open spec fn dash_l() -> Seq<u8> {
    seq![45u8, 108u8]
}

/// An argument's bytes begin with `-`.
pub open spec fn is_option(arg: Seq<u8>) -> bool {
    arg.len() > 0 && arg[0] == 45u8
}

/// Reading the arguments from the `n`-th on, with the options and
/// directory positions found before it: the options and directories found
/// in all, or the position of the first unknown option.
pub open spec fn spec_ls_args_from(args: Seq<Seq<u8>>, n: int, flags: ActiveArgs, dirs: Seq<usize>) -> Result<
    (ActiveArgs, Seq<usize>),
    usize,
>
    decreases args.len() - n,
{
    if n >= args.len() || n < 0 {
        Ok((flags, dirs))
    } else {
        let arg = args[n];
        if is_option(arg) {
            if arg == dash_a() {
                spec_ls_args_from(args, n + 1, ActiveArgs { show_hidden_files: true, ..flags }, dirs)
            } else if arg == dash_l() {
                spec_ls_args_from(args, n + 1, ActiveArgs { show_permissions: true, ..flags }, dirs)
            } else {
                Err(n as usize)
            }
        } else {
            spec_ls_args_from(args, n + 1, flags, dirs.push(n as usize))
        }
    }
}

/// `ls`'s reading of its whole command line (the program's own name
/// included).  With nothing but the program's name, it lists the current
/// directory and has no options.
pub open spec fn spec_ls_args(args: Seq<Seq<u8>>) -> Result<(ActiveArgs, Seq<usize>), usize> {
    let none = ActiveArgs { show_hidden_files: false, show_permissions: false };
    if args.len() == 1 {
        Ok((none, seq![]))
    } else {
        spec_ls_args_from(args, 0, none, seq![])
    }
}

/// The bytes of each string.
pub open spec fn args_bytes(args: Seq<String>) -> Seq<Seq<u8>> {
    args.map_values(|a: String| encode_utf8(a@))
}

fn equals_bytes(a: &[u8], b0: u8, b1: u8) -> (r: bool)
    ensures
        r == (a@ == seq![b0, b1]),
{
    let r = a.len() == 2 && a[0] == b0 && a[1] == b1;
    assert(r ==> a@ =~= seq![b0, b1]);
    r
}

/// Reads `ls`'s command line: `-a` shows hidden files, `-l` asks for
/// permissions, any other word starting with `-` is refused, and every
/// other word names a directory.
pub fn parse_ls_args(args: &[String]) -> (r: Result<LsArgs, LsError>)
    ensures
        match spec_ls_args(args_bytes(args@)) {
            Ok((flags, dirs)) => r matches Ok(a) && a.flags == flags && a.dirs@ == dirs,
            Err(n) => r matches Err(LsError::UnknownArgument(m)) && m == n,
        },
{
    let ghost bytes = args_bytes(args@);
    let mut flags = ActiveArgs::default();
    let mut dirs: Vec<usize> = Vec::new();
    if args.len() == 1 {
        return Ok(LsArgs { flags, dirs });
    }
    let mut i: usize = 0;
    while i < args.len()
        invariant
            bytes == args_bytes(args@),
            args@.len() != 1,
            i <= args@.len(),
            spec_ls_args(bytes) == spec_ls_args_from(bytes, i as int, flags, dirs@),
        decreases args@.len() - i,
    {
        let arg = args[i].as_str().as_bytes();
        assert(arg@ == bytes[i as int]);
        if arg.len() > 0 && arg[0] == 45u8 {
            if equals_bytes(arg, 45u8, 97u8) {
                flags.show_hidden_files = true;
            } else if equals_bytes(arg, 45u8, 108u8) {
                flags.show_permissions = true;
            } else {
                return Err(LsError::UnknownArgument(i));
            }
        } else {
            dirs.push(i);
        }
        i = i + 1;
    }
    Ok(LsArgs { flags, dirs })
}

/// An argument that starts with `-` and is neither `-a` nor `-l`.
pub open spec fn unknown_option(arg: Seq<u8>) -> bool {
    is_option(arg) && arg != dash_a() && arg != dash_l()
}

/// The positions `d` are in increasing order.
pub open spec fn increasing(d: Seq<usize>) -> bool {
    forall|a: int, b: int| 0 <= a < b < d.len() ==> d[a] < d[b]
}

proof fn lemma_ls_args_from(args: Seq<Seq<u8>>, n: int, flags: ActiveArgs, dirs: Seq<usize>)
    requires
        0 <= n <= args.len() <= usize::MAX,
        increasing(dirs),
        forall|j: int| 0 <= j < dirs.len() ==> dirs[j] < n,
    ensures
        (spec_ls_args_from(args, n, flags, dirs) is Err) == (exists|i: int|
            n <= i < args.len() && #[trigger] unknown_option(args[i])),
        spec_ls_args_from(args, n, flags, dirs) is Err ==> ({
            let m = spec_ls_args_from(args, n, flags, dirs)->Err_0 as int;
            &&& n <= m < args.len()
            &&& unknown_option(args[m])
            &&& forall|i: int| n <= i < m ==> !#[trigger] unknown_option(args[i])
        }),
        spec_ls_args_from(args, n, flags, dirs) is Ok ==> ({
            let (f, d) = spec_ls_args_from(args, n, flags, dirs)->Ok_0;
            &&& f.show_hidden_files == (flags.show_hidden_files || exists|i: int|
                n <= i < args.len() && #[trigger] args[i] == dash_a())
            &&& f.show_permissions == (flags.show_permissions || exists|i: int|
                n <= i < args.len() && #[trigger] args[i] == dash_l())
            &&& increasing(d)
            &&& forall|x: usize| #[trigger] d.contains(x) == (dirs.contains(x) || (n <= x < args.len()
                && !is_option(args[x as int])))
        }),
    decreases args.len() - n,
{
    if n < args.len() {
        let arg = args[n];
        if is_option(arg) {
            if arg == dash_a() {
                lemma_ls_args_from(args, n + 1, ActiveArgs { show_hidden_files: true, ..flags }, dirs);
            } else if arg == dash_l() {
                lemma_ls_args_from(args, n + 1, ActiveArgs { show_permissions: true, ..flags }, dirs);
            } else {
                assert(unknown_option(args[n]));
            }
        } else {
            let dirs2 = dirs.push(n as usize);
            assert(increasing(dirs2)) by {
                assert forall|a: int, b: int| 0 <= a < b < dirs2.len() implies dirs2[a] < dirs2[b] by {
                    if b < dirs.len() {
                    } else {
                        assert(dirs2[a] == dirs[a]);
                    }
                }
            }
            assert forall|j: int| 0 <= j < dirs2.len() implies dirs2[j] < n + 1 by {
                if j < dirs.len() {
                    assert(dirs2[j] == dirs[j]);
                }
            }
            lemma_ls_args_from(args, n + 1, flags, dirs2);
            assert forall|x: usize| #[trigger] dirs2.contains(x) == (dirs.contains(x) || x == n) by {
                if dirs.contains(x) {
                    let j = choose|j: int| 0 <= j < dirs.len() && dirs[j] == x;
                    assert(dirs2[j] == x);
                }
                if x == n {
                    assert(dirs2[dirs.len() as int] == x);
                }
                if dirs2.contains(x) {
                    let j = choose|j: int| 0 <= j < dirs2.len() && dirs2[j] == x;
                    if j < dirs.len() {
                        assert(dirs[j] == x);
                    }
                }
            }
        }
    }
}

/// What `ls`'s command line means.  The program's name alone: no options
/// and no directories.  Otherwise it is refused exactly when some argument
/// is an unknown option, and then at the first one; when accepted, hidden
/// files are shown exactly when some argument is `-a`, permissions asked
/// for exactly when some argument is `-l`, and the directories are, in
/// order, exactly the positions of the arguments that are not options.
pub proof fn lemma_ls_args_meaning(args: Seq<Seq<u8>>)
    requires
        args.len() <= usize::MAX,
    ensures
        args.len() == 1 ==> spec_ls_args(args) == Ok::<(ActiveArgs, Seq<usize>), usize>(
            (ActiveArgs { show_hidden_files: false, show_permissions: false }, seq![]),
        ),
        args.len() != 1 ==> (spec_ls_args(args) is Err) == (exists|i: int|
            0 <= i < args.len() && #[trigger] unknown_option(args[i])),
        args.len() != 1 && spec_ls_args(args) is Err ==> ({
            let m = spec_ls_args(args)->Err_0 as int;
            &&& 0 <= m < args.len()
            &&& unknown_option(args[m])
            &&& forall|i: int| 0 <= i < m ==> !#[trigger] unknown_option(args[i])
        }),
        args.len() != 1 && spec_ls_args(args) is Ok ==> ({
            let (f, d) = spec_ls_args(args)->Ok_0;
            &&& f.show_hidden_files == (exists|i: int| 0 <= i < args.len() && #[trigger] args[i] == dash_a())
            &&& f.show_permissions == (exists|i: int| 0 <= i < args.len() && #[trigger] args[i] == dash_l())
            &&& increasing(d)
            &&& forall|x: usize| #[trigger] d.contains(x) == (x < args.len() && !is_option(args[x as int]))
        }),
{
    if args.len() != 1 {
        lemma_ls_args_from(
            args,
            0,
            ActiveArgs { show_hidden_files: false, show_permissions: false },
            seq![],
        );
    }
}

/// The colors `ls` uses.
#[derive(PartialEq, Eq, Structural, Clone, Copy, Debug)]
pub enum TermColor {
    Reset,
    Green,
    DarkBlue,
    Yellow,
}

/// One step of writing an entry to the terminal.
#[derive(PartialEq, Eq, Structural, Clone, Copy, Debug)]
pub enum LsOp {
    Foreground(TermColor),
    Background(TermColor),
    PrintName,
    PrintSlash,
    NewLine,
}

/// How `ls` writes an entry whose name starts with `first`: colors reset,
/// directories green, hidden entries skipped unless shown (then on dark
/// blue), symbolic links on yellow, directories followed by `/`.
pub open spec fn spec_entry_ops(first: u8, is_dir: bool, is_symlink: bool, show_hidden: bool) -> Seq<LsOp> {
    let start = seq![LsOp::Foreground(TermColor::Reset), LsOp::Background(TermColor::Reset)] + if is_dir {
        seq![LsOp::Foreground(TermColor::Green)]
    } else {
        seq![]
    };
    if first == 46u8 && !show_hidden {
        start
    } else {
        start + (if first == 46u8 {
            seq![LsOp::Background(TermColor::DarkBlue)]
        } else {
            seq![]
        }) + (if is_symlink {
            seq![LsOp::Background(TermColor::Yellow)]
        } else {
            seq![]
        }) + seq![LsOp::PrintName] + (if is_dir {
            seq![LsOp::PrintSlash]
        } else {
            seq![]
        }) + seq![LsOp::NewLine]
    }
}

/// The terminal steps for one entry named `name`.
pub fn entry_ops(name: &[u8], is_dir: bool, is_symlink: bool, show_hidden: bool) -> (ops: Vec<LsOp>)
    requires
        name@.len() > 0,
    ensures
        ops@ == spec_entry_ops(name@[0], is_dir, is_symlink, show_hidden),
{
    let mut ops: Vec<LsOp> = Vec::new();
    ops.push(LsOp::Foreground(TermColor::Reset));
    ops.push(LsOp::Background(TermColor::Reset));
    if is_dir {
        ops.push(LsOp::Foreground(TermColor::Green));
    }
    let hidden = name[0] == 46u8;
    if hidden {
        if show_hidden {
            ops.push(LsOp::Background(TermColor::DarkBlue));
        } else {
            assert(ops@ =~= spec_entry_ops(name@[0], is_dir, is_symlink, show_hidden));
            return ops;
        }
    }
    if is_symlink {
        ops.push(LsOp::Background(TermColor::Yellow));
    }
    ops.push(LsOp::PrintName);
    if is_dir {
        ops.push(LsOp::PrintSlash);
    }
    ops.push(LsOp::NewLine);
    assert(ops@ =~= spec_entry_ops(name@[0], is_dir, is_symlink, show_hidden));
    ops
}


/// `ops` is `expected`; the facts below then follow by evaluation.
proof fn entry_case(ops: Seq<LsOp>, expected: Seq<LsOp>)
    requires
        ops =~= expected,
    ensures
        ops == expected,
{
}

/// Every color step of `ops` comes before its `PrintName`, the slash and
/// the newline after it, and a dark blue background before a yellow one.
pub open spec fn entry_steps_ordered(ops: Seq<LsOp>) -> bool {
    &&& forall|a: int, k: int|
        0 <= a < ops.len() && 0 <= k < ops.len() && ops[k] == LsOp::PrintName && (ops[a] is Foreground
            || ops[a] is Background) ==> a < k
    &&& forall|a: int, k: int|
        0 <= a < ops.len() && 0 <= k < ops.len() && ops[k] == LsOp::PrintName && (ops[a] == LsOp::PrintSlash
            || ops[a] == LsOp::NewLine) ==> k < a
    &&& forall|a: int, b: int|
        0 <= a < ops.len() && 0 <= b < ops.len() && ops[a] == LsOp::Background(TermColor::DarkBlue)
            && ops[b] == LsOp::Background(TermColor::Yellow) ==> a < b
}

/// How `ls` writes an entry: colors are reset first; a directory turns the
/// text green; an entry is printed exactly when its name does not start
/// with `.` or hidden files are shown; a printed entry has a dark blue
/// background exactly when hidden, a yellow one exactly when it is a
/// symbolic link (after the dark blue, so it wins), a `/` after the name
/// exactly when it is a directory, and ends with a newline; an entry not
/// printed gets no background, name, slash or newline.
pub proof fn lemma_entry_ops_meaning(first: u8, is_dir: bool, is_symlink: bool, show_hidden: bool)
    ensures
        ({
            let ops = spec_entry_ops(first, is_dir, is_symlink, show_hidden);
            let printed = first != 46u8 || show_hidden;
            &&& ops.len() >= 2
            &&& ops[0] == LsOp::Foreground(TermColor::Reset)
            &&& ops[1] == LsOp::Background(TermColor::Reset)
            &&& ops.contains(LsOp::Foreground(TermColor::Green)) == is_dir
            &&& ops.contains(LsOp::PrintName) == printed
            &&& ops.contains(LsOp::Background(TermColor::Yellow)) == (printed && is_symlink)
            &&& ops.contains(LsOp::Background(TermColor::DarkBlue)) == (printed && first == 46u8)
            &&& ops.contains(LsOp::PrintSlash) == (printed && is_dir)
            &&& ops.contains(LsOp::NewLine) == printed
            &&& printed ==> ops.last() == LsOp::NewLine
            &&& entry_steps_ordered(ops)
        }),
{
    let ops = spec_entry_ops(first, is_dir, is_symlink, show_hidden);
    if is_dir == true && is_symlink == true && (first == 46u8) == true && show_hidden == true {
        entry_case(ops, seq![LsOp::Foreground(TermColor::Reset), LsOp::Background(TermColor::Reset), LsOp::Foreground(TermColor::Green), LsOp::Background(TermColor::DarkBlue), LsOp::Background(TermColor::Yellow), LsOp::PrintName, LsOp::PrintSlash, LsOp::NewLine]);
    } else if is_dir == true && is_symlink == true && (first == 46u8) == true && show_hidden == false {
        entry_case(ops, seq![LsOp::Foreground(TermColor::Reset), LsOp::Background(TermColor::Reset), LsOp::Foreground(TermColor::Green)]);
    } else if is_dir == true && is_symlink == true && (first == 46u8) == false && show_hidden == true {
        entry_case(ops, seq![LsOp::Foreground(TermColor::Reset), LsOp::Background(TermColor::Reset), LsOp::Foreground(TermColor::Green), LsOp::Background(TermColor::Yellow), LsOp::PrintName, LsOp::PrintSlash, LsOp::NewLine]);
    } else if is_dir == true && is_symlink == true && (first == 46u8) == false && show_hidden == false {
        entry_case(ops, seq![LsOp::Foreground(TermColor::Reset), LsOp::Background(TermColor::Reset), LsOp::Foreground(TermColor::Green), LsOp::Background(TermColor::Yellow), LsOp::PrintName, LsOp::PrintSlash, LsOp::NewLine]);
    } else if is_dir == true && is_symlink == false && (first == 46u8) == true && show_hidden == true {
        entry_case(ops, seq![LsOp::Foreground(TermColor::Reset), LsOp::Background(TermColor::Reset), LsOp::Foreground(TermColor::Green), LsOp::Background(TermColor::DarkBlue), LsOp::PrintName, LsOp::PrintSlash, LsOp::NewLine]);
    } else if is_dir == true && is_symlink == false && (first == 46u8) == true && show_hidden == false {
        entry_case(ops, seq![LsOp::Foreground(TermColor::Reset), LsOp::Background(TermColor::Reset), LsOp::Foreground(TermColor::Green)]);
    } else if is_dir == true && is_symlink == false && (first == 46u8) == false && show_hidden == true {
        entry_case(ops, seq![LsOp::Foreground(TermColor::Reset), LsOp::Background(TermColor::Reset), LsOp::Foreground(TermColor::Green), LsOp::PrintName, LsOp::PrintSlash, LsOp::NewLine]);
    } else if is_dir == true && is_symlink == false && (first == 46u8) == false && show_hidden == false {
        entry_case(ops, seq![LsOp::Foreground(TermColor::Reset), LsOp::Background(TermColor::Reset), LsOp::Foreground(TermColor::Green), LsOp::PrintName, LsOp::PrintSlash, LsOp::NewLine]);
    } else if is_dir == false && is_symlink == true && (first == 46u8) == true && show_hidden == true {
        entry_case(ops, seq![LsOp::Foreground(TermColor::Reset), LsOp::Background(TermColor::Reset), LsOp::Background(TermColor::DarkBlue), LsOp::Background(TermColor::Yellow), LsOp::PrintName, LsOp::NewLine]);
    } else if is_dir == false && is_symlink == true && (first == 46u8) == true && show_hidden == false {
        entry_case(ops, seq![LsOp::Foreground(TermColor::Reset), LsOp::Background(TermColor::Reset)]);
    } else if is_dir == false && is_symlink == true && (first == 46u8) == false && show_hidden == true {
        entry_case(ops, seq![LsOp::Foreground(TermColor::Reset), LsOp::Background(TermColor::Reset), LsOp::Background(TermColor::Yellow), LsOp::PrintName, LsOp::NewLine]);
    } else if is_dir == false && is_symlink == true && (first == 46u8) == false && show_hidden == false {
        entry_case(ops, seq![LsOp::Foreground(TermColor::Reset), LsOp::Background(TermColor::Reset), LsOp::Background(TermColor::Yellow), LsOp::PrintName, LsOp::NewLine]);
    } else if is_dir == false && is_symlink == false && (first == 46u8) == true && show_hidden == true {
        entry_case(ops, seq![LsOp::Foreground(TermColor::Reset), LsOp::Background(TermColor::Reset), LsOp::Background(TermColor::DarkBlue), LsOp::PrintName, LsOp::NewLine]);
    } else if is_dir == false && is_symlink == false && (first == 46u8) == true && show_hidden == false {
        entry_case(ops, seq![LsOp::Foreground(TermColor::Reset), LsOp::Background(TermColor::Reset)]);
    } else if is_dir == false && is_symlink == false && (first == 46u8) == false && show_hidden == true {
        entry_case(ops, seq![LsOp::Foreground(TermColor::Reset), LsOp::Background(TermColor::Reset), LsOp::PrintName, LsOp::NewLine]);
    } else if is_dir == false && is_symlink == false && (first == 46u8) == false && show_hidden == false {
        entry_case(ops, seq![LsOp::Foreground(TermColor::Reset), LsOp::Background(TermColor::Reset), LsOp::PrintName, LsOp::NewLine]);
    }
}

} // verus!
