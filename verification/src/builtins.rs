use crate::slice_tree::SliceTree;
use vstd::prelude::*;

verus! {

/// Why a builtin command refuses its arguments.
#[derive(PartialEq, Eq, Structural, Clone, Copy, Debug)]
pub enum BuiltinError {
    /// `cd` was given more than two words.
    TooManyArguments,
    /// `cd` was given exactly one word.
    MissingDirectory,
    /// `exit` was given more than one word.
    UnexpectedArguments,
}

/// The `cd` builtin, with the words that follow it.
pub struct ChangeDirectory {
    statement: Vec<SliceTree<String>>,
}

impl ChangeDirectory {
    /// The words the builtin was given.
    pub closed spec fn statement(&self) -> Seq<SliceTree<String>> {
        self.statement@
    }

    pub fn new(statement: Vec<SliceTree<String>>) -> (cd: ChangeDirectory)
        ensures
            cd.statement() == statement@,
    {
        ChangeDirectory { statement }
    }

    /// The words the builtin was given.
    pub fn words(&self) -> (w: &[SliceTree<String>])
        ensures
            w@ == self.statement(),
    {
        self.statement.as_slice()
    }

    /// The directory to change to: the first word, when there are exactly
    /// two; more than two words, or exactly one, is refused.
    pub fn target(&self) -> (r: Result<&SliceTree<String>, BuiltinError>)
        requires
            self.statement().len() != 0,
        ensures
            change_directory_target(self.statement(), r),
    {
        change_directory(self.statement.as_slice())
    }
}

/// What `cd` does with its words.
pub open spec fn change_directory_check(len: int) -> Result<(), BuiltinError> {
    if len > 2 {
        Err(BuiltinError::TooManyArguments)
    } else if len == 1 {
        Err(BuiltinError::MissingDirectory)
    } else {
        Ok(())
    }
}

/// `r` is what `cd` answers for `statement`: its first word, or the
/// error that `change_directory_check` names.
pub open spec fn change_directory_target(
    statement: Seq<SliceTree<String>>,
    r: Result<&SliceTree<String>, BuiltinError>,
) -> bool {
    match change_directory_check(statement.len() as int) {
        Ok(()) => r matches Ok(t) && *t == statement[0],
        Err(e) => r == Err::<&SliceTree<String>, BuiltinError>(e),
    }
}

fn change_directory(statement: &[SliceTree<String>]) -> (r: Result<&SliceTree<String>, BuiltinError>)
    requires
        statement@.len() != 0,
    ensures
        change_directory_target(statement@, r),
{
    if statement.len() > 2 {
        return Err(BuiltinError::TooManyArguments);
    }
    if statement.len() == 1 {
        return Err(BuiltinError::MissingDirectory);
    }
    Ok(&statement[0])
}

/// The `exit` builtin, with the words that follow it.
pub struct Exit {
    statement: Vec<SliceTree<String>>,
}

impl Exit {
    /// The words the builtin was given.
    pub closed spec fn statement(&self) -> Seq<SliceTree<String>> {
        self.statement@
    }

    pub fn new(statement: Vec<SliceTree<String>>) -> (e: Self)
        ensures
            e.statement() == statement@,
    {
        Self { statement }
    }

    /// The words the builtin was given.
    pub fn words(&self) -> (w: &[SliceTree<String>])
        ensures
            w@ == self.statement(),
    {
        self.statement.as_slice()
    }

    /// Whether `exit` accepts its words: at most one.
    pub fn check(&self) -> (r: Result<(), BuiltinError>)
        ensures
            r is Ok <==> self.statement().len() <= 1,
            r is Err ==> r == Err::<(), BuiltinError>(BuiltinError::UnexpectedArguments),
    {
        exit(self.statement.as_slice())
    }
}

fn exit(statement: &[SliceTree<String>]) -> (r: Result<(), BuiltinError>)
    ensures
        r is Ok <==> statement@.len() <= 1,
        r is Err ==> r == Err::<(), BuiltinError>(BuiltinError::UnexpectedArguments),
{
    if statement.len() > 1 {
        return Err(BuiltinError::UnexpectedArguments);
    }
    Ok(())
}

} // verus!
