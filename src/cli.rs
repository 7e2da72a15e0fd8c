use vstd::prelude::*;

use crate::mode::mode_of_flag;
use crate::mode::MyOption;
use crate::mode::WcError;

verus! {

/// What an invocation is to do, decided from its arguments and from whether
/// standard input is a terminal, before any file is opened.
pub enum Invocation {
    /// Print one count of the named file, and its name.
    FileSingle { mode: MyOption, path: String },
    /// Print bytes, lines and words of the named file, and its name.
    FileAll { path: String },
    /// Print bytes, lines and words of standard input.
    PipeAll,
    /// Print one count of standard input.
    PipeSingle { mode: MyOption },
    /// Print nothing.
    Nothing,
}

/// Decides what to do from the arguments (`args[0]` is the program's name) and from
/// whether standard input is an interactive terminal.
pub fn plan(args: &Vec<String>, stdin_is_tty: bool) -> (r: Result<Invocation, WcError>)
    ensures
        args.len() == 3 ==> match mode_of_flag(args[1]@) {
            Some(m) => (r matches Ok(Invocation::FileSingle { mode, path }) && mode == m
                && path@ == args[2]@),
            None => (r matches Err(e) && e == WcError::InvalidModeFlag),
        },
        args.len() == 2 && stdin_is_tty ==> (r matches Ok(Invocation::FileAll { path })
            && path@ == args[1]@),
        args.len() == 2 && !stdin_is_tty ==> match mode_of_flag(args[1]@) {
            Some(m) => (r matches Ok(Invocation::PipeSingle { mode }) && mode == m),
            None => (r matches Err(e) && e == WcError::InvalidModeFlag),
        },
        args.len() == 1 && !stdin_is_tty ==> r matches Ok(Invocation::PipeAll),
        (args.len() == 1 && stdin_is_tty) || args.len() == 0 || args.len() > 3 ==> r matches Ok(
            Invocation::Nothing,
        ),
{
    if args.len() == 3 {
        let mode = MyOption::from_str(args[1].as_str())?;
        Ok(Invocation::FileSingle { mode, path: args[2].clone() })
    } else if stdin_is_tty && args.len() == 2 {
        Ok(Invocation::FileAll { path: args[1].clone() })
    } else if !stdin_is_tty && args.len() == 1 {
        Ok(Invocation::PipeAll)
    } else if !stdin_is_tty && args.len() == 2 {
        let mode = MyOption::from_str(args[1].as_str())?;
        Ok(Invocation::PipeSingle { mode })
    } else {
        Ok(Invocation::Nothing)
    }
}

} // verus!
