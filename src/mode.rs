use vstd::prelude::*;
use vstd::string::StringSliceAdditionalSpecFns;
use vstd::utf8::encode_utf8_decode_utf8;

verus! {

/// The count dimension that one invocation reports.
#[derive(Clone, Copy, Debug, PartialEq, Eq, Structural)]
pub enum MyOption {
    Bytes,
    Lines,
    Words,
    Characters,
}

/// Why an invocation cannot produce a count.
#[derive(Clone, Copy, Debug, PartialEq, Eq, Structural)]
pub enum WcError {
    /// The mode flag is none of `-c`, `-l`, `-w`, `-m`.
    InvalidModeFlag,
    /// The named file does not exist or cannot be read.
    FileOpenError,
    /// The named file's size cannot be obtained.
    FileMetadataError,
    /// The input is not valid UTF-8 text.
    StreamDecodingError,
}

/// The mode that a command-line flag names, if it names one.
pub open spec fn mode_of_flag(s: Seq<char>) -> Option<MyOption> {
    if s == "-c"@ {
        Some(MyOption::Bytes)
    } else if s == "-l"@ {
        Some(MyOption::Lines)
    } else if s == "-w"@ {
        Some(MyOption::Words)
    } else if s == "-m"@ {
        Some(MyOption::Characters)
    } else {
        None
    }
}

impl MyOption {
    /// Reads a mode flag; any flag but the four known ones is refused.
    pub fn from_str(s: &str) -> (r: Result<MyOption, WcError>)
        ensures
            match mode_of_flag(s@) {
                Some(m) => r == Ok::<MyOption, WcError>(m),
                None => r == Err::<MyOption, WcError>(WcError::InvalidModeFlag),
            },
    {
        if str_eq(s, "-c") {
            Ok(MyOption::Bytes)
        } else if str_eq(s, "-l") {
            Ok(MyOption::Lines)
        } else if str_eq(s, "-w") {
            Ok(MyOption::Words)
        } else if str_eq(s, "-m") {
            Ok(MyOption::Characters)
        } else {
            Err(WcError::InvalidModeFlag)
        }
    }
}

/// Whether two strings hold the same characters.
fn str_eq(a: &str, b: &str) -> (r: bool)
    ensures
        r == (a@ == b@),
{
    let x = a.as_bytes();
    let y = b.as_bytes();
    proof {
        encode_utf8_decode_utf8(a@);
        encode_utf8_decode_utf8(b@);
    }
    if x.len() != y.len() {
        return false;
    }
    let mut i: usize = 0;
    while i < x.len()
        invariant
            x@ == a.spec_bytes(),
            y@ == b.spec_bytes(),
            x.len() == y.len(),
            i <= x.len(),
            forall|j: int| 0 <= j < i ==> x@[j] == y@[j],
        decreases x.len() - i,
    {
        if x[i] != y[i] {
            return false;
        }
        i = i + 1;
    }
    assert(x@ =~= y@);
    true
}

} // verus!
