//! A lossless byte-oriented run-length codec in two schemes: a naive
//! fixed two-byte run-pair format, and an advanced PackBits-style format
//! that distinguishes literal stretches from repeated-byte runs with a
//! signed control byte.

pub mod error;
pub mod report;
pub mod rle_adv;
pub mod rle_naive;

use vstd::prelude::*;
use vstd::string::*;

use crate::error::MyError;

verus! {

/// `n` copies of the byte `b`.
pub open spec fn repeat_byte(b: u8, n: nat) -> Seq<u8> {
    Seq::new(n, |_i: int| b)
}

/// The action a caller asks for: turn plain bytes into the encoded form,
/// or the encoded form back into plain bytes.
#[derive(Clone, Copy, Debug, PartialEq, Eq, Structural)]
pub enum Action {
    Encode,
    Decode,
}

/// Which of the two record formats to use.
#[derive(Clone, Copy, Debug, PartialEq, Eq, Structural)]
pub enum Method {
    Naive,
    Advanced,
}

/// Picks the action from the two command flags: exactly one of the two
/// must be set, anything else is an argument error.
pub fn choose_action(compress: bool, decompress: bool) -> (r: Result<Action, MyError>)
    ensures
        compress && !decompress ==> r == Ok::<Action, MyError>(Action::Encode),
        !compress && decompress ==> r == Ok::<Action, MyError>(Action::Decode),
        compress == decompress ==> r == Err::<Action, MyError>(MyError::ArgumentError),
{
    match (compress, decompress) {
        (true, false) => Ok(Action::Encode),
        (false, true) => Ok(Action::Decode),
        _ => Err(MyError::ArgumentError),
    }
}

/// What one invocation works on: the input file name and the chosen
/// direction and scheme.
#[derive(Debug)]
pub struct Config {
    pub file_path: String,
    pub action: Action,
    pub method: Method,
}

/// True when the name ends in the suffix that encoding appends.
pub open spec fn has_rle_suffix(s: Seq<char>) -> bool {
    s.len() >= 4 && s.subrange(s.len() - 4, s.len() as int) == ".rle"@
}

/// The file name the result is written under: encoding appends ".rle";
/// decoding strips a final ".rle" when there is one and otherwise keeps
/// the name as it is.
pub fn output_filename(name: &str, action: Action) -> (r: String)
    ensures
        action == Action::Encode ==> r@ == name@ + ".rle"@,
        action == Action::Decode && has_rle_suffix(name@) ==> r@ == name@.subrange(
            0,
            name@.len() - 4,
        ),
        action == Action::Decode && !has_rle_suffix(name@) ==> r@ == name@,
{
    match action {
        Action::Encode => {
            let mut s = String::from_str(name);
            s.append(".rle");
            s
        },
        Action::Decode => {
            let n: usize = name.unicode_len();
            if n >= 4 {
                let c1 = name.get_char(n - 4);
                let c2 = name.get_char(n - 3);
                let c3 = name.get_char(n - 2);
                let c4 = name.get_char(n - 1);
                if c1 == '.' && c2 == 'r' && c3 == 'l' && c4 == 'e' {
                    proof {
                        reveal_strlit(".rle");
                        assert(name@.subrange(name@.len() - 4, name@.len() as int) =~= ".rle"@);
                    }
                    let stem = name.substring_char(0, n - 4);
                    String::from_str(stem)
                } else {
                    proof {
                        reveal_strlit(".rle");
                        if has_rle_suffix(name@) {
                            let suf = name@.subrange(name@.len() - 4, name@.len() as int);
                            assert(suf[0] == name@[name@.len() - 4]);
                            assert(suf[1] == name@[name@.len() - 3]);
                            assert(suf[2] == name@[name@.len() - 2]);
                            assert(suf[3] == name@[name@.len() - 1]);
                            assert(false);
                        }
                    }
                    String::from_str(name)
                }
            } else {
                String::from_str(name)
            }
        },
    }
}

} // verus!
