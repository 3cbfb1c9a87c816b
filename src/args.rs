//! The command line: the program's name, then the start topic and the end topic.

use vstd::prelude::*;

verus! {

/// The error for a command line of `n` items, if it is not of three.
pub open spec fn args_error(n: nat) -> Option<Seq<char>> {
    if n == 0 {
        Some("Error reading arguments."@)
    } else if n == 1 {
        Some("Missing argument: Start topic"@)
    } else if n == 2 {
        Some("Missing argument: End topic"@)
    } else if n == 3 {
        None
    } else {
        Some("Too many arguments"@)
    }
}

/// The start and end topics of a command line whose first item names the
/// program, or the error that says what is missing or too much.
pub fn extract_topics_from_args_vec<'a>(args: &'a Vec<String>) -> (r: Result<
    (&'a str, &'a str),
    &'static str,
>)
    ensures
        match r {
            Ok(topics) => args@.len() == 3 && topics.0@ == args@[1]@ && topics.1@ == args@[2]@,
            Err(m) => args_error(args@.len()) == Some(m@),
        },
        r is Ok <==> args@.len() == 3,
{
    let n = args.len();
    if n == 0 {
        Err("Error reading arguments.")
    } else if n == 1 {
        Err("Missing argument: Start topic")
    } else if n == 2 {
        Err("Missing argument: End topic")
    } else if n == 3 {
        Ok((args[1].as_str(), args[2].as_str()))
    } else {
        Err("Too many arguments")
    }
}

} // verus!
