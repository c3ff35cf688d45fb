//! Decisions of the editor extensions: which binary starts the language
//! server, and with which arguments. The editor host answers the questions
//! (where a binary lies, whether a file exists); these functions decide.

use crate::scan::opt_view;
use crate::text::{append_chars, chars_of, string_of};
use vstd::prelude::*;

verus! {

/// The binary that starts the server: a configured path wins over the one
/// found on the search path.
pub open spec fn chosen_binary(
    found_on_path: Option<Seq<char>>,
    configured_path: Option<Seq<char>>,
) -> Option<Seq<char>> {
    match configured_path {
        Some(p) => Some(p),
        None => found_on_path,
    }
}

/// The error when no binary is known for the server `name`.
pub open spec fn binary_not_found(name: Seq<char>) -> Seq<char> {
    name + " not found!"@
}

/// The error when the bundled server script `path` is missing.
pub open spec fn script_not_found(path: Seq<char>) -> Seq<char> {
    path + " not found"@
}

/// The binary that starts the language server `server_name`: the path set in
/// the server's binary settings when there is one, else the binary of that
/// name found on the search path, else an error that names the server.
pub fn binary_command(
    server_name: &str,
    found_on_path: Option<String>,
    configured_path: Option<String>,
) -> (r: Result<String, String>)
    ensures
        match chosen_binary(opt_view(found_on_path), opt_view(configured_path)) {
            Some(p) => r matches Ok(s) && s@ == p,
            None => r matches Err(e) && e@ == binary_not_found(server_name@),
        },
{
    match configured_path {
        Some(p) => Ok(p),
        None => match found_on_path {
            Some(p) => Ok(p),
            None => {
                let mut msg = chars_of(server_name);
                let tail = chars_of(" not found!");
                append_chars(&mut msg, tail.as_slice());
                Err(string_of(msg.as_slice()))
            },
        },
    }
}

/// The bundled server script at `path`, given what a look-up of the file
/// gave: `Ok(is_file)`, or the look-up's error message. The look-up's error
/// is passed on; a path that is not a regular file is reported missing.
pub fn checked_script_path(path: &str, lookup: Result<bool, String>) -> (r: Result<String, String>)
    ensures
        match lookup {
            Err(e) => r matches Err(m) && m@ == e@,
            Ok(false) => r matches Err(m) && m@ == script_not_found(path@),
            Ok(true) => r matches Ok(s) && s@ == path@,
        },
{
    match lookup {
        Err(e) => Err(e),
        Ok(is_file) => {
            if is_file {
                Ok(path.to_owned())
            } else {
                let mut msg = chars_of(path);
                let tail = chars_of(" not found");
                append_chars(&mut msg, tail.as_slice());
                Err(string_of(msg.as_slice()))
            }
        },
    }
}

/// The arguments with which the node runtime starts the server script:
/// the script's path, then `--stdio`.
pub fn node_server_args(script_path: String) -> (v: Vec<String>)
    ensures
        v.len() == 2,
        v[0]@ == script_path@,
        v[1]@ == "--stdio"@,
{
    let mut v: Vec<String> = Vec::new();
    v.push(script_path);
    v.push("--stdio".to_owned());
    v
}

/// The node runtime and its arguments for the bundled server, given the
/// runtime's path (or the host's error) and the checked script path (or its
/// error). The runtime's error comes first.
pub fn node_server_command(
    node_binary: Result<String, String>,
    script: Result<String, String>,
) -> (r: Result<(String, Vec<String>), String>)
    ensures
        match (node_binary, script) {
            (Err(e), _) => r matches Err(m) && m@ == e@,
            (Ok(_), Err(e)) => r matches Err(m) && m@ == e@,
            (Ok(n), Ok(p)) => r matches Ok(c) && c.0@ == n@ && c.1.len() == 2
                && c.1[0]@ == p@ && c.1[1]@ == "--stdio"@,
        },
{
    match node_binary {
        Err(e) => Err(e),
        Ok(n) => match script {
            Err(e) => Err(e),
            Ok(p) => Ok((n, node_server_args(p))),
        },
    }
}

} // verus!
