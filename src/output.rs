use vstd::prelude::*;
use vstd::string::StringExecFns;

verus! {

/// The line that opens a file's block in the output.
pub fn file_header(path: &str) -> (r: String)
    ensures
        r@ == "// File: "@ + path@ + "\n"@,
{
    let mut r = String::from_str("// File: ");
    r.append(path);
    r.append("\n");
    r
}

/// A file's text as it stands in the output, followed by a blank line.
pub fn file_body(content: &str) -> (r: String)
    ensures
        r@ == content@ + "\n\n"@,
{
    let mut r = content.to_owned();
    r.append("\n\n");
    r
}

} // verus!
