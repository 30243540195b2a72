//! The `fs` module: what it offers.
use crate::builtin::tables;
use crate::text;
use vstd::prelude::*;

verus! {

/// The functions of `fs`, in the order they are put there.
pub open spec fn file_names() -> Seq<Seq<char>> {
    seq![
        "read"@,
        "lines"@,
        "open"@,
        "write"@,
        "append"@,
        "exists"@,
        "is_dir"@,
        "size"@,
        "mkdir"@,
        "rename"@,
        "remove"@,
        "list"@,
    ]
}

/// The functions of `fs`.
pub fn names() -> (r: Vec<String>)
    ensures
        tables::texts(r@) == file_names(),
{
    let mut out: Vec<String> = Vec::new();
    out.push(text::owned("read"));
    out.push(text::owned("lines"));
    out.push(text::owned("open"));
    out.push(text::owned("write"));
    out.push(text::owned("append"));
    out.push(text::owned("exists"));
    out.push(text::owned("is_dir"));
    out.push(text::owned("size"));
    out.push(text::owned("mkdir"));
    out.push(text::owned("rename"));
    out.push(text::owned("remove"));
    out.push(text::owned("list"));
    assert(tables::texts(out@) =~= file_names());
    out
}

} // verus!
