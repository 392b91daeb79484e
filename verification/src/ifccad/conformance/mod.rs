//! Language-neutral IFCCAD conformance support.

use vstd::prelude::*;

verus! {

/// Version of the conformance test collection bundled with this crate.
pub const BUNDLED_CONFORMANCE_VERSION: &'static str = "1.0.0";

/// `base` with the relative component `part` appended, the way a path join
/// does it: a separator goes between them unless `base` is empty or already
/// ends with one.
pub open spec fn path_join(base: Seq<char>, part: Seq<char>) -> Seq<char> {
    if base.len() == 0 || base.last() == '/' {
        base + part
    } else {
        base + seq!['/'] + part
    }
}

/// Appends `part` to `path` as a path component.
fn push_component(path: &mut String, part: &str)
    ensures
        final(path)@ == path_join(old(path)@, part@),
{
    let ghost before = path@;
    let n = path.as_str().unicode_len();
    if n != 0 && path.as_str().get_char(n - 1) != '/' {
        proof {
            reveal_strlit("/");
        }
        path.append("/");
    }
    path.append(part);
    assert(path@ =~= path_join(before, part@));
}

/// Repository or crate-package path containing the bundled test collection,
/// under the crate's manifest directory `manifest_dir`.
pub fn bundled_conformance_root(manifest_dir: &str) -> (root: String)
    ensures
        root@ == path_join(
            path_join(path_join(manifest_dir@, "conformance"@), "ifccad"@),
            BUNDLED_CONFORMANCE_VERSION@,
        ),
{
    let mut root = String::from_str(manifest_dir);
    push_component(&mut root, "conformance");
    push_component(&mut root, "ifccad");
    push_component(&mut root, BUNDLED_CONFORMANCE_VERSION);
    root
}

} // verus!
