//! Formatting of paths into spec and value trees.
use vstd::prelude::*;

verus! {

/// The text `(root)`, which stands for the empty path.
pub open spec fn root_text() -> Seq<char> {
    "(root)"@
}

/// The path elements joined by dots.
pub open spec fn join_with_dots(path: Seq<Seq<char>>) -> Seq<char>
    decreases path.len(),
{
    if path.len() <= 1 {
        if path.len() == 0 { Seq::empty() } else { path[0] }
    } else {
        join_with_dots(path.drop_last()) + "."@ + path.last()
    }
}

/// How a path is shown in messages.
pub open spec fn spec_format_path(path: Seq<Seq<char>>) -> Seq<char> {
    if path.len() == 0 {
        root_text()
    } else {
        join_with_dots(path)
    }
}

/// The elements of a path of string slices, as character sequences.
pub open spec fn path_view(path: Seq<&str>) -> Seq<Seq<char>> {
    path.map_values(|s: &str| s@)
}

/// Shows a path: its elements joined by dots, or `(root)` when it is empty.
pub fn format_path(path: &[&str]) -> (r: String)
    ensures
        r@ == spec_format_path(path_view(path@)),
{
    let ghost pv = path_view(path@);
    if path.len() == 0 {
        return "(root)".to_string();
    }
    let mut result = path[0].to_string();
    let mut i: usize = 1;
    assert(pv.take(1) =~= seq![pv[0]]);
    while i < path.len()
        invariant
            1 <= i <= path.len(),
            pv == path_view(path@),
            result@ == join_with_dots(pv.take(i as int)),
        decreases path.len() - i,
    {
        result.append(".");
        result.append(path[i]);
        assert(pv.take(i as int + 1).drop_last() =~= pv.take(i as int));
        i = i + 1;
    }
    assert(pv.take(path.len() as int) =~= pv);
    result
}

} // verus!
