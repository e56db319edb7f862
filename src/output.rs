//! Turning rendered lines into the text that is printed.

use vstd::prelude::*;
use vstd::string::*;

verus! {

/// The lines joined with a newline between each two.
pub open spec fn joined(lines: Seq<Seq<char>>) -> Seq<char>
    decreases lines.len(),
{
    if lines.len() == 0 {
        seq![]
    } else if lines.len() == 1 {
        lines[0]
    } else {
        joined(lines.drop_last()) + "\n"@ + lines.last()
    }
}

/// The lines as one text, a newline between each two.
pub fn join_lines(lines: &Vec<String>) -> (r: String)
    ensures
        r@ == joined(lines.deep_view()),
{
    let mut text = String::new();
    let mut i: usize = 0;
    assert(lines.deep_view().subrange(0, 0) =~= Seq::<Seq<char>>::empty());
    while i < lines.len()
        invariant
            i <= lines.len(),
            text@ == joined(lines.deep_view().subrange(0, i as int)),
        decreases lines.len() - i,
    {
        let ghost done = lines.deep_view().subrange(0, i as int);
        if i > 0 {
            text.append("\n");
        }
        text.append(lines[i].as_str());
        let ghost next = lines.deep_view().subrange(0, i + 1);
        assert(next.drop_last() =~= done);
        assert(next.last() == lines[i as int]@);
        i += 1;
    }
    assert(lines.deep_view().subrange(0, lines.len() as int) =~= lines.deep_view());
    text
}

/// The tree's text under a first line that names its root directory.
pub fn with_root_name(root_name: &String, tree: &String) -> (r: String)
    ensures
        r@ == root_name@ + "\n"@ + tree@,
{
    let mut text = root_name.clone();
    text.append("\n");
    text.append(tree.as_str());
    text
}

} // verus!
