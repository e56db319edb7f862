//! Canonical relative paths: the one normal form used both when the filter
//! sets are built and when traversal looks entries up in them.

use vstd::prelude::*;
use vstd::string::*;

verus! {

/// Appends `piece` to `done` unless it is empty or the current-directory
/// marker `.`, which name no component.
pub open spec fn keep_piece(done: Seq<Seq<char>>, piece: Seq<char>) -> Seq<Seq<char>> {
    if piece.len() == 0 || piece == seq!['.'] {
        done
    } else {
        done.push(piece)
    }
}

/// Splitting `s` on `/`: the finished components and the piece still open.
pub open spec fn split_state(s: Seq<char>) -> (Seq<Seq<char>>, Seq<char>)
    decreases s.len(),
{
    if s.len() == 0 {
        (seq![], seq![])
    } else {
        let (done, cur) = split_state(s.drop_last());
        if s.last() == '/' {
            (keep_piece(done, cur), seq![])
        } else {
            (done, cur.push(s.last()))
        }
    }
}

/// The components of a relative path written as `s`: the pieces between
/// slashes, without empty pieces and without `.`. So `a`, `./a`, `a/` and
/// `./a//./` all name the same path.
pub open spec fn canonical(s: Seq<char>) -> Seq<Seq<char>> {
    keep_piece(split_state(s).0, split_state(s).1)
}

/// A path relative to the directory being rendered, as its components.
/// The empty sequence is that directory itself.
#[derive(Debug)]
pub struct CanonicalPath {
    pub parts: Vec<String>,
}

impl View for CanonicalPath {
    type V = Seq<Seq<char>>;

    open spec fn view(&self) -> Seq<Seq<char>> {
        self.parts.deep_view()
    }
}

fn push_piece(parts: &mut Vec<String>, piece: &str)
    ensures
        final(parts).deep_view() == keep_piece(old(parts).deep_view(), piece@),
{
    let len = piece.unicode_len();
    if len == 0 {
        return;
    }
    if len == 1 && piece.get_char(0) == '.' {
        assert(piece@ =~= seq!['.']);
        return;
    }
    assert(piece@ != seq!['.']);
    parts.push(piece.to_owned());
    assert(parts.deep_view() =~= old(parts).deep_view().push(piece@));
}

impl CanonicalPath {
    /// The directory being rendered.
    pub fn root() -> (r: CanonicalPath)
        ensures
            r@ == Seq::<Seq<char>>::empty(),
    {
        let r = CanonicalPath { parts: Vec::new() };
        assert(r@ =~= Seq::<Seq<char>>::empty());
        r
    }

    /// The path of the entry `name` inside this directory.
    pub fn child(&self, name: &String) -> (r: CanonicalPath)
        ensures
            r@ == self@.push(name@),
    {
        let mut parts = self.parts.clone();
        assert(parts.deep_view() =~= self.parts.deep_view());
        parts.push(name.clone());
        let r = CanonicalPath { parts };
        assert(r@ =~= self@.push(name@));
        r
    }

    /// Another path equal to this one.
    pub fn duplicate(&self) -> (r: CanonicalPath)
        ensures
            r@ == self@,
    {
        let parts = self.parts.clone();
        assert(parts.deep_view() =~= self.parts.deep_view());
        CanonicalPath { parts }
    }

    /// Whether both name the same path.
    pub fn same_as(&self, other: &CanonicalPath) -> (r: bool)
        ensures
            r == (self@ == other@),
    {
        let n = self.parts.len();
        assert(self@.len() == n && other@.len() == other.parts.len());
        if n != other.parts.len() {
            return false;
        }
        let mut i: usize = 0;
        while i < n
            invariant
                n == self.parts.len(),
                n == other.parts.len(),
                i <= n,
                forall|k: int| 0 <= k < i ==> self@[k] == other@[k],
            decreases n - i,
        {
            assert(self@[i as int] == self.parts@[i as int]@);
            assert(other@[i as int] == other.parts@[i as int]@);
            if self.parts[i] != other.parts[i] {
                return false;
            }
            i += 1;
        }
        assert(self@ =~= other@);
        true
    }
}

/// The canonical form of a path as a user writes it.
pub fn canonicalize_relative(s: &str) -> (r: CanonicalPath)
    ensures
        r@ == canonical(s@),
{
    let n = s.unicode_len();
    let mut parts: Vec<String> = Vec::new();
    let mut start: usize = 0;
    let mut i: usize = 0;
    assert(s@.take(0) =~= Seq::<char>::empty());
    assert(parts.deep_view() =~= Seq::<Seq<char>>::empty());
    assert(s@.subrange(0, 0) =~= Seq::<char>::empty());
    while i < n
        invariant
            n == s@.len(),
            start <= i <= n,
            split_state(s@.take(i as int)) == (parts.deep_view(), s@.subrange(start as int, i as int)),
        decreases n - i,
    {
        let c = s.get_char(i);
        assert(s@.take(i + 1).drop_last() =~= s@.take(i as int));
        assert(s@.take(i + 1).last() == c);
        if c == '/' {
            push_piece(&mut parts, s.substring_char(start, i));
            start = i + 1;
            assert(s@.subrange(start as int, i + 1) =~= Seq::<char>::empty());
        } else {
            assert(s@.subrange(start as int, i + 1) =~= s@.subrange(start as int, i as int).push(c));
        }
        i += 1;
    }
    assert(s@.take(n as int) =~= s@);
    push_piece(&mut parts, s.substring_char(start, n));
    CanonicalPath { parts }
}

/// Whether the path `p` is one of those in `list`.
pub open spec fn holds_path(list: Seq<CanonicalPath>, p: Seq<Seq<char>>) -> bool {
    exists|k: int| 0 <= k < list.len() && (#[trigger] list[k])@ == p
}

/// Whether `p` is one of the paths in `list`.
pub fn list_contains(list: &Vec<CanonicalPath>, p: &CanonicalPath) -> (r: bool)
    ensures
        r == holds_path(list@, p@),
{
    let mut i: usize = 0;
    while i < list.len()
        invariant
            i <= list.len(),
            forall|k: int| 0 <= k < i ==> (#[trigger] list@[k])@ != p@,
        decreases list.len() - i,
    {
        if list[i].same_as(p) {
            assert(list@[i as int]@ == p@);
            return true;
        }
        i += 1;
    }
    false
}

} // verus!
