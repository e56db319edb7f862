//! The tree renderer: filtering, sibling order and the rendered lines.

use vstd::prelude::*;
use vstd::string::*;
use crate::entry::Entry;
use crate::path::{CanonicalPath, canonical, canonicalize_relative, holds_path, list_contains};

verus! {

/// The filter configuration of one rendering: paths left out entirely,
/// directories shown but not descended into, and whether directories are
/// listed before files.
#[derive(Debug)]
pub struct ProjectTree {
    pub ignore_list: Vec<CanonicalPath>,
    pub stop_list: Vec<CanonicalPath>,
    pub prioritize_dirs: bool,
}

/// Why a rendering failed: the directory at this path could not be listed.
#[derive(Debug)]
pub enum TraversalError {
    Unreadable(CanonicalPath),
}

/// One rendered line, with the path of the entry it shows.
pub struct Row {
    pub key: Seq<Seq<char>>,
    pub text: Seq<char>,
    pub is_dir: bool,
    pub last: bool,
}

/// The sibling connector: none when line drawing is off, else a corner for
/// the last sibling and a tee for the others.
pub open spec fn connector(show: bool, last: bool) -> Seq<char> {
    if !show {
        seq![]
    } else if last {
        "└── "@
    } else {
        "├── "@
    }
}

/// What a child's prefix adds below an entry: blank under the last sibling,
/// a vertical bar under the others.
pub open spec fn extension(last: bool) -> Seq<char> {
    if last {
        "    "@
    } else {
        "│   "@
    }
}

/// The trailing marker of a directory's line.
pub open spec fn marker(is_dir: bool) -> Seq<char> {
    if is_dir {
        "/"@
    } else {
        seq![]
    }
}

/// The line that shows the entry named `name`.
pub open spec fn line_text(prefix: Seq<char>, show: bool, last: bool, name: Seq<char>, is_dir: bool) -> Seq<char> {
    prefix + connector(show, last) + name + marker(is_dir)
}

/// The texts of rendered rows.
pub open spec fn texts(rs: Seq<Row>) -> Seq<Seq<char>> {
    rs.map_values(|r: Row| r.text)
}

/// A rendering outcome with its rows reduced to their texts.
pub open spec fn texts_of(r: Result<Seq<Row>, Seq<Seq<char>>>) -> Result<Seq<Seq<char>>, Seq<Seq<char>>> {
    match r {
        Ok(rs) => Ok(texts(rs)),
        Err(p) => Err(p),
    }
}

/// The outcome of an executed rendering, as lines or the unreadable path.
pub open spec fn outcome(r: Result<Vec<String>, TraversalError>) -> Result<Seq<Seq<char>>, Seq<Seq<char>>> {
    match r {
        Ok(v) => Ok(v.deep_view()),
        Err(TraversalError::Unreadable(p)) => Err(p@),
    }
}

/// `lines` followed by what `rest` renders, or the failure of `rest`.
pub open spec fn glue(lines: Seq<Seq<char>>, rest: Result<Seq<Seq<char>>, Seq<Seq<char>>>) -> Result<Seq<Seq<char>>, Seq<Seq<char>>> {
    match rest {
        Ok(r) => Ok(lines + r),
        Err(p) => Err(p),
    }
}

/// The paths in `list`.
pub open spec fn paths_of(list: Seq<CanonicalPath>) -> Seq<Seq<Seq<char>>> {
    list.map_values(|p: CanonicalPath| p@)
}

/// The canonical forms of the paths written in `list`.
pub open spec fn canonical_all(list: Seq<String>) -> Seq<Seq<Seq<char>>> {
    list.map_values(|s: String| canonical(s@))
}

/// The entries left out unless asked for: `.git` and `.vscode`.
pub open spec fn default_ignores(show_git: bool, show_vscode: bool) -> Seq<Seq<Seq<char>>> {
    (if show_git { seq![] } else { seq![canonical(".git"@)] })
        + (if show_vscode { seq![] } else { seq![canonical(".vscode"@)] })
}

/// The directories not descended into unless asked for: `node_modules`.
pub open spec fn default_stops(show_node_modules: bool) -> Seq<Seq<Seq<char>>> {
    if show_node_modules { seq![] } else { seq![canonical("node_modules"@)] }
}

/// Appends the canonical form of each path written in `list` to `out`.
fn canonicalize_into(out: &mut Vec<CanonicalPath>, list: &Vec<String>)
    ensures
        paths_of(final(out)@) == paths_of(old(out)@) + canonical_all(list@),
{
    let mut i: usize = 0;
    while i < list.len()
        invariant
            i <= list.len(),
            paths_of(out@) == paths_of(old(out)@) + canonical_all(list@.subrange(0, i as int)),
        decreases list.len() - i,
    {
        let ghost before = out@;
        out.push(canonicalize_relative(list[i].as_str()));
        assert(canonical_all(list@.subrange(0, i + 1)) =~= canonical_all(list@.subrange(0, i as int)).push(canonical(list@[i as int]@)));
        assert(paths_of(out@) =~= paths_of(before).push(canonical(list@[i as int]@)));
        i += 1;
    }
    assert(list@.subrange(0, list@.len() as int) =~= list@);
}

/// The indices of a `Vec<usize>` as integers.
pub open spec fn ints(v: Seq<usize>) -> Seq<int> {
    v.map_values(|x: usize| x as int)
}

impl ProjectTree {
    /// Whether the entry at `p` is left out.
    pub open spec fn ignores(&self, p: Seq<Seq<char>>) -> bool {
        holds_path(self.ignore_list@, p)
    }

    /// Whether rendering stops at the directory at `p`.
    pub open spec fn stops(&self, p: Seq<Seq<char>>) -> bool {
        holds_path(self.stop_list@, p)
    }

    /// Whether `e`, a child of the directory at `key`, is shown and of the
    /// wanted kind (`None`: any; `Some(d)`: directories when `d`, else files).
    pub open spec fn selects(&self, key: Seq<Seq<char>>, e: Entry, kind: Option<bool>) -> bool {
        &&& !self.ignores(key.push(e.name@))
        &&& match kind {
            Some(d) => e.is_dir == d,
            None => true,
        }
    }

    /// The indices, below `n` and in increasing order, of the children in
    /// `kids` that `selects` picks.
    pub open spec fn picked(&self, key: Seq<Seq<char>>, kids: Seq<Entry>, n: int, kind: Option<bool>) -> Seq<int>
        decreases n,
    {
        if n <= 0 {
            seq![]
        } else {
            let s = self.picked(key, kids, n - 1, kind);
            if self.selects(key, kids[n - 1], kind) {
                s.push(n - 1)
            } else {
                s
            }
        }
    }

    /// The visible children of the directory at `key`, as indices into
    /// `kids`, in the order in which they are rendered: enumeration order,
    /// or all directories first when directories are prioritized (a stable
    /// partition, so each group keeps enumeration order).
    pub open spec fn order(&self, key: Seq<Seq<char>>, kids: Seq<Entry>) -> Seq<int> {
        if self.prioritize_dirs {
            self.picked(key, kids, kids.len() as int, Some(true))
                + self.picked(key, kids, kids.len() as int, Some(false))
        } else {
            self.picked(key, kids, kids.len() as int, None)
        }
    }

    /// The rows for the siblings `ord[j..]` of the directory `dir` at `key`,
    /// each followed at once by the rows of its contents where rendering
    /// descends into it; or the path of the first directory in that
    /// depth-first order whose listing is needed and failed.
    pub open spec fn rows(
        &self,
        key: Seq<Seq<char>>,
        dir: Entry,
        ord: Seq<int>,
        j: int,
        prefix: Seq<char>,
        show: bool,
    ) -> Result<Seq<Row>, Seq<Seq<char>>>
        decreases dir, ord.len() - j,
    {
        if 0 <= j < ord.len() && 0 <= ord[j] < dir.children.len() {
            let e = dir.children[ord[j]];
            let last = j == ord.len() - 1;
            let ckey = key.push(e.name@);
            let head = Row { key: ckey, text: line_text(prefix, show, last, e.name@, e.is_dir), is_dir: e.is_dir, last };
            let below = if self.descends(key, e) {
                if e.readable {
                    self.rows(ckey, e, self.order(ckey, e.children@), 0, prefix + extension(last), true)
                } else {
                    Err(ckey)
                }
            } else {
                Ok(seq![])
            };
            match below {
                Err(p) => Err(p),
                Ok(b) => match self.rows(key, dir, ord, j + 1, prefix, show) {
                    Err(p) => Err(p),
                    Ok(r) => Ok(seq![head] + b + r),
                },
            }
        } else {
            Ok(seq![])
        }
    }

    /// The rendering of the contents of the directory `dir` at `key`, with
    /// every line starting with `prefix` and connectors drawn at its own
    /// level when `show`.
    pub open spec fn listing(&self, key: Seq<Seq<char>>, dir: Entry, prefix: Seq<char>, show: bool) -> Result<Seq<Row>, Seq<Seq<char>>> {
        if !dir.readable {
            Err(key)
        } else {
            self.rows(key, dir, self.order(key, dir.children@), 0, prefix, show)
        }
    }

    /// Each index that `picked` gives is below `n`, names a child that
    /// `selects` picks, and comes after the ones before it.
    pub proof fn lemma_picked(&self, key: Seq<Seq<char>>, kids: Seq<Entry>, n: int, kind: Option<bool>)
        requires
            n <= kids.len(),
        ensures
            forall|a: int| 0 <= a < self.picked(key, kids, n, kind).len() ==> {
                &&& 0 <= #[trigger] self.picked(key, kids, n, kind)[a] < n
                &&& self.selects(key, kids[self.picked(key, kids, n, kind)[a]], kind)
            },
            forall|a: int, b: int| 0 <= a < b < self.picked(key, kids, n, kind).len()
                ==> self.picked(key, kids, n, kind)[a] < self.picked(key, kids, n, kind)[b],
        decreases n,
    {
        if n > 0 {
            self.lemma_picked(key, kids, n - 1, kind);
            let s = self.picked(key, kids, n - 1, kind);
            let t = self.picked(key, kids, n, kind);
            if self.selects(key, kids[n - 1], kind) {
                assert(t == s.push(n - 1));
                assert forall|a: int| 0 <= a < t.len() implies {
                    &&& 0 <= #[trigger] t[a] < n
                    &&& self.selects(key, kids[t[a]], kind)
                } by {
                    if a < s.len() {
                        assert(t[a] == s[a]);
                    }
                }
                assert forall|a: int, b: int| 0 <= a < b < t.len() implies t[a] < t[b] by {
                    assert(t[a] == s[a]);
                    if b < s.len() {
                        assert(t[b] == s[b]);
                    }
                }
            }
        }
    }

    /// Each index of `order` names a visible child.
    pub proof fn lemma_order(&self, key: Seq<Seq<char>>, kids: Seq<Entry>)
        ensures
            forall|a: int| 0 <= a < self.order(key, kids).len() ==> {
                &&& 0 <= #[trigger] self.order(key, kids)[a] < kids.len()
                &&& !self.ignores(key.push(kids[self.order(key, kids)[a]].name@))
            },
    {
        let n = kids.len() as int;
        self.lemma_picked(key, kids, n, None);
        self.lemma_picked(key, kids, n, Some(true));
        self.lemma_picked(key, kids, n, Some(false));
        if self.prioritize_dirs {
            let d = self.picked(key, kids, n, Some(true));
            let f = self.picked(key, kids, n, Some(false));
            assert forall|a: int| 0 <= a < self.order(key, kids).len() implies {
                &&& 0 <= #[trigger] self.order(key, kids)[a] < kids.len()
                &&& !self.ignores(key.push(kids[self.order(key, kids)[a]].name@))
            } by {
                if a < d.len() {
                    assert(self.order(key, kids)[a] == d[a]);
                } else {
                    assert(self.order(key, kids)[a] == f[a - d.len()]);
                }
            }
        }
    }

    pub fn new(ignore_list: Vec<CanonicalPath>, stop_list: Vec<CanonicalPath>, prioritize_dirs: bool) -> (r: ProjectTree)
        ensures
            r.ignore_list@ == ignore_list@,
            r.stop_list@ == stop_list@,
            r.prioritize_dirs == prioritize_dirs,
    {
        ProjectTree { ignore_list, stop_list, prioritize_dirs }
    }

    /// The configuration that the command-line options describe: the given
    /// paths to leave out and to stop at, each in canonical form, after the
    /// defaults that the `show_*` options do not turn off.
    pub fn from_options(
        ignore: &Vec<String>,
        stop: &Vec<String>,
        show_node_modules: bool,
        show_git: bool,
        show_vscode: bool,
        prioritize_dirs: bool,
    ) -> (r: ProjectTree)
        ensures
            paths_of(r.ignore_list@) == default_ignores(show_git, show_vscode) + canonical_all(ignore@),
            paths_of(r.stop_list@) == default_stops(show_node_modules) + canonical_all(stop@),
            r.prioritize_dirs == prioritize_dirs,
    {
        let mut ignore_list: Vec<CanonicalPath> = Vec::new();
        if !show_git {
            ignore_list.push(canonicalize_relative(".git"));
        }
        if !show_vscode {
            ignore_list.push(canonicalize_relative(".vscode"));
        }
        assert(paths_of(ignore_list@) =~= default_ignores(show_git, show_vscode));
        canonicalize_into(&mut ignore_list, ignore);
        let mut stop_list: Vec<CanonicalPath> = Vec::new();
        if !show_node_modules {
            stop_list.push(canonicalize_relative("node_modules"));
        }
        assert(paths_of(stop_list@) =~= default_stops(show_node_modules));
        canonicalize_into(&mut stop_list, stop);
        ProjectTree::new(ignore_list, stop_list, prioritize_dirs)
    }

    /// Whether the entry at `p` is left out.
    pub fn is_ignored(&self, p: &CanonicalPath) -> (r: bool)
        ensures
            r == self.ignores(p@),
    {
        list_contains(&self.ignore_list, p)
    }

    /// Whether rendering stops at the directory at `p`.
    pub fn is_stopped(&self, p: &CanonicalPath) -> (r: bool)
        ensures
            r == self.stops(p@),
    {
        list_contains(&self.stop_list, p)
    }

    /// Whether rendering lists the contents of `e`, a child of the directory
    /// at `key`: it is a directory that is neither left out nor stopped at.
    pub open spec fn descends(&self, key: Seq<Seq<char>>, e: Entry) -> bool {
        e.is_dir && !self.ignores(key.push(e.name@)) && !self.stops(key.push(e.name@))
    }

    /// Whether a listing of the directory `name`, inside the directory at
    /// `key`, is needed to render it.
    pub fn descends_into(&self, key: &CanonicalPath, name: &String, is_dir: bool) -> (r: bool)
        ensures
            r == (is_dir && !self.ignores(key@.push(name@)) && !self.stops(key@.push(name@))),
    {
        if !is_dir {
            return false;
        }
        let p = key.child(name);
        !self.is_ignored(&p) && !self.is_stopped(&p)
    }

    /// The lines that render the contents of the directory `dir` at
    /// `cur_path`, each starting with `cur_prefix`, with connectors at this
    /// level when `show_lines`; or the first needed directory that could
    /// not be listed.
    pub fn scan_folder(&self, cur_path: &CanonicalPath, dir: &Entry, cur_prefix: String, show_lines: bool) -> (r: Result<Vec<String>, TraversalError>)
        ensures
            outcome(r) == texts_of(self.listing(cur_path@, *dir, cur_prefix@, show_lines)),
        decreases dir,
    {
        if !dir.readable {
            return Err(TraversalError::Unreadable(cur_path.duplicate()));
        }
        let ord = self.visible_order(cur_path, &dir.children);
        let ghost o = ints(ord@);
        proof {
            self.lemma_order(cur_path@, dir.children@);
        }
        let mut files: Vec<String> = Vec::new();
        let n = ord.len();
        let mut j: usize = 0;
        assert(files.deep_view() =~= Seq::<Seq<char>>::empty());
        assert(glue(files.deep_view(), texts_of(self.rows(cur_path@, *dir, o, 0, cur_prefix@, show_lines)))
            == texts_of(self.rows(cur_path@, *dir, o, 0, cur_prefix@, show_lines))) by {
            match self.rows(cur_path@, *dir, o, 0, cur_prefix@, show_lines) {
                Ok(rs) => { assert(Seq::<Seq<char>>::empty() + texts(rs) =~= texts(rs)); },
                Err(p) => {},
            }
        }
        while j < n
            invariant
                n == ord@.len(),
                o == ints(ord@),
                o == self.order(cur_path@, dir.children@),
                dir.readable,
                j <= n,
                forall|a: int| 0 <= a < o.len() ==> {
                    &&& 0 <= #[trigger] o[a] < dir.children.len()
                    &&& !self.ignores(cur_path@.push(dir.children[o[a]].name@))
                },
                texts_of(self.listing(cur_path@, *dir, cur_prefix@, show_lines))
                    == glue(files.deep_view(), texts_of(self.rows(cur_path@, *dir, o, j as int, cur_prefix@, show_lines))),
            decreases n - j,
        {
            let k = ord[j];
            assert(o[j as int] == k as int);
            let child = &dir.children[k];
            let is_last = j == n - 1;
            let mut line = cur_prefix.clone();
            if show_lines {
                if is_last {
                    line.append("└── ");
                } else {
                    line.append("├── ");
                }
            }
            line.append(child.name.as_str());
            if child.is_dir {
                line.append("/");
            }
            assert(line@ == line_text(cur_prefix@, show_lines, is_last, child.name@, child.is_dir));
            let ghost before = files.deep_view();
            files.push(line);
            assert(files.deep_view() =~= before.push(line@));
            let ghost rest = self.rows(cur_path@, *dir, o, j + 1, cur_prefix@, show_lines);
            if self.descends_into(cur_path, &child.name, child.is_dir) {
                let mut new_prefix = cur_prefix.clone();
                if is_last {
                    new_prefix.append("    ");
                } else {
                    new_prefix.append("│   ");
                }
                let ckey = cur_path.child(&child.name);
                let sub = self.scan_folder(&ckey, child, new_prefix, true);
                match sub {
                    Err(e) => {
                        return Err(e);
                    },
                    Ok(mut sub_files) => {
                        let ghost mid = files.deep_view();
                        let ghost b = sub_files.deep_view();
                        files.append(&mut sub_files);
                        assert(files.deep_view() =~= mid + b);
                        proof {
                            if rest is Ok {
                                let r = rest->Ok_0;
                                let brs = self.listing(ckey@, *child, new_prefix@, true)->Ok_0;
                                let head = Row { key: ckey@, text: line@, is_dir: child.is_dir, last: is_last };
                                assert(texts(seq![head] + brs + r) =~= seq![line@] + b + texts(r));
                                assert(before + (seq![line@] + b + texts(r)) =~= files.deep_view() + texts(r));
                            }
                        }
                    },
                }
            } else {
                proof {
                    if rest is Ok {
                        let r = rest->Ok_0;
                        let head = Row { key: cur_path@.push(child.name@), text: line@, is_dir: child.is_dir, last: is_last };
                        assert(texts(seq![head] + Seq::<Row>::empty() + r) =~= seq![line@] + texts(r));
                        assert(before + (seq![line@] + texts(r)) =~= files.deep_view() + texts(r));
                    }
                }
            }
            j += 1;
        }
        assert(files.deep_view() + Seq::<Seq<char>>::empty() =~= files.deep_view());
        assert(texts(Seq::<Row>::empty()) =~= Seq::<Seq<char>>::empty());
        Ok(files)
    }

    /// The order in which the children `kids` of the directory at `key` are
    /// rendered, as indices into `kids`.
    pub fn visible_order(&self, key: &CanonicalPath, kids: &Vec<Entry>) -> (r: Vec<usize>)
        ensures
            ints(r@) == self.order(key@, kids@),
    {
        let mut all: Vec<usize> = Vec::new();
        let mut dirs: Vec<usize> = Vec::new();
        let mut files: Vec<usize> = Vec::new();
        let n = kids.len();
        let mut i: usize = 0;
        while i < n
            invariant
                n == kids@.len(),
                i <= n,
                ints(all@) == self.picked(key@, kids@, i as int, None),
                ints(dirs@) == self.picked(key@, kids@, i as int, Some(true)),
                ints(files@) == self.picked(key@, kids@, i as int, Some(false)),
            decreases n - i,
        {
            let p = key.child(&kids[i].name);
            if !self.is_ignored(&p) {
                all.push(i);
                if kids[i].is_dir {
                    dirs.push(i);
                } else {
                    files.push(i);
                }
            }
            assert(ints(all@) =~= self.picked(key@, kids@, i + 1, None));
            assert(ints(dirs@) =~= self.picked(key@, kids@, i + 1, Some(true)));
            assert(ints(files@) =~= self.picked(key@, kids@, i + 1, Some(false)));
            i += 1;
        }
        if self.prioritize_dirs {
            let ghost d = dirs@;
            dirs.append(&mut files);
            assert(ints(dirs@) =~= ints(d) + self.picked(key@, kids@, n as int, Some(false)));
            dirs
        } else {
            all
        }
    }
}

} // verus!
