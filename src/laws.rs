//! Properties of every rendering, proved over the row model.

use vstd::prelude::*;
use crate::entry::Entry;
use crate::output::joined;
use crate::tree::{ProjectTree, Row, TraversalError, line_text, outcome, texts_of};

verus! {

/// `p` lies strictly below the directory at `key`, and neither `p` nor any
/// directory between `key` and `p` is left out; no directory strictly
/// between them is one where rendering stops.
pub open spec fn reachable_below(cfg: ProjectTree, key: Seq<Seq<char>>, p: Seq<Seq<char>>) -> bool {
    &&& p.len() > key.len()
    &&& p.take(key.len() as int) == key
    &&& forall|d: int| key.len() < d <= p.len() ==> !cfg.ignores(#[trigger] p.take(d))
    &&& forall|d: int| key.len() < d < p.len() ==> !cfg.stops(#[trigger] p.take(d))
}

/// The row shows a direct child of the directory at `key`.
pub open spec fn direct(key: Seq<Seq<char>>, r: Row) -> bool {
    r.key.len() == key.len() + 1
}

/// What holds of the rows `rs` rendered below the directory at `key`.
pub open spec fn rows_shape(
    cfg: ProjectTree,
    key: Seq<Seq<char>>,
    rs: Seq<Row>,
    prefix: Seq<char>,
    show: bool,
) -> bool {
    &&& forall|i: int| 0 <= i < rs.len() ==> reachable_below(cfg, key, (#[trigger] rs[i]).key)
    &&& forall|i: int, i2: int|
        0 <= i < i2 < rs.len() && direct(key, #[trigger] rs[i]) && rs[i].last ==> !direct(key, #[trigger] rs[i2])
    &&& forall|i: int|
        0 <= i < rs.len() && direct(key, #[trigger] rs[i]) && !rs[i].last
            ==> exists|i2: int| i < i2 < rs.len() && direct(key, #[trigger] rs[i2])
    &&& forall|i: int| 0 <= i < rs.len() && direct(key, #[trigger] rs[i])
        ==> rs[i].text == line_text(prefix, show, rs[i].last, rs[i].key.last(), rs[i].is_dir)
}

/// The sibling indices `ord` name visible children of `dir`.
pub open spec fn visible_siblings(cfg: ProjectTree, key: Seq<Seq<char>>, dir: Entry, ord: Seq<int>) -> bool {
    forall|a: int| 0 <= a < ord.len() ==> {
        &&& 0 <= #[trigger] ord[a] < dir.children.len()
        &&& !cfg.ignores(key.push(dir.children[ord[a]].name@))
    }
}

proof fn lemma_reachable_step(cfg: ProjectTree, key: Seq<Seq<char>>, name: Seq<char>, p: Seq<Seq<char>>)
    requires
        !cfg.ignores(key.push(name)),
        !cfg.stops(key.push(name)),
        reachable_below(cfg, key.push(name), p),
    ensures
        reachable_below(cfg, key, p),
{
    let ckey = key.push(name);
    assert(p.take(key.len() as int) =~= p.take(ckey.len() as int).take(key.len() as int));
    assert(ckey.take(key.len() as int) =~= key);
    assert forall|d: int| key.len() < d <= p.len() implies !cfg.ignores(#[trigger] p.take(d)) by {
        if d == ckey.len() {
            assert(p.take(d) == ckey);
        }
    }
    assert forall|d: int| key.len() < d < p.len() implies !cfg.stops(#[trigger] p.take(d)) by {
        if d == ckey.len() {
            assert(p.take(d) == ckey);
        }
    }
}

/// The facts of `rows_shape`, proved along the recursion of `rows`; and,
/// for the ordering of siblings, what the sibling kinds in `ord[j..]`
/// carry over to the direct rows.
pub proof fn lemma_rows(
    cfg: ProjectTree,
    key: Seq<Seq<char>>,
    dir: Entry,
    ord: Seq<int>,
    j: int,
    prefix: Seq<char>,
    show: bool,
)
    requires
        visible_siblings(cfg, key, dir, ord),
        0 <= j <= ord.len(),
    ensures
        cfg.rows(key, dir, ord, j, prefix, show) is Ok ==> {
            let rs = cfg.rows(key, dir, ord, j, prefix, show)->Ok_0;
            &&& rows_shape(cfg, key, rs, prefix, show)
            &&& j < ord.len() ==> rs.len() > 0 && direct(key, rs[0])
            &&& (forall|a: int| j <= a < ord.len() ==> !(#[trigger] dir.children[ord[a]]).is_dir)
                ==> forall|i: int| 0 <= i < rs.len() && direct(key, #[trigger] rs[i]) ==> !rs[i].is_dir
            &&& (forall|a: int, b: int| j <= a < b < ord.len()
                ==> (#[trigger] dir.children[ord[a]]).is_dir || !(#[trigger] dir.children[ord[b]]).is_dir)
                ==> forall|i: int, i2: int| 0 <= i < i2 < rs.len() && direct(key, #[trigger] rs[i])
                    && direct(key, #[trigger] rs[i2]) ==> rs[i].is_dir || !rs[i2].is_dir
        },
    decreases dir, ord.len() - j,
{
    if j < ord.len() {
        let e = dir.children[ord[j]];
        let last = j == ord.len() - 1;
        let ckey = key.push(e.name@);
        let head = Row { key: ckey, text: line_text(prefix, show, last, e.name@, e.is_dir), is_dir: e.is_dir, last };
        let inner = cfg.order(ckey, e.children@);
        let cprefix = prefix + crate::tree::extension(last);
        if cfg.descends(key, e) && e.readable {
            cfg.lemma_order(ckey, e.children@);
            lemma_rows(cfg, ckey, e, inner, 0, cprefix, true);
        }
        lemma_rows(cfg, key, dir, ord, j + 1, prefix, show);
        if cfg.rows(key, dir, ord, j, prefix, show) is Ok {
            let b = if cfg.descends(key, e) {
                cfg.rows(ckey, e, inner, 0, cprefix, true)->Ok_0
            } else {
                Seq::<Row>::empty()
            };
            let r = cfg.rows(key, dir, ord, j + 1, prefix, show)->Ok_0;
            let rs = cfg.rows(key, dir, ord, j, prefix, show)->Ok_0;
            assert(rs == seq![head] + b + r);
            let nb = b.len() as int;
            assert forall|i: int| 1 <= i < 1 + nb implies rs[i] == b[i - 1] && reachable_below(cfg, key, rs[i].key)
                && !direct(key, rs[i]) by {
                assert(rs[i] == b[i - 1]);
                assert(reachable_below(cfg, ckey, b[i - 1].key));
                lemma_reachable_step(cfg, key, e.name@, b[i - 1].key);
            }
            assert forall|i: int| 1 + nb <= i < rs.len() implies rs[i] == r[i - 1 - nb] by {}
            assert(ckey.take(key.len() as int) =~= key);
            assert(reachable_below(cfg, key, head.key)) by {
                assert forall|d: int| key.len() < d <= ckey.len() implies !cfg.ignores(#[trigger] ckey.take(d)) by {
                    assert(ckey.take(d) =~= ckey);
                }
            }
            assert(ckey.last() == e.name@);
            if last {
                assert(r.len() == 0);
            } else {
                assert(rs[1 + nb] == r[0]);
            }
            assert(rows_shape(cfg, key, rs, prefix, show)) by {
                assert forall|i: int| 0 <= i < rs.len() implies reachable_below(cfg, key, (#[trigger] rs[i]).key) by {
                    if i >= 1 + nb {
                        assert(rs[i] == r[i - 1 - nb]);
                    }
                }
                assert forall|i: int, i2: int|
                    0 <= i < i2 < rs.len() && direct(key, #[trigger] rs[i]) && rs[i].last implies !direct(key, #[trigger] rs[i2]) by {
                    if i >= 1 + nb {
                        assert(rs[i] == r[i - 1 - nb]);
                        assert(rs[i2] == r[i2 - 1 - nb]);
                    }
                }
                assert forall|i: int| 0 <= i < rs.len() && direct(key, #[trigger] rs[i]) && !rs[i].last
                    implies exists|i2: int| i < i2 < rs.len() && direct(key, #[trigger] rs[i2]) by {
                    if i == 0 {
                        assert(direct(key, rs[1 + nb]));
                    } else {
                        assert(rs[i] == r[i - 1 - nb]);
                        let k2 = choose|k2: int| i - 1 - nb < k2 < r.len() && direct(key, #[trigger] r[k2]);
                        assert(rs[k2 + 1 + nb] == r[k2]);
                    }
                }
                assert forall|i: int| 0 <= i < rs.len() && direct(key, #[trigger] rs[i])
                    implies rs[i].text == line_text(prefix, show, rs[i].last, rs[i].key.last(), rs[i].is_dir) by {
                    if i >= 1 + nb {
                        assert(rs[i] == r[i - 1 - nb]);
                    }
                }
            }
            if forall|a: int| j <= a < ord.len() ==> !(#[trigger] dir.children[ord[a]]).is_dir {
                assert(!dir.children[ord[j]].is_dir);
                assert forall|i: int| 0 <= i < rs.len() && direct(key, #[trigger] rs[i]) implies !rs[i].is_dir by {
                    if i >= 1 + nb {
                        assert(rs[i] == r[i - 1 - nb]);
                    }
                }
            }
            if forall|a: int, b: int| j <= a < b < ord.len()
                ==> (#[trigger] dir.children[ord[a]]).is_dir || !(#[trigger] dir.children[ord[b]]).is_dir {
                if !e.is_dir {
                    assert forall|a: int| j + 1 <= a < ord.len() implies !(#[trigger] dir.children[ord[a]]).is_dir by {
                        assert(dir.children[ord[j]].is_dir || !dir.children[ord[a]].is_dir);
                    }
                }
                assert forall|i: int, i2: int| 0 <= i < i2 < rs.len() && direct(key, #[trigger] rs[i])
                    && direct(key, #[trigger] rs[i2]) implies rs[i].is_dir || !rs[i2].is_dir by {
                    assert(rs[i2] == r[i2 - 1 - nb]);
                    if i >= 1 + nb {
                        assert(rs[i] == r[i - 1 - nb]);
                    }
                }
            }
        }
    } else {
        assert(cfg.rows(key, dir, ord, j, prefix, show)->Ok_0 =~= Seq::<Row>::empty());
    }
}

proof fn lemma_listing(cfg: ProjectTree, key: Seq<Seq<char>>, dir: Entry, prefix: Seq<char>, show: bool)
    ensures
        cfg.listing(key, dir, prefix, show) is Ok ==> {
            let rs = cfg.listing(key, dir, prefix, show)->Ok_0;
            &&& rows_shape(cfg, key, rs, prefix, show)
            &&& cfg.order(key, dir.children@).len() > 0 ==> rs.len() > 0 && direct(key, rs[0])
            &&& cfg.prioritize_dirs ==> forall|i: int, i2: int| 0 <= i < i2 < rs.len() && direct(key, #[trigger] rs[i])
                && direct(key, #[trigger] rs[i2]) ==> rs[i].is_dir || !rs[i2].is_dir
        },
{
    if dir.readable {
        let kids = dir.children@;
        let ord = cfg.order(key, kids);
        cfg.lemma_order(key, kids);
        lemma_rows(cfg, key, dir, ord, 0, prefix, show);
        if cfg.prioritize_dirs {
            let n = kids.len() as int;
            let ds = cfg.picked(key, kids, n, Some(true));
            let fs = cfg.picked(key, kids, n, Some(false));
            cfg.lemma_picked(key, kids, n, Some(true));
            cfg.lemma_picked(key, kids, n, Some(false));
            assert forall|a: int, b: int| 0 <= a < b < ord.len()
                implies (#[trigger] dir.children[ord[a]]).is_dir || !(#[trigger] dir.children[ord[b]]).is_dir by {
                if a < ds.len() {
                    assert(ord[a] == ds[a]);
                    assert(cfg.selects(key, kids[ds[a]], Some(true)));
                } else {
                    assert(ord[b] == fs[b - ds.len()]);
                    assert(cfg.selects(key, kids[fs[b - ds.len()]], Some(false)));
                }
            }
        }
    }
}

/// No line shows an entry that is left out, nor anything inside one: every
/// rendered path lies below the rendered directory, and neither it nor any
/// directory on the way to it is in the ignore set.
pub proof fn law_filter_complete(cfg: ProjectTree, key: Seq<Seq<char>>, dir: Entry, prefix: Seq<char>, show: bool)
    ensures
        cfg.listing(key, dir, prefix, show) is Ok ==> {
            let rs = cfg.listing(key, dir, prefix, show)->Ok_0;
            forall|i: int, d: int| 0 <= i < rs.len() && key.len() < d <= rs[i].key.len()
                ==> rs[i].key.take(key.len() as int) == key && !cfg.ignores(#[trigger] rs[i].key.take(d))
        },
{
    lemma_listing(cfg, key, dir, prefix, show);
    if cfg.listing(key, dir, prefix, show) is Ok {
        let rs = cfg.listing(key, dir, prefix, show)->Ok_0;
        assert forall|i: int, d: int| 0 <= i < rs.len() && key.len() < d <= rs[i].key.len()
            implies rs[i].key.take(key.len() as int) == key && !cfg.ignores(#[trigger] rs[i].key.take(d)) by {
            assert(reachable_below(cfg, key, rs[i].key));
        }
    }
}

/// Rendering never lists the contents of a directory where it stops: no
/// rendered path has such a directory strictly on the way to it. Such a
/// directory's own line ends with the directory marker.
pub proof fn law_stop_complete(cfg: ProjectTree, key: Seq<Seq<char>>, dir: Entry, prefix: Seq<char>, show: bool)
    ensures
        cfg.listing(key, dir, prefix, show) is Ok ==> {
            let rs = cfg.listing(key, dir, prefix, show)->Ok_0;
            &&& forall|i: int, d: int| 0 <= i < rs.len() && key.len() < d < rs[i].key.len()
                ==> !cfg.stops(#[trigger] rs[i].key.take(d))
            &&& forall|i: int| 0 <= i < rs.len() && direct(key, #[trigger] rs[i]) && rs[i].is_dir
                ==> rs[i].text == prefix + crate::tree::connector(show, rs[i].last) + rs[i].key.last() + "/"@
        },
{
    lemma_listing(cfg, key, dir, prefix, show);
    if cfg.listing(key, dir, prefix, show) is Ok {
        let rs = cfg.listing(key, dir, prefix, show)->Ok_0;
        assert forall|i: int, d: int| 0 <= i < rs.len() && key.len() < d < rs[i].key.len()
            implies !cfg.stops(#[trigger] rs[i].key.take(d)) by {
            assert(reachable_below(cfg, key, rs[i].key));
        }
    }
}

/// Among the lines of a directory's visible children, exactly the last one
/// takes the corner connector: the first rendered line is a child's; after
/// a child marked last no other child follows; after any other child one
/// does. Each child's line is the prefix, the connector for its position,
/// its name and, for a directory, the marker.
pub proof fn law_last_sibling(cfg: ProjectTree, key: Seq<Seq<char>>, dir: Entry, prefix: Seq<char>, show: bool)
    ensures
        cfg.listing(key, dir, prefix, show) is Ok ==> {
            let rs = cfg.listing(key, dir, prefix, show)->Ok_0;
            &&& rs.len() > 0 ==> direct(key, rs[0])
            &&& forall|i: int, i2: int| 0 <= i < i2 < rs.len() && direct(key, #[trigger] rs[i]) && rs[i].last
                ==> !direct(key, #[trigger] rs[i2])
            &&& forall|i: int| 0 <= i < rs.len() && direct(key, #[trigger] rs[i]) && !rs[i].last
                ==> exists|i2: int| i < i2 < rs.len() && direct(key, #[trigger] rs[i2])
            &&& forall|i: int| 0 <= i < rs.len() && direct(key, #[trigger] rs[i])
                ==> rs[i].text == line_text(prefix, show, rs[i].last, rs[i].key.last(), rs[i].is_dir)
        },
{
    lemma_listing(cfg, key, dir, prefix, show);
    if cfg.listing(key, dir, prefix, show) is Ok && cfg.order(key, dir.children@).len() == 0 {
        assert(cfg.listing(key, dir, prefix, show)->Ok_0.len() == 0);
    }
}

/// With directories prioritized, no directory's line comes after a file's
/// line among the children of one directory.
pub proof fn law_dirs_first(cfg: ProjectTree, key: Seq<Seq<char>>, dir: Entry, prefix: Seq<char>, show: bool)
    requires
        cfg.prioritize_dirs,
    ensures
        cfg.listing(key, dir, prefix, show) is Ok ==> {
            let rs = cfg.listing(key, dir, prefix, show)->Ok_0;
            forall|i: int, i2: int| 0 <= i < i2 < rs.len() && direct(key, #[trigger] rs[i])
                && direct(key, #[trigger] rs[i2]) && !rs[i].is_dir ==> !rs[i2].is_dir
        },
{
    lemma_listing(cfg, key, dir, prefix, show);
}

/// Two renderings of the same snapshot with the same configuration give the
/// same outcome, and so the same text.
pub proof fn law_repeatable(
    cfg: ProjectTree,
    key: Seq<Seq<char>>,
    dir: Entry,
    prefix: Seq<char>,
    show: bool,
    r1: Result<Vec<String>, TraversalError>,
    r2: Result<Vec<String>, TraversalError>,
)
    requires
        outcome(r1) == texts_of(cfg.listing(key, dir, prefix, show)),
        outcome(r2) == texts_of(cfg.listing(key, dir, prefix, show)),
    ensures
        outcome(r1) == outcome(r2),
        r1 is Ok <==> r2 is Ok,
        r1 is Ok ==> joined(r1->Ok_0.deep_view()) == joined(r2->Ok_0.deep_view()),
{
}

/// No two children of one directory share a name.
pub open spec fn names_distinct(kids: Seq<Entry>) -> bool {
    forall|a: int, b: int| 0 <= a < kids.len() && 0 <= b < kids.len() && a != b
        ==> (#[trigger] kids[a]).name@ != (#[trigger] kids[b]).name@
}

/// In every directory of the snapshot, the children's names are distinct,
/// as they are in any directory listing.
pub open spec fn well_named(e: Entry) -> bool
    decreases e,
{
    &&& names_distinct(e.children@)
    &&& forall|k: int| 0 <= k < e.children.len() ==> well_named(#[trigger] e.children[k])
}

/// No index appears twice in `ord`.
pub open spec fn indices_distinct(ord: Seq<int>) -> bool {
    forall|a: int, b: int| 0 <= a < ord.len() && 0 <= b < ord.len() && a != b ==> ord[a] != ord[b]
}

proof fn lemma_order_distinct(cfg: ProjectTree, key: Seq<Seq<char>>, kids: Seq<Entry>)
    ensures
        indices_distinct(cfg.order(key, kids)),
{
    let n = kids.len() as int;
    cfg.lemma_picked(key, kids, n, None);
    cfg.lemma_picked(key, kids, n, Some(true));
    cfg.lemma_picked(key, kids, n, Some(false));
    let ord = cfg.order(key, kids);
    if cfg.prioritize_dirs {
        let ds = cfg.picked(key, kids, n, Some(true));
        let fs = cfg.picked(key, kids, n, Some(false));
        assert forall|a: int, b: int| 0 <= a < ord.len() && 0 <= b < ord.len() && a != b implies ord[a] != ord[b] by {
            if a < ds.len() && b < ds.len() {
                assert(ord[a] == ds[a] && ord[b] == ds[b]);
                assert(a < b ==> ds[a] < ds[b]);
                assert(b < a ==> ds[b] < ds[a]);
            } else if a >= ds.len() && b >= ds.len() {
                assert(ord[a] == fs[a - ds.len()] && ord[b] == fs[b - ds.len()]);
                assert(a < b ==> fs[a - ds.len()] < fs[b - ds.len()]);
                assert(b < a ==> fs[b - ds.len()] < fs[a - ds.len()]);
            } else if a < ds.len() {
                assert(ord[a] == ds[a] && ord[b] == fs[b - ds.len()]);
                assert(cfg.selects(key, kids[ds[a]], Some(true)));
                assert(cfg.selects(key, kids[fs[b - ds.len()]], Some(false)));
            } else {
                assert(ord[b] == ds[b] && ord[a] == fs[a - ds.len()]);
                assert(cfg.selects(key, kids[ds[b]], Some(true)));
                assert(cfg.selects(key, kids[fs[a - ds.len()]], Some(false)));
            }
        }
    } else {
        let ps = cfg.picked(key, kids, n, None);
        assert forall|a: int, b: int| 0 <= a < ord.len() && 0 <= b < ord.len() && a != b implies ord[a] != ord[b] by {
            assert(a < b ==> ps[a] < ps[b]);
            assert(b < a ==> ps[b] < ps[a]);
        }
    }
}

/// Each row of `rows(.., j, ..)` lies under one of the siblings `ord[j..]`,
/// and no two rows show the same path.
#[verifier::spinoff_prover]
#[verifier::rlimit(60)]
proof fn lemma_rows_distinct(
    cfg: ProjectTree,
    key: Seq<Seq<char>>,
    dir: Entry,
    ord: Seq<int>,
    j: int,
    prefix: Seq<char>,
    show: bool,
)
    requires
        visible_siblings(cfg, key, dir, ord),
        indices_distinct(ord),
        well_named(dir),
        0 <= j <= ord.len(),
    ensures
        cfg.rows(key, dir, ord, j, prefix, show) is Ok ==> {
            let rs = cfg.rows(key, dir, ord, j, prefix, show)->Ok_0;
            &&& forall|i: int| 0 <= i < rs.len() ==> exists|a: int| j <= a < ord.len()
                && (#[trigger] rs[i]).key.take(key.len() as int + 1) == key.push(#[trigger] dir.children[ord[a]].name@)
            &&& forall|i: int, i2: int| 0 <= i < i2 < rs.len() ==> (#[trigger] rs[i]).key != (#[trigger] rs[i2]).key
        },
    decreases dir, ord.len() - j,
{
    if j < ord.len() {
        let e = dir.children[ord[j]];
        let last = j == ord.len() - 1;
        let ckey = key.push(e.name@);
        let head = Row { key: ckey, text: line_text(prefix, show, last, e.name@, e.is_dir), is_dir: e.is_dir, last };
        let inner = cfg.order(ckey, e.children@);
        let cprefix = prefix + crate::tree::extension(last);
        assert(well_named(e));
        if cfg.descends(key, e) && e.readable {
            cfg.lemma_order(ckey, e.children@);
            lemma_order_distinct(cfg, ckey, e.children@);
            lemma_rows(cfg, ckey, e, inner, 0, cprefix, true);
            lemma_rows_distinct(cfg, ckey, e, inner, 0, cprefix, true);
        }
        lemma_rows_distinct(cfg, key, dir, ord, j + 1, prefix, show);
        if cfg.rows(key, dir, ord, j, prefix, show) is Ok {
            let b = if cfg.descends(key, e) {
                cfg.rows(ckey, e, inner, 0, cprefix, true)->Ok_0
            } else {
                Seq::<Row>::empty()
            };
            let r = cfg.rows(key, dir, ord, j + 1, prefix, show)->Ok_0;
            let rs = cfg.rows(key, dir, ord, j, prefix, show)->Ok_0;
            assert(rs == seq![head] + b + r);
            let nb = b.len() as int;
            assert(ckey.take(key.len() as int + 1) =~= ckey);
            assert forall|i: int| 1 <= i < 1 + nb implies (#[trigger] rs[i]).key.take(key.len() as int + 1) == ckey
                && rs[i].key.len() > ckey.len() by {
                assert(rs[i] == b[i - 1]);
                assert(reachable_below(cfg, ckey, b[i - 1].key));
                assert(b[i - 1].key.take(key.len() as int + 1) =~= b[i - 1].key.take(ckey.len() as int).take(key.len() as int + 1));
            }
            assert forall|i: int| 1 + nb <= i < rs.len() implies exists|a: int| j < a < ord.len()
                && (#[trigger] rs[i]).key.take(key.len() as int + 1) == key.push(#[trigger] dir.children[ord[a]].name@) by {
                assert(rs[i] == r[i - 1 - nb]);
            }
            assert forall|i: int| 0 <= i < rs.len() implies exists|a: int| j <= a < ord.len()
                && (#[trigger] rs[i]).key.take(key.len() as int + 1) == key.push(#[trigger] dir.children[ord[a]].name@) by {
                if i < 1 + nb {
                    assert(rs[i].key.take(key.len() as int + 1) == key.push(dir.children[ord[j]].name@));
                }
            }
            assert forall|i: int, i2: int| 0 <= i < i2 < rs.len() implies (#[trigger] rs[i]).key != (#[trigger] rs[i2]).key by {
                if i2 >= 1 + nb {
                    let a = choose|a: int| j < a < ord.len()
                        && (#[trigger] rs[i2]).key.take(key.len() as int + 1) == key.push(#[trigger] dir.children[ord[a]].name@);
                    assert(ord[a] != ord[j]);
                    assert(dir.children[ord[a]].name@ != e.name@);
                    assert(key.push(dir.children[ord[a]].name@).last() != ckey.last());
                    if i < 1 + nb {
                        assert(rs[i].key.take(key.len() as int + 1) == ckey);
                        if i >= 1 {
                            assert(reachable_below(cfg, key, rs[i].key)) by {
                                assert(rs[i] == b[i - 1]);
                                lemma_reachable_step(cfg, key, e.name@, b[i - 1].key);
                            }
                        }
                        assert(i == 0 ==> rs[i].key == ckey);
                    } else {
                        assert(rs[i] == r[i - 1 - nb]);
                        assert(rs[i2] == r[i2 - 1 - nb]);
                    }
                } else if i >= 1 {
                    assert(rs[i] == b[i - 1]);
                    assert(rs[i2] == b[i2 - 1]);
                }
            }
        }
    } else {
        assert(cfg.rows(key, dir, ord, j, prefix, show)->Ok_0 =~= Seq::<Row>::empty());
    }
}

/// In a snapshot whose directories hold distinct names, no path is shown by
/// two lines; with the stop law, a directory where rendering stops is shown
/// by at most one line and nothing below it.
pub proof fn law_paths_distinct(cfg: ProjectTree, key: Seq<Seq<char>>, dir: Entry, prefix: Seq<char>, show: bool)
    requires
        well_named(dir),
    ensures
        cfg.listing(key, dir, prefix, show) is Ok ==> {
            let rs = cfg.listing(key, dir, prefix, show)->Ok_0;
            forall|i: int, i2: int| 0 <= i < i2 < rs.len() ==> (#[trigger] rs[i]).key != (#[trigger] rs[i2]).key
        },
{
    if dir.readable {
        cfg.lemma_order(key, dir.children@);
        lemma_order_distinct(cfg, key, dir.children@);
        lemma_rows_distinct(cfg, key, dir, cfg.order(key, dir.children@), 0, prefix, show);
    }
}

} // verus!
