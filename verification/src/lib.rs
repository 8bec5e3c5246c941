//! Scan a modeled directory tree and derive one module reference per source
//! file, in a deterministic order.
//!
//! The scanner walks a tree of [`Entry`] values. A directory that directly
//! contains a `mod.rs` file stands for a single module backed by that file;
//! any other directory is recursed into. A regular file contributes a module
//! reference when its name carries the `rs` extension and is none of the
//! reserved names `mod.rs`, `lib.rs` and `main.rs`. The result is sorted
//! lexicographically by the (path, identifier) pair, so the output depends
//! only on the tree, never on the order in which entries were listed.

use vstd::prelude::*;

mod error;
pub mod ident;
pub mod order;

pub use error::Error;

use crate::ident::{
    comps_view, has_rs_ext_exec, ident_of, is_reserved_exec, join_under, make_ident, make_path,
    path_of, qualifies, stem_of,
};
use crate::order::{
    pair_le_ff, pairs_view, sort_pairs, str_eq, lemma_pair_le_total_ordering,
};
use vstd::multiset::Multiset;
use vstd::string::StringExecFns;

verus! {

/// What a filesystem object turned out to be when the tree was listed.
///
/// `Unreadable` stands for a directory whose listing failed; it carries the
/// failure so that a scan can surface it verbatim. `Other` stands for
/// anything that is neither a regular file nor a directory.
pub enum FsNode {
    File,
    Dir(Vec<Entry>),
    Unreadable(std::io::Error),
    Other,
}

/// One named filesystem object inside a listed directory.
pub struct Entry {
    pub name: String,
    pub node: FsNode,
}

/// Height of a node: nesting depth of directories below it.
pub open spec fn node_height(n: FsNode) -> nat
    decreases n,
{
    match n {
        FsNode::Dir(entries) => entries_height(entries@) + 1,
        _ => 0,
    }
}

/// Height of a list of entries: the largest height among its nodes.
pub open spec fn entries_height(es: Seq<Entry>) -> nat
    decreases es,
{
    if es.len() == 0 {
        0
    } else {
        let h0 = node_height(es[0].node);
        let hr = entries_height(es.drop_first());
        if h0 > hr {
            h0
        } else {
            hr
        }
    }
}

/// Every node in a list is at most as high as the list itself.
proof fn lemma_entries_height_bound(es: Seq<Entry>, i: int)
    requires
        0 <= i < es.len(),
    ensures
        node_height(es[i].node) <= entries_height(es),
    decreases es.len(),
{
    if i > 0 {
        lemma_entries_height_bound(es.drop_first(), i - 1);
    }
}

/// Whether a listed directory directly contains the module-root marker: a
/// regular file named `mod.rs`.
pub open spec fn has_marker(es: Seq<Entry>) -> bool {
    exists|i: int| 0 <= i < es.len() && #[trigger] es[i].name@ == "mod.rs"@ && es[i].node is File
}

/// The module references contributed by one entry, in traversal order.
///
/// A qualifying file is one reference. A directory with the marker is one
/// reference backed by its marker file, whatever else it holds. Any other
/// directory contributes whatever stands below it. Everything else, nothing.
pub open spec fn walk_one(root: Seq<char>, prefix: Seq<Seq<char>>, e: Entry) -> Seq<
    (Seq<char>, Seq<char>),
>
    decreases node_height(e.node), 0nat,
{
    match e.node {
        FsNode::File => {
            if qualifies(e.name@) {
                seq![(path_of(root, prefix.push(e.name@)), ident_of(prefix, e.name@))]
            } else {
                Seq::empty()
            }
        },
        FsNode::Dir(sub) => {
            if has_marker(sub@) {
                seq![
                    (
                        path_of(root, prefix.push(e.name@).push("mod.rs"@)),
                        ident_of(prefix, e.name@),
                    ),
                ]
            } else {
                walk_entries(root, prefix.push(e.name@), sub@)
            }
        },
        FsNode::Unreadable(_) => Seq::empty(),
        FsNode::Other => Seq::empty(),
    }
}

/// The module references contributed by a list of entries, in order.
pub open spec fn walk_entries(root: Seq<char>, prefix: Seq<Seq<char>>, es: Seq<Entry>) -> Seq<
    (Seq<char>, Seq<char>),
>
    decreases entries_height(es), es.len(),
{
    if es.len() == 0 {
        Seq::empty()
    } else {
        walk_one(root, prefix, es[0]) + walk_entries(root, prefix, es.drop_first())
    }
}

/// Whether a walk of this node reads no unreadable directory. A directory
/// with the marker is never descended into, so what stands below it is not
/// read.
pub open spec fn node_readable(n: FsNode) -> bool
    decreases node_height(n), 0nat,
{
    match n {
        FsNode::Dir(sub) => has_marker(sub@) || entries_readable(sub@),
        FsNode::Unreadable(_) => false,
        _ => true,
    }
}

/// Whether a walk of these entries reads no unreadable directory.
pub open spec fn entries_readable(es: Seq<Entry>) -> bool
    decreases entries_height(es), es.len(),
{
    if es.len() == 0 {
        true
    } else {
        node_readable(es[0].node) && entries_readable(es.drop_first())
    }
}

/// Whether `err` is the failure of some unreadable directory that a walk of
/// this node reads.
pub open spec fn node_holds_error(n: FsNode, err: std::io::Error) -> bool
    decreases node_height(n), 0nat,
{
    match n {
        FsNode::Dir(sub) => !has_marker(sub@) && entries_hold_error(sub@, err),
        FsNode::Unreadable(e) => e == err,
        _ => false,
    }
}

/// Whether `err` is the failure of some unreadable directory that a walk of
/// these entries reads.
pub open spec fn entries_hold_error(es: Seq<Entry>, err: std::io::Error) -> bool
    decreases entries_height(es), es.len(),
{
    if es.len() == 0 {
        false
    } else {
        node_holds_error(es[0].node, err) || entries_hold_error(es.drop_first(), err)
    }
}

/// What a whole scan returns on a readable tree: the references of the walk,
/// sorted by the (path, identifier) pair.
pub open spec fn scan_refs(root: Seq<char>, es: Seq<Entry>) -> Seq<(Seq<char>, Seq<char>)> {
    walk_entries(root, Seq::empty(), es).sort_by(pair_le_ff())
}

/// Peels the first entry off a suffix of a list, for the walk and for
/// readability alike.
proof fn lemma_suffix_unfold(root: Seq<char>, prefix: Seq<Seq<char>>, es: Seq<Entry>, k: int)
    requires
        0 <= k < es.len(),
    ensures
        walk_entries(root, prefix, es.subrange(k, es.len() as int)) == walk_one(root, prefix, es[k])
            + walk_entries(root, prefix, es.subrange(k + 1, es.len() as int)),
        entries_readable(es.subrange(k, es.len() as int)) == (node_readable(es[k].node)
            && entries_readable(es.subrange(k + 1, es.len() as int))),
{
    let s = es.subrange(k, es.len() as int);
    assert(s.len() > 0);
    assert(s[0] == es[k]);
    assert(s.drop_first() =~= es.subrange(k + 1, es.len() as int));
}

/// One unreadable node makes the whole list unreadable.
proof fn lemma_not_readable_at(es: Seq<Entry>, i: int)
    requires
        0 <= i < es.len(),
        !node_readable(es[i].node),
    ensures
        !entries_readable(es),
    decreases i,
{
    if i > 0 {
        assert(es.drop_first()[i - 1] == es[i]);
        lemma_not_readable_at(es.drop_first(), i - 1);
    }
}

/// A failure held by one node is held by the whole list.
proof fn lemma_error_at(es: Seq<Entry>, i: int, err: std::io::Error)
    requires
        0 <= i < es.len(),
        node_holds_error(es[i].node, err),
    ensures
        entries_hold_error(es, err),
    decreases i,
{
    if i > 0 {
        assert(es.drop_first()[i - 1] == es[i]);
        lemma_error_at(es.drop_first(), i - 1, err);
    }
}

/// The multiset of a concatenation is the sum of the multisets.
proof fn lemma_ms_split(a: Seq<(Seq<char>, Seq<char>)>, b: Seq<(Seq<char>, Seq<char>)>)
    ensures
        (a + b).to_multiset() == a.to_multiset().add(b.to_multiset()),
{
    broadcast use vstd::multiset::group_multiset_axioms;

    vstd::seq_lib::lemma_multiset_commutative(a, b);
}

/// The multiset of the empty list of references.
proof fn lemma_ms_empty()
    ensures
        Seq::<(Seq<char>, Seq<char>)>::empty().to_multiset() == Multiset::<
            (Seq<char>, Seq<char>),
        >::empty(),
{
    broadcast use vstd::multiset::group_multiset_axioms;

    vstd::seq_lib::to_multiset_len(Seq::<(Seq<char>, Seq<char>)>::empty());
    vstd::multiset::lemma_multiset_empty_len(Seq::<(Seq<char>, Seq<char>)>::empty().to_multiset());
}

/// The multiset of one reference.
proof fn lemma_ms_singleton(p: (Seq<char>, Seq<char>))
    ensures
        seq![p].to_multiset() == Multiset::<(Seq<char>, Seq<char>)>::empty().insert(p),
{
    broadcast use vstd::multiset::group_multiset_axioms;

    assert(seq![p] =~= Seq::<(Seq<char>, Seq<char>)>::empty().push(p));
    vstd::seq_lib::to_multiset_build(Seq::<(Seq<char>, Seq<char>)>::empty(), p);
    lemma_ms_empty();
}

/// Views commute with appending one pair.
proof fn lemma_pairs_view_push(s: Seq<(String, String)>, p: (String, String))
    ensures
        pairs_view(s.push(p)) == pairs_view(s).push((p.0@, p.1@)),
{
    assert(pairs_view(s.push(p)) =~= pairs_view(s).push((p.0@, p.1@)));
}

/// Views commute with appending one component.
proof fn lemma_comps_view_push(s: Seq<String>, x: String)
    ensures
        comps_view(s.push(x)) == comps_view(s).push(x@),
{
    assert(comps_view(s.push(x)) =~= comps_view(s).push(x@));
}

/// Whether a listed directory directly contains a regular file `mod.rs`.
fn dir_has_marker(es: &Vec<Entry>) -> (r: bool)
    ensures
        r == has_marker(es@),
{
    let mut i: usize = 0;
    while i < es.len()
        invariant
            0 <= i <= es@.len(),
            forall|j: int|
                0 <= j < i ==> !(#[trigger] es@[j].name@ == "mod.rs"@ && es@[j].node is File),
        decreases es@.len() - i,
    {
        let is_file = match &es[i].node {
            FsNode::File => true,
            _ => false,
        };
        if is_file && str_eq(es[i].name.as_str(), "mod.rs") {
            return true;
        }
        i = i + 1;
    }
    false
}

/// Walks the listed entries, appending every module reference below them to
/// `out`, and stops at the first unreadable directory the walk reads.
fn walk(
    root: &str,
    prefix: &mut Vec<String>,
    entries: Vec<Entry>,
    out: &mut Vec<(String, String)>,
) -> (r: Result<(), Error>)
    ensures
        final(prefix)@ == old(prefix)@,
        match r {
            Ok(_) => entries_readable(entries@) && pairs_view(final(out)@).to_multiset()
                == pairs_view(old(out)@).to_multiset().add(
                walk_entries(root@, comps_view(old(prefix)@), entries@).to_multiset(),
            ),
            Err(Error::Io(err)) => !entries_readable(entries@) && entries_hold_error(
                entries@,
                err,
            ),
            Err(Error::Empty) => false,
        },
    decreases entries_height(entries@),
{
    let ghost es0 = entries@;
    let ghost out0 = out@;
    let ghost prefix0 = prefix@;
    let ghost pv = comps_view(prefix0);
    let mut stack = entries;
    proof {
        assert(stack@ =~= es0.subrange(0, es0.len() as int));
        assert(es0.subrange(es0.len() as int, es0.len() as int) =~= Seq::<Entry>::empty());
        lemma_ms_empty();
        broadcast use vstd::multiset::group_multiset_axioms;

        assert(pairs_view(out@).to_multiset() =~= pairs_view(out0).to_multiset().add(
            walk_entries(root@, pv, es0.subrange(stack@.len() as int, es0.len() as int))
                .to_multiset(),
        ));
    }
    while stack.len() > 0
        invariant
            es0 == entries@,
            stack@ == es0.subrange(0, stack@.len() as int),
            stack@.len() <= es0.len(),
            prefix@ == old(prefix)@,
            pv == comps_view(old(prefix)@),
            pairs_view(out@).to_multiset() == pairs_view(out0).to_multiset().add(
                walk_entries(root@, pv, es0.subrange(stack@.len() as int, es0.len() as int))
                    .to_multiset(),
            ),
            entries_readable(es0.subrange(stack@.len() as int, es0.len() as int)),
        decreases stack@.len(),
    {
        let ghost old_stack = stack@;
        let popped = stack.pop();
        let e = match popped {
            Some(e) => e,
            None => {
                proof {
                    assert(false);
                }
                return Ok(());
            },
        };
        let ghost k: int = stack@.len() as int;
        proof {
            assert(e == old_stack.last());
            assert(old_stack.last() == es0[k]);
            assert(stack@ =~= es0.subrange(0, k));
            lemma_suffix_unfold(root@, pv, es0, k);
            lemma_ms_split(
                walk_one(root@, pv, es0[k]),
                walk_entries(root@, pv, es0.subrange(k + 1, es0.len() as int)),
            );
            broadcast use vstd::multiset::group_multiset_axioms;
        }
        let ghost out_before = out@;
        let Entry { name, node } = e;
        proof {
            assert(es0[k].name == name);
            assert(es0[k].node == node);
        }
        match node {
            FsNode::File => {
                if !is_reserved_exec(name.as_str()) && has_rs_ext_exec(name.as_str()) {
                    let p = make_path(root, prefix, name.as_str());
                    let id = make_ident(prefix, name.as_str());
                    out.push((p, id));
                    proof {
                        broadcast use vstd::multiset::group_multiset_axioms;

                        let pair = (
                            path_of(root@, pv.push(name@)),
                            ident_of(pv, name@),
                        );
                        assert(walk_one(root@, pv, es0[k]) =~= seq![pair]);
                        lemma_ms_singleton(pair);
                        lemma_pairs_view_push(out_before, (p, id));
                        vstd::seq_lib::to_multiset_build(pairs_view(out_before), pair);
                        assert(pairs_view(out@).to_multiset() =~= pairs_view(out0)
                            .to_multiset().add(
                            walk_entries(root@, pv, es0.subrange(k, es0.len() as int))
                                .to_multiset(),
                        ));
                    }
                } else {
                    proof {
                        broadcast use vstd::multiset::group_multiset_axioms;

                        assert(walk_one(root@, pv, es0[k]) =~= Seq::<
                            (Seq<char>, Seq<char>),
                        >::empty());
                        lemma_ms_empty();
                        assert(pairs_view(out@).to_multiset() =~= pairs_view(out0)
                            .to_multiset().add(
                            walk_entries(root@, pv, es0.subrange(k, es0.len() as int))
                                .to_multiset(),
                        ));
                    }
                }
            },
            FsNode::Dir(sub) => {
                let marked = dir_has_marker(&sub);
                if marked {
                    let mut p = make_path(root, prefix, name.as_str());
                    p.append("/");
                    p.append("mod.rs");
                    let id = make_ident(prefix, name.as_str());
                    out.push((p, id));
                    proof {
                        broadcast use vstd::multiset::group_multiset_axioms;

                        let pair = (
                            path_of(root@, pv.push(name@).push("mod.rs"@)),
                            ident_of(pv, name@),
                        );
                        assert(pv.push(name@).push("mod.rs"@).drop_last() =~= pv.push(name@));
                        assert(p@ == path_of(root@, pv.push(name@).push("mod.rs"@)));
                        assert(walk_one(root@, pv, es0[k]) =~= seq![pair]);
                        lemma_ms_singleton(pair);
                        lemma_pairs_view_push(out_before, (p, id));
                        vstd::seq_lib::to_multiset_build(pairs_view(out_before), pair);
                        assert(pairs_view(out@).to_multiset() =~= pairs_view(out0)
                            .to_multiset().add(
                            walk_entries(root@, pv, es0.subrange(k, es0.len() as int))
                                .to_multiset(),
                        ));
                    }
                } else {
                    proof {
                        lemma_entries_height_bound(es0, k);
                    }
                    let ghost sub0 = sub@;
                    prefix.push(name);
                    proof {
                        lemma_comps_view_push(old(prefix)@, es0[k].name);
                        assert(comps_view(prefix@) == pv.push(es0[k].name@));
                    }
                    let rr = walk(root, prefix, sub, out);
                    prefix.pop();
                    proof {
                        assert(old(prefix)@.push(es0[k].name).drop_last() =~= old(prefix)@);
                    }
                    match rr {
                        Err(er) => {
                            proof {
                                assert(!node_readable(es0[k].node));
                                lemma_not_readable_at(es0, k);
                                if er is Io {
                                    let err = er->Io_0;
                                    assert(node_holds_error(es0[k].node, err));
                                    lemma_error_at(es0, k, err);
                                }
                            }
                            return Err(er);
                        },
                        Ok(_) => {
                            proof {
                                broadcast use vstd::multiset::group_multiset_axioms;

                                assert(walk_one(root@, pv, es0[k]) == walk_entries(
                                    root@,
                                    pv.push(name@),
                                    sub0,
                                ));
                                assert(pairs_view(out@).to_multiset() =~= pairs_view(out0)
                                    .to_multiset().add(
                                    walk_entries(root@, pv, es0.subrange(k, es0.len() as int))
                                        .to_multiset(),
                                ));
                            }
                        },
                    }
                }
            },
            FsNode::Unreadable(ioe) => {
                proof {
                    assert(!node_readable(es0[k].node));
                    assert(node_holds_error(es0[k].node, ioe));
                    lemma_not_readable_at(es0, k);
                    lemma_error_at(es0, k, ioe);
                }
                return Err(Error::Io(ioe));
            },
            FsNode::Other => {
                proof {
                    broadcast use vstd::multiset::group_multiset_axioms;

                    assert(walk_one(root@, pv, es0[k]) =~= Seq::<(Seq<char>, Seq<char>)>::empty());
                    lemma_ms_empty();
                    assert(pairs_view(out@).to_multiset() =~= pairs_view(out0).to_multiset().add(
                        walk_entries(root@, pv, es0.subrange(k, es0.len() as int)).to_multiset(),
                    ));
                }
            },
        }
    }
    proof {
        assert(es0.subrange(0, es0.len() as int) =~= es0);
    }
    Ok(())
}

/// Scans a listed directory tree rooted at the path `root`.
///
/// On a fully readable tree with at least one module below it, returns every
/// module reference, sorted lexicographically by the (path, identifier) pair.
/// On a readable tree with none, fails with `Error::Empty`. On a tree whose
/// walk reads an unreadable directory, fails with `Error::Io` carrying the
/// failure of such a directory verbatim.
pub fn source_files(root: &str, entries: Vec<Entry>) -> (r: Result<Vec<(String, String)>, Error>)
    ensures
        match r {
            Ok(refs) => entries_readable(entries@) && refs@.len() > 0 && pairs_view(refs@)
                == scan_refs(root@, entries@),
            Err(Error::Empty) => entries_readable(entries@) && scan_refs(root@, entries@).len()
                == 0,
            Err(Error::Io(err)) => !entries_readable(entries@) && entries_hold_error(
                entries@,
                err,
            ),
        },
{
    let mut prefix: Vec<String> = Vec::new();
    let mut collected: Vec<(String, String)> = Vec::new();
    let rr = walk(root, &mut prefix, entries, &mut collected);
    let ghost walked = walk_entries(root@, Seq::empty(), entries@);
    proof {
        assert(comps_view(Seq::<String>::empty()) =~= Seq::<Seq<char>>::empty());
    }
    match rr {
        Err(er) => Err(er),
        Ok(_) => {
            proof {
                broadcast use vstd::multiset::group_multiset_axioms;

                lemma_ms_empty();
                assert(pairs_view(Seq::<(String, String)>::empty()) =~= Seq::<
                    (Seq<char>, Seq<char>),
                >::empty());
                assert(pairs_view(collected@).to_multiset() =~= walked.to_multiset());
                vstd::seq_lib::to_multiset_len(pairs_view(collected@));
                vstd::seq_lib::to_multiset_len(walked);
                lemma_pair_le_total_ordering();
                walked.lemma_sort_by_ensures(pair_le_ff());
                vstd::seq_lib::to_multiset_len(walked.sort_by(pair_le_ff()));
            }
            if collected.len() == 0 {
                Err(Error::Empty)
            } else {
                let sorted = sort_pairs(collected);
                proof {
                    vstd::seq_lib::to_multiset_len(pairs_view(sorted@));
                    vstd::seq_lib::lemma_sorted_unique(
                        pairs_view(sorted@),
                        walked.sort_by(pair_le_ff()),
                        pair_le_ff(),
                    );
                }
                Ok(sorted)
            }
        },
    }
}

/// How many entries of a listing are files that are emitted: regular files
/// with the source extension whose name is not reserved.
pub open spec fn qualifying_count(es: Seq<Entry>) -> nat
    decreases es.len(),
{
    if es.len() == 0 {
        0
    } else {
        (if es[0].node is File && qualifies(es[0].name@) {
            1nat
        } else {
            0nat
        }) + qualifying_count(es.drop_first())
    }
}

/// Each qualifying file in a list of regular files contributes one reference.
proof fn lemma_walk_flat_len(root: Seq<char>, prefix: Seq<Seq<char>>, es: Seq<Entry>)
    requires
        forall|i: int| 0 <= i < es.len() ==> (#[trigger] es[i].node) is File,
    ensures
        walk_entries(root, prefix, es).len() == qualifying_count(es),
        entries_readable(es),
    decreases es.len(),
{
    if es.len() > 0 {
        assert(es[0].node is File);
        if qualifies(es[0].name@) {
            assert(walk_one(root, prefix, es[0]).len() == 1);
        } else {
            assert(walk_one(root, prefix, es[0]) =~= Seq::<(Seq<char>, Seq<char>)>::empty());
        }
        assert(forall|i: int|
            0 <= i < es.drop_first().len() ==> #[trigger] es.drop_first()[i] == es[i + 1]);
        lemma_walk_flat_len(root, prefix, es.drop_first());
        assert(node_readable(es[0].node));
        assert(entries_readable(es) == (node_readable(es[0].node) && entries_readable(
            es.drop_first(),
        )));
    }
}

/// A directory holding only regular files scans to exactly one reference per
/// file with the source extension and an unreserved name, and the scan reads
/// the directory in full.
pub proof fn lemma_flat_dir_count(root: Seq<char>, es: Seq<Entry>)
    requires
        forall|i: int| 0 <= i < es.len() ==> (#[trigger] es[i].node) is File,
    ensures
        scan_refs(root, es).len() == qualifying_count(es),
        entries_readable(es),
{
    lemma_walk_flat_len(root, Seq::empty(), es);
    lemma_pair_le_total_ordering();
    let walked = walk_entries(root, Seq::empty(), es);
    walked.lemma_sort_by_ensures(pair_le_ff());
    vstd::seq_lib::to_multiset_len(walked);
    vstd::seq_lib::to_multiset_len(walked.sort_by(pair_le_ff()));
}

/// Scanning the same tree twice yields identical, identically ordered output:
/// what `source_files` returns on a readable tree is `scan_refs`, a function
/// of the root and the tree alone.
pub proof fn lemma_scan_deterministic(
    root: Seq<char>,
    es: Seq<Entry>,
    r1: Seq<(Seq<char>, Seq<char>)>,
    r2: Seq<(Seq<char>, Seq<char>)>,
)
    requires
        r1 == scan_refs(root, es),
        r2 == scan_refs(root, es),
    ensures
        r1 == r2,
{
}

/// A directory that directly holds the module-root marker is one reference,
/// backed by its marker file and named after the directory, whatever else the
/// directory holds; it is never recursed into.
pub proof fn lemma_marker_dir(root: Seq<char>, prefix: Seq<Seq<char>>, e: Entry, sub: Vec<Entry>)
    requires
        e.node == FsNode::Dir(sub),
        has_marker(sub@),
    ensures
        walk_one(root, prefix, e) == seq![
            (path_of(root, prefix.push(e.name@).push("mod.rs"@)), ident_of(prefix, e.name@)),
        ],
        walk_one(root, prefix, e).len() == 1,
{
}

/// A directory without the marker is recursed into: it contributes exactly
/// the references of its own entries, derived under the prefix extended with
/// the directory's name.
pub proof fn lemma_plain_dir(root: Seq<char>, prefix: Seq<Seq<char>>, e: Entry, sub: Vec<Entry>)
    requires
        e.node == FsNode::Dir(sub),
        !has_marker(sub@),
    ensures
        walk_one(root, prefix, e) == walk_entries(root, prefix.push(e.name@), sub@),
{
}

/// A file `child` below a directory `parent` is named `parent_child`: the
/// directory's name, an underscore, and the file's stem, with hyphens
/// rewritten throughout.
pub proof fn lemma_nested_ident(parent: Seq<char>, child: Seq<char>)
    ensures
        ident_of(seq![parent], child) == crate::ident::replace_hyphens(
            parent + "_"@ + stem_of(child),
        ),
{
    let comps = seq![parent].push(stem_of(child));
    assert(comps.len() == 2);
    assert(comps.drop_last() =~= seq![parent]);
    assert(comps.last() == stem_of(child));
    assert(join_under(comps) == join_under(seq![parent]) + "_"@ + stem_of(child));
    assert(join_under(seq![parent]) == parent);
    assert(join_under(comps) =~= parent + "_"@ + stem_of(child));
}

} // verus!
