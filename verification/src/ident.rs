//! Derivation of a module identifier and of a backing path from the
//! components of a path relative to the scan root.
//!
//! The identifier of an entry is its relative path with the extension of the
//! last component stripped, the components joined with underscores, and every
//! hyphen rewritten to an underscore. The backing path is the root joined
//! with the raw components by `/`.

use crate::order::str_eq;
use vstd::prelude::*;
use vstd::string::StrSliceExecFns;
use vstd::string::StringExecFns;

verus! {

/// Every hyphen rewritten to an underscore; every other character kept.
pub open spec fn replace_hyphens(s: Seq<char>) -> Seq<char> {
    Seq::new(s.len(), |i: int| if s[i] == '-' { '_' } else { s[i] })
}

/// Position of the last `.` in `s`, or `-1` if there is none.
pub open spec fn last_dot_pos(s: Seq<char>) -> int
    decreases s.len(),
{
    if s.len() == 0 {
        -1
    } else if s.last() == '.' {
        s.len() - 1
    } else {
        last_dot_pos(s.drop_last())
    }
}

/// A file name with its extension stripped: what stands before the last `.`,
/// except that a name whose only `.` leads (or that has none) is kept whole.
pub open spec fn stem_of(s: Seq<char>) -> Seq<char> {
    if last_dot_pos(s) <= 0 {
        s
    } else {
        s.subrange(0, last_dot_pos(s))
    }
}

/// Whether a file name carries the recognized source extension `rs`.
pub open spec fn has_rs_ext(s: Seq<char>) -> bool {
    &&& last_dot_pos(s) >= 1
    &&& s.subrange(last_dot_pos(s) + 1, s.len() as int) == "rs"@
}

/// The reserved names that stand for the enclosing scope itself: the
/// per-directory module-root marker and the two crate-root markers.
pub open spec fn is_reserved(name: Seq<char>) -> bool {
    ||| name == "mod.rs"@
    ||| name == "lib.rs"@
    ||| name == "main.rs"@
}

/// Whether a regular file is emitted as a module reference.
pub open spec fn qualifies(name: Seq<char>) -> bool {
    !is_reserved(name) && has_rs_ext(name)
}

/// Path components joined with underscores, without a leading separator.
pub open spec fn join_under(comps: Seq<Seq<char>>) -> Seq<char>
    decreases comps.len(),
{
    if comps.len() == 0 {
        Seq::empty()
    } else if comps.len() == 1 {
        comps[0]
    } else {
        join_under(comps.drop_last()) + "_"@ + comps.last()
    }
}

/// The identifier of the entry named `name` under the directory components
/// `prefix`: components joined with underscores, the last one stripped of its
/// extension, and hyphens rewritten.
pub open spec fn ident_of(prefix: Seq<Seq<char>>, name: Seq<char>) -> Seq<char> {
    replace_hyphens(join_under(prefix.push(stem_of(name))))
}

/// The path below `root` through the components `comps`, joined with `/`.
pub open spec fn path_of(root: Seq<char>, comps: Seq<Seq<char>>) -> Seq<char>
    decreases comps.len(),
{
    if comps.len() == 0 {
        root
    } else {
        path_of(root, comps.drop_last()) + "/"@ + comps.last()
    }
}

/// The views of a list of owned path components.
pub open spec fn comps_view(p: Seq<String>) -> Seq<Seq<char>> {
    p.map_values(|s: String| s@)
}

/// Identifier derivation rewrites exactly the hyphens: the result is as long
/// as the joined components, every hyphen of the joined components becomes an
/// underscore, and every other character is kept unchanged.
pub proof fn lemma_ident_hyphens(prefix: Seq<Seq<char>>, name: Seq<char>)
    ensures
        ident_of(prefix, name).len() == join_under(prefix.push(stem_of(name))).len(),
        forall|i: int|
            0 <= i < ident_of(prefix, name).len() ==> #[trigger] ident_of(prefix, name)[i] == (
            if join_under(prefix.push(stem_of(name)))[i] == '-' {
                '_'
            } else {
                join_under(prefix.push(stem_of(name)))[i]
            }),
{
}

/// Rewriting hyphens distributes over concatenation.
pub proof fn lemma_replace_hyphens_concat(a: Seq<char>, b: Seq<char>)
    ensures
        replace_hyphens(a + b) == replace_hyphens(a) + replace_hyphens(b),
{
    assert(replace_hyphens(a + b) =~= replace_hyphens(a) + replace_hyphens(b));
}

/// The underscore separator holds no hyphen, so rewriting keeps it.
proof fn lemma_replace_hyphens_under()
    ensures
        replace_hyphens("_"@) == "_"@,
{
    reveal_strlit("_");
    assert(replace_hyphens("_"@) =~= "_"@);
}

/// Components joined with trailing separators, one after every component.
pub open spec fn join_trail(comps: Seq<Seq<char>>) -> Seq<char>
    decreases comps.len(),
{
    if comps.len() == 0 {
        Seq::empty()
    } else {
        join_trail(comps.drop_last()) + comps.last() + "_"@
    }
}

/// Joining with separators in between is joining with trailing separators on
/// all but the last component.
proof fn lemma_join_under_push(comps: Seq<Seq<char>>, last: Seq<char>)
    ensures
        join_under(comps.push(last)) == join_trail(comps) + last,
    decreases comps.len(),
{
    if comps.len() == 0 {
        assert(comps.push(last).len() == 1);
        assert(comps.push(last)[0] == last);
        assert(join_under(comps.push(last)) =~= Seq::empty() + last);
        assert(join_trail(comps) + last =~= Seq::empty() + last);
    } else {
        let whole = comps.push(last);
        assert(whole.drop_last() =~= comps);
        assert(whole.last() == last);
        lemma_join_under_push(comps.drop_last(), comps.last());
        assert(comps.drop_last().push(comps.last()) =~= comps);
        assert(join_under(comps) == join_trail(comps.drop_last()) + comps.last());
        assert(join_under(whole) == join_under(comps) + "_"@ + last);
        assert(join_under(whole) =~= (join_trail(comps.drop_last()) + comps.last() + "_"@) + last);
    }
}

/// Appends `src` to `dst`, rewriting every hyphen to an underscore.
fn push_replacing(dst: &mut String, src: &str)
    ensures
        final(dst)@ == old(dst)@ + replace_hyphens(src@),
{
    let n = src.unicode_len();
    let mut i: usize = 0;
    while i < n
        invariant
            0 <= i <= n,
            n == src@.len(),
            dst@ == old(dst)@ + replace_hyphens(src@.subrange(0, i as int)),
        decreases n - i,
    {
        let c = src.get_char(i);
        if c == '-' {
            dst.append("_");
        } else {
            let piece = src.substring_char(i, i + 1);
            dst.append(piece);
        }
        proof {
            reveal_strlit("_");
            assert(replace_hyphens(src@.subrange(0, i + 1 as int)) =~= replace_hyphens(
                src@.subrange(0, i as int),
            ) + replace_hyphens(src@.subrange(i as int, i + 1 as int)));
            if src@[i as int] == '-' {
                assert(replace_hyphens(src@.subrange(i as int, i + 1 as int)) =~= "_"@);
            } else {
                assert(replace_hyphens(src@.subrange(i as int, i + 1 as int)) =~= src@.subrange(
                    i as int,
                    i + 1 as int,
                ));
            }
        }
        i = i + 1;
    }
    proof {
        assert(src@.subrange(0, n as int) =~= src@);
    }
}

/// Position of the last `.` of `s`, if any.
fn find_last_dot(s: &str) -> (r: Option<usize>)
    ensures
        match r {
            Some(i) => 0 <= i < s@.len() && last_dot_pos(s@) == i as int,
            None => last_dot_pos(s@) == -1,
        },
{
    let n = s.unicode_len();
    let mut j: usize = n;
    proof {
        assert(s@.subrange(0, n as int) =~= s@);
    }
    while j > 0
        invariant
            0 <= j <= n,
            n == s@.len(),
            last_dot_pos(s@) == last_dot_pos(s@.subrange(0, j as int)),
        decreases j,
    {
        let c = s.get_char(j - 1);
        proof {
            assert(s@.subrange(0, j as int).last() == s@[j - 1]);
        }
        if c == '.' {
            return Some(j - 1);
        }
        proof {
            assert(s@.subrange(0, j as int).drop_last() =~= s@.subrange(0, j - 1 as int));
        }
        j = j - 1;
    }
    None
}

/// The stem of a file name: the name with its extension stripped.
pub fn stem_exec(name: &str) -> (r: String)
    ensures
        r@ == stem_of(name@),
{
    match find_last_dot(name) {
        Some(i) => {
            if i == 0 {
                String::from_str(name)
            } else {
                String::from_str(name.substring_char(0, i))
            }
        },
        None => String::from_str(name),
    }
}

/// Whether a file name carries the `rs` extension.
pub fn has_rs_ext_exec(name: &str) -> (r: bool)
    ensures
        r == has_rs_ext(name@),
{
    match find_last_dot(name) {
        Some(i) => {
            if i == 0 {
                false
            } else {
                let n = name.unicode_len();
                str_eq(name.substring_char(i + 1, n), "rs")
            }
        },
        None => false,
    }
}

/// Whether a file name is one of the reserved marker names.
pub fn is_reserved_exec(name: &str) -> (r: bool)
    ensures
        r == is_reserved(name@),
{
    str_eq(name, "mod.rs") || str_eq(name, "lib.rs") || str_eq(name, "main.rs")
}

/// Builds the identifier of the entry named `name` under `prefix`.
pub fn make_ident(prefix: &Vec<String>, name: &str) -> (r: String)
    ensures
        r@ == ident_of(comps_view(prefix@), name@),
{
    let mut r = String::new();
    let mut i: usize = 0;
    while i < prefix.len()
        invariant
            0 <= i <= prefix@.len(),
            r@ == replace_hyphens(join_trail(comps_view(prefix@).subrange(0, i as int))),
        decreases prefix@.len() - i,
    {
        let ghost before = comps_view(prefix@).subrange(0, i as int);
        let ghost after = comps_view(prefix@).subrange(0, i + 1 as int);
        push_replacing(&mut r, prefix[i].as_str());
        r.append("_");
        proof {
            assert(after.drop_last() =~= before);
            assert(after.last() == prefix@[i as int]@);
            lemma_replace_hyphens_concat(join_trail(before), prefix@[i as int]@);
            lemma_replace_hyphens_concat(join_trail(before) + prefix@[i as int]@, "_"@);
            lemma_replace_hyphens_under();
            assert(r@ =~= replace_hyphens(join_trail(after)));
        }
        i = i + 1;
    }
    let stem = stem_exec(name);
    push_replacing(&mut r, stem.as_str());
    proof {
        let comps = comps_view(prefix@);
        assert(comps.subrange(0, comps.len() as int) =~= comps);
        lemma_join_under_push(comps, stem_of(name@));
        lemma_replace_hyphens_concat(join_trail(comps), stem_of(name@));
    }
    r
}

/// Builds the path of the entry named `last` under `root` and `prefix`.
pub fn make_path(root: &str, prefix: &Vec<String>, last: &str) -> (r: String)
    ensures
        r@ == path_of(root@, comps_view(prefix@).push(last@)),
{
    let mut r = String::from_str(root);
    let mut i: usize = 0;
    while i < prefix.len()
        invariant
            0 <= i <= prefix@.len(),
            r@ == path_of(root@, comps_view(prefix@).subrange(0, i as int)),
        decreases prefix@.len() - i,
    {
        let ghost before = comps_view(prefix@).subrange(0, i as int);
        let ghost after = comps_view(prefix@).subrange(0, i + 1 as int);
        r.append("/");
        r.append(prefix[i].as_str());
        proof {
            assert(after.drop_last() =~= before);
            assert(after.last() == prefix@[i as int]@);
        }
        i = i + 1;
    }
    r.append("/");
    r.append(last);
    proof {
        let comps = comps_view(prefix@);
        assert(comps.subrange(0, comps.len() as int) =~= comps);
        assert(comps.push(last@).drop_last() =~= comps);
    }
    r
}

} // verus!
