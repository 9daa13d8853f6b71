//! The discovery side: which directory entries to descend into, which files
//! to publish, and the traversal of a modelled directory tree.
//!
//! The real traversal lists directories concurrently and in no fixed order;
//! its per-entry decision and its overall yield are captured here. A
//! directory tree is modelled by [`FsNode`], and [`walk_tree`] collects
//! exactly the paths of the files named `compile_commands.json` in it.

use vstd::prelude::*;

verus! {

/// The path separator byte, `/`.
pub const SEPARATOR: u8 = 47;

/// The file name that marks a fragment: `compile_commands.json`, as bytes.
pub open spec fn target_name() -> Seq<u8> {
    seq![
        99u8, 111u8, 109u8, 112u8, 105u8, 108u8, 101u8, 95u8, 99u8, 111u8, 109u8, 109u8, 97u8,
        110u8, 100u8, 115u8, 46u8, 106u8, 115u8, 111u8, 110u8,
    ]
}

/// Builds the fragment file name, `compile_commands.json`, as bytes.
pub fn target_name_bytes() -> (r: Vec<u8>)
    ensures
        r@ == target_name(),
{
    let mut r: Vec<u8> = Vec::new();
    r.push(99);
    r.push(111);
    r.push(109);
    r.push(112);
    r.push(105);
    r.push(108);
    r.push(101);
    r.push(95);
    r.push(99);
    r.push(111);
    r.push(109);
    r.push(109);
    r.push(97);
    r.push(110);
    r.push(100);
    r.push(115);
    r.push(46);
    r.push(106);
    r.push(115);
    r.push(111);
    r.push(110);
    proof {
        assert(r@ =~= target_name());
    }
    r
}

/// Whether `name` is exactly the fragment file name.
pub fn is_target_name(name: &Vec<u8>) -> (r: bool)
    ensures
        r == (name@ == target_name()),
{
    let expected = target_name_bytes();
    if name.len() != expected.len() {
        return false;
    }
    let mut k: usize = 0;
    while k < expected.len()
        invariant
            name@.len() == expected@.len(),
            expected@ == target_name(),
            0 <= k <= expected@.len(),
            forall|t: int| 0 <= t < k ==> name@[t] == target_name()[t],
        decreases expected@.len() - k,
    {
        if name[k] != expected[k] {
            return false;
        }
        k = k + 1;
    }
    proof {
        assert(name@ =~= target_name());
    }
    true
}

/// What the traversal does with one directory entry.
#[derive(Clone, Copy, Debug, PartialEq, Eq, Structural)]
pub enum EntryAction {
    /// The entry is a subdirectory: continue the search in it.
    Recurse,
    /// The entry is a fragment file: publish its path.
    Publish,
    /// Any other entry: leave it alone.
    Ignore,
}

/// The decision the traversal takes for an entry: subdirectories are entered,
/// files named exactly `compile_commands.json` are published, everything else
/// is ignored.
pub open spec fn spec_classify(is_dir: bool, name: Seq<u8>) -> EntryAction {
    if is_dir {
        EntryAction::Recurse
    } else if name == target_name() {
        EntryAction::Publish
    } else {
        EntryAction::Ignore
    }
}

/// Decides what to do with one directory entry, given whether it is a
/// directory and its bare file name.
pub fn classify_entry(is_dir: bool, name: &Vec<u8>) -> (r: EntryAction)
    ensures
        r == spec_classify(is_dir, name@),
{
    if is_dir {
        EntryAction::Recurse
    } else if is_target_name(name) {
        EntryAction::Publish
    } else {
        EntryAction::Ignore
    }
}

/// A modelled directory tree: a file or a directory with its entries.
pub enum FsNode {
    /// A non-directory entry with its bare name.
    File { name: Vec<u8> },
    /// A directory with its bare name and its immediate entries.
    Dir { name: Vec<u8>, entries: Vec<FsNode> },
}

/// The paths of all fragment files in `node`, each path the given prefix
/// followed by the names on the way down, directories suffixed by a
/// separator. A file contributes exactly one path, and only if its name is
/// exactly the fragment file name.
pub open spec fn matching_paths(node: FsNode, prefix: Seq<u8>) -> Seq<Seq<u8>>
    decreases node,
{
    match node {
        FsNode::File { name } => if name@ == target_name() {
            seq![prefix + name@]
        } else {
            Seq::empty()
        },
        FsNode::Dir { name, entries } => matching_paths_in(
            entries@,
            prefix + name@ + seq![SEPARATOR],
        ),
    }
}

/// The fragment paths found among a sequence of sibling entries, in order.
pub open spec fn matching_paths_in(entries: Seq<FsNode>, prefix: Seq<u8>) -> Seq<Seq<u8>>
    decreases entries,
{
    if entries.len() == 0 {
        Seq::empty()
    } else {
        matching_paths_in(entries.drop_last(), prefix) + matching_paths(entries.last(), prefix)
    }
}

/// Copies `a` followed by `b` into a fresh byte vector.
pub fn concat_bytes(a: &Vec<u8>, b: &Vec<u8>) -> (r: Vec<u8>)
    ensures
        r@ == a@ + b@,
{
    let mut r: Vec<u8> = Vec::new();
    let mut k: usize = 0;
    while k < a.len()
        invariant
            0 <= k <= a@.len(),
            r@ == a@.subrange(0, k as int),
        decreases a@.len() - k,
    {
        r.push(a[k]);
        k = k + 1;
    }
    let mut t: usize = 0;
    while t < b.len()
        invariant
            0 <= t <= b@.len(),
            r@ == a@.subrange(0, a@.len() as int) + b@.subrange(0, t as int),
        decreases b@.len() - t,
    {
        proof {
            assert(a@.subrange(0, a@.len() as int) =~= a@);
        }
        r.push(b[t]);
        proof {
            assert(a@ + b@.subrange(0, t + 1) =~= (a@ + b@.subrange(0, t as int)).push(
                b@[t as int],
            ));
        }
        t = t + 1;
    }
    proof {
        assert(a@.subrange(0, a@.len() as int) =~= a@);
        assert(b@.subrange(0, b@.len() as int) =~= b@);
    }
    r
}

/// Collects the paths of every fragment file in the modelled tree, depth
/// first, each path prefixed by `prefix`. The result is exactly
/// [`matching_paths`] of the tree: every fragment file is discovered exactly
/// once, and nothing else is.
#[verifier::loop_isolation(false)]
pub fn walk_tree(node: &FsNode, prefix: &Vec<u8>) -> (r: Vec<Vec<u8>>)
    ensures
        r.deep_view() == matching_paths(*node, prefix@),
    decreases *node,
{
    match node {
        FsNode::File { name } => {
            let mut r: Vec<Vec<u8>> = Vec::new();
            if is_target_name(name) {
                let path = concat_bytes(prefix, name);
                proof {
                    assert(path.deep_view() =~= path@);
                }
                r.push(path);
            }
            proof {
                assert(r.deep_view() =~= matching_paths(*node, prefix@));
            }
            r
        },
        FsNode::Dir { name, entries } => {
            let mut child_prefix = concat_bytes(prefix, name);
            child_prefix.push(SEPARATOR);
            proof {
                assert(child_prefix@ =~= prefix@ + name@ + seq![SEPARATOR]);
            }
            let mut r: Vec<Vec<u8>> = Vec::new();
            let mut i: usize = 0;
            proof {
                assert(r.deep_view() =~= matching_paths_in(
                    entries@.subrange(0, 0),
                    child_prefix@,
                ));
            }
            while i < entries.len()
                invariant
                    0 <= i <= entries@.len(),
                    child_prefix@ == prefix@ + name@ + seq![SEPARATOR],
                    r.deep_view() == matching_paths_in(
                        entries@.subrange(0, i as int),
                        child_prefix@,
                    ),
                decreases entries@.len() - i,
            {
                proof {
                    assert(decreases_to!(*node => entries@[i as int]));
                }
                let mut sub = walk_tree(&entries[i], &child_prefix);
                let ghost r_old = r.deep_view();
                let ghost sub_view = sub.deep_view();
                r.append(&mut sub);
                proof {
                    assert(r.deep_view() =~= r_old + sub_view);
                    assert(entries@.subrange(0, i + 1) =~= entries@.subrange(0, i as int).push(
                        entries@[i as int],
                    ));
                    assert(entries@.subrange(0, i + 1).drop_last() =~= entries@.subrange(
                        0,
                        i as int,
                    ));
                }
                i = i + 1;
            }
            proof {
                assert(entries@.subrange(0, entries@.len() as int) =~= entries@);
            }
            r
        },
    }
}

/// `p` is the path of a fragment file in `node`: a file contributes the
/// prefix followed by its name when that name is exactly the fragment file
/// name, and a directory contributes whatever its entries contribute under
/// the extended prefix.
pub open spec fn is_fragment_path(node: FsNode, prefix: Seq<u8>, p: Seq<u8>) -> bool
    decreases node,
{
    match node {
        FsNode::File { name } => name@ == target_name() && p == prefix + name@,
        FsNode::Dir { name, entries } => is_fragment_path_in(
            entries@,
            prefix + name@ + seq![SEPARATOR],
            p,
        ),
    }
}

/// `p` is the path of a fragment file in one of the sibling entries.
pub open spec fn is_fragment_path_in(entries: Seq<FsNode>, prefix: Seq<u8>, p: Seq<u8>) -> bool
    decreases entries,
{
    if entries.len() == 0 {
        false
    } else {
        is_fragment_path_in(entries.drop_last(), prefix, p) || is_fragment_path(
            entries.last(),
            prefix,
            p,
        )
    }
}

/// A path is a fragment path of some sibling entry exactly when one entry
/// holds it.
pub proof fn lemma_fragment_path_in_some_entry(entries: Seq<FsNode>, prefix: Seq<u8>, p: Seq<u8>)
    ensures
        is_fragment_path_in(entries, prefix, p) <==> exists|i: int|
            0 <= i < entries.len() && #[trigger] is_fragment_path(entries[i], prefix, p),
    decreases entries,
{
    if entries.len() > 0 {
        lemma_fragment_path_in_some_entry(entries.drop_last(), prefix, p);
        if is_fragment_path_in(entries, prefix, p) {
            if is_fragment_path_in(entries.drop_last(), prefix, p) {
                let i = choose|i: int|
                    0 <= i < entries.drop_last().len() && #[trigger] is_fragment_path(
                        entries.drop_last()[i],
                        prefix,
                        p,
                    );
                assert(is_fragment_path(entries[i], prefix, p));
            } else {
                assert(is_fragment_path(entries[entries.len() - 1], prefix, p));
            }
        }
        if exists|i: int| 0 <= i < entries.len() && #[trigger] is_fragment_path(
            entries[i],
            prefix,
            p,
        ) {
            let i = choose|i: int|
                0 <= i < entries.len() && #[trigger] is_fragment_path(entries[i], prefix, p);
            if i < entries.len() - 1 {
                assert(entries.drop_last()[i] == entries[i]);
            } else {
                assert(entries.last() == entries[i]);
            }
        }
    }
}

/// The discovered paths are exactly the fragment paths: a path stands in
/// [`matching_paths`] if and only if it leads to a file named exactly
/// `compile_commands.json` in the tree.
pub proof fn lemma_matching_paths_exact(node: FsNode, prefix: Seq<u8>, p: Seq<u8>)
    ensures
        matching_paths(node, prefix).contains(p) <==> is_fragment_path(node, prefix, p),
    decreases node,
{
    match node {
        FsNode::File { name } => {
            if name@ == target_name() {
                let s = matching_paths(node, prefix);
                assert(s[0] == prefix + name@);
                if s.contains(p) {
                    let i = choose|i: int| 0 <= i < s.len() && s[i] == p;
                    assert(i == 0);
                }
                if p == prefix + name@ {
                    assert(s[0] == p);
                    assert(s.contains(p));
                }
            } else {
                assert(matching_paths(node, prefix).len() == 0);
            }
        },
        FsNode::Dir { name, entries } => {
            lemma_matching_paths_in_exact(entries@, prefix + name@ + seq![SEPARATOR], p);
        },
    }
}

/// The paths found among sibling entries are exactly the fragment paths of
/// those entries.
proof fn lemma_matching_paths_in_exact(entries: Seq<FsNode>, prefix: Seq<u8>, p: Seq<u8>)
    ensures
        matching_paths_in(entries, prefix).contains(p) <==> is_fragment_path_in(
            entries,
            prefix,
            p,
        ),
    decreases entries,
{
    broadcast use vstd::seq_lib::lemma_seq_concat_contains_all_elements;

    if entries.len() == 0 {
    } else {
        lemma_matching_paths_in_exact(entries.drop_last(), prefix, p);
        lemma_matching_paths_exact(entries.last(), prefix, p);
    }
}

} // verus!
