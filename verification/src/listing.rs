//! What the tree that is built from the staged files lists: the staged
//! files, each one, and nothing else.

use crate::path::{plain, PathView};
use crate::store::Fatal;
use crate::tree::{
    flatten, holds_trees, level_entries, opens_dir, prefixed, read_tree, seen_dir, tree_hash,
    under, EntryKind, TrackedView, TreeBlobView, TreeEntryView,
};
use vstd::prelude::*;

verus! {

/// A staged file as the tree of a directory `depth` segments deep lists it:
/// with its path from that directory.
pub open spec fn item_file(item: TrackedView, depth: int) -> TreeBlobView {
    TreeBlobView {
        path: PathView { absolute: false, parts: item.parts.skip(depth) },
        hash: item.hash,
    }
}

/// The files under the directory `root`, as the first `n` items give them:
/// each file directly in `root` where it stands, and all files of a
/// sub-directory where the first file in it stands.
pub open spec fn level_files(items: Seq<TrackedView>, n: nat, root: Seq<Seq<char>>, depth: nat)
    -> Seq<TreeBlobView>
    decreases depth, n,
{
    if n == 0 {
        Seq::empty()
    } else {
        let before = level_files(items, (n - 1) as nat, root, depth);
        let item = items[n - 1];
        if !under(item, root) {
            before
        } else if item.parts.len() == root.len() + 1 {
            before.push(item_file(item, root.len() as int))
        } else if seen_dir(items, n - 1, root, item.parts[root.len() as int]) || depth == 0 {
            before
        } else {
            before + prefixed(
                item.parts[root.len() as int],
                level_files(
                    items,
                    items.len(),
                    root.push(item.parts[root.len() as int]),
                    (depth - 1) as nat,
                ),
            )
        }
    }
}

/// Every staged path is spelled without `..` and `.`.
pub open spec fn all_plain(items: Seq<TrackedView>) -> bool {
    forall|i: int| 0 <= i < items.len() ==> plain(#[trigger] items[i].parts)
}

/// No staged path is more than `depth` segments longer than `root`.
pub open spec fn fits(items: Seq<TrackedView>, root: Seq<Seq<char>>, depth: nat) -> bool {
    forall|i: int| 0 <= i < items.len() ==> (#[trigger] items[i]).parts.len() <= root.len() + depth
}

/// An item lies under the sub-directory `seg` of `root` exactly if it lies
/// more than one segment under `root` and its next segment is `seg`.
proof fn lemma_under_sub(item: TrackedView, root: Seq<Seq<char>>, seg: Seq<char>)
    ensures
        under(item, root.push(seg)) <==> (under(item, root) && item.parts.len() > root.len() + 1
            && item.parts[root.len() as int] == seg),
{
    let sub = root.push(seg);
    if under(item, sub) {
        assert(item.parts.subrange(0, sub.len() as int) == sub);
        assert(item.parts[root.len() as int] == sub[root.len() as int]);
        assert(item.parts.subrange(0, root.len() as int) =~= root) by {
            assert forall|k: int| 0 <= k < root.len() implies item.parts[k] == root[k] by {
                assert(item.parts.subrange(0, sub.len() as int)[k] == sub[k]);
            }
        }
    }
    if under(item, root) && item.parts.len() > root.len() + 1 && item.parts[root.len() as int]
        == seg {
        assert(item.parts.subrange(0, root.len() as int) == root);
        assert(item.parts.subrange(0, sub.len() as int) =~= sub) by {
            assert forall|k: int| 0 <= k < sub.len() implies item.parts.subrange(
                0,
                sub.len() as int,
            )[k] == sub[k] by {
                if k < root.len() {
                    assert(item.parts.subrange(0, root.len() as int)[k] == root[k]);
                }
            }
        }
    }
}

/// Flattening the tree of `root` gives the files under `root`.
pub proof fn lemma_flatten_level(
    store: Map<Seq<char>, Seq<char>>,
    items: Seq<TrackedView>,
    n: nat,
    root: Seq<Seq<char>>,
    depth: nat,
    fuel: nat,
)
    requires
        holds_trees(store, items, root, depth),
        all_plain(items),
        n <= items.len(),
        depth <= fuel,
    ensures
        flatten(store, level_entries(items, n, root, depth), fuel) == Ok::<
            Seq<TreeBlobView>,
            Fatal,
        >(level_files(items, n, root, depth)),
    decreases depth, n,
{
    if n > 0 {
        lemma_flatten_level(store, items, (n - 1) as nat, root, depth, fuel);
        let entries = level_entries(items, (n - 1) as nat, root, depth);
        let files = level_files(items, (n - 1) as nat, root, depth);
        let item = items[n - 1];
        if !under(item, root) {
        } else {
            let seg = item.parts[root.len() as int];
            assert(plain(item.parts));
            assert(seg != ".."@ && seg != "."@);
            if item.parts.len() == root.len() + 1 {
                let entry = TreeEntryView {
                    kind: EntryKind::Blob,
                    mode: item.mode,
                    object_hash: item.hash,
                    name: seg,
                };
                assert(entries.push(entry).drop_last() =~= entries);
                assert(item.parts.skip(root.len() as int) =~= seq![seg]);
            } else if seen_dir(items, n - 1, root, seg) || depth == 0 {
            } else {
                let sub = root.push(seg);
                let sub_entries = level_entries(items, items.len(), sub, (depth - 1) as nat);
                let entry = TreeEntryView {
                    kind: EntryKind::Tree,
                    mode: crate::tree::dir_mode(),
                    object_hash: tree_hash(sub_entries),
                    name: seg,
                };
                assert(entries.push(entry).drop_last() =~= entries);
                assert(opens_dir(items, n - 1, root, seg));
                assert(seen_dir(items, items.len() as int, root, seg));
                assert(holds_trees(store, items, sub, (depth - 1) as nat));
                assert(read_tree(store, tree_hash(sub_entries)) == Ok::<
                    Seq<TreeEntryView>,
                    Fatal,
                >(sub_entries));
                lemma_flatten_level(
                    store,
                    items,
                    items.len(),
                    sub,
                    (depth - 1) as nat,
                    (fuel - 1) as nat,
                );
            }
        }
    }
}

/// Everything that is listed under `root` is a staged file under `root`.
pub proof fn lemma_level_files_are_staged(
    items: Seq<TrackedView>,
    n: nat,
    root: Seq<Seq<char>>,
    depth: nat,
    k: int,
) -> (i: int)
    requires
        n <= items.len(),
        0 <= k < level_files(items, n, root, depth).len(),
    ensures
        0 <= i < items.len(),
        under(items[i], root),
        level_files(items, n, root, depth)[k] == item_file(items[i], root.len() as int),
    decreases depth, n,
{
    let before = level_files(items, (n - 1) as nat, root, depth);
    let item = items[n - 1];
    if k < before.len() {
        lemma_level_files_are_staged(items, (n - 1) as nat, root, depth, k)
    } else if item.parts.len() == root.len() + 1 {
        n - 1
    } else {
        let seg = item.parts[root.len() as int];
        let sub = root.push(seg);
        let below = level_files(items, items.len(), sub, (depth - 1) as nat);
        let at = k - before.len();
        assert(level_files(items, n, root, depth)[k] == prefixed(seg, below)[at]);
        let i = lemma_level_files_are_staged(
            items,
            items.len(),
            sub,
            (depth - 1) as nat,
            at,
        );
        lemma_under_sub(items[i], root, seg);
        assert(seq![seg] + items[i].parts.skip(sub.len() as int) =~= items[i].parts.skip(
            root.len() as int,
        ));
        i
    }
}

/// What is listed for a part of the items stays listed for more of them.
proof fn lemma_level_files_grow(
    items: Seq<TrackedView>,
    m: nat,
    n: nat,
    root: Seq<Seq<char>>,
    depth: nat,
    k: int,
)
    requires
        m <= n <= items.len(),
        0 <= k < level_files(items, m, root, depth).len(),
    ensures
        k < level_files(items, n, root, depth).len(),
        level_files(items, n, root, depth)[k] == level_files(items, m, root, depth)[k],
    decreases n - m,
{
    if m < n {
        lemma_level_files_grow(items, m, (n - 1) as nat, root, depth, k);
    }
}

/// A staged file under `root` is listed once the items up to its own place
/// (for a file directly in `root`) or up to the first file of its
/// sub-directory were looked at.
pub proof fn lemma_staged_files_are_listed(
    items: Seq<TrackedView>,
    n: nat,
    root: Seq<Seq<char>>,
    depth: nat,
    i: int,
) -> (k: int)
    requires
        n <= items.len(),
        fits(items, root, depth),
        0 <= i < items.len(),
        under(items[i], root),
        items[i].parts.len() == root.len() + 1 ==> i < n,
        items[i].parts.len() > root.len() + 1 ==> seen_dir(
            items,
            n as int,
            root,
            items[i].parts[root.len() as int],
        ),
    ensures
        0 <= k < level_files(items, n, root, depth).len(),
        level_files(items, n, root, depth)[k] == item_file(items[i], root.len() as int),
    decreases depth, n,
{
    let direct = items[i].parts.len() == root.len() + 1;
    let seg = items[i].parts[root.len() as int];
    if n == 0 {
        if !direct {
            let j = choose|j: int| 0 <= j < 0 && #[trigger] opens_dir(items, j, root, seg);
        }
        0
    } else {
        let before = level_files(items, (n - 1) as nat, root, depth);
        let item = items[n - 1];
        let earlier = if direct {
            i < n - 1
        } else {
            seen_dir(items, n - 1, root, seg)
        };
        if earlier {
            let k = lemma_staged_files_are_listed(items, (n - 1) as nat, root, depth, i);
            lemma_level_files_grow(items, (n - 1) as nat, n, root, depth, k);
            k
        } else if direct {
            assert(i == n - 1);
            before.len() as int
        } else {
            // The sub-directory is first met at this place.
            let j = choose|j: int| 0 <= j < n && #[trigger] opens_dir(items, j, root, seg);
            if j < n - 1 {
                assert(seen_dir(items, n - 1, root, seg));
            }
            assert(opens_dir(items, n - 1, root, seg));
            assert(item.parts.len() <= root.len() + depth);
            let sub = root.push(seg);
            let below = level_files(items, items.len(), sub, (depth - 1) as nat);
            lemma_under_sub(items[i], root, seg);
            assert(fits(items, sub, (depth - 1) as nat));
            if items[i].parts.len() > sub.len() + 1 {
                assert(opens_dir(items, i, sub, items[i].parts[sub.len() as int]));
            }
            let at = lemma_staged_files_are_listed(
                items,
                items.len(),
                sub,
                (depth - 1) as nat,
                i,
            );
            assert(prefixed(seg, below)[at].path.parts =~= items[i].parts.skip(root.len() as int)) by {
                assert(seq![seg] + items[i].parts.skip(sub.len() as int) =~= items[i].parts.skip(
                    root.len() as int,
                ));
            }
            before.len() + at
        }
    }
}

/// How many of the first `m` numbers have the property.
pub open spec fn count(m: nat, has: spec_fn(int) -> bool) -> nat
    decreases m,
{
    if m == 0 {
        0
    } else {
        count((m - 1) as nat, has) + if has(m - 1) {
            1nat
        } else {
            0nat
        }
    }
}

/// Properties that agree on the first `m` numbers count the same.
proof fn lemma_count_same(m: nat, a: spec_fn(int) -> bool, b: spec_fn(int) -> bool)
    requires
        forall|i: int| 0 <= i < m ==> #[trigger] a(i) == b(i),
    ensures
        count(m, a) == count(m, b),
    decreases m,
{
    if m > 0 {
        lemma_count_same((m - 1) as nat, a, b);
    }
}

/// Where the numbers with the property `whole` are those with `a` and those
/// with `b`, and none has both, the counts add up.
proof fn lemma_count_split(
    m: nat,
    whole: spec_fn(int) -> bool,
    a: spec_fn(int) -> bool,
    b: spec_fn(int) -> bool,
)
    requires
        forall|i: int| 0 <= i < m ==> #[trigger] whole(i) == (a(i) || b(i)),
        forall|i: int| 0 <= i < m ==> !(#[trigger] a(i) && b(i)),
    ensures
        count(m, whole) == count(m, a) + count(m, b),
    decreases m,
{
    if m > 0 {
        lemma_count_split((m - 1) as nat, whole, a, b);
    }
}

/// One number among the first `m` counts one.
proof fn lemma_count_one(m: nat, at: int)
    requires
        0 <= at < m,
    ensures
        count(m, |i: int| i == at) == 1,
    decreases m,
{
    let only = |i: int| i == at;
    if at == m - 1 {
        lemma_count_same((m - 1) as nat, only, |i: int| false);
        lemma_count_none((m - 1) as nat);
    } else {
        lemma_count_one((m - 1) as nat, at);
    }
}

proof fn lemma_count_none(m: nat)
    ensures
        count(m, |i: int| false) == 0,
    decreases m,
{
    if m > 0 {
        lemma_count_none((m - 1) as nat);
    }
}

/// The item at place `i` is looked at when the first `n` items were: a file
/// directly in `root` when its own place is among them, a file further down
/// when the first file of its sub-directory is.
pub open spec fn in_view(items: Seq<TrackedView>, n: nat, root: Seq<Seq<char>>, i: int) -> bool {
    under(items[i], root) && if items[i].parts.len() == root.len() + 1 {
        i < n
    } else {
        seen_dir(items, n as int, root, items[i].parts[root.len() as int])
    }
}

/// As many files are listed under `root` for the first `n` items as items
/// are looked at.
proof fn lemma_level_files_len(items: Seq<TrackedView>, n: nat, root: Seq<Seq<char>>, depth: nat)
    requires
        n <= items.len(),
        fits(items, root, depth),
    ensures
        level_files(items, n, root, depth).len() == count(
            items.len(),
            |i: int| in_view(items, n, root, i),
        ),
    decreases depth, n,
{
    let all = items.len();
    let now = |i: int| in_view(items, n, root, i);
    if n == 0 {
        assert forall|i: int| 0 <= i < all implies #[trigger] now(i) == false by {
            if in_view(items, 0, root, i) {
                let seg = items[i].parts[root.len() as int];
                let j = choose|j: int| 0 <= j < 0 && #[trigger] opens_dir(items, j, root, seg);
            }
        }
        lemma_count_same(all, now, |i: int| false);
        lemma_count_none(all);
    } else {
        let before = |i: int| in_view(items, (n - 1) as nat, root, i);
        lemma_level_files_len(items, (n - 1) as nat, root, depth);
        let item = items[n - 1];
        let seg = item.parts[root.len() as int];
        assert forall|s: Seq<char>| #[trigger]
            seen_dir(items, n as int, root, s) == (seen_dir(items, n - 1, root, s) || opens_dir(
                items,
                n - 1,
                root,
                s,
            )) by {
            crate::tree::lemma_seen_step(items, n - 1, root, s);
        }
        if !under(item, root) {
            assert forall|i: int| 0 <= i < all implies #[trigger] now(i) == before(i) by {}
            lemma_count_same(all, now, before);
        } else if item.parts.len() == root.len() + 1 {
            let added = |i: int| i == n - 1;
            assert forall|i: int| 0 <= i < all implies #[trigger] now(i) == (before(i) || added(i)) by {}
            assert forall|i: int| 0 <= i < all implies !(#[trigger] before(i) && added(i)) by {}
            lemma_count_split(all, now, before, added);
            lemma_count_one(all, n - 1);
        } else if seen_dir(items, n - 1, root, seg) || depth == 0 {
            assert(item.parts.len() <= root.len() + depth);
            assert forall|i: int| 0 <= i < all implies #[trigger] now(i) == before(i) by {}
            lemma_count_same(all, now, before);
        } else {
            let sub = root.push(seg);
            let added = |i: int| under(items[i], sub);
            assert forall|i: int| 0 <= i < all implies #[trigger] now(i) == (before(i) || added(i)) by {
                lemma_under_sub(items[i], root, seg);
            }
            assert forall|i: int| 0 <= i < all implies !(#[trigger] before(i) && added(i)) by {
                lemma_under_sub(items[i], root, seg);
            }
            lemma_count_split(all, now, before, added);
            assert(fits(items, sub, (depth - 1) as nat));
            lemma_level_files_len(items, all, sub, (depth - 1) as nat);
            let below = |i: int| in_view(items, all, sub, i);
            assert forall|i: int| 0 <= i < all implies #[trigger] below(i) == added(i) by {
                if under(items[i], sub) && items[i].parts.len() > sub.len() + 1 {
                    assert(opens_dir(items, i, sub, items[i].parts[sub.len() as int]));
                }
            }
            lemma_count_same(all, below, added);
        }
    }
}

/// The tree lists as many files as are staged under its directory: with
/// every staged file listed and nothing else, each staged file is listed
/// once.
pub proof fn built_tree_lists_each_file_once(
    items: Seq<TrackedView>,
    root: Seq<Seq<char>>,
    depth: nat,
)
    requires
        fits(items, root, depth),
    ensures
        level_files(items, items.len(), root, depth).len() == count(
            items.len(),
            |i: int| under(items[i], root),
        ),
{
    let all = items.len();
    lemma_level_files_len(items, all, root, depth);
    let seen = |i: int| in_view(items, all, root, i);
    let staged = |i: int| under(items[i], root);
    assert forall|i: int| 0 <= i < all implies #[trigger] seen(i) == staged(i) by {
        if under(items[i], root) && items[i].parts.len() > root.len() + 1 {
            assert(opens_dir(items, i, root, items[i].parts[root.len() as int]));
        }
    }
    lemma_count_same(all, seen, staged);
}

/// The file is one of the staged files, with its path from the working
/// tree's root.
pub open spec fn is_staged(items: Seq<TrackedView>, file: TreeBlobView) -> bool {
    exists|i: int|
        0 <= i < items.len() && items[i].parts.len() > 0 && file == item_file(
            #[trigger] items[i],
            0,
        )
}

/// The files are the staged files: each of them is staged, and each staged
/// file is among them.
pub open spec fn lists_exactly(files: Seq<TreeBlobView>, items: Seq<TrackedView>) -> bool {
    &&& forall|k: int| 0 <= k < files.len() ==> is_staged(items, #[trigger] files[k])
    &&& forall|i: int|
        0 <= i < items.len() && items[i].parts.len() > 0 ==> files.contains(
            item_file(#[trigger] items[i], 0),
        )
}

/// The tree that is built from the staged files lists the staged files:
/// flattening it succeeds, every file it lists is a staged file, and every
/// staged file is listed. This holds where every staged path is spelled
/// without `..` and `.`, as the paths of files in the working tree are.
pub proof fn built_tree_lists_the_staged_files(
    store: Map<Seq<char>, Seq<char>>,
    items: Seq<TrackedView>,
    depth: nat,
    fuel: nat,
)
    requires
        holds_trees(store, items, Seq::empty(), depth),
        all_plain(items),
        fits(items, Seq::empty(), depth),
        depth <= fuel,
    ensures
        flatten(store, level_entries(items, items.len(), Seq::empty(), depth), fuel) == Ok::<
            Seq<TreeBlobView>,
            Fatal,
        >(level_files(items, items.len(), Seq::empty(), depth)),
        lists_exactly(level_files(items, items.len(), Seq::empty(), depth), items),
{
    let root = Seq::<Seq<char>>::empty();
    lemma_flatten_level(store, items, items.len(), root, depth, fuel);
    let files = level_files(items, items.len(), root, depth);
    assert forall|k: int| 0 <= k < files.len() implies is_staged(items, #[trigger] files[k]) by {
        let i = lemma_level_files_are_staged(items, items.len(), root, depth, k);
        assert(files[k] == item_file(items[i], 0));
    }
    assert forall|i: int| 0 <= i < items.len() && items[i].parts.len() > 0 implies files.contains(
        item_file(#[trigger] items[i], 0),
    ) by {
        assert(root.is_prefix_of(items[i].parts)) by {
            assert(items[i].parts.subrange(0, 0) =~= root);
        }
        if items[i].parts.len() > 1 {
            assert(opens_dir(items, i, root, items[i].parts[0]));
        }
        let k = lemma_staged_files_are_listed(items, items.len(), root, depth, i);
        assert(files[k] == item_file(items[i], 0));
    }
}

} // verus!
