//! The file tree of a torrent: files are grouped by the components of their
//! slash-separated paths into folders, each folder carrying the total size and
//! the total downloaded bytes of the files below it.
use vstd::prelude::*;
use crate::text::{chars_of, push_char, push_str, text_less, text_lt, lemma_text_lt_transitive, lemma_text_lt_irreflexive,
    lemma_text_lt_total, split_chars, split_text, strings_view, lemma_split_text_nonempty,
    lemma_split_text_join, lemma_split_text_pieces, lemma_split_text_whole};
use crate::rpc::File;

verus! {

/// A file or folder of a torrent.
pub struct Node {
    /// The last component of the path.
    pub name: String,
    /// The slash-separated path from the torrent's root.
    pub path: String,
    /// Total length in bytes of the files at or below this path.
    pub size: u64,
    /// Total bytes completed of the files at or below this path.
    pub downloaded: u64,
    /// The entries one level below (empty for a path that a single file has).
    pub children: Vec<Node>,
}

/// A file as the tree builder takes it: its length, its completed bytes and
/// the components of its path.
pub type FileEntry = (u64, u64, Vec<String>);

/// A file entry seen as plain values: length, completed bytes, components.
pub type EntryView = (u64, u64, Seq<Seq<char>>);

pub open spec fn entry_view(e: FileEntry) -> EntryView {
    (e.0, e.1, e.2@.map_values(|c: String| c@))
}

pub open spec fn entries_view(xs: Seq<FileEntry>) -> Seq<EntryView> {
    xs.map_values(|e: FileEntry| entry_view(e))
}

/// Whether `e` has a component at `level` and that component is `name`.
pub open spec fn in_group(e: EntryView, level: int, name: Seq<char>) -> bool {
    0 <= level < e.2.len() && e.2[level] == name
}

/// The entries of `xs`, in order, whose component at `level` is `name`.
pub open spec fn group(xs: Seq<EntryView>, level: int, name: Seq<char>) -> Seq<EntryView>
    decreases xs.len(),
{
    if xs.len() == 0 {
        seq![]
    } else if in_group(xs.last(), level, name) {
        group(xs.drop_last(), level, name).push(xs.last())
    } else {
        group(xs.drop_last(), level, name)
    }
}

/// Sum of the lengths of the entries.
pub open spec fn size_sum(xs: Seq<EntryView>) -> nat
    decreases xs.len(),
{
    if xs.len() == 0 {
        0
    } else {
        size_sum(xs.drop_last()) + xs.last().0 as nat
    }
}

/// Sum of the completed bytes of the entries.
pub open spec fn done_sum(xs: Seq<EntryView>) -> nat
    decreases xs.len(),
{
    if xs.len() == 0 {
        0
    } else {
        done_sum(xs.drop_last()) + xs.last().1 as nat
    }
}

/// Whether some entry of `xs` has the component `name` at `level`.
pub open spec fn has_name(xs: Seq<EntryView>, level: int, name: Seq<char>) -> bool {
    exists|j: int| 0 <= j < xs.len() && #[trigger] in_group(xs[j], level, name)
}

/// The path of a child `name` of the folder at `parent` (the root has the
/// empty path).
pub open spec fn join_path(parent: Seq<char>, name: Seq<char>) -> Seq<char> {
    if parent.len() == 0 {
        name
    } else {
        parent + seq!['/'] + name
    }
}

/// No group of entries at `level` sums to more than `u64` holds.
pub open spec fn sums_fit(xs: Seq<EntryView>, level: int) -> bool {
    forall|name: Seq<char>|
        size_sum(#[trigger] group(xs, level, name)) <= u64::MAX && done_sum(group(xs, level, name))
            <= u64::MAX
}

/// `nodes` is the tree that the entries `xs` form below the folder `parent`
/// whose children sit at component `level`: one node per distinct component,
/// in increasing order of names, each with its path, the sums over its files
/// and, when more than one file falls under it, its own subtree.
pub open spec fn forest_of(nodes: Seq<Node>, parent: Seq<char>, level: int, xs: Seq<EntryView>) -> bool
    decreases nodes,
{
    &&& forall|i: int, j: int|
        0 <= i < j < nodes.len() ==> text_lt(#[trigger] nodes[i].name@, #[trigger] nodes[j].name@)
    &&& forall|name: Seq<char>|
        has_name(xs, level, name) <==> exists|i: int|
            0 <= i < nodes.len() && #[trigger] nodes[i].name@ == name
    &&& forall|i: int| 0 <= i < nodes.len() ==> node_of(#[trigger] nodes[i], parent, level, xs)
}

/// `n` is the node that the entries `xs` give for its name below `parent`.
pub open spec fn node_of(n: Node, parent: Seq<char>, level: int, xs: Seq<EntryView>) -> bool
    decreases n,
{
    let g = group(xs, level, n.name@);
    &&& n.path@ == join_path(parent, n.name@)
    &&& n.size == size_sum(g)
    &&& n.downloaded == done_sum(g)
    &&& if g.len() > 1 {
        forest_of(n.children@, n.path@, level + 1, g)
    } else {
        n.children@.len() == 0
    }
}

proof fn lemma_group_members(xs: Seq<EntryView>, level: int, name: Seq<char>)
    ensures
        forall|i: int| 0 <= i < group(xs, level, name).len() ==> in_group(
            #[trigger] group(xs, level, name)[i],
            level,
            name,
        ),
    decreases xs.len(),
{
    if xs.len() > 0 {
        lemma_group_members(xs.drop_last(), level, name);
        let g = group(xs.drop_last(), level, name);
        if in_group(xs.last(), level, name) {
            assert forall|i: int| 0 <= i < g.push(xs.last()).len() implies in_group(
                #[trigger] g.push(xs.last())[i],
                level,
                name,
            ) by {
                if i < g.len() {
                    assert(g.push(xs.last())[i] == g[i]);
                }
            }
        }
    }
}

proof fn lemma_group_sums_le(xs: Seq<EntryView>, level: int, name: Seq<char>)
    ensures
        size_sum(group(xs, level, name)) <= size_sum(xs),
        done_sum(group(xs, level, name)) <= done_sum(xs),
    decreases xs.len(),
{
    if xs.len() > 0 {
        lemma_group_sums_le(xs.drop_last(), level, name);
        if in_group(xs.last(), level, name) {
            let g = group(xs.drop_last(), level, name);
            assert(g.push(xs.last()).drop_last() =~= g);
        }
    }
}

proof fn lemma_group_prefix_sums_le(xs: Seq<EntryView>, level: int, name: Seq<char>, k: int)
    requires
        0 <= k <= xs.len(),
    ensures
        size_sum(group(xs.take(k), level, name)) <= size_sum(group(xs, level, name)),
        done_sum(group(xs.take(k), level, name)) <= done_sum(group(xs, level, name)),
    decreases xs.len(),
{
    if k == xs.len() {
        assert(xs.take(k) =~= xs);
    } else {
        assert(xs.drop_last().take(k) =~= xs.take(k));
        lemma_group_prefix_sums_le(xs.drop_last(), level, name, k);
        if in_group(xs.last(), level, name) {
            let g = group(xs.drop_last(), level, name);
            assert(g.push(xs.last()).drop_last() =~= g);
        }
    }
}

proof fn lemma_subgroup_sums_fit(g: Seq<EntryView>, level: int)
    requires
        size_sum(g) <= u64::MAX,
        done_sum(g) <= u64::MAX,
    ensures
        sums_fit(g, level),
{
    assert forall|name: Seq<char>|
        size_sum(#[trigger] group(g, level, name)) <= u64::MAX && done_sum(group(g, level, name))
            <= u64::MAX by {
        lemma_group_sums_le(g, level, name);
    }
}

/// The distinct components at `level` of the entries, in increasing order.
fn distinct_names(xs: &Vec<FileEntry>, level: usize) -> (r: Vec<String>)
    ensures
        forall|i: int, j: int| 0 <= i < j < r.len() ==> text_lt(#[trigger] r@[i]@, #[trigger] r@[j]@),
        forall|name: Seq<char>|
            has_name(entries_view(xs@), level as int, name) <==> exists|i: int|
                0 <= i < r.len() && #[trigger] r@[i]@ == name,
{
    let ghost xv = entries_view(xs@);
    let mut r: Vec<String> = Vec::new();
    let mut k: usize = 0;
    while k < xs.len()
        invariant
            0 <= k <= xs.len(),
            xv == entries_view(xs@),
            forall|i: int, j: int|
                0 <= i < j < r.len() ==> text_lt(#[trigger] r@[i]@, #[trigger] r@[j]@),
            forall|name: Seq<char>|
                has_name(xv.take(k as int), level as int, name) <==> exists|i: int|
                    0 <= i < r.len() && #[trigger] r@[i]@ == name,
        decreases xs.len() - k,
    {
        let ghost old_r = r@;
        if level < xs[k].2.len() {
            let name = &xs[k].2[level];
            let nc = chars_of(name.as_str());
            let mut pos: usize = 0;
            while pos < r.len() && text_less(&chars_of(r[pos].as_str()), &nc)
                invariant
                    pos <= r.len(),
                    r@ == old_r,
                    nc@ == name@,
                    forall|i: int| 0 <= i < pos ==> text_lt(#[trigger] r@[i]@, name@),
                decreases r.len() - pos,
            {
                pos = pos + 1;
            }
            let found = pos < r.len() && r[pos] == *name;
            if !found {
                proof {
                    if pos < r.len() {
                        lemma_text_lt_total(r@[pos as int]@, name@);
                    }
                }
                r.insert(pos, name.clone());
                proof {
                    assert forall|i: int, j: int|
                        0 <= i < j < r.len() implies text_lt(#[trigger] r@[i]@, #[trigger] r@[j]@) by {
                        if j < pos {
                        } else if j == pos {
                        } else if i < pos {
                            if j > pos + 1 {
                                lemma_text_lt_transitive(name@, old_r[pos as int]@, r@[j]@);
                            }
                            lemma_text_lt_transitive(r@[i]@, name@, r@[j]@);
                        } else if i == pos {
                            if j > pos + 1 {
                                lemma_text_lt_transitive(name@, old_r[pos as int]@, r@[j]@);
                            }
                        }
                    }
                }
            }
            proof {
                let t = xv.take(k as int + 1);
                assert(t[k as int] == xv[k as int]);
                assert forall|nm: Seq<char>|
                    has_name(t, level as int, nm) <==> exists|i: int|
                        0 <= i < r.len() && #[trigger] r@[i]@ == nm by {
                    if has_name(t, level as int, nm) {
                        let j = choose|j: int| 0 <= j < t.len() && #[trigger] in_group(t[j], level as int, nm);
                        if j < k {
                            assert(xv.take(k as int)[j] == t[j]);
                            assert(has_name(xv.take(k as int), level as int, nm));
                            let i0 = choose|i: int| 0 <= i < old_r.len() && #[trigger] old_r[i]@ == nm;
                            if found {
                                assert(r@[i0]@ == nm);
                            } else if i0 < pos {
                                assert(r@[i0]@ == nm);
                            } else {
                                assert(r@[i0 + 1]@ == nm);
                            }
                        } else {
                            assert(nm == name@);
                            if found {
                                assert(r@[pos as int]@ == nm);
                            } else {
                                assert(r@[pos as int]@ == nm);
                            }
                        }
                    }
                    if exists|i: int| 0 <= i < r.len() && #[trigger] r@[i]@ == nm {
                        let i = choose|i: int| 0 <= i < r.len() && #[trigger] r@[i]@ == nm;
                        if !found && i == pos {
                            assert(in_group(t[k as int], level as int, nm));
                        } else {
                            let i0 = if !found && i > pos { i - 1 } else { i };
                            assert(old_r[i0]@ == nm);
                            assert(has_name(xv.take(k as int), level as int, nm));
                            let j = choose|j: int|
                                0 <= j < k && #[trigger] in_group(xv.take(k as int)[j], level as int, nm);
                            assert(t[j] == xv.take(k as int)[j]);
                            assert(in_group(t[j], level as int, nm));
                        }
                    }
                }
            }
        } else {
            proof {
                let t = xv.take(k as int + 1);
                assert forall|nm: Seq<char>|
                    has_name(t, level as int, nm) <==> has_name(xv.take(k as int), level as int, nm) by {
                    if has_name(t, level as int, nm) {
                        let j = choose|j: int| 0 <= j < t.len() && #[trigger] in_group(t[j], level as int, nm);
                        assert(j != k);
                        assert(xv.take(k as int)[j] == t[j]);
                    }
                    if has_name(xv.take(k as int), level as int, nm) {
                        let j = choose|j: int|
                            0 <= j < k && #[trigger] in_group(xv.take(k as int)[j], level as int, nm);
                        assert(xv.take(k as int)[j] == t[j]);
                    }
                }
            }
        }
        k = k + 1;
    }
    assert(xv.take(xs.len() as int) =~= xv);
    r
}

/// A copy of a list of strings.
fn clone_strings(v: &Vec<String>) -> (r: Vec<String>)
    ensures
        r@ == v@,
{
    let mut r: Vec<String> = Vec::new();
    let mut i: usize = 0;
    while i < v.len()
        invariant
            i <= v.len(),
            r@ == v@.take(i as int),
        decreases v.len() - i,
    {
        r.push(v[i].clone());
        assert(r@ =~= v@.take(i as int + 1));
        i = i + 1;
    }
    assert(r@ =~= v@);
    r
}

/// The entries whose component at `level` is `name`, with their total length
/// and total completed bytes.
fn collect_group(xs: &Vec<FileEntry>, level: usize, name: &String) -> (r: (Vec<FileEntry>, u64, u64))
    requires
        size_sum(group(entries_view(xs@), level as int, name@)) <= u64::MAX,
        done_sum(group(entries_view(xs@), level as int, name@)) <= u64::MAX,
    ensures
        entries_view(r.0@) == group(entries_view(xs@), level as int, name@),
        r.1 == size_sum(entries_view(r.0@)),
        r.2 == done_sum(entries_view(r.0@)),
{
    let ghost xv = entries_view(xs@);
    let mut g: Vec<FileEntry> = Vec::new();
    let mut size: u64 = 0;
    let mut done: u64 = 0;
    let mut k: usize = 0;
    while k < xs.len()
        invariant
            k <= xs.len(),
            xv == entries_view(xs@),
            size_sum(group(xv, level as int, name@)) <= u64::MAX,
            done_sum(group(xv, level as int, name@)) <= u64::MAX,
            entries_view(g@) == group(xv.take(k as int), level as int, name@),
            size == size_sum(entries_view(g@)),
            done == done_sum(entries_view(g@)),
        decreases xs.len() - k,
    {
        let e = &xs[k];
        proof {
            let t = xv.take(k as int + 1);
            assert(t.drop_last() =~= xv.take(k as int));
            assert(t.last() == entry_view(*e));
            lemma_group_prefix_sums_le(xv, level as int, name@, k as int + 1);
        }
        if level < e.2.len() && e.2[level] == *name {
            let comps = clone_strings(&e.2);
            let ghost before = entries_view(g@);
            g.push((e.0, e.1, comps));
            proof {
                assert(entry_view((e.0, e.1, comps)) == entry_view(*e));
                assert(entries_view(g@) =~= before.push(entry_view(*e)));
                assert(entries_view(g@).drop_last() =~= before);
                assert(in_group(entry_view(*e), level as int, name@));
            }
            size = size + e.0;
            done = done + e.1;
        } else {
            proof {
                assert(!in_group(entry_view(*e), level as int, name@));
            }
        }
        k = k + 1;
    }
    assert(xv.take(xs.len() as int) =~= xv);
    (g, size, done)
}

/// The path of the child `name` of the folder at `parent_path`.
fn child_path(parent_path: &str, name: &String) -> (r: String)
    ensures
        r@ == join_path(parent_path@, name@),
{
    let mut p = String::new();
    let pc = chars_of(parent_path);
    if pc.len() == 0 {
        push_str(&mut p, name.as_str());
    } else {
        push_str(&mut p, parent_path);
        push_char(&mut p, '/');
        push_str(&mut p, name.as_str());
    }
    assert(p@ =~= join_path(parent_path@, name@));
    p
}

/// Builds the tree that the entries `xs` form below the folder `parent_path`,
/// whose children are the components at position `level` of the entries'
/// paths.
pub fn do_build_tree(parent_path: &str, level: usize, xs: Vec<FileEntry>) -> (r: Vec<Node>)
    requires
        sums_fit(entries_view(xs@), level as int),
    ensures
        forest_of(r@, parent_path@, level as int, entries_view(xs@)),
    decreases usize::MAX - level,
{
    let ghost xv = entries_view(xs@);
    let parents = distinct_names(&xs, level);
    let mut ns: Vec<Node> = Vec::new();
    let mut p: usize = 0;
    while p < parents.len()
        invariant
            p <= parents.len(),
            xv == entries_view(xs@),
            sums_fit(xv, level as int),
            ns.len() == p,
            forall|i: int, j: int|
                0 <= i < j < parents.len() ==> text_lt(#[trigger] parents@[i]@, #[trigger] parents@[j]@),
            forall|name: Seq<char>|
                has_name(xv, level as int, name) <==> exists|i: int|
                    0 <= i < parents.len() && #[trigger] parents@[i]@ == name,
            forall|i: int| 0 <= i < p ==> #[trigger] ns@[i].name@ == parents@[i]@,
            forall|i: int| 0 <= i < p ==> node_of(#[trigger] ns@[i], parent_path@, level as int, xv),
        decreases parents.len() - p,
    {
        let name = &parents[p];
        proof {
            assert(size_sum(group(xv, level as int, name@)) <= u64::MAX);
        }
        let (children, size, downloaded) = collect_group(&xs, level, name);
        let path = child_path(parent_path, name);
        let cs = if children.len() > 1 {
            let l0 = children[0].2.len();
            proof {
                let g = entries_view(children@);
                lemma_group_members(xv, level as int, name@);
                assert(in_group(g[0], level as int, name@));
                assert(g[0].2.len() == l0);
                lemma_subgroup_sums_fit(g, level as int + 1);
            }
            do_build_tree(path.as_str(), level + 1, children)
        } else {
            Vec::new()
        };
        let node = Node { name: name.clone(), path, size, downloaded, children: cs };
        proof {
            assert(node_of(node, parent_path@, level as int, xv));
        }
        ns.push(node);
        p = p + 1;
    }
    proof {
        assert forall|name: Seq<char>|
            has_name(xv, level as int, name) <==> exists|i: int|
                0 <= i < ns.len() && #[trigger] ns@[i].name@ == name by {
            if has_name(xv, level as int, name) {
                let i = choose|i: int| 0 <= i < parents.len() && #[trigger] parents@[i]@ == name;
                assert(ns@[i].name@ == name);
            }
            if exists|i: int| 0 <= i < ns.len() && #[trigger] ns@[i].name@ == name {
                let i = choose|i: int| 0 <= i < ns.len() && #[trigger] ns@[i].name@ == name;
                assert(parents@[i]@ == name);
            }
        }
        assert forall|i: int, j: int|
            0 <= i < j < ns.len() implies text_lt(#[trigger] ns@[i].name@, #[trigger] ns@[j].name@) by {
            assert(text_lt(parents@[i]@, parents@[j]@));
        }
    }
    ns
}

/// The entries that the files of a torrent give: their paths split at `/`.
pub open spec fn file_entries(files: Seq<File>) -> Seq<EntryView> {
    files.map_values(|f: File| (f.length, f.bytes_completed, split_text(f.name@, '/')))
}

/// Builds the file tree of a torrent from its list of files.
///
/// The tree does not depend on the order of the files: folders and files are
/// listed by name and sums do not depend on the order of their terms.
pub fn build_tree(files: &Vec<File>) -> (r: Vec<Node>)
    requires
        sums_fit(file_entries(files@), 0),
    ensures
        forest_of(r@, seq![], 0, file_entries(files@)),
{
    let mut xs: Vec<FileEntry> = Vec::new();
    let mut k: usize = 0;
    while k < files.len()
        invariant
            k <= files.len(),
            entries_view(xs@) == file_entries(files@).take(k as int),
        decreases files.len() - k,
    {
        let f = &files[k];
        let parts = split_chars(f.name.as_str(), '/');
        let ghost before = entries_view(xs@);
        xs.push((f.length, f.bytes_completed, parts));
        proof {
            assert(entry_view((f.length, f.bytes_completed, parts)) == (
                f.length,
                f.bytes_completed,
                split_text(f.name@, '/'),
            ));
            assert(entries_view(xs@) =~= before.push(entry_view((f.length, f.bytes_completed, parts))));
            assert(entries_view(xs@) =~= file_entries(files@).take(k as int + 1));
        }
        k = k + 1;
    }
    assert(file_entries(files@).take(files.len() as int) =~= file_entries(files@));
    let root = String::new();
    assert(root@ =~= seq![]);
    do_build_tree(root.as_str(), 0, xs)
}

/// Two forests with the same names, paths, sums and shape.
pub open spec fn same_forest(a: Seq<Node>, b: Seq<Node>) -> bool
    decreases a,
{
    &&& a.len() == b.len()
    &&& forall|i: int| 0 <= i < a.len() ==> same_node(#[trigger] a[i], b[i])
}

/// Two nodes with the same name, path, sums and children.
pub open spec fn same_node(x: Node, y: Node) -> bool
    decreases x,
{
    &&& x.name@ == y.name@
    &&& x.path@ == y.path@
    &&& x.size == y.size
    &&& x.downloaded == y.downloaded
    &&& same_forest(x.children@, y.children@)
}

/// A copy of a forest.
pub fn copy_forest(v: &Vec<Node>) -> (r: Vec<Node>)
    ensures
        same_forest(r@, v@),
    decreases v@,
{
    let mut r: Vec<Node> = Vec::new();
    let mut i: usize = 0;
    while i < v.len()
        invariant
            i <= v.len(),
            r.len() == i,
            forall|j: int| 0 <= j < i ==> same_node(#[trigger] r@[j], v@[j]),
        decreases v.len() - i,
    {
        let n = &v[i];
        proof {
            assert(decreases_to!(v@ => v@[i as int]));
        }
        let cs = copy_forest(&n.children);
        r.push(Node {
            name: n.name.clone(),
            path: n.path.clone(),
            size: n.size,
            downloaded: n.downloaded,
            children: cs,
        });
        i = i + 1;
    }
    r
}

/// The children of the node that `parts` leads to from `tree`: at each level
/// the first node whose name is the next part. Empty when no node matches.
pub open spec fn children_at(tree: Seq<Node>, parts: Seq<Seq<char>>) -> Seq<Node>
    decreases parts.len(), tree.len(),
{
    if tree.len() == 0 || parts.len() == 0 {
        seq![]
    } else if tree[0].name@ == parts[0] {
        if parts.len() == 1 {
            tree[0].children@
        } else {
            children_at(tree[0].children@, parts.drop_first())
        }
    } else {
        children_at(tree.drop_first(), parts)
    }
}

fn do_get_children(tree: &Vec<Node>, parts: &Vec<String>, from: usize) -> (r: Vec<Node>)
    requires
        from <= parts.len(),
    ensures
        same_forest(r@, children_at(tree@, strings_view(parts@).skip(from as int))),
    decreases parts.len() - from,
{
    let ghost ps = strings_view(parts@).skip(from as int);
    if from == parts.len() {
        return Vec::new();
    }
    let mut i: usize = 0;
    assert(tree@.skip(0) =~= tree@);
    while i < tree.len()
        invariant
            i <= tree.len(),
            from < parts.len(),
            ps == strings_view(parts@).skip(from as int),
            children_at(tree@, ps) == children_at(tree@.skip(i as int), ps),
        decreases tree.len() - i,
    {
        let n = &tree[i];
        proof {
            assert(tree@.skip(i as int)[0] == tree@[i as int]);
            assert(ps[0] == parts@[from as int]@);
        }
        if n.name == parts[from] {
            if from + 1 == parts.len() {
                return copy_forest(&n.children);
            } else {
                proof {
                    assert(ps.drop_first() =~= strings_view(parts@).skip(from as int + 1));
                }
                return do_get_children(&n.children, parts, from + 1);
            }
        }
        proof {
            assert(tree@.skip(i as int).drop_first() =~= tree@.skip(i as int + 1));
        }
        i = i + 1;
    }
    Vec::new()
}

/// The children of the folder at the slash-separated `path` of the tree.
pub fn get_children(tree: &Vec<Node>, path: String) -> (r: Vec<Node>)
    ensures
        same_forest(r@, children_at(tree@, split_text(path@, '/'))),
{
    let parts = split_chars(path.as_str(), '/');
    assert(strings_view(parts@).skip(0) =~= strings_view(parts@));
    do_get_children(tree, &parts, 0)
}

/// The entries of `xs` that have a component at `level`: the files that lie
/// below a folder whose children sit at `level`.
pub open spec fn deep_entries(xs: Seq<EntryView>, level: int) -> Seq<EntryView>
    decreases xs.len(),
{
    if xs.len() == 0 {
        seq![]
    } else if 0 <= level < xs.last().2.len() {
        deep_entries(xs.drop_last(), level).push(xs.last())
    } else {
        deep_entries(xs.drop_last(), level)
    }
}

/// Sum of the sizes of the nodes.
pub open spec fn forest_size(nodes: Seq<Node>) -> nat
    decreases nodes.len(),
{
    if nodes.len() == 0 {
        0
    } else {
        forest_size(nodes.drop_last()) + nodes.last().size as nat
    }
}

/// Sum of the completed bytes of the nodes.
pub open spec fn forest_done(nodes: Seq<Node>) -> nat
    decreases nodes.len(),
{
    if nodes.len() == 0 {
        0
    } else {
        forest_done(nodes.drop_last()) + nodes.last().downloaded as nat
    }
}

/// Sum of the lengths of the groups of the names.
spec fn group_sizes(names: Seq<Seq<char>>, xs: Seq<EntryView>, level: int) -> nat
    decreases names.len(),
{
    if names.len() == 0 {
        0
    } else {
        group_sizes(names.drop_last(), xs, level) + size_sum(group(xs, level, names.last()))
    }
}

/// Sum of the completed bytes of the groups of the names.
spec fn group_dones(names: Seq<Seq<char>>, xs: Seq<EntryView>, level: int) -> nat
    decreases names.len(),
{
    if names.len() == 0 {
        0
    } else {
        group_dones(names.drop_last(), xs, level) + done_sum(group(xs, level, names.last()))
    }
}

spec fn distinct_texts(names: Seq<Seq<char>>) -> bool {
    forall|i: int, j: int| 0 <= i < j < names.len() ==> #[trigger] names[i] != #[trigger] names[j]
}

spec fn node_names(nodes: Seq<Node>) -> Seq<Seq<char>> {
    nodes.map_values(|n: Node| n.name@)
}

proof fn lemma_group_sizes_empty(names: Seq<Seq<char>>, level: int)
    ensures
        group_sizes(names, seq![], level) == 0,
        group_dones(names, seq![], level) == 0,
    decreases names.len(),
{
    if names.len() > 0 {
        lemma_group_sizes_empty(names.drop_last(), level);
    }
}

/// Adding an entry adds its length to the group of its component, if that
/// component is one of the names, and to no other group.
proof fn lemma_group_sizes_push(names: Seq<Seq<char>>, xs: Seq<EntryView>, e: EntryView, level: int)
    requires
        distinct_texts(names),
    ensures
        group_sizes(names, xs.push(e), level) == group_sizes(names, xs, level) + (if 0 <= level
            < e.2.len() && names.contains(e.2[level]) {
            e.0 as nat
        } else {
            0
        }),
        group_dones(names, xs.push(e), level) == group_dones(names, xs, level) + (if 0 <= level
            < e.2.len() && names.contains(e.2[level]) {
            e.1 as nat
        } else {
            0
        }),
    decreases names.len(),
{
    if names.len() > 0 {
        let init = names.drop_last();
        let n = names.last();
        assert(distinct_texts(init));
        lemma_group_sizes_push(init, xs, e, level);
        assert(xs.push(e).drop_last() =~= xs);
        let g = group(xs, level, n);
        assert(g.push(e).drop_last() =~= g);
        if 0 <= level < e.2.len() {
            let c = e.2[level];
            if names.contains(c) {
                let k = choose|k: int| 0 <= k < names.len() && names[k] == c;
                if n == c {
                    assert(k == names.len() - 1);
                    assert(!init.contains(c));
                } else {
                    assert(init[k] == c);
                    assert(init.contains(c));
                }
            } else {
                assert(!init.contains(c)) by {
                    if init.contains(c) {
                        let k = choose|k: int| 0 <= k < init.len() && init[k] == c;
                        assert(names[k] == c);
                    }
                }
            }
        }
    }
}

/// When the names are distinct and cover every component at `level`, their
/// groups add up to the entries that have such a component.
proof fn lemma_group_sizes_cover(names: Seq<Seq<char>>, xs: Seq<EntryView>, level: int)
    requires
        distinct_texts(names),
        forall|j: int| 0 <= j < xs.len() && 0 <= level < xs[j].2.len() ==> names.contains(#[trigger] xs[j].2[level]),
    ensures
        group_sizes(names, xs, level) == size_sum(deep_entries(xs, level)),
        group_dones(names, xs, level) == done_sum(deep_entries(xs, level)),
    decreases xs.len(),
{
    if xs.len() == 0 {
        lemma_group_sizes_empty(names, level);
        assert(xs =~= seq![]);
    } else {
        let init = xs.drop_last();
        let e = xs.last();
        assert forall|j: int| 0 <= j < init.len() && 0 <= level < init[j].2.len() implies names.contains(
            #[trigger] init[j].2[level],
        ) by {
            assert(init[j] == xs[j]);
        }
        lemma_group_sizes_cover(names, init, level);
        lemma_group_sizes_push(names, init, e, level);
        assert(init.push(e) =~= xs);
        let d = deep_entries(init, level);
        assert(d.push(e).drop_last() =~= d);
        if 0 <= level < e.2.len() {
            assert(xs[xs.len() - 1] == e);
            assert(names.contains(xs[xs.len() - 1].2[level]));
        }
    }
}

proof fn lemma_forest_sums(nodes: Seq<Node>, xs: Seq<EntryView>, level: int)
    requires
        forall|i: int|
            0 <= i < nodes.len() ==> (#[trigger] nodes[i]).size == size_sum(group(xs, level, nodes[i].name@))
                && nodes[i].downloaded == done_sum(group(xs, level, nodes[i].name@)),
    ensures
        forest_size(nodes) == group_sizes(node_names(nodes), xs, level),
        forest_done(nodes) == group_dones(node_names(nodes), xs, level),
    decreases nodes.len(),
{
    if nodes.len() > 0 {
        let init = nodes.drop_last();
        assert forall|i: int| 0 <= i < init.len() implies (#[trigger] init[i]).size == size_sum(
            group(xs, level, init[i].name@),
        ) && init[i].downloaded == done_sum(group(xs, level, init[i].name@)) by {
            assert(init[i] == nodes[i]);
        }
        lemma_forest_sums(init, xs, level);
        assert(node_names(init) =~= node_names(nodes).drop_last());
        assert(nodes[nodes.len() - 1] == nodes.last());
    }
}

/// The nodes of a level of the tree add up to the files below it: their sizes
/// sum to the lengths, and their completed bytes to the completed bytes, of
/// the files that have a path component at that level.
pub proof fn lemma_forest_totals(nodes: Seq<Node>, parent: Seq<char>, level: int, xs: Seq<EntryView>)
    requires
        forest_of(nodes, parent, level, xs),
    ensures
        forest_size(nodes) == size_sum(deep_entries(xs, level)),
        forest_done(nodes) == done_sum(deep_entries(xs, level)),
{
    let names = node_names(nodes);
    assert forall|i: int, j: int| 0 <= i < j < names.len() implies #[trigger] names[i] != #[trigger] names[j] by {
        assert(text_lt(nodes[i].name@, nodes[j].name@));
        lemma_text_lt_irreflexive(nodes[i].name@);
    }
    assert forall|j: int| 0 <= j < xs.len() && 0 <= level < xs[j].2.len() implies names.contains(
        #[trigger] xs[j].2[level],
    ) by {
        let name = xs[j].2[level];
        assert(in_group(xs[j], level, name));
        assert(has_name(xs, level, name));
        let i = choose|i: int| 0 <= i < nodes.len() && #[trigger] nodes[i].name@ == name;
        assert(names[i] == name);
    }
    assert forall|i: int|
        0 <= i < nodes.len() implies (#[trigger] nodes[i]).size == size_sum(group(xs, level, nodes[i].name@))
            && nodes[i].downloaded == done_sum(group(xs, level, nodes[i].name@)) by {
        assert(node_of(nodes[i], parent, level, xs));
    }
    lemma_forest_sums(nodes, xs, level);
    lemma_group_sizes_cover(names, xs, level);
}

proof fn lemma_all_deep(xs: Seq<EntryView>)
    requires
        forall|j: int| 0 <= j < xs.len() ==> (#[trigger] xs[j]).2.len() >= 1,
    ensures
        deep_entries(xs, 0) == xs,
    decreases xs.len(),
{
    if xs.len() > 0 {
        let init = xs.drop_last();
        assert forall|j: int| 0 <= j < init.len() implies (#[trigger] init[j]).2.len() >= 1 by {
            assert(init[j] == xs[j]);
        }
        lemma_all_deep(init);
        assert(xs[xs.len() - 1] == xs.last());
        assert(init.push(xs.last()) =~= xs);
    }
}

/// The top level of a torrent's tree accounts for every file once: the sizes
/// of the root entries add up to the total length of the files, and their
/// completed bytes to the total completed bytes.
pub proof fn lemma_build_tree_totals(files: Seq<File>, tree: Seq<Node>)
    requires
        forest_of(tree, seq![], 0, file_entries(files)),
    ensures
        forest_size(tree) == size_sum(file_entries(files)),
        forest_done(tree) == done_sum(file_entries(files)),
{
    let xs = file_entries(files);
    assert forall|j: int| 0 <= j < xs.len() implies (#[trigger] xs[j]).2.len() >= 1 by {
        lemma_split_text_nonempty(files[j].name@, '/');
    }
    lemma_all_deep(xs);
    lemma_forest_totals(tree, seq![], 0, xs);
}

/// The node that `parts` leads to from `tree`: at each level the first node
/// whose name is the next part (the node whose children `children_at` gives).
pub open spec fn node_at(tree: Seq<Node>, parts: Seq<Seq<char>>) -> Option<Node>
    decreases parts.len(), tree.len(),
{
    if tree.len() == 0 || parts.len() == 0 {
        None
    } else if tree[0].name@ == parts[0] {
        if parts.len() == 1 {
            Some(tree[0])
        } else {
            node_at(tree[0].children@, parts.drop_first())
        }
    } else {
        node_at(tree.drop_first(), parts)
    }
}

/// The path that the names `parts` spell below the folder at `parent`.
pub open spec fn joined(parent: Seq<char>, parts: Seq<Seq<char>>) -> Seq<char>
    decreases parts.len(),
{
    if parts.len() == 0 {
        parent
    } else {
        joined(join_path(parent, parts[0]), parts.drop_first())
    }
}

/// No path component of the entries holds a `/`.
pub open spec fn clean_entries(xs: Seq<EntryView>) -> bool {
    forall|j: int, k: int|
        0 <= j < xs.len() && 0 <= k < xs[j].2.len() ==> !(#[trigger] xs[j].2[k]).contains('/')
}

proof fn lemma_children_at_node(tree: Seq<Node>, parts: Seq<Seq<char>>)
    requires
        node_at(tree, parts) is Some,
    ensures
        children_at(tree, parts) == node_at(tree, parts).unwrap().children@,
    decreases parts.len(), tree.len(),
{
    if tree[0].name@ == parts[0] {
        if parts.len() > 1 {
            lemma_children_at_node(tree[0].children@, parts.drop_first());
        }
    } else {
        lemma_children_at_node(tree.drop_first(), parts);
    }
}

proof fn lemma_group_clean(xs: Seq<EntryView>, level: int, name: Seq<char>)
    requires
        clean_entries(xs),
    ensures
        clean_entries(group(xs, level, name)),
    decreases xs.len(),
{
    if xs.len() > 0 {
        let init = xs.drop_last();
        assert forall|j: int, k: int| 0 <= j < init.len() && 0 <= k < init[j].2.len() implies !(
        #[trigger] init[j].2[k]).contains('/') by {
            assert(init[j] == xs[j]);
        }
        lemma_group_clean(init, level, name);
        let g = group(init, level, name);
        if in_group(xs.last(), level, name) {
            let h = g.push(xs.last());
            assert forall|j: int, k: int| 0 <= j < h.len() && 0 <= k < h[j].2.len() implies !(
            #[trigger] h[j].2[k]).contains('/') by {
                if j < g.len() {
                    assert(h[j] == g[j]);
                } else {
                    assert(h[j] == xs[xs.len() - 1]);
                    assert(!xs[xs.len() - 1].2[k].contains('/'));
                }
            }
        }
    }
}

/// The node that `parts` leads to has the path that `parts` spell, and no
/// part holds a `/`.
proof fn lemma_node_path(nodes: Seq<Node>, parent: Seq<char>, level: int, xs: Seq<EntryView>, parts: Seq<Seq<char>>)
    requires
        forall|i: int| 0 <= i < nodes.len() ==> node_of(#[trigger] nodes[i], parent, level, xs),
        forall|i: int| 0 <= i < nodes.len() ==> has_name(xs, level, #[trigger] nodes[i].name@),
        clean_entries(xs),
        node_at(nodes, parts) is Some,
    ensures
        node_at(nodes, parts).unwrap().path@ == joined(parent, parts),
        forall|k: int| 0 <= k < parts.len() ==> !(#[trigger] parts[k]).contains('/'),
    decreases parts.len(), nodes.len(),
{
    let n = nodes[0];
    if n.name@ == parts[0] {
        assert(node_of(nodes[0], parent, level, xs));
        assert(has_name(xs, level, nodes[0].name@));
        let j = choose|j: int| 0 <= j < xs.len() && #[trigger] in_group(xs[j], level, n.name@);
        assert(!xs[j].2[level].contains('/'));
        let path = join_path(parent, parts[0]);
        assert(joined(parent, parts) == joined(path, parts.drop_first()));
        if parts.len() == 1 {
            assert(parts.drop_first() =~= Seq::<Seq<char>>::empty());
            assert(joined(path, parts.drop_first()) == path);
            assert(node_at(nodes, parts) == Some(n));
        } else {
            let g = group(xs, level, n.name@);
            let rest = parts.drop_first();
            assert(node_at(nodes, parts) == node_at(n.children@, rest));
            assert(n.children@.len() > 0);
            assert(forest_of(n.children@, n.path@, level + 1, g));
            lemma_group_clean(xs, level, n.name@);
            assert forall|i: int| 0 <= i < n.children@.len() implies has_name(
                g,
                level + 1,
                #[trigger] n.children@[i].name@,
            ) by {
                let c = n.children@[i];
                assert(exists|k: int| 0 <= k < n.children@.len() && #[trigger] n.children@[k].name@ == c.name@);
            }
            lemma_node_path(n.children@, n.path@, level + 1, g, rest);
            assert forall|k: int| 0 <= k < parts.len() implies !(#[trigger] parts[k]).contains('/') by {
                if k > 0 {
                    assert(parts[k] == rest[k - 1]);
                }
            }
        }
    } else {
        let tail = nodes.drop_first();
        assert forall|i: int| 0 <= i < tail.len() implies node_of(#[trigger] tail[i], parent, level, xs) by {
            assert(tail[i] == nodes[i + 1]);
        }
        assert forall|i: int| 0 <= i < tail.len() implies has_name(xs, level, #[trigger] tail[i].name@) by {
            assert(tail[i] == nodes[i + 1]);
        }
        lemma_node_path(tail, parent, level, xs, parts);
        assert(node_at(nodes, parts) == node_at(tail, parts));
    }
}

/// Below a non-empty path, the parts spell a path that splits into the
/// parent's pieces followed by the parts.
proof fn lemma_split_joined(parent: Seq<char>, parts: Seq<Seq<char>>)
    requires
        parent.len() > 0,
        forall|k: int| 0 <= k < parts.len() ==> !(#[trigger] parts[k]).contains('/'),
    ensures
        split_text(joined(parent, parts), '/') == split_text(parent, '/') + parts,
    decreases parts.len(),
{
    if parts.len() == 0 {
        assert(split_text(parent, '/') + parts =~= split_text(parent, '/'));
    } else {
        let p = parent + seq!['/'] + parts[0];
        assert(join_path(parent, parts[0]) == p);
        lemma_split_text_join(parent, parts[0], '/');
        let rest = parts.drop_first();
        assert forall|k: int| 0 <= k < rest.len() implies !(#[trigger] rest[k]).contains('/') by {
            assert(rest[k] == parts[k + 1]);
        }
        lemma_split_joined(p, rest);
        assert(split_text(parent, '/').push(parts[0]) + rest =~= split_text(parent, '/') + parts);
    }
}

/// Every node of the tree that `do_build_tree` gives at the root is found
/// again by its path: when no path component of the entries holds a `/`, the
/// path of the node that the names `parts` lead to splits into `parts` again,
/// so asking `get_children` for that path gives the node's children. The one
/// exception is a node below a root entry with an empty name, whose path
/// keeps no trace of that empty name.
pub proof fn lemma_forest_paths(tree: Seq<Node>, xs: Seq<EntryView>, parts: Seq<Seq<char>>)
    requires
        forest_of(tree, seq![], 0, xs),
        clean_entries(xs),
        node_at(tree, parts) is Some,
        parts.len() >= 2 ==> parts[0].len() > 0,
    ensures
        split_text(node_at(tree, parts).unwrap().path@, '/') == parts,
        children_at(tree, split_text(node_at(tree, parts).unwrap().path@, '/'))
            == node_at(tree, parts).unwrap().children@,
{
    assert forall|i: int| 0 <= i < tree.len() implies has_name(xs, 0, #[trigger] tree[i].name@) by {
        assert(exists|k: int| 0 <= k < tree.len() && #[trigger] tree[k].name@ == tree[i].name@);
    }
    lemma_node_path(tree, seq![], 0, xs, parts);
    let p0 = parts[0];
    let rest = parts.drop_first();
    assert(joined(seq![], parts) == joined(p0, rest));
    lemma_split_text_whole(p0, '/');
    if rest.len() == 0 {
        assert(parts =~= seq![p0]);
    } else {
        assert forall|k: int| 0 <= k < rest.len() implies !(#[trigger] rest[k]).contains('/') by {
            assert(rest[k] == parts[k + 1]);
        }
        lemma_split_joined(p0, rest);
        assert(seq![p0] + rest =~= parts);
    }
    lemma_children_at_node(tree, parts);
}

/// Every node of a torrent's tree is found again by its path: the path of the
/// node that the names `parts` lead to splits into `parts` again, so asking
/// `get_children` for that path gives the node's children. The one exception
/// is a node below a root entry with an empty name (a file path that starts
/// with `/`), whose path keeps no trace of that empty name.
pub proof fn lemma_tree_paths(files: Seq<File>, tree: Seq<Node>, parts: Seq<Seq<char>>)
    requires
        forest_of(tree, seq![], 0, file_entries(files)),
        node_at(tree, parts) is Some,
        parts.len() >= 2 ==> parts[0].len() > 0,
    ensures
        split_text(node_at(tree, parts).unwrap().path@, '/') == parts,
        children_at(tree, split_text(node_at(tree, parts).unwrap().path@, '/'))
            == node_at(tree, parts).unwrap().children@,
{
    let xs = file_entries(files);
    assert forall|j: int, k: int| 0 <= j < xs.len() && 0 <= k < xs[j].2.len() implies !(
    #[trigger] xs[j].2[k]).contains('/') by {
        lemma_split_text_pieces(files[j].name@, '/');
    }
    lemma_forest_paths(tree, xs, parts);
}

proof fn lemma_sums_remove(s: Seq<EntryView>, k: int)
    requires
        0 <= k < s.len(),
    ensures
        size_sum(s) == size_sum(s.remove(k)) + s[k].0 as nat,
        done_sum(s) == done_sum(s.remove(k)) + s[k].1 as nat,
    decreases s.len(),
{
    if k == s.len() - 1 {
        assert(s.remove(k) =~= s.drop_last());
    } else {
        let init = s.drop_last();
        lemma_sums_remove(init, k);
        assert(s.remove(k).drop_last() =~= init.remove(k));
        assert(s.remove(k).last() == s.last());
        assert(init[k] == s[k]);
    }
}

/// Sums do not depend on the order of their terms.
proof fn lemma_sums_permuted(xs: Seq<EntryView>, ys: Seq<EntryView>)
    requires
        xs.to_multiset() == ys.to_multiset(),
    ensures
        size_sum(xs) == size_sum(ys),
        done_sum(xs) == done_sum(ys),
    decreases xs.len(),
{
    broadcast use vstd::seq_lib::group_to_multiset_ensures, vstd::multiset::group_multiset_axioms;

    if xs.len() == 0 {
        assert(ys.to_multiset().len() == 0);
        assert(ys =~= Seq::<EntryView>::empty());
        assert(xs =~= Seq::<EntryView>::empty());
    } else {
        let init = xs.drop_last();
        let e = xs.last();
        assert(init.push(e) =~= xs);
        assert(xs.to_multiset().count(e) > 0);
        assert(ys.contains(e));
        let k = choose|k: int| 0 <= k < ys.len() && ys[k] == e;
        let rest = ys.remove(k);
        assert(rest.to_multiset() =~= init.to_multiset());
        lemma_sums_permuted(init, rest);
        lemma_sums_remove(ys, k);
    }
}

/// How often an entry occurs in a group: as often as in the entries when it
/// belongs to the group, never otherwise.
proof fn lemma_group_counts(xs: Seq<EntryView>, level: int, name: Seq<char>)
    ensures
        forall|x: EntryView|
            #[trigger] group(xs, level, name).to_multiset().count(x) == if in_group(x, level, name) {
                xs.to_multiset().count(x)
            } else {
                0
            },
    decreases xs.len(),
{
    broadcast use vstd::seq_lib::group_to_multiset_ensures, vstd::multiset::group_multiset_axioms,
        vstd::multiset::group_multiset_properties;

    if xs.len() == 0 {
        assert(xs =~= Seq::<EntryView>::empty());
        assert(group(xs, level, name) =~= Seq::<EntryView>::empty());
        assert forall|x: EntryView|
            #[trigger] group(xs, level, name).to_multiset().count(x) == if in_group(x, level, name) {
                xs.to_multiset().count(x)
            } else {
                0
            } by {
            assert(xs.to_multiset().len() == 0);
            assert(group(xs, level, name).to_multiset().len() == 0);
        }
    } else {
        let init = xs.drop_last();
        let e = xs.last();
        lemma_group_counts(init, level, name);
        assert(init.push(e) =~= xs);
        let g = group(init, level, name);
        assert(xs.to_multiset() =~= init.to_multiset().insert(e));
        assert forall|x: EntryView|
            #[trigger] group(xs, level, name).to_multiset().count(x) == if in_group(x, level, name) {
                xs.to_multiset().count(x)
            } else {
                0
            } by {
            assert(g.to_multiset().count(x) == if in_group(x, level, name) {
                init.to_multiset().count(x)
            } else {
                0
            });
            if in_group(e, level, name) {
                assert(group(xs, level, name) == g.push(e));
                assert(g.push(e).to_multiset() =~= g.to_multiset().insert(e));
            } else {
                assert(group(xs, level, name) == g);
            }
        }
    }
}

/// Whether one of the nodes has the name.
spec fn node_named(a: Seq<Node>, name: Seq<char>) -> bool {
    exists|i: int| 0 <= i < a.len() && #[trigger] a[i].name@ == name
}

/// Two strictly increasing lists of nodes with the same names have the same
/// names at the same places.
proof fn lemma_sorted_names(a: Seq<Node>, b: Seq<Node>)
    requires
        forall|i: int, j: int| 0 <= i < j < a.len() ==> text_lt(#[trigger] a[i].name@, #[trigger] a[j].name@),
        forall|i: int, j: int| 0 <= i < j < b.len() ==> text_lt(#[trigger] b[i].name@, #[trigger] b[j].name@),
        forall|name: Seq<char>| #[trigger] node_named(a, name) <==> node_named(b, name),
    ensures
        a.len() == b.len(),
        forall|i: int| 0 <= i < a.len() ==> #[trigger] a[i].name@ == b[i].name@,
    decreases a.len(),
{
    if a.len() == 0 {
        if b.len() > 0 {
            assert(b[0].name@ == b[0].name@);
            assert(node_named(b, b[0].name@));
            assert(!node_named(a, b[0].name@));
        }
    } else {
        let n0 = a[0].name@;
        assert(node_named(a, n0));
        assert(node_named(b, n0));
        let k = choose|k: int| 0 <= k < b.len() && #[trigger] b[k].name@ == n0;
        let m0 = b[0].name@;
        assert(node_named(b, m0));
        assert(node_named(a, m0));
        let m = choose|m: int| 0 <= m < a.len() && #[trigger] a[m].name@ == m0;
        if k > 0 {
            assert(text_lt(b[0].name@, b[k].name@));
            assert(text_lt(m0, n0));
            if m == 0 {
                lemma_text_lt_irreflexive(n0);
            } else {
                assert(text_lt(a[0].name@, a[m].name@));
                assert(text_lt(n0, m0));
                lemma_text_lt_transitive(n0, m0, n0);
                lemma_text_lt_irreflexive(n0);
            }
        }
        assert(m0 == n0);
        let a1 = a.drop_first();
        let b1 = b.drop_first();
        assert forall|name: Seq<char>| #[trigger] node_named(a1, name) <==> node_named(b1, name) by {
            if node_named(a1, name) {
                let i = choose|i: int| 0 <= i < a1.len() && #[trigger] a1[i].name@ == name;
                assert(a[i + 1].name@ == name);
                assert(text_lt(a[0].name@, a[i + 1].name@));
                lemma_text_lt_irreflexive(n0);
                assert(node_named(a, name));
                assert(node_named(b, name));
                let j = choose|j: int| 0 <= j < b.len() && #[trigger] b[j].name@ == name;
                assert(j != 0);
                assert(b1[j - 1].name@ == name);
            }
            if node_named(b1, name) {
                let j = choose|j: int| 0 <= j < b1.len() && #[trigger] b1[j].name@ == name;
                assert(b[j + 1].name@ == name);
                assert(text_lt(b[0].name@, b[j + 1].name@));
                lemma_text_lt_irreflexive(m0);
                assert(node_named(b, name));
                assert(node_named(a, name));
                let i = choose|i: int| 0 <= i < a.len() && #[trigger] a[i].name@ == name;
                assert(i != 0);
                assert(a1[i - 1].name@ == name);
            }
        }
        assert forall|i: int, j: int| 0 <= i < j < a1.len() implies text_lt(#[trigger] a1[i].name@, #[trigger] a1[j].name@) by {
            assert(a1[i] == a[i + 1] && a1[j] == a[j + 1]);
        }
        assert forall|i: int, j: int| 0 <= i < j < b1.len() implies text_lt(#[trigger] b1[i].name@, #[trigger] b1[j].name@) by {
            assert(b1[i] == b[i + 1] && b1[j] == b[j + 1]);
        }
        lemma_sorted_names(a1, b1);
        assert forall|i: int| 0 <= i < a.len() implies #[trigger] a[i].name@ == b[i].name@ by {
            if i > 0 {
                assert(a1[i - 1] == a[i] && b1[i - 1] == b[i]);
            }
        }
    }
}

/// A name is at a level exactly when its group there is not empty.
proof fn lemma_has_name_group(xs: Seq<EntryView>, level: int, name: Seq<char>)
    ensures
        has_name(xs, level, name) <==> group(xs, level, name).len() > 0,
    decreases xs.len(),
{
    if xs.len() > 0 {
        let init = xs.drop_last();
        lemma_has_name_group(init, level, name);
        if has_name(init, level, name) {
            let j = choose|j: int| 0 <= j < init.len() && #[trigger] in_group(init[j], level, name);
            assert(xs[j] == init[j]);
        }
        if has_name(xs, level, name) {
            let j = choose|j: int| 0 <= j < xs.len() && #[trigger] in_group(xs[j], level, name);
            if j < init.len() {
                assert(xs[j] == init[j]);
                assert(in_group(init[j], level, name));
            }
        }
        if in_group(xs.last(), level, name) {
            assert(in_group(xs[xs.len() - 1], level, name));
        }
    } else {
        assert(group(xs, level, name) =~= Seq::<EntryView>::empty());
    }
}

/// Two forests whose entries form, name by name, the same groups up to order
/// are the same.
proof fn lemma_forest_same_groups(
    a: Seq<Node>,
    b: Seq<Node>,
    parent: Seq<char>,
    level: int,
    xs: Seq<EntryView>,
    ys: Seq<EntryView>,
)
    requires
        forest_of(a, parent, level, xs),
        forest_of(b, parent, level, ys),
        forall|name: Seq<char>| #[trigger] group(xs, level, name).to_multiset() == group(ys, level, name).to_multiset(),
    ensures
        same_forest(a, b),
    decreases a,
{
    broadcast use vstd::seq_lib::group_to_multiset_ensures;

    assert forall|name: Seq<char>| #[trigger] node_named(a, name) <==> node_named(b, name) by {
        lemma_has_name_group(xs, level, name);
        lemma_has_name_group(ys, level, name);
        assert(group(xs, level, name).to_multiset() == group(ys, level, name).to_multiset());
        assert(group(xs, level, name).to_multiset().len() == group(ys, level, name).to_multiset().len());
    }
    lemma_sorted_names(a, b);
    assert forall|i: int| 0 <= i < a.len() implies same_node(#[trigger] a[i], b[i]) by {
        let name = a[i].name@;
        assert(node_of(a[i], parent, level, xs));
        assert(node_of(b[i], parent, level, ys));
        let ga = group(xs, level, name);
        let gb = group(ys, level, name);
        assert(ga.to_multiset() == gb.to_multiset());
        lemma_sums_permuted(ga, gb);
        assert(ga.to_multiset().len() == gb.to_multiset().len());
        assert(ga.len() == gb.len());
        if ga.len() > 1 {
            assert forall|name2: Seq<char>| #[trigger] group(ga, level + 1, name2).to_multiset() == group(
                gb,
                level + 1,
                name2,
            ).to_multiset() by {
                lemma_group_counts(ga, level + 1, name2);
                lemma_group_counts(gb, level + 1, name2);
                assert(group(ga, level + 1, name2).to_multiset() =~= group(gb, level + 1, name2).to_multiset());
            }
            assert(decreases_to!(a => a[i]));
            lemma_forest_same_groups(a[i].children@, b[i].children@, a[i].path@, level + 1, ga, gb);
        }
    }
}

/// The forest relation has one solution up to the order of the entries: two
/// forests of the same entries, in whatever order, below the same folder and
/// at the same level, are the same.
pub proof fn lemma_forest_unique(
    a: Seq<Node>,
    b: Seq<Node>,
    parent: Seq<char>,
    level: int,
    xs: Seq<EntryView>,
    ys: Seq<EntryView>,
)
    requires
        forest_of(a, parent, level, xs),
        forest_of(b, parent, level, ys),
        xs.to_multiset() == ys.to_multiset(),
    ensures
        same_forest(a, b),
{
    assert forall|name: Seq<char>| #[trigger] group(xs, level, name).to_multiset() == group(ys, level, name).to_multiset() by {
        lemma_group_counts(xs, level, name);
        lemma_group_counts(ys, level, name);
        assert(group(xs, level, name).to_multiset() =~= group(ys, level, name).to_multiset());
    }
    lemma_forest_same_groups(a, b, parent, level, xs, ys);
}

/// Entries that end at or above a level join no group there.
proof fn lemma_shallow_groups(xs: Seq<EntryView>, extra: Seq<EntryView>, level: int, name: Seq<char>)
    requires
        forall|j: int| 0 <= j < extra.len() ==> (#[trigger] extra[j]).2.len() <= level,
    ensures
        group(xs + extra, level, name) == group(xs, level, name),
    decreases extra.len(),
{
    if extra.len() == 0 {
        assert(xs + extra =~= xs);
    } else {
        let init = extra.drop_last();
        assert forall|j: int| 0 <= j < init.len() implies (#[trigger] init[j]).2.len() <= level by {
            assert(init[j] == extra[j]);
        }
        lemma_shallow_groups(xs, init, level, name);
        assert((xs + extra).drop_last() =~= xs + init);
        assert((xs + extra).last() == extra[extra.len() - 1]);
    }
}

/// Entries whose paths end at or above the level change nothing in the
/// forest there.
pub proof fn lemma_forest_ignores_shallow(
    a: Seq<Node>,
    b: Seq<Node>,
    parent: Seq<char>,
    level: int,
    xs: Seq<EntryView>,
    extra: Seq<EntryView>,
)
    requires
        forest_of(a, parent, level, xs + extra),
        forest_of(b, parent, level, xs),
        forall|j: int| 0 <= j < extra.len() ==> (#[trigger] extra[j]).2.len() <= level,
    ensures
        same_forest(a, b),
{
    assert forall|name: Seq<char>| #[trigger] group(xs + extra, level, name).to_multiset() == group(
        xs,
        level,
        name,
    ).to_multiset() by {
        lemma_shallow_groups(xs, extra, level, name);
    }
    lemma_forest_same_groups(a, b, parent, level, xs + extra, xs);
}

/// Entries that all end at or above the level give an empty forest there.
pub proof fn lemma_forest_of_shallow(a: Seq<Node>, parent: Seq<char>, level: int, extra: Seq<EntryView>)
    requires
        forest_of(a, parent, level, extra),
        forall|j: int| 0 <= j < extra.len() ==> (#[trigger] extra[j]).2.len() <= level,
    ensures
        a.len() == 0,
{
    if a.len() > 0 {
        let n0 = a[0].name@;
        let i0: int = 0;
        assert(a[i0].name@ == n0);
        assert(exists|i: int| 0 <= i < a.len() && #[trigger] a[i].name@ == n0);
        assert(has_name(extra, level, n0));
        let j = choose|j: int| 0 <= j < extra.len() && #[trigger] in_group(extra[j], level, n0);
        assert(extra[j].2.len() <= level);
    }
}

/// Reordering the entries reorders their views the same way.
proof fn lemma_entries_view_permuted(xs: Seq<FileEntry>, ys: Seq<FileEntry>)
    requires
        xs.to_multiset() == ys.to_multiset(),
    ensures
        entries_view(xs).to_multiset() == entries_view(ys).to_multiset(),
    decreases xs.len(),
{
    broadcast use vstd::seq_lib::group_to_multiset_ensures, vstd::multiset::group_multiset_axioms,
        vstd::multiset::group_multiset_properties;

    if xs.len() == 0 {
        assert(ys.to_multiset().len() == 0);
        assert(ys =~= Seq::<FileEntry>::empty());
        assert(xs =~= Seq::<FileEntry>::empty());
        assert(entries_view(xs) =~= entries_view(ys));
    } else {
        let init = xs.drop_last();
        let e = xs.last();
        assert(init.push(e) =~= xs);
        assert(xs.to_multiset().count(e) > 0);
        assert(ys.contains(e));
        let k = choose|k: int| 0 <= k < ys.len() && ys[k] == e;
        let rest = ys.remove(k);
        assert(rest.to_multiset() =~= init.to_multiset());
        lemma_entries_view_permuted(init, rest);
        let v = entries_view(ys);
        assert(entries_view(rest) =~= v.remove(k));
        assert(entries_view(xs) =~= entries_view(init).push(entry_view(e)));
        assert(v[k] == entry_view(e));
        assert(v.remove(k).to_multiset() =~= v.to_multiset().remove(entry_view(e)));
        assert(v.to_multiset().count(entry_view(e)) > 0) by {
            assert(v.contains(entry_view(e)));
        }
        assert(entries_view(xs).to_multiset() =~= entries_view(init).to_multiset().insert(entry_view(e)));
        assert(entries_view(xs).to_multiset() =~= v.to_multiset());
    }
}

/// `do_build_tree` does not depend on the order of its entries: for a
/// reordering `ys` of `xs`, the trees that the contract of `do_build_tree`
/// fixes for `xs` and for `ys`, below the same folder and at the same level,
/// are the same.
pub proof fn lemma_do_build_tree_order(
    parent_path: Seq<char>,
    level: int,
    xs: Seq<FileEntry>,
    ys: Seq<FileEntry>,
    a: Seq<Node>,
    b: Seq<Node>,
)
    requires
        xs.to_multiset() == ys.to_multiset(),
        forest_of(a, parent_path, level, entries_view(xs)),
        forest_of(b, parent_path, level, entries_view(ys)),
    ensures
        same_forest(a, b),
{
    lemma_entries_view_permuted(xs, ys);
    lemma_forest_unique(a, b, parent_path, level, entries_view(xs), entries_view(ys));
}

/// Entries whose paths end at or above the level change nothing in what
/// `do_build_tree` gives: `xs` with `extra` added gives the tree of `xs`.
pub proof fn lemma_do_build_tree_shallow(
    parent_path: Seq<char>,
    level: int,
    xs: Seq<FileEntry>,
    extra: Seq<FileEntry>,
    a: Seq<Node>,
    b: Seq<Node>,
)
    requires
        forall|j: int| 0 <= j < extra.len() ==> (#[trigger] extra[j]).2@.len() <= level,
        forest_of(a, parent_path, level, entries_view(xs + extra)),
        forest_of(b, parent_path, level, entries_view(xs)),
    ensures
        same_forest(a, b),
{
    let ev = entries_view(extra);
    assert(entries_view(xs + extra) =~= entries_view(xs) + ev);
    assert forall|j: int| 0 <= j < ev.len() implies (#[trigger] ev[j]).2.len() <= level by {
        assert(ev[j] == entry_view(extra[j]));
    }
    lemma_forest_ignores_shallow(a, b, parent_path, level, entries_view(xs), ev);
}

/// Entries that all end at or above the level (in particular no entries at
/// all) give no node: `do_build_tree` returns an empty list for them.
pub proof fn lemma_do_build_tree_nothing_below(
    parent_path: Seq<char>,
    level: int,
    extra: Seq<FileEntry>,
    a: Seq<Node>,
)
    requires
        forall|j: int| 0 <= j < extra.len() ==> (#[trigger] extra[j]).2@.len() <= level,
        forest_of(a, parent_path, level, entries_view(extra)),
    ensures
        a.len() == 0,
{
    let ev = entries_view(extra);
    assert forall|j: int| 0 <= j < ev.len() implies (#[trigger] ev[j]).2.len() <= level by {
        assert(ev[j] == entry_view(extra[j]));
    }
    lemma_forest_of_shallow(a, parent_path, level, ev);
}

/// `build_tree` gives what `do_build_tree` gives at the root for the files'
/// entries (length, completed bytes, the name split at `/`), taken in any
/// order, so sorting them first would change nothing.
pub proof fn lemma_build_tree_is_do_build_tree(files: Seq<File>, t: Seq<Node>, xs: Seq<FileEntry>, u: Seq<Node>)
    requires
        forest_of(t, seq![], 0, file_entries(files)),
        entries_view(xs).to_multiset() == file_entries(files).to_multiset(),
        forest_of(u, seq![], 0, entries_view(xs)),
    ensures
        same_forest(t, u),
{
    lemma_forest_unique(t, u, seq![], 0, file_entries(files), entries_view(xs));
}

/// The tree of a torrent does not depend on the order in which its files are
/// listed: files that give the same entries, in whatever order, give the same
/// tree.
pub proof fn lemma_build_tree_order(f1: Seq<File>, f2: Seq<File>, t1: Seq<Node>, t2: Seq<Node>)
    requires
        file_entries(f1).to_multiset() == file_entries(f2).to_multiset(),
        forest_of(t1, seq![], 0, file_entries(f1)),
        forest_of(t2, seq![], 0, file_entries(f2)),
    ensures
        same_forest(t1, t2),
{
    lemma_forest_unique(t1, t2, seq![], 0, file_entries(f1), file_entries(f2));
}

} // verus!
