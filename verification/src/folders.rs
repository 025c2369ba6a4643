//! The folder tree shown beside the notes: folder paths (`a/b/c`) merged into nested
//! nodes, each named once among its siblings, in the order first seen.
use vstd::prelude::*;
use crate::models::strings_view;
use crate::text::{chars_of, string_of, extend_chars, pieces, split_on, chars_eq};
use crate::vault::{normal_segments, is_normal_segment};

verus! {

/// A folder: its name, its path from the vault root, and its subfolders.
#[derive(Debug)]
pub struct FolderDto {
    pub name: String,
    pub path: String,
    pub children: Vec<FolderDto>,
}

/// Abstract value of a folder.
pub struct FolderView {
    pub name: Seq<char>,
    pub path: Seq<char>,
    pub children: Seq<FolderView>,
}

/// The abstract value of a folder.
pub open spec fn folder_view(f: FolderDto) -> FolderView
    decreases f, 0int,
{
    FolderView { name: f.name@, path: f.path@, children: folder_views(f.children@) }
}

/// The abstract values of a list of folders.
pub open spec fn folder_views(v: Seq<FolderDto>) -> Seq<FolderView>
    decreases v, 1int,
{
    if v.len() == 0 {
        Seq::empty()
    } else {
        folder_views(v.drop_last()).push(folder_view(v.last()))
    }
}

proof fn lemma_folder_views(v: Seq<FolderDto>)
    ensures
        folder_views(v).len() == v.len(),
        forall|i: int| 0 <= i < v.len() ==> #[trigger] folder_views(v)[i] == folder_view(v[i]),
    decreases v.len(),
{
    if v.len() > 0 {
        lemma_folder_views(v.drop_last());
        assert forall|i: int| 0 <= i < v.len() implies #[trigger] folder_views(v)[i] == folder_view(v[i]) by {
            if i < v.len() - 1 {
                assert(v.drop_last()[i] == v[i]);
            }
        }
    }
}

/// Index of the first folder named `name`, or the number of folders.
pub open spec fn position_of(nodes: Seq<FolderView>, name: Seq<char>) -> int
    decreases nodes.len(),
{
    if nodes.len() == 0 {
        0
    } else if nodes[0].name == name {
        0
    } else {
        1 + position_of(nodes.drop_first(), name)
    }
}

proof fn lemma_position_of(nodes: Seq<FolderView>, name: Seq<char>)
    ensures
        0 <= position_of(nodes, name) <= nodes.len(),
        position_of(nodes, name) < nodes.len() ==> nodes[position_of(nodes, name)].name == name,
        forall|j: int| 0 <= j < position_of(nodes, name) ==> nodes[j].name != name,
    decreases nodes.len(),
{
    if nodes.len() > 0 && nodes[0].name != name {
        lemma_position_of(nodes.drop_first(), name);
        assert forall|j: int| 0 <= j < position_of(nodes, name) implies nodes[j].name != name by {
            if j > 0 {
                assert(nodes[j] == nodes.drop_first()[j - 1]);
            }
        }
    }
}

/// The path of a child named `name` under the prefix `prefix`.
pub open spec fn child_path(prefix: Seq<char>, name: Seq<char>) -> Seq<char> {
    if prefix.len() == 0 { name } else { prefix + seq!['/'] + name }
}

/// The folders `nodes` with the chain of names `parts` merged in below `prefix`: the
/// first name joins the sibling of that name, else becomes a new last sibling; the rest
/// of the chain goes below it.
pub open spec fn add_spec(nodes: Seq<FolderView>, parts: Seq<Seq<char>>, prefix: Seq<char>) -> Seq<FolderView>
    decreases parts.len(),
{
    if parts.len() == 0 {
        nodes
    } else {
        let name = parts[0];
        let path = child_path(prefix, name);
        let pos = position_of(nodes, name);
        if 0 <= pos < nodes.len() {
            nodes.update(pos, FolderView { children: add_spec(nodes[pos].children, parts.drop_first(), path), ..nodes[pos] })
        } else {
            nodes.push(FolderView { name: name, path: path, children: add_spec(Seq::empty(), parts.drop_first(), path) })
        }
    }
}

/// The names of a folder path: its non-empty pieces between `/`.
pub open spec fn path_names(p: Seq<char>) -> Seq<Seq<char>>
    decreases p.len(),
{
    nonempty_pieces(pieces(p, '/'))
}

/// The non-empty pieces, in order.
pub open spec fn nonempty_pieces(ps: Seq<Seq<char>>) -> Seq<Seq<char>>
    decreases ps.len(),
{
    if ps.len() == 0 {
        Seq::empty()
    } else {
        let r = nonempty_pieces(ps.drop_last());
        if ps.last().len() > 0 { r.push(ps.last()) } else { r }
    }
}

/// The tree of a list of folder paths, merged in order.
pub open spec fn tree_spec(paths: Seq<Seq<char>>) -> Seq<FolderView>
    decreases paths.len(),
{
    if paths.len() == 0 {
        Seq::empty()
    } else {
        add_spec(tree_spec(paths.drop_last()), path_names(paths.last()), Seq::empty())
    }
}


/// Merges the chain of folder names `parts` into `nodes` below `current_prefix` (see
/// [`add_spec`]).
pub fn add_to_tree(nodes: &mut Vec<FolderDto>, parts: &[String], current_prefix: &str)
    ensures
        folder_views(final(nodes)@) == add_spec(folder_views(old(nodes)@), strings_view(parts@), current_prefix@),
    decreases parts@.len(),
{
    if parts.len() == 0 {
        assert(strings_view(parts@).len() == 0);
        return;
    }
    let ghost before = folder_views(nodes@);
    let ghost names = strings_view(parts@);
    proof {
        lemma_folder_views(nodes@);
        lemma_position_of(before, names[0]);
    }
    let name = &parts[0];
    assert(names[0] == name@);
    let prefix = chars_of(current_prefix);
    let mut pc: Vec<char> = Vec::new();
    if prefix.len() > 0 {
        extend_chars(&mut pc, prefix.as_slice());
        pc.push('/');
    }
    let nc = chars_of(name.as_str());
    extend_chars(&mut pc, nc.as_slice());
    assert(pc@ =~= child_path(current_prefix@, name@));
    let path = string_of(&pc);
    let rest = parts.split_at(1).1;
    assert(strings_view(rest@) =~= names.drop_first());
    let mut pos: usize = 0;
    while pos < nodes.len()
        invariant
            pos <= nodes@.len(),
            before == folder_views(nodes@),
            before.len() == nodes@.len(),
            forall|i: int| 0 <= i < nodes@.len() ==> #[trigger] before[i] == folder_view(nodes@[i]),
            forall|j: int| 0 <= j < pos ==> before[j].name != name@,
        ensures
            pos <= nodes@.len(),
            before == folder_views(nodes@),
            forall|j: int| 0 <= j < pos ==> before[j].name != name@,
            pos < nodes@.len() ==> before[pos as int].name == name@,
        decreases nodes.len() - pos,
    {
        assert(before[pos as int].name == nodes@[pos as int].name@);
        if crate::models::str_eq(nodes[pos].name.as_str(), name.as_str()) {
            break;
        }
        pos += 1;
    }
    proof {
        lemma_position_of(before, name@);
        assert(position_of(before, name@) == pos) by {
            let p = position_of(before, name@);
            if p < pos {
                assert(before[p].name == name@);
            } else if pos < p {
                assert(before[pos as int].name != name@);
            }
        }
    }
    if pos < nodes.len() {
        let mut node = nodes.remove(pos);
        let ghost old_children = folder_views(node.children@);
        add_to_tree(&mut node.children, rest, path.as_str());
        let ghost nv = folder_view(node);
        nodes.insert(pos, node);
        proof {
            lemma_folder_views(nodes@);
            assert(nv == FolderView { children: add_spec(before[pos as int].children, names.drop_first(), path@), ..before[pos as int] });
            assert forall|i: int| 0 <= i < nodes@.len() implies #[trigger] folder_views(nodes@)[i] == before.update(pos as int, nv)[i] by {
                if i < pos {
                    assert(nodes@[i] == old(nodes)@[i]);
                } else if i > pos {
                    assert(nodes@[i] == old(nodes)@[i]);
                }
            }
            assert(folder_views(nodes@) =~= before.update(pos as int, nv));
        }
    } else {
        let mut node = FolderDto { name: name.clone(), path: path.clone(), children: Vec::new() };
        assert(folder_views(node.children@) =~= Seq::<FolderView>::empty());
        add_to_tree(&mut node.children, rest, path.as_str());
        let ghost nv = folder_view(node);
        let ghost nb = nodes@;
        nodes.push(node);
        proof {
            assert(nodes@.drop_last() =~= nb);
        }
    }
}

/// The names of a folder path (see [`path_names`]).
fn names_of(path: &str) -> (r: Vec<String>)
    ensures
        strings_view(r@) == path_names(path@),
{
    let c = chars_of(path);
    let ps = split_on(c.as_slice(), '/');
    let ghost pv = ps@.map_values(|v: Vec<char>| v@);
    let mut r: Vec<String> = Vec::new();
    let mut i: usize = 0;
    while i < ps.len()
        invariant
            i <= ps@.len(),
            pv == ps@.map_values(|v: Vec<char>| v@),
            pv == pieces(path@, '/'),
            strings_view(r@) == nonempty_pieces(pv.take(i as int)),
        decreases ps.len() - i,
    {
        proof {
            assert(pv.take(i + 1).drop_last() =~= pv.take(i as int));
            assert(pv.take(i + 1).last() == ps@[i as int]@);
        }
        if ps[i].len() > 0 {
            let ghost before = r@;
            r.push(string_of(ps[i].as_slice()));
            proof {
                assert(strings_view(r@) =~= strings_view(before).push(ps@[i as int]@));
            }
        }
        i += 1;
    }
    assert(pv.take(ps.len() as int) =~= pv);
    r
}

/// The folder tree of a list of folder paths (see [`tree_spec`]).
pub fn build_folder_tree(paths: &[String]) -> (r: Vec<FolderDto>)
    ensures
        folder_views(r@) == tree_spec(strings_view(paths@)),
{
    let ghost pv = strings_view(paths@);
    let mut root: Vec<FolderDto> = Vec::new();
    assert(folder_views(root@) =~= Seq::<FolderView>::empty());
    let mut i: usize = 0;
    while i < paths.len()
        invariant
            i <= paths@.len(),
            pv == strings_view(paths@),
            folder_views(root@) == tree_spec(pv.take(i as int)),
        decreases paths.len() - i,
    {
        proof {
            assert(pv.take(i + 1).drop_last() =~= pv.take(i as int));
            assert(pv.take(i + 1).last() == paths@[i as int]@);
        }
        let parts = names_of(paths[i].as_str());
        add_to_tree(&mut root, parts.as_slice(), "");
        proof {
            assert(""@ =~= Seq::<char>::empty()) by {
                reveal_strlit("");
            }
        }
        i += 1;
    }
    assert(pv.take(paths.len() as int) =~= pv);
    root
}

/// A folder renamed in place: its last `/`-piece replaced by the new name.
pub open spec fn renamed_folder_spec(folder: Seq<char>, new_name: Seq<char>) -> Seq<char> {
    crate::text::join_with(pieces(folder, '/').drop_last().push(new_name), seq!['/'])
}

/// The path of a folder after renaming it to `new_name` (see [`renamed_folder_spec`]).
pub fn renamed_folder_path(folder_path: &str, new_name: &str) -> (r: String)
    ensures
        r@ == renamed_folder_spec(folder_path@, new_name@),
{
    let c = chars_of(folder_path);
    let mut ps = split_on(c.as_slice(), '/');
    let ghost pv = ps@.map_values(|v: Vec<char>| v@);
    ps.pop();
    let nn = chars_of(new_name);
    ps.push(nn);
    assert(ps@.map_values(|v: Vec<char>| v@) =~= pv.drop_last().push(new_name@));
    let j = crate::text::join_chars(&ps, &['/']);
    assert(['/']@ =~= seq!['/']);
    string_of(&j)
}

/// Where a folder lands when moved under `target_parent`: its name under the parent
/// (trailing `/`s of the parent dropped), or at the root when the parent is empty.
pub open spec fn moved_folder_spec(name: Seq<char>, target_parent: Seq<char>) -> Seq<char> {
    if target_parent.len() == 0 {
        name
    } else {
        crate::paths::trim_end_char(target_parent, '/') + seq!['/'] + name
    }
}

/// The path of the folder `source_path` (relative to the vault at `base`) after moving
/// it under `target_parent`; `None` when the source has no file name.
pub fn moved_folder_path(base: &str, source_path: &str, target_parent: &str) -> (r: Option<String>)
    ensures
        match crate::vault::path_file_name(crate::vault::path_join(base@, source_path@)) {
            Some(n) => r matches Some(p) && p@ == moved_folder_spec(n, target_parent@),
            None => r is None,
        },
{
    let abs = crate::vault::join_path(base, source_path);
    let name = match crate::vault::file_name_of(abs.as_str()) {
        Some(n) => n,
        None => return None,
    };
    let t = chars_of(target_parent);
    if t.len() == 0 {
        return Some(name);
    }
    let mut v = crate::paths::trim_end_matches(t.as_slice(), '/');
    v.push('/');
    let nc = chars_of(name.as_str());
    extend_chars(&mut v, nc.as_slice());
    assert(v@ =~= moved_folder_spec(name@, target_parent@));
    Some(string_of(&v))
}

/// Where a note's path goes when its folder moves from `old_folder` to `new_folder`:
/// a path inside the old folder keeps its rest under the new one; the folder's own
/// path becomes the new one; other paths stay (`None`).
pub open spec fn relocated_spec(note_path: Seq<char>, old_folder: Seq<char>, new_folder: Seq<char>) -> Option<Seq<char>> {
    let prefix = old_folder + seq!['/'];
    if crate::text::has_prefix(note_path, prefix) {
        Some(new_folder + seq!['/'] + note_path.skip(prefix.len() as int))
    } else if note_path == old_folder {
        Some(new_folder)
    } else {
        None
    }
}

/// The new path of a note whose folder moved (see [`relocated_spec`]).
pub fn relocated_note_path(note_path: &str, old_folder: &str, new_folder: &str) -> (r: Option<String>)
    ensures
        match r {
            Some(p) => relocated_spec(note_path@, old_folder@, new_folder@) == Some(p@),
            None => relocated_spec(note_path@, old_folder@, new_folder@) is None,
        },
{
    let n = chars_of(note_path);
    let mut prefix = chars_of(old_folder);
    prefix.push('/');
    assert(prefix@ =~= old_folder@ + seq!['/']);
    if crate::text::starts_with(n.as_slice(), prefix.as_slice()) {
        let rest = crate::paths::tail_from(n.as_slice(), prefix.len());
        let mut v = chars_of(new_folder);
        v.push('/');
        extend_chars(&mut v, rest.as_slice());
        assert(v@ =~= new_folder@ + seq!['/'] + note_path@.skip(prefix@.len() as int));
        return Some(string_of(&v));
    }
    if crate::models::str_eq(note_path, old_folder) {
        return Some(new_folder.to_string());
    }
    None
}

/// No two sibling folders share a name, at any depth.
pub open spec fn well_named(nodes: Seq<FolderView>) -> bool
    decreases nodes,
{
    &&& forall|i: int, j: int| 0 <= i < j < nodes.len() ==> (#[trigger] nodes[i]).name != (#[trigger] nodes[j]).name
    &&& forall|i: int| 0 <= i < nodes.len() ==> well_named(#[trigger] nodes[i].children)
}

proof fn lemma_add_well_named(nodes: Seq<FolderView>, parts: Seq<Seq<char>>, prefix: Seq<char>)
    requires
        well_named(nodes),
    ensures
        well_named(add_spec(nodes, parts, prefix)),
    decreases parts.len(),
{
    if parts.len() > 0 {
        let name = parts[0];
        let path = child_path(prefix, name);
        let pos = position_of(nodes, name);
        lemma_position_of(nodes, name);
        let r = add_spec(nodes, parts, prefix);
        if pos < nodes.len() {
            assert(well_named(nodes[pos].children));
            lemma_add_well_named(nodes[pos].children, parts.drop_first(), path);
            let nv = FolderView { children: add_spec(nodes[pos].children, parts.drop_first(), path), ..nodes[pos] };
            assert(r == nodes.update(pos, nv));
            assert forall|i: int, j: int| 0 <= i < j < r.len() implies (#[trigger] r[i]).name != (#[trigger] r[j]).name by {
                assert(nodes[i].name == r[i].name && nodes[j].name == r[j].name);
            }
            assert forall|i: int| 0 <= i < r.len() implies well_named(#[trigger] r[i].children) by {
                if i != pos {
                    assert(r[i] == nodes[i]);
                }
            }
        } else {
            let empty = Seq::<FolderView>::empty();
            assert(well_named(empty));
            lemma_add_well_named(empty, parts.drop_first(), path);
            assert forall|i: int, j: int| 0 <= i < j < r.len() implies (#[trigger] r[i]).name != (#[trigger] r[j]).name by {
                if j == nodes.len() {
                    assert(r[j].name == name);
                    assert(r[i] == nodes[i]);
                } else {
                    assert(r[i] == nodes[i] && r[j] == nodes[j]);
                }
            }
            assert forall|i: int| 0 <= i < r.len() implies well_named(#[trigger] r[i].children) by {
                if i < nodes.len() {
                    assert(r[i] == nodes[i]);
                }
            }
        }
    }
}

/// In a folder tree built from any list of paths, no two sibling folders share a name.
pub proof fn law_folder_tree_well_named(paths: Seq<Seq<char>>)
    ensures
        well_named(tree_spec(paths)),
    decreases paths.len(),
{
    if paths.len() > 0 {
        law_folder_tree_well_named(paths.drop_last());
        lemma_add_well_named(tree_spec(paths.drop_last()), path_names(paths.last()), Seq::empty());
    } else {
        assert(well_named(Seq::<FolderView>::empty()));
    }
}

} // verus!
