//! What holds of the store whatever is done to it: every operation takes a
//! valid store to a valid store, deleting a folder takes its subtree and
//! nothing else, and a name that is taken stays taken.

use vstd::prelude::*;
use crate::catalog::Statement;
use crate::model::{
    FolderView, NoteView, StoreError, StoreState, ancestor_within, folder_index, folder_outside,
    folders_ascending, has_folder, has_note, in_subtree, is_rooted, lemma_folder_index,
    note_outside, notes_ascending, parent_of, rooted_within, with_name, with_parent,
};
use crate::title::lemma_title_not_empty;

verus! {

/// Whether `other` holds the folder `id` of `folders` with the same parent.
pub open spec fn same_parent(folders: Seq<FolderView>, other: Seq<FolderView>, id: i64) -> bool {
    has_folder(other, id) && parent_of(other, id) == parent_of(folders, id)
}

/// Whether `kept` holds the parent of each folder of `folders` that it
/// holds, and `other` has each of these folders with the same parent.
pub open spec fn keeps_parents(
    folders: Seq<FolderView>,
    other: Seq<FolderView>,
    kept: Set<i64>,
) -> bool {
    forall|id: i64| #[trigger]
        kept.contains(id) && has_folder(folders, id) ==> {
            &&& same_parent(folders, other, id)
            &&& parent_of(folders, id) is Some ==> kept.contains(parent_of(folders, id).unwrap())
        }
}

/// A folder that is kept with all that is above it ends at a root after as
/// many steps as before.
pub proof fn lemma_rooted_kept(
    folders: Seq<FolderView>,
    other: Seq<FolderView>,
    kept: Set<i64>,
    id: i64,
    steps: nat,
)
    requires
        keeps_parents(folders, other, kept),
        kept.contains(id),
        rooted_within(folders, id, steps),
    ensures
        rooted_within(other, id, steps),
    decreases steps,
{
    assert(same_parent(folders, other, id));
    if parent_of(folders, id) is Some {
        lemma_rooted_kept(
            folders,
            other,
            kept,
            parent_of(folders, id).unwrap(),
            (steps - 1) as nat,
        );
    }
}

/// The subtree of a folder is that folder and what is below it: the root
/// is in its subtree; a folder whose parent is in the subtree is in it; and
/// a folder in the subtree is the root or has its parent in the subtree.
/// The subtree of a folder that does not exist is empty.
pub proof fn lemma_subtree(folders: Seq<FolderView>, root: i64, id: i64)
    ensures
        in_subtree(folders, root, root) <==> has_folder(folders, root),
        in_subtree(folders, root, id) ==> has_folder(folders, id) && has_folder(folders, root),
        has_folder(folders, id) && parent_of(folders, id) is Some && in_subtree(
            folders,
            root,
            parent_of(folders, id).unwrap(),
        ) ==> in_subtree(folders, root, id),
        in_subtree(folders, root, id) && id != root ==> parent_of(folders, id) is Some
            && in_subtree(folders, root, parent_of(folders, id).unwrap()),
{
    if has_folder(folders, root) {
        assert(ancestor_within(folders, root, root, 0));
    }
    if in_subtree(folders, root, id) {
        let steps = choose|steps: nat| ancestor_within(folders, root, id, steps);
        lemma_ancestor_exists(folders, root, id, steps);
        if id != root {
            assert(ancestor_within(
                folders,
                root,
                parent_of(folders, id).unwrap(),
                (steps - 1) as nat,
            ));
        }
    }
    if has_folder(folders, id) && parent_of(folders, id) is Some && in_subtree(
        folders,
        root,
        parent_of(folders, id).unwrap(),
    ) {
        let p = parent_of(folders, id).unwrap();
        let steps = choose|steps: nat| ancestor_within(folders, root, p, steps);
        assert(ancestor_within(folders, root, id, steps + 1));
    }
}

/// What a folder reaches by following parents exists.
proof fn lemma_ancestor_exists(folders: Seq<FolderView>, ancestor: i64, id: i64, steps: nat)
    requires
        ancestor_within(folders, ancestor, id, steps),
    ensures
        has_folder(folders, ancestor),
    decreases steps,
{
    if id != ancestor {
        lemma_ancestor_exists(
            folders,
            ancestor,
            parent_of(folders, id).unwrap(),
            (steps - 1) as nat,
        );
    }
}

/// Creating a folder that the store accepts leaves the store valid.
pub proof fn lemma_insert_folder_valid(
    s: StoreState,
    name: Option<Seq<char>>,
    date_created: i64,
    parent_id: Option<i64>,
)
    requires
        s.valid(),
        s.insert_folder_error(name, parent_id) is None,
    ensures
        s.insert_folder(name, date_created, parent_id).valid(),
{
    let t = s.insert_folder(name, date_created, parent_id);
    let id = (s.last_folder_id + 1) as i64;
    let n = s.folders.len() as int;
    assert(t.folders[n].id == id);
    assert forall|i: int| 0 <= i < n implies t.folders[i] == s.folders[i] && s.folders[i].id
        < id by {}
    assert(folders_ascending(t.folders));
    assert(t.folders.take(n) =~= s.folders);
    lemma_push_keeps_parents(s.folders, t.folders);
    let kept = Set::<i64>::full();
    assert forall|i: int| 0 <= i < t.folders.len() implies is_rooted(
        t.folders,
        (#[trigger] t.folders[i]).id,
    ) by {
        if i < n {
            assert(is_rooted(s.folders, s.folders[i].id));
            let steps = choose|steps: nat| rooted_within(s.folders, s.folders[i].id, steps);
            lemma_rooted_kept(s.folders, t.folders, kept, s.folders[i].id, steps);
        } else {
            lemma_folder_index(t.folders, n);
            if parent_id is Some {
                let p = parent_id.unwrap();
                let k = folder_index(s.folders, p);
                assert(is_rooted(s.folders, s.folders[k].id));
                let steps = choose|steps: nat| rooted_within(s.folders, p, steps);
                lemma_rooted_kept(s.folders, t.folders, kept, p, steps);
                assert(rooted_within(t.folders, id, steps + 1));
            } else {
                assert(rooted_within(t.folders, id, 0));
            }
        }
    }
    assert forall|i: int|
        0 <= i < t.folders.len() && (#[trigger] t.folders[i]).parent_id is Some implies has_folder(
        t.folders,
        t.folders[i].parent_id.unwrap(),
    ) by {
        let p = t.folders[i].parent_id.unwrap();
        if i < n {
            assert(s.folders[i].parent_id is Some);
        }
        assert(has_folder(s.folders, p));
        assert(kept.contains(p));
    }
    assert forall|i: int| 0 <= i < t.notes.len() implies has_folder(
        t.folders,
        (#[trigger] t.notes[i]).folder_id,
    ) by {
        assert(has_folder(s.folders, s.notes[i].folder_id));
        assert(kept.contains(s.notes[i].folder_id));
    }
    assert forall|i: int, j: int|
        0 <= i < t.folders.len() && 0 <= j < t.folders.len() && (#[trigger] t.folders[i]).name
            is Some && t.folders[i].name == (#[trigger] t.folders[j]).name implies i == j by {
        if i < n && j < n {
            assert(s.folders[i].name == s.folders[j].name);
        } else if i < n {
            assert(s.folders[i].name == Some(name.unwrap()));
        } else if j < n {
            assert(s.folders[j].name == Some(name.unwrap()));
        }
    }
}

/// A folder added at the end with a new identifier leaves every other
/// folder with its parent.
proof fn lemma_push_keeps_parents(folders: Seq<FolderView>, other: Seq<FolderView>)
    requires
        folders_ascending(other),
        other.len() == folders.len() + 1,
        other.take(folders.len() as int) == folders,
    ensures
        keeps_parents(folders, other, Set::<i64>::full()),
{
    assert forall|i: int| 0 <= i < folders.len() implies folders[i] == other[i] by {
        assert(other.take(folders.len() as int)[i] == other[i]);
    }
    assert(folders_ascending(folders)) by {
        assert forall|i: int, j: int| 0 <= i < j < folders.len() implies (#[trigger] folders[i]).id
            < (#[trigger] folders[j]).id by {
            assert(other[i].id < other[j].id);
        }
    }
    assert forall|id: i64| #[trigger]
        Set::<i64>::full().contains(id) && has_folder(folders, id) implies same_parent(
        folders,
        other,
        id,
    ) by {
        let k = folder_index(folders, id);
        assert(other[k].id == id);
        lemma_folder_index(folders, k);
        lemma_folder_index(other, k);
    }
}

/// Creating a note that the store accepts leaves the store valid.
pub proof fn lemma_insert_note_valid(
    s: StoreState,
    content: Seq<char>,
    date_created: i64,
    folder_id: i64,
    title: Option<Seq<char>>,
)
    requires
        s.valid(),
        s.insert_note_error(folder_id, title) is None,
    ensures
        s.insert_note(content, date_created, folder_id, title).valid(),
{
    reveal_strlit("Untitled Note");
    let t = s.insert_note(content, date_created, folder_id, title);
    let n = s.notes.len() as int;
    assert forall|i: int| 0 <= i < n implies t.notes[i] == s.notes[i] by {}
    assert forall|i: int| 0 <= i < t.notes.len() implies has_folder(
        t.folders,
        (#[trigger] t.notes[i]).folder_id,
    ) by {
        if i < n {
            assert(has_folder(s.folders, s.notes[i].folder_id));
        }
    }
}

/// Filtering rows that stand in the order of their keys takes rows away and
/// does nothing else: the rows that stay are those that pass, as they
/// were and in their order.
pub proof fn lemma_filter_rows<A>(rows: Seq<A>, pass: spec_fn(A) -> bool, key: spec_fn(A) -> int)
    requires
        forall|i: int, j: int| 0 <= i < j < rows.len() ==> key(rows[i]) < key(rows[j]),
    ensures
        rows.filter(pass).len() <= rows.len(),
        forall|j: int|
            0 <= j < rows.filter(pass).len() ==> pass(#[trigger] rows.filter(pass)[j])
                && rows.contains(rows.filter(pass)[j]),
        forall|i: int|
            0 <= i < rows.len() && pass(#[trigger] rows[i]) ==> rows.filter(pass).contains(rows[i]),
        forall|i: int, j: int|
            0 <= i < j < rows.filter(pass).len() ==> key(#[trigger] rows.filter(pass)[i]) < key(
                #[trigger] rows.filter(pass)[j],
            ),
    decreases rows.len(),
{
    reveal(Seq::filter);
    let kept = rows.filter(pass);
    if rows.len() > 0 {
        let before = rows.drop_last();
        let kept_before = before.filter(pass);
        let last = rows.last();
        assert forall|i: int, j: int| 0 <= i < j < before.len() implies key(before[i]) < key(
            before[j],
        ) by {
            assert(before[i] == rows[i] && before[j] == rows[j]);
        }
        lemma_filter_rows(before, pass, key);
        assert forall|j: int| 0 <= j < kept.len() implies pass(#[trigger] kept[j]) && rows.contains(
            kept[j],
        ) by {
            if j < kept_before.len() {
                assert(kept[j] == kept_before[j]);
                assert(before.contains(kept_before[j]));
                let a = choose|a: int| 0 <= a < before.len() && before[a] == kept_before[j];
                assert(rows[a] == kept[j]);
            } else {
                assert(rows[rows.len() - 1] == kept[j]);
            }
        }
        assert forall|i: int| 0 <= i < rows.len() && pass(#[trigger] rows[i]) implies kept.contains(
            rows[i],
        ) by {
            if i < before.len() {
                assert(before[i] == rows[i]);
                assert(kept_before.contains(before[i]));
                let b = choose|b: int| 0 <= b < kept_before.len() && kept_before[b] == before[i];
                assert(kept[b] == rows[i]);
            } else {
                assert(kept[kept.len() - 1] == rows[i]);
            }
        }
        assert forall|i: int, j: int| 0 <= i < j < kept.len() implies key(#[trigger] kept[i]) < key(
            #[trigger] kept[j],
        ) by {
            assert(kept[i] == kept_before[i]);
            if j < kept_before.len() {
                assert(kept[j] == kept_before[j]);
            } else {
                assert(before.contains(kept_before[i]));
                let a = choose|a: int| 0 <= a < before.len() && before[a] == kept_before[i];
                assert(rows[a] == kept[i]);
                assert(kept[j] == rows[rows.len() - 1]);
            }
        }
    }
}

/// Filtering rows that all pass changes nothing.
pub proof fn lemma_filter_all<A>(rows: Seq<A>, pass: spec_fn(A) -> bool)
    requires
        forall|i: int| 0 <= i < rows.len() ==> pass(#[trigger] rows[i]),
    ensures
        rows.filter(pass) == rows,
    decreases rows.len(),
{
    reveal(Seq::filter);
    if rows.len() > 0 {
        let before = rows.drop_last();
        assert forall|i: int| 0 <= i < before.len() implies pass(#[trigger] before[i]) by {
            assert(before[i] == rows[i]);
        }
        lemma_filter_all(before, pass);
        assert(before.push(rows.last()) =~= rows);
    }
}

/// The identifier of a folder, as the key that the folders are ordered by.
pub open spec fn folder_key() -> spec_fn(FolderView) -> int {
    |f: FolderView| f.id as int
}

/// The identifier of a note, as the key that the notes are ordered by.
pub open spec fn note_key() -> spec_fn(NoteView) -> int {
    |n: NoteView| n.id as int
}

/// Deleting a folder takes its subtree and nothing else. The folders of the
/// subtree are gone, and so are the notes in them; every other folder and
/// every other note is still there, as it was; nothing is there that was
/// not; and the store is valid. Where the folder does not exist, the store
/// stays as it is.
pub proof fn lemma_delete_folder(s: StoreState, root: i64)
    requires
        s.valid(),
    ensures
        s.delete_folder(root).valid(),
        forall|i: int|
            0 <= i < s.folders.len() && in_subtree(s.folders, root, (#[trigger] s.folders[i]).id)
                ==> !has_folder(s.delete_folder(root).folders, s.folders[i].id),
        forall|i: int|
            0 <= i < s.folders.len() && !in_subtree(s.folders, root, (#[trigger] s.folders[i]).id)
                ==> s.delete_folder(root).folders.contains(s.folders[i]),
        forall|i: int|
            0 <= i < s.notes.len() && in_subtree(s.folders, root, (#[trigger] s.notes[i]).folder_id)
                ==> !has_note(s.delete_folder(root).notes, s.notes[i].id),
        forall|i: int|
            0 <= i < s.notes.len() && !in_subtree(
                s.folders,
                root,
                (#[trigger] s.notes[i]).folder_id,
            ) ==> s.delete_folder(root).notes.contains(s.notes[i]),
        forall|j: int|
            0 <= j < s.delete_folder(root).folders.len() ==> s.folders.contains(
                #[trigger] s.delete_folder(root).folders[j],
            ),
        forall|j: int|
            0 <= j < s.delete_folder(root).notes.len() ==> s.notes.contains(
                #[trigger] s.delete_folder(root).notes[j],
            ),
        !has_folder(s.delete_folder(root).folders, root),
        !has_folder(s.folders, root) ==> s.delete_folder(root) == s,
{
    let t = s.delete_folder(root);
    let fs = s.folders;
    let gs = t.folders;
    let keep_folder = folder_outside(fs, root);
    let keep_note = note_outside(fs, root);
    lemma_filter_rows(fs, keep_folder, folder_key());
    lemma_filter_rows(s.notes, keep_note, note_key());
    assert(folders_ascending(gs)) by {
        assert forall|i: int, j: int| 0 <= i < j < gs.len() implies (#[trigger] gs[i]).id < (
        #[trigger] gs[j]).id by {
            assert(folder_key()(gs[i]) < folder_key()(gs[j]));
        }
    }
    assert(notes_ascending(t.notes)) by {
        assert forall|i: int, j: int| 0 <= i < j < t.notes.len() implies (#[trigger] t.notes[i]).id
            < (#[trigger] t.notes[j]).id by {
            assert(note_key()(t.notes[i]) < note_key()(t.notes[j]));
        }
    }
    // Every row that stays is a row of the store.
    assert forall|j: int| 0 <= j < gs.len() implies 1 <= (#[trigger] gs[j]).id
        <= t.last_folder_id by {
        assert(fs.contains(gs[j]));
    }
    assert forall|j: int| 0 <= j < t.notes.len() implies {
        &&& 1 <= (#[trigger] t.notes[j]).id <= t.last_note_id
        &&& t.notes[j].title is Some <==> t.title_column
        &&& t.notes[j].title is Some ==> t.notes[j].title.unwrap().len() > 0
    } by {
        assert(s.notes.contains(t.notes[j]));
    }
    // A folder that stays is found where it stands, with the parent it had.
    let kept = Set::<i64>::new(|id: i64| !in_subtree(fs, root, id));
    assert forall|id: i64| #[trigger] kept.contains(id) && has_folder(fs, id) implies {
        &&& same_parent(fs, gs, id)
        &&& parent_of(fs, id) is Some ==> kept.contains(parent_of(fs, id).unwrap())
    } by {
        let k = folder_index(fs, id);
        lemma_folder_index(fs, k);
        assert(keep_folder(fs[k]));
        assert(gs.contains(fs[k]));
        let j = choose|j: int| 0 <= j < gs.len() && gs[j] == fs[k];
        lemma_folder_index(gs, j);
        lemma_subtree(fs, root, id);
    }
    assert(keeps_parents(fs, gs, kept));
    assert forall|j: int| 0 <= j < gs.len() implies is_rooted(gs, (#[trigger] gs[j]).id) by {
        assert(fs.contains(gs[j]));
        let k = choose|k: int| 0 <= k < fs.len() && fs[k] == gs[j];
        assert(is_rooted(fs, fs[k].id));
        let steps = choose|steps: nat| rooted_within(fs, fs[k].id, steps);
        assert(keep_folder(gs[j]));
        lemma_rooted_kept(fs, gs, kept, gs[j].id, steps);
    }
    assert forall|j: int|
        0 <= j < gs.len() && (#[trigger] gs[j]).parent_id is Some implies has_folder(
        gs,
        gs[j].parent_id.unwrap(),
    ) by {
        assert(fs.contains(gs[j]));
        let k = choose|k: int| 0 <= k < fs.len() && fs[k] == gs[j];
        lemma_folder_index(fs, k);
        assert(keep_folder(gs[j]));
        assert(kept.contains(fs[k].id));
        assert(has_folder(fs, fs[k].parent_id.unwrap()));
        assert(same_parent(fs, gs, fs[k].parent_id.unwrap()));
    }
    assert forall|j: int| 0 <= j < t.notes.len() implies has_folder(
        gs,
        (#[trigger] t.notes[j]).folder_id,
    ) by {
        assert(s.notes.contains(t.notes[j]));
        let k = choose|k: int| 0 <= k < s.notes.len() && s.notes[k] == t.notes[j];
        assert(has_folder(fs, s.notes[k].folder_id));
        assert(keep_note(t.notes[j]));
        assert(kept.contains(s.notes[k].folder_id));
        assert(same_parent(fs, gs, s.notes[k].folder_id));
    }
    assert forall|i: int, j: int|
        0 <= i < gs.len() && 0 <= j < gs.len() && (#[trigger] gs[i]).name is Some && gs[i].name == (
        #[trigger] gs[j]).name implies i == j by {
        assert(fs.contains(gs[i]));
        assert(fs.contains(gs[j]));
        let a = choose|a: int| 0 <= a < fs.len() && fs[a] == gs[i];
        let b = choose|b: int| 0 <= b < fs.len() && fs[b] == gs[j];
        assert(fs[a].name == fs[b].name);
        assert(a == b);
        if i < j {
            assert(gs[i].id < gs[j].id);
        } else if j < i {
            assert(gs[j].id < gs[i].id);
        }
    }
    assert(t.valid());
    // What is in the subtree is gone.
    assert forall|i: int|
        0 <= i < fs.len() && in_subtree(fs, root, (#[trigger] fs[i]).id) implies !has_folder(
        gs,
        fs[i].id,
    ) by {
        if has_folder(gs, fs[i].id) {
            let j = folder_index(gs, fs[i].id);
            assert(keep_folder(gs[j]));
        }
    }
    assert forall|i: int|
        0 <= i < s.notes.len() && in_subtree(fs, root, (#[trigger] s.notes[i]).folder_id)
            implies !has_note(t.notes, s.notes[i].id) by {
        if has_note(t.notes, s.notes[i].id) {
            let j = choose|j: int| 0 <= j < t.notes.len() && (#[trigger] t.notes[j]).id
                == s.notes[i].id;
            assert(s.notes.contains(t.notes[j]));
            let k = choose|k: int| 0 <= k < s.notes.len() && s.notes[k] == t.notes[j];
            if k < i {
                assert(s.notes[k].id < s.notes[i].id);
            } else if i < k {
                assert(s.notes[i].id < s.notes[k].id);
            }
            assert(keep_note(t.notes[j]));
        }
    }
    assert forall|i: int|
        0 <= i < fs.len() && !in_subtree(fs, root, (#[trigger] fs[i]).id) implies gs.contains(
        fs[i],
    ) by {
        assert(keep_folder(fs[i]));
    }
    assert forall|i: int|
        0 <= i < s.notes.len() && !in_subtree(fs, root, (#[trigger] s.notes[i]).folder_id)
            implies t.notes.contains(s.notes[i]) by {
        assert(keep_note(s.notes[i]));
    }
    if has_folder(gs, root) {
        let j = folder_index(gs, root);
        assert(keep_folder(gs[j]));
        assert(fs.contains(gs[j]));
        let k = choose|k: int| 0 <= k < fs.len() && fs[k] == gs[j];
        lemma_subtree(fs, root, root);
    }
    if !has_folder(fs, root) {
        assert forall|i: int| 0 <= i < fs.len() implies keep_folder(#[trigger] fs[i]) by {
            lemma_subtree(fs, root, fs[i].id);
        }
        assert forall|i: int| 0 <= i < s.notes.len() implies keep_note(#[trigger] s.notes[i]) by {
            lemma_subtree(fs, root, s.notes[i].folder_id);
        }
        lemma_filter_all(fs, keep_folder);
        lemma_filter_all(s.notes, keep_note);
    }
}

/// Deleting a note takes that note and nothing else, and leaves the store
/// valid.
pub proof fn lemma_delete_note(s: StoreState, id: i64)
    requires
        s.valid(),
    ensures
        s.delete_note(id).valid(),
        !has_note(s.delete_note(id).notes, id),
        forall|i: int|
            0 <= i < s.notes.len() && (#[trigger] s.notes[i]).id != id ==> s.delete_note(
                id,
            ).notes.contains(s.notes[i]),
        forall|j: int|
            0 <= j < s.delete_note(id).notes.len() ==> s.notes.contains(
                #[trigger] s.delete_note(id).notes[j],
            ),
        !has_note(s.notes, id) ==> s.delete_note(id) == s,
{
    let t = s.delete_note(id);
    let pass = |n: NoteView| n.id != id;
    lemma_filter_rows(s.notes, pass, note_key());
    assert(notes_ascending(t.notes)) by {
        assert forall|i: int, j: int| 0 <= i < j < t.notes.len() implies (#[trigger] t.notes[i]).id
            < (#[trigger] t.notes[j]).id by {
            assert(note_key()(t.notes[i]) < note_key()(t.notes[j]));
        }
    }
    assert forall|j: int| 0 <= j < t.notes.len() implies {
        &&& 1 <= (#[trigger] t.notes[j]).id <= t.last_note_id
        &&& t.notes[j].title is Some <==> t.title_column
        &&& t.notes[j].title is Some ==> t.notes[j].title.unwrap().len() > 0
        &&& has_folder(t.folders, t.notes[j].folder_id)
    } by {
        assert(s.notes.contains(t.notes[j]));
    }
    if has_note(t.notes, id) {
        let j = choose|j: int| 0 <= j < t.notes.len() && (#[trigger] t.notes[j]).id == id;
        assert(pass(t.notes[j]));
    }
    assert forall|i: int|
        0 <= i < s.notes.len() && (#[trigger] s.notes[i]).id != id implies t.notes.contains(
        s.notes[i],
    ) by {
        assert(pass(s.notes[i]));
    }
    if !has_note(s.notes, id) {
        assert forall|i: int| 0 <= i < s.notes.len() implies pass(#[trigger] s.notes[i]) by {}
        lemma_filter_all(s.notes, pass);
    }
}

/// A statement that can be executed leaves the store valid. It only adds:
/// no table and no column goes, no row goes or comes, and the recorded
/// version, the folders and the contents of the notes stay as they are.
pub proof fn lemma_execute(s: StoreState, statement: Statement)
    requires
        s.valid(),
    ensures
        s.execute(statement) matches Ok(t) ==> {
            &&& t.valid()
            &&& t.version == s.version
            &&& s.folders_table ==> t.folders_table
            &&& s.note_table ==> t.note_table
            &&& s.title_column ==> t.title_column
            &&& t.folders == s.folders
            &&& t.last_folder_id == s.last_folder_id
            &&& t.last_note_id == s.last_note_id
            &&& t.notes.len() == s.notes.len()
            &&& forall|i: int|
                0 <= i < s.notes.len() ==> (#[trigger] t.notes[i]).content == s.notes[i].content
                    && t.notes[i].id == s.notes[i].id && t.notes[i].folder_id
                    == s.notes[i].folder_id && t.notes[i].date_created
                    == s.notes[i].date_created
        },
{
    reveal_strlit("Untitled Note");
    match s.execute(statement) {
        Ok(t) => {
            assert forall|i: int| 0 <= i < t.notes.len() implies {
                &&& (#[trigger] t.notes[i]).id == s.notes[i].id
                &&& t.notes[i].folder_id == s.notes[i].folder_id
                &&& t.notes[i].content == s.notes[i].content
                &&& t.notes[i].title is Some <==> t.title_column
                &&& t.notes[i].title is Some ==> t.notes[i].title.unwrap().len() > 0
            } by {
                lemma_title_not_empty(s.notes[i].content);
            }
            assert(notes_ascending(t.notes)) by {
                assert forall|i: int, j: int| 0 <= i < j < t.notes.len() implies (
                #[trigger] t.notes[i]).id < (#[trigger] t.notes[j]).id by {
                    assert(s.notes[i].id < s.notes[j].id);
                }
            }
            assert forall|i: int| 0 <= i < t.notes.len() implies has_folder(
                t.folders,
                (#[trigger] t.notes[i]).folder_id,
            ) by {
                assert(has_folder(s.folders, s.notes[i].folder_id));
            }
            assert forall|i: int| 0 <= i < t.notes.len() implies 1 <= (#[trigger] t.notes[i]).id
                <= t.last_note_id by {
                assert(1 <= s.notes[i].id <= s.last_note_id);
            }
        },
        Err(_) => {},
    }
}

/// Once a folder has a name, the store refuses a second folder with that
/// name, whatever else is asked of the second.
pub proof fn lemma_name_taken_once(
    s: StoreState,
    name: Seq<char>,
    date_created: i64,
    parent_id: Option<i64>,
    second_date_created: i64,
    second_parent_id: Option<i64>,
)
    requires
        s.valid(),
        s.insert_folder_error(Some(name), parent_id) is None,
    ensures
        s.insert_folder(Some(name), date_created, parent_id).insert_folder_error(
            Some(name),
            second_parent_id,
        ) == Some(StoreError::DuplicateName),
{
    let t = s.insert_folder(Some(name), date_created, parent_id);
    assert(t.folders[s.folders.len() as int].name == Some(name));
}

/// Giving a folder a name that the store accepts leaves the store valid and
/// touches nothing but that name.
pub proof fn lemma_rename_folder(s: StoreState, id: i64, name: Option<Seq<char>>)
    requires
        s.valid(),
        s.rename_folder_error(id, name) is None,
    ensures
        s.rename_folder(id, name).valid(),
        s.rename_folder(id, name).folders.len() == s.folders.len(),
        forall|i: int|
            0 <= i < s.folders.len() ==> (#[trigger] s.rename_folder(id, name).folders[i])
                == if s.folders[i].id == id {
                with_name(s.folders[i], name)
            } else {
                s.folders[i]
            },
{
    let t = s.rename_folder(id, name);
    let fs = s.folders;
    let gs = t.folders;
    assert forall|i: int, j: int| 0 <= i < j < gs.len() implies (#[trigger] gs[i]).id < (
    #[trigger] gs[j]).id by {
        assert(fs[i].id < fs[j].id);
    }
    assert forall|i: int| 0 <= i < gs.len() implies 1 <= (#[trigger] gs[i]).id
        <= t.last_folder_id by {
        assert(1 <= fs[i].id <= s.last_folder_id);
    }
    lemma_same_rows_keep_parents(fs, gs);
    lemma_kept_forest(s, t);
    assert forall|i: int, j: int|
        0 <= i < gs.len() && 0 <= j < gs.len() && (#[trigger] gs[i]).name is Some && gs[i].name == (
        #[trigger] gs[j]).name implies i == j by {
        if i != j {
            if fs[i].id == id {
                if i < j {
                    assert(fs[i].id < fs[j].id);
                } else {
                    assert(fs[j].id < fs[i].id);
                }
                assert(fs[j].name == Some(name.unwrap()));
            } else if fs[j].id == id {
                if i < j {
                    assert(fs[i].id < fs[j].id);
                } else {
                    assert(fs[j].id < fs[i].id);
                }
                assert(fs[i].name == Some(name.unwrap()));
            } else {
                assert(fs[i].name == fs[j].name);
            }
        }
    }
}

/// Where the rows of `other` are those of `folders` with the same
/// identifiers and parents, every folder is kept with its parent.
proof fn lemma_same_rows_keep_parents(folders: Seq<FolderView>, other: Seq<FolderView>)
    requires
        folders_ascending(folders),
        other.len() == folders.len(),
        forall|i: int|
            0 <= i < folders.len() ==> (#[trigger] other[i]).id == folders[i].id
                && other[i].parent_id == folders[i].parent_id,
    ensures
        folders_ascending(other),
        keeps_parents(folders, other, Set::<i64>::full()),
{
    assert forall|i: int, j: int| 0 <= i < j < other.len() implies (#[trigger] other[i]).id < (
    #[trigger] other[j]).id by {
        assert(folders[i].id < folders[j].id);
    }
    assert forall|id: i64| #[trigger]
        Set::<i64>::full().contains(id) && has_folder(folders, id) implies same_parent(
        folders,
        other,
        id,
    ) by {
        let k = folder_index(folders, id);
        assert(other[k].id == id);
        lemma_folder_index(folders, k);
        lemma_folder_index(other, k);
    }
}

/// A store whose folders are all kept with their parents, and whose notes
/// are untouched, still has every folder that a row refers to, and its
/// folders still form a forest.
proof fn lemma_kept_forest(s: StoreState, t: StoreState)
    requires
        s.references_valid(),
        s.acyclic(),
        folders_ascending(s.folders),
        folders_ascending(t.folders),
        keeps_parents(s.folders, t.folders, Set::<i64>::full()),
        t.folders.len() == s.folders.len(),
        forall|i: int|
            0 <= i < s.folders.len() ==> (#[trigger] t.folders[i]).id == s.folders[i].id
                && t.folders[i].parent_id == s.folders[i].parent_id,
        t.notes == s.notes,
    ensures
        t.references_valid(),
        t.acyclic(),
{
    let kept = Set::<i64>::full();
    assert forall|i: int| 0 <= i < t.folders.len() implies is_rooted(
        t.folders,
        (#[trigger] t.folders[i]).id,
    ) by {
        assert(is_rooted(s.folders, s.folders[i].id));
        let steps = choose|steps: nat| rooted_within(s.folders, s.folders[i].id, steps);
        lemma_rooted_kept(s.folders, t.folders, kept, s.folders[i].id, steps);
    }
    assert forall|i: int|
        0 <= i < t.folders.len() && (#[trigger] t.folders[i]).parent_id is Some implies has_folder(
        t.folders,
        t.folders[i].parent_id.unwrap(),
    ) by {
        let p = s.folders[i].parent_id.unwrap();
        assert(has_folder(s.folders, p));
        assert(kept.contains(p));
    }
    assert forall|i: int| 0 <= i < t.notes.len() implies has_folder(
        t.folders,
        (#[trigger] t.notes[i]).folder_id,
    ) by {
        assert(has_folder(s.folders, s.notes[i].folder_id));
        assert(kept.contains(s.notes[i].folder_id));
    }
}

/// A folder below the folder that moved still ends at a root, once the
/// folder that moved does.
proof fn lemma_rooted_below(
    folders: Seq<FolderView>,
    other: Seq<FolderView>,
    moved: i64,
    id: i64,
    steps: nat,
)
    requires
        ancestor_within(folders, moved, id, steps),
        is_rooted(other, moved),
        forall|x: i64|
            has_folder(folders, x) && x != moved ==> #[trigger] same_parent(folders, other, x),
    ensures
        is_rooted(other, id),
    decreases steps,
{
    if id != moved {
        let parent = parent_of(folders, id).unwrap();
        lemma_rooted_below(folders, other, moved, parent, (steps - 1) as nat);
        let above = choose|above: nat| rooted_within(other, parent, above);
        assert(same_parent(folders, other, id));
        assert(rooted_within(other, id, above + 1));
    }
}

/// Moving a folder where the store accepts it leaves the store valid, the
/// folders a forest, and touches nothing but the parent of that folder.
pub proof fn lemma_move_folder(s: StoreState, id: i64, parent_id: Option<i64>)
    requires
        s.valid(),
        s.move_folder_error(id, parent_id) is None,
    ensures
        s.move_folder(id, parent_id).valid(),
        s.move_folder(id, parent_id).folders.len() == s.folders.len(),
        forall|i: int|
            0 <= i < s.folders.len() ==> (#[trigger] s.move_folder(id, parent_id).folders[i])
                == if s.folders[i].id == id {
                with_parent(s.folders[i], parent_id)
            } else {
                s.folders[i]
            },
{
    let t = s.move_folder(id, parent_id);
    let fs = s.folders;
    let gs = t.folders;
    assert forall|i: int, j: int| 0 <= i < j < gs.len() implies (#[trigger] gs[i]).id < (
    #[trigger] gs[j]).id by {
        assert(fs[i].id < fs[j].id);
    }
    assert forall|i: int| 0 <= i < gs.len() implies 1 <= (#[trigger] gs[i]).id
        <= t.last_folder_id by {
        assert(1 <= fs[i].id <= s.last_folder_id);
    }
    assert forall|i: int, j: int|
        0 <= i < gs.len() && 0 <= j < gs.len() && (#[trigger] gs[i]).name is Some && gs[i].name == (
        #[trigger] gs[j]).name implies i == j by {
        assert(fs[i].name == fs[j].name);
    }
    // Every folder is still there, and all but the one that moved have the
    // parent they had.
    assert forall|x: i64| has_folder(fs, x) implies #[trigger] has_folder(gs, x) by {
        let k = folder_index(fs, x);
        assert(gs[k].id == x);
    }
    assert forall|x: i64| has_folder(fs, x) && x != id implies #[trigger] same_parent(
        fs,
        gs,
        x,
    ) by {
        let k = folder_index(fs, x);
        assert(gs[k].id == x);
        lemma_folder_index(fs, k);
        lemma_folder_index(gs, k);
    }
    let m = folder_index(fs, id);
    lemma_folder_index(fs, m);
    lemma_folder_index(gs, m);
    assert(parent_of(gs, id) == parent_id);
    // What is outside the subtree of the folder never passes through it.
    let outside = Set::<i64>::new(|x: i64| !in_subtree(fs, id, x));
    assert forall|x: i64| #[trigger] outside.contains(x) && has_folder(fs, x) implies {
        &&& same_parent(fs, gs, x)
        &&& parent_of(fs, x) is Some ==> outside.contains(parent_of(fs, x).unwrap())
    } by {
        lemma_subtree(fs, id, x);
        lemma_subtree(fs, id, id);
    }
    assert(keeps_parents(fs, gs, outside));
    // The folder that moved ends at a root through its new parent.
    assert(is_rooted(gs, id)) by {
        if parent_id is Some {
            let p = parent_id.unwrap();
            let k = folder_index(fs, p);
            assert(is_rooted(fs, fs[k].id));
            let steps = choose|steps: nat| rooted_within(fs, p, steps);
            lemma_rooted_kept(fs, gs, outside, p, steps);
            assert(rooted_within(gs, id, steps + 1));
        } else {
            assert(rooted_within(gs, id, 0));
        }
    }
    assert forall|i: int| 0 <= i < gs.len() implies is_rooted(gs, (#[trigger] gs[i]).id) by {
        let x = fs[i].id;
        if in_subtree(fs, id, x) {
            let steps = choose|steps: nat| ancestor_within(fs, id, x, steps);
            lemma_rooted_below(fs, gs, id, x, steps);
        } else {
            assert(is_rooted(fs, fs[i].id));
            let steps = choose|steps: nat| rooted_within(fs, x, steps);
            lemma_rooted_kept(fs, gs, outside, x, steps);
        }
    }
    assert forall|i: int|
        0 <= i < gs.len() && (#[trigger] gs[i]).parent_id is Some implies has_folder(
        gs,
        gs[i].parent_id.unwrap(),
    ) by {
        if fs[i].id != id {
            assert(has_folder(fs, fs[i].parent_id.unwrap()));
        }
    }
    assert forall|i: int| 0 <= i < t.notes.len() implies has_folder(
        gs,
        (#[trigger] t.notes[i]).folder_id,
    ) by {
        assert(has_folder(fs, s.notes[i].folder_id));
    }
}

} // verus!
